pub mod relevancy;
