pub mod flat;
