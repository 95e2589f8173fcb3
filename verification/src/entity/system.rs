pub mod owned_by_connection;
pub mod replicator;
pub mod user_chunk_ticket_updater;
