pub mod ids;
pub mod kinds;
pub mod filters;
pub mod network;
pub mod spatial;
pub mod edits;
pub mod savefile;
pub mod impact;
pub mod routing;
pub mod ingest;
