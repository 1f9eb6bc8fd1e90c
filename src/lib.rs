pub mod cursor;
pub mod error;
pub mod header;
pub mod connectivity;
pub mod decoder;
pub mod corner_table;
pub mod sequencer;
pub mod prediction;
pub mod attributes;
