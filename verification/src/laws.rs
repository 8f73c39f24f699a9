//! What the library promises of each operation as a whole, stated over the memory, the
//! documents and the settings that go in and the results that come out.

pub mod chains;
pub mod documents;
pub mod generation;
pub mod imports;
pub mod layers;
pub mod memory;
pub mod reports;
pub mod search;
pub mod sessions;
pub mod settings;
pub mod tables;
pub mod window;
