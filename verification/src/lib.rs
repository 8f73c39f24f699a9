//! Verified core of forza-painter: the logic behind the vinyl generator, the
//! layer locator and the importer, with every decision stated as a contract.

pub mod backend;
pub mod chain;
pub mod cli;
pub mod device;
pub mod diagnosis;
pub mod drawing;
pub mod float_bits;
pub mod generate;
pub mod geometry;
pub mod gui;
pub mod importer;
pub mod json;
pub mod laws;
pub mod layers;
pub mod locator;
pub mod notices;
pub mod preview;
pub mod probe;
pub mod procs;
pub mod profiles;
pub mod table;
pub mod template;
pub mod text;
pub mod winmem;
