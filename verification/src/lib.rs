//! Analysis of JVM thread-dump text: vendor detection, dialect parsing into a
//! normalized model, frame and thread classification, and detection of threads
//! that stay blocked across a series of dumps.

pub mod models;
pub mod text;
pub mod analyzer;
pub mod openjdk;
pub mod ibm;
pub mod parser;
pub mod codec;
mod clock;
