//! Encodes a target against an optional source (dictionary) into SMDIFF operations
//! and sections.
pub mod hash;
pub mod hasher;
pub mod hashmap;
pub mod ranger;
pub mod trgt_matcher;
pub mod src_matcher;
pub mod inner;
pub mod op_maker;
pub mod config;
pub mod section;
pub mod sequence;
pub mod runs;
