//! A reader for pcapng capture files: the section header, its options,
//! interface description, enhanced packet and interface statistics blocks.
#![allow(non_camel_case_types)]

pub mod bytes;
pub mod model;
pub mod pcapng;
pub mod laws;
pub mod roundtrip;
