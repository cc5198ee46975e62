//! Observation pipeline for a beacon-scanning device.
//!
//! The crate keeps a bounded, insertion-ordered history of beacon
//! observations, renders that history in the JSON shape served by the
//! device's query endpoint, decodes that shape back, and drives the
//! network/time bring-up and scan-session state machines that gate and
//! feed the pipeline.

pub mod ble;
pub mod clock;
pub mod codec;
pub mod decoder;
pub mod observation;
pub mod bringup;
pub mod queue;
pub mod scanner;
pub mod wifi;
