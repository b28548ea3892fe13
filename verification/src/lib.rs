//! Core of a keyboard-matrix input pipeline: scanning, debouncing, layered
//! action resolution with hold-tap timing, and packing of the held key set
//! into a fixed-capacity wire report.

pub mod action;
pub mod debounce;
pub mod layout;
pub mod pipeline;
pub mod report;
pub mod scan;
