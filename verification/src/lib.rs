//! Diagnostic events of eBPF programs, decoded and prepared for tracing.

pub mod event;
pub mod hashmap;
pub mod map;
pub mod path;
pub mod text;
pub mod tracing;
