pub mod error;
pub mod field;
pub mod r1cs;
pub mod binding;
pub mod wire;
pub mod import;
pub mod gadget;
pub mod synth;
