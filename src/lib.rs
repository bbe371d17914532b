//! Expansion of a templated vector-graphics label into every variant that its
//! components allow, with SKU resolution and ignore rules.

pub mod text;
pub mod component;
pub mod ignore_condition;
pub mod output_variant;
pub mod expansion;
pub mod pipeline;
pub mod manifest;
