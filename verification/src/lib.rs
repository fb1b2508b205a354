//! The verified core of a small language-model inference engine.
pub mod alphabet;
pub mod arith;
pub mod attention;
pub mod bench;
pub mod bpe;
pub mod bytes;
pub mod dot;
pub mod entries;
pub mod exact;
pub mod forward;
pub mod functional;
pub mod json;
pub mod known;
pub mod linear;
pub mod loader;
pub mod model;
pub mod named;
pub mod norm;
mod parallel;
pub mod passes;
pub mod project;
pub mod quantize;
pub mod real_attention;
pub mod real_dot;
pub mod real_heads;
pub mod real_kernels;
pub mod real_layer;
pub mod real_norm;
pub mod real_quantize;
pub mod real_sampling;
pub mod real_weights;
pub mod reals;
pub mod rest;
pub mod rope;
pub mod roundtrip;
pub mod sampling;
pub mod session;
pub mod splitting;
pub mod stored;
pub mod tensor;
pub mod text;
pub mod time;
pub mod tokenizer;
pub mod vocabulary;
pub mod weights;
