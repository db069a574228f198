//! The verified core of a spectral renderer: its configuration language, the programs
//! that compute material values, and the stores and containers that the renderer reads.
pub mod lexer;
pub mod syntax;
pub mod grammar;
pub mod parser;
pub mod program;
pub mod spatial;
pub mod texture;
pub mod project;
pub mod renderer;
pub mod config;
pub mod pooling;
