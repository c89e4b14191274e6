//! AegisNode: a privacy-preserving proxy in front of LLM providers.
//! The verified core: configuration values, the PII scanner and redactor,
//! the error responses, and the decisions of the request pipeline.

pub mod config;
pub mod text;
pub mod scanner;
pub mod error;
pub mod engine;
pub mod upstream;
pub mod openai;
