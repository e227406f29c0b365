//! Streaming chat-completion client core: request building, SSE reassembly,
//! model listing and code-block extraction, each stated over plain values.

pub mod text;
pub mod codeblock;
pub mod sse;
pub mod sse_laws;
pub mod request;
pub mod models;
