//! Reading Paxton Net2 desktop readers and preparing their tokens for Net2:
//! frame building and parsing, token decoding, the card assignment queue and
//! the rules for what Net2 accepts.
pub mod protocol;
pub mod text;
pub mod token;
pub mod json;
pub mod net2;
pub mod batch;
pub mod batch_laws;
pub mod reader;
pub mod portrait;
