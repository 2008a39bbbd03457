//! A small HTTP/1.1 server core: request parsing, response serialization,
//! exact-match routing and an in-memory message store, with every function
//! specified over byte sequences and proved against that specification.

pub mod assoc;
pub mod controllers;
pub mod decimal;
pub mod fields;
pub mod http;
pub mod json;
pub mod store;
pub mod text;
