//! Reading PDF files: object structure, encryption and the page tree, and what is done to a
//! document once its pages are assembled.

pub mod ai_content_laws;
pub mod ai_laws;
pub mod ai_wiring;
pub mod count;
pub mod error;
pub mod model;
pub mod parser;
