//! From the bytes of a file to a document.

pub mod dedup;
pub mod dedup_laws;
pub mod objstm_laws;
pub mod raw;
pub mod test_pdf;
pub mod test_pdf_laws;
pub mod token_laws;
