//! PDF objects as a file stores them.

pub mod ascii;
pub mod cipher;
pub mod crypt;
pub mod crypt_laws;
pub mod decrypt;
pub mod document;
pub mod document_laws;
pub mod numbers;
pub mod object;
pub mod objstm;
pub mod page_laws;
pub mod pages;
pub mod stream;
pub mod stream_laws;
pub mod tokenizer;
pub mod xref;
pub mod xref_laws;
