pub mod token;
pub mod tokenstream;
pub mod tokenizer;
pub mod measure;
