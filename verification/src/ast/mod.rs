pub mod expr;
pub mod token;
pub mod intrinsics;
pub mod utils;
pub mod literal;
pub mod definition;
pub mod compare;
pub mod parser;
