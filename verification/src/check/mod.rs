pub mod ty;
pub mod checker;
