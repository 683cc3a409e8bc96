pub mod modules;
pub mod names;
pub mod exprs;
pub mod items;
