pub mod chars;
pub mod lookahead_iter;
pub mod text;
