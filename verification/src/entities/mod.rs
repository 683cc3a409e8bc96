pub mod messages;
pub mod names;
pub mod src;
