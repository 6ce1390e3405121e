pub mod buffer;
pub mod error;
pub mod name;
pub mod packet;
