//! Recovery of file boundaries in raw tape images written by early Unix
//! dumping programs.

pub mod interval;
pub mod util;
pub mod detect;
pub mod segment;
pub mod split;
pub mod s1;
pub mod block;
pub mod tap;
pub mod export;
