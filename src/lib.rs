pub mod bitstream;
pub mod codec;
pub mod frame;
pub mod image;
