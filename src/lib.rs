//! Integer and text logic of a small image renderer: which component slot a
//! position names, and the plain-text pixel image format.

pub mod axis;
pub mod ppm;

pub use axis::Axis;
pub use ppm::{encode_header, encode_image, encode_pixel};
