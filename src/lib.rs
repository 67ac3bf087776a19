pub mod cursor;
pub mod ppm;
pub mod layout;
pub mod display;

pub use cursor::{ByteCursor, PpmError};
pub use display::{screen_pixel, window_size};
pub use ppm::{decode_ppm_image, read_num, Image, Pixel};
