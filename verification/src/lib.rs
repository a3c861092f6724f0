//! The images of a parallax hologram: finding them in a directory, decoding them, arranging them
//! in a grid and packing them into a texture for the shader.

pub mod decode;
pub mod entry;
pub mod file_name;
pub mod images;
pub mod loader;
pub mod mode;
pub mod run;
pub mod select;
pub mod texture;
