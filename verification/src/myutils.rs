pub mod image;
pub mod rendering;
