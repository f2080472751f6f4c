pub mod align;
pub mod assist_location;
pub mod engine;
pub mod fill;
pub mod location;
pub mod page_number;
pub mod vx;
