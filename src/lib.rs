pub mod matrix;
pub mod registration;
pub mod visualization;
