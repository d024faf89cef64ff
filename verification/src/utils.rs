pub mod point;
pub mod text;
