pub mod utils;
pub mod year2025;
