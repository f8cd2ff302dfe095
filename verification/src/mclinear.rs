pub mod b_linear_v3;
pub mod utils;
