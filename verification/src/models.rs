pub mod linear_v2;
pub mod anvil;
pub mod linear_v1;
