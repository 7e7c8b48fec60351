pub mod sba;
pub mod qbm;
