pub mod capture;
pub mod decode;
pub mod dect;
