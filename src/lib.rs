pub mod count;
pub mod digest;
pub mod filter;
pub mod keeper;
pub mod finder;
