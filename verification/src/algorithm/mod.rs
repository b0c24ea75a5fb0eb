pub mod lis;

pub use lis::lis;
