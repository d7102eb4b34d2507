pub mod tirracrypto;
pub mod age;
pub mod db;
pub mod sync;
