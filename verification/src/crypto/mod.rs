pub mod primitives;
pub mod cipher;
pub mod age;
