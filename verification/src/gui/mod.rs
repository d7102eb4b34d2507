pub mod pages;
pub mod styles;
