pub mod app;
pub mod pages;
pub mod styles;
