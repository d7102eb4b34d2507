pub mod utils;
pub mod version;
