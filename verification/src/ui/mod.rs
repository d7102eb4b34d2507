pub mod command_line;
pub mod ui;
