//! Tirra: an encrypted notebook. This crate holds the verified core of the
//! notebook: page encryption of the database file, the age file format,
//! the entry list model, the synchronisation decision and the UI state.
pub mod common;
pub mod crypto;
pub mod db;
pub mod gui;
pub mod gui_iced;
pub mod storage;
pub mod tirracrypto;
pub mod ui;
