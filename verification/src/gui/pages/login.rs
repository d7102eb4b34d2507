//! The login page of the first window.
use vstd::prelude::*;

use crate::common::utils::{chars_of, string_from_chars};

verus! {

pub struct LoginPage {
    pub db_location: String,
    db_found: bool,
    info_text: String,
    pub password: String,
}

impl LoginPage {
    /// The location of the database.
    pub closed spec fn location_view(&self) -> Seq<char> {
        self.db_location@
    }

    /// The passphrase typed so far.
    pub closed spec fn password_view(&self) -> Seq<char> {
        self.password@
    }

    /// Whether the database file was found.
    pub closed spec fn found_view(&self) -> bool {
        self.db_found
    }

    /// The message shown under the passphrase.
    pub closed spec fn info_view(&self) -> Seq<char> {
        self.info_text@
    }

    /// The login page for the database at `db_location`; `db_found` tells
    /// whether the file is there.
    pub fn new(db_location: &str, db_found: bool) -> (p: Self)
        ensures
            p.location_view() == db_location@,
            p.password_view() == Seq::<char>::empty(),
            p.found_view() == db_found,
            p.info_view() == (if db_found { Seq::empty() } else { " Database file was not found.\n"@ }),
    {
        let info: Vec<char> = if db_found { Vec::new() } else { chars_of(" Database file was not found.\n") };
        assert(info@ =~= (if db_found { Seq::empty() } else { " Database file was not found.\n"@ }));
        Self {
            db_location: db_location.to_owned(),
            db_found: db_found,
            info_text: string_from_chars(info.as_slice()),
            password: String::new(),
        }
    }

    pub fn title(&self) -> (t: String)
        ensures
            t@ == "Tirra - Open"@,
    {
        "Tirra - Open".to_owned()
    }

    /// The id of the text input that has the focus when the program starts.
    pub fn text_input_id_to_focus() -> (id: &'static str)
        ensures
            id@ == "pwdinput-id"@,
    {
        "pwdinput-id"
    }
}

} // verus!
