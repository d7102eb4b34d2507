//! The login page of the window.
use vstd::prelude::*;

use crate::common::version::VERSION;
use crate::ui::ui::{LoginAction, LoginUi, TirraInterface};

verus! {

pub struct LoginPage {
    pub login_ui: LoginUi,
}

/// What the login page receives.
#[derive(Debug, Clone)]
pub enum Message {
    PwdInputChanged(String),
    LoginButtonPressed,
    LoginSuccess,
}

impl LoginPage {
    pub fn new(login_ui: LoginUi) -> (p: Self)
        ensures
            p.login_ui == login_ui,
    {
        Self { login_ui }
    }

    /// Answers a message: the passphrase is typed in, or the user logs in,
    /// which asks the database what `LoginUi::on_login` says.
    pub fn update(&mut self, message: Message) -> (a: Option<LoginAction>)
        ensures
            match message {
                Message::PwdInputChanged(s) => a is None && final(self).login_ui.password_view() == s@
                    && final(self).login_ui.location_view() == old(self).login_ui.location_view()
                    && final(self).login_ui.found_view() == old(self).login_ui.found_view()
                    && final(self).login_ui.info_view() == old(self).login_ui.info_view()
                    && final(self).login_ui.logged_in_view() == old(self).login_ui.logged_in_view(),
                Message::LoginButtonPressed => a == Some(
                    if old(self).login_ui.found_view() {
                        LoginAction::CheckAccess
                    } else {
                        LoginAction::CreateDatabase
                    },
                ) && final(self).login_ui == old(self).login_ui,
                Message::LoginSuccess => a is None && final(self).login_ui == old(self).login_ui,
            },
    {
        match message {
            Message::PwdInputChanged(s) => {
                self.login_ui.on_pwd(s);
                None
            },
            Message::LoginButtonPressed => Some(self.login_ui.on_login()),
            Message::LoginSuccess => None,
        }
    }

    pub fn title(&self) -> (t: String)
        ensures
            t@ == "Tirra - open \t"@ + VERSION@,
    {
        self.login_ui.title()
    }

    /// The id of the text input that has the focus when the program starts.
    pub fn text_input_id_to_focus() -> (id: &'static str)
        ensures
            id@ == "pwdinput-id"@,
    {
        "pwdinput-id"
    }
}

} // verus!
