//! Which page the window shows, and what the window does next, as the
//! events of the window come in.
use vstd::prelude::*;

use crate::ui::ui::{inactivity_seconds, KbCtrl, WriterView};

verus! {

/// The page on display.
#[derive(Debug, Clone, Copy, PartialEq, Eq, Structural)]
pub enum AppPage {
    Login,
    Editor,
}

/// The input that takes the keyboard focus.
#[derive(Debug, Clone, Copy, PartialEq, Eq, Structural)]
pub enum FocusTarget {
    Search,
    Cli,
    TextEditor,
    LoginInput,
}

/// What happens to the window.
#[derive(Debug, Clone, Copy, PartialEq, Eq, Structural)]
pub enum AppEvent {
    /// The periodic tick, every few seconds.
    PeriodicTick,
    /// A control key, which the page on display has been handed first
    /// (its `on_ctrl`, followed on the editor by a tick).
    Ctrl(KbCtrl),
    /// A message of the login page, which the login page has handled.
    LoginMessage,
    /// The window takes the focus.
    WindowFocused,
    /// The window is asked to close.
    CloseRequested,
    /// Any other event of the user: a sign of activity.
    Activity,
}

/// What the application does next.
#[derive(Debug, Clone, Copy, PartialEq, Eq, Structural)]
pub enum AppAction {
    Nothing,
    /// The user is logged out: a fresh login page replaces the editor.
    OpenLogin,
    /// The editor gets its tick: it saves the entry on display.
    EditorTick,
    /// The user is logged in: the editor opens on the database.
    OpenEditor,
    /// The given input takes the focus.
    Focus(FocusTarget),
    /// The page on display records the activity (its `on_activity`).
    RecordActivity,
    /// The editor, if it is on display, closes (its `on_close`, which saves),
    /// then the window closes.
    CloseWindow,
}

/// The page on display and the next action once `ev` comes in on `page`;
/// `inactive` tells whether the editor has been idle past its delay
/// (`WriterUi::is_inactivity`), `logged_in` whether the login page has
/// logged the user in (`LoginUi::is_logged_in`).
pub open spec fn app_step_spec(page: AppPage, ev: AppEvent, inactive: bool, logged_in: bool) -> (AppPage, AppAction) {
    match ev {
        AppEvent::PeriodicTick => match page {
            AppPage::Editor => if inactive {
                (AppPage::Login, AppAction::OpenLogin)
            } else {
                (AppPage::Editor, AppAction::EditorTick)
            },
            AppPage::Login => (AppPage::Login, AppAction::Nothing),
        },
        AppEvent::Ctrl(k) => match page {
            AppPage::Editor => (
                AppPage::Editor,
                match k {
                    KbCtrl::CtrlShiftF => AppAction::Focus(FocusTarget::Search),
                    KbCtrl::CtrlP => AppAction::Focus(FocusTarget::Cli),
                    KbCtrl::CtrlN => AppAction::Focus(FocusTarget::TextEditor),
                    _ => AppAction::Nothing,
                },
            ),
            AppPage::Login => (AppPage::Login, AppAction::Nothing),
        },
        AppEvent::LoginMessage => if logged_in {
            (AppPage::Editor, AppAction::OpenEditor)
        } else {
            (AppPage::Login, AppAction::Nothing)
        },
        AppEvent::WindowFocused => match page {
            AppPage::Login => (AppPage::Login, AppAction::Focus(FocusTarget::LoginInput)),
            AppPage::Editor => (AppPage::Editor, AppAction::Nothing),
        },
        AppEvent::CloseRequested => (page, AppAction::CloseWindow),
        AppEvent::Activity => (page, AppAction::RecordActivity),
    }
}

/// The page on display and the next action once `ev` comes in on `page`
/// (see `app_step_spec`). A login message comes only from the login page.
pub fn app_step(page: AppPage, ev: AppEvent, inactive: bool, logged_in: bool) -> (r: (AppPage, AppAction))
    requires
        ev is LoginMessage ==> page is Login,
    ensures
        r == app_step_spec(page, ev, inactive, logged_in),
        page is Editor && ev is PeriodicTick && inactive ==> r == (AppPage::Login, AppAction::OpenLogin),
        page is Editor && ev is PeriodicTick && !inactive ==> r == (AppPage::Editor, AppAction::EditorTick),
        page is Login && ev is LoginMessage ==> r == (if logged_in {
            (AppPage::Editor, AppAction::OpenEditor)
        } else {
            (AppPage::Login, AppAction::Nothing)
        }),
        page is Editor && ev == AppEvent::Ctrl(KbCtrl::CtrlShiftF) ==> r == (
            AppPage::Editor,
            AppAction::Focus(FocusTarget::Search),
        ),
        page is Editor && ev == AppEvent::Ctrl(KbCtrl::CtrlP) ==> r == (AppPage::Editor, AppAction::Focus(FocusTarget::Cli)),
        page is Editor && ev == AppEvent::Ctrl(KbCtrl::CtrlN) ==> r == (
            AppPage::Editor,
            AppAction::Focus(FocusTarget::TextEditor),
        ),
        page is Login && ev is WindowFocused ==> r == (AppPage::Login, AppAction::Focus(FocusTarget::LoginInput)),
        ev is CloseRequested ==> r == (page, AppAction::CloseWindow),
{
    match ev {
        AppEvent::PeriodicTick => match page {
            AppPage::Editor => if inactive {
                (AppPage::Login, AppAction::OpenLogin)
            } else {
                (AppPage::Editor, AppAction::EditorTick)
            },
            AppPage::Login => (AppPage::Login, AppAction::Nothing),
        },
        AppEvent::Ctrl(k) => match page {
            AppPage::Editor => {
                let a = match k {
                    KbCtrl::CtrlShiftF => AppAction::Focus(FocusTarget::Search),
                    KbCtrl::CtrlP => AppAction::Focus(FocusTarget::Cli),
                    KbCtrl::CtrlN => AppAction::Focus(FocusTarget::TextEditor),
                    _ => AppAction::Nothing,
                };
                (AppPage::Editor, a)
            },
            AppPage::Login => (AppPage::Login, AppAction::Nothing),
        },
        AppEvent::LoginMessage => if logged_in {
            (AppPage::Editor, AppAction::OpenEditor)
        } else {
            (AppPage::Login, AppAction::Nothing)
        },
        AppEvent::WindowFocused => match page {
            AppPage::Login => (AppPage::Login, AppAction::Focus(FocusTarget::LoginInput)),
            AppPage::Editor => (AppPage::Editor, AppAction::Nothing),
        },
        AppEvent::CloseRequested => (page, AppAction::CloseWindow),
        AppEvent::Activity => (page, AppAction::RecordActivity),
    }
}

/// An editor left idle for more than three minutes (`inactivity_seconds`)
/// at time `now` is closed at the next tick: the login page takes its place.
pub proof fn lemma_inactivity_logs_out(v: WriterView, now: i64, logged_in: bool)
    requires
        now - v.last_activity > inactivity_seconds(),
    ensures
        app_step_spec(AppPage::Editor, AppEvent::PeriodicTick, now - v.last_activity > inactivity_seconds(), logged_in)
            == (AppPage::Login, AppAction::OpenLogin),
        inactivity_seconds() == 180,
{
}

} // verus!
