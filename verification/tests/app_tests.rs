use tirra::gui_iced::app::{app_step, AppAction, AppEvent, AppPage, FocusTarget};
use tirra::storage::db::{TirraEntry, TirraEntryList};
use tirra::ui::ui::{KbCtrl, WriterUi};

#[test]
fn inactive_editor_logs_out_on_tick() {
    assert_eq!(app_step(AppPage::Editor, AppEvent::PeriodicTick, true, true), (AppPage::Login, AppAction::OpenLogin));
    assert_eq!(app_step(AppPage::Editor, AppEvent::PeriodicTick, false, true), (AppPage::Editor, AppAction::EditorTick));
    assert_eq!(app_step(AppPage::Login, AppEvent::PeriodicTick, true, false), (AppPage::Login, AppAction::Nothing));
}

#[test]
fn login_opens_the_editor() {
    assert_eq!(app_step(AppPage::Login, AppEvent::LoginMessage, false, true), (AppPage::Editor, AppAction::OpenEditor));
    assert_eq!(app_step(AppPage::Login, AppEvent::LoginMessage, false, false), (AppPage::Login, AppAction::Nothing));
}

#[test]
fn keys_move_the_focus() {
    let e = AppPage::Editor;
    assert_eq!(app_step(e, AppEvent::Ctrl(KbCtrl::CtrlShiftF), false, true).1, AppAction::Focus(FocusTarget::Search));
    assert_eq!(app_step(e, AppEvent::Ctrl(KbCtrl::CtrlP), false, true).1, AppAction::Focus(FocusTarget::Cli));
    assert_eq!(app_step(e, AppEvent::Ctrl(KbCtrl::CtrlN), false, true).1, AppAction::Focus(FocusTarget::TextEditor));
    assert_eq!(app_step(e, AppEvent::Ctrl(KbCtrl::CtrlS), false, true), (e, AppAction::Nothing));
    assert_eq!(app_step(AppPage::Login, AppEvent::Ctrl(KbCtrl::CtrlN), false, false), (AppPage::Login, AppAction::Nothing));
}

#[test]
fn window_events() {
    assert_eq!(
        app_step(AppPage::Login, AppEvent::WindowFocused, false, false),
        (AppPage::Login, AppAction::Focus(FocusTarget::LoginInput))
    );
    assert_eq!(app_step(AppPage::Editor, AppEvent::WindowFocused, false, true), (AppPage::Editor, AppAction::Nothing));
    assert_eq!(app_step(AppPage::Editor, AppEvent::CloseRequested, false, true), (AppPage::Editor, AppAction::CloseWindow));
    assert_eq!(app_step(AppPage::Login, AppEvent::CloseRequested, false, false), (AppPage::Login, AppAction::CloseWindow));
    assert_eq!(app_step(AppPage::Editor, AppEvent::Activity, false, true), (AppPage::Editor, AppAction::RecordActivity));
}

#[test]
fn text_edits_need_an_entry_on_display() {
    let mut empty = WriterUi::new();
    empty.on_text_edit("lost");
    assert!(!empty.needs_save());
    let mut l = TirraEntryList::from_vec(vec![TirraEntry { id: 4, date_create: 1, date_modify: 1, type_entry: 0, text: "old".to_string() }]);
    l.set_limitless_count(1);
    let mut w = WriterUi::new();
    w.on_connected(l, 0);
    w.on_text_edit("new");
    assert!(w.needs_save());
    assert_eq!(w.current_entry().map(|e| e.text.clone()), Some("new".to_string()));
}

#[test]
fn edits_taken_only_when_writable_and_selected() {
    assert!(tirra::ui::ui::edit_allowed(false, true));
    assert!(!tirra::ui::ui::edit_allowed(true, true));
    assert!(!tirra::ui::ui::edit_allowed(false, false));
    assert!(!tirra::ui::ui::edit_allowed(true, false));
}
