use tirra::common::version::VERSION;
use tirra::storage::db::{TirraDbError, TirraEntry, TirraEntryList};
use tirra::ui::ui::{BgRun, CreateDateAction, KbCtrl, LoginAction, LoginUi, TirraInterface, UiAction, WriterUi};

fn entry(id: u32, text: &str) -> TirraEntry {
    TirraEntry { id, date_create: id as u64, date_modify: id as u64, type_entry: 0, text: text.to_string() }
}

fn list(ids: &[u32], total: u32) -> TirraEntryList {
    let mut l = TirraEntryList::from_vec(ids.iter().map(|i| entry(*i, &format!("entry {}\nbody", i))).collect());
    l.set_limitless_count(total);
    l
}

fn connected(ids: &[u32], total: u32) -> WriterUi {
    let mut w = WriterUi::new();
    w.on_connected(list(ids, total), 1000);
    w
}

#[test]
fn login_messages() {
    let ui = LoginUi::new("db.tirra", false, false, false);
    assert_eq!(ui.info_text, " Database file was not found.\n");
    assert_eq!(ui.on_login(), LoginAction::CreateDatabase);
    let ui = LoginUi::new("db.tirra", true, true, true);
    assert_eq!(ui.info_text, "Beware, database in clear is found\nBeware, backup database is found\n");
    assert_eq!(ui.on_login(), LoginAction::CheckAccess);
    let ui = LoginUi::new("db.tirra", true, false, false);
    assert_eq!(ui.info_text, "");
    assert_eq!(ui.db_location, "db.tirra");
}

#[test]
fn login_flow() {
    let mut ui = LoginUi::new("db.tirra", true, false, false);
    ui.on_pwd("secret".to_string());
    assert_eq!(ui.password, "secret");
    assert!(!ui.is_logged_in());
    ui.on_access_checked(false);
    assert!(!ui.is_logged_in());
    assert_eq!(ui.info_text, "Decryption failure: Wrong key");
    ui.on_access_checked(true);
    assert!(ui.is_logged_in());
    let mut fresh = LoginUi::new("x", false, false, false);
    fresh.on_database_created();
    assert!(fresh.is_logged_in());
}

#[test]
fn login_page_actions() {
    let mut ui = LoginUi::new("db", true, false, false);
    assert_eq!(ui.on_tick(), UiAction::Nothing);
    assert_eq!(ui.on_ctrl(KbCtrl::CtrlL), UiAction::ToggleTheme);
    assert_eq!(ui.on_ctrl(KbCtrl::CtrlS), UiAction::LogControl(KbCtrl::CtrlS));
    assert_eq!(ui.on_close(), UiAction::LogClose);
    assert_eq!(ui.title(), format!("Tirra - open \t{}", VERSION));
    assert_eq!(ui.background_work(), BgRun::Nothing);
}

#[test]
fn connecting_shows_the_first_entry() {
    let w = connected(&[4, 3, 2], 3);
    assert_eq!(w.current_entry().map(|e| e.id), Some(4));
    assert_eq!(w.cli_text(), "WHERE text LIKE '%%' ORDER BY date_modify DESC LIMIT 0,30");
    assert_eq!(w.loader_request(), "WHERE text LIKE '%%' ORDER BY date_modify DESC LIMIT 0,30");
    assert!(w.is_entry_selected());
    assert!(w.view_button_newentry_enabled());
    let empty = connected(&[], 0);
    assert!(empty.current_entry().is_none());
    assert!(!empty.view_button_newentry_enabled());
}

#[test]
fn editing_then_saving() {
    let mut w = connected(&[4, 3], 2);
    assert!(!w.needs_save());
    assert_eq!(w.title(), "Tirra ");
    assert!(w.pending_save().is_none());
    w.content_changed("new text");
    assert!(w.needs_save());
    assert_eq!(w.title(), "Tirra* ");
    assert_eq!(w.pending_save(), Some((4, "new text".to_string())));
    w.on_saved(Ok(()));
    assert!(!w.needs_save());
    assert!(w.error_screen.is_none());
    w.content_changed("again");
    w.on_saved(Err(TirraDbError::DbRequestErrorCommit));
    assert_eq!(
        w.error_screen,
        Some("error: I couldn't write the current entry content to database (DbRequestErrorCommit)".to_string())
    );
}

#[test]
fn keys_move_between_entries() {
    let mut w = connected(&[4, 3, 2], 3);
    assert_eq!(w.on_ctrl(KbCtrl::Down), UiAction::Nothing);
    assert_eq!(w.current_entry().map(|e| e.id), Some(3));
    w.on_ctrl(KbCtrl::Down);
    w.on_ctrl(KbCtrl::Down);
    assert_eq!(w.current_entry().map(|e| e.id), Some(2));
    w.on_ctrl(KbCtrl::Up);
    assert_eq!(w.current_entry().map(|e| e.id), Some(3));
    assert!(w.editor_needs_refresh);
    assert_eq!(w.on_ctrl(KbCtrl::CtrlS), UiAction::SaveAndReload);
    assert_eq!(w.on_ctrl(KbCtrl::CtrlN), UiAction::NewEntry);
    assert_eq!(w.on_ctrl(KbCtrl::CtrlL), UiAction::ToggleTheme);
    assert_eq!(w.on_ctrl(KbCtrl::CtrlK), UiAction::LogControl(KbCtrl::CtrlK));
    assert!(!w.is_cli_visible());
    assert_eq!(w.on_ctrl(KbCtrl::CtrlP), UiAction::Nothing);
    assert!(w.is_cli_visible());
    assert_eq!(w.on_close(), UiAction::SaveAndReload);
    assert_eq!(w.background_work(), BgRun::Nothing);
}

#[test]
fn pagination() {
    let mut w = connected(&[1], 65);
    assert_eq!(w.pagination_brief(), (0, 30, 65));
    assert!(!w.on_pagination_clicked(false));
    assert!(w.on_pagination_clicked(true));
    assert_eq!(w.pagination_brief(), (30, 60, 65));
    assert_eq!(w.cli_text(), "WHERE text LIKE '%%' ORDER BY date_modify DESC LIMIT 30,30");
    assert!(w.on_pagination_clicked(true));
    assert_eq!(w.pagination_brief(), (60, 90, 65));
    assert!(!w.on_pagination_clicked(true));
    assert!(w.on_pagination_clicked(false));
    assert!(w.on_pagination_clicked(false));
    assert_eq!(w.pagination_brief(), (0, 30, 65));
}

#[test]
fn search_and_sort() {
    let mut w = connected(&[1], 1);
    w.on_search_input("cat".to_string());
    assert_eq!(w.search_text(), "cat");
    w.on_search_submit();
    assert_eq!(w.cli_text(), "WHERE text LIKE '%cat%' ORDER BY date_modify DESC LIMIT 0,30");
    w.on_sort_toggled();
    assert!(w.order_by_date_create);
    assert_eq!(w.cli_text(), "WHERE text LIKE '%cat%' ORDER BY date_create DESC LIMIT 0,30");
    w.on_cli_input("typed".to_string());
    assert_eq!(w.cli_text(), "typed");
}

#[test]
fn changing_the_creation_date() {
    let mut w = connected(&[7, 5], 2);
    w.on_create_date_doubleclicked();
    assert_eq!(w.modifying_create_date, 3);
    w.on_tick();
    assert_eq!(w.modifying_create_date, 2);
    w.on_create_date_input("not a date".to_string());
    assert_eq!(w.on_create_date_submit(), CreateDateAction::Cancelled);
    assert_eq!(w.create_date_change_text, "");
    w.on_create_date_input("1700000000".to_string());
    assert_eq!(w.on_create_date_submit(), CreateDateAction::Update { id: 7, epoch: 1700000000 });
    w.on_create_date_updated(Some(list(&[5, 7], 2)));
    assert_eq!(w.modifying_create_date, 0);
    assert_eq!(w.create_date_change_text, "");
    assert_eq!(w.current_entry().map(|e| e.id), Some(7));
    let mut none = connected(&[], 0);
    none.on_create_date_input("12".to_string());
    assert_eq!(none.on_create_date_submit(), CreateDateAction::NoEntry);
}

#[test]
fn removing_an_entry() {
    let mut w = connected(&[4, 3, 2], 3);
    assert_eq!(w.delete_target(), Some(4));
    assert_eq!(w.on_entry_removed(4, Ok(())), Some(3));
    assert_eq!(w.on_entry_removed(2, Ok(())), Some(3));
    assert_eq!(w.on_entry_removed(4, Err(TirraDbError::DbRequestError)), None);
    assert_eq!(w.error_screen, Some("error: I couldn't delete the current entry (DbRequestError)".to_string()));
    let mut single = connected(&[9], 1);
    assert_eq!(single.on_entry_removed(9, Ok(())), None);
}

#[test]
fn selecting_and_adding_entries() {
    let mut w = connected(&[4, 3, 2], 3);
    w.on_entry_selected(2);
    assert_eq!(w.current_entry().map(|e| e.id), Some(2));
    w.on_new_entry_added(Some(list(&[3, 8, 2], 3)));
    assert_eq!(w.current_entry().map(|e| e.id), Some(8));
    w.on_reloaded(list(&[8, 3], 2));
    assert_eq!(w.current_entry().map(|e| e.id), Some(8));
    w.content_changed("changed");
    w.on_reloaded(list(&[3], 1));
    assert!(!w.needs_save());
    assert!(w.current_entry().is_none());
}

#[test]
fn entry_views_mark_the_selection() {
    let w = connected(&[4, 3], 2);
    let views = w.entry_views();
    assert_eq!(views.len(), 2);
    assert_eq!(views[0].id, 4);
    assert_eq!(views[0].title, "entry 4");
    assert!(views[0].selected);
    assert!(!views[1].selected);
}

#[test]
fn inactivity() {
    let mut w = connected(&[1], 1);
    assert!(!w.is_inactivity(1180));
    assert!(w.is_inactivity(1181));
    w.on_activity(2000);
    assert!(!w.is_inactivity(2100));
    assert!(!w.is_readonly());
}

#[test]
fn status_dates_of_the_entry_on_display() {
    let mut l = TirraEntryList::from_vec(vec![TirraEntry {
        id: 3,
        date_create: 0,
        date_modify: 1_709_975_100,
        type_entry: 0,
        text: "x".to_string(),
    }]);
    l.set_limitless_count(1);
    let mut w = WriterUi::new();
    assert_eq!(w.view_status_current_entry_date(), None);
    w.on_connected(l, 0);
    let (id, cd, ct, md, mt) = w.view_status_current_entry_date().expect("dates");
    assert_eq!(id, 3);
    assert_eq!(cd, "1970 Jan 1");
    assert_eq!(ct, "Thu.00:00");
    assert_eq!(md, "2024 Mar 9");
    assert_eq!(mt, "Sat.09:05");
}

#[test]
fn toggles_undo_themselves() {
    let mut w = connected(&[1, 2], 2);
    w.on_search_input("dog".to_string());
    w.on_show_cli();
    w.on_show_cli();
    assert!(!w.is_cli_visible());
    let before = w.order_by_date_create;
    w.on_sort_toggled();
    w.on_sort_toggled();
    assert_eq!(w.order_by_date_create, before);
    assert_eq!(w.cli_text(), "WHERE text LIKE '%dog%' ORDER BY date_modify DESC LIMIT 0,30");
}

#[test]
fn next_page_then_back() {
    let mut w = connected(&[1], 100);
    assert!(w.on_pagination_clicked(true));
    assert!(w.on_pagination_clicked(true));
    let (off, _, _) = w.pagination_brief();
    assert!(w.on_pagination_clicked(true));
    assert!(w.on_pagination_clicked(false));
    assert_eq!(w.pagination_brief().0, off);
    assert_eq!(w.cli_text(), format!("WHERE text LIKE '%%' ORDER BY date_modify DESC LIMIT {},30", off));
}
