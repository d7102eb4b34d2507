//! The state of the notebook's pages, and how it answers what the user does.
//!
//! The pages hold what is on screen; the work that goes to the database or
//! to the window (saving an entry, reloading the list, switching the theme)
//! is handed back as an action, and its outcome is handed in again.
use vstd::prelude::*;

use crate::common::utils::{
    chars_of, datetime_from_unix, month_abr, month_abr_spec, parse_u64, parse_u64_spec, string_from_chars, u64_decimal,
    u64_to_chars, utc_fields, dec_digit, DateFields,
};
use crate::common::version::VERSION;
use crate::storage::db::{
    build_filter, build_filter_spec, index_of_id, index_of_other_id, is_first_greatest, lemma_index_of_id_bounds,
    lemma_index_of_other_id_bounds, title_spec, TirraDbError,
    TirraEntry, TirraEntryList,
};

verus! {

/// Keyboard control keys.
#[derive(Debug, Clone, Copy, PartialEq, Eq, Structural)]
pub enum KbCtrl {
    CtrlS,
    CtrlP,
    CtrlN,
    CtrlL,
    CtrlK,
    CtrlShiftF,
    Down,
    Up,
}

/// Background work to run.
#[derive(Debug, Clone, Copy, PartialEq, Eq, Structural)]
pub enum BgRun {
    Nothing,
}

/// Work that a page hands back to the application.
#[derive(Debug, Clone, Copy, PartialEq, Eq, Structural)]
pub enum UiAction {
    /// Nothing to do.
    Nothing,
    /// Report that a control key was pressed.
    LogControl(KbCtrl),
    /// Switch between the light and the dark theme.
    ToggleTheme,
    /// Save the entry being edited and reload the entries.
    SaveAndReload,
    /// Create a new entry.
    NewEntry,
    /// Report that the application is closing.
    LogClose,
}

/// What each page answers to the common actions.
pub trait TirraInterface {
    fn on_close(&mut self) -> UiAction;

    fn on_tick(&mut self) -> UiAction;

    fn on_ctrl(&mut self, control: KbCtrl) -> UiAction;

    fn on_activity(&mut self, now: i64);

    fn title(&self) -> String;

    fn background_work(&self) -> BgRun;
}

/// What the login page asks of the database once the user logs in.
#[derive(Debug, Clone, Copy, PartialEq, Eq, Structural)]
pub enum LoginAction {
    /// Create a new database at the location, with a first entry.
    CreateDatabase,
    /// Check that the passphrase opens the database.
    CheckAccess,
}

/// The login page.
pub struct LoginUi {
    pub db_location: String,
    pub password: String,
    pub db_found: bool,
    pub info_text: String,
    logged_in: bool,
}

/// The message of the login page once the database has been looked for.
pub open spec fn login_info_spec(db_found: bool, plain_exists: bool, backup_exists: bool) -> Seq<char> {
    if db_found {
        (if plain_exists { "Beware, database in clear is found\n"@ } else { Seq::empty() }) + (if backup_exists {
            "Beware, backup database is found\n"@
        } else {
            Seq::empty()
        })
    } else {
        " Database file was not found.\n"@
    }
}

/// The login message of a database that is found opens with the warning of
/// a plaintext copy when there is one, ends with the warning of a backup
/// when there is one, whether or not there is a plaintext copy, and is
/// empty when there is neither. A database that is not found is reported
/// as such, whatever lies beside it.
pub proof fn lemma_login_warnings(plain_exists: bool, backup_exists: bool)
    ensures
        ({
            let s = login_info_spec(true, plain_exists, backup_exists);
            let b = "Beware, backup database is found\n"@;
            backup_exists ==> s.len() >= b.len() && s.subrange(s.len() - b.len(), s.len() as int) == b
        }),
        ({
            let s = login_info_spec(true, plain_exists, backup_exists);
            let p = "Beware, database in clear is found\n"@;
            plain_exists ==> s.len() >= p.len() && s.subrange(0, p.len() as int) == p
        }),
        !plain_exists && backup_exists ==> login_info_spec(true, plain_exists, backup_exists)
            == "Beware, backup database is found\n"@,
        plain_exists && !backup_exists ==> login_info_spec(true, plain_exists, backup_exists)
            == "Beware, database in clear is found\n"@,
        !plain_exists && !backup_exists ==> login_info_spec(true, plain_exists, backup_exists).len() == 0,
        plain_exists && backup_exists ==> login_info_spec(true, plain_exists, backup_exists)
            == "Beware, database in clear is found\n"@ + "Beware, backup database is found\n"@,
        login_info_spec(false, plain_exists, backup_exists) == " Database file was not found.\n"@,
{
    let s = login_info_spec(true, plain_exists, backup_exists);
    let b = "Beware, backup database is found\n"@;
    let p = "Beware, database in clear is found\n"@;
    if backup_exists {
        assert(s.subrange(s.len() - b.len(), s.len() as int) =~= b);
    }
    if plain_exists {
        assert(s.subrange(0, p.len() as int) =~= p);
    }
    if !plain_exists && backup_exists {
        assert(s =~= b);
    }
    if plain_exists && !backup_exists {
        assert(s =~= p);
    }
}

impl LoginUi {
    /// The location of the database.
    pub closed spec fn location_view(&self) -> Seq<char> {
        self.db_location@
    }

    /// The passphrase typed so far.
    pub closed spec fn password_view(&self) -> Seq<char> {
        self.password@
    }

    /// Whether the database file was found.
    pub closed spec fn found_view(&self) -> bool {
        self.db_found
    }

    /// The message shown under the passphrase.
    pub closed spec fn info_view(&self) -> Seq<char> {
        self.info_text@
    }

    /// Whether the user is logged in.
    pub closed spec fn logged_in_view(&self) -> bool {
        self.logged_in
    }

    /// The login page for the database at `db_location`: `db_found` tells
    /// whether the file is there, `plain_exists` and `backup_exists` whether
    /// a plaintext copy or a backup lies beside it.
    pub fn new(db_location: &str, db_found: bool, plain_exists: bool, backup_exists: bool) -> (ui: Self)
        ensures
            ui.location_view() == db_location@,
            ui.found_view() == db_found,
            ui.password_view() == Seq::<char>::empty(),
            ui.info_view() == login_info_spec(db_found, plain_exists, backup_exists),
            !ui.logged_in_view(),
    {
        let mut info: Vec<char> = Vec::new();
        if db_found {
            if plain_exists {
                info.extend_from_slice(chars_of("Beware, database in clear is found\n").as_slice());
            }
            if backup_exists {
                info.extend_from_slice(chars_of("Beware, backup database is found\n").as_slice());
            }
        } else {
            info.extend_from_slice(chars_of(" Database file was not found.\n").as_slice());
        }
        assert(info@ =~= login_info_spec(db_found, plain_exists, backup_exists));
        Self {
            db_location: db_location.to_owned(),
            db_found: db_found,
            password: String::new(),
            info_text: string_from_chars(info.as_slice()),
            logged_in: false,
        }
    }

    pub fn on_pwd(&mut self, s: String)
        ensures
            final(self).password_view() == s@,
            final(self).location_view() == old(self).location_view(),
            final(self).found_view() == old(self).found_view(),
            final(self).info_view() == old(self).info_view(),
            final(self).logged_in_view() == old(self).logged_in_view(),
    {
        self.password = s;
    }

    /// What logging in asks of the database: a new database when none was
    /// found, else a check of the passphrase.
    pub fn on_login(&self) -> (a: LoginAction)
        ensures
            a == (if self.found_view() { LoginAction::CheckAccess } else { LoginAction::CreateDatabase }),
    {
        if self.db_found {
            LoginAction::CheckAccess
        } else {
            LoginAction::CreateDatabase
        }
    }

    /// The new database has been created: the user is logged in.
    pub fn on_database_created(&mut self)
        ensures
            final(self).logged_in_view(),
            final(self).password_view() == old(self).password_view(),
            final(self).location_view() == old(self).location_view(),
            final(self).found_view() == old(self).found_view(),
            final(self).info_view() == old(self).info_view(),
    {
        self.logged_in = true;
    }

    /// The passphrase has been checked: the user is logged in when it opens
    /// the database, and told otherwise.
    pub fn on_access_checked(&mut self, granted: bool)
        ensures
            final(self).logged_in_view() == granted,
            granted ==> final(self).info_view() == old(self).info_view(),
            !granted ==> final(self).info_view() == "Decryption failure: Wrong key"@,
            final(self).password_view() == old(self).password_view(),
            final(self).location_view() == old(self).location_view(),
            final(self).found_view() == old(self).found_view(),
    {
        if granted {
            self.logged_in = true;
        } else {
            self.info_text = "Decryption failure: Wrong key".to_owned();
            self.logged_in = false;
        }
    }

    pub fn is_logged_in(&self) -> (b: bool)
        ensures
            b == self.logged_in_view(),
    {
        self.logged_in
    }
}

impl TirraInterface for LoginUi {
    fn on_tick(&mut self) -> (a: UiAction)
        ensures
            a == UiAction::Nothing,
            *final(self) == *old(self),
    {
        UiAction::Nothing
    }

    /// Ctrl+L switches the theme; the other keys are only reported.
    fn on_ctrl(&mut self, control: KbCtrl) -> (a: UiAction)
        ensures
            a == (if control == KbCtrl::CtrlL { UiAction::ToggleTheme } else { UiAction::LogControl(control) }),
            *final(self) == *old(self),
    {
        match control {
            KbCtrl::CtrlL => UiAction::ToggleTheme,
            _ => UiAction::LogControl(control),
        }
    }

    fn on_close(&mut self) -> (a: UiAction)
        ensures
            a == UiAction::LogClose,
            *final(self) == *old(self),
    {
        UiAction::LogClose
    }

    fn on_activity(&mut self, now: i64)
        ensures
            *final(self) == *old(self),
    {
    }

    fn title(&self) -> (t: String)
        ensures
            t@ == "Tirra - open \t"@ + VERSION@,
    {
        let mut out: Vec<char> = chars_of("Tirra - open \t");
        out.extend_from_slice(chars_of(VERSION).as_slice());
        assert(out@ =~= "Tirra - open \t"@ + VERSION@);
        string_from_chars(out.as_slice())
    }

    fn background_work(&self) -> (b: BgRun)
        ensures
            b == BgRun::Nothing,
    {
        BgRun::Nothing
    }
}

/// What the list of entries shows of an entry.
pub struct EntryView {
    pub title: String,
    pub id: u32,
    pub selected: bool,
}

/// An edit in the editor is taken only when the page is not read-only and
/// an entry is on display.
pub fn edit_allowed(readonly: bool, selected: bool) -> (b: bool)
    ensures
        b == (!readonly && selected),
{
    !readonly && selected
}

/// The editor page.
pub struct WriterUi {
    load_request: String,
    pub entry_list: TirraEntryList,
    curr_entry_id: Option<u32>,
    readonly_mode: bool,
    pub error_screen: Option<String>,
    pub order_by_date_create: bool,
    pagination_offset: u32,
    editor_dirty: bool,
    cli_visible: bool,
    cli_text: String,
    search_text: String,
    last_activity: i64,
    pub modifying_create_date: u8,
    pub create_date_change_text: String,
    pub editor_needs_refresh: bool,
    bg_work: BgRun,
}

/// The state of the editor page.
pub struct WriterView {
    pub load_request: Seq<char>,
    pub entries: Seq<TirraEntry>,
    pub limitless_count: u32,
    pub curr_entry_id: Option<u32>,
    pub readonly_mode: bool,
    pub error_screen: Option<Seq<char>>,
    pub order_by_date_create: bool,
    pub pagination_offset: u32,
    pub editor_dirty: bool,
    pub cli_visible: bool,
    pub cli_text: Seq<char>,
    pub search_text: Seq<char>,
    pub last_activity: i64,
    pub modifying_create_date: u8,
    pub create_date_change_text: Seq<char>,
    pub editor_needs_refresh: bool,
}

/// Number of entries shown on a page of the list.
pub open spec fn pagination_max() -> u32 {
    30
}

/// Seconds of inactivity after which the editor closes.
pub open spec fn inactivity_seconds() -> i64 {
    180
}

/// Ticks during which the field that changes the creation date stays
/// visible.
pub open spec fn create_date_visibility_ticks() -> u8 {
    3
}

/// The id of the first entry, if there is one.
pub open spec fn first_id(entries: Seq<TirraEntry>) -> Option<u32> {
    if entries.len() > 0 {
        Some(entries[0].id)
    } else {
        None
    }
}

/// The id that the editor shows once it is asked to show `id`: that id when
/// one is given; with none, the current id while its entry is still in the
/// list (`None`: nothing changes), else the first entry.
pub open spec fn next_curr_id(entries: Seq<TirraEntry>, curr: Option<u32>, id: Option<u32>) -> Option<Option<u32>> {
    match id {
        Some(v) => Some(Some(v)),
        None => match curr {
            None => Some(first_id(entries)),
            Some(c) => if index_of_id(entries, c, 0) is Some {
                None
            } else {
                Some(first_id(entries))
            },
        },
    }
}

/// The state once the editor is asked to show `id` (see `next_curr_id`):
/// any change of the creation date under way is dropped.
pub open spec fn with_curr_id(v: WriterView, id: Option<u32>) -> WriterView {
    match next_curr_id(v.entries, v.curr_entry_id, id) {
        Some(n) => WriterView { curr_entry_id: n, modifying_create_date: 0, ..v },
        None => v,
    }
}

/// Once the editor is asked to show an entry, that entry is on display.
/// Asked for none, as after a list has been loaded, it keeps the entry on
/// display while the list still holds it, and otherwise shows the first
/// entry of the list: whenever the list is not empty, an entry of the list
/// is on display.
pub proof fn lemma_entry_on_display(v: WriterView, id: Option<u32>)
    ensures
        id matches Some(x) ==> with_curr_id(v, id) == (WriterView {
            curr_entry_id: Some(x),
            modifying_create_date: 0,
            ..v
        }),
        id is None && v.entries.len() > 0 ==> (with_curr_id(v, id).curr_entry_id matches Some(n) && exists|i: int|
            0 <= i < v.entries.len() && #[trigger] v.entries[i].id == n),
        id is None && v.entries.len() > 0 && (v.curr_entry_id matches Some(c) && forall|i: int|
            0 <= i < v.entries.len() ==> #[trigger] v.entries[i].id != c) ==> with_curr_id(v, id) == (WriterView {
            curr_entry_id: Some(v.entries[0].id),
            modifying_create_date: 0,
            ..v
        }),
        id is None && v.curr_entry_id is None && v.entries.len() > 0 ==> with_curr_id(v, id) == (WriterView {
            curr_entry_id: Some(v.entries[0].id),
            modifying_create_date: 0,
            ..v
        }),
        id is None && v.entries.len() == 0 ==> with_curr_id(v, id) == (WriterView {
            curr_entry_id: None,
            modifying_create_date: 0,
            ..v
        }),
        id is None && (v.curr_entry_id matches Some(c) && exists|i: int|
            0 <= i < v.entries.len() && #[trigger] v.entries[i].id == c) ==> with_curr_id(v, id) == v,
{
    if let Some(c) = v.curr_entry_id {
        lemma_index_of_id_bounds(v.entries, c, 0);
        if let Some(k) = index_of_id(v.entries, c, 0) {
            assert(v.entries[k].id == c);
        }
    }
    if v.entries.len() > 0 {
        assert(v.entries[0].id == v.entries[0].id);
    }
}

/// The request that loads the current page of entries.
pub open spec fn loader_request_spec(v: WriterView) -> Seq<char> {
    build_filter_spec(v.search_text, v.order_by_date_create, v.pagination_offset, pagination_max())
}

/// The name of an error of the database.
pub open spec fn db_error_name(e: TirraDbError) -> Seq<char> {
    match e {
        TirraDbError::CryptoAccessFailure => "CryptoAccessFailure"@,
        TirraDbError::DbOpenFailure => "DbOpenFailure"@,
        TirraDbError::DbCloseFailure => "DbCloseFailure"@,
        TirraDbError::DbRemovePlain => "DbRemovePlain"@,
        TirraDbError::DbInitError => "DbInitError"@,
        TirraDbError::DbRemoveFileError => "DbRemoveFileError"@,
        TirraDbError::DbRequestError => "DbRequestError"@,
        TirraDbError::DbRequestErrorPrepare => "DbRequestErrorPrepare"@,
        TirraDbError::DbRequestErrorQuery => "DbRequestErrorQuery"@,
        TirraDbError::DbRequestErrorIter => "DbRequestErrorIter"@,
        TirraDbError::DbRequestErrorCommit => "DbRequestErrorCommit"@,
    }
}

fn db_error_name_exec(e: &TirraDbError) -> (s: &'static str)
    ensures
        s@ == db_error_name(*e),
{
    match e {
        TirraDbError::CryptoAccessFailure => "CryptoAccessFailure",
        TirraDbError::DbOpenFailure => "DbOpenFailure",
        TirraDbError::DbCloseFailure => "DbCloseFailure",
        TirraDbError::DbRemovePlain => "DbRemovePlain",
        TirraDbError::DbInitError => "DbInitError",
        TirraDbError::DbRemoveFileError => "DbRemoveFileError",
        TirraDbError::DbRequestError => "DbRequestError",
        TirraDbError::DbRequestErrorPrepare => "DbRequestErrorPrepare",
        TirraDbError::DbRequestErrorQuery => "DbRequestErrorQuery",
        TirraDbError::DbRequestErrorIter => "DbRequestErrorIter",
        TirraDbError::DbRequestErrorCommit => "DbRequestErrorCommit",
    }
}

/// The message shown when an entry could not be written to the database.
pub open spec fn save_error_message(e: TirraDbError) -> Seq<char> {
    "error: I couldn't write the current entry content to database ("@ + db_error_name(e) + ")"@
}

/// The message shown when an entry could not be deleted.
pub open spec fn delete_error_message(e: TirraDbError) -> Seq<char> {
    "error: I couldn't delete the current entry ("@ + db_error_name(e) + ")"@
}

/// The text of an optional string.
pub open spec fn opt_text(s: Option<String>) -> Option<Seq<char>> {
    match s {
        Some(t) => Some(t@),
        None => None,
    }
}

/// Index of the entry to write to the database: the entry on display, when
/// it has changes to save.
pub open spec fn save_target(v: WriterView) -> Option<int> {
    if v.editor_dirty {
        match v.curr_entry_id {
            Some(id) => index_of_id(v.entries, id, 0),
            None => None,
        }
    } else {
        None
    }
}

/// The state once the command bar is shown, or hidden.
pub open spec fn cli_shown(v: WriterView) -> WriterView {
    WriterView { cli_visible: !v.cli_visible, ..v }
}

/// The state once the sort order switches: the command bar takes the
/// request that loads the first page in the new order.
pub open spec fn sort_toggled(v: WriterView) -> WriterView {
    WriterView {
        order_by_date_create: !v.order_by_date_create,
        cli_text: build_filter_spec(v.search_text, !v.order_by_date_create, 0, pagination_max()),
        editor_needs_refresh: true,
        ..v
    }
}

/// The state once the list moves to the next or the previous page, with the
/// request that loads it in the command bar; none at either end.
pub open spec fn paginated(v: WriterView, next: bool) -> Option<WriterView> {
    let off = v.pagination_offset;
    let can = if next { off + pagination_max() <= v.limitless_count } else { off >= pagination_max() };
    let new_off = (if next { off + pagination_max() } else { off - pagination_max() }) as u32;
    if can {
        Some(
            WriterView {
                pagination_offset: new_off,
                cli_text: loader_request_spec(WriterView { pagination_offset: new_off, ..v }),
                ..v
            },
        )
    } else {
        None
    }
}

/// Showing the command bar and showing it again (it is then hidden) leaves
/// the page as it was.
pub proof fn lemma_cli_toggle_twice(v: WriterView)
    ensures
        cli_shown(cli_shown(v)) == v,
{
}

/// Switching the sort order twice brings the order back, with the request
/// of the first page in that order in the command bar.
pub proof fn lemma_sort_toggle_twice(v: WriterView)
    ensures
        sort_toggled(sort_toggled(v)) == (WriterView {
            cli_text: build_filter_spec(v.search_text, v.order_by_date_create, 0, pagination_max()),
            editor_needs_refresh: true,
            ..v
        }),
{
}

/// Moving to the next page and back to the previous one returns to the same
/// page, with the request that loads it in the command bar.
pub proof fn lemma_pagination_back(v: WriterView)
    requires
        paginated(v, true) is Some,
    ensures
        paginated(paginated(v, true)->0, false) == Some(WriterView { cli_text: loader_request_spec(v), ..v }),
{
}

/// The state once the display moves to the next (`down`) or the previous
/// entry of the list: nothing changes when there is none.
pub open spec fn moved_view(v: WriterView, down: bool) -> WriterView {
    match v.curr_entry_id {
        Some(id) => match crate::storage::db::neighbor_index(v.entries, id, down) {
            Some(k) => WriterView { curr_entry_id: Some(v.entries[k].id), ..v },
            None => v,
        },
        None => v,
    }
}

/// Moving the display up from entry `m`, the first entry of the list with
/// the id on display, shows the entry just before it; from the first entry
/// of the list nothing changes. Moving down shows entry `k` when it is the
/// first entry after `m` with another id; when every entry after `m` has
/// the same id, nothing changes. Only the entry on display changes.
pub proof fn lemma_move_neighbors(v: WriterView, m: int, k: int)
    requires
        v.curr_entry_id matches Some(c) && 0 <= m < v.entries.len() && v.entries[m].id == c && forall|j: int|
            0 <= j < m ==> #[trigger] v.entries[j].id != c,
    ensures
        moved_view(v, false) == (if m > 0 {
            WriterView { curr_entry_id: Some(v.entries[m - 1].id), ..v }
        } else {
            v
        }),
        (forall|j: int| m < j < v.entries.len() ==> #[trigger] v.entries[j].id == v.entries[m].id) ==> moved_view(
            v,
            true,
        ) == v,
        (m < k < v.entries.len() && v.entries[k].id != v.entries[m].id && forall|j: int|
            m < j < k ==> #[trigger] v.entries[j].id == v.entries[m].id) ==> moved_view(v, true) == (WriterView {
            curr_entry_id: Some(v.entries[k].id),
            ..v
        }),
{
    let c = v.entries[m].id;
    lemma_index_of_id_bounds(v.entries, c, 0);
    assert(index_of_id(v.entries, c, 0) == Some(m));
    lemma_index_of_other_id_bounds(v.entries, c, m + 1);
    if m < k < v.entries.len() && v.entries[k].id != c && forall|j: int| m < j < k ==> #[trigger] v.entries[j].id == c {
        match index_of_other_id(v.entries, c, m + 1) {
            Some(k2) => {
                assert(k2 == k);
            },
            None => {
                assert(v.entries[k].id == c);
            },
        }
    }
    if forall|j: int| m < j < v.entries.len() ==> #[trigger] v.entries[j].id == c {
        if let Some(k2) = index_of_other_id(v.entries, c, m + 1) {
            assert(v.entries[k2].id == c);
        }
    }
}

/// With no entry on display, or one that the list does not hold, moving
/// the display changes nothing.
pub proof fn lemma_move_without_current(v: WriterView, down: bool)
    requires
        v.curr_entry_id matches Some(c) ==> forall|j: int| 0 <= j < v.entries.len() ==> #[trigger] v.entries[j].id != c,
    ensures
        moved_view(v, down) == v,
{
    if let Some(c) = v.curr_entry_id {
        lemma_index_of_id_bounds(v.entries, c, 0);
    }
}

/// The abbreviated English name of a weekday counted from Monday (0).
pub open spec fn weekday_abr_spec(w: u32) -> Seq<char> {
    if w == 0 { "Mon"@ }
    else if w == 1 { "Tue"@ }
    else if w == 2 { "Wed"@ }
    else if w == 3 { "Thu"@ }
    else if w == 4 { "Fri"@ }
    else if w == 5 { "Sat"@ }
    else if w == 6 { "Sun"@ }
    else { "-"@ }
}

/// A number written with at least two digits.
pub open spec fn two_digits(v: u32) -> Seq<char> {
    if v < 10 {
        "0"@ + u64_decimal(v as u64)
    } else {
        u64_decimal(v as u64)
    }
}

/// A number below 100 is written with exactly two digits, its tens and its
/// units; from 10 on it is written as it is, with no leading zero.
pub proof fn lemma_two_digits(v: u32)
    ensures
        v < 100 ==> two_digits(v) == seq![dec_digit((v / 10) as u64), dec_digit((v % 10) as u64)],
        v >= 10 ==> two_digits(v) == u64_decimal(v as u64),
{
    reveal_strlit("0");
    if v < 10 {
        assert(u64_decimal(v as u64) == seq![dec_digit(v as u64)]);
        assert(two_digits(v) =~= seq![dec_digit((v / 10) as u64), dec_digit((v % 10) as u64)]);
    } else if v < 100 {
        let w = v as u64;
        assert(u64_decimal(w / 10) == seq![dec_digit(w / 10)]);
        assert(u64_decimal(w) == u64_decimal(w / 10) + seq![dec_digit(w % 10)]);
        assert(two_digits(v) =~= seq![dec_digit((v / 10) as u64), dec_digit((v % 10) as u64)]);
    }
}

/// The date part of a status line: year, month and day, `2024 Mar 9`.
pub open spec fn date_line(f: (u32, u32, u32, u32, u32, u32)) -> Seq<char> {
    u64_decimal(f.0 as u64) + " "@ + month_abr_spec(f.1) + " "@ + u64_decimal(f.2 as u64)
}

/// The time part of a status line: weekday, hour and minute, `Sat.09:05`.
pub open spec fn time_line(f: (u32, u32, u32, u32, u32, u32)) -> Seq<char> {
    weekday_abr_spec(f.3) + "."@ + two_digits(f.4) + ":"@ + two_digits(f.5)
}

/// The time part of a status line writes the hour and the minute with two
/// digits each, zero-padded below 10: `Sat.14:30`, `Mon.09:05`.
pub proof fn lemma_time_line_digits(f: (u32, u32, u32, u32, u32, u32))
    requires
        f.4 < 100,
        f.5 < 100,
    ensures
        time_line(f) == weekday_abr_spec(f.3) + "."@ + seq![
            dec_digit((f.4 / 10) as u64),
            dec_digit((f.4 % 10) as u64),
        ] + ":"@ + seq![dec_digit((f.5 / 10) as u64), dec_digit((f.5 % 10) as u64)],
        time_line(f).len() == weekday_abr_spec(f.3).len() + 6,
{
    lemma_two_digits(f.4);
    lemma_two_digits(f.5);
    reveal_strlit(".");
    reveal_strlit(":");
}

fn weekday_abr(w: u32) -> (s: &'static str)
    ensures
        s@ == weekday_abr_spec(w),
{
    match w {
        0 => "Mon",
        1 => "Tue",
        2 => "Wed",
        3 => "Thu",
        4 => "Fri",
        5 => "Sat",
        6 => "Sun",
        _ => "-",
    }
}

fn two_digits_exec(v: u32) -> (s: Vec<char>)
    ensures
        s@ == two_digits(v),
{
    let mut out: Vec<char> = Vec::new();
    if v < 10 {
        out.push('0');
    }
    out.extend_from_slice(u64_to_chars(v as u64).as_slice());
    proof {
        reveal_strlit("0");
    }
    assert(out@ =~= two_digits(v));
    out
}

/// The date and the time of a status line (see `date_line`, `time_line`).
fn status_lines(d: &DateFields) -> (r: (String, String))
    ensures
        r.0@ == date_line(crate::common::utils::date_tuple(*d)),
        r.1@ == time_line(crate::common::utils::date_tuple(*d)),
{
    proof {
        reveal_strlit(" ");
        reveal_strlit(".");
        reveal_strlit(":");
    }
    let mut date: Vec<char> = u64_to_chars(d.year_ce as u64);
    date.push(' ');
    date.extend_from_slice(chars_of(month_abr(d.month)).as_slice());
    date.push(' ');
    date.extend_from_slice(u64_to_chars(d.day as u64).as_slice());
    assert(date@ =~= date_line(crate::common::utils::date_tuple(*d)));
    let mut time: Vec<char> = chars_of(weekday_abr(d.weekday));
    time.push('.');
    time.extend_from_slice(two_digits_exec(d.hour).as_slice());
    time.push(':');
    time.extend_from_slice(two_digits_exec(d.minute).as_slice());
    assert(time@ =~= time_line(crate::common::utils::date_tuple(*d)));
    (string_from_chars(date.as_slice()), string_from_chars(time.as_slice()))
}

/// What submitting a new creation date asks of the database.
#[derive(Debug, Clone, Copy, PartialEq, Eq, Structural)]
pub enum CreateDateAction {
    /// The text is not a date: it was cleared.
    Cancelled,
    /// Set the creation date of entry `id` to `epoch`.
    Update { id: u32, epoch: u64 },
    /// There is no current entry to change.
    NoEntry,
}

impl WriterUi {
    /// The state of the page.
    pub closed spec fn view(&self) -> WriterView {
        WriterView {
            load_request: self.load_request@,
            entries: self.entry_list@,
            limitless_count: self.entry_list.limitless_view(),
            curr_entry_id: self.curr_entry_id,
            readonly_mode: self.readonly_mode,
            error_screen: opt_text(self.error_screen),
            order_by_date_create: self.order_by_date_create,
            pagination_offset: self.pagination_offset,
            editor_dirty: self.editor_dirty,
            cli_visible: self.cli_visible,
            cli_text: self.cli_text@,
            search_text: self.search_text@,
            last_activity: self.last_activity,
            modifying_create_date: self.modifying_create_date,
            create_date_change_text: self.create_date_change_text@,
            editor_needs_refresh: self.editor_needs_refresh,
        }
    }

    pub fn new() -> (w: Self)
        ensures
            w@ == (WriterView {
                load_request: Seq::empty(),
                entries: Seq::empty(),
                limitless_count: 0,
                curr_entry_id: None,
                readonly_mode: false,
                error_screen: None,
                order_by_date_create: false,
                pagination_offset: 0,
                editor_dirty: false,
                cli_visible: false,
                cli_text: Seq::empty(),
                search_text: Seq::empty(),
                last_activity: 0,
                modifying_create_date: 0,
                create_date_change_text: Seq::empty(),
                editor_needs_refresh: false,
            }),
    {
        Self {
            curr_entry_id: None,
            editor_dirty: false,
            last_activity: 0,
            entry_list: TirraEntryList::new(),
            readonly_mode: false,
            error_screen: None,
            order_by_date_create: false,
            pagination_offset: 0,
            cli_visible: false,
            modifying_create_date: 0,
            create_date_change_text: String::new(),
            editor_needs_refresh: false,
            cli_text: String::new(),
            search_text: String::new(),
            load_request: String::new(),
            bg_work: BgRun::Nothing,
        }
    }

    /// The request that loads the current page of entries.
    pub fn loader_request(&self) -> (r: String)
        ensures
            r@ == loader_request_spec(self@),
    {
        build_filter(self.search_text.as_str(), self.order_by_date_create, self.pagination_offset, 30)
    }

    /// Shows entry `id` (see `with_curr_id`).
    fn update_curr_entry_id(&mut self, id: Option<u32>)
        ensures
            final(self)@ == with_curr_id(old(self)@, id),
    {
        let new_id: Option<Option<u32>>;
        if id.is_none() {
            if self.curr_entry_id.is_none() {
                new_id = Some(None);
            } else {
                match self.current_entry() {
                    Some(_) => new_id = None,
                    None => new_id = Some(None),
                }
            }
        } else {
            new_id = Some(id);
        }
        match new_id {
            Some(value) => {
                if value.is_none() {
                    self.curr_entry_id = match self.entry_list.get_entry(0) {
                        Some(ent) => Some(ent.id),
                        None => None,
                    };
                } else {
                    self.curr_entry_id = value;
                }
                self.modifying_create_date = 0;
            },
            None => {},
        }
    }

    /// The database has been opened: the page shows the first page of
    /// entries, with the request that loads them in the command bar.
    pub fn on_connected(&mut self, entries: TirraEntryList, now: i64)
        ensures
            ({
                let v = WriterView {
                    entries: entries@,
                    limitless_count: entries.limitless_view(),
                    cli_text: loader_request_spec(old(self)@),
                    load_request: loader_request_spec(old(self)@),
                    last_activity: now,
                    ..old(self)@
                };
                final(self)@ == with_curr_id(v, None)
            }),
    {
        self.entry_list = entries;
        self.cli_text = self.loader_request();
        self.load_request = self.loader_request();
        self.last_activity = now;
        self.update_curr_entry_id(None);
    }

    /// The entry on display, if any.
    pub fn current_entry(&self) -> (r: Option<&TirraEntry>)
        ensures
            match self@.curr_entry_id {
                Some(id) => crate::storage::db::entry_at(self@.entries, index_of_id(self@.entries, id, 0), r),
                None => r is None,
            },
    {
        match self.curr_entry_id {
            Some(id) => self.entry_list.find_by_id(id),
            None => None,
        }
    }

    /// The text of the entry on display has been edited.
    pub fn content_changed(&mut self, new_text: &str)
        requires
            old(self)@.curr_entry_id matches Some(id) && index_of_id(old(self)@.entries, id, 0) is Some,
        ensures
            ({
                let id = old(self)@.curr_entry_id->0;
                let k = index_of_id(old(self)@.entries, id, 0)->0;
                let e = old(self)@.entries[k];
                final(self)@ == WriterView {
                    entries: old(self)@.entries.update(k, TirraEntry { text: final(self)@.entries[k].text, ..e }),
                    editor_dirty: true,
                    ..old(self)@
                } && final(self)@.entries[k].text@ == new_text@
            }),
    {
        let id = match self.curr_entry_id {
            Some(id) => id,
            None => return,
        };
        proof {
            crate::storage::db::lemma_index_of_id_bounds(self@.entries, id, 0);
        }
        match self.entry_list.position_of_id(id) {
            Some(i) => self.entry_list.set_text(i, new_text.to_owned()),
            None => {},
        }
        self.editor_dirty = true;
    }

    /// The editor widget reports an edit of its text: the entry on display
    /// takes it (see `content_changed`) unless the page is read-only or no
    /// entry of the list is on display, in which case nothing changes.
    pub fn on_text_edit(&mut self, text: &str)
        ensures
            ({
                let v = old(self)@;
                if !v.readonly_mode && v.curr_entry_id is Some && index_of_id(v.entries, v.curr_entry_id->0, 0) is Some {
                    let k = index_of_id(v.entries, v.curr_entry_id->0, 0)->0;
                    &&& final(self)@ == WriterView {
                        entries: v.entries.update(k, TirraEntry { text: final(self)@.entries[k].text, ..v.entries[k] }),
                        editor_dirty: true,
                        ..v
                    }
                    &&& final(self)@.entries[k].text@ == text@
                } else {
                    final(self)@ == v
                }
            }),
    {
        if !edit_allowed(self.readonly_mode, self.curr_entry_id.is_some()) {
            return;
        }
        let id = match self.curr_entry_id {
            Some(id) => id,
            None => return,
        };
        match self.entry_list.position_of_id(id) {
            Some(_) => self.content_changed(text),
            None => {},
        }
    }

    pub fn on_show_cli(&mut self)
        ensures
            final(self)@ == cli_shown(old(self)@),
    {
        self.cli_visible = !self.cli_visible;
    }

    pub fn on_cli_input(&mut self, s: String)
        ensures
            final(self)@ == (WriterView { cli_text: s@, ..old(self)@ }),
    {
        self.cli_text = s;
    }

    pub fn on_search_input(&mut self, s: String)
        ensures
            final(self)@ == (WriterView { search_text: s@, ..old(self)@ }),
    {
        self.search_text = s;
    }

    /// A search is submitted: the command bar takes the request that loads
    /// the entries found, which is then submitted as by `on_cli_loaded`.
    pub fn on_search_submit(&mut self)
        ensures
            final(self)@ == (WriterView { cli_text: loader_request_spec(old(self)@), ..old(self)@ }),
    {
        self.cli_text = self.loader_request();
    }

    pub fn on_create_date_input(&mut self, s: String)
        ensures
            final(self)@ == (WriterView {
                create_date_change_text: s@,
                modifying_create_date: create_date_visibility_ticks(),
                ..old(self)@
            }),
    {
        self.create_date_change_text = s;
        self.modifying_create_date = 3;
    }

    pub fn on_create_date_doubleclicked(&mut self)
        ensures
            final(self)@ == (WriterView { modifying_create_date: create_date_visibility_ticks(), ..old(self)@ }),
    {
        self.modifying_create_date = 3;
    }

    /// Whether the entry on display has changes to save.
    pub fn needs_save(&self) -> (b: bool)
        ensures
            b == self@.editor_dirty,
    {
        self.editor_dirty
    }

    /// The id and text of the entry to write to the database, when it has
    /// changes to save.
    pub fn pending_save(&self) -> (r: Option<(u32, String)>)
        ensures
            match save_target(self@) {
                Some(k) => r matches Some(p) && p.0 == self@.entries[k].id && p.1@ == self@.entries[k].text@,
                None => r is None,
            },
    {
        if !self.editor_dirty {
            return None;
        }
        match self.current_entry() {
            Some(entry) => Some((entry.id, entry.text.clone())),
            None => None,
        }
    }

    /// The entry has been written to the database (or it could not be):
    /// there is nothing left to save.
    pub fn on_saved(&mut self, res: Result<(), TirraDbError>)
        ensures
            final(self)@ == (WriterView {
                editor_dirty: false,
                error_screen: match res {
                    Ok(()) => old(self)@.error_screen,
                    Err(e) => Some(save_error_message(e)),
                },
                ..old(self)@
            }),
    {
        if let Err(error) = res {
            let mut msg: Vec<char> = chars_of("error: I couldn't write the current entry content to database (");
            msg.extend_from_slice(chars_of(db_error_name_exec(&error)).as_slice());
            msg.extend_from_slice(chars_of(")").as_slice());
            assert(msg@ =~= save_error_message(error));
            self.error_screen = Some(string_from_chars(msg.as_slice()));
        }
        self.editor_dirty = false;
    }

    /// The entries have been reloaded after a save: there is nothing left
    /// to save.
    pub fn on_reloaded(&mut self, entries: TirraEntryList)
        ensures
            final(self)@ == (WriterView {
                entries: entries@,
                limitless_count: entries.limitless_view(),
                editor_dirty: false,
                ..old(self)@
            }),
    {
        self.entry_list = entries;
        self.editor_dirty = false;
    }

    /// The request of the command bar has been run. When it loaded entries,
    /// the page shows them and keeps the request, showing entry `select`
    /// (see `with_curr_id`); when it failed, the command bar takes back the
    /// request in use.
    pub fn on_cli_loaded(&mut self, res: Result<TirraEntryList, TirraDbError>, select: Option<u32>)
        ensures
            match res {
                Ok(list) => final(self)@ == with_curr_id(
                    WriterView {
                        entries: list@,
                        limitless_count: list.limitless_view(),
                        load_request: old(self)@.cli_text,
                        editor_needs_refresh: true,
                        ..old(self)@
                    },
                    select,
                ),
                Err(_) => final(self)@ == (WriterView {
                    cli_text: old(self)@.load_request,
                    editor_needs_refresh: true,
                    ..old(self)@
                }),
            },
    {
        match res {
            Ok(entries) => {
                self.entry_list = entries;
                self.load_request = self.cli_text.clone();
                self.editor_needs_refresh = true;
                self.update_curr_entry_id(select);
            },
            Err(_) => {
                self.cli_text = self.load_request.clone();
                self.editor_needs_refresh = true;
            },
        }
    }

    /// A new creation date is submitted: what the database is asked (see
    /// `CreateDateAction`). Text that is not a date is cleared.
    pub fn on_create_date_submit(&mut self) -> (a: CreateDateAction)
        ensures
            match parse_u64_spec(old(self)@.create_date_change_text) {
                None => a == CreateDateAction::Cancelled && final(self)@ == (WriterView {
                    create_date_change_text: Seq::empty(),
                    ..old(self)@
                }),
                Some(epoch) => final(self)@ == old(self)@ && match old(self)@.curr_entry_id {
                    Some(id) => a == (CreateDateAction::Update { id, epoch }),
                    None => a == CreateDateAction::NoEntry,
                },
            },
    {
        match parse_u64(self.create_date_change_text.as_str()) {
            None => {
                self.create_date_change_text = String::new();
                CreateDateAction::Cancelled
            },
            Some(epoch) => match self.curr_entry_id {
                Some(id) => CreateDateAction::Update { id, epoch },
                None => CreateDateAction::NoEntry,
            },
        }
    }

    /// The creation date has been changed (with the entries reloaded), or
    /// could not be: the change of date is over.
    pub fn on_create_date_updated(&mut self, reloaded: Option<TirraEntryList>)
        ensures
            ({
                let v = match reloaded {
                    Some(list) => with_curr_id(
                        WriterView { entries: list@, limitless_count: list.limitless_view(), ..old(self)@ },
                        None,
                    ),
                    None => old(self)@,
                };
                final(self)@ == (WriterView {
                    create_date_change_text: Seq::empty(),
                    modifying_create_date: 0,
                    editor_needs_refresh: true,
                    ..v
                })
            }),
    {
        match reloaded {
            Some(list) => {
                self.entry_list = list;
                self.update_curr_entry_id(None);
            },
            None => {},
        }
        self.create_date_change_text = String::new();
        self.modifying_create_date = 0;
        self.editor_needs_refresh = true;
    }

    /// The list moves to the next or the previous page of entries; the
    /// command bar takes the request that loads it, to be submitted. Nothing
    /// changes at either end (`false`).
    pub fn on_pagination_clicked(&mut self, next: bool) -> (moved: bool)
        ensures
            moved == paginated(old(self)@, next) is Some,
            final(self)@ == match paginated(old(self)@, next) {
                Some(w) => w,
                None => old(self)@,
            },
    {
        let total = self.entry_list.get_limitless_count();
        if next {
            if self.pagination_offset as u64 + 30 <= total as u64 {
                self.pagination_offset = self.pagination_offset + 30;
            } else {
                return false;
            }
        } else {
            if self.pagination_offset >= 30 {
                self.pagination_offset = self.pagination_offset - 30;
            } else {
                return false;
            }
        }
        self.cli_text = self.loader_request();
        true
    }

    /// The entry to delete: the one on display, if any.
    pub fn delete_target(&self) -> (r: Option<u32>)
        ensures
            match self@.curr_entry_id {
                Some(id) => if index_of_id(self@.entries, id, 0) is Some { r == Some(id) } else { r is None },
                None => r is None,
            },
    {
        proof {
            if let Some(id) = self@.curr_entry_id {
                crate::storage::db::lemma_index_of_id_bounds(self@.entries, id, 0);
            }
        }
        match self.current_entry() {
            Some(entry) => Some(entry.id),
            None => None,
        }
    }

    /// Entry `prev_entry` has been deleted (or could not be): the entry to
    /// show next is the one after it in the list, else the one before it,
    /// when it was deleted.
    pub fn on_entry_removed(&mut self, prev_entry: u32, res: Result<(), TirraDbError>) -> (next: Option<u32>)
        ensures
            final(self)@ == (WriterView {
                error_screen: match res {
                    Ok(()) => old(self)@.error_screen,
                    Err(e) => Some(delete_error_message(e)),
                },
                ..old(self)@
            }),
            res is Err ==> next is None,
            res is Ok ==> next == match crate::storage::db::neighbor_index(old(self)@.entries, prev_entry, true) {
                Some(k) => Some(old(self)@.entries[k].id),
                None => match crate::storage::db::neighbor_index(old(self)@.entries, prev_entry, false) {
                    Some(k) => Some(old(self)@.entries[k].id),
                    None => None,
                },
            },
    {
        match res {
            Err(error) => {
                let mut msg: Vec<char> = chars_of("error: I couldn't delete the current entry (");
                msg.extend_from_slice(chars_of(db_error_name_exec(&error)).as_slice());
                msg.extend_from_slice(chars_of(")").as_slice());
                assert(msg@ =~= delete_error_message(error));
                self.error_screen = Some(string_from_chars(msg.as_slice()));
                None
            },
            Ok(()) => match self.entry_list.neighbor_id_entry(prev_entry, true) {
                Some(n_entry) => Some(n_entry.id),
                None => match self.entry_list.neighbor_id_entry(prev_entry, false) {
                    Some(n_entry) => Some(n_entry.id),
                    None => None,
                },
            },
        }
    }

    /// The sort order switches between creation and modification date; the
    /// command bar takes the request that loads the first page, to be
    /// submitted.
    pub fn on_sort_toggled(&mut self)
        ensures
            final(self)@ == sort_toggled(old(self)@),
    {
        self.order_by_date_create = !self.order_by_date_create;
        self.cli_text = build_filter(self.search_text.as_str(), self.order_by_date_create, 0, 30);
        self.editor_needs_refresh = true;
    }

    /// An entry is selected in the list (once the entry on display has been
    /// saved).
    pub fn on_entry_selected(&mut self, entry_id: u32)
        ensures
            final(self)@ == (WriterView {
                editor_needs_refresh: true,
                ..with_curr_id(old(self)@, Some(entry_id))
            }),
    {
        self.update_curr_entry_id(Some(entry_id));
        self.editor_needs_refresh = true;
    }

    /// A new entry has been added (with the entries reloaded), or could not
    /// be: the page shows the entry with the greatest id, the new one.
    pub fn on_new_entry_added(&mut self, reloaded: Option<TirraEntryList>)
        ensures
            match reloaded {
                Some(list) => {
                    let v = WriterView { entries: list@, limitless_count: list.limitless_view(), ..old(self)@ };
                    &&& list@.len() == 0 ==> final(self)@ == (WriterView {
                        editor_needs_refresh: true,
                        ..with_curr_id(v, None)
                    })
                    &&& list@.len() > 0 ==> exists|k: int| #[trigger]
                        is_first_greatest(list@, k) && final(self)@ == (WriterView {
                            editor_needs_refresh: true,
                            ..with_curr_id(v, Some(list@[k].id))
                        })
                },
                None => final(self)@ == (WriterView { editor_needs_refresh: true, ..old(self)@ }),
            },
    {
        match reloaded {
            Some(list) => {
                self.entry_list = list;
                let just_added_id = match self.entry_list.greatest_id_entry() {
                    Some(ent) => Some(ent.id),
                    None => None,
                };
                self.update_curr_entry_id(just_added_id);
            },
            None => {},
        }
        self.editor_needs_refresh = true;
    }

    pub fn is_readonly(&self) -> (b: bool)
        ensures
            b == self@.readonly_mode,
    {
        self.readonly_mode
    }

    /// Whether the page has been idle for longer than the inactivity delay
    /// at time `now`.
    pub fn is_inactivity(&self, now: i64) -> (b: bool)
        ensures
            b == (now - self@.last_activity > inactivity_seconds()),
    {
        (now as i128) - (self.last_activity as i128) > 180
    }

    pub fn is_cli_visible(&self) -> (b: bool)
        ensures
            b == self@.cli_visible,
    {
        self.cli_visible
    }

    pub fn cli_text(&self) -> (s: String)
        ensures
            s@ == self@.cli_text,
    {
        self.cli_text.clone()
    }

    pub fn search_text(&self) -> (s: String)
        ensures
            s@ == self@.search_text,
    {
        self.search_text.clone()
    }

    /// The page of entries: its first index, the index after its last one,
    /// and the number of entries.
    pub fn pagination_brief(&self) -> (b: (u32, u32, u32))
        ensures
            b == (
                self@.pagination_offset,
                (if self@.pagination_offset + 30 > u32::MAX {
                    self@.pagination_offset + 30 - 4294967296
                } else {
                    self@.pagination_offset + 30
                }) as u32,
                self@.limitless_count,
            ),
    {
        (self.pagination_offset, self.pagination_offset.wrapping_add(30), self.entry_list.get_limitless_count())
    }

    /// Whether the button that adds an entry is enabled.
    pub fn view_button_newentry_enabled(&self) -> (b: bool)
        ensures
            b == (self@.curr_entry_id is Some && !self@.readonly_mode),
    {
        self.curr_entry_id.is_some() && !self.readonly_mode
    }

    /// The id of the entry on display, with the date and the time of its
    /// creation and of its last change, in UTC (see `date_line` and
    /// `time_line`).
    pub fn view_status_current_entry_date(&self) -> (r: Option<(u32, String, String, String, String)>)
        requires
            self@.curr_entry_id matches Some(id) ==> index_of_id(self@.entries, id, 0) is Some,
        ensures
            match self@.curr_entry_id {
                None => r is None,
                Some(id) => {
                    let e = self@.entries[index_of_id(self@.entries, id, 0)->0];
                    let c = utc_fields(e.date_create as i64);
                    let m = utc_fields(e.date_modify as i64);
                    &&& r is Some
                    &&& r->Some_0.0 == e.id
                    &&& r->Some_0.1@ == date_line(c)
                    &&& r->Some_0.2@ == time_line(c)
                    &&& r->Some_0.3@ == date_line(m)
                    &&& r->Some_0.4@ == time_line(m)
                },
            },
    {
        match self.current_entry() {
            Some(entry) => {
                let (create_date, create_time) = status_lines(&datetime_from_unix(entry.date_create as i64));
                let (modify_date, modify_time) = status_lines(&datetime_from_unix(entry.date_modify as i64));
                Some((entry.id, create_date, create_time, modify_date, modify_time))
            },
            None => None,
        }
    }

    pub fn is_entry_selected(&self) -> (b: bool)
        ensures
            b == self@.curr_entry_id is Some,
    {
        self.curr_entry_id.is_some()
    }

    /// What the list shows of each entry: its title of at most 25
    /// characters, its id, and whether it is on display.
    pub fn entry_views(&self) -> (views: Vec<EntryView>)
        ensures
            views@.len() == self@.entries.len(),
            forall|i: int|
                0 <= i < views@.len() ==> {
                    &&& #[trigger] views@[i].id == self@.entries[i].id
                    &&& views@[i].title@ == title_spec(self@.entries[i].text@, 25)
                    &&& views@[i].selected == (self@.curr_entry_id == Some(self@.entries[i].id))
                },
    {
        let mut views: Vec<EntryView> = Vec::new();
        let mut pos: usize = 0;
        while pos < self.entry_list.len()
            invariant
                pos <= self@.entries.len(),
                views@.len() == pos,
                forall|i: int|
                    0 <= i < pos ==> {
                        &&& #[trigger] views@[i].id == self@.entries[i].id
                        &&& views@[i].title@ == title_spec(self@.entries[i].text@, 25)
                        &&& views@[i].selected == (self@.curr_entry_id == Some(self@.entries[i].id))
                    },
            decreases self@.entries.len() - pos,
        {
            let entry = self.entry_list.get_entry(pos).unwrap();
            assert(*entry == self@.entries[pos as int]);
            let selected = match self.curr_entry_id {
                Some(id) => entry.id == id,
                None => false,
            };
            let ghost prev = views@;
            let view = EntryView { title: entry.title(25), id: entry.id, selected };
            views.push(view);
            assert forall|i: int| 0 <= i < pos + 1 implies {
                &&& #[trigger] views@[i].id == self@.entries[i].id
                &&& views@[i].title@ == title_spec(self@.entries[i].text@, 25)
                &&& views@[i].selected == (self@.curr_entry_id == Some(self@.entries[i].id))
            } by {
                if i < pos {
                    assert(views@[i] == prev[i]);
                }
            }
            pos = pos + 1;
        }
        views
    }

    /// Moves the display to the next or the previous entry of the list.
    fn move_curr_entry_id(&mut self, down: bool)
        ensures
            final(self)@ == moved_view(old(self)@, down),
    {
        match self.curr_entry_id {
            Some(id) => match self.entry_list.neighbor_id_entry(id, down) {
                Some(n_entry) => {
                    self.curr_entry_id = Some(n_entry.id);
                },
                None => {},
            },
            None => {},
        }
    }
}

impl TirraInterface for WriterUi {
    /// Each tick saves the entry on display, and counts down the time that
    /// the field that changes the creation date stays visible.
    fn on_tick(&mut self) -> (a: UiAction)
        ensures
            a == UiAction::SaveAndReload,
            final(self)@ == (WriterView {
                modifying_create_date: if old(self)@.modifying_create_date > 0 {
                    (old(self)@.modifying_create_date - 1) as u8
                } else {
                    0
                },
                ..old(self)@
            }),
    {
        if self.modifying_create_date > 0 {
            self.modifying_create_date = self.modifying_create_date - 1;
        }
        UiAction::SaveAndReload
    }

    /// Ctrl+P shows or hides the command bar, the arrows move to the next
    /// or the previous entry, and the other keys are handed back.
    fn on_ctrl(&mut self, control: KbCtrl) -> (a: UiAction)
        ensures
            a == match control {
                KbCtrl::CtrlS => UiAction::SaveAndReload,
                KbCtrl::CtrlK => UiAction::LogControl(control),
                KbCtrl::CtrlL => UiAction::ToggleTheme,
                KbCtrl::CtrlN => UiAction::NewEntry,
                _ => UiAction::Nothing,
            },
            final(self)@ == match control {
                KbCtrl::CtrlP => cli_shown(old(self)@),
                KbCtrl::Down => WriterView { editor_needs_refresh: true, ..moved_view(old(self)@, true) },
                KbCtrl::Up => WriterView { editor_needs_refresh: true, ..moved_view(old(self)@, false) },
                _ => old(self)@,
            },
    {
        match control {
            KbCtrl::CtrlP => {
                self.on_show_cli();
                UiAction::Nothing
            },
            KbCtrl::CtrlS => UiAction::SaveAndReload,
            KbCtrl::CtrlK => UiAction::LogControl(control),
            KbCtrl::CtrlL => UiAction::ToggleTheme,
            KbCtrl::CtrlN => UiAction::NewEntry,
            KbCtrl::CtrlShiftF => UiAction::Nothing,
            KbCtrl::Down => {
                self.move_curr_entry_id(true);
                self.editor_needs_refresh = true;
                UiAction::Nothing
            },
            KbCtrl::Up => {
                self.move_curr_entry_id(false);
                self.editor_needs_refresh = true;
                UiAction::Nothing
            },
        }
    }

    fn on_close(&mut self) -> (a: UiAction)
        ensures
            a == UiAction::SaveAndReload,
            final(self)@ == old(self)@,
    {
        UiAction::SaveAndReload
    }

    fn on_activity(&mut self, now: i64)
        ensures
            final(self)@ == (WriterView { last_activity: now, ..old(self)@ }),
    {
        self.last_activity = now;
    }

    /// The title marks an entry with changes to save.
    fn title(&self) -> (t: String)
        ensures
            t@ == (if self@.editor_dirty { "Tirra* "@ } else { "Tirra "@ }),
    {
        if self.editor_dirty {
            "Tirra* ".to_owned()
        } else {
            "Tirra ".to_owned()
        }
    }

    fn background_work(&self) -> (b: BgRun)
        ensures
            b == BgRun::Nothing,
    {
        self.bg_work
    }
}

} // verus!
