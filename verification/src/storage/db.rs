//! The notebook's entries and the database records that describe them.
//!
//! The SQLite connection itself lives with the application; this module
//! holds the entries as they are read from the database, the list that the
//! interface browses, and the text that the database requests are built
//! from.
use vstd::prelude::*;

use crate::common::utils::{chars_of, string_from_chars, u64_decimal, u64_to_chars};

verus! {

pub const TIRRA_ENTRY_TYPE_GENERAL: u8 = 0;

pub const TIRRA_DB_SCHEMA_VER: u8 = 0;

#[derive(Debug, Clone, PartialEq, Eq, Structural)]
pub enum TirraDbError {
    CryptoAccessFailure,
    DbOpenFailure,
    DbCloseFailure,
    DbRemovePlain,
    DbInitError,
    DbRemoveFileError,
    DbRequestError,
    DbRequestErrorPrepare,
    DbRequestErrorQuery,
    DbRequestErrorIter,
    DbRequestErrorCommit,
}

/// An entry of the notebook.
#[derive(Clone, Debug)]
pub struct TirraEntry {
    pub id: u32,
    pub date_create: u64,
    pub date_modify: u64,
    pub type_entry: u8,
    pub text: String,
}

/// A blank character: a space or a line feed.
pub open spec fn is_blank(c: char) -> bool {
    c == ' ' || c == '\n'
}

/// Index of the first character of `s`, from `from` on, that is not blank
/// (the length when there is none).
pub open spec fn first_non_blank(s: Seq<char>, from: int) -> int
    decreases s.len() - from,
{
    if from >= s.len() {
        s.len() as int
    } else if !is_blank(s[from]) {
        from
    } else {
        first_non_blank(s, from + 1)
    }
}

/// Index of the first line feed of `s`, from `from` on (the length when
/// there is none).
pub open spec fn first_newline(s: Seq<char>, from: int) -> int
    decreases s.len() - from,
{
    if from >= s.len() {
        s.len() as int
    } else if s[from] == '\n' {
        from
    } else {
        first_newline(s, from + 1)
    }
}

/// The title of a text: its first line once leading blanks are skipped,
/// cut after the character at index `max_chars` of the text.
pub open spec fn title_spec(s: Seq<char>, max_chars: int) -> Seq<char> {
    let start = first_non_blank(s, 0);
    let nl = first_newline(s, start);
    let cut = if start > max_chars { start + 1 } else { max_chars + 1 };
    s.subrange(start, if nl < cut { nl } else { cut })
}

proof fn lemma_first_non_blank_bounds(s: Seq<char>, from: int)
    requires
        0 <= from <= s.len(),
    ensures
        from <= first_non_blank(s, from) <= s.len(),
        forall|j: int| from <= j < first_non_blank(s, from) ==> #[trigger] is_blank(s[j]),
    decreases s.len() - from,
{
    if from < s.len() && is_blank(s[from]) {
        lemma_first_non_blank_bounds(s, from + 1);
    }
}

proof fn lemma_first_newline_bounds(s: Seq<char>, from: int)
    requires
        0 <= from <= s.len(),
    ensures
        from <= first_newline(s, from) <= s.len(),
        first_newline(s, from) < s.len() ==> s[first_newline(s, from)] == '\n',
        forall|j: int| from <= j < first_newline(s, from) ==> #[trigger] s[j] != '\n',
    decreases s.len() - from,
{
    if from < s.len() && s[from] != '\n' {
        lemma_first_newline_bounds(s, from + 1);
    }
}

impl TirraEntry {
    /// A title for the entry (see `title_spec`).
    pub fn title(&self, max_chars: usize) -> (t: String)
        ensures
            t@ == title_spec(self.text@, max_chars as int),
    {
        let chars = chars_of(self.text.as_str());
        let n = chars.len();
        let ghost s = chars@;
        let mut start: usize = 0;
        while start < n && (chars[start] == ' ' || chars[start] == '\n')
            invariant
                n == s.len(),
                s == chars@,
                start <= n,
                first_non_blank(s, 0) == first_non_blank(s, start as int),
            decreases n - start,
        {
            start = start + 1;
        }
        proof {
            lemma_first_non_blank_bounds(s, start as int);
        }
        let mut sub: Vec<char> = Vec::new();
        let mut i: usize = start;
        while i < n && chars[i] != '\n'
            invariant
                n == s.len(),
                s == chars@,
                s == self.text@,
                start <= i <= n,
                start == first_non_blank(s, 0),
                first_newline(s, start as int) == first_newline(s, i as int),
                i == start || i - 1 < max_chars,
                sub@ == s.subrange(start as int, i as int),
            decreases n - i,
        {
            sub.push(chars[i]);
            assert(sub@ =~= s.subrange(start as int, i + 1));
            if i >= max_chars {
                proof {
                    lemma_first_newline_bounds(s, i + 1);
                    assert(first_newline(s, i as int) == first_newline(s, i + 1));
                }
                return string_from_chars(sub.as_slice());
            }
            i = i + 1;
        }
        proof {
            lemma_first_newline_bounds(s, i as int);
        }
        string_from_chars(sub.as_slice())
    }
}

/// The entries read by a request, with the number of entries that the
/// request would give without its `LIMIT`.
pub struct TirraEntryList {
    entries: Vec<TirraEntry>,
    limitless_count: u32,
}

/// Index of the first entry of `s`, from `from` on, whose id is `id`.
pub open spec fn index_of_id(s: Seq<TirraEntry>, id: u32, from: int) -> Option<int>
    decreases s.len() - from,
{
    if from < 0 || from >= s.len() {
        None
    } else if s[from].id == id {
        Some(from)
    } else {
        index_of_id(s, id, from + 1)
    }
}

/// Index of the first entry of `s`, from `from` on, whose id is not `id`.
pub open spec fn index_of_other_id(s: Seq<TirraEntry>, id: u32, from: int) -> Option<int>
    decreases s.len() - from,
{
    if from < 0 || from >= s.len() {
        None
    } else if s[from].id != id {
        Some(from)
    } else {
        index_of_other_id(s, id, from + 1)
    }
}

/// Entry `i` has the greatest id, and is the first entry with that id.
pub open spec fn is_first_greatest(s: Seq<TirraEntry>, i: int) -> bool {
    &&& 0 <= i < s.len()
    &&& forall|j: int| 0 <= j < s.len() ==> #[trigger] s[j].id <= s[i].id
    &&& forall|j: int| 0 <= j < i ==> #[trigger] s[j].id < s[i].id
}

/// Entry `i` has the smallest id, and is the first entry with that id.
pub open spec fn is_first_smallest(s: Seq<TirraEntry>, i: int) -> bool {
    &&& 0 <= i < s.len()
    &&& forall|j: int| 0 <= j < s.len() ==> #[trigger] s[j].id >= s[i].id
    &&& forall|j: int| 0 <= j < i ==> #[trigger] s[j].id > s[i].id
}

/// Index of the neighbor of the first entry whose id is `current`: the entry
/// just before it (up), or the first entry after it with another id (down).
pub open spec fn neighbor_index(s: Seq<TirraEntry>, current: u32, down: bool) -> Option<int> {
    match index_of_id(s, current, 0) {
        None => None,
        Some(m) => if down {
            index_of_other_id(s, current, m + 1)
        } else if m > 0 {
            Some(m - 1)
        } else {
            None
        },
    }
}

/// The entry at an index of `s`, if there is one.
pub open spec fn entry_at(s: Seq<TirraEntry>, i: Option<int>, r: Option<&TirraEntry>) -> bool {
    match i {
        Some(k) => r matches Some(e) && *e == s[k],
        None => r is None,
    }
}

pub proof fn lemma_index_of_id_bounds(s: Seq<TirraEntry>, id: u32, from: int)
    requires
        0 <= from,
    ensures
        index_of_id(s, id, from) matches Some(k) ==> from <= k < s.len() && s[k].id == id && forall|j: int|
            from <= j < k ==> #[trigger] s[j].id != id,
        index_of_id(s, id, from) is None ==> forall|j: int| from <= j < s.len() ==> #[trigger] s[j].id != id,
    decreases s.len() - from,
{
    if from < s.len() && s[from].id != id {
        lemma_index_of_id_bounds(s, id, from + 1);
    }
}

pub proof fn lemma_index_of_other_id_bounds(s: Seq<TirraEntry>, id: u32, from: int)
    requires
        0 <= from,
    ensures
        index_of_other_id(s, id, from) matches Some(k) ==> from <= k < s.len() && s[k].id != id && forall|j: int|
            from <= j < k ==> #[trigger] s[j].id == id,
        index_of_other_id(s, id, from) is None ==> forall|j: int| from <= j < s.len() ==> #[trigger] s[j].id == id,
    decreases s.len() - from,
{
    if from < s.len() && s[from].id == id {
        lemma_index_of_other_id_bounds(s, id, from + 1);
    }
}

impl TirraEntryList {
    /// The entries.
    pub closed spec fn view(&self) -> Seq<TirraEntry> {
        self.entries@
    }

    /// The count of entries without the request's limit.
    pub closed spec fn limitless_view(&self) -> u32 {
        self.limitless_count
    }

    pub fn new() -> (l: Self)
        ensures
            l@ == Seq::<TirraEntry>::empty(),
            l.limitless_view() == 0,
    {
        Self { entries: Vec::new(), limitless_count: 0 }
    }

    pub fn from_vec(entries: Vec<TirraEntry>) -> (l: Self)
        ensures
            l@ == entries@,
            l.limitless_view() == 0,
    {
        Self { entries: entries, limitless_count: 0 }
    }

    pub fn set_limitless_count(&mut self, count: u32)
        ensures
            final(self)@ == old(self)@,
            final(self).limitless_view() == count,
    {
        self.limitless_count = count;
    }

    pub fn get_limitless_count(&self) -> (c: u32)
        ensures
            c == self.limitless_view(),
    {
        self.limitless_count
    }

    pub fn get_entry(&self, position: usize) -> (r: Option<&TirraEntry>)
        ensures
            entry_at(self@, if position < self@.len() { Some(position as int) } else { None }, r),
    {
        if position < self.entries.len() {
            Some(&self.entries[position])
        } else {
            None
        }
    }

    pub fn len(&self) -> (n: usize)
        ensures
            n == self@.len(),
    {
        self.entries.len()
    }

    /// Index of the first entry with id `id`.
    pub(crate) fn position_of_id(&self, id: u32) -> (r: Option<usize>)
        ensures
            match index_of_id(self@, id, 0) {
                Some(k) => r matches Some(x) && x as int == k,
                None => r is None,
            },
    {
        let mut i: usize = 0;
        while i < self.entries.len()
            invariant
                i <= self@.len(),
                index_of_id(self@, id, 0) == index_of_id(self@, id, i as int),
            decreases self@.len() - i,
        {
            if self.entries[i].id == id {
                return Some(i);
            }
            i = i + 1;
        }
        None
    }

    /// The first entry whose id is `id`.
    pub fn find_by_id(&self, id: u32) -> (r: Option<&TirraEntry>)
        ensures
            entry_at(self@, index_of_id(self@, id, 0), r),
    {
        proof { lemma_index_of_id_bounds(self@, id, 0); }
        match self.position_of_id(id) {
            Some(i) => Some(&self.entries[i]),
            None => None,
        }
    }

    /// Replaces the text of entry `position`.
    pub(crate) fn set_text(&mut self, position: usize, text: String)
        requires
            position < old(self)@.len(),
        ensures
            final(self).limitless_view() == old(self).limitless_view(),
            final(self)@ == old(self)@.update(position as int, TirraEntry { text, ..old(self)@[position as int] }),
    {
        self.entries[position].text = text;
    }

    /// The first entry whose id is `id`, to be changed in place.
    pub fn find_by_id_mut(&mut self, id: u32) -> (r: Option<&mut TirraEntry>)
        ensures
            final(self).limitless_view() == old(self).limitless_view(),
            index_of_id(old(self)@, id, 0) is None ==> r is None && final(self)@ == old(self)@,
            index_of_id(old(self)@, id, 0) matches Some(k) ==> r is Some && *r->0 == old(self)@[k] && final(self)@
                == old(self)@.update(k, *final(r->0)),
    {
        proof { lemma_index_of_id_bounds(self@, id, 0); }
        match self.position_of_id(id) {
            Some(i) => Some(&mut self.entries[i]),
            None => None,
        }
    }

    /// The entry with the greatest id (the first one among equals).
    pub fn greatest_id_entry(&self) -> (r: Option<&TirraEntry>)
        ensures
            self@.len() == 0 ==> r is None,
            self@.len() > 0 ==> exists|i: int| #[trigger] is_first_greatest(self@, i) && entry_at(self@, Some(i), r),
    {
        if self.entries.len() == 0 {
            return None;
        }
        let mut best: usize = 0;
        let mut i: usize = 1;
        while i < self.entries.len()
            invariant
                1 <= i <= self@.len(),
                best < i,
                forall|j: int| 0 <= j < i ==> #[trigger] self@[j].id <= self@[best as int].id,
                forall|j: int| 0 <= j < best ==> #[trigger] self@[j].id < self@[best as int].id,
            decreases self@.len() - i,
        {
            if self.entries[i].id > self.entries[best].id {
                best = i;
            }
            i = i + 1;
        }
        assert(is_first_greatest(self@, best as int));
        Some(&self.entries[best])
    }

    /// The entry with the smallest id (the first one among equals).
    pub fn smallest_id_entry(&self) -> (r: Option<&TirraEntry>)
        ensures
            self@.len() == 0 ==> r is None,
            self@.len() > 0 ==> exists|i: int| #[trigger] is_first_smallest(self@, i) && entry_at(self@, Some(i), r),
    {
        if self.entries.len() == 0 {
            return None;
        }
        let mut best: usize = 0;
        let mut i: usize = 1;
        while i < self.entries.len()
            invariant
                1 <= i <= self@.len(),
                best < i,
                forall|j: int| 0 <= j < i ==> #[trigger] self@[j].id >= self@[best as int].id,
                forall|j: int| 0 <= j < best ==> #[trigger] self@[j].id > self@[best as int].id,
            decreases self@.len() - i,
        {
            if self.entries[i].id < self.entries[best].id {
                best = i;
            }
            i = i + 1;
        }
        assert(is_first_smallest(self@, best as int));
        Some(&self.entries[best])
    }

    /// The entry before (`down` false) or after (`down` true) the first
    /// entry whose id is `current_id` (see `neighbor_index`).
    pub fn neighbor_id_entry(&self, current_id: u32, down: bool) -> (r: Option<&TirraEntry>)
        ensures
            entry_at(self@, neighbor_index(self@, current_id, down), r),
    {
        proof { lemma_index_of_id_bounds(self@, current_id, 0); }
        let m = match self.position_of_id(current_id) {
            Some(m) => m,
            None => return None,
        };
        if !down {
            if m > 0 {
                return Some(&self.entries[m - 1]);
            } else {
                return None;
            }
        }
        assert(m < self.entries.len());
        assert(neighbor_index(self@, current_id, down) == index_of_other_id(self@, current_id, m + 1));
        let mut j: usize = m + 1;
        while j < self.entries.len()
            invariant
                m < self@.len(),
                m + 1 <= j <= self@.len(),
                neighbor_index(self@, current_id, down) == index_of_other_id(self@, current_id, m + 1),
                index_of_other_id(self@, current_id, m + 1) == index_of_other_id(self@, current_id, j as int),
            decreases self@.len() - j,
        {
            if self.entries[j].id != current_id {
                assert(index_of_other_id(self@, current_id, j as int) == Some(j as int));
                return Some(&self.entries[j]);
            }
            j = j + 1;
        }
        None
    }
}

/// The smallest and the greatest id bound every id of the list.
pub proof fn lemma_id_extremes(s: Seq<TirraEntry>, lo: int, hi: int, k: int)
    requires
        is_first_smallest(s, lo),
        is_first_greatest(s, hi),
        0 <= k < s.len(),
    ensures
        s[lo].id <= s[k].id <= s[hi].id,
{
}

/// In a list whose ids are all distinct, going down from an entry and then
/// up again comes back to it.
pub proof fn lemma_neighbor_down_up(s: Seq<TirraEntry>, k: int)
    requires
        0 <= k,
        k + 1 < s.len(),
        forall|i: int, j: int| 0 <= i < j < s.len() ==> s[i].id != s[j].id,
    ensures
        neighbor_index(s, s[k].id, true) == Some(k + 1),
        neighbor_index(s, s[k + 1].id, false) == Some(k),
{
    lemma_index_of_id_bounds(s, s[k].id, 0);
    lemma_index_of_id_bounds(s, s[k + 1].id, 0);
    assert(index_of_id(s, s[k].id, 0) == Some(k)) by {
        if index_of_id(s, s[k].id, 0) is None {
            assert(s[k].id != s[k].id);
        }
    }
    assert(index_of_id(s, s[k + 1].id, 0) == Some(k + 1)) by {
        if index_of_id(s, s[k + 1].id, 0) is None {
            assert(s[k + 1].id != s[k + 1].id);
        }
    }
    assert(index_of_other_id(s, s[k].id, k + 1) == Some(k + 1));
}

/// The latest row of the `information` table.
pub struct TirraDbInformation {
    pub id: u32,
    pub schema_ver: u32,
    pub local_commit: Option<Vec<u8>>,
    pub origin_commit: Option<Vec<u8>>,
    pub local_source: String,
    pub origin_source: String,
    pub local_ts: u64,
    pub origin_ts: u64,
}

/// The lowercase hexadecimal digit of a value below 16.
pub open spec fn hex_digit(v: u8) -> char {
    if v < 10 {
        (48 + v) as char
    } else {
        (87 + v) as char
    }
}

/// Lowercase hexadecimal writing of bytes, two digits per byte.
pub open spec fn hex_spec(b: Seq<u8>) -> Seq<char>
    decreases b.len(),
{
    if b.len() == 0 {
        seq![]
    } else {
        hex_spec(b.drop_last()) + seq![hex_digit(b.last() >> 4), hex_digit(b.last() & 15)]
    }
}

/// The hexadecimal digit of a value below 16.
fn hex_digit_exec(v: u8) -> (c: char)
    requires
        v < 16,
    ensures
        c == hex_digit(v),
{
    match v {
        0 => '0',
        1 => '1',
        2 => '2',
        3 => '3',
        4 => '4',
        5 => '5',
        6 => '6',
        7 => '7',
        8 => '8',
        9 => '9',
        10 => 'a',
        11 => 'b',
        12 => 'c',
        13 => 'd',
        14 => 'e',
        _ => 'f',
    }
}

impl TirraDbInformation {
    /// A commit id written in lowercase hexadecimal, two digits per byte.
    pub fn commit_id_string(commit_id: &Vec<u8>) -> (s: String)
        ensures
            s@ == hex_spec(commit_id@),
    {
        let mut out: Vec<char> = Vec::new();
        let mut i: usize = 0;
        while i < commit_id.len()
            invariant
                i <= commit_id@.len(),
                out@ == hex_spec(commit_id@.subrange(0, i as int)),
            decreases commit_id@.len() - i,
        {
            let b = commit_id[i];
            assert(b >> 4 < 16 && b & 15 < 16) by (bit_vector);
            out.push(hex_digit_exec(b >> 4));
            out.push(hex_digit_exec(b & 15));
            assert(commit_id@.subrange(0, i + 1).drop_last() =~= commit_id@.subrange(0, i as int));
            assert(out@ =~= hex_spec(commit_id@.subrange(0, i + 1)));
            i = i + 1;
        }
        assert(commit_id@.subrange(0, commit_id@.len() as int) =~= commit_id@);
        string_from_chars(out.as_slice())
    }

    /// The first six hexadecimal digits of the local commit; none when there
    /// is no local commit or it is shorter than three bytes.
    pub fn short_local_commit(&self) -> (s: Option<String>)
        ensures
            match self.local_commit {
                Some(c) => if hex_spec(c@).len() >= 6 {
                    s matches Some(t) && t@ == hex_spec(c@).subrange(0, 6)
                } else {
                    s is None
                },
                None => s is None,
            },
    {
        match &self.local_commit {
            Some(c) => {
                let full = chars_of(Self::commit_id_string(c).as_str());
                if full.len() >= 6 {
                    Some(string_from_chars(&full.as_slice()[0..6]))
                } else {
                    None
                }
            },
            None => None,
        }
    }

    /// The line that describes the database: its schema version, the first
    /// six digits of its local commit and the time of that commit; none when
    /// the local commit is missing or too short to show six digits.
    pub fn debug_line(&self) -> (s: Option<String>)
        ensures
            match self.local_commit {
                Some(c) => if hex_spec(c@).len() >= 6 {
                    s matches Some(t) && t@ == debug_line_spec(self.schema_ver, hex_spec(c@).subrange(0, 6), self.local_ts)
                } else {
                    s is None
                },
                None => s is None,
            },
    {
        let commit = match self.short_local_commit() {
            Some(c) => c,
            None => return None,
        };
        let mut out: Vec<char> = Vec::new();
        out.push('i');
        out.push('n');
        out.push('f');
        out.push('o');
        out.push(':');
        out.push(' ');
        out.push('d');
        out.push('b');
        out.push(' ');
        out.push('v');
        out.extend_from_slice(u64_to_chars(self.schema_ver as u64).as_slice());
        out.push(' ');
        out.push('-');
        out.push(' ');
        out.extend_from_slice(chars_of(commit.as_str()).as_slice());
        out.push(' ');
        out.push('-');
        out.push(' ');
        out.extend_from_slice(u64_to_chars(self.local_ts).as_slice());
        assert(out@ =~= debug_line_spec(self.schema_ver, commit@, self.local_ts));
        Some(string_from_chars(out.as_slice()))
    }
}

/// `info: db v<schema> - <commit> - <time>`.
pub open spec fn debug_line_spec(schema_ver: u32, commit: Seq<char>, ts: u64) -> Seq<char> {
    seq!['i', 'n', 'f', 'o', ':', ' ', 'd', 'b', ' ', 'v'] + u64_decimal(schema_ver as u64) + seq![' ', '-', ' ']
        + commit + seq![' ', '-', ' '] + u64_decimal(ts)
}

/// The end of the request that reads the entries: those whose text
/// contains `search`, newest first by creation or modification date,
/// `limit` of them from `offset` on.
pub open spec fn build_filter_spec(search: Seq<char>, order_by_create: bool, offset: u32, limit: u32) -> Seq<char> {
    "WHERE text LIKE '%"@ + search + "%' ORDER BY "@ + (if order_by_create {
        "date_create"@
    } else {
        "date_modify"@
    }) + " DESC LIMIT "@ + u64_decimal(offset as u64) + ","@ + u64_decimal(limit as u64)
}

/// Builds the end of the request that reads the entries (see
/// `build_filter_spec`).
pub fn build_filter(search: &str, order_by_create: bool, offset: u32, limit: u32) -> (f: String)
    ensures
        f@ == build_filter_spec(search@, order_by_create, offset, limit),
{
    let order = if order_by_create { "date_create" } else { "date_modify" };
    let mut out: Vec<char> = chars_of("WHERE text LIKE '%");
    out.extend_from_slice(chars_of(search).as_slice());
    out.extend_from_slice(chars_of("%' ORDER BY ").as_slice());
    out.extend_from_slice(chars_of(order).as_slice());
    out.extend_from_slice(chars_of(" DESC LIMIT ").as_slice());
    out.extend_from_slice(u64_to_chars(offset as u64).as_slice());
    out.extend_from_slice(chars_of(",").as_slice());
    out.extend_from_slice(u64_to_chars(limit as u64).as_slice());
    assert(out@ =~= build_filter_spec(search@, order_by_create, offset, limit));
    string_from_chars(out.as_slice())
}

} // verus!
