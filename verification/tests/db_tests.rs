use tirra::storage::db::{build_filter, TirraDbInformation, TirraEntry, TirraEntryList, TIRRA_DB_SCHEMA_VER, TIRRA_ENTRY_TYPE_GENERAL};

fn entry(id: u32, text: &str) -> TirraEntry {
    TirraEntry { id, date_create: 100 + id as u64, date_modify: 200 + id as u64, type_entry: TIRRA_ENTRY_TYPE_GENERAL, text: text.to_string() }
}

fn sample() -> TirraEntryList {
    TirraEntryList::from_vec(vec![entry(5, "five"), entry(9, "nine"), entry(2, "two"), entry(7, "seven")])
}

#[test]
fn title_skips_leading_blanks_and_stops_at_newline() {
    assert_eq!(entry(1, "  \n Hello world\nsecond line").title(50), "Hello world");
    assert_eq!(entry(1, "").title(10), "");
    assert_eq!(entry(1, " \n \n").title(10), "");
}

#[test]
fn title_is_cut_after_max_chars() {
    // the character at index max_chars is still taken
    assert_eq!(entry(1, "abcdefghij").title(3), "abcd");
    assert_eq!(entry(1, "abc").title(3), "abc");
    // leading blanks count in the index
    assert_eq!(entry(1, "   abcdefgh").title(4), "ab");
    // when the first non-blank character is past the limit it is kept alone
    assert_eq!(entry(1, "      abc").title(2), "a");
}

#[test]
fn list_basics() {
    let mut l = sample();
    assert_eq!(l.len(), 4);
    assert_eq!(l.get_limitless_count(), 0);
    l.set_limitless_count(42);
    assert_eq!(l.get_limitless_count(), 42);
    assert_eq!(l.get_entry(1).map(|e| e.id), Some(9));
    assert!(l.get_entry(4).is_none());
    let empty = TirraEntryList::new();
    assert_eq!(empty.len(), 0);
    assert!(empty.greatest_id_entry().is_none());
    assert!(empty.smallest_id_entry().is_none());
}

#[test]
fn find_entries_by_id() {
    let mut l = sample();
    assert_eq!(l.find_by_id(2).map(|e| e.text.clone()), Some("two".to_string()));
    assert!(l.find_by_id(3).is_none());
    if let Some(e) = l.find_by_id_mut(7) {
        e.text = "SEVEN".to_string();
    }
    assert_eq!(l.find_by_id(7).map(|e| e.text.clone()), Some("SEVEN".to_string()));
    assert!(l.find_by_id_mut(100).is_none());
    assert_eq!(l.len(), 4);
}

#[test]
fn id_extremes() {
    let l = sample();
    assert_eq!(l.greatest_id_entry().map(|e| e.id), Some(9));
    assert_eq!(l.smallest_id_entry().map(|e| e.id), Some(2));
    let dup = TirraEntryList::from_vec(vec![entry(4, "a"), entry(8, "b"), entry(8, "c"), entry(1, "d"), entry(1, "e")]);
    assert_eq!(dup.greatest_id_entry().map(|e| e.text.clone()), Some("b".to_string()));
    assert_eq!(dup.smallest_id_entry().map(|e| e.text.clone()), Some("d".to_string()));
}

#[test]
fn neighbors_in_list_order() {
    let l = sample();
    assert_eq!(l.neighbor_id_entry(9, true).map(|e| e.id), Some(2));
    assert_eq!(l.neighbor_id_entry(9, false).map(|e| e.id), Some(5));
    assert!(l.neighbor_id_entry(5, false).is_none());
    assert!(l.neighbor_id_entry(7, true).is_none());
    assert!(l.neighbor_id_entry(3, true).is_none());
    assert!(l.neighbor_id_entry(3, false).is_none());
}

#[test]
fn neighbor_down_then_up_comes_back() {
    let l = sample();
    for id in [5u32, 9, 2] {
        let down = l.neighbor_id_entry(id, true).expect("down").id;
        assert_eq!(l.neighbor_id_entry(down, false).map(|e| e.id), Some(id));
    }
}

#[test]
fn neighbor_down_skips_equal_ids() {
    let l = TirraEntryList::from_vec(vec![entry(3, "a"), entry(3, "b"), entry(6, "c")]);
    assert_eq!(l.neighbor_id_entry(3, true).map(|e| e.id), Some(6));
}

#[test]
fn commit_ids_in_hex() {
    assert_eq!(TirraDbInformation::commit_id_string(&vec![0x0a, 0xff]), "0aff");
    assert_eq!(TirraDbInformation::commit_id_string(&vec![]), "");
    assert_eq!(TirraDbInformation::commit_id_string(&vec![0x12, 0x34, 0xab, 0x00]), "1234ab00");
}

#[test]
fn filters() {
    assert_eq!(build_filter("cat", true, 0, 50), "WHERE text LIKE '%cat%' ORDER BY date_create DESC LIMIT 0,50");
    assert_eq!(build_filter("", false, 100, 25), "WHERE text LIKE '%%' ORDER BY date_modify DESC LIMIT 100,25");
    assert_eq!(
        build_filter("x", true, u32::MAX, 1),
        "WHERE text LIKE '%x%' ORDER BY date_create DESC LIMIT 4294967295,1"
    );
}

#[test]
fn constants() {
    assert_eq!(TIRRA_ENTRY_TYPE_GENERAL, 0);
    assert_eq!(TIRRA_DB_SCHEMA_VER, 0);
}
