use tirra::gui_iced::styles::style_conf::dark_mode_in_paris;
use tirra::common::utils::{base64_decode, base64_encode, hash_sha256, month_abr, parse_u32, parse_u64, time_now, u64_to_chars};

#[test]
fn month_abr_names_each_month() {
    let names = ["Jan", "Feb", "Mar", "Apr", "May", "Jun", "Jul", "Aug", "Sep", "Oct", "Nov", "Dec"];
    for (i, name) in names.iter().enumerate() {
        assert_eq!(month_abr(i as u32 + 1), *name);
    }
}

#[test]
fn month_abr_out_of_range() {
    assert_eq!(month_abr(0), "-");
    assert_eq!(month_abr(13), "-");
}

#[test]
fn base64_known_vectors() {
    assert_eq!(base64_encode(b""), b"".to_vec());
    assert_eq!(base64_encode(b"f"), b"Zg".to_vec());
    assert_eq!(base64_encode(b"fo"), b"Zm8".to_vec());
    assert_eq!(base64_encode(b"foo"), b"Zm9v".to_vec());
    assert_eq!(base64_encode(b"foob"), b"Zm9vYg".to_vec());
    assert_eq!(base64_encode(b"fooba"), b"Zm9vYmE".to_vec());
    assert_eq!(base64_encode(b"foobar"), b"Zm9vYmFy".to_vec());
    assert_eq!(base64_encode(&[0xfb, 0xff]), b"+/8".to_vec());
}

#[test]
fn base64_decode_known_vectors() {
    assert_eq!(base64_decode(b"Zm9vYmFy"), Some(b"foobar".to_vec()));
    assert_eq!(base64_decode(b"Zm8"), Some(b"fo".to_vec()));
    assert_eq!(base64_decode(b""), Some(vec![]));
}

#[test]
fn base64_decode_refusals() {
    assert_eq!(base64_decode(b"Z"), None);
    assert_eq!(base64_decode(b"Zh"), None);
    assert_eq!(base64_decode(b"Zm9="), None);
    assert_eq!(base64_decode(b"Zg=="), None);
    assert_eq!(base64_decode(b"Zm 9"), None);
}

#[test]
fn base64_round_trip() {
    let mut data = Vec::new();
    for i in 0..300u32 {
        data.push((i * 37 % 256) as u8);
        let enc = base64_encode(&data);
        assert_eq!(base64_decode(&enc), Some(data.clone()));
    }
}

#[test]
fn parse_unsigned_numbers() {
    assert_eq!(parse_u64("1700000000"), Some(1700000000));
    assert_eq!(parse_u64("+42"), Some(42));
    assert_eq!(parse_u64("18446744073709551615"), Some(u64::MAX));
    assert_eq!(parse_u64("18446744073709551616"), None);
    assert_eq!(parse_u64(""), None);
    assert_eq!(parse_u64("+"), None);
    assert_eq!(parse_u64("-1"), None);
    assert_eq!(parse_u64("12a"), None);
    assert_eq!(parse_u32("4294967295"), Some(u32::MAX));
    assert_eq!(parse_u32("4294967296"), None);
    assert_eq!(parse_u32("218"), Some(218));
}

#[test]
fn decimal_writing() {
    let s: String = u64_to_chars(0).into_iter().collect();
    assert_eq!(s, "0");
    let s: String = u64_to_chars(1234567890123).into_iter().collect();
    assert_eq!(s, "1234567890123");
}

#[test]
fn sha256_of_abc() {
    let h = hash_sha256("abc");
    let hex: String = h.iter().map(|b| format!("{:02x}", b)).collect();
    assert_eq!(hex, "ba7816bf8f01cfea414140de5dae2223b00361a396177a9cb410ff61f20015ad");
}

#[test]
fn time_now_is_after_2020() {
    assert!(time_now() > 1_577_836_800);
}

#[test]
fn calendar_fields_of_timestamps() {
    let d = tirra::common::utils::datetime_from_unix(1_709_975_100);
    assert_eq!((d.year_ce, d.month, d.day, d.weekday, d.hour, d.minute), (2024, 3, 9, 5, 9, 5));
    let e = tirra::common::utils::datetime_from_unix(-86_400);
    assert_eq!((e.year_ce, e.month, e.day, e.weekday), (1969, 12, 31, 2));
}

#[test]
fn dark_mode_outside_daylight() {
    assert!(dark_mode_in_paris(0, 8));
    assert!(!dark_mode_in_paris(0, 9));
    assert!(!dark_mode_in_paris(0, 16));
    assert!(dark_mode_in_paris(0, 17));
    assert!(!dark_mode_in_paris(5, 21));
    assert!(dark_mode_in_paris(11, 23));
    assert!(!dark_mode_in_paris(12, 6));
    assert!(dark_mode_in_paris(12, 22));
}

#[test]
fn decimal_writing_is_read_back() {
    for v in [0u64, 7, 10, 99, 1_700_000_000, u64::MAX] {
        let s: String = u64_to_chars(v).into_iter().collect();
        assert_eq!(parse_u64(&s), Some(v));
    }
}

#[test]
fn clock_reading_before_the_epoch_is_zero() {
    assert_eq!(tirra::common::utils::epoch_seconds_or_zero(Ok(1_700_000_000)), 1_700_000_000);
    assert_eq!(tirra::common::utils::epoch_seconds_or_zero(Err(())), 0);
}

#[test]
fn calendar_fields_of_leap_day_and_year_end() {
    let d = tirra::common::utils::datetime_from_unix(951_782_400);
    assert_eq!((d.year_ce, d.month, d.day, d.weekday, d.hour, d.minute), (2000, 2, 29, 1, 0, 0));
    let e = tirra::common::utils::datetime_from_unix(1_735_689_599);
    assert_eq!((e.year_ce, e.month, e.day, e.weekday, e.hour, e.minute), (2024, 12, 31, 1, 23, 59));
    let f = tirra::common::utils::datetime_from_unix(253_402_300_799);
    assert_eq!((f.year_ce, f.month, f.day, f.weekday, f.hour, f.minute), (9999, 12, 31, 4, 23, 59));
}
