//! Clocks, files, names, texts and JSON.

use serde_json::Value;
use streams::clock::{clock_ms, Clock, SystemClock, TestClock};
use streams::engine::wal_glue::WalHandle;
use streams::json::{array_of_numbers, array_of_strings, raw_of, ObjectBuilder};
use streams::name_map::{is_before, NameMap};
use streams::storage::fs::{File, MemFile, OpenOpts};
use streams::text::{
    before_last, concat2, concat3, contains_char, contains_str, decimal, parse_usize, split,
    starts_with, str_eq, strip_prefix, trim, trim_start,
};

#[test]
fn a_test_clock_stands_still_until_it_is_moved() {
    let mut c = TestClock::new(10);
    assert_eq!(c.now_ms(), 10);
    assert_eq!(c.now_ms(), 10);
    c.advance(5);
    assert_eq!(c.now_ms(), 15);
    c.advance(-20);
    assert_eq!(c.now_ms(), -5);
    c.set(7);
    assert_eq!(c.now_ms(), 7);
    assert_eq!(TestClock::default().now_ms(), 0);
    let mut c = TestClock::new(i64::MAX);
    c.advance(1);
    assert_eq!(c.now_ms(), i64::MIN);
}

#[test]
fn the_system_clock_shows_this_century() {
    let now = SystemClock::default().now_ms();
    assert!(now > 1_600_000_000_000, "{now}");
    assert!(now < 10_000_000_000_000, "{now}");
}

#[test]
fn elapsed_time_as_clock_time() {
    assert_eq!(clock_ms(None), 0);
    assert_eq!(clock_ms(Some(5)), 5);
    assert_eq!(clock_ms(Some(1u128 << 64)), 0);
    assert_eq!(clock_ms(Some(u64::MAX as u128)), -1);
}

#[test]
fn open_options() {
    let o = OpenOpts::read_only();
    assert_eq!((o.create, o.read, o.write, o.truncate), (false, true, false, false));
    let o = OpenOpts::create_truncate();
    assert_eq!((o.create, o.read, o.write, o.truncate), (true, true, true, true));
    let o = OpenOpts::create_keep();
    assert_eq!((o.create, o.read, o.write, o.truncate), (true, true, true, false));
    let o = OpenOpts::rw_existing();
    assert_eq!((o.create, o.read, o.write, o.truncate), (false, true, true, false));
    let o = OpenOpts::default();
    assert_eq!((o.create, o.read, o.write, o.truncate), (false, false, false, false));
}

#[test]
fn a_handle_owns_its_log() {
    let h = WalHandle::new(vec![1, 2]);
    assert_eq!(h._wal, vec![1, 2]);
}

#[test]
fn a_file_in_memory_reads_back_what_was_written() {
    let mut f = MemFile::new();
    assert_eq!(f.write_at(0, b"hello world").unwrap(), 11);
    f.sync_all().unwrap();
    f.sync_data().unwrap();
    assert_eq!(f.metadata_len().unwrap(), 11);
    let mut buf = [0u8; 5];
    assert_eq!(f.read_at(6, &mut buf).unwrap(), 5);
    assert_eq!(&buf, b"world");
    assert_eq!(f.read_at(9, &mut buf).unwrap(), 2, "short near the end");
    assert_eq!(&buf, b"ldrld", "what was not read into stays");
    assert_eq!(f.read_at(100, &mut buf).unwrap(), 0);
    assert_eq!(&buf, b"ldrld");

    assert_eq!(f.write_at(6, b"there").unwrap(), 5);
    assert_eq!(f.write_at(13, b"!").unwrap(), 1);
    assert_eq!(f.bytes, b"hello there\0\0!");
    assert_eq!(f.write_at(3, b"").unwrap(), 0);
    assert_eq!(f.write_at(u64::MAX, b"x").unwrap(), 0, "no room there");
    assert_eq!(f.bytes, b"hello there\0\0!");
    f.set_len(4).unwrap();
    assert_eq!(f.bytes, b"hell");
    f.set_len(6).unwrap();
    assert_eq!(f.bytes, b"hell\0\0");
}

#[test]
fn reading_to_the_end() {
    let mut f = MemFile::new();
    f.write_at(0, b"hello world, again").unwrap();
    let mut out = b">".to_vec();
    f.read_to_end_from(6, &mut out).unwrap();
    assert_eq!(out, b">world, again");
    let mut out = Vec::new();
    f.read_to_end_from(100, &mut out).unwrap();
    assert!(out.is_empty());
    let big: Vec<u8> = (0..200_000u32).map(|i| (i % 251) as u8).collect();
    let f = MemFile { bytes: big.clone() };
    let mut out = Vec::new();
    f.read_to_end_from(1, &mut out).unwrap();
    assert_eq!(out, &big[1..]);
}

#[test]
fn names_in_order() {
    assert!(is_before("a", "b"));
    assert!(is_before("", "a"));
    assert!(is_before("a", "aa"));
    assert!(!is_before("a", "a"));
    assert!(is_before("Z", "a"));
    let mut m = NameMap::new();
    for (name, v) in [("m", 1), ("a", 2), ("z", 3), ("a", 4)] {
        m.insert(name.to_string(), v);
    }
    let names: Vec<&str> = m.entries.iter().map(|e| e.0.as_str()).collect();
    assert_eq!(names, vec!["a", "m", "z"]);
    assert_eq!(m.get("a"), Some(&4));
    assert_eq!(m.find("z"), Some(2));
    assert!(m.contains_key("m") && !m.contains_key("b"));
    assert_eq!(m.remove("m"), Some(1));
    assert_eq!(m.remove("m"), None);
    assert_eq!(m.len(), 2);
    assert!(!m.is_empty());
    assert!(NameMap::<u64>::new().is_empty());
}

#[test]
fn texts() {
    assert!(str_eq("h\u{e9}", "h\u{e9}") && !str_eq("he", "h\u{e9}") && !str_eq("a", "ab"));
    assert!(starts_with("abc", "ab") && starts_with("abc", "") && !starts_with("ab", "abc"));
    assert_eq!(strip_prefix("abc", "ab"), Some("c"));
    assert_eq!(strip_prefix("abc", "b"), None);
    assert!(contains_char("a/b", '/') && !contains_char("", '/'));
    assert!(contains_str("xabcx", "abc") && contains_str("x", "") && !contains_str("ab", "abc"));
    assert_eq!(trim(" \t a b \u{a0}\n"), "a b");
    assert_eq!(trim("  "), "");
    assert_eq!(trim_start("  a "), "a ");
    assert_eq!(split("a,,b", ','), vec!["a", "", "b"]);
    assert_eq!(split("", ','), vec![""]);
    assert_eq!(before_last("a:b:c", ':'), "a:b");
    assert_eq!(before_last("abc", ':'), "abc");
    assert_eq!(concat2("a", "b"), "ab");
    assert_eq!(concat3("a", "", "c"), "ac");
    assert_eq!(decimal(0), "0");
    assert_eq!(decimal(1_234_567_890), "1234567890");
    assert_eq!(decimal(u64::MAX), "18446744073709551615");
    assert_eq!(parse_usize("42"), Some(42));
    assert_eq!(parse_usize("+"), None);
    assert_eq!(parse_usize("4 2"), None);
}

#[test]
fn json_objects_and_arrays() {
    let mut o = ObjectBuilder::new();
    o.put_u64("n", u64::MAX);
    o.put_i64("i", i64::MIN);
    o.put_str("s", "q\"\n");
    o.put_bool("b", true);
    o.put_or_null("z", &None);
    o.put_or_null("y", &Some(Value::from(1)));
    o.put("s", Value::from("again"));
    assert_eq!(
        o.finish().to_string(),
        r#"{"b":true,"i":-9223372036854775808,"n":18446744073709551615,"s":"again","y":1,"z":null}"#
    );
    assert_eq!(array_of_numbers(&vec![3, 1]).to_string(), "[3,1]");
    assert_eq!(array_of_strings(&vec!["x".to_string()]).to_string(), r#"["x"]"#);
    assert_eq!(ObjectBuilder::new().finish().to_string(), "{}");
}

#[test]
fn raw_text_is_the_compact_text() {
    let v = array_of_strings(&vec!["a b".to_string(), "\"".to_string()]);
    assert_eq!(raw_of(&v).get(), v.to_string());
    assert_eq!(raw_of(&Value::Null).get(), "null");
}
