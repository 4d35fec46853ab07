use dagr_core::error::{TaskError, TaskErrorClass};
use dagr_core::names::NameMap;
use dagr_core::scan::{read_signed, read_unsigned, split_word, starts_with, trim};
use dagr_core::stable_name::{is_well_formed, StableInputNames, StableName};
use dagr_core::text::{chars_of, decimal_text, hex_text, place, same_text, signed_text, Placement};
use dagr_core::time::Duration;

#[test]
fn names_are_kept_in_order() {
    let mut m: NameMap<u8> = NameMap::new();
    m.insert("b".to_string(), 1);
    m.insert("é".to_string(), 2);
    m.insert("a".to_string(), 3);
    m.insert("b".to_string(), 4);
    assert_eq!(m.len(), 3);
    let names: Vec<&str> = (0..m.len()).map(|i| m.name_at(i)).collect();
    assert_eq!(names, vec!["a", "b", "é"]);
    assert_eq!(m.get("b"), Some(&4));
    assert_eq!(m.index_of("é"), Some(2));
    assert!(!m.contains("c"));
    m.remove("b");
    m.remove("nothing");
    assert_eq!(m.len(), 2);
    m.truncate(1);
    assert_eq!(m.name_at(0), "a");
    assert_eq!(*m.value_at(0), 3);
    assert!(!m.is_empty());
}

#[test]
fn texts_are_compared_by_their_bytes() {
    assert!(matches!(place("a", "b"), Placement::Before));
    assert!(matches!(place("b", "a"), Placement::After));
    assert!(matches!(place("a", "a"), Placement::Same));
    assert!(matches!(place("a", "aa"), Placement::Before));
    assert!(matches!(place("z", "é"), Placement::Before));
    assert!(same_text("", ""));
    assert!(!same_text("a", "A"));
}

#[test]
fn numbers_are_written() {
    assert_eq!(decimal_text(0), "0");
    assert_eq!(decimal_text(u128::MAX), "340282366920938463463374607431768211455");
    assert_eq!(signed_text(i64::MIN), "-9223372036854775808");
    assert_eq!(signed_text(17), "17");
    assert_eq!(hex_text(0xab, 4), "00ab");
    assert_eq!(hex_text(u64::MAX, 16), "ffffffffffffffff");
}

#[test]
fn numbers_are_read() {
    let read = |s: &str| read_unsigned(&chars_of(s), u64::MAX);
    assert_eq!(read("0"), Some(0));
    assert_eq!(read("+007"), Some(7));
    assert_eq!(read("18446744073709551615"), Some(u64::MAX));
    assert_eq!(read("18446744073709551616"), None);
    assert_eq!(read("1_000"), None);
    assert_eq!(read("+"), None);
    assert_eq!(read("++1"), None);
    assert_eq!(read(" 1"), None);
    assert_eq!(read("٣"), None);
    assert_eq!(read_unsigned(&chars_of("256"), 255), None);
    let signed = |s: &str| read_signed(&chars_of(s));
    assert_eq!(signed("-9223372036854775808"), Some(i64::MIN));
    assert_eq!(signed("-9223372036854775809"), None);
    assert_eq!(signed("9223372036854775807"), Some(i64::MAX));
    assert_eq!(signed("9223372036854775808"), None);
    assert_eq!(signed("-0"), Some(0));
    assert_eq!(signed("-"), None);
    assert_eq!(signed("+-1"), None);
}

#[test]
fn words_are_split_at_white_space() {
    let word = |s: &str| {
        split_word(&chars_of(s)).map(|(a, b)| (a.into_iter().collect::<String>(), b.into_iter().collect::<String>()))
    };
    assert_eq!(word("  one\ttwo"), Some(("one".to_string(), "\ttwo".to_string())));
    assert_eq!(word("one"), Some(("one".to_string(), String::new())));
    assert_eq!(word(" \u{3000}\n"), None);
    let trimmed: String = trim(&chars_of("\u{2003}a b\u{85} ")).into_iter().collect();
    assert_eq!(trimmed, "a b");
    for c in ['\u{0}', '\u{1c}', '\u{200b}', '\u{feff}', 'x'] {
        assert_eq!(trim(&vec![c]), vec![c]);
    }
    for n in 0..0x3001u32 {
        if let Some(c) = char::from_u32(n) {
            assert_eq!(trim(&vec![c]).is_empty(), c.is_whitespace());
        }
    }
    assert!(starts_with(&chars_of("dagr.x"), &chars_of("dagr.")));
    assert!(!starts_with(&chars_of("dag"), &chars_of("dagr.")));
}

#[test]
fn stable_names_are_checked() {
    assert!(is_well_formed("acme.RowCount:v1_2-x"));
    assert!(!is_well_formed(""));
    assert!(!is_well_formed("a b"));
    assert!(!is_well_formed("é"));
    assert_eq!(<() as StableName>::STABLE_NAME, "()");
}

struct Rows;

impl StableName for Rows {
    const STABLE_NAME: &'static str = "acme.Rows";
}

#[test]
fn input_names_come_in_order() {
    assert_eq!(<Rows as StableInputNames>::stable_input_names(), vec!["acme.Rows"]);
    assert_eq!(<(Rows, ()) as StableInputNames>::stable_input_names(), vec!["acme.Rows", "()"]);
}

#[test]
fn task_errors_have_a_class() {
    let e = TaskError::retryable_from("no answer", "timed out");
    assert_eq!(e.class(), TaskErrorClass::Retryable);
    assert_eq!(e.message(), "no answer");
    assert_eq!(e.source(), Some("timed out"));
    assert!(e.is_retryable() && !e.is_permanent() && !e.is_skip());
    let e = TaskError::permanent("no");
    assert!(e.is_permanent());
    assert_eq!(e.source(), None);
    assert!(TaskError::skip("nothing").is_skip());
    assert!(TaskError::retryable("x").is_retryable());
    assert_eq!(TaskError::permanent_from("no", "why").source(), Some("why"));
    assert!(TaskError::permanent("bad input").render().ends_with(": bad input"));
}

#[test]
fn spans_are_counted_in_nanoseconds() {
    assert_eq!(Duration::from_millis(3).as_nanos(), 3_000_000);
    assert_eq!(Duration::zero().as_nanos(), 0);
    assert_eq!(Duration::max().as_nanos(), 18_446_744_073_709_551_615_999_999_999);
    assert_eq!(dagr_core::assembly::encoding::duration_nanos(Duration::max()), u128::MAX);
    assert_eq!(dagr_core::assembly::encoding::duration_nanos(Duration::from_millis(3)), 3_000_000);
}
