use coalescing_store::store::CoalescingObjectStore;
use coalescing_store::text::{parse_trimmed, white_space};

fn gap(setting: Option<&str>) -> u64 {
    CoalescingObjectStore::new((), setting).coalesce_gap()
}

#[test]
fn the_default_gap_is_one_mebibyte() {
    assert_eq!(gap(None), 1024 * 1024);
    assert_eq!(gap(None), object_store::OBJECT_STORE_COALESCE_DEFAULT);
}

#[test]
fn a_number_sets_the_gap() {
    assert_eq!(gap(Some("0")), 0);
    assert_eq!(gap(Some("4096")), 4096);
    assert_eq!(gap(Some("18446744073709551615")), u64::MAX);
}

#[test]
fn white_space_around_the_number_is_ignored() {
    assert_eq!(gap(Some("  17\n")), 17);
    assert_eq!(gap(Some("\u{3000}\t17\u{a0}")), 17);
}

#[test]
fn anything_else_leaves_the_default() {
    for text in ["", "  ", "1 7", "-1", "1.5", "0x10", "18446744073709551616", "+", "++1", "1+", "1k"] {
        assert_eq!(gap(Some(text)), 1024 * 1024);
    }
}

#[test]
fn white_space_is_as_in_the_standard_library() {
    for c in '\0'..=char::MAX {
        assert_eq!(white_space(c), c.is_whitespace());
    }
}

#[test]
fn numbers_are_read_as_by_the_standard_library() {
    let texts = [
        "0", "+0", "-0", "007", "+42", "42 ", " 42", "4 2", "18446744073709551615",
        "18446744073709551616", "18446744073709551620", "99999999999999999999999",
        "00000000000000000000000000000001", "+", "-", "", "\u{661}", "1_000", "1,0", "\u{2003}9\u{2003}",
    ];
    for text in texts {
        assert_eq!(parse_trimmed(text), text.trim().parse::<u64>().ok());
    }
}

#[test]
fn a_printed_gap_is_read_back() {
    for n in [0, 9, 10, 1048576, u64::MAX] {
        assert_eq!(parse_trimmed(&n.to_string()), Some(n));
    }
}

#[test]
fn the_wrapped_store_is_kept() {
    let store = CoalescingObjectStore::new("inner", None);
    assert_eq!(*store.inner(), "inner");
}

#[test]
fn display_names_the_gap_and_the_wrapped_store() {
    let store = CoalescingObjectStore::new((), Some("4096"));
    assert_eq!(store.display("InMemory"), "CoalescingObjectStore(gap=4096, InMemory)");
    let store = CoalescingObjectStore::new((), Some("18446744073709551615"));
    assert_eq!(store.display(""), "CoalescingObjectStore(gap=18446744073709551615, )");
    let store = CoalescingObjectStore::new((), Some("0"));
    assert_eq!(store.display("x"), "CoalescingObjectStore(gap=0, x)");
}

#[test]
fn debug_names_the_gap_and_the_wrapped_store() {
    let store = CoalescingObjectStore::new("x", Some("5"));
    assert_eq!(store.debug("\"x\""), "CoalescingObjectStore { coalesce_gap: 5, inner: \"x\" }");
    assert_eq!(format!("{:?}", store), store.debug("\"x\""));
}
