use std::collections::hash_map::DefaultHasher;
use std::hash::{Hash, Hasher};
use std::str::FromStr;

use secid::Sid;

fn hash_of(sid: &Sid) -> u64 {
    let mut h = DefaultHasher::new();
    sid.hash(&mut h);
    h.finish()
}

/// The raw bytes of `S-1-1-0`, the well-known "Everyone" identifier:
/// revision 1, one sub-authority, authority 1, sub-authority 0.
fn everyone_bytes() -> Vec<u8> {
    vec![1, 1, 0, 0, 0, 0, 0, 1, 0, 0, 0, 0]
}

#[test]
fn raw_bytes_round_trip() {
    let b = vec![1u8, 2, 0, 0, 0, 0, 0, 5, 7, 0, 0, 0, 9, 1, 0, 0];
    let sid = Sid::from_raw_bytes(b.clone()).expect("revision-1 bytes must construct");
    assert_eq!(sid.as_bytes(), b.as_slice());
}

#[test]
fn rejected_raw_bytes() {
    assert!(Sid::from_raw_bytes(Vec::new()).is_none());
    assert!(Sid::from_raw_bytes(vec![2, 1, 0, 0, 0, 0, 0, 1, 0, 0, 0, 0]).is_none());
    assert!(Sid::from_raw_bytes(vec![0]).is_none());
}

#[test]
fn equal_bytes_equal_sids() {
    let b = everyone_bytes();
    let a = Sid::from_raw_bytes(b.clone()).unwrap();
    let c = Sid::from_raw_bytes(b).unwrap();
    assert_eq!(a, c);
    assert_eq!(hash_of(&a), hash_of(&c));
}

#[test]
fn different_bytes_differ() {
    let a = Sid::from_raw_bytes(everyone_bytes()).unwrap();
    let mut other = everyone_bytes();
    other[11] = 1;
    let b = Sid::from_raw_bytes(other).unwrap();
    assert_ne!(a, b);
}

#[test]
fn clone_is_equal() {
    let a = Sid::from_raw_bytes(everyone_bytes()).unwrap();
    let b = a.clone();
    assert_eq!(a, b);
    assert_eq!(hash_of(&a), hash_of(&b));
}

#[test]
fn ordering_is_total_and_consistent() {
    let a = Sid::from_raw_bytes(vec![1, 0, 0, 0, 0, 0, 0, 1]).unwrap();
    let b = Sid::from_raw_bytes(vec![1, 0, 0, 0, 0, 0, 0, 2]).unwrap();
    let c = Sid::from_raw_bytes(vec![1, 0, 0, 0, 0, 0, 0, 1]).unwrap();
    assert!(a < b);
    assert!(b > a);
    assert!(!(a < c) && !(c < a));
    assert_eq!(a.partial_cmp(&c), Some(std::cmp::Ordering::Equal));
    assert_eq!(a.partial_cmp(&b), Some(std::cmp::Ordering::Less));
    // a shorter sequence that is a prefix of a longer one orders before it
    let short = Sid::from_raw_bytes(vec![1, 0]).unwrap();
    let long = Sid::from_raw_bytes(vec![1, 0, 0]).unwrap();
    assert!(short < long);
}

#[test]
fn everyone_parses_and_formats() {
    let sid = Sid::from_str("S-1-1-0").expect("the Everyone identifier is canonical");
    assert_eq!(sid.as_bytes(), everyone_bytes().as_slice());
    let text = sid.to_string_sid().expect("a parsed identifier formats");
    assert_eq!(text, "S-1-1-0");
}

#[test]
fn format_then_reparse_gives_equal_sid() {
    let sid = Sid::from_str("S-1-5-21-3623811015-3361044348-30300820-1013").unwrap();
    let text = sid.to_string_sid().unwrap();
    assert_eq!(text, "S-1-5-21-3623811015-3361044348-30300820-1013");
    let again = Sid::from_str(&text).unwrap();
    assert_eq!(sid, again);
    assert_eq!(hash_of(&sid), hash_of(&again));
}

#[test]
fn invalid_strings_are_errors_not_panics() {
    for s in [
        "",
        "not-a-sid",
        "S",
        "S-1",
        "S-1-",
        "S-1-1-",
        "s-1-1-0",
        "S-2-1-0",
        "S-1-01",
        "S-1-1-00",
        "S-1--0",
        "S-1-1-0 ",
        "S-1-4294967296",
        "S-1-1-4294967296",
        "S-1-0x00000000002a",
        "S-1-1-0-1-2-3-4-5-6-7-8-9-10-11-12-13-14-15-16",
    ] {
        assert!(Sid::from_str(s).is_err(), "{s:?} must not parse");
    }
}

#[test]
fn zero_sub_authorities() {
    let sid = Sid::from_str("S-1-5").unwrap();
    assert_eq!(sid.as_bytes(), [1, 0, 0, 0, 0, 0, 0, 5]);
    assert_eq!(sid.to_string_sid().unwrap(), "S-1-5");
}

#[test]
fn largest_decimal_authority() {
    let sid = Sid::from_raw_bytes(vec![1, 0, 0, 0, 255, 255, 255, 255]).unwrap();
    assert_eq!(sid.to_string_sid().unwrap(), "S-1-4294967295");
    let again = Sid::from_str("S-1-4294967295").unwrap();
    assert_eq!(sid, again);
}

#[test]
fn hexadecimal_authority() {
    // authority 0xff0000000001 does not fit 32 bits: hexadecimal form
    let sid = Sid::from_raw_bytes(vec![1, 0, 0xff, 0, 0, 0, 0, 1]).unwrap();
    let text = sid.to_string_sid().unwrap();
    assert_eq!(text, "S-1-0xff0000000001");
    let again = Sid::from_str(&text).unwrap();
    assert_eq!(sid, again);
}

#[test]
fn full_sub_authority_count() {
    let mut text = String::from("S-1-5");
    for i in 0..15 {
        text.push_str(&format!("-{i}"));
    }
    let sid = Sid::from_str(&text).unwrap();
    assert_eq!(sid.as_bytes().len(), 8 + 4 * 15);
    assert_eq!(sid.to_string_sid().unwrap(), text);
}

#[test]
fn malformed_layout_fails_to_format() {
    // revision 1, but the announced count does not match the length
    let sid = Sid::from_raw_bytes(vec![1, 9, 0, 0]).unwrap();
    assert!(sid.to_string_sid().is_err());
}

#[test]
fn unmapped_account_is_absence() {
    let sid = Sid::from_raw_bytes(everyone_bytes()).unwrap();
    assert_eq!(sid.account_name(None), None);
    assert_eq!(sid.account_name_and_domain(None), None);
}

#[test]
fn resolved_account_with_domain() {
    let sid = Sid::from_raw_bytes(everyone_bytes()).unwrap();
    let looked_up = Some(("Everyone".to_string(), 6, "WORLD".to_string()));
    assert_eq!(
        sid.account_name_and_domain(looked_up.clone()),
        Some(("Everyone".to_string(), Some("WORLD".to_string())))
    );
    assert_eq!(sid.account_name(looked_up), Some("Everyone".to_string()));
}

#[test]
fn short_or_empty_domain_is_no_domain() {
    let sid = Sid::from_raw_bytes(everyone_bytes()).unwrap();
    let short = Some(("Everyone".to_string(), 1, "X".to_string()));
    assert_eq!(
        sid.account_name_and_domain(short),
        Some(("Everyone".to_string(), None))
    );
    let empty = Some(("Everyone".to_string(), 6, String::new()));
    assert_eq!(
        sid.account_name_and_domain(empty),
        Some(("Everyone".to_string(), None))
    );
}

#[test]
fn probe_decision() {
    assert!(Sid::lookup_proceeds(false, false));
    assert!(Sid::lookup_proceeds(false, true));
    assert!(Sid::lookup_proceeds(true, true));
    assert!(!Sid::lookup_proceeds(true, false));
}
