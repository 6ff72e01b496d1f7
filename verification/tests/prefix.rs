use std::cmp::Ordering;

use indenty::prefix::Prefixable;

#[test]
fn str_is_prefix_of_longer_str() {
    assert!("ab".is_prefix_of(&"abc"));
    assert!(" ".is_prefix_of(&"  "));
}

#[test]
fn str_is_no_prefix_of_shorter_str() {
    assert!(!"abc".is_prefix_of(&"ab"));
    assert!(!"  ".is_prefix_of(&" "));
}

#[test]
fn str_is_prefix_of_itself() {
    assert!("abc".is_prefix_of(&"abc"));
    assert!("".is_prefix_of(&""));
}

#[test]
fn empty_str_is_prefix_of_every_str() {
    assert!("".is_prefix_of(&"x"));
    assert!(!"x".is_prefix_of(&""));
}

#[test]
fn str_with_other_start_is_no_prefix() {
    assert!(!" ".is_prefix_of(&"\t"));
    assert!(!"\t".is_prefix_of(&" "));
    assert!(!"b".is_prefix_of(&"ab"));
}

#[test]
fn str_prefix_counts_characters_not_bytes() {
    assert!("é".is_prefix_of(&"éa"));
    assert!(!"e".is_prefix_of(&"éa"));
}

#[test]
fn prefix_ord_of_equal_keys_is_equal() {
    assert_eq!("  ".prefix_ord(&"  "), Some(Ordering::Equal));
}

#[test]
fn prefix_ord_of_proper_prefix_is_less() {
    assert_eq!(" ".prefix_ord(&"   "), Some(Ordering::Less));
}

#[test]
fn prefix_ord_of_proper_extension_is_greater() {
    assert_eq!("   ".prefix_ord(&" "), Some(Ordering::Greater));
}

#[test]
fn prefix_ord_of_unrelated_keys_is_none() {
    assert_eq!(" ".prefix_ord(&"\t"), None);
    assert_eq!(" a".prefix_ord(&" b"), None);
}

#[test]
fn slice_is_prefix_of_longer_slice() {
    let short: &[i32] = &[1, 2];
    let long: &[i32] = &[1, 2, 3];
    assert!(short.is_prefix_of(long));
    assert!(!long.is_prefix_of(short));
}

#[test]
fn slice_is_prefix_of_itself_and_empty_of_all() {
    let items: &[u8] = &[7, 8];
    let none: &[u8] = &[];
    assert!(items.is_prefix_of(items));
    assert!(none.is_prefix_of(items));
    assert!(!items.is_prefix_of(none));
}

#[test]
fn slice_with_other_item_is_no_prefix() {
    let left: &[i32] = &[1, 3];
    let right: &[i32] = &[1, 2, 3];
    assert!(!left.is_prefix_of(right));
    assert_eq!(left.prefix_ord(right), None);
}

#[test]
fn slice_prefix_ord_gives_all_three_orders() {
    let short: &[char] = &['a'];
    let long: &[char] = &['a', 'b'];
    assert_eq!(short.prefix_ord(long), Some(Ordering::Less));
    assert_eq!(long.prefix_ord(short), Some(Ordering::Greater));
    assert_eq!(long.prefix_ord(long), Some(Ordering::Equal));
}

#[test]
fn reference_compares_as_what_it_refers_to() {
    let short = "ab";
    let long = "abc";
    assert!((&short).is_prefix_of(&&long));
    assert!(!(&long).is_prefix_of(&&short));
    assert_eq!((&short).prefix_ord(&&long), Some(Ordering::Less));
    assert_eq!((&long).prefix_ord(&&short), Some(Ordering::Greater));
    assert_eq!((&long).prefix_ord(&&long), Some(Ordering::Equal));
}
