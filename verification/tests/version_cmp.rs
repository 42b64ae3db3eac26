use std::cmp::Ordering;

use debversion::compare_digits;
use debversion::compare_non_digits;
use debversion::compare_versions;
use debversion::debian_revision;
use debversion::epoch;
use debversion::take_component;

#[test]
fn lib_test_epoch() {
    assert_eq!(("", "17"), epoch("17"));
    assert_eq!(("1", "17"), epoch("1:17"));

    // only the first colon splits; a second one passes through
    assert_eq!(("1", "17:19"), epoch("1:17:19"));
}

#[test]
fn test_extract_revision() {
    assert_eq!(("17", ""), debian_revision("17"));
    assert_eq!(("17", "2"), debian_revision("17-2"));
    assert_eq!(("17-2", "3"), debian_revision("17-2-3"));
}

#[test]
fn test_take_component() {
    assert_eq!((("abc", "123"), "def456"), take_component("abc123def456"));
    assert_eq!((("a", "123"), "def456"), take_component("a123def456"));
    assert_eq!((("abc", "1"), "def456"), take_component("abc1def456"));
    assert_eq!((("a", "1"), "def456"), take_component("a1def456"));

    assert_eq!((("", "12"), "bc34"), take_component("12bc34"));
    assert_eq!((("", "12"), "b34"), take_component("12b34"));
    assert_eq!((("", "1"), "bc34"), take_component("1bc34"));
    assert_eq!((("", "1"), "b34"), take_component("1b34"));

    assert_eq!((("", "17"), ""), take_component("17"));
    assert_eq!((("", "1"), ""), take_component("1"));
    assert_eq!((("ab", ""), ""), take_component("ab"));
    assert_eq!((("a", ""), ""), take_component("a"));

    assert_eq!((("", ""), ""), take_component(""));
}

#[test]
fn test_compare_digits() {
    assert_eq!(Ordering::Equal, compare_digits("1", "1"));
    assert_eq!(Ordering::Equal, compare_digits("1", "01"));
    assert_eq!(Ordering::Equal, compare_digits("100", "0100"));
    assert_eq!(Ordering::Equal, compare_digits("0100", "100"));
    assert_eq!(Ordering::Equal, compare_digits("00000100", "00000000000100"));
    assert_eq!(Ordering::Equal, compare_digits("000100", "0100"));

    assert_eq!(Ordering::Equal, compare_digits("", "00"));
    assert_eq!(Ordering::Less, compare_digits("", "001"));
    assert_eq!(Ordering::Greater, compare_digits("001", ""));

    assert_eq!(Ordering::Less, compare_digits("1", "2"));
    assert_eq!(Ordering::Greater, compare_digits("2", "1"));

    assert_eq!(Ordering::Less, compare_digits("01", "02"));
    assert_eq!(Ordering::Greater, compare_digits("02", "01"));

    assert_eq!(Ordering::Less, compare_digits("10", "20"));
    assert_eq!(Ordering::Greater, compare_digits("20", "10"));

    assert_eq!(Ordering::Less, compare_digits("11", "12"));
    assert_eq!(Ordering::Greater, compare_digits("12", "11"));

    assert_eq!(Ordering::Less, compare_digits("1", "10"));
    assert_eq!(Ordering::Greater, compare_digits("10", "1"));
}

#[test]
fn test_compare_non_digits() {
    assert_eq!(Ordering::Equal, compare_non_digits("a", "a"));
    assert_eq!(Ordering::Equal, compare_non_digits("Z", "Z"));
    assert_eq!(Ordering::Equal, compare_non_digits("~", "~"));
    assert_eq!(Ordering::Equal, compare_non_digits("-", "-"));

    assert_eq!(Ordering::Less, compare_non_digits("a", "b"));
}

#[test]
fn simple() {
    assert_eq!(Ordering::Less, compare_versions("3.0", "3.1"));
    assert_eq!(Ordering::Greater, compare_versions("3.1", "3.0"));
    assert_eq!(Ordering::Equal, compare_versions("3.0", "3.0"));
}
