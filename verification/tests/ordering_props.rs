use std::cmp::Ordering;

use debversion::compare_digits;
use debversion::compare_non_digit;
use debversion::compare_non_digits;
use debversion::compare_versions;
use debversion::is_ascii_letter;

// A varied pool of version strings, including empty and ill-formed
// ones, for the pairwise and triple-wise property checks below.
const POOL: [&str; 18] = [
    "",
    "0",
    "1.0",
    "1.00",
    "1.0-0",
    "1.0~rc1",
    "1.0-1",
    "1.0-1ubuntu1",
    "1.0-2",
    "2.0",
    "10.1",
    "1:1.0",
    "1:17:19",
    "2:0.1",
    "a",
    "~~",
    "1.2.3-4-5",
    "weird stuff+x",
];

#[test]
fn totality_over_arbitrary_strings() {
    // Every pair, well-formed or not, yields some ordering.
    for a in POOL.iter() {
        for b in POOL.iter() {
            let _ = compare_versions(a, b);
        }
    }
    // A couple of pinned results on inputs outside the version alphabet.
    assert_eq!(Ordering::Equal, compare_versions("", ""));
    assert_eq!(Ordering::Less, compare_versions("", "1.0"));
    assert_eq!(Ordering::Less, compare_versions("a b", "a+c"));
}

#[test]
fn reflexivity_scenarios() {
    for a in POOL.iter() {
        assert_eq!(Ordering::Equal, compare_versions(a, a));
    }
}

#[test]
fn antisymmetry_scenarios() {
    for a in POOL.iter() {
        for b in POOL.iter() {
            let fwd = compare_versions(a, b);
            let bwd = compare_versions(b, a);
            let mirrored = match fwd {
                Ordering::Less => Ordering::Greater,
                Ordering::Equal => Ordering::Equal,
                Ordering::Greater => Ordering::Less,
            };
            assert_eq!(mirrored, bwd);
        }
    }
}

#[test]
fn transitivity_sampled_triples() {
    for a in POOL.iter() {
        for b in POOL.iter() {
            for c in POOL.iter() {
                let ab = compare_versions(a, b);
                let bc = compare_versions(b, c);
                let ac = compare_versions(a, c);
                if ab == Ordering::Less && bc == Ordering::Less {
                    assert_eq!(Ordering::Less, ac);
                }
                if ab == Ordering::Equal && bc == Ordering::Equal {
                    assert_eq!(Ordering::Equal, ac);
                }
                if ab != Ordering::Greater && bc != Ordering::Greater {
                    assert_ne!(Ordering::Greater, ac);
                }
            }
        }
    }
}

#[test]
fn leading_zero_numeric_equivalence() {
    assert_eq!(Ordering::Equal, compare_versions("1.0", "1.00"));
    assert_eq!(Ordering::Equal, compare_digits("00000100", "100"));
    assert_eq!(Ordering::Equal, compare_digits("007", "7"));
    assert_eq!(Ordering::Equal, compare_digits("0", ""));
    assert_eq!(Ordering::Equal, compare_digits("", ""));
}

#[test]
fn tilde_sorts_before_release() {
    assert_eq!(Ordering::Less, compare_versions("1.0~rc1", "1.0"));
    assert_eq!(Ordering::Greater, compare_versions("1.0", "1.0~rc1"));
    assert_eq!(Ordering::Less, compare_non_digits("~", ""));
    assert_eq!(Ordering::Greater, compare_non_digits("", "~"));
    assert_eq!(Ordering::Less, compare_non_digit('~', 'a'));
    assert_eq!(Ordering::Less, compare_non_digit('~', '+'));
}

#[test]
fn epoch_dominates_upstream() {
    assert_eq!(Ordering::Greater, compare_versions("1:1.0", "2.0"));
    assert_eq!(Ordering::Less, compare_versions("2.0", "1:1.0"));
    assert_eq!(Ordering::Equal, compare_versions("0:1.0", "1.0"));
}

#[test]
fn revision_breaks_ties() {
    assert_eq!(Ordering::Less, compare_versions("1.0-1", "1.0-2"));
    assert_eq!(Ordering::Equal, compare_versions("1.0", "1.0-0"));
    assert_eq!(Ordering::Less, compare_versions("1.0", "1.0-1"));
}

#[test]
fn literal_scenarios() {
    assert_eq!(Ordering::Less, compare_versions("3.0", "3.1"));
    assert_eq!(Ordering::Greater, compare_versions("3.1", "3.0"));
    assert_eq!(Ordering::Equal, compare_versions("3.0", "3.0"));
    assert_eq!(Ordering::Greater, compare_versions("1:2.3-4", "2.3-4"));
    assert_eq!(Ordering::Less, compare_versions("1.0-1", "1.0-1ubuntu1"));
}

#[test]
fn letters_sort_before_symbols() {
    // Debian's run ordering: letters first, then the rest by code point.
    assert_eq!(Ordering::Less, compare_non_digit('z', '+'));
    assert_eq!(Ordering::Greater, compare_non_digit('+', 'z'));
    assert_eq!(Ordering::Less, compare_non_digit('A', 'a'));
    assert_eq!(Ordering::Less, compare_non_digits("a", "a+"));
    assert_eq!(Ordering::Less, compare_versions("1.0alpha", "1.0+1"));
    assert!(is_ascii_letter('q'));
    assert!(is_ascii_letter('Q'));
    assert!(!is_ascii_letter('0'));
    assert!(!is_ascii_letter('.'));
}

#[test]
fn corpus_sort_matches_reference_order() {
    let expected = vec![
        "0.9",
        "1.0~alpha1",
        "1.0~beta2",
        "1.0~rc1",
        "1.0",
        "1.0-1",
        "1.0-1ubuntu1",
        "1.0-2",
        "1.0.1",
        "1.2",
        "1.10",
        "2.0~pre",
        "2.0",
        "2.0-3",
        "2.4.7",
        "10.1",
        "1:0.1",
        "1:2.3-4",
        "2:0.0.1",
    ];
    // A fixed shuffle of the list above.
    let mut shuffled = vec![
        "1.10",
        "2:0.0.1",
        "1.0-1ubuntu1",
        "0.9",
        "2.0",
        "1.0~rc1",
        "1:2.3-4",
        "1.0.1",
        "2.4.7",
        "1.0",
        "1.0~alpha1",
        "2.0-3",
        "10.1",
        "1.0-2",
        "1.2",
        "1:0.1",
        "2.0~pre",
        "1.0~beta2",
        "1.0-1",
    ];
    shuffled.sort_by(|a, b| compare_versions(a, b));
    assert_eq!(expected, shuffled);
}
