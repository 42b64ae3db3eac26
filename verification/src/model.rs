//! Mathematical model of Debian version ordering.
//!
//! These spec functions define, over `Seq<char>`, exactly what the
//! executable comparators return: the split of a version string into
//! epoch / upstream version / revision, the alternating-run
//! decomposition, and the three comparators (numeric runs, non-numeric
//! runs under the tilde rule, and whole simple versions).
use vstd::prelude::*;

verus! {

use core::cmp::Ordering;

/// A decimal digit `0`..=`9`.
pub open spec fn is_digit(c: char) -> bool {
    '0' as int <= c as int && c as int <= '9' as int
}

/// An ASCII letter `a`..=`z` or `A`..=`Z`.
pub open spec fn is_letter(c: char) -> bool {
    ('a' as int <= c as int && c as int <= 'z' as int)
        || ('A' as int <= c as int && c as int <= 'Z' as int)
}

/// Length of the maximal prefix of `s` whose characters all satisfy `pred`.
pub open spec fn prefix_len(s: Seq<char>, pred: spec_fn(char) -> bool) -> int
    decreases s.len(),
{
    if s.len() > 0 && pred(s[0]) {
        1 + prefix_len(s.skip(1), pred)
    } else {
        0
    }
}

/// `prefix_len` is the first index whose character fails `pred`
/// (or the whole length, when none does).
pub proof fn lemma_prefix_len(s: Seq<char>, pred: spec_fn(char) -> bool)
    ensures
        0 <= prefix_len(s, pred) <= s.len(),
        forall|j: int| 0 <= j < prefix_len(s, pred) ==> pred(#[trigger] s[j]),
        prefix_len(s, pred) < s.len() ==> !pred(s[prefix_len(s, pred)]),
    decreases s.len(),
{
    if s.len() > 0 && pred(s[0]) {
        lemma_prefix_len(s.skip(1), pred);
        assert forall|j: int| 0 <= j < prefix_len(s, pred) implies pred(#[trigger] s[j]) by {
            if j > 0 {
                assert(s[j] == s.skip(1)[j - 1]);
            }
        }
        if prefix_len(s, pred) < s.len() {
            assert(s[prefix_len(s, pred)] == s.skip(1)[prefix_len(s.skip(1), pred)]);
        }
    }
}

/// Length of the leading non-digit run of `s`.
pub open spec fn non_digit_run_len(s: Seq<char>) -> int {
    prefix_len(s, |c: char| !is_digit(c))
}

/// Length of the leading digit run of `s`.
pub open spec fn digit_run_len(s: Seq<char>) -> int {
    prefix_len(s, |c: char| is_digit(c))
}

/// One tokenizer step: the leading non-digit run, the digit run that
/// follows it, and the remainder of the string.
pub open spec fn component_of(s: Seq<char>) -> (Seq<char>, Seq<char>, Seq<char>) {
    let a = non_digit_run_len(s);
    let d = digit_run_len(s.skip(a));
    (s.take(a), s.subrange(a, a + d), s.skip(a + d))
}

/// `non_digit_run_len` is the first index holding a digit (or the
/// whole length, when none does).
pub proof fn lemma_non_digit_run(s: Seq<char>)
    ensures
        0 <= non_digit_run_len(s) <= s.len(),
        forall|j: int| 0 <= j < non_digit_run_len(s) ==> !is_digit(#[trigger] s[j]),
        non_digit_run_len(s) < s.len() ==> is_digit(s[non_digit_run_len(s)]),
{
    lemma_prefix_len(s, |c: char| !is_digit(c));
}

/// `digit_run_len` is the first index holding a non-digit (or the
/// whole length, when none does).
pub proof fn lemma_digit_run(s: Seq<char>)
    ensures
        0 <= digit_run_len(s) <= s.len(),
        forall|j: int| 0 <= j < digit_run_len(s) ==> is_digit(#[trigger] s[j]),
        digit_run_len(s) < s.len() ==> !is_digit(s[digit_run_len(s)]),
{
    lemma_prefix_len(s, |c: char| is_digit(c));
}

/// `zeros_len` is the first index holding anything but `0` (or the
/// whole length, when none does).
pub proof fn lemma_zeros_run(s: Seq<char>)
    ensures
        0 <= zeros_len(s) <= s.len(),
        forall|j: int| 0 <= j < zeros_len(s) ==> #[trigger] s[j] == '0',
        zeros_len(s) < s.len() ==> s[zeros_len(s)] != '0',
{
    lemma_prefix_len(s, |c: char| c == '0');
}

/// A tokenizer step consumes at least one character of a non-empty
/// string, and never more than all of it.
pub proof fn lemma_component_consumes(s: Seq<char>)
    ensures
        0 <= non_digit_run_len(s),
        0 <= digit_run_len(s.skip(non_digit_run_len(s))),
        non_digit_run_len(s) + digit_run_len(s.skip(non_digit_run_len(s))) <= s.len(),
        s.len() > 0 ==> non_digit_run_len(s) + digit_run_len(s.skip(non_digit_run_len(s))) >= 1,
{
    let a = non_digit_run_len(s);
    lemma_prefix_len(s, |c: char| !is_digit(c));
    lemma_prefix_len(s.skip(a), |c: char| is_digit(c));
    if s.len() > 0 && a == 0 {
        assert(is_digit(s[0]));
        assert(s.skip(0) =~= s);
        assert(digit_run_len(s) > 0);
    }
}

/// Plain lexicographic ordering of two character sequences by code
/// point, with a strict prefix ordered first.
pub open spec fn lex_cmp(l: Seq<char>, r: Seq<char>) -> Ordering
    decreases l.len() + r.len(),
{
    if l.len() == 0 && r.len() == 0 {
        Ordering::Equal
    } else if l.len() == 0 {
        Ordering::Less
    } else if r.len() == 0 {
        Ordering::Greater
    } else if l[0] != r[0] {
        if (l[0] as int) < (r[0] as int) {
            Ordering::Less
        } else {
            Ordering::Greater
        }
    } else {
        lex_cmp(l.skip(1), r.skip(1))
    }
}

/// Length of the leading run of `0` characters.
pub open spec fn zeros_len(s: Seq<char>) -> int {
    prefix_len(s, |c: char| c == '0')
}

/// `s` with its leading `0` characters removed.
pub open spec fn stripped(s: Seq<char>) -> Seq<char> {
    s.skip(zeros_len(s))
}

/// Ordering of two digit runs read as unsigned integers: strip leading
/// zeros, order by length, then lexicographically.
pub open spec fn digits_cmp(l: Seq<char>, r: Seq<char>) -> Ordering {
    let ls = stripped(l);
    let rs = stripped(r);
    if ls.len() < rs.len() {
        Ordering::Less
    } else if ls.len() > rs.len() {
        Ordering::Greater
    } else {
        lex_cmp(ls, rs)
    }
}

/// Ordering of two non-digit characters: tilde first, then letters
/// before non-letters, then code point.
pub open spec fn non_digit_char_cmp(l: char, r: char) -> Ordering {
    if l == r {
        Ordering::Equal
    } else if l == '~' {
        Ordering::Less
    } else if r == '~' {
        Ordering::Greater
    } else if is_letter(l) == is_letter(r) {
        if (l as int) < (r as int) {
            Ordering::Less
        } else {
            Ordering::Greater
        }
    } else if is_letter(l) {
        Ordering::Less
    } else {
        Ordering::Greater
    }
}

/// Ordering of two non-digit runs: character by character under
/// `non_digit_char_cmp`; an exhausted run sorts before everything
/// except a tilde on the other side.
pub open spec fn non_digits_cmp(l: Seq<char>, r: Seq<char>) -> Ordering
    decreases l.len() + r.len(),
{
    if l.len() == 0 && r.len() == 0 {
        Ordering::Equal
    } else if l.len() == 0 {
        if r[0] == '~' {
            Ordering::Greater
        } else {
            Ordering::Less
        }
    } else if r.len() == 0 {
        if l[0] == '~' {
            Ordering::Less
        } else {
            Ordering::Greater
        }
    } else {
        let c = non_digit_char_cmp(l[0], r[0]);
        if c == Ordering::Equal {
            non_digits_cmp(l.skip(1), r.skip(1))
        } else {
            c
        }
    }
}

/// Ordering of two upstream-version or revision strings: peel one
/// (non-digit run, digit run) component off each side in lock step and
/// return the first non-equal run comparison.
pub open spec fn simple_cmp(l: Seq<char>, r: Seq<char>) -> Ordering
    decreases l.len() + r.len(),
    via simple_cmp_decreases
{
    let lc = component_of(l);
    let rc = component_of(r);
    let c1 = non_digits_cmp(lc.0, rc.0);
    if c1 != Ordering::Equal {
        c1
    } else {
        let c2 = digits_cmp(lc.1, rc.1);
        if c2 != Ordering::Equal {
            c2
        } else if lc.2.len() == 0 && rc.2.len() == 0 {
            Ordering::Equal
        } else {
            simple_cmp(lc.2, rc.2)
        }
    }
}

#[via_fn]
proof fn simple_cmp_decreases(l: Seq<char>, r: Seq<char>) {
    lemma_component_consumes(l);
    lemma_component_consumes(r);
}

/// Index of the first occurrence of `c` in `s`, if any.
pub open spec fn find_first(s: Seq<char>, c: char) -> Option<int>
    decreases s.len(),
{
    if s.len() == 0 {
        None
    } else if s[0] == c {
        Some(0)
    } else {
        match find_first(s.skip(1), c) {
            Some(i) => Some(i + 1),
            None => None,
        }
    }
}

/// Index of the last occurrence of `c` in `s`, if any.
pub open spec fn find_last(s: Seq<char>, c: char) -> Option<int>
    decreases s.len(),
{
    if s.len() == 0 {
        None
    } else if s.last() == c {
        Some(s.len() - 1)
    } else {
        find_last(s.drop_last(), c)
    }
}

/// `find_first` names the first occurrence: a hit at the index, none
/// before it, and none at all in the `None` case.
pub proof fn lemma_find_first(s: Seq<char>, c: char)
    ensures
        match find_first(s, c) {
            Some(i) => 0 <= i < s.len() && s[i] == c && (forall|j: int|
                0 <= j < i ==> #[trigger] s[j] != c),
            None => forall|j: int| 0 <= j < s.len() ==> #[trigger] s[j] != c,
        },
    decreases s.len(),
{
    if s.len() > 0 && s[0] != c {
        lemma_find_first(s.skip(1), c);
        assert(forall|j: int| 1 <= j < s.len() ==> #[trigger] s[j] == s.skip(1)[j - 1]);
    }
}

/// `find_last` names the last occurrence: a hit at the index, none
/// after it, and none at all in the `None` case.
pub proof fn lemma_find_last(s: Seq<char>, c: char)
    ensures
        match find_last(s, c) {
            Some(i) => 0 <= i < s.len() && s[i] == c && (forall|j: int|
                i < j < s.len() ==> #[trigger] s[j] != c),
            None => forall|j: int| 0 <= j < s.len() ==> #[trigger] s[j] != c,
        },
    decreases s.len(),
{
    if s.len() > 0 && s.last() != c {
        lemma_find_last(s.drop_last(), c);
        assert(forall|j: int| 0 <= j < s.len() - 1 ==> #[trigger] s[j] == s.drop_last()[j]);
    }
}

/// The epoch split is lossless: with a `:` present the two parts and
/// the separator reassemble the input, and without one the input
/// passes through whole.
pub proof fn lemma_epoch_split_lossless(s: Seq<char>)
    ensures
        match find_first(s, ':') {
            Some(_) => s == epoch_split(s).0 + seq![':'] + epoch_split(s).1,
            None => epoch_split(s).0 == Seq::<char>::empty() && epoch_split(s).1 == s,
        },
{
    lemma_find_first(s, ':');
    if let Some(i) = find_first(s, ':') {
        assert(s =~= s.take(i) + seq![':'] + s.skip(i + 1));
    }
}

/// The revision split is lossless: with a `-` present the two parts
/// and the separator reassemble the input, and without one the input
/// passes through whole.
pub proof fn lemma_revision_split_lossless(s: Seq<char>)
    ensures
        match find_last(s, '-') {
            Some(_) => s == revision_split(s).0 + seq!['-'] + revision_split(s).1,
            None => revision_split(s).0 == s && revision_split(s).1 == Seq::<char>::empty(),
        },
{
    lemma_find_last(s, '-');
    if let Some(i) = find_last(s, '-') {
        assert(s =~= s.take(i) + seq!['-'] + s.skip(i + 1));
    }
}

/// Split at the first `:`: (epoch, rest); no `:` means an empty epoch.
pub open spec fn epoch_split(s: Seq<char>) -> (Seq<char>, Seq<char>) {
    match find_first(s, ':') {
        Some(i) => (s.take(i), s.skip(i + 1)),
        None => (Seq::empty(), s),
    }
}

/// Split at the last `-`: (upstream, revision); no `-` means an empty
/// revision.
pub open spec fn revision_split(s: Seq<char>) -> (Seq<char>, Seq<char>) {
    match find_last(s, '-') {
        Some(i) => (s.take(i), s.skip(i + 1)),
        None => (s, Seq::empty()),
    }
}

/// The full Debian ordering of two version strings: epochs compared as
/// digit runs, then upstream versions, then revisions.
pub open spec fn versions_cmp(l: Seq<char>, r: Seq<char>) -> Ordering {
    let le = epoch_split(l);
    let re = epoch_split(r);
    let c1 = digits_cmp(le.0, re.0);
    if c1 != Ordering::Equal {
        c1
    } else {
        let lv = revision_split(le.1);
        let rv = revision_split(re.1);
        let c2 = simple_cmp(lv.0, rv.0);
        if c2 != Ordering::Equal {
            c2
        } else {
            simple_cmp(lv.1, rv.1)
        }
    }
}

/// Every character of `s` is a decimal digit.
pub open spec fn all_digits(s: Seq<char>) -> bool {
    forall|j: int| 0 <= j < s.len() ==> is_digit(#[trigger] s[j])
}

/// Numeric value of one digit character; zero for anything else.
pub open spec fn digit_val(c: char) -> nat {
    if is_digit(c) {
        (c as int - '0' as int) as nat
    } else {
        0
    }
}

/// The unsigned integer that a digit run denotes in decimal; the empty
/// run denotes zero.
pub open spec fn digits_value(s: Seq<char>) -> nat
    decreases s.len(),
{
    if s.len() == 0 {
        0
    } else {
        digits_value(s.drop_last()) * 10 + digit_val(s.last())
    }
}

/// The ordering of two integers as an `Ordering` value.
pub open spec fn num_cmp(l: int, r: int) -> Ordering {
    if l < r {
        Ordering::Less
    } else if l == r {
        Ordering::Equal
    } else {
        Ordering::Greater
    }
}

/// The mirror image of an ordering, as comparison with swapped
/// arguments should return it.
pub open spec fn flip(o: Ordering) -> Ordering {
    match o {
        Ordering::Less => Ordering::Greater,
        Ordering::Equal => Ordering::Equal,
        Ordering::Greater => Ordering::Less,
    }
}

} // verus!
