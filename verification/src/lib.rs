//! Debian-style package version comparison.
//!
//! A total ordering over version strings of the form
//! `[epoch:]upstream-version[-debian-revision]`, following the Debian
//! policy comparison algorithm: the epoch is compared numerically, then
//! the upstream version and the revision are each compared by peeling
//! alternating non-digit / digit runs, with digit runs ordered as
//! unsigned integers and non-digit runs ordered character by character
//! under the tilde-first rule.
use vstd::prelude::*;

pub mod laws;
pub mod model;

verus! {

use core::cmp::Ordering;
use vstd::string::StrSliceExecFns;
use crate::model::all_digits;
use crate::model::component_of;
use crate::model::digits_cmp;
use crate::model::digits_value;
use crate::model::epoch_split;
use crate::model::find_first;
use crate::model::find_last;
use crate::model::is_digit;
use crate::model::is_letter;
use crate::model::lemma_component_consumes;
use crate::model::lemma_digit_run;
use crate::model::lemma_find_first;
use crate::model::lemma_find_last;
use crate::model::lemma_non_digit_run;
use crate::model::lemma_zeros_run;
use crate::model::lex_cmp;
use crate::model::non_digit_char_cmp;
use crate::model::non_digits_cmp;
use crate::model::num_cmp;
use crate::model::revision_split;
use crate::model::simple_cmp;
use crate::model::versions_cmp;
use crate::model::zeros_len;

/// True exactly for the ASCII letters `a`..=`z` and `A`..=`Z`.
pub fn is_ascii_letter(chr: char) -> (b: bool)
    ensures
        b == is_letter(chr),
{
    let u = chr as u32;
    (97 <= u && u <= 122) || (65 <= u && u <= 90)
}

/// True exactly for the decimal digits `0`..=`9`.
fn is_digit_char(c: char) -> (b: bool)
    ensures
        b == is_digit(c),
{
    let u = c as u32;
    48 <= u && u <= 57
}

/// Splits at the first `:`, returning (epoch, rest); a version without
/// a `:` has the empty epoch.
pub fn epoch<'a>(version: &'a str) -> (r: (&'a str, &'a str))
    ensures
        r.0@ == epoch_split(version@).0,
        r.1@ == epoch_split(version@).1,
{
    let len = version.unicode_len();
    let mut i: usize = 0;
    while i < len && version.get_char(i) != ':'
        invariant
            i <= len,
            len == version@.len(),
            forall|j: int| 0 <= j < i ==> #[trigger] version@[j] != ':',
        decreases len - i,
    {
        i = i + 1;
    }
    proof {
        lemma_find_first(version@, ':');
    }
    if i < len {
        proof {
            assert(find_first(version@, ':') == Some(i as int));
        }
        let e = version.substring_char(0, i);
        let rest = version.substring_char(i + 1, len);
        (e, rest)
    } else {
        proof {
            reveal_strlit("");
            assert(""@ =~= Seq::<char>::empty());
        }
        ("", version)
    }
}

/// Splits at the last `-`, returning (upstream, revision); a version
/// without a `-` has the empty revision.
pub fn debian_revision<'a>(version: &'a str) -> (r: (&'a str, &'a str))
    ensures
        r.0@ == revision_split(version@).0,
        r.1@ == revision_split(version@).1,
{
    let len = version.unicode_len();
    let mut i: usize = len;
    while i > 0 && version.get_char(i - 1) != '-'
        invariant
            i <= len,
            len == version@.len(),
            forall|j: int| i <= j < len ==> #[trigger] version@[j] != '-',
        decreases i,
    {
        i = i - 1;
    }
    proof {
        lemma_find_last(version@, '-');
    }
    if i > 0 {
        proof {
            assert(find_last(version@, '-') == Some(i - 1 as int));
        }
        let up = version.substring_char(0, i - 1);
        let rev = version.substring_char(i, len);
        (up, rev)
    } else {
        proof {
            reveal_strlit("");
            assert(""@ =~= Seq::<char>::empty());
        }
        (version, "")
    }
}

/// Peels one component off the front of `version`: the maximal
/// non-digit run, then the maximal digit run, then the remainder.
/// Either run may be empty; concatenating the three parts gives back
/// the input.
pub fn take_component<'a>(version: &'a str) -> (r: ((&'a str, &'a str), &'a str))
    ensures
        r.0.0@ == component_of(version@).0,
        r.0.1@ == component_of(version@).1,
        r.1@ == component_of(version@).2,
        version@ == r.0.0@ + r.0.1@ + r.1@,
{
    let len = version.unicode_len();
    let mut a: usize = 0;
    while a < len && !is_digit_char(version.get_char(a))
        invariant
            a <= len,
            len == version@.len(),
            forall|j: int| 0 <= j < a ==> !is_digit(#[trigger] version@[j]),
        decreases len - a,
    {
        a = a + 1;
    }
    let mut b: usize = a;
    while b < len && is_digit_char(version.get_char(b))
        invariant
            a <= b <= len,
            len == version@.len(),
            forall|j: int| a <= j < b ==> is_digit(#[trigger] version@[j]),
        decreases len - b,
    {
        b = b + 1;
    }
    proof {
        lemma_non_digit_run(version@);
        lemma_digit_run(version@.skip(a as int));
        let s = version@;
        let d = crate::model::digit_run_len(s.skip(a as int));
        assert(forall|j: int|
            0 <= j < s.len() - a ==> #[trigger] s.skip(a as int)[j] == s[a + j]);
        assert(crate::model::non_digit_run_len(s) == a as int);
        if d < b - a {
            assert(s.skip(a as int)[d] == s[a + d]);
            assert(false);
        }
        if d > b - a {
            assert(is_digit(s.skip(a as int)[b - a as int]));
            assert(false);
        }
        assert(crate::model::digit_run_len(s.skip(a as int)) == b - a as int);
    }
    let alpha = version.substring_char(0, a);
    let digits = version.substring_char(a, b);
    let rest = version.substring_char(b, len);
    proof {
        assert(version@ == alpha@ + digits@ + rest@) by {
            assert(version@ =~= alpha@ + digits@ + rest@);
        }
    }
    ((alpha, digits), rest)
}

/// Lexicographic comparison of the tails `left[li..]` and
/// `right[ri..]`, which must have the same length.
fn compare_tail_lex(left: &str, li: usize, right: &str, ri: usize) -> (r: Ordering)
    requires
        li <= left@.len(),
        ri <= right@.len(),
        left@.len() - li == right@.len() - ri,
    ensures
        r == lex_cmp(left@.skip(li as int), right@.skip(ri as int)),
{
    let llen = left.unicode_len();
    let rlen = right.unicode_len();
    let mut k: usize = 0;
    loop
        invariant
            li + k <= llen,
            llen == left@.len(),
            rlen == right@.len(),
            ri + k <= rlen,
            left@.len() - li == right@.len() - ri,
            lex_cmp(left@.skip(li as int), right@.skip(ri as int)) == lex_cmp(
                left@.skip(li + k as int),
                right@.skip(ri + k as int),
            ),
        decreases llen - li - k,
    {
        if li + k == llen {
            proof {
                assert(left@.skip(li + k as int) =~= Seq::<char>::empty());
                assert(right@.skip(ri + k as int) =~= Seq::<char>::empty());
            }
            return Ordering::Equal;
        }
        let cl = left.get_char(li + k);
        let cr = right.get_char(ri + k);
        if cl != cr {
            if (cl as u32) < (cr as u32) {
                return Ordering::Less;
            }
            return Ordering::Greater;
        }
        proof {
            assert(left@.skip(li + k as int).skip(1) =~= left@.skip(li + k + 1 as int));
            assert(right@.skip(ri + k as int).skip(1) =~= right@.skip(ri + k + 1 as int));
        }
        k = k + 1;
    }
}

/// Compares two digit runs as unsigned integers written in decimal:
/// leading zeros are ignored, and the empty run counts as zero.
pub fn compare_digits(left: &str, right: &str) -> (r: Ordering)
    ensures
        r == digits_cmp(left@, right@),
        all_digits(left@) && all_digits(right@) ==> r == num_cmp(
            digits_value(left@) as int,
            digits_value(right@) as int,
        ),
{
    proof {
        if all_digits(left@) && all_digits(right@) {
            crate::laws::lemma_digits_cmp_numeric(left@, right@);
        }
    }
    let llen = left.unicode_len();
    let rlen = right.unicode_len();
    let mut li: usize = 0;
    while li < llen && left.get_char(li) == '0'
        invariant
            li <= llen,
            llen == left@.len(),
            forall|j: int| 0 <= j < li ==> #[trigger] left@[j] == '0',
        decreases llen - li,
    {
        li = li + 1;
    }
    let mut ri: usize = 0;
    while ri < rlen && right.get_char(ri) == '0'
        invariant
            ri <= rlen,
            rlen == right@.len(),
            forall|j: int| 0 <= j < ri ==> #[trigger] right@[j] == '0',
        decreases rlen - ri,
    {
        ri = ri + 1;
    }
    proof {
        lemma_zeros_run(left@);
        lemma_zeros_run(right@);
        assert(zeros_len(left@) == li as int);
        assert(zeros_len(right@) == ri as int);
    }
    if llen - li < rlen - ri {
        Ordering::Less
    } else if llen - li > rlen - ri {
        Ordering::Greater
    } else {
        compare_tail_lex(left, li, right, ri)
    }
}

/// Compares two non-digit characters: equal characters tie, `~` sorts
/// before everything, letters sort before non-letters, and otherwise
/// the code points decide.
pub fn compare_non_digit(left: char, right: char) -> (r: Ordering)
    ensures
        r == non_digit_char_cmp(left, right),
{
    if left == right {
        return Ordering::Equal;
    }
    if left == '~' {
        return Ordering::Less;
    }
    if right == '~' {
        return Ordering::Greater;
    }
    let left_letter = is_ascii_letter(left);
    let right_letter = is_ascii_letter(right);
    if left_letter == right_letter {
        if (left as u32) < (right as u32) {
            return Ordering::Less;
        }
        return Ordering::Greater;
    }
    if left_letter {
        return Ordering::Less;
    }
    Ordering::Greater
}

/// Compares two non-digit runs character by character; when one run is
/// exhausted first, the exhausted side is smaller unless the other
/// side continues with `~`.
pub fn compare_non_digits(left: &str, right: &str) -> (r: Ordering)
    ensures
        r == non_digits_cmp(left@, right@),
{
    let llen = left.unicode_len();
    let rlen = right.unicode_len();
    let mut k: usize = 0;
    proof {
        assert(left@.skip(0) =~= left@);
        assert(right@.skip(0) =~= right@);
    }
    loop
        invariant
            k <= llen,
            k <= rlen,
            llen == left@.len(),
            rlen == right@.len(),
            non_digits_cmp(left@, right@) == non_digits_cmp(
                left@.skip(k as int),
                right@.skip(k as int),
            ),
        decreases llen + rlen - 2 * k,
    {
        if k == llen && k == rlen {
            proof {
                assert(left@.skip(k as int) =~= Seq::<char>::empty());
                assert(right@.skip(k as int) =~= Seq::<char>::empty());
            }
            return Ordering::Equal;
        }
        if k == llen {
            let c = right.get_char(k);
            proof {
                assert(left@.skip(k as int) =~= Seq::<char>::empty());
            }
            if c == '~' {
                return Ordering::Greater;
            }
            return Ordering::Less;
        }
        if k == rlen {
            let c = left.get_char(k);
            proof {
                assert(right@.skip(k as int) =~= Seq::<char>::empty());
            }
            if c == '~' {
                return Ordering::Less;
            }
            return Ordering::Greater;
        }
        let cl = left.get_char(k);
        let cr = right.get_char(k);
        let c = compare_non_digit(cl, cr);
        match c {
            Ordering::Equal => {},
            _ => {
                return c;
            },
        }
        proof {
            assert(left@.skip(k as int).skip(1) =~= left@.skip(k + 1 as int));
            assert(right@.skip(k as int).skip(1) =~= right@.skip(k + 1 as int));
        }
        k = k + 1;
    }
}

/// Compares two upstream-version or revision strings by peeling one
/// (non-digit run, digit run) component off each side in lock step.
pub fn compare_simple_version(left: &str, right: &str) -> (r: Ordering)
    ensures
        r == simple_cmp(left@, right@),
{
    let mut lcur: &str = left;
    let mut rcur: &str = right;
    loop
        invariant
            simple_cmp(left@, right@) == simple_cmp(lcur@, rcur@),
        decreases lcur@.len() + rcur@.len(),
    {
        let ((la, ld), lrem) = take_component(lcur);
        let ((ra, rd), rrem) = take_component(rcur);
        let c1 = compare_non_digits(la, ra);
        match c1 {
            Ordering::Equal => {},
            _ => {
                return c1;
            },
        }
        let c2 = compare_digits(ld, rd);
        match c2 {
            Ordering::Equal => {},
            _ => {
                return c2;
            },
        }
        if lrem.is_empty() && rrem.is_empty() {
            return Ordering::Equal;
        }
        proof {
            lemma_component_consumes(lcur@);
            lemma_component_consumes(rcur@);
        }
        lcur = lrem;
        rcur = rrem;
    }
}

/// Compares two Debian version strings: the epochs numerically, then
/// the upstream versions, then the revisions, the first difference
/// deciding.
///
/// Total over arbitrary finite strings: ill-formed input is not
/// rejected but ordered by the same rules, and every call terminates
/// without panicking.
pub fn compare_versions(left: &str, right: &str) -> (r: Ordering)
    ensures
        r == versions_cmp(left@, right@),
{
    let (left_epoch, left_rest) = epoch(left);
    let (right_epoch, right_rest) = epoch(right);
    let c1 = compare_digits(left_epoch, right_epoch);
    match c1 {
        Ordering::Equal => {},
        _ => {
            return c1;
        },
    }
    let (left_up, left_rev) = debian_revision(left_rest);
    let (right_up, right_rev) = debian_revision(right_rest);
    let c2 = compare_simple_version(left_up, right_up);
    match c2 {
        Ordering::Equal => {},
        _ => {
            return c2;
        },
    }
    compare_simple_version(left_rev, right_rev)
}

} // verus!
