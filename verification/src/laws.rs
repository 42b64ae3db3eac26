//! Laws of the version ordering: reflexivity, antisymmetry,
//! transitivity, and the numeric reading of digit runs (leading zeros
//! do not matter).
use vstd::prelude::*;

verus! {

use core::cmp::Ordering;
use vstd::arithmetic::power::pow;
use vstd::arithmetic::power::lemma_pow_positive;
use vstd::arithmetic::power::lemma_pow_increases;
use crate::model::all_digits;
use crate::model::component_of;
use crate::model::digit_val;
use crate::model::digits_cmp;
use crate::model::digits_value;
use crate::model::epoch_split;
use crate::model::flip;
use crate::model::is_digit;
use crate::model::lemma_component_consumes;
use crate::model::lemma_zeros_run;
use crate::model::lex_cmp;
use crate::model::non_digit_char_cmp;
use crate::model::non_digits_cmp;
use crate::model::num_cmp;
use crate::model::revision_split;
use crate::model::simple_cmp;
use crate::model::stripped;
use crate::model::versions_cmp;
use crate::model::zeros_len;

/// Lexicographic comparison of a sequence with itself is a tie.
pub proof fn lemma_lex_cmp_reflexive(s: Seq<char>)
    ensures
        lex_cmp(s, s) == Ordering::Equal,
    decreases s.len(),
{
    if s.len() > 0 {
        lemma_lex_cmp_reflexive(s.skip(1));
    }
}

/// A digit run compares equal to itself.
pub proof fn lemma_digits_cmp_reflexive(s: Seq<char>)
    ensures
        digits_cmp(s, s) == Ordering::Equal,
{
    lemma_lex_cmp_reflexive(stripped(s));
}

/// A non-digit run compares equal to itself.
pub proof fn lemma_non_digits_cmp_reflexive(s: Seq<char>)
    ensures
        non_digits_cmp(s, s) == Ordering::Equal,
    decreases s.len(),
{
    if s.len() > 0 {
        lemma_non_digits_cmp_reflexive(s.skip(1));
    }
}

/// A simple version compares equal to itself.
pub proof fn lemma_simple_cmp_reflexive(s: Seq<char>)
    ensures
        simple_cmp(s, s) == Ordering::Equal,
    decreases s.len(),
{
    let c = component_of(s);
    lemma_component_consumes(s);
    lemma_non_digits_cmp_reflexive(c.0);
    lemma_digits_cmp_reflexive(c.1);
    if c.2.len() != 0 {
        lemma_simple_cmp_reflexive(c.2);
    }
}

/// Reflexivity: comparing any version string with itself gives
/// `Equal`.
pub proof fn lemma_compare_versions_reflexive(s: Seq<char>)
    ensures
        versions_cmp(s, s) == Ordering::Equal,
{
    let e = epoch_split(s);
    lemma_digits_cmp_reflexive(e.0);
    let v = revision_split(e.1);
    lemma_simple_cmp_reflexive(v.0);
    lemma_simple_cmp_reflexive(v.1);
}

/// The value of a concatenation: the left part shifted by the length
/// of the right part, plus the right part.
proof fn lemma_digits_value_concat(a: Seq<char>, b: Seq<char>)
    ensures
        digits_value(a + b) == digits_value(a) * pow(10, b.len() as nat) + digits_value(b),
    decreases b.len(),
{
    reveal(pow);
    if b.len() == 0 {
        assert(a + b =~= a);
    } else {
        lemma_digits_value_concat(a, b.drop_last());
        assert((a + b).drop_last() =~= a + b.drop_last());
        assert((a + b).last() == b.last());
        let va = digits_value(a) as int;
        let p1 = pow(10, (b.len() - 1) as nat);
        let w = digits_value(b.drop_last()) as int;
        let d = digit_val(b.last()) as int;
        assert(pow(10, b.len() as nat) == 10 * p1);
        assert(digits_value(a + b) == digits_value(a + b.drop_last()) * 10 + d);
        assert(digits_value(a + b.drop_last()) == va * p1 + w);
        assert(digits_value(b) == w * 10 + d);
        assert((va * p1 + w) * 10 + d == va * (10 * p1) + (w * 10 + d)) by (nonlinear_arith);
    }
}

/// A run of `0` characters denotes zero.
proof fn lemma_zeros_value(s: Seq<char>)
    requires
        forall|j: int| 0 <= j < s.len() ==> #[trigger] s[j] == '0',
    ensures
        digits_value(s) == 0,
    decreases s.len(),
{
    if s.len() > 0 {
        lemma_zeros_value(s.drop_last());
        assert(s.last() == s[s.len() - 1]);
        assert(digit_val('0') == 0);
    }
}

/// Stripping leading zeros does not change the denoted value.
pub proof fn lemma_stripped_value(s: Seq<char>)
    ensures
        digits_value(stripped(s)) == digits_value(s),
{
    lemma_zeros_run(s);
    let z = zeros_len(s);
    assert(s =~= s.take(z) + s.skip(z));
    lemma_zeros_value(s.take(z));
    lemma_digits_value_concat(s.take(z), s.skip(z));
}

/// The value of a run is below ten to its length.
proof fn lemma_digits_value_upper(s: Seq<char>)
    ensures
        digits_value(s) < pow(10, s.len() as nat),
    decreases s.len(),
{
    reveal(pow);
    if s.len() == 0 {
    } else {
        lemma_digits_value_upper(s.drop_last());
        let p1 = pow(10, (s.len() - 1) as nat);
        let w = digits_value(s.drop_last()) as int;
        let d = digit_val(s.last()) as int;
        assert(d <= 9);
        assert(pow(10, s.len() as nat) == 10 * p1);
        assert(w <= p1 - 1 && d <= 9 ==> w * 10 + d < 10 * p1) by (nonlinear_arith);
    }
}

/// A digit run with no leading zero denotes at least ten to one less
/// than its length.
proof fn lemma_digits_value_lower(s: Seq<char>)
    requires
        all_digits(s),
        s.len() > 0,
        s[0] != '0',
    ensures
        digits_value(s) >= pow(10, (s.len() - 1) as nat),
    decreases s.len(),
{
    reveal(pow);
    if s.len() == 1 {
        assert(s.drop_last() =~= Seq::<char>::empty());
        assert(s.last() == s[0]);
        assert(is_digit(s[0]));
        assert(digit_val(s[0]) >= 1);
    } else {
        let dl = s.drop_last();
        assert(forall|j: int| 0 <= j < dl.len() ==> #[trigger] dl[j] == s[j]);
        lemma_digits_value_lower(dl);
        let q = pow(10, (s.len() - 2) as nat);
        let w = digits_value(dl) as int;
        assert(pow(10, (s.len() - 1) as nat) == 10 * q);
        assert(w >= q ==> w * 10 + digit_val(s.last()) >= 10 * q) by (nonlinear_arith);
    }
}

/// On equal-length digit runs, lexicographic comparison is numeric
/// comparison.
proof fn lemma_lex_cmp_numeric(l: Seq<char>, r: Seq<char>)
    requires
        all_digits(l),
        all_digits(r),
        l.len() == r.len(),
    ensures
        lex_cmp(l, r) == num_cmp(digits_value(l) as int, digits_value(r) as int),
    decreases l.len(),
{
    if l.len() == 0 {
    } else {
        let p = pow(10, (l.len() - 1) as nat);
        lemma_pow_positive(10, (l.len() - 1) as nat);
        assert(l =~= l.take(1) + l.skip(1));
        assert(r =~= r.take(1) + r.skip(1));
        lemma_digits_value_concat(l.take(1), l.skip(1));
        lemma_digits_value_concat(r.take(1), r.skip(1));
        assert(l.take(1).drop_last() =~= Seq::<char>::empty());
        assert(r.take(1).drop_last() =~= Seq::<char>::empty());
        assert(l.take(1).last() == l[0]);
        assert(r.take(1).last() == r[0]);
        assert(digits_value(Seq::<char>::empty()) == 0);
        assert(digits_value(l.take(1)) == digit_val(l[0]));
        assert(digits_value(r.take(1)) == digit_val(r[0]));
        let dl = digit_val(l[0]) as int;
        let dr = digit_val(r[0]) as int;
        let vl = digits_value(l.skip(1)) as int;
        let vr = digits_value(r.skip(1)) as int;
        assert(digits_value(l) == dl * p + vl);
        assert(digits_value(r) == dr * p + vr);
        assert(forall|j: int| 0 <= j < l.len() - 1 ==> #[trigger] l.skip(1)[j] == l[j + 1]);
        assert(forall|j: int| 0 <= j < r.len() - 1 ==> #[trigger] r.skip(1)[j] == r[j + 1]);
        lemma_digits_value_upper(l.skip(1));
        lemma_digits_value_upper(r.skip(1));
        if l[0] == r[0] {
            lemma_lex_cmp_numeric(l.skip(1), r.skip(1));
            assert(num_cmp(dl * p + vl, dl * p + vr) == num_cmp(vl, vr));
        } else if (l[0] as int) < (r[0] as int) {
            assert(is_digit(l[0]) && is_digit(r[0]));
            assert(dl + 1 <= dr);
            assert(vl < p && vr >= 0 && dl + 1 <= dr ==> dl * p + vl < dr * p + vr)
                by (nonlinear_arith)
                requires
                    p > 0,
            ;
            assert(digits_value(l) < digits_value(r));
        } else {
            assert(is_digit(l[0]) && is_digit(r[0]));
            assert(dr + 1 <= dl);
            assert(vr < p && vl >= 0 && dr + 1 <= dl ==> dr * p + vr < dl * p + vl)
                by (nonlinear_arith)
                requires
                    p > 0,
            ;
            assert(digits_value(r) < digits_value(l));
        }
    }
}

/// Numeric reading of the digit-run comparison: on runs made of
/// digits, `digits_cmp` orders exactly by the unsigned integers the
/// runs denote, so leading zeros never matter.
pub proof fn lemma_digits_cmp_numeric(l: Seq<char>, r: Seq<char>)
    requires
        all_digits(l),
        all_digits(r),
    ensures
        digits_cmp(l, r) == num_cmp(digits_value(l) as int, digits_value(r) as int),
{
    lemma_stripped_value(l);
    lemma_stripped_value(r);
    lemma_zeros_run(l);
    lemma_zeros_run(r);
    let ls = stripped(l);
    let rs = stripped(r);
    assert(forall|j: int| 0 <= j < ls.len() ==> #[trigger] ls[j] == l[j + zeros_len(l)]);
    assert(forall|j: int| 0 <= j < rs.len() ==> #[trigger] rs[j] == r[j + zeros_len(r)]);
    assert(all_digits(ls));
    assert(all_digits(rs));
    if ls.len() < rs.len() {
        assert(rs[0] != '0');
        lemma_digits_value_lower(rs);
        lemma_digits_value_upper(ls);
        lemma_pow_increases(10, ls.len() as nat, (rs.len() - 1) as nat);
        assert(digits_value(l) < digits_value(r));
    } else if ls.len() > rs.len() {
        assert(ls[0] != '0');
        lemma_digits_value_lower(ls);
        lemma_digits_value_upper(rs);
        lemma_pow_increases(10, rs.len() as nat, (ls.len() - 1) as nat);
        assert(digits_value(r) < digits_value(l));
    } else {
        lemma_lex_cmp_numeric(ls, rs);
    }
}

/// Swapping the arguments of the lexicographic comparison mirrors the
/// result.
pub proof fn lemma_lex_cmp_antisymmetric(l: Seq<char>, r: Seq<char>)
    ensures
        lex_cmp(r, l) == flip(lex_cmp(l, r)),
    decreases l.len() + r.len(),
{
    if l.len() > 0 && r.len() > 0 && l[0] == r[0] {
        lemma_lex_cmp_antisymmetric(l.skip(1), r.skip(1));
    }
}

/// Swapping the arguments of the character ordering mirrors the
/// result.
pub proof fn lemma_non_digit_char_cmp_antisymmetric(l: char, r: char)
    ensures
        non_digit_char_cmp(r, l) == flip(non_digit_char_cmp(l, r)),
{
}

/// Swapping the arguments of the non-digit-run comparison mirrors the
/// result.
pub proof fn lemma_non_digits_cmp_antisymmetric(l: Seq<char>, r: Seq<char>)
    ensures
        non_digits_cmp(r, l) == flip(non_digits_cmp(l, r)),
    decreases l.len() + r.len(),
{
    if l.len() > 0 && r.len() > 0 {
        lemma_non_digit_char_cmp_antisymmetric(l[0], r[0]);
        if non_digit_char_cmp(l[0], r[0]) == Ordering::Equal {
            lemma_non_digits_cmp_antisymmetric(l.skip(1), r.skip(1));
        }
    }
}

/// Swapping the arguments of the digit-run comparison mirrors the
/// result.
pub proof fn lemma_digits_cmp_antisymmetric(l: Seq<char>, r: Seq<char>)
    ensures
        digits_cmp(r, l) == flip(digits_cmp(l, r)),
{
    lemma_lex_cmp_antisymmetric(stripped(l), stripped(r));
}

/// Swapping the arguments of the simple-version comparison mirrors the
/// result.
pub proof fn lemma_simple_cmp_antisymmetric(l: Seq<char>, r: Seq<char>)
    ensures
        simple_cmp(r, l) == flip(simple_cmp(l, r)),
    decreases l.len() + r.len(),
{
    let lc = component_of(l);
    let rc = component_of(r);
    lemma_component_consumes(l);
    lemma_component_consumes(r);
    lemma_non_digits_cmp_antisymmetric(lc.0, rc.0);
    if non_digits_cmp(lc.0, rc.0) == Ordering::Equal {
        lemma_digits_cmp_antisymmetric(lc.1, rc.1);
        if digits_cmp(lc.1, rc.1) == Ordering::Equal {
            if !(lc.2.len() == 0 && rc.2.len() == 0) {
                lemma_simple_cmp_antisymmetric(lc.2, rc.2);
            }
        }
    }
}

/// The lexicographic comparison ties exactly on identical sequences.
proof fn lemma_lex_cmp_equal_iff(l: Seq<char>, r: Seq<char>)
    ensures
        lex_cmp(l, r) == Ordering::Equal <==> l == r,
    decreases l.len() + r.len(),
{
    if l.len() > 0 && r.len() > 0 && l[0] == r[0] {
        lemma_lex_cmp_equal_iff(l.skip(1), r.skip(1));
        if lex_cmp(l, r) == Ordering::Equal {
            assert forall|i: int| 0 <= i < l.len() implies l[i] == r[i] by {
                if i > 0 {
                    assert(l[i] == l.skip(1)[i - 1]);
                    assert(r[i] == r.skip(1)[i - 1]);
                }
            }
            assert(l =~= r);
        }
    } else if lex_cmp(l, r) == Ordering::Equal {
        assert(l =~= r);
    }
}

/// The lexicographic comparison is transitive.
proof fn lemma_lex_cmp_transitive(a: Seq<char>, b: Seq<char>, c: Seq<char>)
    requires
        lex_cmp(a, b) == Ordering::Less,
        lex_cmp(b, c) == Ordering::Less,
    ensures
        lex_cmp(a, c) == Ordering::Less,
    decreases a.len() + b.len() + c.len(),
{
    if a.len() > 0 && b.len() > 0 && c.len() > 0 && a[0] == b[0] && b[0] == c[0] {
        lemma_lex_cmp_transitive(a.skip(1), b.skip(1), c.skip(1));
    }
}

/// The digit-run comparison is transitive, and ties behave like
/// equality: a tie on either side carries the other comparison over.
proof fn lemma_digits_cmp_transitive(a: Seq<char>, b: Seq<char>, c: Seq<char>)
    ensures
        digits_cmp(a, b) == Ordering::Equal && digits_cmp(b, c) == Ordering::Equal
            ==> digits_cmp(a, c) == Ordering::Equal,
        digits_cmp(a, b) == Ordering::Equal ==> digits_cmp(a, c) == digits_cmp(b, c),
        digits_cmp(b, c) == Ordering::Equal ==> digits_cmp(a, c) == digits_cmp(a, b),
        digits_cmp(a, b) == Ordering::Less && digits_cmp(b, c) == Ordering::Less
            ==> digits_cmp(a, c) == Ordering::Less,
{
    let sa = stripped(a);
    let sb = stripped(b);
    let sc = stripped(c);
    lemma_lex_cmp_equal_iff(sa, sb);
    lemma_lex_cmp_equal_iff(sb, sc);
    if digits_cmp(a, b) == Ordering::Less && digits_cmp(b, c) == Ordering::Less && sa.len()
        == sb.len() && sb.len() == sc.len() {
        lemma_lex_cmp_transitive(sa, sb, sc);
    }
}

/// The non-digit character ordering is transitive.
proof fn lemma_non_digit_char_cmp_transitive(x: char, y: char, z: char)
    requires
        non_digit_char_cmp(x, y) == Ordering::Less,
        non_digit_char_cmp(y, z) == Ordering::Less,
    ensures
        non_digit_char_cmp(x, z) == Ordering::Less,
{
}

/// The non-digit-run comparison ties exactly on identical runs.
proof fn lemma_non_digits_cmp_equal_iff(l: Seq<char>, r: Seq<char>)
    ensures
        non_digits_cmp(l, r) == Ordering::Equal <==> l == r,
    decreases l.len() + r.len(),
{
    if l.len() > 0 && r.len() > 0 && non_digit_char_cmp(l[0], r[0]) == Ordering::Equal {
        lemma_non_digits_cmp_equal_iff(l.skip(1), r.skip(1));
        if non_digits_cmp(l, r) == Ordering::Equal {
            assert(l[0] == r[0]);
            assert forall|i: int| 0 <= i < l.len() implies l[i] == r[i] by {
                if i > 0 {
                    assert(l[i] == l.skip(1)[i - 1]);
                    assert(r[i] == r.skip(1)[i - 1]);
                }
            }
            assert(l =~= r);
        }
    } else if non_digits_cmp(l, r) == Ordering::Equal {
        assert(l =~= r);
    }
}

/// The non-digit-run comparison is transitive.
proof fn lemma_non_digits_cmp_transitive(a: Seq<char>, b: Seq<char>, c: Seq<char>)
    requires
        non_digits_cmp(a, b) == Ordering::Less,
        non_digits_cmp(b, c) == Ordering::Less,
    ensures
        non_digits_cmp(a, c) == Ordering::Less,
    decreases a.len() + b.len() + c.len(),
{
    if a.len() > 0 && b.len() > 0 && c.len() > 0 {
        let hab = non_digit_char_cmp(a[0], b[0]);
        let hbc = non_digit_char_cmp(b[0], c[0]);
        if hab == Ordering::Equal && hbc == Ordering::Equal {
            lemma_non_digits_cmp_transitive(a.skip(1), b.skip(1), c.skip(1));
        } else if hab == Ordering::Less && hbc == Ordering::Less {
            lemma_non_digit_char_cmp_transitive(a[0], b[0], c[0]);
        }
    }
}

/// The simple-version comparison is transitive, and ties carry the
/// other comparison over.
proof fn lemma_simple_cmp_transitive(a: Seq<char>, b: Seq<char>, c: Seq<char>)
    ensures
        simple_cmp(a, b) == Ordering::Equal && simple_cmp(b, c) == Ordering::Equal
            ==> simple_cmp(a, c) == Ordering::Equal,
        simple_cmp(a, b) == Ordering::Equal && simple_cmp(b, c) == Ordering::Less
            ==> simple_cmp(a, c) == Ordering::Less,
        simple_cmp(a, b) == Ordering::Less && simple_cmp(b, c) == Ordering::Equal
            ==> simple_cmp(a, c) == Ordering::Less,
        simple_cmp(a, b) == Ordering::Less && simple_cmp(b, c) == Ordering::Less
            ==> simple_cmp(a, c) == Ordering::Less,
    decreases a.len() + b.len() + c.len(),
{
    let ca = component_of(a);
    let cb = component_of(b);
    let cc = component_of(c);
    lemma_component_consumes(a);
    lemma_component_consumes(b);
    lemma_component_consumes(c);
    lemma_non_digits_cmp_equal_iff(ca.0, cb.0);
    lemma_non_digits_cmp_equal_iff(cb.0, cc.0);
    lemma_non_digits_cmp_equal_iff(ca.0, cc.0);
    if non_digits_cmp(ca.0, cb.0) == Ordering::Less && non_digits_cmp(cb.0, cc.0)
        == Ordering::Less {
        lemma_non_digits_cmp_transitive(ca.0, cb.0, cc.0);
    }
    lemma_digits_cmp_transitive(ca.1, cb.1, cc.1);
    if ca.2.len() == 0 && cb.2.len() == 0 {
        assert(ca.2 =~= cb.2);
    }
    if cb.2.len() == 0 && cc.2.len() == 0 {
        assert(cb.2 =~= cc.2);
    }
    if ca.2.len() == 0 && cc.2.len() == 0 {
        assert(ca.2 =~= cc.2);
    }
    if !(ca.2.len() == 0 && cb.2.len() == 0 && cc.2.len() == 0) {
        lemma_simple_cmp_transitive(ca.2, cb.2, cc.2);
        lemma_simple_cmp_antisymmetric(ca.2, cb.2);
        lemma_simple_cmp_antisymmetric(cb.2, cc.2);
        lemma_simple_cmp_antisymmetric(ca.2, cc.2);
        lemma_simple_cmp_reflexive(ca.2);
        lemma_simple_cmp_reflexive(cb.2);
        lemma_simple_cmp_reflexive(cc.2);
    }
}

/// Transitivity: a chain of `Less` (or of `Greater`) results
/// composes, and an `Equal` result lets the other comparison carry
/// over.
pub proof fn lemma_compare_versions_transitive(a: Seq<char>, b: Seq<char>, c: Seq<char>)
    ensures
        versions_cmp(a, b) == Ordering::Equal && versions_cmp(b, c) == Ordering::Equal
            ==> versions_cmp(a, c) == Ordering::Equal,
        versions_cmp(a, b) == Ordering::Less && versions_cmp(b, c) == Ordering::Less
            ==> versions_cmp(a, c) == Ordering::Less,
        versions_cmp(a, b) == Ordering::Greater && versions_cmp(b, c) == Ordering::Greater
            ==> versions_cmp(a, c) == Ordering::Greater,
        versions_cmp(a, b) == Ordering::Equal ==> versions_cmp(a, c) == versions_cmp(b, c),
        versions_cmp(b, c) == Ordering::Equal ==> versions_cmp(a, c) == versions_cmp(a, b),
{
    lemma_versions_cmp_less_transitive(a, b, c);
    lemma_versions_cmp_less_transitive(c, b, a);
    lemma_compare_versions_antisymmetric(a, b);
    lemma_compare_versions_antisymmetric(b, c);
    lemma_compare_versions_antisymmetric(a, c);
}

/// The `Equal` and `Less` halves of transitivity for the full
/// comparison.
proof fn lemma_versions_cmp_less_transitive(a: Seq<char>, b: Seq<char>, c: Seq<char>)
    ensures
        versions_cmp(a, b) == Ordering::Equal && versions_cmp(b, c) == Ordering::Equal
            ==> versions_cmp(a, c) == Ordering::Equal,
        versions_cmp(a, b) == Ordering::Equal && versions_cmp(b, c) == Ordering::Less
            ==> versions_cmp(a, c) == Ordering::Less,
        versions_cmp(a, b) == Ordering::Less && versions_cmp(b, c) == Ordering::Equal
            ==> versions_cmp(a, c) == Ordering::Less,
        versions_cmp(a, b) == Ordering::Less && versions_cmp(b, c) == Ordering::Less
            ==> versions_cmp(a, c) == Ordering::Less,
{
    let ea = epoch_split(a);
    let eb = epoch_split(b);
    let ec = epoch_split(c);
    lemma_digits_cmp_transitive(ea.0, eb.0, ec.0);
    let va = revision_split(ea.1);
    let vb = revision_split(eb.1);
    let vc = revision_split(ec.1);
    lemma_simple_cmp_transitive(va.0, vb.0, vc.0);
    lemma_simple_cmp_transitive(va.1, vb.1, vc.1);
}

/// Antisymmetry: comparing `r` with `l` gives the mirror image of
/// comparing `l` with `r` (`Less` and `Greater` swap, `Equal` stays).
pub proof fn lemma_compare_versions_antisymmetric(l: Seq<char>, r: Seq<char>)
    ensures
        versions_cmp(r, l) == flip(versions_cmp(l, r)),
{
    let le = epoch_split(l);
    let re = epoch_split(r);
    lemma_digits_cmp_antisymmetric(le.0, re.0);
    if digits_cmp(le.0, re.0) == Ordering::Equal {
        let lv = revision_split(le.1);
        let rv = revision_split(re.1);
        lemma_simple_cmp_antisymmetric(lv.0, rv.0);
        if simple_cmp(lv.0, rv.0) == Ordering::Equal {
            lemma_simple_cmp_antisymmetric(lv.1, rv.1);
        }
    }
}

} // verus!
