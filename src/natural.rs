//! Natural ordering of interface names: runs of decimal digits compare as
//! the unsigned integers they write, all other characters by code point.

use vstd::prelude::*;
use core::cmp::Ordering;
use crate::text::{all_digits, chars_of, digits_value};

verus! {

/// An ASCII decimal digit.
pub open spec fn is_digit(c: char) -> bool {
    '0' <= c && c <= '9'
}

/// The length of the run of digits that `s` starts with.
pub open spec fn digit_run(s: Seq<char>) -> nat
    decreases s.len(),
{
    if s.len() > 0 && is_digit(s[0]) {
        1 + digit_run(s.drop_first())
    } else {
        0
    }
}

/// `s` without its leading zeros.
pub open spec fn strip_zeros(s: Seq<char>) -> Seq<char>
    decreases s.len(),
{
    if s.len() > 0 && s[0] == '0' {
        strip_zeros(s.drop_first())
    } else {
        s
    }
}

/// Two sequences of equal length compared character by character.
pub open spec fn lex_cmp(x: Seq<char>, y: Seq<char>) -> Ordering
    decreases x.len(),
{
    if x.len() == 0 || y.len() == 0 {
        Ordering::Equal
    } else if (x[0] as u32) < (y[0] as u32) {
        Ordering::Less
    } else if (x[0] as u32) > (y[0] as u32) {
        Ordering::Greater
    } else {
        lex_cmp(x.drop_first(), y.drop_first())
    }
}

/// Two runs of decimal digits compared as the unsigned integers they write:
/// without leading zeros, the shorter is the smaller, and of equal length the
/// first differing digit decides.
pub open spec fn numeric_cmp(x: Seq<char>, y: Seq<char>) -> Ordering {
    let p = strip_zeros(x);
    let q = strip_zeros(y);
    if p.len() < q.len() {
        Ordering::Less
    } else if p.len() > q.len() {
        Ordering::Greater
    } else {
        lex_cmp(p, q)
    }
}

/// The natural order of `a` and `b`.
pub open spec fn natural_cmp(a: Seq<char>, b: Seq<char>) -> Ordering
    decreases a.len() + b.len(),
    via natural_cmp_decreases
{
    if a.len() == 0 && b.len() == 0 {
        Ordering::Equal
    } else if a.len() == 0 {
        Ordering::Less
    } else if b.len() == 0 {
        Ordering::Greater
    } else if is_digit(a[0]) && is_digit(b[0]) {
        let ka = digit_run(a) as int;
        let kb = digit_run(b) as int;
        match numeric_cmp(a.subrange(0, ka), b.subrange(0, kb)) {
            Ordering::Equal => natural_cmp(a.subrange(ka, a.len() as int), b.subrange(kb, b.len() as int)),
            o => o,
        }
    } else if a[0] < b[0] {
        Ordering::Less
    } else if a[0] > b[0] {
        Ordering::Greater
    } else {
        natural_cmp(a.drop_first(), b.drop_first())
    }
}

pub proof fn lemma_digit_run_bounds(s: Seq<char>)
    ensures
        digit_run(s) <= s.len(),
        s.len() > 0 && is_digit(s[0]) ==> digit_run(s) >= 1,
    decreases s.len(),
{
    if s.len() > 0 && is_digit(s[0]) {
        lemma_digit_run_bounds(s.drop_first());
    }
}

#[via_fn]
proof fn natural_cmp_decreases(a: Seq<char>, b: Seq<char>) {
    lemma_digit_run_bounds(a);
    lemma_digit_run_bounds(b);
}

/// The length of the digit run that `s` starts with.
fn digit_run_len(s: &[char]) -> (k: usize)
    ensures
        k == digit_run(s@),
        k <= s@.len(),
{
    let mut i: usize = 0;
    assert(s@.subrange(0, s@.len() as int) =~= s@);
    while i < s.len() && '0' <= s[i] && s[i] <= '9'
        invariant
            i <= s@.len(),
            digit_run(s@) == i + digit_run(s@.subrange(i as int, s@.len() as int)),
        decreases s@.len() - i,
    {
        let ghost rest = s@.subrange(i as int, s@.len() as int);
        assert(rest.drop_first() =~= s@.subrange(i as int + 1, s@.len() as int));
        i += 1;
    }
    i
}

/// The index of the first non-zero character of `s`, or its length.
fn zeros_len(s: &[char]) -> (k: usize)
    ensures
        k <= s@.len(),
        strip_zeros(s@) == s@.subrange(k as int, s@.len() as int),
{
    let mut i: usize = 0;
    assert(s@.subrange(0, s@.len() as int) =~= s@);
    while i < s.len() && s[i] == '0'
        invariant
            i <= s@.len(),
            strip_zeros(s@) == strip_zeros(s@.subrange(i as int, s@.len() as int)),
        decreases s@.len() - i,
    {
        let ghost rest = s@.subrange(i as int, s@.len() as int);
        assert(rest.drop_first() =~= s@.subrange(i as int + 1, s@.len() as int));
        i += 1;
    }
    i
}

/// [`lex_cmp`] of two slices.
fn lex_compare(x: &[char], y: &[char]) -> (r: Ordering)
    ensures
        r == lex_cmp(x@, y@),
{
    let mut i: usize = 0;
    assert(x@.subrange(0, x@.len() as int) =~= x@);
    assert(y@.subrange(0, y@.len() as int) =~= y@);
    while i < x.len() && i < y.len()
        invariant
            i <= x@.len(),
            i <= y@.len(),
            lex_cmp(x@, y@) == lex_cmp(
                x@.subrange(i as int, x@.len() as int),
                y@.subrange(i as int, y@.len() as int),
            ),
        decreases x@.len() - i,
    {
        let ghost xs = x@.subrange(i as int, x@.len() as int);
        let ghost ys = y@.subrange(i as int, y@.len() as int);
        assert(xs[0] == x@[i as int] && ys[0] == y@[i as int]);
        if (x[i] as u32) < (y[i] as u32) {
            return Ordering::Less;
        }
        if (x[i] as u32) > (y[i] as u32) {
            return Ordering::Greater;
        }
        assert(xs.drop_first() =~= x@.subrange(i as int + 1, x@.len() as int));
        assert(ys.drop_first() =~= y@.subrange(i as int + 1, y@.len() as int));
        i += 1;
    }
    Ordering::Equal
}

/// [`numeric_cmp`] of two digit runs.
fn numeric_compare(x: &[char], y: &[char]) -> (r: Ordering)
    ensures
        r == numeric_cmp(x@, y@),
{
    let zx = zeros_len(x);
    let zy = zeros_len(y);
    let lx = x.len() - zx;
    let ly = y.len() - zy;
    if lx < ly {
        Ordering::Less
    } else if lx > ly {
        Ordering::Greater
    } else {
        lex_compare(&x[zx..x.len()], &y[zy..y.len()])
    }
}

/// Compares two names in natural order: maximal runs of ASCII digits compare
/// as unsigned integers (leading zeros ignored), other characters by code
/// point, and a strict prefix sorts first.
pub fn natural(a: &str, b: &str) -> (r: Ordering)
    ensures
        r == natural_cmp(a@, b@),
{
    let xa = chars_of(a);
    let xb = chars_of(b);
    natural_chars(xa.as_slice(), xb.as_slice())
}

/// [`natural`] on character slices.
pub fn natural_chars(a0: &[char], b0: &[char]) -> (r: Ordering)
    ensures
        r == natural_cmp(a0@, b0@),
{
    let mut a = a0;
    let mut b = b0;
    loop
        invariant
            natural_cmp(a0@, b0@) == natural_cmp(a@, b@),
        decreases a@.len() + b@.len(),
    {
        if a.len() == 0 && b.len() == 0 {
            return Ordering::Equal;
        }
        if a.len() == 0 {
            return Ordering::Less;
        }
        if b.len() == 0 {
            return Ordering::Greater;
        }
        if '0' <= a[0] && a[0] <= '9' && '0' <= b[0] && b[0] <= '9' {
            let ka = digit_run_len(a);
            let kb = digit_run_len(b);
            proof {
                lemma_digit_run_bounds(a@);
                lemma_digit_run_bounds(b@);
            }
            match numeric_compare(&a[0..ka], &b[0..kb]) {
                Ordering::Equal => {
                    a = &a[ka..a.len()];
                    b = &b[kb..b.len()];
                },
                o => {
                    return o;
                },
            }
        } else if a[0] < b[0] {
            return Ordering::Less;
        } else if a[0] > b[0] {
            return Ordering::Greater;
        } else {
            a = &a[1..a.len()];
            b = &b[1..b.len()];
        }
    }
}

/// Ten to the power `n`.
pub open spec fn pow10(n: nat) -> nat
    decreases n,
{
    if n == 0 {
        1
    } else {
        10 * pow10((n - 1) as nat)
    }
}

/// The order of two natural numbers.
pub open spec fn cmp_nat(a: nat, b: nat) -> Ordering {
    if a < b {
        Ordering::Less
    } else if a > b {
        Ordering::Greater
    } else {
        Ordering::Equal
    }
}

proof fn lemma_pow10_positive(n: nat)
    ensures
        pow10(n) >= 1,
    decreases n,
{
    if n > 0 {
        lemma_pow10_positive((n - 1) as nat);
    }
}

proof fn lemma_pow10_monotone(a: nat, b: nat)
    requires
        a <= b,
    ensures
        pow10(a) <= pow10(b),
    decreases b,
{
    if a < b {
        lemma_pow10_monotone(a, (b - 1) as nat);
        lemma_pow10_positive((b - 1) as nat);
    }
}

/// The value of a concatenation of digit runs.
proof fn lemma_value_concat(x: Seq<char>, y: Seq<char>)
    ensures
        digits_value(x + y) == digits_value(x) * pow10(y.len()) + digits_value(y),
    decreases y.len(),
{
    if y.len() == 0 {
        assert(x + y =~= x);
        assert(pow10(0) == 1);
        assert(digits_value(y) == 0);
    } else {
        let y0 = y.drop_last();
        lemma_value_concat(x, y0);
        assert((x + y).drop_last() =~= x + y0);
        assert((x + y).last() == y.last());
        let a = digits_value(x);
        let p = pow10(y0.len());
        let b = digits_value(y0);
        let d = (y.last() as u32 - 48) as nat;
        assert(pow10(y.len()) == 10 * pow10(y0.len()));
        assert(digits_value(x + y) == digits_value(x + y0) * 10 + d);
        assert(digits_value(y) == b * 10 + d);
        assert((a * p + b) * 10 + d == a * (10 * p) + (b * 10 + d)) by (nonlinear_arith);
    }
}

/// A run of `n` digits is less than ten to the `n`.
proof fn lemma_value_bound(s: Seq<char>)
    requires
        all_digits(s),
    ensures
        digits_value(s) < pow10(s.len()),
    decreases s.len(),
{
    if s.len() > 0 {
        let p = s.drop_last();
        assert(all_digits(p)) by {
            assert forall|i: int| 0 <= i < p.len() implies '0' <= #[trigger] p[i] && p[i] <= '9' by {
                assert(p[i] == s[i]);
            }
        }
        lemma_value_bound(p);
        assert('0' <= s[s.len() - 1] && s[s.len() - 1] <= '9');
        let d = (s.last() as u32 - 48) as nat;
        assert(d <= 9);
        let v = digits_value(p);
        let q = pow10(p.len());
        assert(v * 10 + d < 10 * q) by (nonlinear_arith)
            requires
                v < q,
                d <= 9,
        ;
    }
}

/// Leading zeros add nothing to the value.
proof fn lemma_value_zeros(s: Seq<char>)
    ensures
        digits_value(s) == digits_value(strip_zeros(s)),
    decreases s.len(),
{
    if s.len() > 0 && s[0] == '0' {
        lemma_value_zeros(s.drop_first());
        assert(strip_zeros(s) == strip_zeros(s.drop_first()));
        lemma_value_concat(seq!['0'], s.drop_first());
        assert(seq!['0'] + s.drop_first() =~= s);
        assert(seq!['0'].drop_last() =~= Seq::<char>::empty());
        assert(digits_value(Seq::<char>::empty()) == 0);
        assert(digits_value(seq!['0']) == 0);
        let rest = s.drop_first();
        let p = pow10(rest.len());
        assert(digits_value(s) == digits_value(seq!['0']) * p + digits_value(rest));
        assert(0 * p == 0) by (nonlinear_arith);
        assert(digits_value(s) == digits_value(rest));
    }
}

/// Stripping zeros keeps digits and leaves no leading zero.
proof fn lemma_strip_zeros_shape(s: Seq<char>)
    requires
        all_digits(s),
    ensures
        all_digits(strip_zeros(s)),
        strip_zeros(s).len() > 0 ==> strip_zeros(s)[0] != '0',
        strip_zeros(s).len() <= s.len(),
    decreases s.len(),
{
    if s.len() > 0 && s[0] == '0' {
        let t = s.drop_first();
        assert(all_digits(t)) by {
            assert forall|i: int| 0 <= i < t.len() implies '0' <= #[trigger] t[i] && t[i] <= '9' by {
                assert(t[i] == s[i + 1]);
            }
        }
        lemma_strip_zeros_shape(t);
    }
}

/// A run of digits without a leading zero is at least ten to its length
/// minus one.
proof fn lemma_value_lower(s: Seq<char>)
    requires
        all_digits(s),
        s.len() > 0,
        s[0] != '0',
    ensures
        digits_value(s) >= pow10((s.len() - 1) as nat),
{
    let rest = s.drop_first();
    lemma_value_concat(seq![s[0]], rest);
    assert(seq![s[0]] + rest =~= s);
    assert(seq![s[0]].drop_last() =~= Seq::<char>::empty());
    let d = (s[0] as u32 - 48) as nat;
    assert('0' <= s[0] && s[0] <= '9');
    assert(d >= 1);
    assert(digits_value(Seq::<char>::empty()) == 0);
    assert(digits_value(seq![s[0]]) == d);
    let p = pow10(rest.len());
    assert(d * p >= p) by (nonlinear_arith)
        requires
            d >= 1,
    ;
}

/// Of two digit runs of equal length, the first differing digit orders their
/// values.
proof fn lemma_lex_is_value_order(x: Seq<char>, y: Seq<char>)
    requires
        all_digits(x),
        all_digits(y),
        x.len() == y.len(),
    ensures
        lex_cmp(x, y) == cmp_nat(digits_value(x), digits_value(y)),
    decreases x.len(),
{
    if x.len() > 0 {
        let xr = x.drop_first();
        let yr = y.drop_first();
        assert(all_digits(xr)) by {
            assert forall|i: int| 0 <= i < xr.len() implies '0' <= #[trigger] xr[i] && xr[i] <= '9' by {
                assert(xr[i] == x[i + 1]);
            }
        }
        assert(all_digits(yr)) by {
            assert forall|i: int| 0 <= i < yr.len() implies '0' <= #[trigger] yr[i] && yr[i] <= '9' by {
                assert(yr[i] == y[i + 1]);
            }
        }
        lemma_lex_is_value_order(xr, yr);
        lemma_value_concat(seq![x[0]], xr);
        lemma_value_concat(seq![y[0]], yr);
        assert(seq![x[0]] + xr =~= x);
        assert(seq![y[0]] + yr =~= y);
        assert(seq![x[0]].drop_last() =~= Seq::<char>::empty());
        assert(seq![y[0]].drop_last() =~= Seq::<char>::empty());
        assert(digits_value(Seq::<char>::empty()) == 0);
        lemma_value_bound(xr);
        lemma_value_bound(yr);
        assert('0' <= x[0] && x[0] <= '9');
        assert('0' <= y[0] && y[0] <= '9');
        let a = (x[0] as u32 - 48) as nat;
        let b = (y[0] as u32 - 48) as nat;
        let p = pow10(xr.len());
        let u = digits_value(xr);
        let v = digits_value(yr);
        assert(digits_value(x) == a * p + u);
        assert(digits_value(y) == b * p + v);
        if a < b {
            assert(a * p + u < b * p + v) by (nonlinear_arith)
                requires
                    a < b,
                    u < p,
            ;
        } else if a > b {
            assert(a * p + u > b * p + v) by (nonlinear_arith)
                requires
                    a > b,
                    v < p,
            ;
        }
    }
}

/// Two runs of digits compare as the numbers they write.
pub proof fn lemma_numeric_cmp_is_value_order(x: Seq<char>, y: Seq<char>)
    requires
        all_digits(x),
        all_digits(y),
    ensures
        numeric_cmp(x, y) == cmp_nat(digits_value(x), digits_value(y)),
{
    let p = strip_zeros(x);
    let q = strip_zeros(y);
    lemma_value_zeros(x);
    lemma_value_zeros(y);
    lemma_strip_zeros_shape(x);
    lemma_strip_zeros_shape(y);
    lemma_value_bound(p);
    lemma_value_bound(q);
    if p.len() < q.len() {
        lemma_value_lower(q);
        lemma_pow10_monotone(p.len(), (q.len() - 1) as nat);
    } else if p.len() > q.len() {
        lemma_value_lower(p);
        lemma_pow10_monotone(q.len(), (p.len() - 1) as nat);
    } else {
        lemma_lex_is_value_order(p, q);
    }
}

proof fn lemma_lex_antisymmetric(x: Seq<char>, y: Seq<char>)
    ensures
        lex_cmp(x, y) == Ordering::Greater <==> lex_cmp(y, x) == Ordering::Less,
    decreases x.len(),
{
    if x.len() > 0 && y.len() > 0 && (x[0] as u32) == (y[0] as u32) {
        lemma_lex_antisymmetric(x.drop_first(), y.drop_first());
    }
}

proof fn lemma_numeric_antisymmetric(x: Seq<char>, y: Seq<char>)
    ensures
        numeric_cmp(x, y) == Ordering::Greater <==> numeric_cmp(y, x) == Ordering::Less,
        numeric_cmp(x, y) == Ordering::Equal <==> numeric_cmp(y, x) == Ordering::Equal,
{
    lemma_lex_antisymmetric(strip_zeros(x), strip_zeros(y));
    lemma_lex_antisymmetric(strip_zeros(y), strip_zeros(x));
}

/// Natural order is antisymmetric: `a` after `b` exactly where `b` is before
/// `a`.
pub proof fn lemma_natural_antisymmetric(a: Seq<char>, b: Seq<char>)
    ensures
        natural_cmp(a, b) == Ordering::Greater <==> natural_cmp(b, a) == Ordering::Less,
    decreases a.len() + b.len(),
{
    if a.len() > 0 && b.len() > 0 {
        if is_digit(a[0]) && is_digit(b[0]) {
            let ka = digit_run(a) as int;
            let kb = digit_run(b) as int;
            lemma_digit_run_bounds(a);
            lemma_digit_run_bounds(b);
            lemma_numeric_antisymmetric(a.subrange(0, ka), b.subrange(0, kb));
            lemma_natural_antisymmetric(
                a.subrange(ka, a.len() as int),
                b.subrange(kb, b.len() as int),
            );
        } else if a[0] == b[0] {
            lemma_natural_antisymmetric(a.drop_first(), b.drop_first());
        }
    }
}

} // verus!
