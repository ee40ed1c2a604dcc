//! Character-level helpers: whitespace, line splitting, tokenizing and
//! joining, each stated over `Seq<char>`.

use vstd::prelude::*;

verus! {

/// ASCII whitespace, as the file format understands it.
pub open spec fn is_ws(c: char) -> bool {
    c == ' ' || c == '\t' || c == '\n' || c == '\r' || c == '\x0B' || c == '\x0C'
}

/// The character sequences held by a sequence of character vectors.
pub open spec fn views(v: Seq<Vec<char>>) -> Seq<Seq<char>> {
    v.map_values(|w: Vec<char>| w@)
}

/// Splits `s` at every newline. A text without newlines is one line; a final
/// newline leaves an empty last line.
pub open spec fn split_lines(s: Seq<char>) -> Seq<Seq<char>>
    decreases s.len(),
{
    if s.len() == 0 {
        seq![Seq::<char>::empty()]
    } else {
        let prev = split_lines(s.drop_last());
        if s.last() == '\n' {
            prev.push(Seq::<char>::empty())
        } else {
            prev.update(prev.len() - 1, prev.last().push(s.last()))
        }
    }
}

/// The maximal runs of non-whitespace characters of `s`, in order.
pub open spec fn tokens(s: Seq<char>) -> Seq<Seq<char>>
    decreases s.len(),
{
    if s.len() == 0 {
        Seq::<Seq<char>>::empty()
    } else {
        let prev = tokens(s.drop_last());
        if is_ws(s.last()) {
            prev
        } else if s.len() >= 2 && !is_ws(s[s.len() - 2]) {
            prev.update(prev.len() - 1, prev.last().push(s.last()))
        } else {
            prev.push(seq![s.last()])
        }
    }
}

/// The words of `ws` separated by single spaces.
pub open spec fn join_spaced(ws: Seq<Seq<char>>) -> Seq<char>
    decreases ws.len(),
{
    if ws.len() == 0 {
        Seq::<char>::empty()
    } else if ws.len() == 1 {
        ws[0]
    } else {
        join_spaced(ws.drop_last()) + seq![' '] + ws.last()
    }
}

pub proof fn lemma_split_lines_nonempty(s: Seq<char>)
    ensures
        split_lines(s).len() >= 1,
    decreases s.len(),
{
    if s.len() > 0 {
        lemma_split_lines_nonempty(s.drop_last());
    }
}

pub proof fn lemma_tokens_nonempty_after_word(s: Seq<char>)
    requires
        s.len() >= 1,
        !is_ws(s.last()),
    ensures
        tokens(s).len() >= 1,
    decreases s.len(),
{
    if s.len() >= 2 && !is_ws(s[s.len() - 2]) {
        lemma_tokens_nonempty_after_word(s.drop_last());
        assert(s.drop_last().last() == s[s.len() - 2]);
    }
}

/// Relies on `String::push`: appends one character at the end.
#[verifier::external_body]
fn push_char(s: &mut String, c: char)
    ensures
        final(s)@ == old(s)@.push(c),
{
    s.push(c)
}

/// Whether the characters `t` spell out `w` exactly.
pub fn is_text(t: &[char], w: &str) -> (r: bool)
    ensures
        r == (t@ == w@),
{
    let n = w.unicode_len();
    if t.len() != n {
        return false;
    }
    let mut i: usize = 0;
    while i < n
        invariant
            n == w@.len() == t@.len(),
            i <= n,
            t@.subrange(0, i as int) == w@.subrange(0, i as int),
        decreases n - i,
    {
        if t[i] != w.get_char(i) {
            assert(t@[i as int] != w@[i as int]);
            return false;
        }
        i += 1;
        assert(t@.subrange(0, i as int) =~= w@.subrange(0, i as int));
    }
    assert(t@ =~= t@.subrange(0, n as int));
    assert(w@ =~= w@.subrange(0, n as int));
    true
}

/// Whether `t` starts with the characters of `w`.
pub fn has_prefix(t: &[char], w: &str) -> (r: bool)
    ensures
        r == (w@.len() <= t@.len() && t@.subrange(0, w@.len() as int) == w@),
{
    let n = w.unicode_len();
    if t.len() < n {
        return false;
    }
    let mut i: usize = 0;
    while i < n
        invariant
            n == w@.len() <= t@.len(),
            i <= n,
            t@.subrange(0, i as int) == w@.subrange(0, i as int),
        decreases n - i,
    {
        if t[i] != w.get_char(i) {
            assert(t@.subrange(0, n as int)[i as int] != w@[i as int]);
            return false;
        }
        i += 1;
        assert(t@.subrange(0, i as int) =~= w@.subrange(0, i as int));
    }
    assert(w@ =~= w@.subrange(0, n as int));
    true
}

/// A `String` holding the characters of the literal `w`.
pub fn string_from(w: &str) -> (r: String)
    ensures
        r@ == w@,
{
    w.to_owned()
}

/// Appends the characters of `w` to `s`.
pub fn append_str(s: &mut String, w: &str)
    ensures
        final(s)@ == old(s)@ + w@,
{
    let n = w.unicode_len();
    let mut i: usize = 0;
    let ghost base = s@;
    while i < n
        invariant
            n == w@.len(),
            i <= n,
            s@ == base + w@.subrange(0, i as int),
        decreases n - i,
    {
        push_char(s, w.get_char(i));
        i += 1;
        assert(s@ =~= base + w@.subrange(0, i as int));
    }
    assert(w@ =~= w@.subrange(0, n as int));
}

/// Whether `c` is whitespace in the sense of [`is_ws`].
pub fn char_is_ws(c: char) -> (r: bool)
    ensures
        r == is_ws(c),
{
    c == ' ' || c == '\t' || c == '\n' || c == '\r' || c == '\x0B' || c == '\x0C'
}

/// The characters of `s`, in order.
pub fn chars_of(s: &str) -> (r: Vec<char>)
    ensures
        r@ == s@,
{
    let n = s.unicode_len();
    let mut out: Vec<char> = Vec::new();
    let mut i: usize = 0;
    while i < n
        invariant
            n == s@.len(),
            i <= n,
            out@ == s@.subrange(0, i as int),
        decreases n - i,
    {
        out.push(s.get_char(i));
        i += 1;
        assert(out@ =~= s@.subrange(0, i as int));
    }
    assert(out@ =~= s@);
    out
}

/// A `String` holding the characters of `v`.
pub fn string_of(v: &[char]) -> (r: String)
    ensures
        r@ == v@,
{
    let r = string_range(v, 0, v.len());
    assert(v@.subrange(0, v@.len() as int) =~= v@);
    r
}

/// A `String` holding the characters `v[from..to]`.
pub fn string_range(v: &[char], from: usize, to: usize) -> (r: String)
    requires
        from <= to <= v@.len(),
    ensures
        r@ == v@.subrange(from as int, to as int),
{
    let mut out = String::new();
    let mut i: usize = from;
    while i < to
        invariant
            from <= i <= to <= v@.len(),
            out@ == v@.subrange(from as int, i as int),
        decreases to - i,
    {
        push_char(&mut out, v[i]);
        i += 1;
        assert(out@ =~= v@.subrange(from as int, i as int));
    }
    out
}

/// The lines of `s`, split as [`split_lines`] does.
pub fn lines_of(s: &Vec<char>) -> (r: Vec<Vec<char>>)
    ensures
        views(r@) == split_lines(s@),
{
    let mut done: Vec<Vec<char>> = Vec::new();
    let mut cur: Vec<char> = Vec::new();
    let mut i: usize = 0;
    while i < s.len()
        invariant
            i <= s@.len(),
            views(done@).push(cur@) == split_lines(s@.subrange(0, i as int)),
        decreases s@.len() - i,
    {
        let c = s[i];
        proof {
            let t = s@.subrange(0, i as int + 1);
            assert(t.drop_last() =~= s@.subrange(0, i as int));
            assert(t.last() == c);
        }
        if c == '\n' {
            let ghost before = views(done@).push(cur@);
            done.push(cur);
            cur = Vec::new();
            assert(views(done@).push(cur@) =~= before.push(Seq::<char>::empty()));
        } else {
            let ghost before = views(done@).push(cur@);
            cur.push(c);
            assert(views(done@).push(cur@) =~= before.update(
                before.len() - 1,
                before.last().push(c),
            ));
        }
        i += 1;
    }
    assert(s@.subrange(0, s@.len() as int) =~= s@);
    done.push(cur);
    done
}

/// The whitespace-separated tokens of `s`, as [`tokens`] gives them.
pub fn tokens_of(s: &[char]) -> (r: Vec<Vec<char>>)
    ensures
        views(r@) == tokens(s@),
{
    let mut out: Vec<Vec<char>> = Vec::new();
    let mut i: usize = 0;
    while i < s.len()
        invariant
            i <= s@.len(),
            views(out@) == tokens(s@.subrange(0, i as int)),
        decreases s@.len() - i,
    {
        let c = s[i];
        let ghost t = s@.subrange(0, i as int + 1);
        proof {
            assert(t.drop_last() =~= s@.subrange(0, i as int));
            assert(t.last() == c);
        }
        if char_is_ws(c) {
        } else if i >= 1 && !char_is_ws(s[i - 1]) {
            proof {
                assert(t[t.len() - 2] == s@[i - 1]);
                let p = s@.subrange(0, i as int);
                assert(p.last() == s@[i - 1]);
                lemma_tokens_nonempty_after_word(p);
            }
            let ghost before = views(out@);
            let last = out.len() - 1;
            let mut w = out.remove(last);
            w.push(c);
            out.push(w);
            assert(views(out@) =~= before.update(before.len() - 1, before.last().push(c)));
        } else {
            let ghost before = views(out@);
            let mut w: Vec<char> = Vec::new();
            w.push(c);
            out.push(w);
            assert(views(out@) =~= before.push(seq![c]));
        }
        i += 1;
    }
    assert(s@.subrange(0, s@.len() as int) =~= s@);
    out
}

/// The words of `ws[from..]` joined by single spaces, as a `String`.
pub fn join_from(ws: &Vec<Vec<char>>, from: usize) -> (r: String)
    requires
        from <= ws@.len(),
    ensures
        r@ == join_spaced(views(ws@).subrange(from as int, ws@.len() as int)),
{
    let mut out = String::new();
    let mut i: usize = from;
    while i < ws.len()
        invariant
            from <= i <= ws@.len(),
            out@ == join_spaced(views(ws@).subrange(from as int, i as int)),
        decreases ws@.len() - i,
    {
        let ghost before = views(ws@).subrange(from as int, i as int);
        let ghost after = views(ws@).subrange(from as int, i as int + 1);
        assert(after.drop_last() =~= before);
        if i > from {
            push_char(&mut out, ' ');
        }
        let w = &ws[i];
        let mut j: usize = 0;
        let ghost base = out@;
        while j < w.len()
            invariant
                j <= w@.len(),
                out@ == base + w@.subrange(0, j as int),
            decreases w@.len() - j,
        {
            push_char(&mut out, w[j]);
            j += 1;
            assert(out@ =~= base + w@.subrange(0, j as int));
        }
        assert(w@.subrange(0, w@.len() as int) =~= w@);
        proof {
            if i == from {
                assert(after.len() == 1);
                assert(before.len() == 0);
                assert(out@ =~= after[0]);
            } else {
                assert(out@ =~= join_spaced(before) + seq![' '] + after.last());
            }
        }
        i += 1;
    }
    out
}

/// The decimal digits of `n`, most significant first, without leading zeros
/// (`0` is written `0`).
pub open spec fn decimal_text(n: nat) -> Seq<char>
    decreases n,
{
    if n < 10 {
        seq![digit_char(n)]
    } else {
        decimal_text(n / 10).push(digit_char(n % 10))
    }
}

/// The character of the decimal digit `d`.
pub open spec fn digit_char(d: nat) -> char {
    ((d + 48) as u8) as char
}

/// `n` written in decimal.
pub fn decimal(n: u64) -> (r: String)
    ensures
        r@ == decimal_text(n as nat),
    decreases n,
{
    if n < 10 {
        let mut r = String::new();
        push_char(&mut r, ((n as u8) + 48) as char);
        assert(r@ =~= decimal_text(n as nat));
        r
    } else {
        let mut r = decimal(n / 10);
        push_char(&mut r, (((n % 10) as u8) + 48) as char);
        r
    }
}

/// The value of a run of decimal digits.
pub open spec fn digits_value(s: Seq<char>) -> nat
    decreases s.len(),
{
    if s.len() == 0 {
        0
    } else {
        digits_value(s.drop_last()) * 10 + ((s.last() as u32 - 48) as nat)
    }
}

/// Every character of `s` is an ASCII digit.
pub open spec fn all_digits(s: Seq<char>) -> bool {
    forall|i: int| 0 <= i < s.len() ==> '0' <= #[trigger] s[i] && s[i] <= '9'
}

/// An unsigned integer no greater than `max`, as Rust's integer parsing reads
/// it: an optional `+`, then at least one decimal digit and nothing else.
pub open spec fn parse_uint(s: Seq<char>, max: nat) -> Option<nat> {
    let d = if s.len() > 0 && s[0] == '+' {
        s.drop_first()
    } else {
        s
    };
    if d.len() > 0 && all_digits(d) && digits_value(d) <= max {
        Some(digits_value(d))
    } else {
        None
    }
}

/// [`parse_uint`] on a string, for bounds up to `u32::MAX`.
pub fn parse_bounded(s: &str, max: u32) -> (r: Option<u32>)
    ensures
        match parse_uint(s@, max as nat) {
            Some(v) => r == Some(v as u32),
            None => r is None,
        },
{
    let c = chars_of(s);
    let start: usize = if c.len() > 0 && c[0] == '+' { 1 } else { 0 };
    let ghost d = c@.subrange(start as int, c@.len() as int);
    assert(d =~= (if s@.len() > 0 && s@[0] == '+' { s@.drop_first() } else { s@ }));
    if c.len() == start {
        return None;
    }
    let cap: u64 = max as u64 + 1;
    let mut acc: u64 = 0;
    let mut i: usize = start;
    assert(c@.subrange(start as int, start as int) =~= Seq::<char>::empty());
    while i < c.len()
        invariant
            start <= i <= c@.len(),
            cap == max as u64 + 1,
            d == c@.subrange(start as int, c@.len() as int),
            c@ == s@,
            d == (if s@.len() > 0 && s@[0] == '+' {
                s@.drop_first()
            } else {
                s@
            }),
            all_digits(c@.subrange(start as int, i as int)),
            acc == if digits_value(c@.subrange(start as int, i as int)) < cap {
                digits_value(c@.subrange(start as int, i as int))
            } else {
                cap as nat
            },
        decreases c@.len() - i,
    {
        let ch = c[i];
        if !('0' <= ch && ch <= '9') {
            assert(d[i - start] == ch);
            return None;
        }
        let ghost p = c@.subrange(start as int, i as int + 1);
        assert(p.drop_last() =~= c@.subrange(start as int, i as int));
        assert(p.last() == ch);
        let next = acc * 10 + (ch as u64 - 48);
        acc = if next < cap { next } else { cap };
        i += 1;
        assert(all_digits(c@.subrange(start as int, i as int))) by {
            assert forall|k: int| 0 <= k < p.len() implies '0' <= #[trigger] p[k] && p[k] <= '9' by {
                if k < p.len() - 1 {
                    assert(p[k] == p.drop_last()[k]);
                }
            }
        }
    }
    assert(c@.subrange(start as int, c@.len() as int) == d);
    if acc < cap {
        Some(acc as u32)
    } else {
        None
    }
}

} // verus!
