//! The rendered order of stanzas depends on the directory's contents alone,
//! not on the order in which its entries were added.

use vstd::prelude::*;
use core::cmp::Ordering;
use crate::natural::{
    digit_run, is_digit, lemma_digit_run_bounds, lemma_numeric_cmp_is_value_order, natural_cmp,
    numeric_cmp, cmp_nat,
};
use crate::directory::unique_names;
use crate::interface::InterfaceModel;
use crate::serializer::{
    insert_entry, key_cmp, lemma_key_antisymmetric, lemma_sort_entries, name_cmp, render_text,
    sort_entries, sorted_by_name,
};
use crate::text::{all_digits, digits_value};

verus! {

/// A name read as tokens: a run of digits is `('0', value)`, any other
/// character `(c, 0)`.
pub open spec fn name_tokens(a: Seq<char>) -> Seq<(char, int)>
    decreases a.len(),
    via name_tokens_decreases
{
    if a.len() == 0 {
        Seq::empty()
    } else if is_digit(a[0]) {
        let k = digit_run(a) as int;
        seq![('0', digits_value(a.subrange(0, k)) as int)] + name_tokens(a.subrange(k, a.len() as int))
    } else {
        seq![(a[0], 0int)] + name_tokens(a.drop_first())
    }
}

#[via_fn]
proof fn name_tokens_decreases(a: Seq<char>) {
    lemma_digit_run_bounds(a);
}

/// Lexicographic order of token sequences; a strict prefix comes first.
pub open spec fn token_cmp(x: Seq<(char, int)>, y: Seq<(char, int)>) -> Ordering
    decreases x.len(),
{
    if x.len() == 0 && y.len() == 0 {
        Ordering::Equal
    } else if x.len() == 0 {
        Ordering::Less
    } else if y.len() == 0 {
        Ordering::Greater
    } else if x[0].0 < y[0].0 || (x[0].0 == y[0].0 && x[0].1 < y[0].1) {
        Ordering::Less
    } else if x[0].0 > y[0].0 || (x[0].0 == y[0].0 && x[0].1 > y[0].1) {
        Ordering::Greater
    } else {
        token_cmp(x.drop_first(), y.drop_first())
    }
}

proof fn lemma_digit_prefix(a: Seq<char>)
    ensures
        all_digits(a.subrange(0, digit_run(a) as int)),
        digit_run(a) <= a.len(),
        digit_run(a) < a.len() ==> !is_digit(a[digit_run(a) as int]),
    decreases a.len(),
{
    lemma_digit_run_bounds(a);
    if a.len() > 0 && is_digit(a[0]) {
        let r = a.drop_first();
        lemma_digit_prefix(r);
        let k = digit_run(a) as int;
        assert forall|i: int| 0 <= i < k implies '0' <= #[trigger] a.subrange(0, k)[i] && a.subrange(
            0,
            k,
        )[i] <= '9' by {
            if i > 0 {
                assert(a.subrange(0, k)[i] == r.subrange(0, k - 1)[i - 1]);
            }
        }
        if k < a.len() {
            assert(a[k] == r[k - 1]);
        }
    }
}

/// Natural order is the order of the names' tokens.
pub proof fn lemma_natural_is_token_order(a: Seq<char>, b: Seq<char>)
    ensures
        natural_cmp(a, b) == token_cmp(name_tokens(a), name_tokens(b)),
    decreases a.len() + b.len(),
{
    if a.len() > 0 && b.len() > 0 {
        let ta = name_tokens(a);
        let tb = name_tokens(b);
        if is_digit(a[0]) && is_digit(b[0]) {
            let ka = digit_run(a) as int;
            let kb = digit_run(b) as int;
            lemma_digit_prefix(a);
            lemma_digit_prefix(b);
            lemma_digit_run_bounds(a);
            lemma_digit_run_bounds(b);
            lemma_numeric_cmp_is_value_order(a.subrange(0, ka), b.subrange(0, kb));
            let ra = a.subrange(ka, a.len() as int);
            let rb = b.subrange(kb, b.len() as int);
            lemma_natural_is_token_order(ra, rb);
            assert(ta.drop_first() =~= name_tokens(ra));
            assert(tb.drop_first() =~= name_tokens(rb));
            assert(natural_cmp(a, b) == token_cmp(ta, tb));
        } else if is_digit(a[0]) {
            lemma_digit_run_bounds(a);
        } else if is_digit(b[0]) {
            lemma_digit_run_bounds(b);
        } else {
            lemma_natural_is_token_order(a.drop_first(), b.drop_first());
            assert(ta.drop_first() =~= name_tokens(a.drop_first()));
            assert(tb.drop_first() =~= name_tokens(b.drop_first()));
            assert(natural_cmp(a, b) == token_cmp(ta, tb));
        }
    } else if a.len() == 0 && b.len() > 0 {
        lemma_digit_run_bounds(b);
    } else if a.len() > 0 && b.len() == 0 {
        lemma_digit_run_bounds(a);
    }
}

proof fn lemma_token_antisymmetric(x: Seq<(char, int)>, y: Seq<(char, int)>)
    ensures
        token_cmp(x, y) == Ordering::Greater <==> token_cmp(y, x) == Ordering::Less,
        token_cmp(x, y) == Ordering::Equal <==> x == y,
    decreases x.len(),
{
    if x.len() > 0 && y.len() > 0 && x[0] == y[0] {
        lemma_token_antisymmetric(x.drop_first(), y.drop_first());
        if x.drop_first() == y.drop_first() {
            assert(x =~= seq![x[0]] + x.drop_first());
            assert(y =~= seq![y[0]] + y.drop_first());
        }
    } else if x.len() > 0 && y.len() > 0 {
        if x == y {
            assert(x[0] == y[0]);
        }
    } else if x.len() == 0 && y.len() == 0 {
        assert(x =~= y);
    }
}

proof fn lemma_token_transitive(x: Seq<(char, int)>, y: Seq<(char, int)>, z: Seq<(char, int)>)
    ensures
        token_cmp(x, y) == Ordering::Less && token_cmp(y, z) != Ordering::Greater ==> token_cmp(x, z)
            == Ordering::Less,
        token_cmp(x, y) != Ordering::Greater && token_cmp(y, z) == Ordering::Less ==> token_cmp(
            x,
            z,
        ) == Ordering::Less,
    decreases x.len(),
{
    lemma_token_antisymmetric(x, y);
    lemma_token_antisymmetric(y, z);
    if x.len() > 0 && y.len() > 0 && z.len() > 0 {
        lemma_token_transitive(x.drop_first(), y.drop_first(), z.drop_first());
    }
}

proof fn lemma_key_transitive(x: Seq<char>, y: Seq<char>, z: Seq<char>)
    ensures
        key_cmp(x, y) == Ordering::Less && key_cmp(y, z) != Ordering::Greater ==> key_cmp(x, z)
            == Ordering::Less,
        key_cmp(x, y) != Ordering::Greater && key_cmp(y, z) == Ordering::Less ==> key_cmp(x, z)
            == Ordering::Less,
    decreases x.len(),
{
    lemma_key_antisymmetric(x, y);
    lemma_key_antisymmetric(y, z);
    if x.len() > 0 && y.len() > 0 && z.len() > 0 {
        lemma_key_transitive(x.drop_first(), y.drop_first(), z.drop_first());
    }
}

/// The order of names in the rendered file is transitive.
pub proof fn lemma_name_transitive(a: Seq<char>, b: Seq<char>, c: Seq<char>)
    ensures
        name_cmp(a, b) == Ordering::Less && name_cmp(b, c) == Ordering::Less ==> name_cmp(a, c)
            == Ordering::Less,
{
    lemma_natural_is_token_order(a, b);
    lemma_natural_is_token_order(b, c);
    lemma_natural_is_token_order(a, c);
    let (ta, tb, tc) = (name_tokens(a), name_tokens(b), name_tokens(c));
    lemma_token_antisymmetric(ta, tb);
    lemma_token_antisymmetric(tb, tc);
    lemma_token_antisymmetric(ta, tc);
    lemma_token_transitive(ta, tb, tc);
    lemma_key_transitive(a, b, c);
}

/// Where `insert_entry` puts the new entry.
proof fn lemma_insert_shape(s: Seq<InterfaceModel>, x: InterfaceModel) -> (k: int)
    ensures
        0 <= k <= s.len(),
        insert_entry(s, x) == s.insert(k, x),
    decreases s.len(),
{
    if s.len() == 0 {
        assert(s.insert(0, x) =~= seq![x]);
        0
    } else if name_cmp(s.last().name, x.name) == Ordering::Greater {
        let k = lemma_insert_shape(s.drop_last(), x);
        assert(s.drop_last().insert(k, x).push(s.last()) =~= s.insert(k, x));
        k
    } else {
        assert(s.push(x) =~= s.insert(s.len() as int, x));
        s.len() as int
    }
}

/// Sorting keeps names unique and takes every entry from the input.
proof fn lemma_sort_entries_names(p: Seq<InterfaceModel>)
    requires
        unique_names(p),
    ensures
        unique_names(sort_entries(p)),
        forall|i: int|
            0 <= i < sort_entries(p).len() ==> exists|j: int|
                0 <= j < p.len() && #[trigger] sort_entries(p)[i] == p[j],
    decreases p.len(),
{
    if p.len() > 0 {
        let p0 = p.drop_last();
        assert(unique_names(p0)) by {
            assert forall|i: int, j: int|
                0 <= i < p0.len() && 0 <= j < p0.len() && i != j implies #[trigger] p0[i].name
                != #[trigger] p0[j].name by {
                assert(p0[i] == p[i] && p0[j] == p[j]);
            }
        }
        lemma_sort_entries_names(p0);
        let s = sort_entries(p0);
        let x = p.last();
        let k = lemma_insert_shape(s, x);
        let r = s.insert(k, x);
        assert forall|i: int| 0 <= i < s.len() implies #[trigger] s[i].name != x.name by {
            let j = choose|j: int| 0 <= j < p0.len() && s[i] == p0[j];
            assert(p0[j] == p[j]);
        }
        assert forall|i: int, j: int|
            0 <= i < r.len() && 0 <= j < r.len() && i != j implies #[trigger] r[i].name
            != #[trigger] r[j].name by {
            let si = if i < k { i } else { i - 1 };
            let sj = if j < k { j } else { j - 1 };
            if i != k && j != k {
                assert(r[i] == s[si] && r[j] == s[sj]);
            } else if i == k {
                assert(r[j] == s[sj]);
            } else {
                assert(r[i] == s[si]);
            }
        }
        assert forall|i: int| 0 <= i < r.len() implies exists|j: int|
            0 <= j < p.len() && #[trigger] r[i] == p[j] by {
            if i == k {
                assert(r[i] == p[p.len() - 1]);
            } else {
                let si = if i < k { i } else { i - 1 };
                assert(r[i] == s[si]);
                let j = choose|j: int| 0 <= j < p0.len() && s[si] == p0[j];
                assert(p0[j] == p[j]);
            }
        }
    }
}

/// Each name comes strictly before every later one.
pub open spec fn strictly_sorted(s: Seq<InterfaceModel>) -> bool {
    forall|i: int, j: int|
        0 <= i < j < s.len() ==> name_cmp(#[trigger] s[i].name, #[trigger] s[j].name)
            == Ordering::Less
}

proof fn lemma_strictly_sorted(s: Seq<InterfaceModel>)
    requires
        sorted_by_name(s),
        unique_names(s),
    ensures
        strictly_sorted(s),
    decreases s.len(),
{
    if s.len() > 1 {
        let s0 = s.drop_last();
        assert(sorted_by_name(s0)) by {
            assert forall|i: int, j: int| 0 <= i && j == i + 1 && j < s0.len() implies name_cmp(
                #[trigger] s0[i].name,
                #[trigger] s0[j].name,
            ) != Ordering::Greater by {
                assert(s0[i] == s[i] && s0[j] == s[j]);
            }
        }
        assert(unique_names(s0)) by {
            assert forall|i: int, j: int|
                0 <= i < s0.len() && 0 <= j < s0.len() && i != j implies #[trigger] s0[i].name
                != #[trigger] s0[j].name by {
                assert(s0[i] == s[i] && s0[j] == s[j]);
            }
        }
        lemma_strictly_sorted(s0);
        let n = s.len() - 1;
        assert(name_cmp(s[n - 1].name, s[n].name) != Ordering::Greater);
        crate::serializer::lemma_name_antisymmetric(s[n - 1].name, s[n].name);
        assert(name_cmp(s[n - 1].name, s[n].name) == Ordering::Less);
        assert forall|i: int, j: int| 0 <= i < j < s.len() implies name_cmp(
            #[trigger] s[i].name,
            #[trigger] s[j].name,
        ) == Ordering::Less by {
            if j < n {
                assert(s0[i] == s[i] && s0[j] == s[j]);
            } else if i < n - 1 {
                assert(s0[i] == s[i] && s0[n - 1] == s[n - 1]);
                lemma_name_transitive(s[i].name, s[n - 1].name, s[n].name);
            }
        }
    }
}

/// Two strictly sorted sequences of the same entries are equal.
proof fn lemma_sorted_unique(s: Seq<InterfaceModel>, t: Seq<InterfaceModel>)
    requires
        strictly_sorted(s),
        strictly_sorted(t),
        s.to_multiset() == t.to_multiset(),
    ensures
        s == t,
    decreases s.len(),
{
    broadcast use vstd::seq_lib::group_to_multiset_ensures;

    s.to_multiset_ensures();
    t.to_multiset_ensures();
    assert(s.len() == t.len());
    if s.len() > 0 {
        assert(s.contains(s[0]));
        assert(t.contains(t[0]));
        assert(t.to_multiset().count(s[0]) > 0);
        assert(t.contains(s[0]));
        assert(t.to_multiset().count(t[0]) > 0);
        assert(s.to_multiset().count(t[0]) > 0);
        assert(s.contains(t[0]));
        let k = choose|k: int| 0 <= k < t.len() && t[k] == s[0];
        let m = choose|m: int| 0 <= m < s.len() && s[m] == t[0];
        if k > 0 {
            assert(name_cmp(t[0].name, t[k].name) == Ordering::Less);
            crate::serializer::lemma_name_antisymmetric(t[0].name, t[k].name);
            if m > 0 {
                assert(name_cmp(s[0].name, s[m].name) == Ordering::Less);
                crate::serializer::lemma_name_antisymmetric(s[0].name, s[m].name);
            }
        }
        assert(s[0] == t[0]);
        let s1 = s.drop_first();
        let t1 = t.drop_first();
        assert(s.remove(0) =~= s1);
        assert(t.remove(0) =~= t1);
        assert(s1.to_multiset() == t1.to_multiset());
        assert forall|i: int, j: int| 0 <= i < j < s1.len() implies name_cmp(
            #[trigger] s1[i].name,
            #[trigger] s1[j].name,
        ) == Ordering::Less by {
            assert(s1[i] == s[i + 1] && s1[j] == s[j + 1]);
        }
        assert forall|i: int, j: int| 0 <= i < j < t1.len() implies name_cmp(
            #[trigger] t1[i].name,
            #[trigger] t1[j].name,
        ) == Ordering::Less by {
            assert(t1[i] == t[i + 1] && t1[j] == t[j + 1]);
        }
        lemma_sorted_unique(s1, t1);
        assert(s =~= t) by {
            assert forall|i: int| 0 <= i < s.len() implies s[i] == t[i] by {
                if i > 0 {
                    assert(s[i] == s1[i - 1] && t[i] == t1[i - 1]);
                }
            }
        }
    }
}

/// The rendered text depends on the directory's entries alone: two
/// directories of unique names holding the same entries, in whatever order
/// they were added, render alike.
pub proof fn lemma_render_independent_of_order(
    comments: Seq<Seq<char>>,
    sources: Seq<Seq<char>>,
    p: Seq<InterfaceModel>,
    q: Seq<InterfaceModel>,
)
    requires
        unique_names(p),
        unique_names(q),
        p.to_multiset() == q.to_multiset(),
    ensures
        render_text(comments, sources, p) == render_text(comments, sources, q),
{
    lemma_sort_entries(p);
    lemma_sort_entries(q);
    lemma_sort_entries_names(p);
    lemma_sort_entries_names(q);
    lemma_strictly_sorted(sort_entries(p));
    lemma_strictly_sorted(sort_entries(q));
    lemma_sorted_unique(sort_entries(p), sort_entries(q));
}

} // verus!
