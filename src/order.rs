//! The order of strings by their characters, as `str`'s `Ord` compares them,
//! and lists of strings kept in that order.
use vstd::prelude::*;

use crate::crate_spec::strs_view;

verus! {

/// `a` comes before `b`: at the first position where they differ `a` has the
/// smaller character, or `a` is a proper prefix of `b`.
pub open spec fn lex_lt(a: Seq<char>, b: Seq<char>) -> bool
    decreases a.len(),
{
    if b.len() == 0 {
        false
    } else if a.len() == 0 {
        true
    } else if a[0] != b[0] {
        (a[0] as int) < (b[0] as int)
    } else {
        lex_lt(a.drop_first(), b.drop_first())
    }
}

/// Each item comes before the next, so no item occurs twice.
pub open spec fn ascending(s: Seq<Seq<char>>) -> bool {
    forall|i: int, j: int| 0 <= i < j < s.len() ==> lex_lt(#[trigger] s[i], #[trigger] s[j])
}

pub proof fn lemma_lex_irreflexive(a: Seq<char>)
    ensures
        !lex_lt(a, a),
    decreases a.len(),
{
    if a.len() > 0 {
        lemma_lex_irreflexive(a.drop_first());
    }
}

pub proof fn lemma_lex_total(a: Seq<char>, b: Seq<char>)
    ensures
        a == b || lex_lt(a, b) || lex_lt(b, a),
        !(lex_lt(a, b) && lex_lt(b, a)),
    decreases a.len(),
{
    if a.len() > 0 && b.len() > 0 {
        if a[0] == b[0] {
            lemma_lex_total(a.drop_first(), b.drop_first());
            if a.drop_first() == b.drop_first() {
                assert(a =~= seq![a[0]] + a.drop_first());
                assert(b =~= seq![b[0]] + b.drop_first());
            }
        }
    } else if a.len() == 0 && b.len() == 0 {
        assert(a =~= b);
    }
}

pub proof fn lemma_lex_transitive(a: Seq<char>, b: Seq<char>, c: Seq<char>)
    requires
        lex_lt(a, b),
        lex_lt(b, c),
    ensures
        lex_lt(a, c),
    decreases a.len(),
{
    if a.len() > 0 && a[0] == b[0] && b[0] == c[0] {
        lemma_lex_transitive(a.drop_first(), b.drop_first(), c.drop_first());
    }
}

/// `a` with `x` added at its place in the order, unless `a` holds it.
pub open spec fn insert_sorted(a: Seq<Seq<char>>, x: Seq<char>) -> Seq<Seq<char>>
    decreases a.len(),
{
    if a.len() == 0 {
        seq![x]
    } else if lex_lt(a[0], x) {
        seq![a[0]] + insert_sorted(a.drop_first(), x)
    } else if a[0] == x {
        a
    } else {
        seq![x] + a
    }
}

/// `a` with the items of `b` added, each at its place in the order.
pub open spec fn insert_all(a: Seq<Seq<char>>, b: Seq<Seq<char>>) -> Seq<Seq<char>>
    decreases b.len(),
{
    if b.len() == 0 {
        a
    } else {
        insert_sorted(insert_all(a, b.drop_last()), b.last())
    }
}

pub proof fn lemma_insert_sorted(a: Seq<Seq<char>>, x: Seq<char>)
    requires
        ascending(a),
    ensures
        ascending(insert_sorted(a, x)),
        insert_sorted(a, x).to_set() == a.to_set().insert(x),
        insert_sorted(a, x).len() > 0,
        a.len() > 0 ==> insert_sorted(a, x)[0] == a[0] || insert_sorted(a, x)[0] == x,
    decreases a.len(),
{
    broadcast use vstd::seq_lib::group_seq_properties;
    let r = insert_sorted(a, x);
    if a.len() == 0 {
        assert(r.to_set() =~= a.to_set().insert(x));
    } else {
        let rest = a.drop_first();
        assert(a =~= seq![a[0]] + rest);
        assert(ascending(rest));
        if lex_lt(a[0], x) {
            lemma_insert_sorted(rest, x);
            let rr = insert_sorted(rest, x);
            assert forall|i: int, j: int| 0 <= i < j < r.len() implies lex_lt(#[trigger] r[i], #[trigger] r[j]) by {
                if i == 0 {
                    if rest.len() > 0 && rr[0] == rest[0] {
                        if j == 1 {
                        } else {
                            assert(lex_lt(a[0], rest[0]));
                            assert(rr[j - 1] == rr[j - 1]);
                            lemma_lex_transitive(a[0], rest[0], rr[j - 1]);
                        }
                    } else {
                        if j > 1 {
                            lemma_lex_transitive(a[0], rr[0], rr[j - 1]);
                        }
                    }
                }
            }
            assert(r =~= seq![a[0]] + rr);
            assert forall|y: Seq<char>| r.to_set().contains(y) <==> a.to_set().insert(x).contains(y) by {
                if r.contains(y) {
                    let k = choose|k: int| 0 <= k < r.len() && r[k] == y;
                    if k > 0 {
                        assert(rr.contains(y));
                        assert(rr.to_set().contains(y));
                        if y != x {
                            assert(rest.to_set().contains(y));
                            let m = choose|m: int| 0 <= m < rest.len() && rest[m] == y;
                            assert(a[m + 1] == y);
                        }
                    }
                }
                if a.contains(y) {
                    let k = choose|k: int| 0 <= k < a.len() && a[k] == y;
                    if k > 0 {
                        assert(rest[k - 1] == y);
                        assert(rest.to_set().contains(y));
                        assert(rr.to_set().contains(y));
                        let m = choose|m: int| 0 <= m < rr.len() && rr[m] == y;
                        assert(r[m + 1] == y);
                    } else {
                        assert(r[0] == y);
                    }
                }
                if y == x {
                    assert(rr.to_set().contains(x));
                    let m = choose|m: int| 0 <= m < rr.len() && rr[m] == x;
                    assert(r[m + 1] == x);
                }
            }
            assert(r.to_set() =~= a.to_set().insert(x));
        } else if a[0] == x {
            assert(a.to_set().contains(x));
            assert(r.to_set() =~= a.to_set().insert(x));
        } else {
            lemma_lex_total(a[0], x);
            assert forall|i: int, j: int| 0 <= i < j < r.len() implies lex_lt(#[trigger] r[i], #[trigger] r[j]) by {
                if i == 0 && j > 1 {
                    lemma_lex_transitive(x, a[0], a[j - 1]);
                }
            }
            assert(r.to_set() =~= a.to_set().insert(x));
        }
    }
}

pub proof fn lemma_insert_all(a: Seq<Seq<char>>, b: Seq<Seq<char>>)
    requires
        ascending(a),
    ensures
        ascending(insert_all(a, b)),
        insert_all(a, b).to_set() == a.to_set() + b.to_set(),
    decreases b.len(),
{
    broadcast use vstd::seq_lib::group_seq_properties;
    if b.len() > 0 {
        lemma_insert_all(a, b.drop_last());
        lemma_insert_sorted(insert_all(a, b.drop_last()), b.last());
        assert(b =~= b.drop_last().push(b.last()));
        b.drop_last().lemma_push_to_set_commute(b.last());
        assert(insert_all(a, b).to_set() =~= a.to_set() + b.to_set());
    } else {
        assert(b.to_set() =~= Set::empty());
        assert(insert_all(a, b).to_set() =~= a.to_set() + b.to_set());
    }
}

/// `insert_sorted` adds exactly `x`.
pub proof fn lemma_insert_sorted_set(a: Seq<Seq<char>>, x: Seq<char>)
    ensures
        insert_sorted(a, x).to_set() == a.to_set().insert(x),
    decreases a.len(),
{
    broadcast use vstd::seq_lib::group_seq_properties;
    let r = insert_sorted(a, x);
    if a.len() == 0 {
        assert(r.to_set() =~= a.to_set().insert(x));
    } else {
        let rest = a.drop_first();
        assert(a =~= seq![a[0]] + rest);
        if lex_lt(a[0], x) {
            lemma_insert_sorted_set(rest, x);
            let rr = insert_sorted(rest, x);
            assert(r =~= seq![a[0]] + rr);
            assert forall|y: Seq<char>| r.to_set().contains(y) <==> a.to_set().insert(x).contains(y) by {
                if r.contains(y) {
                    let k = choose|k: int| 0 <= k < r.len() && r[k] == y;
                    if k > 0 {
                        assert(rr.contains(y));
                        assert(rr.to_set().contains(y));
                        if y != x {
                            assert(rest.to_set().contains(y));
                            let m = choose|m: int| 0 <= m < rest.len() && rest[m] == y;
                            assert(a[m + 1] == y);
                        }
                    }
                }
                if a.contains(y) {
                    let k = choose|k: int| 0 <= k < a.len() && a[k] == y;
                    if k > 0 {
                        assert(rest[k - 1] == y);
                        assert(rest.to_set().contains(y));
                        assert(rr.to_set().contains(y));
                        let m = choose|m: int| 0 <= m < rr.len() && rr[m] == y;
                        assert(r[m + 1] == y);
                    } else {
                        assert(r[0] == y);
                    }
                }
                if y == x {
                    assert(rr.to_set().contains(x));
                    let m = choose|m: int| 0 <= m < rr.len() && rr[m] == x;
                    assert(r[m + 1] == x);
                }
            }
            assert(r.to_set() =~= a.to_set().insert(x));
        } else if a[0] == x {
            assert(a.to_set().contains(x));
            assert(r.to_set() =~= a.to_set().insert(x));
        } else {
            assert(r.to_set() =~= a.to_set().insert(x));
        }
    }
}

/// `insert_all` adds exactly the items of `b`.
pub proof fn lemma_insert_all_set(a: Seq<Seq<char>>, b: Seq<Seq<char>>)
    ensures
        insert_all(a, b).to_set() == a.to_set() + b.to_set(),
    decreases b.len(),
{
    broadcast use vstd::seq_lib::group_seq_properties;
    if b.len() > 0 {
        lemma_insert_all_set(a, b.drop_last());
        lemma_insert_sorted_set(insert_all(a, b.drop_last()), b.last());
        assert(b =~= b.drop_last().push(b.last()));
        b.drop_last().lemma_push_to_set_commute(b.last());
        assert(insert_all(a, b).to_set() =~= a.to_set() + b.to_set());
    } else {
        assert(b.to_set() =~= Set::empty());
        assert(insert_all(a, b).to_set() =~= a.to_set() + b.to_set());
    }
}

/// Two ascending lists with the same items are the same list.
pub proof fn lemma_ascending_unique(a: Seq<Seq<char>>, b: Seq<Seq<char>>)
    requires
        ascending(a),
        ascending(b),
        a.to_set() == b.to_set(),
    ensures
        a == b,
    decreases a.len(),
{
    broadcast use vstd::seq_lib::group_seq_properties;
    if a.len() == 0 {
        if b.len() > 0 {
            assert(b.to_set().contains(b[0]));
        }
    } else if b.len() == 0 {
        assert(a.to_set().contains(a[0]));
    } else {
        // The first items are the least of the common set.
        assert(b.to_set().contains(a[0]));
        assert(a.to_set().contains(b[0]));
        let i = choose|i: int| 0 <= i < b.len() && b[i] == a[0];
        let j = choose|j: int| 0 <= j < a.len() && a[j] == b[0];
        if a[0] != b[0] {
            assert(i > 0 && j > 0);
            assert(lex_lt(b[0], a[0]));
            assert(lex_lt(a[0], b[0]));
            lemma_lex_total(a[0], b[0]);
        }
        let ra = a.drop_first();
        let rb = b.drop_first();
        assert(ascending(ra));
        assert(ascending(rb));
        assert forall|y: Seq<char>| ra.to_set().contains(y) <==> rb.to_set().contains(y) by {
            if ra.to_set().contains(y) {
                let k = choose|k: int| 0 <= k < ra.len() && ra[k] == y;
                assert(a[k + 1] == y);
                assert(lex_lt(a[0], y));
                lemma_lex_irreflexive(y);
                assert(b.to_set().contains(y));
                let m = choose|m: int| 0 <= m < b.len() && b[m] == y;
                assert(m != 0);
                assert(rb[m - 1] == y);
            }
            if rb.to_set().contains(y) {
                let k = choose|k: int| 0 <= k < rb.len() && rb[k] == y;
                assert(b[k + 1] == y);
                assert(lex_lt(b[0], y));
                lemma_lex_irreflexive(y);
                assert(a.to_set().contains(y));
                let m = choose|m: int| 0 <= m < a.len() && a[m] == y;
                assert(m != 0);
                assert(ra[m - 1] == y);
            }
        }
        assert(ra.to_set() =~= rb.to_set());
        lemma_ascending_unique(ra, rb);
        assert(a =~= seq![a[0]] + ra);
        assert(b =~= seq![b[0]] + rb);
    }
}

/// Whether `a` comes before `b` by their characters.
pub fn str_lt(a: &str, b: &str) -> (r: bool)
    ensures
        r == lex_lt(a@, b@),
{
    let la = a.unicode_len();
    let lb = b.unicode_len();
    let mut i: usize = 0;
    assert(a@.skip(0) =~= a@);
    assert(b@.skip(0) =~= b@);
    while i < la && i < lb
        invariant
            la == a@.len(),
            lb == b@.len(),
            i <= la,
            i <= lb,
            lex_lt(a@, b@) == lex_lt(a@.skip(i as int), b@.skip(i as int)),
        decreases la - i,
    {
        let ca = a.get_char(i);
        let cb = b.get_char(i);
        let ghost sa = a@.skip(i as int);
        let ghost sb = b@.skip(i as int);
        assert(sa[0] == ca && sb[0] == cb);
        if ca != cb {
            return ca < cb;
        }
        assert(sa.drop_first() =~= a@.skip(i + 1));
        assert(sb.drop_first() =~= b@.skip(i + 1));
        i += 1;
    }
    i < lb
}

/// Adds `x` to the ascending list `v` at its place, unless `v` holds it.
pub fn insert_sorted_str(v: &mut Vec<String>, x: &String)
    ensures
        strs_view(final(v)@) == insert_sorted(strs_view(old(v)@), x@),
{
    let ghost a = strs_view(v@);
    let mut i: usize = 0;
    assert(a.skip(0) =~= a);
    assert(a.take(0) + a =~= a);
    while i < v.len() && str_lt(v[i].as_str(), x.as_str())
        invariant
            i <= v.len(),
            a == strs_view(v@),
            insert_sorted(a, x@) == a.take(i as int) + insert_sorted(a.skip(i as int), x@),
        decreases v.len() - i,
    {
        let ghost s = a.skip(i as int);
        assert(s[0] == a[i as int]);
        assert(s.drop_first() =~= a.skip(i + 1));
        assert(a.take(i + 1) =~= a.take(i as int) + seq![a[i as int]]);
        i += 1;
    }
    let ghost s = a.skip(i as int);
    if i < v.len() {
        assert(s[0] == a[i as int]);
        if v[i] == *x {
            assert(a.take(i as int) + s =~= a);
            return;
        }
    }
    v.insert(i, x.clone());
    assert(strs_view(v@) =~= a.take(i as int) + insert_sorted(s, x@));
}

/// Adds the strings of `extra` to the ascending list `v`, each at its place.
pub fn insert_all_str(v: &mut Vec<String>, extra: &Vec<String>)
    ensures
        strs_view(final(v)@) == insert_all(strs_view(old(v)@), strs_view(extra@)),
{
    let ghost a0 = strs_view(v@);
    let ghost e = strs_view(extra@);
    let mut i: usize = 0;
    while i < extra.len()
        invariant
            i <= extra.len(),
            e == strs_view(extra@),
            strs_view(v@) == insert_all(a0, e.take(i as int)),
        decreases extra.len() - i,
    {
        assert(e.take(i + 1).drop_last() =~= e.take(i as int));
        assert(e.take(i + 1).last() == extra@[i as int]@);
        insert_sorted_str(v, &extra[i]);
        i += 1;
    }
    assert(e.take(extra.len() as int) =~= e);
}

} // verus!
