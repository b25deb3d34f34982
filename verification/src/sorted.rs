//! Finite sets of regexes, kept as strictly increasing vectors.

use vstd::prelude::*;
use crate::term::{Term, term_lt, strictly_sorted, lists, lemma_order_basic, lemma_order_trans};
use crate::regex::{R, term_of, terms_of, lemma_terms_of, lemma_terms_of_add, compare};

verus! {

/// Two strictly increasing sequences with the same elements are equal: the
/// listing of a set is unique.
pub proof fn lemma_lists_unique(s1: Seq<Term>, s2: Seq<Term>)
    requires
        strictly_sorted(s1),
        strictly_sorted(s2),
        s1.to_set() == s2.to_set(),
    ensures
        s1 == s2,
    decreases s1.len(),
{
    if s1.len() == 0 {
        if s2.len() > 0 {
            assert(s1.to_set().contains(s2[0]));
        }
        assert(s1 =~= s2);
    } else {
        assert(s1.to_set().contains(s1[0]));
        assert(s2.to_set().contains(s1[0]));
        let k = choose|k: int| 0 <= k < s2.len() && s2[k] == s1[0];
        assert(s2.to_set().contains(s2[0]));
        let m = choose|m: int| 0 <= m < s1.len() && s1[m] == s2[0];
        if k > 0 {
            assert(term_lt(s2[0], s2[k]));
            if m > 0 {
                assert(term_lt(s1[0], s1[m]));
                lemma_order_basic(s1[0], s1[m]);
            } else {
                lemma_order_basic(s2[0], s2[k]);
            }
        }
        assert(s1[0] == s2[0]);
        let t1 = s1.drop_first();
        let t2 = s2.drop_first();
        assert forall|x: Term| t1.to_set().contains(x) implies t2.to_set().contains(x) by {
            let i = choose|i: int| 0 <= i < t1.len() && t1[i] == x;
            assert(s1[i + 1] == x);
            assert(s1.to_set().contains(x));
            let j = choose|j: int| 0 <= j < s2.len() && s2[j] == x;
            if j == 0 {
                assert(term_lt(s1[0], s1[i + 1]));
                lemma_order_basic(s1[0], s1[i + 1]);
            }
            assert(t2[j - 1] == x);
        }
        assert forall|x: Term| t2.to_set().contains(x) implies t1.to_set().contains(x) by {
            let i = choose|i: int| 0 <= i < t2.len() && t2[i] == x;
            assert(s2[i + 1] == x);
            assert(s2.to_set().contains(x));
            let j = choose|j: int| 0 <= j < s1.len() && s1[j] == x;
            if j == 0 {
                assert(term_lt(s2[0], s2[i + 1]));
                lemma_order_basic(s2[0], s2[i + 1]);
            }
            assert(t1[j - 1] == x);
        }
        assert(t1.to_set() =~= t2.to_set());
        lemma_lists_unique(t1, t2);
        assert(s1 =~= seq![s1[0]] + t1);
        assert(s2 =~= seq![s2[0]] + t2);
    }
}

/// Adds `x` to the strictly increasing vector `v`, at its place, unless an
/// equal regex is there already.
pub fn insert_sorted(v: &mut Vec<R>, x: R)
    requires
        strictly_sorted(terms_of(old(v)@)),
    ensures
        strictly_sorted(terms_of(final(v)@)),
        terms_of(final(v)@).to_set() == terms_of(old(v)@).to_set().insert(x@),
{
    let ghost t = terms_of(v@);
    proof {
        lemma_terms_of(v@);
    }
    let mut i: usize = 0;
    while i < v.len() && compare(&v[i], &x) < 0
        invariant
            i <= v.len(),
            t == terms_of(v@),
            t.len() == v@.len(),
            forall|k: int| 0 <= k < v@.len() ==> #[trigger] t[k] == term_of(v@[k]),
            forall|k: int| 0 <= k < i ==> term_lt(#[trigger] t[k], x@),
        decreases v.len() - i,
    {
        i = i + 1;
    }
    if i < v.len() && compare(&v[i], &x) == 0 {
        proof {
            lemma_order_basic(t[i as int], x@);
            assert(t.to_set().contains(t[i as int]));
            assert(t.to_set().insert(x@) =~= t.to_set());
        }
        return;
    }
    proof {
        if i < v.len() {
            lemma_order_basic(t[i as int], x@);
        }
    }
    let ghost xt = x@;
    v.insert(i, x);
    proof {
        lemma_terms_of(v@);
        let u = terms_of(v@);
        assert(u =~= t.insert(i as int, xt));
        assert forall|a: int, b: int| 0 <= a < b < u.len() implies term_lt(#[trigger] u[a], #[trigger] u[b]) by {
            if b < i {
            } else if a < i && b == i {
            } else if a < i {
                assert(term_lt(t[a], xt));
                if b - 1 > i {
                    lemma_order_trans(xt, t[i as int], t[b - 1]);
                }
                lemma_order_trans(t[a], xt, t[b - 1]);
            } else if a == i {
                if b - 1 > i {
                    lemma_order_trans(xt, t[i as int], t[b - 1]);
                }
            } else {
            }
        }
        assert forall|y: Term| #[trigger] u.to_set().contains(y) <==> t.to_set().insert(xt).contains(y) by {
            if u.to_set().contains(y) {
                let k = choose|k: int| 0 <= k < u.len() && u[k] == y;
                if k < i {
                    assert(t[k] == y);
                } else if k > i {
                    assert(t[k - 1] == y);
                }
            }
            if t.to_set().contains(y) {
                let k = choose|k: int| 0 <= k < t.len() && t[k] == y;
                if k < i {
                    assert(u[k] == y);
                } else {
                    assert(u[k + 1] == y);
                }
            }
            if y == xt {
                assert(u[i as int] == y);
            }
        }
        assert(u.to_set() =~= t.to_set().insert(xt));
    }
}

/// The elements of `v` in increasing order, each once: an insertion sort
/// that drops repeats, comparing with `compare`, which follows the derived
/// order of `R` (so the result is what a sort and dedup of `v` give).
pub fn sort_dedup(v: Vec<R>) -> (res: Vec<R>)
    ensures
        lists(terms_of(res@), terms_of(v@).to_set()),
{
    let ghost t = terms_of(v@);
    proof {
        lemma_terms_of(v@);
    }
    let mut v = v;
    let mut res: Vec<R> = Vec::new();
    proof {
        assert(terms_of(res@) =~= Seq::<Term>::empty());
        assert(terms_of(res@).to_set() =~= Set::<Term>::empty());
    }
    while v.len() > 0
        invariant
            v@.len() <= t.len(),
            forall|k: int| 0 <= k < v@.len() ==> #[trigger] term_of(v@[k]) == t[k],
            strictly_sorted(terms_of(res@)),
            terms_of(res@).to_set() == t.subrange(v@.len() as int, t.len() as int).to_set(),
        decreases v.len(),
    {
        let ghost n = v@.len();
        let x = v.pop().unwrap();
        insert_sorted(&mut res, x);
        proof {
            let a = t.subrange(n - 1, t.len() as int);
            let b = t.subrange(n as int, t.len() as int);
            assert forall|y: Term| a.to_set().contains(y) implies b.to_set().insert(t[n - 1]).contains(y) by {
                let k = choose|k: int| 0 <= k < a.len() && #[trigger] a[k] == y;
                if k > 0 {
                    assert(b[k - 1] == y);
                }
            }
            assert forall|y: Term| b.to_set().insert(t[n - 1]).contains(y) implies a.to_set().contains(y) by {
                if y == t[n - 1] {
                    assert(a[0] == y);
                } else {
                    let k = choose|k: int| 0 <= k < b.len() && #[trigger] b[k] == y;
                    assert(a[k + 1] == y);
                }
            }
            assert(a.to_set() =~= b.to_set().insert(t[n - 1]));
        }
    }
    proof {
        assert(t.subrange(0, t.len() as int) =~= t);
    }
    res
}

/// Appends `b` to `a`; the elements of the result are those of both.
pub fn union(a: Vec<R>, b: Vec<R>) -> (res: Vec<R>)
    ensures
        terms_of(res@).to_set() == terms_of(a@).to_set() + terms_of(b@).to_set(),
{
    let mut a = a;
    let mut b = b;
    let ghost a0 = a@;
    let ghost b0 = b@;
    a.append(&mut b);
    proof {
        lemma_terms_of_add(a0, b0);
        vstd::seq_lib::seq_to_set_distributes_over_add(terms_of(a0), terms_of(b0));
    }
    a
}

/// The characters are strictly increasing.
pub open spec fn chars_increasing(s: Seq<char>) -> bool {
    forall|i: int, j: int| 0 <= i < j < s.len() ==> #[trigger] s[i] < #[trigger] s[j]
}

/// Adds `c` to the strictly increasing vector `v`, at its place, unless it
/// is there already.
fn insert_char(v: &mut Vec<char>, c: char)
    requires
        chars_increasing(old(v)@),
    ensures
        chars_increasing(final(v)@),
        final(v)@.to_set() == old(v)@.to_set().insert(c),
{
    let ghost t = v@;
    let mut i: usize = 0;
    while i < v.len() && v[i] < c
        invariant
            i <= v.len(),
            t == v@,
            forall|k: int| 0 <= k < i ==> #[trigger] t[k] < c,
        decreases v.len() - i,
    {
        i = i + 1;
    }
    if i < v.len() && v[i] == c {
        proof {
            assert(t.to_set().contains(t[i as int]));
            assert(t.to_set().insert(c) =~= t.to_set());
        }
        return;
    }
    v.insert(i, c);
    proof {
        let u = v@;
        assert(u =~= t.insert(i as int, c));
        assert forall|y: char| #[trigger] u.to_set().contains(y) <==> t.to_set().insert(c).contains(y) by {
            if u.to_set().contains(y) {
                let k = choose|k: int| 0 <= k < u.len() && u[k] == y;
                if k < i {
                    assert(t[k] == y);
                } else if k > i {
                    assert(t[k - 1] == y);
                }
            }
            if t.to_set().contains(y) {
                let k = choose|k: int| 0 <= k < t.len() && t[k] == y;
                if k < i {
                    assert(u[k] == y);
                } else {
                    assert(u[k + 1] == y);
                }
            }
            if y == c {
                assert(u[i as int] == y);
            }
        }
        assert(u.to_set() =~= t.to_set().insert(c));
    }
}

/// The characters of `v` in increasing order, each once.
pub fn sort_dedup_chars(v: Vec<char>) -> (res: Vec<char>)
    ensures
        chars_increasing(res@),
        res@.to_set() == v@.to_set(),
{
    let mut res: Vec<char> = Vec::new();
    let mut i: usize = 0;
    proof {
        assert(res@.to_set() =~= v@.take(0).to_set());
    }
    while i < v.len()
        invariant
            i <= v.len(),
            chars_increasing(res@),
            res@.to_set() == v@.take(i as int).to_set(),
        decreases v.len() - i,
    {
        insert_char(&mut res, v[i]);
        proof {
            assert(v@.take(i + 1) =~= v@.take(i as int).push(v@[i as int]));
            v@.take(i as int).lemma_push_to_set_commute(v@[i as int]);
        }
        i = i + 1;
    }
    proof {
        assert(v@.take(v.len() as int) =~= v@);
    }
    res
}

} // verus!
