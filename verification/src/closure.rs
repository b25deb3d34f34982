//! A finite set of expressions that contains a given expression and is
//! closed under partial derivatives: the reason why the sets of partial
//! derivatives met while matching stay finite.

use vstd::prelude::*;
use crate::term::{Term, smart_cat, smart_cats};
use crate::lang::{is_nullable, pd, pd_cats, cat_each, cats_each, reach, over, pd_alpha, pd_word, letters_of, lemma_pd_word_within};

verus! {

/// A list of expressions that contains `t` and every partial derivative of
/// each of its elements.
pub open spec fn clos(t: Term) -> Seq<Term>
    decreases t,
{
    match t {
        Term::Eps => seq![t],
        Term::Lit(_) => seq![t, Term::Eps],
        Term::Cat(a, b) => seq![t] + clos(*a).map_values(|x: Term| smart_cat(x, *b)) + clos(*b),
        Term::Cats(s) => clos_cats(s),
        Term::Alt(a, b) => seq![t] + clos(*a) + clos(*b),
        Term::Star(a) => seq![t] + clos(*a).map_values(|x: Term| smart_cat(x, t)),
    }
}

/// The list of `clos` for the n-ary concatenation of `s`.
pub open spec fn clos_cats(s: Seq<Term>) -> Seq<Term>
    decreases s,
{
    if s.len() == 0 {
        seq![Term::Cats(s)]
    } else if s.len() == 1 {
        seq![Term::Cats(s)] + clos(s[0])
    } else {
        seq![Term::Cats(s)] + clos(s[0]).map_values(|x: Term| smart_cats(x, Term::Cats(s.drop_first())))
            + clos_cats(s.drop_first())
    }
}

/// Every partial derivative of every element of `set` lies in `set`.
pub open spec fn pd_closed(set: Set<Term>) -> bool {
    forall|c: char, x: Term, y: Term| set.contains(x) && #[trigger] pd(c, x).contains(y) ==> set.contains(y)
}

/// `smart_cats` is associative on non-empty concatenations.
proof fn lemma_smart_cats_assoc(y: Term, lt: Seq<Term>, rest: Seq<Term>)
    requires
        lt.len() > 0,
        rest.len() > 0,
    ensures
        smart_cats(smart_cats(y, Term::Cats(lt)), Term::Cats(rest)) == smart_cats(y, Term::Cats(lt + rest)),
{
    match y {
        Term::Eps => {},
        Term::Cats(ys) => {
            assert(ys + lt + rest =~= ys + (lt + rest));
        },
        _ => {
            assert(seq![y] + lt + rest =~= seq![y] + (lt + rest));
        },
    }
}

/// The derivatives of a concatenation of two non-empty lists come from the
/// derivatives of the first list followed by the second, or from those of
/// the second.
proof fn lemma_pd_cats_append(c: char, ls: Seq<Term>, rest: Seq<Term>, y: Term)
    requires
        ls.len() > 0,
        rest.len() > 0,
        pd_cats(c, ls + rest).contains(y),
    ensures
        cats_each(pd_cats(c, ls), Term::Cats(rest)).contains(y) || pd_cats(c, rest).contains(y),
    decreases ls.len(),
{
    let s = ls + rest;
    assert(s[0] == ls[0]);
    if ls.len() == 1 {
        assert(s.drop_first() =~= rest);
    } else {
        let lt = ls.drop_first();
        assert(s.drop_first() =~= lt + rest);
        if cats_each(pd(c, ls[0]), Term::Cats(lt + rest)).contains(y) {
            let z = choose|z: Term| pd(c, ls[0]).contains(z) && smart_cats(z, Term::Cats(lt + rest)) == y;
            lemma_smart_cats_assoc(z, lt, rest);
            let m = smart_cats(z, Term::Cats(lt));
            assert(cats_each(pd(c, ls[0]), Term::Cats(lt)).contains(m));
            assert(pd_cats(c, ls).contains(m));
            assert(smart_cats(m, Term::Cats(rest)) == y);
        } else {
            assert(is_nullable(ls[0]) && pd_cats(c, lt + rest).contains(y));
            lemma_pd_cats_append(c, lt, rest, y);
            if cats_each(pd_cats(c, lt), Term::Cats(rest)).contains(y) {
                let z = choose|z: Term| pd_cats(c, lt).contains(z) && smart_cats(z, Term::Cats(rest)) == y;
                assert(pd_cats(c, ls).contains(z));
            }
        }
    }
}

/// The derivatives of `smart_cats(x, rest)`.
pub proof fn lemma_pd_smart_cats(c: char, x: Term, rest: Seq<Term>, y: Term)
    requires
        rest.len() > 0,
        pd(c, smart_cats(x, Term::Cats(rest))).contains(y),
    ensures
        cats_each(pd(c, x), Term::Cats(rest)).contains(y) || pd_cats(c, rest).contains(y),
{
    match x {
        Term::Eps => {
            assert(pd(c, Term::Cats(rest)) == pd_cats(c, rest));
        },
        Term::Cats(ls) => {
            assert(pd(c, Term::Cats(rest)) == pd_cats(c, rest));
            assert(pd(c, Term::Cats(ls + rest)) == pd_cats(c, ls + rest));
            if ls.len() == 0 {
                assert(ls + rest =~= rest);
            } else {
                lemma_pd_cats_append(c, ls, rest, y);
            }
        },
        _ => {
            let s = seq![x] + rest;
            assert(s[0] == x);
            assert(s.drop_first() =~= rest);
            assert(smart_cats(x, Term::Cats(rest)) == Term::Cats(s));
            assert(pd(c, Term::Cats(s)) == pd_cats(c, s));
            assert(pd(c, Term::Cats(rest)) == pd_cats(c, rest));
        },
    }
}

/// The derivatives of `smart_cat(x, b)`.
pub proof fn lemma_pd_smart_cat(c: char, x: Term, b: Term, y: Term)
    requires
        pd(c, smart_cat(x, b)).contains(y),
    ensures
        cat_each(pd(c, x), b).contains(y) || pd(c, b).contains(y),
{
    if x is Eps {
    } else if b is Eps {
        assert(smart_cat(y, b) == y);
    }
}

proof fn lemma_map_contains(s: Seq<Term>, f: spec_fn(Term) -> Term, x: Term)
    requires
        s.contains(x),
    ensures
        s.map_values(f).contains(f(x)),
{
    let k = choose|k: int| 0 <= k < s.len() && s[k] == x;
    assert(s.map_values(f)[k] == f(x));
}

proof fn lemma_found_in_map(l: Seq<Term>, f: spec_fn(Term) -> Term, u: Term, y: Term)
    requires
        l.to_set().contains(u),
        f(u) == y,
    ensures
        l.map_values(f).contains(y),
{
    let k = choose|k: int| 0 <= k < l.len() && l[k] == u;
    assert(l.map_values(f)[k] == y);
}

/// `clos(t)` contains `t` and is closed under partial derivatives.
pub proof fn lemma_clos(t: Term)
    ensures
        clos(t).contains(t),
        pd_closed(clos(t).to_set()),
    decreases t,
{
    let cl = clos(t);
    match t {
        Term::Eps => {
            assert(cl[0] == t);
            assert forall|c: char, x: Term, y: Term| cl.to_set().contains(x) && #[trigger] pd(c, x).contains(y)
                implies cl.to_set().contains(y) by {
                let k = choose|k: int| 0 <= k < cl.len() && cl[k] == x;
            }
        },
        Term::Lit(d) => {
            assert(cl[0] == t);
            assert forall|c: char, x: Term, y: Term| cl.to_set().contains(x) && #[trigger] pd(c, x).contains(y)
                implies cl.to_set().contains(y) by {
                let k = choose|k: int| 0 <= k < cl.len() && cl[k] == x;
                assert(cl[1] == Term::Eps);
            }
        },
        Term::Cat(a, b) => {
            assert(cl[0] == t);
            lemma_clos(*a);
            lemma_clos(*b);
            let f = |x: Term| smart_cat(x, *b);
            let ma = clos(*a).map_values(f);
            assert(cl =~= seq![t] + ma + clos(*b));
            assert forall|c: char, x: Term, y: Term| cl.to_set().contains(x) && #[trigger] pd(c, x).contains(y)
                implies cl.to_set().contains(y) by {
                let k = choose|k: int| 0 <= k < cl.len() && cl[k] == x;
                if k == 0 {
                    if cat_each(pd(c, *a), *b).contains(y) {
                        let z = choose|z: Term| pd(c, *a).contains(z) && smart_cat(z, *b) == y;
                        assert(clos(*a).to_set().contains(z));
                        lemma_map_contains(clos(*a), f, z);
                        let j = choose|j: int| 0 <= j < ma.len() && ma[j] == y;
                        assert(cl[1 + j] == y);
                    } else {
                        assert(pd(c, *b).contains(y));
                        assert(clos(*b).to_set().contains(*b));
                        assert(clos(*b).to_set().contains(y));
                        let j = choose|j: int| 0 <= j < clos(*b).len() && clos(*b)[j] == y;
                        assert(cl[1 + ma.len() + j] == y);
                    }
                } else if k < 1 + ma.len() {
                    let z = clos(*a)[k - 1];
                    assert(x == smart_cat(z, *b));
                    lemma_pd_smart_cat(c, z, *b, y);
                    if cat_each(pd(c, z), *b).contains(y) {
                        let u = choose|u: Term| pd(c, z).contains(u) && smart_cat(u, *b) == y;
                        assert(clos(*a).to_set().contains(z));
                        assert(clos(*a).to_set().contains(u));
                        lemma_map_contains(clos(*a), f, u);
                        let j = choose|j: int| 0 <= j < ma.len() && ma[j] == y;
                        assert(cl[1 + j] == y);
                    } else {
                        assert(clos(*b).to_set().contains(*b));
                        assert(clos(*b).to_set().contains(y));
                        let j = choose|j: int| 0 <= j < clos(*b).len() && clos(*b)[j] == y;
                        assert(cl[1 + ma.len() + j] == y);
                    }
                } else {
                    let z = clos(*b)[k - 1 - ma.len()];
                    assert(clos(*b).to_set().contains(z));
                    assert(clos(*b).to_set().contains(y));
                    let j = choose|j: int| 0 <= j < clos(*b).len() && clos(*b)[j] == y;
                    assert(cl[1 + ma.len() + j] == y);
                }
            }
        },
        Term::Cats(s) => {
            lemma_clos_cats(s);
        },
        Term::Alt(a, b) => {
            assert(cl[0] == t);
            lemma_clos(*a);
            lemma_clos(*b);
            let la = clos(*a);
            let lb = clos(*b);
            assert forall|c: char, x: Term, y: Term| cl.to_set().contains(x) && #[trigger] pd(c, x).contains(y)
                implies cl.to_set().contains(y) by {
                let k = choose|k: int| 0 <= k < cl.len() && cl[k] == x;
                if k == 0 {
                    if pd(c, *a).contains(y) {
                        assert(pd(c, *a).contains(y));
                        assert(la.to_set().contains(*a));
                        assert(la.to_set().contains(y));
                        let j = choose|j: int| 0 <= j < la.len() && la[j] == y;
                        assert(cl[1 + j] == y);
                    } else {
                        assert(pd(c, *b).contains(y));
                        assert(lb.to_set().contains(*b));
                        assert(lb.to_set().contains(y));
                        let j = choose|j: int| 0 <= j < lb.len() && lb[j] == y;
                        assert(cl[1 + la.len() + j] == y);
                    }
                } else if k < 1 + la.len() {
                    assert(la.to_set().contains(la[k - 1]));
                    assert(la.to_set().contains(y));
                    let j = choose|j: int| 0 <= j < la.len() && la[j] == y;
                    assert(cl[1 + j] == y);
                } else {
                    assert(lb.to_set().contains(lb[k - 1 - la.len()]));
                    assert(lb.to_set().contains(y));
                    let j = choose|j: int| 0 <= j < lb.len() && lb[j] == y;
                    assert(cl[1 + la.len() + j] == y);
                }
            }
        },
        Term::Star(a) => {
            assert(cl[0] == t);
            lemma_clos(*a);
            let f = |x: Term| smart_cat(x, t);
            let ma = clos(*a).map_values(f);
            assert(cl =~= seq![t] + ma);
            assert forall|c: char, x: Term, y: Term| cl.to_set().contains(x) && #[trigger] pd(c, x).contains(y)
                implies cl.to_set().contains(y) by {
                let k = choose|k: int| 0 <= k < cl.len() && cl[k] == x;
                if k == 0 {
                    let u = choose|u: Term| pd(c, *a).contains(u) && smart_cat(u, t) == y;
                    assert(clos(*a).to_set().contains(*a));
                    lemma_found_in_map(clos(*a), f, u, y);
                } else {
                    let z = clos(*a)[k - 1];
                    assert(x == smart_cat(z, t));
                    lemma_pd_smart_cat(c, z, t, y);
                    if cat_each(pd(c, z), t).contains(y) {
                        let u = choose|u: Term| pd(c, z).contains(u) && smart_cat(u, t) == y;
                        assert(clos(*a).to_set().contains(z));
                        lemma_found_in_map(clos(*a), f, u, y);
                    } else {
                        let u = choose|u: Term| pd(c, *a).contains(u) && smart_cat(u, t) == y;
                        assert(clos(*a).to_set().contains(*a));
                        lemma_found_in_map(clos(*a), f, u, y);
                    }
                }
                let j = choose|j: int| 0 <= j < ma.len() && ma[j] == y;
                assert(cl[1 + j] == y);
            }
        },
    }
}

pub proof fn lemma_clos_cats(s: Seq<Term>)
    ensures
        clos_cats(s).contains(Term::Cats(s)),
        pd_closed(clos_cats(s).to_set()),
    decreases s,
{
    let t = Term::Cats(s);
    let cl = clos_cats(s);
    assert(cl[0] == t);
    assert forall|c: char| #[trigger] pd(c, t) == pd_cats(c, s) by {}
    if s.len() == 0 {
        assert forall|c: char, x: Term, y: Term| cl.to_set().contains(x) && #[trigger] pd(c, x).contains(y)
            implies cl.to_set().contains(y) by {
            let k = choose|k: int| 0 <= k < cl.len() && cl[k] == x;
        }
    } else if s.len() == 1 {
        lemma_clos(s[0]);
        let l0 = clos(s[0]);
        assert forall|c: char, x: Term, y: Term| cl.to_set().contains(x) && #[trigger] pd(c, x).contains(y)
            implies cl.to_set().contains(y) by {
            let k = choose|k: int| 0 <= k < cl.len() && cl[k] == x;
            if k == 0 {
                assert(pd(c, s[0]).contains(y));
                assert(l0.to_set().contains(s[0]));
            } else {
                assert(l0.to_set().contains(l0[k - 1]));
            }
            assert(l0.to_set().contains(y));
            let j = choose|j: int| 0 <= j < l0.len() && l0[j] == y;
            assert(cl[1 + j] == y);
        }
    } else {
        let rest = s.drop_first();
        lemma_clos(s[0]);
        lemma_clos_cats(rest);
        let f = |x: Term| smart_cats(x, Term::Cats(rest));
        let l0 = clos(s[0]);
        let ma = l0.map_values(f);
        let lr = clos_cats(rest);
        assert(cl =~= seq![t] + ma + lr);
        assert forall|c: char, x: Term, y: Term| cl.to_set().contains(x) && #[trigger] pd(c, x).contains(y)
            implies cl.to_set().contains(y) by {
            let k = choose|k: int| 0 <= k < cl.len() && cl[k] == x;
            if k == 0 {
                if cats_each(pd(c, s[0]), Term::Cats(rest)).contains(y) {
                    let u = choose|u: Term| pd(c, s[0]).contains(u) && smart_cats(u, Term::Cats(rest)) == y;
                    assert(l0.to_set().contains(s[0]));
                    lemma_found_in_map(l0, f, u, y);
                } else {
                    assert(pd(c, Term::Cats(rest)) == pd_cats(c, rest));
                    assert(pd(c, Term::Cats(rest)).contains(y));
                    assert(lr.to_set().contains(Term::Cats(rest)));
                }
            } else if k < 1 + ma.len() {
                let z = l0[k - 1];
                assert(x == smart_cats(z, Term::Cats(rest)));
                lemma_pd_smart_cats(c, z, rest, y);
                if cats_each(pd(c, z), Term::Cats(rest)).contains(y) {
                    let u = choose|u: Term| pd(c, z).contains(u) && smart_cats(u, Term::Cats(rest)) == y;
                    assert(l0.to_set().contains(z));
                    lemma_found_in_map(l0, f, u, y);
                } else {
                    assert(pd(c, Term::Cats(rest)) == pd_cats(c, rest));
                    assert(pd(c, Term::Cats(rest)).contains(y));
                    assert(lr.to_set().contains(Term::Cats(rest)));
                }
            } else {
                assert(lr.to_set().contains(lr[k - 1 - ma.len()]));
            }
            if ma.contains(y) {
                let j = choose|j: int| 0 <= j < ma.len() && ma[j] == y;
                assert(cl[1 + j] == y);
            } else {
                assert(lr.to_set().contains(y));
                let j = choose|j: int| 0 <= j < lr.len() && lr[j] == y;
                assert(cl[1 + ma.len() + j] == y);
            }
        }
    }
}

/// All subsets of `c`.
pub open spec fn subsets(c: Set<Term>) -> Set<Set<Term>> {
    Set::new(|x: Set<Term>| x <= c)
}

/// A finite set has finitely many subsets.
pub proof fn lemma_subsets_finite(c: Set<Term>)
    requires
        c.finite(),
    ensures
        subsets(c).finite(),
    decreases c.len(),
{
    if c.len() == 0 {
        assert(c =~= Set::<Term>::empty());
        assert(subsets(c) =~= set![Set::<Term>::empty()]) by {
            assert forall|x: Set<Term>| #[trigger] subsets(c).contains(x) implies x == Set::<Term>::empty() by {
                assert(x =~= Set::<Term>::empty());
            }
        }
    } else {
        let a = c.choose();
        assert(c.contains(a));
        let c1 = c.remove(a);
        lemma_subsets_finite(c1);
        let f = |x: Set<Term>| x.insert(a);
        subsets(c1).lemma_map_finite(f);
        assert forall|x: Set<Term>| #[trigger] subsets(c).contains(x) implies (subsets(c1) + subsets(c1).map(f)).contains(x) by {
            if x.contains(a) {
                let y = x.remove(a);
                assert(subsets(c1).contains(y));
                assert(x =~= y.insert(a));
                assert(subsets(c1).map(f).contains(f(y)));
            } else {
                assert(subsets(c1).contains(x));
            }
        }
        assert(subsets(c) <= subsets(c1) + subsets(c1).map(f));
        vstd::set_lib::lemma_set_subset_finite(subsets(c1) + subsets(c1).map(f), subsets(c));
    }
}

/// The descendants of `t` lie in `clos(t)`, so there are finitely many
/// (Antimirov).
pub proof fn lemma_reach_finite(t: Term)
    ensures
        reach(t) <= clos(t).to_set(),
        reach(t).finite(),
{
    let cl = clos(t).to_set();
    lemma_clos(t);
    assert(cl.contains(t));
    assert forall|y: Term| #[trigger] pd_alpha(letters_of(t), cl).contains(y) implies cl.contains(y) by {
        let (c, x) = choose|c: char, x: Term| letters_of(t).contains(c) && cl.contains(x) && #[trigger] pd(c, x).contains(y);
    }
    assert forall|x: Term| #[trigger] reach(t).contains(x) implies cl.contains(x) by {
        let w = choose|w: Seq<char>| over(w, letters_of(t)) && #[trigger] pd_word(w, set![t]).contains(x);
        lemma_pd_word_within(w, letters_of(t), t, cl);
    }
    vstd::seq_lib::seq_to_set_is_finite(clos(t));
    vstd::set_lib::lemma_set_subset_finite(cl, reach(t));
}

} // verus!
