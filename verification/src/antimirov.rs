//! Antimirov's subterm property: every descendant of a normalized
//! expression, normalized, is built from subterms of the expression.

use vstd::prelude::*;
use crate::term::{Term, smart_cat, smart_cats};
use crate::lang::{pd, pd_cats, cat, cat_each, cats_each, reach, over, pd_alpha, pd_word, letters_of, lemma_pd_word_within};
use crate::closure::{lemma_pd_smart_cat, lemma_pd_smart_cats};
use crate::normal::{subterms, strict_subterms, subterms_list, lemma_subterms_list_append, lemma_subterms_list_single, normal_form, to_cats, to_cats_list, flatten, flatten_list, splice, shape_allowed, shape_ok, lemma_to_cats_list, lemma_flatten_list_append, lemma_flatten_list_single, lemma_normal_form_idempotent};

verus! {

/// `x` is a subterm of `r`.
pub open spec fn in_sub(x: Term, r: Term) -> bool {
    subterms(r).contains(x)
}

/// Every element of `s` is a subterm of `r`.
pub open spec fn all_in_sub(s: Seq<Term>, r: Term) -> bool {
    forall|i: int| 0 <= i < s.len() ==> in_sub(#[trigger] s[i], r)
}

/// The elements that the normal form of each of `xs` contributes to an
/// n-ary concatenation.
pub open spec fn nf_list(xs: Seq<Term>) -> Seq<Term> {
    flatten_list(to_cats_list(xs))
}

/// `x` is `Eps`, or its normal form is a subterm of `r` or a concatenation
/// of subterms of `r`.
pub open spec fn built_from(x: Term, r: Term) -> bool {
    x == Term::Eps || all_in_sub(splice(normal_form(x)), r)
}

proof fn lemma_subterms_list_contains(xs: Seq<Term>, i: int, v: Term)
    requires
        0 <= i < xs.len(),
        subterms(xs[i]).contains(v),
    ensures
        subterms_list(xs).contains(v),
    decreases xs.len(),
{
    let k = choose|k: int| 0 <= k < subterms(xs[i]).len() && subterms(xs[i])[k] == v;
    if i == 0 {
        assert(subterms_list(xs)[k] == v);
    } else {
        lemma_subterms_list_contains(xs.drop_first(), i - 1, v);
        let j = choose|j: int| 0 <= j < subterms_list(xs.drop_first()).len() && subterms_list(xs.drop_first())[j] == v;
        assert(subterms_list(xs)[subterms(xs[0]).len() + j] == v);
    }
}

proof fn lemma_subterms_list_member(xs: Seq<Term>, v: Term)
    requires
        subterms_list(xs).contains(v),
    ensures
        exists|i: int| 0 <= i < xs.len() && #[trigger] subterms(xs[i]).contains(v),
    decreases xs.len(),
{
    let k = choose|k: int| 0 <= k < subterms_list(xs).len() && subterms_list(xs)[k] == v;
    if xs.len() > 0 {
        if k < subterms(xs[0]).len() {
            assert(subterms(xs[0])[k] == v);
            assert(subterms(xs[0]).contains(v));
        } else {
            assert(subterms_list(xs.drop_first())[k - subterms(xs[0]).len()] == v);
            lemma_subterms_list_member(xs.drop_first(), v);
            let i = choose|i: int| 0 <= i < xs.drop_first().len() && #[trigger] subterms(xs.drop_first()[i]).contains(v);
            assert(xs.drop_first()[i] == xs[i + 1]);
            assert(subterms(xs[i + 1]).contains(v));
        }
    }
}

/// A subterm of a subterm is a subterm.
pub proof fn lemma_subterms_trans(u: Term, t: Term, v: Term)
    requires
        subterms(u).contains(t),
        subterms(t).contains(v),
    ensures
        subterms(u).contains(v),
    decreases u,
{
    if t != u {
        let k = choose|k: int| 0 <= k < subterms(u).len() && subterms(u)[k] == t;
        assert(k > 0);
        assert(strict_subterms(u)[k - 1] == t);
        assert(strict_subterms(u).contains(t));
        let inner: Term;
        match u {
            Term::Cat(a, b) => {
                lemma_subterms_in_pair(*a, *b, t);
                if subterms(*a).contains(t) {
                    lemma_subterms_trans(*a, t, v);
                    lemma_subterms_in_pair_rev(*a, *b, v);
                } else {
                    lemma_subterms_trans(*b, t, v);
                    lemma_subterms_in_pair_rev(*a, *b, v);
                }
            },
            Term::Alt(a, b) => {
                lemma_subterms_in_pair(*a, *b, t);
                if subterms(*a).contains(t) {
                    lemma_subterms_trans(*a, t, v);
                    lemma_subterms_in_pair_rev(*a, *b, v);
                } else {
                    lemma_subterms_trans(*b, t, v);
                    lemma_subterms_in_pair_rev(*a, *b, v);
                }
            },
            Term::Star(a) => {
                lemma_subterms_trans(*a, t, v);
                let j = choose|j: int| 0 <= j < subterms(*a).len() && subterms(*a)[j] == v;
                assert(subterms(u)[1 + j] == v);
            },
            Term::Cats(xs) => {
                lemma_subterms_list_member(xs, t);
                let i = choose|i: int| 0 <= i < xs.len() && #[trigger] subterms(xs[i]).contains(t);
                lemma_subterms_trans(xs[i], t, v);
                lemma_subterms_list_contains(xs, i, v);
                let j = choose|j: int| 0 <= j < subterms_list(xs).len() && subterms_list(xs)[j] == v;
                assert(subterms(u)[1 + j] == v);
            },
            _ => {
                assert(strict_subterms(u).len() == 0);
            },
        }
    }
}

proof fn lemma_subterms_in_pair(a: Term, b: Term, t: Term)
    requires
        (subterms(a) + subterms(b)).contains(t),
    ensures
        subterms(a).contains(t) || subterms(b).contains(t),
{
    let k = choose|k: int| 0 <= k < (subterms(a) + subterms(b)).len() && (subterms(a) + subterms(b))[k] == t;
    if k < subterms(a).len() {
        assert(subterms(a)[k] == t);
    } else {
        assert(subterms(b)[k - subterms(a).len()] == t);
    }
}

proof fn lemma_subterms_in_pair_rev(a: Term, b: Term, v: Term)
    requires
        subterms(a).contains(v) || subterms(b).contains(v),
    ensures
        (seq![cat(a, b)] + (subterms(a) + subterms(b))).contains(v),
        (seq![Term::Alt(Box::new(a), Box::new(b))] + (subterms(a) + subterms(b))).contains(v),
{
    let p = subterms(a) + subterms(b);
    if subterms(a).contains(v) {
        let j = choose|j: int| 0 <= j < subterms(a).len() && subterms(a)[j] == v;
        assert(p[j] == v);
        assert((seq![cat(a, b)] + p)[1 + j] == v);
        assert((seq![Term::Alt(Box::new(a), Box::new(b))] + p)[1 + j] == v);
    } else {
        let j = choose|j: int| 0 <= j < subterms(b).len() && subterms(b)[j] == v;
        assert(p[subterms(a).len() + j] == v);
        assert((seq![cat(a, b)] + p)[1 + subterms(a).len() + j] == v);
        assert((seq![Term::Alt(Box::new(a), Box::new(b))] + p)[1 + subterms(a).len() + j] == v);
    }
}

/// The operands of a subterm are subterms.
proof fn lemma_children_in_sub(t: Term, r: Term)
    requires
        in_sub(t, r),
    ensures
        t matches Term::Alt(a, b) ==> in_sub(*a, r) && in_sub(*b, r),
        t matches Term::Star(a) ==> in_sub(*a, r),
        t matches Term::Cats(xs) ==> all_in_sub(xs, r),
{
    match t {
        Term::Alt(a, b) => {
            assert(subterms(*a)[0] == *a);
            assert(subterms(*b)[0] == *b);
            lemma_subterms_in_pair_rev(*a, *b, *a);
            lemma_subterms_in_pair_rev(*a, *b, *b);
            lemma_subterms_trans(r, t, *a);
            lemma_subterms_trans(r, t, *b);
        },
        Term::Star(a) => {
            assert(subterms(*a)[0] == *a);
            assert(subterms(t)[1] == *a);
            lemma_subterms_trans(r, t, *a);
        },
        Term::Cats(xs) => {
            assert forall|i: int| 0 <= i < xs.len() implies in_sub(#[trigger] xs[i], r) by {
                assert(subterms(xs[i])[0] == xs[i]);
                lemma_subterms_list_contains(xs, i, xs[i]);
                let j = choose|j: int| 0 <= j < subterms_list(xs).len() && subterms_list(xs)[j] == xs[i];
                assert(subterms(t)[1 + j] == xs[i]);
                lemma_subterms_trans(r, t, xs[i]);
            }
        },
        _ => {},
    }
}

proof fn lemma_nf_list_cons(xs: Seq<Term>)
    requires
        xs.len() > 0,
    ensures
        nf_list(xs) == splice(normal_form(xs[0])) + nf_list(xs.drop_first()),
{
    let tl = to_cats_list(xs);
    assert(tl[0] == to_cats(xs[0]));
    assert(tl.drop_first() == to_cats_list(xs.drop_first()));
}

proof fn lemma_nf_list_append(a: Seq<Term>, b: Seq<Term>)
    ensures
        nf_list(a + b) == nf_list(a) + nf_list(b),
{
    lemma_to_cats_list(a);
    lemma_to_cats_list(b);
    lemma_to_cats_list(a + b);
    assert(to_cats_list(a + b) =~= to_cats_list(a) + to_cats_list(b));
    lemma_flatten_list_append(to_cats_list(a), to_cats_list(b));
}

proof fn lemma_nf_cats(xs: Seq<Term>)
    ensures
        normal_form(Term::Cats(xs)) == Term::Cats(nf_list(xs)),
{
}

proof fn lemma_nf_cat(a: Term, b: Term)
    ensures
        normal_form(cat(a, b)) == Term::Cats(splice(normal_form(a)) + splice(normal_form(b))),
{
    let s = seq![to_cats(a), to_cats(b)];
    assert(s =~= seq![to_cats(a)] + seq![to_cats(b)]);
    lemma_flatten_list_append(seq![to_cats(a)], seq![to_cats(b)]);
    lemma_flatten_list_single(to_cats(a));
    lemma_flatten_list_single(to_cats(b));
}

proof fn lemma_all_in_sub_append(a: Seq<Term>, b: Seq<Term>, r: Term)
    ensures
        all_in_sub(a + b, r) == (all_in_sub(a, r) && all_in_sub(b, r)),
{
    if all_in_sub(a, r) && all_in_sub(b, r) {
        assert forall|i: int| 0 <= i < (a + b).len() implies in_sub(#[trigger] (a + b)[i], r) by {
            if i < a.len() {
                assert(in_sub(a[i], r));
            } else {
                assert(in_sub(b[i - a.len()], r));
            }
        }
    }
    if all_in_sub(a + b, r) {
        assert forall|i: int| 0 <= i < a.len() implies in_sub(#[trigger] a[i], r) by {
            assert((a + b)[i] == a[i]);
        }
        assert forall|i: int| 0 <= i < b.len() implies in_sub(#[trigger] b[i], r) by {
            assert((a + b)[i + a.len()] == b[i]);
        }
    }
}

/// `smart_cat` of two expressions built from subterms is built from
/// subterms.
proof fn lemma_smart_cat_built(y: Term, z: Term, r: Term)
    requires
        built_from(y, r),
        built_from(z, r),
    ensures
        built_from(smart_cat(y, z), r),
{
    if y != Term::Eps && z != Term::Eps {
        lemma_nf_cat(y, z);
        lemma_all_in_sub_append(splice(normal_form(y)), splice(normal_form(z)), r);
    }
}

/// `smart_cats` of an expression built from subterms and a concatenation
/// whose elements are built from subterms is built from subterms.
proof fn lemma_smart_cats_built(y: Term, rest: Seq<Term>, r: Term)
    requires
        rest.len() > 0,
        built_from(y, r),
        all_in_sub(nf_list(rest), r),
    ensures
        built_from(smart_cats(y, Term::Cats(rest)), r),
{
    lemma_nf_cats(rest);
    match y {
        Term::Eps => {},
        Term::Cats(ys) => {
            lemma_nf_cats(ys);
            lemma_nf_cats(ys + rest);
            lemma_nf_list_append(ys, rest);
            lemma_all_in_sub_append(nf_list(ys), nf_list(rest), r);
        },
        _ => {
            let s = seq![y] + rest;
            assert(s[0] == y);
            assert(s.drop_first() =~= rest);
            lemma_nf_cats(s);
            lemma_nf_list_cons(s);
            lemma_all_in_sub_append(splice(normal_form(y)), nf_list(rest), r);
        },
    }
}

/// Partial derivatives of an expression built from subterms are built from
/// subterms.
pub proof fn lemma_pd_built(c: char, x: Term, z: Term, r: Term)
    requires
        built_from(x, r),
        pd(c, x).contains(z),
    ensures
        built_from(z, r),
    decreases x,
{
    match x {
        Term::Lit(_) => {},
        Term::Cat(a, b) => {
            lemma_nf_cat(*a, *b);
            lemma_all_in_sub_append(splice(normal_form(*a)), splice(normal_form(*b)), r);
            if cat_each(pd(c, *a), *b).contains(z) {
                let y = choose|y: Term| pd(c, *a).contains(y) && smart_cat(y, *b) == z;
                lemma_pd_built(c, *a, y, r);
                lemma_smart_cat_built(y, *b, r);
            } else {
                lemma_pd_built(c, *b, z, r);
            }
        },
        Term::Cats(xs) => {
            lemma_nf_cats(xs);
            lemma_pd_cats_built(c, xs, z, r);
        },
        Term::Alt(a, b) => {
            let n = normal_form(x);
            assert(n == Term::Alt(Box::new(normal_form(*a)), Box::new(normal_form(*b))));
            assert(splice(n) == seq![n]);
            assert(in_sub(splice(n)[0], r));
            lemma_children_in_sub(n, r);
            assert(splice(normal_form(*a)) == seq![normal_form(*a)] || normal_form(*a) is Cats);
            lemma_built_of_in_sub(*a, r);
            lemma_built_of_in_sub(*b, r);
            if pd(c, *a).contains(z) {
                lemma_pd_built(c, *a, z, r);
            } else {
                lemma_pd_built(c, *b, z, r);
            }
        },
        Term::Star(a) => {
            let n = normal_form(x);
            assert(n == Term::Star(Box::new(normal_form(*a))));
            assert(splice(n) == seq![n]);
            assert(in_sub(splice(n)[0], r));
            lemma_children_in_sub(n, r);
            lemma_built_of_in_sub(*a, r);
            let y = choose|y: Term| pd(c, *a).contains(y) && smart_cat(y, x) == z;
            lemma_pd_built(c, *a, y, r);
            lemma_smart_cat_built(y, x, r);
        },
        _ => {},
    }
}

/// An expression whose normal form is a subterm is built from subterms.
proof fn lemma_built_of_in_sub(x: Term, r: Term)
    requires
        in_sub(normal_form(x), r),
    ensures
        built_from(x, r),
{
    let n = normal_form(x);
    if n is Cats {
        lemma_children_in_sub(n, r);
    } else {
        assert(splice(n) == seq![n]);
    }
}

pub proof fn lemma_pd_cats_built(c: char, xs: Seq<Term>, z: Term, r: Term)
    requires
        all_in_sub(nf_list(xs), r),
        pd_cats(c, xs).contains(z),
    ensures
        built_from(z, r),
    decreases xs,
{
    lemma_nf_list_cons(xs);
    lemma_all_in_sub_append(splice(normal_form(xs[0])), nf_list(xs.drop_first()), r);
    assert(built_from(xs[0], r));
    if xs.len() == 1 {
        lemma_pd_built(c, xs[0], z, r);
    } else {
        let rest = xs.drop_first();
        if cats_each(pd(c, xs[0]), Term::Cats(rest)).contains(z) {
            let y = choose|y: Term| pd(c, xs[0]).contains(y) && smart_cats(y, Term::Cats(rest)) == z;
            lemma_pd_built(c, xs[0], y, r);
            lemma_smart_cats_built(y, rest, r);
        } else {
            lemma_pd_cats_built(c, rest, z, r);
        }
    }
}

/// Antimirov's subterm property: every descendant `d` of the normal form
/// `n` of `r`, normalized, is `Eps`, `n`, or an n-ary concatenation of
/// subterms of `n`, whenever it has one of these three shapes; any other
/// normalized descendant is itself a subterm of `n`.
pub proof fn lemma_subterm_property(r: Term, d: Term)
    requires
        reach(normal_form(r)).contains(d),
    ensures
        shape_allowed(normal_form(d), normal_form(r)) ==> shape_ok(normal_form(d), normal_form(r)),
        normal_form(d) is Eps || in_sub(normal_form(d), normal_form(r)) || shape_ok(normal_form(d), normal_form(r)),
{
    let n = normal_form(r);
    let good = Set::new(|x: Term| built_from(x, n));
    lemma_normal_form_idempotent(r);
    assert(subterms(n)[0] == n);
    lemma_built_of_in_sub(n, n);
    assert(good.contains(n));
    assert forall|y: Term| #[trigger] pd_alpha(letters_of(n), good).contains(y) implies good.contains(y) by {
        let (c, x) = choose|c: char, x: Term| letters_of(n).contains(c) && good.contains(x) && #[trigger] pd(c, x).contains(y);
        lemma_pd_built(c, x, y, n);
    }
    let w = choose|w: Seq<char>| over(w, letters_of(n)) && #[trigger] pd_word(w, set![n]).contains(d);
    lemma_pd_word_within(w, letters_of(n), n, good);
    assert(built_from(d, n));
    let nd = normal_form(d);
    if d == Term::Eps {
        assert(nd == Term::Eps);
    } else if nd is Cats {
    } else {
        assert(splice(nd) == seq![nd]);
        assert(in_sub(splice(nd)[0], n));
    }
}

/// The number of nodes of `t`: one for `t` itself plus those of its
/// operands.
pub open spec fn node_count(t: Term) -> nat
    decreases t, 0nat,
{
    match t {
        Term::Cat(a, b) => 1 + node_count(*a) + node_count(*b),
        Term::Cats(s) => 1 + node_count_list(s),
        Term::Alt(a, b) => 1 + node_count(*a) + node_count(*b),
        Term::Star(a) => 1 + node_count(*a),
        _ => 1,
    }
}

/// The number of nodes of the elements of `s`, all together.
pub open spec fn node_count_list(s: Seq<Term>) -> nat
    decreases s, 1nat,
{
    if s.len() == 0 {
        0
    } else {
        node_count(s[0]) + node_count_list(s.drop_first())
    }
}

/// The subterm list of `t` starts with `t` and has one entry per node of
/// `t`: each occurrence of a subexpression is listed once.
pub proof fn lemma_subterms_count(t: Term)
    ensures
        subterms(t).len() == node_count(t),
        subterms(t)[0] == t,
    decreases t, 0nat,
{
    match t {
        Term::Cat(a, b) => {
            lemma_subterms_count(*a);
            lemma_subterms_count(*b);
        },
        Term::Alt(a, b) => {
            lemma_subterms_count(*a);
            lemma_subterms_count(*b);
        },
        Term::Star(a) => {
            lemma_subterms_count(*a);
        },
        Term::Cats(s) => {
            lemma_subterms_count_list(s);
        },
        _ => {},
    }
}

proof fn lemma_subterms_count_list(s: Seq<Term>)
    ensures
        subterms_list(s).len() == node_count_list(s),
    decreases s, 1nat,
{
    if s.len() > 0 {
        lemma_subterms_count(s[0]);
        lemma_subterms_count_list(s.drop_first());
    }
}

/// Every immediate operand of `t` is among the subterms of `t`.
pub proof fn lemma_subterms_operands(t: Term)
    ensures
        t matches Term::Cat(a, b) ==> subterms(t).contains(*a) && subterms(t).contains(*b),
        t matches Term::Alt(a, b) ==> subterms(t).contains(*a) && subterms(t).contains(*b),
        t matches Term::Star(a) ==> subterms(t).contains(*a),
        t matches Term::Cats(s) ==> forall|i: int| 0 <= i < s.len() ==> subterms(t).contains(#[trigger] s[i]),
{
    match t {
        Term::Cat(a, b) => {
            lemma_subterms_count(*a);
            lemma_subterms_count(*b);
            assert(subterms(t)[1] == *a);
            assert(subterms(t)[1 + subterms(*a).len() as int] == *b);
        },
        Term::Alt(a, b) => {
            lemma_subterms_count(*a);
            lemma_subterms_count(*b);
            assert(subterms(t)[1] == *a);
            assert(subterms(t)[1 + subterms(*a).len() as int] == *b);
        },
        Term::Star(a) => {
            lemma_subterms_count(*a);
            assert(subterms(t)[1] == *a);
        },
        Term::Cats(s) => {
            assert forall|i: int| 0 <= i < s.len() implies subterms(t).contains(#[trigger] s[i]) by {
                lemma_subterms_count(s[i]);
                assert(subterms(s[i])[0] == s[i]);
                lemma_subterms_list_contains(s, i, s[i]);
                let k = choose|k: int| 0 <= k < subterms_list(s).len() && subterms_list(s)[k] == s[i];
                assert(subterms(t)[1 + k] == s[i]);
            }
        },
        _ => {},
    }
}

/// Every subterm of `t` other than the leading `t` is a proper part of
/// `t`: it has fewer nodes.
pub proof fn lemma_subterms_smaller(t: Term, i: int)
    requires
        0 <= i < subterms(t).len(),
    ensures
        node_count(subterms(t)[i]) <= node_count(t),
        i > 0 ==> node_count(subterms(t)[i]) < node_count(t),
    decreases t, 0nat,
{
    if i > 0 {
        let k = i - 1;
        assert(subterms(t)[i] == strict_subterms(t)[k]);
        match t {
            Term::Cat(a, b) => {
                if k < subterms(*a).len() {
                    assert(strict_subterms(t)[k] == subterms(*a)[k]);
                    lemma_subterms_smaller(*a, k);
                } else {
                    assert(strict_subterms(t)[k] == subterms(*b)[k - subterms(*a).len()]);
                    lemma_subterms_smaller(*b, k - subterms(*a).len());
                }
            },
            Term::Alt(a, b) => {
                if k < subterms(*a).len() {
                    assert(strict_subterms(t)[k] == subterms(*a)[k]);
                    lemma_subterms_smaller(*a, k);
                } else {
                    assert(strict_subterms(t)[k] == subterms(*b)[k - subterms(*a).len()]);
                    lemma_subterms_smaller(*b, k - subterms(*a).len());
                }
            },
            Term::Star(a) => {
                lemma_subterms_smaller(*a, k);
            },
            Term::Cats(s) => {
                lemma_subterms_smaller_list(s, k);
            },
            _ => {},
        }
    }
}

proof fn lemma_subterms_smaller_list(s: Seq<Term>, k: int)
    requires
        0 <= k < subterms_list(s).len(),
    ensures
        node_count(subterms_list(s)[k]) <= node_count_list(s),
    decreases s, 1nat,
{
    if s.len() > 0 {
        if k < subterms(s[0]).len() {
            assert(subterms_list(s)[k] == subterms(s[0])[k]);
            lemma_subterms_smaller(s[0], k);
        } else {
            assert(subterms_list(s)[k] == subterms_list(s.drop_first())[k - subterms(s[0]).len()]);
            lemma_subterms_smaller_list(s.drop_first(), k - subterms(s[0]).len());
        }
    }
}

/// The subterm list is in pre-order: `t` comes first, then the subterm
/// list of each operand of `t` as one block, left to right; the block of
/// an operand starts after the nodes of the operands before it.
pub proof fn lemma_subterms_preorder(t: Term)
    ensures
        t matches Term::Cat(a, b) ==> {
            &&& subterms(t).subrange(1, (1 + node_count(*a)) as int) == subterms(*a)
            &&& subterms(t).subrange((1 + node_count(*a)) as int, subterms(t).len() as int) == subterms(*b)
        },
        t matches Term::Alt(a, b) ==> {
            &&& subterms(t).subrange(1, (1 + node_count(*a)) as int) == subterms(*a)
            &&& subterms(t).subrange((1 + node_count(*a)) as int, subterms(t).len() as int) == subterms(*b)
        },
        t matches Term::Star(a) ==> subterms(t).subrange(1, subterms(t).len() as int) == subterms(*a),
        t matches Term::Cats(s) ==> forall|i: int|
            0 <= i < s.len() ==> subterms(t).subrange((1 + node_count_list(s.take(i))) as int, (1 + node_count_list(s.take(i + 1))) as int)
                == subterms(#[trigger] s[i]),
{
    match t {
        Term::Cat(a, b) => {
            lemma_subterms_count(*a);
            assert(subterms(t).subrange(1, (1 + node_count(*a)) as int) =~= subterms(*a));
            assert(subterms(t).subrange((1 + node_count(*a)) as int, subterms(t).len() as int) =~= subterms(*b));
        },
        Term::Alt(a, b) => {
            lemma_subterms_count(*a);
            assert(subterms(t).subrange(1, (1 + node_count(*a)) as int) =~= subterms(*a));
            assert(subterms(t).subrange((1 + node_count(*a)) as int, subterms(t).len() as int) =~= subterms(*b));
        },
        Term::Star(a) => {
            assert(subterms(t).subrange(1, subterms(t).len() as int) =~= subterms(*a));
        },
        Term::Cats(s) => {
            assert forall|i: int| 0 <= i < s.len() implies subterms(t).subrange(
                (1 + node_count_list(s.take(i))) as int,
                (1 + node_count_list(s.take(i + 1))) as int,
            ) == subterms(#[trigger] s[i]) by {
                let pre = s.take(i);
                let post = s.skip(i + 1);
                assert(s.take(i + 1) =~= pre + seq![s[i]]);
                assert(s =~= pre + seq![s[i]] + post);
                lemma_subterms_list_append(pre, seq![s[i]]);
                lemma_subterms_list_append(pre + seq![s[i]], post);
                lemma_subterms_list_single(s[i]);
                lemma_subterms_count_list(pre);
                lemma_subterms_count_list(s.take(i + 1));
                let sl = subterms_list(s);
                assert(sl == subterms_list(pre) + subterms(s[i]) + subterms_list(post));
                assert(subterms(t).subrange((1 + node_count_list(pre)) as int, (1 + node_count_list(s.take(i + 1))) as int) =~= subterms(s[i]));
            }
        },
        _ => {},
    }
}

} // verus!
