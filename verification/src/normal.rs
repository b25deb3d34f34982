//! The Seq-Assoc normal form: binary concatenations replaced by n-ary ones,
//! and n-ary concatenations flattened.

use vstd::prelude::*;
use crate::term::Term;
use crate::lang::{in_lang, same_lang, cat, lemma_cat, lemma_congr, lemma_cats_cons, lemma_cats_congr, lemma_cats_single, lemma_cats_append};

verus! {

/// `t` contains no binary concatenation.
pub open spec fn cat_free(t: Term) -> bool
    decreases t,
{
    match t {
        Term::Cat(_, _) => false,
        Term::Cats(s) => cat_free_list(s),
        Term::Alt(a, b) => cat_free(*a) && cat_free(*b),
        Term::Star(a) => cat_free(*a),
        _ => true,
    }
}

pub open spec fn cat_free_list(s: Seq<Term>) -> bool
    decreases s,
{
    s.len() == 0 || (cat_free(s[0]) && cat_free_list(s.drop_first()))
}

/// Every binary concatenation `Cat(a, b)` replaced by `Cats([a, b])`.
pub open spec fn to_cats(t: Term) -> Term
    decreases t,
{
    match t {
        Term::Cat(a, b) => Term::Cats(seq![to_cats(*a), to_cats(*b)]),
        Term::Cats(s) => Term::Cats(to_cats_list(s)),
        Term::Alt(a, b) => Term::Alt(Box::new(to_cats(*a)), Box::new(to_cats(*b))),
        Term::Star(a) => Term::Star(Box::new(to_cats(*a))),
        _ => t,
    }
}

pub open spec fn to_cats_list(s: Seq<Term>) -> Seq<Term>
    decreases s,
{
    if s.len() == 0 {
        Seq::empty()
    } else {
        seq![to_cats(s[0])] + to_cats_list(s.drop_first())
    }
}

/// The elements that `t` contributes to an enclosing n-ary concatenation:
/// those of `t` if it is one itself, else `t` alone.
pub open spec fn splice(t: Term) -> Seq<Term> {
    match t {
        Term::Cats(xs) => xs,
        _ => seq![t],
    }
}

/// Every n-ary concatenation flattened: its elements normalized, and those
/// that are n-ary concatenations themselves replaced by their elements.
pub open spec fn flatten(t: Term) -> Term
    decreases t,
{
    match t {
        Term::Cats(s) => Term::Cats(flatten_list(s)),
        Term::Alt(a, b) => Term::Alt(Box::new(flatten(*a)), Box::new(flatten(*b))),
        Term::Star(a) => Term::Star(Box::new(flatten(*a))),
        _ => t,
    }
}

pub open spec fn flatten_list(s: Seq<Term>) -> Seq<Term>
    decreases s,
{
    if s.len() == 0 {
        Seq::empty()
    } else {
        splice(flatten(s[0])) + flatten_list(s.drop_first())
    }
}

/// The Seq-Assoc normal form of `t`.
pub open spec fn normal_form(t: Term) -> Term {
    flatten(to_cats(t))
}

pub proof fn lemma_to_cats_list(s: Seq<Term>)
    ensures
        to_cats_list(s).len() == s.len(),
        forall|i: int| 0 <= i < s.len() ==> #[trigger] to_cats_list(s)[i] == to_cats(s[i]),
    decreases s.len(),
{
    if s.len() > 0 {
        lemma_to_cats_list(s.drop_first());
        assert forall|i: int| 0 <= i < s.len() implies #[trigger] to_cats_list(s)[i] == to_cats(s[i]) by {
            if i > 0 {
                assert(s.drop_first()[i - 1] == s[i]);
            }
        }
    }
}

pub proof fn lemma_cat_free_list(s: Seq<Term>)
    ensures
        cat_free_list(s) <==> forall|i: int| 0 <= i < s.len() ==> #[trigger] cat_free(s[i]),
    decreases s.len(),
{
    if s.len() > 0 {
        lemma_cat_free_list(s.drop_first());
        if forall|i: int| 0 <= i < s.len() ==> #[trigger] cat_free(s[i]) {
            assert(cat_free(s[0]));
            assert forall|i: int| 0 <= i < s.drop_first().len() implies #[trigger] cat_free(s.drop_first()[i]) by {
                assert(cat_free(s[i + 1]));
            }
        }
        if cat_free_list(s) {
            assert forall|i: int| 0 <= i < s.len() implies #[trigger] cat_free(s[i]) by {
                if i > 0 {
                    assert(s.drop_first()[i - 1] == s[i]);
                }
            }
        }
    }
}

pub proof fn lemma_to_cats_cat_free(t: Term)
    ensures
        cat_free(to_cats(t)),
    decreases t,
{
    match t {
        Term::Cat(a, b) => {
            lemma_to_cats_cat_free(*a);
            lemma_to_cats_cat_free(*b);
            let s = seq![to_cats(*a), to_cats(*b)];
            lemma_cat_free_list(s);
        },
        Term::Cats(s) => {
            lemma_to_cats_list(s);
            assert forall|i: int| 0 <= i < s.len() implies #[trigger] cat_free(to_cats_list(s)[i]) by {
                lemma_to_cats_cat_free(s[i]);
            }
            lemma_cat_free_list(to_cats_list(s));
        },
        Term::Alt(a, b) => {
            lemma_to_cats_cat_free(*a);
            lemma_to_cats_cat_free(*b);
        },
        Term::Star(a) => {
            lemma_to_cats_cat_free(*a);
        },
        _ => {},
    }
}

pub proof fn lemma_flatten_list_append(a: Seq<Term>, b: Seq<Term>)
    ensures
        flatten_list(a + b) == flatten_list(a) + flatten_list(b),
    decreases a.len(),
{
    if a.len() == 0 {
        assert(a + b =~= b);
        assert(flatten_list(a) + flatten_list(b) =~= flatten_list(b));
    } else {
        assert((a + b)[0] == a[0]);
        assert((a + b).drop_first() =~= a.drop_first() + b);
        lemma_flatten_list_append(a.drop_first(), b);
        assert(flatten_list(a + b) =~= flatten_list(a) + flatten_list(b));
    }
}

pub proof fn lemma_flatten_list_single(x: Term)
    ensures
        flatten_list(seq![x]) == splice(flatten(x)),
{
    let one = seq![x];
    assert(one[0] == x);
    assert(one.drop_first() =~= Seq::<Term>::empty());
    assert(flatten_list(one.drop_first()) == Seq::<Term>::empty());
    assert(flatten_list(one) =~= splice(flatten(x)));
}

/// `t` followed by its strict subterms, in pre-order, with repetitions.
pub open spec fn subterms(t: Term) -> Seq<Term>
    decreases t, 1nat,
{
    seq![t] + strict_subterms(t)
}

/// The subterms of the operands of `t`, left to right.
pub open spec fn strict_subterms(t: Term) -> Seq<Term>
    decreases t, 0nat,
{
    match t {
        Term::Cat(a, b) => subterms(*a) + subterms(*b),
        Term::Cats(s) => subterms_list(s),
        Term::Alt(a, b) => subterms(*a) + subterms(*b),
        Term::Star(a) => subterms(*a),
        _ => Seq::empty(),
    }
}

/// The subterms of the elements of `s`, one element after the other.
pub open spec fn subterms_list(s: Seq<Term>) -> Seq<Term>
    decreases s, 2nat,
{
    if s.len() == 0 {
        Seq::empty()
    } else {
        subterms(s[0]) + subterms_list(s.drop_first())
    }
}

pub proof fn lemma_subterms_list_append(a: Seq<Term>, b: Seq<Term>)
    ensures
        subterms_list(a + b) == subterms_list(a) + subterms_list(b),
    decreases a.len(),
{
    if a.len() == 0 {
        assert(a + b =~= b);
        assert(subterms_list(a) + subterms_list(b) =~= subterms_list(b));
    } else {
        assert((a + b)[0] == a[0]);
        assert((a + b).drop_first() =~= a.drop_first() + b);
        lemma_subterms_list_append(a.drop_first(), b);
        assert(subterms_list(a + b) =~= subterms_list(a) + subterms_list(b));
    }
}

pub proof fn lemma_subterms_list_single(x: Term)
    ensures
        subterms_list(seq![x]) == subterms(x),
{
    let one = seq![x];
    assert(one[0] == x);
    assert(one.drop_first() =~= Seq::<Term>::empty());
    assert(subterms_list(one.drop_first()) == Seq::<Term>::empty());
    assert(subterms_list(one) =~= subterms(x));
}

/// The shape that Antimirov's subterm property allows a normalized
/// descendant `d` of `r`: `Eps`, `r` itself, or an n-ary concatenation.
pub open spec fn shape_allowed(d: Term, r: Term) -> bool {
    d is Eps || d == r || d is Cats
}

/// Antimirov's subterm property for one normalized descendant `d` of `r`:
/// `d` is `Eps`, or `r`, or an n-ary concatenation of subterms of `r`.
pub open spec fn shape_ok(d: Term, r: Term) -> bool {
    ||| d is Eps
    ||| d == r
    ||| (d is Cats && forall|i: int| 0 <= i < d->Cats_0.len() ==> subterms(r).contains(#[trigger] d->Cats_0[i]))
}

/// No n-ary concatenation has an n-ary concatenation as an element.
pub open spec fn flat(t: Term) -> bool
    decreases t,
{
    match t {
        Term::Cat(a, b) => flat(*a) && flat(*b),
        Term::Cats(s) => flat_list(s),
        Term::Alt(a, b) => flat(*a) && flat(*b),
        Term::Star(a) => flat(*a),
        _ => true,
    }
}

pub open spec fn flat_list(s: Seq<Term>) -> bool
    decreases s,
{
    s.len() == 0 || (!(s[0] is Cats) && flat(s[0]) && flat_list(s.drop_first()))
}

pub proof fn lemma_flat_list(s: Seq<Term>)
    ensures
        flat_list(s) <==> forall|i: int| 0 <= i < s.len() ==> !(#[trigger] s[i] is Cats) && flat(s[i]),
    decreases s.len(),
{
    if s.len() > 0 {
        lemma_flat_list(s.drop_first());
        if forall|i: int| 0 <= i < s.len() ==> !(#[trigger] s[i] is Cats) && flat(s[i]) {
            assert(!(s[0] is Cats) && flat(s[0]));
            assert forall|i: int| 0 <= i < s.drop_first().len() implies !(#[trigger] s.drop_first()[i] is Cats) && flat(s.drop_first()[i]) by {
                assert(s.drop_first()[i] == s[i + 1]);
            }
        }
        if flat_list(s) {
            assert forall|i: int| 0 <= i < s.len() implies !(#[trigger] s[i] is Cats) && flat(s[i]) by {
                if i > 0 {
                    assert(s.drop_first()[i - 1] == s[i]);
                }
            }
        }
    }
}

/// Replacing binary concatenations by n-ary ones keeps the language.
pub proof fn lemma_to_cats_lang(t: Term)
    ensures
        same_lang(to_cats(t), t),
    decreases t,
{
    match t {
        Term::Cat(a, b) => {
            lemma_to_cats_lang(*a);
            lemma_to_cats_lang(*b);
            let s = seq![to_cats(*a), to_cats(*b)];
            lemma_cats_cons(s);
            assert(s.drop_first() =~= seq![to_cats(*b)]);
            assert forall|w: Seq<char>| #[trigger] in_lang(Term::Cats(seq![to_cats(*b)]), w) == in_lang(to_cats(*b), w) by {
                lemma_cats_single(to_cats(*b), w);
            }
            lemma_congr(to_cats(*a), Term::Cats(seq![to_cats(*b)]), *a, *b);
        },
        Term::Cats(s) => {
            lemma_to_cats_list(s);
            assert forall|i: int| 0 <= i < s.len() implies same_lang(#[trigger] to_cats_list(s)[i], s[i]) by {
                lemma_to_cats_lang(s[i]);
            }
            lemma_cats_congr(to_cats_list(s), s);
        },
        Term::Alt(a, b) => {
            lemma_to_cats_lang(*a);
            lemma_to_cats_lang(*b);
            lemma_congr(to_cats(*a), to_cats(*b), *a, *b);
        },
        Term::Star(a) => {
            lemma_to_cats_lang(*a);
            lemma_congr(to_cats(*a), to_cats(*a), *a, *a);
        },
        _ => {},
    }
}

/// Flattening n-ary concatenations keeps the language.
pub proof fn lemma_flatten_lang(t: Term)
    ensures
        same_lang(flatten(t), t),
    decreases t,
{
    match t {
        Term::Cats(s) => {
            lemma_flatten_list_lang(s);
        },
        Term::Alt(a, b) => {
            lemma_flatten_lang(*a);
            lemma_flatten_lang(*b);
            lemma_congr(flatten(*a), flatten(*b), *a, *b);
        },
        Term::Star(a) => {
            lemma_flatten_lang(*a);
            lemma_congr(flatten(*a), flatten(*a), *a, *a);
        },
        _ => {},
    }
}

pub proof fn lemma_flatten_list_lang(s: Seq<Term>)
    ensures
        same_lang(Term::Cats(flatten_list(s)), Term::Cats(s)),
    decreases s,
{
    if s.len() == 0 {
        assert(flatten_list(s) =~= s);
    } else {
        let f0 = flatten(s[0]);
        let rest = s.drop_first();
        let l = flatten_list(rest);
        lemma_flatten_lang(s[0]);
        lemma_flatten_list_lang(rest);
        assert(same_lang(Term::Cats(splice(f0)), f0)) by {
            if !(f0 is Cats) {
                assert forall|w: Seq<char>| #[trigger] in_lang(Term::Cats(seq![f0]), w) == in_lang(f0, w) by {
                    lemma_cats_single(f0, w);
                }
            }
        }
        assert forall|w: Seq<char>| #[trigger] in_lang(Term::Cats(flatten_list(s)), w) == in_lang(
            cat(Term::Cats(splice(f0)), Term::Cats(l)),
            w,
        ) by {
            lemma_cats_append(splice(f0), l, w);
            lemma_cat(Term::Cats(splice(f0)), Term::Cats(l), w);
        }
        lemma_congr(Term::Cats(splice(f0)), Term::Cats(l), s[0], Term::Cats(rest));
        lemma_cats_cons(s);
    }
}

/// Normalization keeps the language.
pub proof fn lemma_normal_form_lang(t: Term)
    ensures
        same_lang(normal_form(t), t),
{
    lemma_to_cats_lang(t);
    lemma_flatten_lang(to_cats(t));
}

/// Normalization makes `(a . b) . c` and `a . (b . c)` equal.
pub proof fn lemma_normal_form_assoc(a: Term, b: Term, c: Term)
    ensures
        normal_form(cat(cat(a, b), c)) == normal_form(cat(a, cat(b, c))),
{
    let ta = to_cats(a);
    let tb = to_cats(b);
    let tc = to_cats(c);
    lemma_flatten_list_append(seq![ta], seq![tb]);
    lemma_flatten_list_append(seq![tb], seq![tc]);
    lemma_flatten_list_append(seq![Term::Cats(seq![ta, tb])], seq![tc]);
    lemma_flatten_list_append(seq![ta], seq![Term::Cats(seq![tb, tc])]);
    lemma_flatten_list_single(ta);
    lemma_flatten_list_single(tb);
    lemma_flatten_list_single(tc);
    lemma_flatten_list_single(Term::Cats(seq![ta, tb]));
    lemma_flatten_list_single(Term::Cats(seq![tb, tc]));
    assert(seq![ta, tb] =~= seq![ta] + seq![tb]);
    assert(seq![tb, tc] =~= seq![tb] + seq![tc]);
    assert(seq![Term::Cats(seq![ta, tb]), tc] =~= seq![Term::Cats(seq![ta, tb])] + seq![tc]);
    assert(seq![ta, Term::Cats(seq![tb, tc])] =~= seq![ta] + seq![Term::Cats(seq![tb, tc])]);
    assert(flatten(Term::Cats(seq![ta, tb])) == Term::Cats(flatten_list(seq![ta, tb])));
    assert(flatten(Term::Cats(seq![tb, tc])) == Term::Cats(flatten_list(seq![tb, tc])));
    assert(flatten_list(seq![Term::Cats(seq![ta, tb]), tc]) =~= flatten_list(seq![ta, Term::Cats(seq![tb, tc])]));
    assert(to_cats(cat(a, b)) == Term::Cats(seq![ta, tb]));
    assert(to_cats(cat(b, c)) == Term::Cats(seq![tb, tc]));
    assert(to_cats(cat(cat(a, b), c)) == Term::Cats(seq![Term::Cats(seq![ta, tb]), tc]));
    assert(to_cats(cat(a, cat(b, c))) == Term::Cats(seq![ta, Term::Cats(seq![tb, tc])]));
}

proof fn lemma_cat_free_list_append(a: Seq<Term>, b: Seq<Term>)
    ensures
        cat_free_list(a + b) == (cat_free_list(a) && cat_free_list(b)),
{
    lemma_cat_free_list(a);
    lemma_cat_free_list(b);
    lemma_cat_free_list(a + b);
    if cat_free_list(a) && cat_free_list(b) {
        assert forall|i: int| 0 <= i < (a + b).len() implies #[trigger] cat_free((a + b)[i]) by {
            if i < a.len() {
                assert(cat_free(a[i]));
            } else {
                assert(cat_free(b[i - a.len()]));
            }
        }
    }
    if cat_free_list(a + b) {
        assert forall|i: int| 0 <= i < a.len() implies #[trigger] cat_free(a[i]) by {
            assert((a + b)[i] == a[i]);
        }
        assert forall|i: int| 0 <= i < b.len() implies #[trigger] cat_free(b[i]) by {
            assert((a + b)[i + a.len()] == b[i]);
        }
    }
}

proof fn lemma_flat_list_append(a: Seq<Term>, b: Seq<Term>)
    ensures
        flat_list(a + b) == (flat_list(a) && flat_list(b)),
{
    lemma_flat_list(a);
    lemma_flat_list(b);
    lemma_flat_list(a + b);
    if flat_list(a) && flat_list(b) {
        assert forall|i: int| 0 <= i < (a + b).len() implies !(#[trigger] (a + b)[i] is Cats) && flat((a + b)[i]) by {
            if i < a.len() {
                assert(!(a[i] is Cats) && flat(a[i]));
            } else {
                assert(!(b[i - a.len()] is Cats) && flat(b[i - a.len()]));
            }
        }
    }
    if flat_list(a + b) {
        assert forall|i: int| 0 <= i < a.len() implies !(#[trigger] a[i] is Cats) && flat(a[i]) by {
            assert((a + b)[i] == a[i]);
        }
        assert forall|i: int| 0 <= i < b.len() implies !(#[trigger] b[i] is Cats) && flat(b[i]) by {
            assert((a + b)[i + a.len()] == b[i]);
        }
    }
}

/// Flattening a term without binary concatenations gives a flat term
/// without binary concatenations.
pub proof fn lemma_flatten_shape(t: Term)
    requires
        cat_free(t),
    ensures
        cat_free(flatten(t)),
        flat(flatten(t)),
    decreases t,
{
    match t {
        Term::Cats(s) => {
            lemma_flatten_list_shape(s);
        },
        Term::Alt(a, b) => {
            lemma_flatten_shape(*a);
            lemma_flatten_shape(*b);
        },
        Term::Star(a) => {
            lemma_flatten_shape(*a);
        },
        _ => {},
    }
}

pub proof fn lemma_flatten_list_shape(s: Seq<Term>)
    requires
        cat_free_list(s),
    ensures
        cat_free_list(flatten_list(s)),
        flat_list(flatten_list(s)),
    decreases s,
{
    if s.len() > 0 {
        let f0 = flatten(s[0]);
        lemma_flatten_shape(s[0]);
        lemma_flatten_list_shape(s.drop_first());
        lemma_cat_free_list_append(splice(f0), flatten_list(s.drop_first()));
        lemma_flat_list_append(splice(f0), flatten_list(s.drop_first()));
        if !(f0 is Cats) {
            let one = seq![f0];
            assert(one.drop_first() =~= Seq::<Term>::empty());
            assert(cat_free_list(one.drop_first()));
            assert(flat_list(one.drop_first()));
            assert(one[0] == f0);
        }
    }
}

/// On a term without binary concatenations, `to_cats` changes nothing.
pub proof fn lemma_to_cats_id(t: Term)
    requires
        cat_free(t),
    ensures
        to_cats(t) == t,
    decreases t,
{
    match t {
        Term::Cats(s) => {
            lemma_cat_free_list(s);
            lemma_to_cats_list(s);
            assert forall|i: int| 0 <= i < s.len() implies #[trigger] to_cats_list(s)[i] == s[i] by {
                lemma_to_cats_id(s[i]);
            }
            assert(to_cats_list(s) =~= s);
        },
        Term::Alt(a, b) => {
            lemma_to_cats_id(*a);
            lemma_to_cats_id(*b);
        },
        Term::Star(a) => {
            lemma_to_cats_id(*a);
        },
        _ => {},
    }
}

/// On a flat term without binary concatenations, `flatten` changes nothing.
pub proof fn lemma_flatten_id(t: Term)
    requires
        cat_free(t),
        flat(t),
    ensures
        flatten(t) == t,
    decreases t,
{
    match t {
        Term::Cats(s) => {
            lemma_flatten_list_id(s);
        },
        Term::Alt(a, b) => {
            lemma_flatten_id(*a);
            lemma_flatten_id(*b);
        },
        Term::Star(a) => {
            lemma_flatten_id(*a);
        },
        _ => {},
    }
}

pub proof fn lemma_flatten_list_id(s: Seq<Term>)
    requires
        cat_free_list(s),
        flat_list(s),
    ensures
        flatten_list(s) == s,
    decreases s,
{
    if s.len() > 0 {
        lemma_flatten_id(s[0]);
        lemma_flatten_list_id(s.drop_first());
        assert(s =~= seq![s[0]] + s.drop_first());
    } else {
        assert(flatten_list(s) =~= s);
    }
}

/// The normal form has no binary concatenation and no n-ary
/// concatenation directly inside another.
pub proof fn lemma_normal_form_shape(t: Term)
    ensures
        cat_free(normal_form(t)),
        flat(normal_form(t)),
{
    lemma_to_cats_cat_free(t);
    lemma_flatten_shape(to_cats(t));
}

/// Normalizing twice is normalizing once.
pub proof fn lemma_normal_form_idempotent(t: Term)
    ensures
        normal_form(normal_form(t)) == normal_form(t),
{
    let n = normal_form(t);
    lemma_normal_form_shape(t);
    lemma_to_cats_id(n);
    lemma_flatten_id(n);
}

} // verus!
