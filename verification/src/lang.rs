//! The language of a regular expression, nullability and partial
//! derivatives as mathematical definitions, and the laws that tie them.

use vstd::prelude::*;
use crate::term::{Term, smart_cat, smart_cats};

verus! {

/// `w` belongs to the language of `t`.
pub open spec fn in_lang(t: Term, w: Seq<char>) -> bool
    decreases t, w.len(), w.len() + 1,
{
    match t {
        Term::Eps => w.len() == 0,
        Term::Lit(c) => w == seq![c],
        Term::Cat(_, _) => split_cat(t, w, w.len()),
        Term::Cats(s) => in_lang_cats(s, w),
        Term::Alt(a, b) => in_lang(*a, w) || in_lang(*b, w),
        Term::Star(_) => w.len() == 0 || split_star(t, w, w.len()),
    }
}

/// For a binary concatenation `t`: some split of `w` at a position up to
/// `n` puts the first part in the language of the left operand and the rest
/// in that of the right one.
pub open spec fn split_cat(t: Term, w: Seq<char>, n: nat) -> bool
    decreases t, w.len(), n,
{
    match t {
        Term::Cat(a, b) => {
            ||| (n <= w.len() && in_lang(*a, w.take(n as int)) && in_lang(*b, w.skip(n as int)))
            ||| (n > 0 && split_cat(t, w, (n - 1) as nat))
        },
        _ => false,
    }
}

/// For a star `t`: some split of `w` at a position from 1 to `n` puts a
/// non-empty first part in the language of the operand and the rest in that
/// of `t`.
pub open spec fn split_star(t: Term, w: Seq<char>, n: nat) -> bool
    decreases t, w.len(), n,
{
    match t {
        Term::Star(a) => n > 0 && ((n <= w.len() && in_lang(*a, w.take(n as int)) && in_lang(
            t,
            w.skip(n as int),
        )) || split_star(t, w, (n - 1) as nat)),
        _ => false,
    }
}

/// `w` is a concatenation of words of the languages of `s`, in order.
pub open spec fn in_lang_cats(s: Seq<Term>, w: Seq<char>) -> bool
    decreases s, w.len(), w.len() + 1,
{
    if s.len() == 0 {
        w.len() == 0
    } else {
        split_cats(s, w, w.len())
    }
}

/// Some split of `w` at a position up to `n` puts the first part in the
/// language of `s[0]` and the rest in that of the remaining elements.
pub open spec fn split_cats(s: Seq<Term>, w: Seq<char>, n: nat) -> bool
    decreases s, w.len(), n,
{
    s.len() > 0 && ((n <= w.len() && in_lang(s[0], w.take(n as int)) && in_lang_cats(
        s.drop_first(),
        w.skip(n as int),
    )) || (n > 0 && split_cats(s, w, (n - 1) as nat)))
}

/// `w` splits into a word of `a` followed by a word of `b`.
pub open spec fn cat_lang(a: Term, b: Term, w: Seq<char>) -> bool {
    exists|u: Seq<char>, v: Seq<char>|
        #![trigger in_lang(a, u), in_lang(b, v)]
        w == u + v && in_lang(a, u) && in_lang(b, v)
}

/// `w` splits into a word of `s[0]` followed by a word of the rest of `s`.
pub open spec fn cats_lang(s: Seq<Term>, w: Seq<char>) -> bool {
    exists|u: Seq<char>, v: Seq<char>|
        #![trigger in_lang(s[0], u), in_lang_cats(s.drop_first(), v)]
        w == u + v && in_lang(s[0], u) && in_lang_cats(s.drop_first(), v)
}

/// `w` splits into a non-empty word of `a` followed by a word of `a*`.
pub open spec fn star_lang(a: Term, w: Seq<char>) -> bool {
    exists|u: Seq<char>, v: Seq<char>|
        #![trigger in_lang(a, u), in_lang(Term::Star(Box::new(a)), v)]
        w == u + v && u.len() > 0 && in_lang(a, u) && in_lang(Term::Star(Box::new(a)), v)
}

proof fn lemma_split_cat(a: Term, b: Term, w: Seq<char>, n: nat)
    requires
        n <= w.len(),
    ensures
        split_cat(cat(a, b), w, n) <==> exists|i: int|
            0 <= i <= n && #[trigger] in_lang(a, w.take(i)) && in_lang(b, w.skip(i)),
    decreases n,
{
    if n > 0 {
        lemma_split_cat(a, b, w, (n - 1) as nat);
    }
    if in_lang(a, w.take(n as int)) && in_lang(b, w.skip(n as int)) {
        assert(in_lang(a, w.take(n as int)));
    }
    if exists|i: int| 0 <= i <= n && #[trigger] in_lang(a, w.take(i)) && in_lang(b, w.skip(i)) {
        let i = choose|i: int| 0 <= i <= n && #[trigger] in_lang(a, w.take(i)) && in_lang(b, w.skip(i));
        if i < n {
            assert(in_lang(a, w.take(i)));
        }
    }
}

/// The language of a binary concatenation.
pub proof fn lemma_cat(a: Term, b: Term, w: Seq<char>)
    ensures
        in_lang(cat(a, b), w) <==> cat_lang(a, b, w),
{
    lemma_split_cat(a, b, w, w.len());
    if in_lang(cat(a, b), w) {
        let i = choose|i: int| 0 <= i <= w.len() && #[trigger] in_lang(a, w.take(i)) && in_lang(b, w.skip(i));
        assert(w =~= w.take(i) + w.skip(i));
    }
    if cat_lang(a, b, w) {
        let (u, v) = choose|u: Seq<char>, v: Seq<char>| w == u + v && in_lang(a, u) && in_lang(b, v);
        assert(w.take(u.len() as int) =~= u);
        assert(w.skip(u.len() as int) =~= v);
    }
}

proof fn lemma_split_cats(s: Seq<Term>, w: Seq<char>, n: nat)
    requires
        n <= w.len(),
        s.len() > 0,
    ensures
        split_cats(s, w, n) <==> exists|i: int|
            0 <= i <= n && #[trigger] in_lang(s[0], w.take(i)) && in_lang_cats(s.drop_first(), w.skip(i)),
    decreases n,
{
    if n > 0 {
        lemma_split_cats(s, w, (n - 1) as nat);
    }
    if in_lang(s[0], w.take(n as int)) && in_lang_cats(s.drop_first(), w.skip(n as int)) {
        assert(in_lang(s[0], w.take(n as int)));
    }
    if exists|i: int| 0 <= i <= n && #[trigger] in_lang(s[0], w.take(i)) && in_lang_cats(s.drop_first(), w.skip(i)) {
        let i = choose|i: int| 0 <= i <= n && #[trigger] in_lang(s[0], w.take(i)) && in_lang_cats(s.drop_first(), w.skip(i));
        if i < n {
            assert(in_lang(s[0], w.take(i)));
        }
    }
}

/// The language of a non-empty n-ary concatenation.
pub proof fn lemma_cats(s: Seq<Term>, w: Seq<char>)
    requires
        s.len() > 0,
    ensures
        in_lang_cats(s, w) <==> cats_lang(s, w),
{
    lemma_split_cats(s, w, w.len());
    if in_lang_cats(s, w) {
        let i = choose|i: int| 0 <= i <= w.len() && #[trigger] in_lang(s[0], w.take(i)) && in_lang_cats(s.drop_first(), w.skip(i));
        assert(w =~= w.take(i) + w.skip(i));
    }
    if cats_lang(s, w) {
        let (u, v) = choose|u: Seq<char>, v: Seq<char>| w == u + v && in_lang(s[0], u) && in_lang_cats(s.drop_first(), v);
        assert(w.take(u.len() as int) =~= u);
        assert(w.skip(u.len() as int) =~= v);
    }
}

proof fn lemma_split_star(a: Term, w: Seq<char>, n: nat)
    requires
        n <= w.len(),
    ensures
        split_star(Term::Star(Box::new(a)), w, n) <==> exists|i: int|
            1 <= i <= n && #[trigger] in_lang(a, w.take(i)) && in_lang(Term::Star(Box::new(a)), w.skip(i)),
    decreases n,
{
    let t = Term::Star(Box::new(a));
    if n > 0 {
        lemma_split_star(a, w, (n - 1) as nat);
    }
    if n >= 1 && in_lang(a, w.take(n as int)) && in_lang(t, w.skip(n as int)) {
        assert(in_lang(a, w.take(n as int)));
    }
    if exists|i: int| 1 <= i <= n && #[trigger] in_lang(a, w.take(i)) && in_lang(t, w.skip(i)) {
        let i = choose|i: int| 1 <= i <= n && #[trigger] in_lang(a, w.take(i)) && in_lang(t, w.skip(i));
        if i < n {
            assert(in_lang(a, w.take(i)));
        }
    }
}

/// The language of a star.
pub proof fn lemma_star(a: Term, w: Seq<char>)
    ensures
        in_lang(Term::Star(Box::new(a)), w) <==> (w.len() == 0 || star_lang(a, w)),
{
    let t = Term::Star(Box::new(a));
    lemma_split_star(a, w, w.len());
    if in_lang(t, w) && w.len() > 0 {
        let i = choose|i: int| 1 <= i <= w.len() && #[trigger] in_lang(a, w.take(i)) && in_lang(t, w.skip(i));
        assert(w =~= w.take(i) + w.skip(i));
    }
    if star_lang(a, w) {
        let (u, v) = choose|u: Seq<char>, v: Seq<char>| w == u + v && u.len() > 0 && in_lang(a, u) && in_lang(t, v);
        assert(w.take(u.len() as int) =~= u);
        assert(w.skip(u.len() as int) =~= v);
    }
}

/// Whether the expression accepts the empty word, computed on its structure.
pub open spec fn is_nullable(t: Term) -> bool
    decreases t,
{
    match t {
        Term::Eps => true,
        Term::Lit(_) => false,
        Term::Cat(a, b) => is_nullable(*a) && is_nullable(*b),
        Term::Cats(s) => all_nullable(s),
        Term::Alt(a, b) => is_nullable(*a) || is_nullable(*b),
        Term::Star(_) => true,
    }
}

/// Every element of `s` is nullable.
pub open spec fn all_nullable(s: Seq<Term>) -> bool
    decreases s,
{
    s.len() == 0 || (is_nullable(s[0]) && all_nullable(s.drop_first()))
}

/// The characters that occur in `t`.
pub open spec fn letters_of(t: Term) -> Set<char>
    decreases t,
{
    match t {
        Term::Eps => Set::empty(),
        Term::Lit(c) => set![c],
        Term::Cat(a, b) => letters_of(*a) + letters_of(*b),
        Term::Cats(s) => letters_of_cats(s),
        Term::Alt(a, b) => letters_of(*a) + letters_of(*b),
        Term::Star(a) => letters_of(*a),
    }
}

/// The characters that occur in the elements of `s`.
pub open spec fn letters_of_cats(s: Seq<Term>) -> Set<char>
    decreases s,
{
    if s.len() == 0 {
        Set::empty()
    } else {
        letters_of(s[0]) + letters_of_cats(s.drop_first())
    }
}

/// Each element of `s` concatenated with `b` by `smart_cat`.
pub open spec fn cat_each(s: Set<Term>, b: Term) -> Set<Term> {
    s.map(|x: Term| smart_cat(x, b))
}

/// Each element of `s` concatenated with `b` by `smart_cats`.
pub open spec fn cats_each(s: Set<Term>, b: Term) -> Set<Term> {
    s.map(|x: Term| smart_cats(x, b))
}

/// The partial derivatives with respect to `c` of all elements of `s`.
pub open spec fn pd_set(c: char, s: Set<Term>) -> Set<Term> {
    Set::new(|y: Term| exists|x: Term| s.contains(x) && #[trigger] pd(c, x).contains(y))
}

/// The set reached from `s` by taking partial derivatives with respect to
/// the characters of `w`, one after the other.
pub open spec fn pd_word(w: Seq<char>, s: Set<Term>) -> Set<Term>
    decreases w.len(),
{
    if w.len() == 0 {
        s
    } else {
        pd_set(w.last(), pd_word(w.drop_last(), s))
    }
}

/// Every character of `w` is in `a`.
pub open spec fn over(w: Seq<char>, a: Set<char>) -> bool {
    forall|i: int| 0 <= i < w.len() ==> a.contains(#[trigger] w[i])
}

/// The descendants of `t`: the expressions reached from `t` by partial
/// derivatives along words over the letters of `t`.
pub open spec fn reach(t: Term) -> Set<Term> {
    Set::new(|x: Term| exists|w: Seq<char>| over(w, letters_of(t)) && #[trigger] pd_word(w, set![t]).contains(x))
}

/// The partial derivatives of the elements of `s` with respect to the
/// characters of `a`.
pub open spec fn pd_alpha(a: Set<char>, s: Set<Term>) -> Set<Term> {
    Set::new(|y: Term| exists|c: char, x: Term| a.contains(c) && s.contains(x) && #[trigger] pd(c, x).contains(y))
}

/// The partial derivatives of `t` with respect to `c` (Antimirov).
pub open spec fn pd(c: char, t: Term) -> Set<Term>
    decreases t,
{
    match t {
        Term::Eps => Set::empty(),
        Term::Lit(y) => if c == y {
            set![Term::Eps]
        } else {
            Set::empty()
        },
        Term::Cat(a, b) => cat_each(pd(c, *a), *b) + (if is_nullable(*a) {
            pd(c, *b)
        } else {
            Set::empty()
        }),
        Term::Cats(s) => pd_cats(c, s),
        Term::Alt(a, b) => pd(c, *a) + pd(c, *b),
        Term::Star(a) => cat_each(pd(c, *a), Term::Star(a)),
    }
}

/// The partial derivatives of the n-ary concatenation of `s`.
pub open spec fn pd_cats(c: char, s: Seq<Term>) -> Set<Term>
    decreases s,
{
    if s.len() == 0 {
        Set::empty()
    } else if s.len() == 1 {
        pd(c, s[0])
    } else {
        cats_each(pd(c, s[0]), Term::Cats(s.drop_first())) + (if is_nullable(s[0]) {
            pd_cats(c, s.drop_first())
        } else {
            Set::empty()
        })
    }
}

/// Binary concatenation as a term.
pub open spec fn cat(a: Term, b: Term) -> Term {
    Term::Cat(Box::new(a), Box::new(b))
}

/// An expression is nullable exactly when it accepts the empty word.
pub proof fn lemma_nullable(t: Term)
    ensures
        is_nullable(t) <==> in_lang(t, Seq::empty()),
    decreases t,
{
    let e = Seq::<char>::empty();
    match t {
        Term::Lit(c) => {
            assert(seq![c].len() == 1);
        },
        Term::Cat(a, b) => {
            lemma_nullable(*a);
            lemma_nullable(*b);
            lemma_cat(*a, *b, e);
            if is_nullable(t) {
                assert(e =~= e + e);
                assert(in_lang(*a, e) && in_lang(*b, e));
            }
            if in_lang(t, e) {
                let (u, v) = choose|u: Seq<char>, v: Seq<char>|
                    e == u + v && in_lang(*a, u) && in_lang(*b, v);
                assert(u =~= e);
                assert(v =~= e);
            }
        },
        Term::Cats(s) => {
            lemma_nullable_cats(s);
        },
        Term::Alt(a, b) => {
            lemma_nullable(*a);
            lemma_nullable(*b);
        },
        _ => {},
    }
}

pub proof fn lemma_nullable_cats(s: Seq<Term>)
    ensures
        all_nullable(s) <==> in_lang_cats(s, Seq::empty()),
    decreases s,
{
    let e = Seq::<char>::empty();
    if s.len() > 0 {
        lemma_nullable(s[0]);
        lemma_nullable_cats(s.drop_first());
        lemma_cats(s, e);
        if all_nullable(s) {
            assert(e =~= e + e);
            assert(in_lang(s[0], e) && in_lang_cats(s.drop_first(), e));
        }
        if in_lang_cats(s, e) {
            let (u, v) = choose|u: Seq<char>, v: Seq<char>|
                e == u + v && in_lang(s[0], u) && in_lang_cats(s.drop_first(), v);
            assert(u =~= e);
            assert(v =~= e);
        }
    }
}

/// A concatenation of one expression has the language of that expression.
pub proof fn lemma_cats_single(b: Term, w: Seq<char>)
    ensures
        in_lang_cats(seq![b], w) <==> in_lang(b, w),
{
    let s = seq![b];
    let e = Seq::<char>::empty();
    assert(s[0] == b);
    assert(s.drop_first() =~= Seq::<Term>::empty());
    lemma_cats(s, w);
    if in_lang(b, w) {
        assert(w =~= w + e);
        assert(in_lang(s[0], w) && in_lang_cats(s.drop_first(), e));
    }
    if in_lang_cats(s, w) {
        let (u, v) = choose|u: Seq<char>, v: Seq<char>|
            w == u + v && in_lang(s[0], u) && in_lang_cats(s.drop_first(), v);
        assert(v.len() == 0);
        assert(w =~= u);
    }
}

/// `Eps` is a left unit of concatenation.
pub proof fn lemma_cat_eps_left(b: Term, w: Seq<char>)
    ensures
        in_lang(cat(Term::Eps, b), w) <==> in_lang(b, w),
{
    let e = Seq::<char>::empty();
    lemma_cat(Term::Eps, b, w);
    if in_lang(b, w) {
        assert(w =~= e + w);
        assert(in_lang(Term::Eps, e) && in_lang(b, w));
    }
    if in_lang(cat(Term::Eps, b), w) {
        let (u, v) = choose|u: Seq<char>, v: Seq<char>|
            w == u + v && in_lang(Term::Eps, u) && in_lang(b, v);
        assert(w =~= v);
    }
}

/// `Eps` is a right unit of concatenation.
pub proof fn lemma_cat_eps_right(a: Term, w: Seq<char>)
    ensures
        in_lang(cat(a, Term::Eps), w) <==> in_lang(a, w),
{
    let e = Seq::<char>::empty();
    lemma_cat(a, Term::Eps, w);
    if in_lang(a, w) {
        assert(w =~= w + e);
        assert(in_lang(a, w) && in_lang(Term::Eps, e));
    }
    if in_lang(cat(a, Term::Eps), w) {
        let (u, v) = choose|u: Seq<char>, v: Seq<char>|
            w == u + v && in_lang(a, u) && in_lang(Term::Eps, v);
        assert(w =~= u);
    }
}

/// Concatenating two element lists concatenates their languages.
pub proof fn lemma_cats_append(ls: Seq<Term>, rs: Seq<Term>, w: Seq<char>)
    ensures
        in_lang_cats(ls + rs, w) <==> cat_lang(Term::Cats(ls), Term::Cats(rs), w),
    decreases ls.len(),
{
    let e = Seq::<char>::empty();
    if ls.len() == 0 {
        assert(ls + rs =~= rs);
        assert(in_lang_cats(ls, e));
        if in_lang_cats(rs, w) {
            assert(w =~= e + w);
            assert(in_lang(Term::Cats(ls), e) && in_lang(Term::Cats(rs), w));
        }
        if cat_lang(Term::Cats(ls), Term::Cats(rs), w) {
            let (u, v) = choose|u: Seq<char>, v: Seq<char>|
                w == u + v && in_lang(Term::Cats(ls), u) && in_lang(Term::Cats(rs), v);
            assert(in_lang_cats(ls, u));
            assert(u.len() == 0);
            assert(w =~= v);
        }
    } else {
        let l = ls[0];
        let lt = ls.drop_first();
        let s = ls + rs;
        assert(s[0] == l);
        assert(s.drop_first() =~= lt + rs);
        lemma_cats(s, w);
        if in_lang_cats(s, w) {
            let (u, v) = choose|u: Seq<char>, v: Seq<char>|
                w == u + v && in_lang(s[0], u) && in_lang_cats(s.drop_first(), v);
            lemma_cats_append(lt, rs, v);
            let (p, q) = choose|p: Seq<char>, q: Seq<char>|
                v == p + q && in_lang(Term::Cats(lt), p) && in_lang(Term::Cats(rs), q);
            lemma_cats(ls, u + p);
            assert(in_lang(ls[0], u) && in_lang_cats(ls.drop_first(), p));
            assert(in_lang_cats(ls, u + p));
            assert(w =~= (u + p) + q);
            assert(in_lang(Term::Cats(ls), u + p) && in_lang(Term::Cats(rs), q));
        }
        if cat_lang(Term::Cats(ls), Term::Cats(rs), w) {
            let (x, q) = choose|x: Seq<char>, q: Seq<char>|
                w == x + q && in_lang(Term::Cats(ls), x) && in_lang(Term::Cats(rs), q);
            lemma_cats(ls, x);
            let (u, p) = choose|u: Seq<char>, p: Seq<char>|
                x == u + p && in_lang(ls[0], u) && in_lang_cats(ls.drop_first(), p);
            assert(in_lang(Term::Cats(lt), p) && in_lang(Term::Cats(rs), q));
            assert(p + q =~= p + q);
            lemma_cats_append(lt, rs, p + q);
            assert(w =~= u + (p + q));
            assert(in_lang(s[0], u) && in_lang_cats(s.drop_first(), p + q));
        }
    }
}

/// `smart_cat` denotes concatenation.
pub proof fn lemma_smart_cat(a: Term, b: Term, w: Seq<char>)
    ensures
        in_lang(smart_cat(a, b), w) <==> cat_lang(a, b, w),
{
    lemma_cat(a, b, w);
    if a is Eps {
        lemma_cat_eps_left(b, w);
    } else if b is Eps {
        lemma_cat_eps_right(a, w);
    }
}

/// Replacing the right operand by one with the same language keeps the
/// language of a concatenation.
proof fn lemma_cat_lang_right(a: Term, b1: Term, b2: Term, w: Seq<char>)
    requires
        forall|v: Seq<char>| in_lang(b1, v) <==> #[trigger] in_lang(b2, v),
    ensures
        cat_lang(a, b1, w) <==> cat_lang(a, b2, w),
{
    if cat_lang(a, b1, w) {
        let (u, v) = choose|u: Seq<char>, v: Seq<char>| w == u + v && in_lang(a, u) && in_lang(b1, v);
        assert(in_lang(a, u) && in_lang(b2, v));
    }
    if cat_lang(a, b2, w) {
        let (u, v) = choose|u: Seq<char>, v: Seq<char>| w == u + v && in_lang(a, u) && in_lang(b2, v);
        assert(in_lang(a, u) && in_lang(b1, v));
    }
}

/// `smart_cats` denotes concatenation.
pub proof fn lemma_smart_cats(a: Term, b: Term, w: Seq<char>)
    ensures
        in_lang(smart_cats(a, b), w) <==> cat_lang(a, b, w),
{
    lemma_cat(a, b, w);
    if a is Eps {
        lemma_cat_eps_left(b, w);
    } else if b is Eps {
        lemma_cat_eps_right(a, w);
    } else {
        match (a, b) {
            (Term::Cats(ls), Term::Cats(rs)) => {
                lemma_cats_append(ls, rs, w);
            },
            (_, Term::Cats(rs)) => {
                let s = seq![a] + rs;
                assert(s[0] == a);
                assert(s.drop_first() =~= rs);
                lemma_cats(s, w);
                assert forall|v: Seq<char>| in_lang_cats(rs, v) <==> #[trigger] in_lang(b, v) by {}
                if cats_lang(s, w) {
                    let (u, v) = choose|u: Seq<char>, v: Seq<char>|
                        w == u + v && in_lang(s[0], u) && in_lang_cats(s.drop_first(), v);
                    assert(in_lang(a, u) && in_lang(b, v));
                }
                if cat_lang(a, b, w) {
                    let (u, v) = choose|u: Seq<char>, v: Seq<char>| w == u + v && in_lang(a, u) && in_lang(b, v);
                    assert(in_lang(s[0], u) && in_lang_cats(s.drop_first(), v));
                }
            },
            (Term::Cats(ls), _) => {
                assert(ls.push(b) =~= ls + seq![b]);
                lemma_cats_append(ls, seq![b], w);
                assert forall|v: Seq<char>| in_lang(Term::Cats(seq![b]), v) <==> #[trigger] in_lang(b, v) by {
                    lemma_cats_single(b, v);
                }
                lemma_cat_lang_right(a, Term::Cats(seq![b]), b, w);
            },
            _ => {
                let s = seq![a, b];
                assert(s[0] == a);
                assert(s.drop_first() =~= seq![b]);
                lemma_cats(s, w);
                if cats_lang(s, w) {
                    let (u, v) = choose|u: Seq<char>, v: Seq<char>|
                        w == u + v && in_lang(s[0], u) && in_lang_cats(s.drop_first(), v);
                    lemma_cats_single(b, v);
                    assert(in_lang(a, u) && in_lang(b, v));
                }
                if cat_lang(a, b, w) {
                    let (u, v) = choose|u: Seq<char>, v: Seq<char>| w == u + v && in_lang(a, u) && in_lang(b, v);
                    lemma_cats_single(b, v);
                    assert(in_lang(s[0], u) && in_lang_cats(s.drop_first(), v));
                }
            },
        }
    }
}

/// Every word of a partial derivative of `t` with respect to `c`, preceded
/// by `c`, is a word of `t`.
pub proof fn lemma_pd_sound(c: char, t: Term, x: Term, w: Seq<char>)
    requires
        pd(c, t).contains(x),
        in_lang(x, w),
    ensures
        in_lang(t, seq![c] + w),
    decreases t,
{
    let cw = seq![c] + w;
    let e = Seq::<char>::empty();
    match t {
        Term::Lit(y) => {
            assert(w.len() == 0);
            assert(cw =~= seq![y]);
        },
        Term::Cat(a, b) => {
            lemma_cat(*a, *b, cw);
            if is_nullable(*a) && pd(c, *b).contains(x) {
                lemma_pd_sound(c, *b, x, w);
                lemma_nullable(*a);
                assert(cw =~= e + cw);
                assert(in_lang(*a, e) && in_lang(*b, cw));
            } else {
                let y = choose|y: Term| pd(c, *a).contains(y) && smart_cat(y, *b) == x;
                lemma_smart_cat(y, *b, w);
                let (u, v) = choose|u: Seq<char>, v: Seq<char>| w == u + v && in_lang(y, u) && in_lang(*b, v);
                lemma_pd_sound(c, *a, y, u);
                assert(cw =~= (seq![c] + u) + v);
                assert(in_lang(*a, seq![c] + u) && in_lang(*b, v));
            }
        },
        Term::Cats(s) => {
            lemma_pd_sound_cats(c, s, x, w);
        },
        Term::Alt(a, b) => {
            if pd(c, *a).contains(x) {
                lemma_pd_sound(c, *a, x, w);
            } else {
                lemma_pd_sound(c, *b, x, w);
            }
        },
        Term::Star(a) => {
            let y = choose|y: Term| pd(c, *a).contains(y) && smart_cat(y, t) == x;
            lemma_smart_cat(y, t, w);
            let (u, v) = choose|u: Seq<char>, v: Seq<char>| w == u + v && in_lang(y, u) && in_lang(t, v);
            lemma_pd_sound(c, *a, y, u);
            lemma_star(*a, cw);
            assert(cw =~= (seq![c] + u) + v);
            assert(in_lang(*a, seq![c] + u) && in_lang(Term::Star(Box::new(*a)), v));
        },
        _ => {},
    }
}

pub proof fn lemma_pd_sound_cats(c: char, s: Seq<Term>, x: Term, w: Seq<char>)
    requires
        pd_cats(c, s).contains(x),
        in_lang(x, w),
    ensures
        in_lang_cats(s, seq![c] + w),
    decreases s,
{
    let cw = seq![c] + w;
    let e = Seq::<char>::empty();
    if s.len() == 1 {
        lemma_pd_sound(c, s[0], x, w);
        assert(s =~= seq![s[0]]);
        lemma_cats_single(s[0], cw);
    } else if s.len() > 1 {
        let rest = s.drop_first();
        lemma_cats(s, cw);
        if is_nullable(s[0]) && pd_cats(c, rest).contains(x) {
            lemma_pd_sound_cats(c, rest, x, w);
            lemma_nullable(s[0]);
            assert(cw =~= e + cw);
            assert(in_lang(s[0], e) && in_lang_cats(rest, cw));
        } else {
            let y = choose|y: Term| pd(c, s[0]).contains(y) && smart_cats(y, Term::Cats(rest)) == x;
            lemma_smart_cats(y, Term::Cats(rest), w);
            let (u, v) = choose|u: Seq<char>, v: Seq<char>|
                w == u + v && in_lang(y, u) && in_lang(Term::Cats(rest), v);
            lemma_pd_sound(c, s[0], y, u);
            assert(cw =~= (seq![c] + u) + v);
            assert(in_lang_cats(rest, v));
            assert(in_lang(s[0], seq![c] + u) && in_lang_cats(s.drop_first(), v));
        }
    }
}

/// Every word of `t` that starts with `c` is `c` followed by a word of some
/// partial derivative of `t` with respect to `c`.
pub proof fn lemma_pd_complete(c: char, t: Term, w: Seq<char>)
    requires
        in_lang(t, seq![c] + w),
    ensures
        exists|x: Term| pd(c, t).contains(x) && in_lang(x, w),
    decreases t,
{
    let cw = seq![c] + w;
    let e = Seq::<char>::empty();
    match t {
        Term::Eps => {
            assert(cw.len() > 0);
        },
        Term::Lit(y) => {
            assert(cw.len() == 1);
            assert(cw[0] == c);
            assert(w =~= e);
            assert(pd(c, t).contains(Term::Eps));
            assert(in_lang(Term::Eps, w));
        },
        Term::Cat(a, b) => {
            lemma_cat(*a, *b, cw);
            let (u, v) = choose|u: Seq<char>, v: Seq<char>| cw == u + v && in_lang(*a, u) && in_lang(*b, v);
            if u.len() == 0 {
                assert(u =~= e);
                lemma_nullable(*a);
                assert(v =~= cw);
                lemma_pd_complete(c, *b, w);
                let x = choose|x: Term| pd(c, *b).contains(x) && in_lang(x, w);
                assert(pd(c, t).contains(x));
            } else {
                let u1 = u.drop_first();
                assert(u[0] == cw[0]);
                assert(u =~= seq![c] + u1);
                assert(cw =~= seq![c] + (u1 + v));
            assert(cw.drop_first() =~= w);
            assert((seq![c] + (u1 + v)).drop_first() =~= u1 + v);
            assert(w =~= u1 + v);
                lemma_pd_complete(c, *a, u1);
                let y = choose|y: Term| pd(c, *a).contains(y) && in_lang(y, u1);
                let x = smart_cat(y, *b);
                assert(pd(c, t).contains(x));
                lemma_smart_cat(y, *b, w);
                assert(in_lang(y, u1) && in_lang(*b, v));
            }
        },
        Term::Cats(s) => {
            lemma_pd_complete_cats(c, s, w);
        },
        Term::Alt(a, b) => {
            if in_lang(*a, cw) {
                lemma_pd_complete(c, *a, w);
                let x = choose|x: Term| pd(c, *a).contains(x) && in_lang(x, w);
                assert(pd(c, t).contains(x));
            } else {
                lemma_pd_complete(c, *b, w);
                let x = choose|x: Term| pd(c, *b).contains(x) && in_lang(x, w);
                assert(pd(c, t).contains(x));
            }
        },
        Term::Star(a) => {
            lemma_star(*a, cw);
            let (u, v) = choose|u: Seq<char>, v: Seq<char>|
                cw == u + v && u.len() > 0 && in_lang(*a, u) && in_lang(Term::Star(Box::new(*a)), v);
            let u1 = u.drop_first();
            assert(u[0] == cw[0]);
            assert(u =~= seq![c] + u1);
            assert(cw =~= seq![c] + (u1 + v));
            assert(cw.drop_first() =~= w);
            assert((seq![c] + (u1 + v)).drop_first() =~= u1 + v);
            assert(w =~= u1 + v);
            lemma_pd_complete(c, *a, u1);
            let y = choose|y: Term| pd(c, *a).contains(y) && in_lang(y, u1);
            let x = smart_cat(y, t);
            assert(pd(c, t).contains(x));
            lemma_smart_cat(y, t, w);
            assert(in_lang(y, u1) && in_lang(t, v));
        },
    }
}

pub proof fn lemma_pd_complete_cats(c: char, s: Seq<Term>, w: Seq<char>)
    requires
        in_lang_cats(s, seq![c] + w),
    ensures
        exists|x: Term| pd_cats(c, s).contains(x) && in_lang(x, w),
    decreases s,
{
    let cw = seq![c] + w;
    let e = Seq::<char>::empty();
    if s.len() == 0 {
        assert(cw.len() > 0);
    } else if s.len() == 1 {
        assert(s =~= seq![s[0]]);
        lemma_cats_single(s[0], cw);
        lemma_pd_complete(c, s[0], w);
    } else {
        let rest = s.drop_first();
        lemma_cats(s, cw);
        let (u, v) = choose|u: Seq<char>, v: Seq<char>|
            cw == u + v && in_lang(s[0], u) && in_lang_cats(s.drop_first(), v);
        if u.len() == 0 {
            assert(u =~= e);
            lemma_nullable(s[0]);
            assert(v =~= cw);
            lemma_pd_complete_cats(c, rest, w);
            let x = choose|x: Term| pd_cats(c, rest).contains(x) && in_lang(x, w);
            assert(pd_cats(c, s).contains(x));
        } else {
            let u1 = u.drop_first();
            assert(u[0] == cw[0]);
            assert(u =~= seq![c] + u1);
            assert(cw =~= seq![c] + (u1 + v));
            assert(cw.drop_first() =~= w);
            assert((seq![c] + (u1 + v)).drop_first() =~= u1 + v);
            assert(w =~= u1 + v);
            lemma_pd_complete(c, s[0], u1);
            let y = choose|y: Term| pd(c, s[0]).contains(y) && in_lang(y, u1);
            let x = smart_cats(y, Term::Cats(rest));
            assert(pd_cats(c, s).contains(x));
            lemma_smart_cats(y, Term::Cats(rest), w);
            assert(in_lang(Term::Cats(rest), v));
            assert(in_lang(y, u1) && in_lang(Term::Cats(rest), v));
        }
    }
}

/// The partial derivatives of `t` with respect to `c` denote the words that
/// follow `c` in the words of `t`.
pub proof fn lemma_pd_lang(c: char, t: Term, w: Seq<char>)
    ensures
        in_lang(t, seq![c] + w) <==> exists|x: Term| pd(c, t).contains(x) && in_lang(x, w),
{
    if in_lang(t, seq![c] + w) {
        lemma_pd_complete(c, t, w);
    }
    if exists|x: Term| pd(c, t).contains(x) && in_lang(x, w) {
        let x = choose|x: Term| pd(c, t).contains(x) && in_lang(x, w);
        lemma_pd_sound(c, t, x, w);
    }
}

/// Taking derivatives along `w` leaves the words that complete `w` to a
/// word of some element of `s`.
pub proof fn lemma_pd_word(w: Seq<char>, s: Set<Term>, v: Seq<char>)
    ensures
        (exists|x: Term| pd_word(w, s).contains(x) && #[trigger] in_lang(x, v)) <==> (exists|x: Term|
            s.contains(x) && #[trigger] in_lang(x, w + v)),
    decreases w.len(),
{
    if w.len() == 0 {
        assert(w + v =~= v);
    } else {
        let c = w.last();
        let w1 = w.drop_last();
        let p = pd_word(w1, s);
        let cv = seq![c] + v;
        assert(w1 + cv =~= w + v);
        lemma_pd_word(w1, s, cv);
        if exists|x: Term| pd_word(w, s).contains(x) && #[trigger] in_lang(x, v) {
            let x = choose|x: Term| pd_word(w, s).contains(x) && #[trigger] in_lang(x, v);
            let y = choose|y: Term| p.contains(y) && #[trigger] pd(c, y).contains(x);
            lemma_pd_sound(c, y, x, v);
            assert(p.contains(y) && in_lang(y, cv));
        }
        if exists|x: Term| s.contains(x) && #[trigger] in_lang(x, w + v) {
            let y = choose|y: Term| p.contains(y) && #[trigger] in_lang(y, cv);
            lemma_pd_complete(c, y, v);
            let x = choose|x: Term| pd(c, y).contains(x) && in_lang(x, v);
            assert(pd_word(w, s).contains(x));
        }
    }
}

/// Some expression reached along `w` from `s` is nullable exactly when `w`
/// is a word of some element of `s`.
pub proof fn lemma_accepts(w: Seq<char>, s: Set<Term>)
    ensures
        (exists|x: Term| pd_word(w, s).contains(x) && #[trigger] is_nullable(x)) <==> (exists|x: Term|
            s.contains(x) && #[trigger] in_lang(x, w)),
{
    let e = Seq::<char>::empty();
    lemma_pd_word(w, s, e);
    assert(w + e =~= w);
    if exists|x: Term| pd_word(w, s).contains(x) && #[trigger] is_nullable(x) {
        let x = choose|x: Term| pd_word(w, s).contains(x) && #[trigger] is_nullable(x);
        lemma_nullable(x);
        assert(in_lang(x, e));
    }
    if exists|x: Term| pd_word(w, s).contains(x) && #[trigger] in_lang(x, e) {
        let x = choose|x: Term| pd_word(w, s).contains(x) && #[trigger] in_lang(x, e);
        lemma_nullable(x);
        assert(is_nullable(x));
    }
}

pub proof fn lemma_pd_word_push(w: Seq<char>, c: char, s: Set<Term>)
    ensures
        pd_word(w.push(c), s) == pd_set(c, pd_word(w, s)),
{
    assert(w.push(c).drop_last() =~= w);
}

/// `pd_set` distributes over adding an element.
pub proof fn lemma_pd_set_insert(c: char, a: Set<Term>, x: Term)
    ensures
        pd_set(c, a.insert(x)) == pd_set(c, a) + pd(c, x),
{
    assert forall|y: Term| #[trigger] pd_set(c, a.insert(x)).contains(y) <==> (pd_set(c, a) + pd(c, x)).contains(y) by {
        if pd_set(c, a.insert(x)).contains(y) {
            let z = choose|z: Term| a.insert(x).contains(z) && #[trigger] pd(c, z).contains(y);
            if z != x {
                assert(a.contains(z));
            }
        }
        if pd(c, x).contains(y) {
            assert(a.insert(x).contains(x));
        }
        if pd_set(c, a).contains(y) {
            let z = choose|z: Term| a.contains(z) && #[trigger] pd(c, z).contains(y);
            assert(a.insert(x).contains(z));
        }
    }
    assert(pd_set(c, a.insert(x)) =~= pd_set(c, a) + pd(c, x));
}

pub proof fn lemma_letters_cats_single(x: Term)
    ensures
        letters_of_cats(seq![x]) == letters_of(x),
{
    let one = seq![x];
    let e = Seq::<Term>::empty();
    assert(one[0] == x);
    assert(one.drop_first() =~= e);
    assert(letters_of_cats(e) == Set::<char>::empty());
    assert(letters_of_cats(one) =~= letters_of(x));
}

pub proof fn lemma_letters_cats_append(ls: Seq<Term>, rs: Seq<Term>)
    ensures
        letters_of_cats(ls + rs) == letters_of_cats(ls) + letters_of_cats(rs),
    decreases ls.len(),
{
    if ls.len() == 0 {
        assert(ls + rs =~= rs);
        assert(letters_of_cats(ls) + letters_of_cats(rs) =~= letters_of_cats(rs));
    } else {
        assert((ls + rs).drop_first() =~= ls.drop_first() + rs);
        assert((ls + rs)[0] == ls[0]);
        lemma_letters_cats_append(ls.drop_first(), rs);
        assert(letters_of_cats(ls + rs) =~= letters_of_cats(ls) + letters_of_cats(rs));
    }
}

/// The letters of a smart concatenation are those of its operands.
pub proof fn lemma_letters_smart(a: Term, b: Term)
    ensures
        letters_of(smart_cat(a, b)) == letters_of(a) + letters_of(b),
        letters_of(smart_cats(a, b)) == letters_of(a) + letters_of(b),
{
    let e = Seq::<Term>::empty();
    assert(letters_of(Term::Eps) =~= Set::<char>::empty());
    assert(letters_of(a) + Set::<char>::empty() =~= letters_of(a));
    assert(Set::<char>::empty() + letters_of(b) =~= letters_of(b));
    assert(letters_of_cats(e) == Set::<char>::empty());
    assert(letters_of_cats(seq![b]) =~= letters_of(b)) by {
        assert(seq![b].drop_first() =~= e);
    }
    assert(letters_of_cats(seq![a]) =~= letters_of(a)) by {
        assert(seq![a].drop_first() =~= e);
    }
    match (a, b) {
        (Term::Eps, _) => {},
        (_, Term::Eps) => {},
        (Term::Cats(ls), Term::Cats(rs)) => {
            lemma_letters_cats_append(ls, rs);
        },
        (_, Term::Cats(rs)) => {
            lemma_letters_cats_append(seq![a], rs);
        },
        (Term::Cats(ls), _) => {
            assert(ls.push(b) =~= ls + seq![b]);
            lemma_letters_cats_append(ls, seq![b]);
        },
        _ => {
            assert(seq![a, b] =~= seq![a] + seq![b]);
            lemma_letters_cats_append(seq![a], seq![b]);
        },
    }
}

/// A partial derivative of `t` with respect to `c` exists only when `c`
/// occurs in `t`, and uses only letters of `t`.
pub proof fn lemma_pd_letters(c: char, t: Term, y: Term)
    requires
        pd(c, t).contains(y),
    ensures
        letters_of(t).contains(c),
        letters_of(y) <= letters_of(t),
    decreases t,
{
    match t {
        Term::Lit(d) => {
            assert(letters_of(Term::Eps) =~= Set::<char>::empty());
        },
        Term::Cat(a, b) => {
            if cat_each(pd(c, *a), *b).contains(y) {
                let z = choose|z: Term| pd(c, *a).contains(z) && smart_cat(z, *b) == y;
                lemma_pd_letters(c, *a, z);
                lemma_letters_smart(z, *b);
            } else {
                lemma_pd_letters(c, *b, y);
            }
        },
        Term::Cats(s) => {
            lemma_pd_letters_cats(c, s, y);
        },
        Term::Alt(a, b) => {
            if pd(c, *a).contains(y) {
                lemma_pd_letters(c, *a, y);
            } else {
                lemma_pd_letters(c, *b, y);
            }
        },
        Term::Star(a) => {
            let z = choose|z: Term| pd(c, *a).contains(z) && smart_cat(z, t) == y;
            lemma_pd_letters(c, *a, z);
            lemma_letters_smart(z, t);
        },
        _ => {},
    }
}

pub proof fn lemma_pd_letters_cats(c: char, s: Seq<Term>, y: Term)
    requires
        pd_cats(c, s).contains(y),
    ensures
        letters_of_cats(s).contains(c),
        letters_of(y) <= letters_of_cats(s),
    decreases s,
{
    if s.len() == 1 {
        lemma_pd_letters(c, s[0], y);
    } else if s.len() > 1 {
        let rest = s.drop_first();
        if cats_each(pd(c, s[0]), Term::Cats(rest)).contains(y) {
            let z = choose|z: Term| pd(c, s[0]).contains(z) && smart_cats(z, Term::Cats(rest)) == y;
            lemma_pd_letters(c, s[0], z);
            lemma_letters_smart(z, Term::Cats(rest));
        } else {
            lemma_pd_letters_cats(c, rest, y);
        }
    }
}

/// A set that contains `t` and its derivatives with respect to the
/// characters of `a` contains everything reached from `t` along words over `a`.
pub proof fn lemma_pd_word_within(w: Seq<char>, a: Set<char>, t: Term, s: Set<Term>)
    requires
        over(w, a),
        s.contains(t),
        pd_alpha(a, s) <= s,
    ensures
        pd_word(w, set![t]) <= s,
    decreases w.len(),
{
    if w.len() == 0 {
        assert forall|x: Term| set![t].contains(x) implies s.contains(x) by {}
    } else {
        let w1 = w.drop_last();
        assert(over(w1, a)) by {
            assert forall|i: int| 0 <= i < w1.len() implies a.contains(#[trigger] w1[i]) by {
                assert(w1[i] == w[i]);
            }
        }
        lemma_pd_word_within(w1, a, t, s);
        let c = w.last();
        assert(a.contains(w[w.len() - 1]));
        assert forall|y: Term| pd_word(w, set![t]).contains(y) implies s.contains(y) by {
            let x = choose|x: Term| pd_word(w1, set![t]).contains(x) && #[trigger] pd(c, x).contains(y);
            assert(pd_alpha(a, s).contains(y));
        }
    }
}

/// `x` and `y` denote the same language.
pub open spec fn same_lang(x: Term, y: Term) -> bool {
    forall|w: Seq<char>| #![trigger in_lang(x, w)] #![trigger in_lang(y, w)] in_lang(x, w) == in_lang(y, w)
}

/// The concatenation of `a1` and `b1` splits `w` as that of `a2` and `b2`
/// does, when the operands have the same languages.
pub proof fn lemma_cat_lang_congr(a1: Term, b1: Term, a2: Term, b2: Term, w: Seq<char>)
    requires
        same_lang(a1, a2),
        same_lang(b1, b2),
    ensures
        cat_lang(a1, b1, w) == cat_lang(a2, b2, w),
{
    if cat_lang(a1, b1, w) {
        let (u, v) = choose|u: Seq<char>, v: Seq<char>| w == u + v && in_lang(a1, u) && in_lang(b1, v);
        assert(in_lang(a2, u) && in_lang(b2, v));
    }
    if cat_lang(a2, b2, w) {
        let (u, v) = choose|u: Seq<char>, v: Seq<char>| w == u + v && in_lang(a2, u) && in_lang(b2, v);
        assert(in_lang(a1, u) && in_lang(b1, v));
    }
}

proof fn lemma_star_congr_word(a1: Term, a2: Term, w: Seq<char>)
    requires
        same_lang(a1, a2),
    ensures
        in_lang(Term::Star(Box::new(a1)), w) == in_lang(Term::Star(Box::new(a2)), w),
    decreases w.len(),
{
    let t1 = Term::Star(Box::new(a1));
    let t2 = Term::Star(Box::new(a2));
    lemma_star(a1, w);
    lemma_star(a2, w);
    if w.len() > 0 {
        if star_lang(a1, w) {
            let (u, v) = choose|u: Seq<char>, v: Seq<char>|
                w == u + v && u.len() > 0 && in_lang(a1, u) && in_lang(t1, v);
            lemma_star_congr_word(a1, a2, v);
            assert(in_lang(a2, u) && in_lang(t2, v));
        }
        if star_lang(a2, w) {
            let (u, v) = choose|u: Seq<char>, v: Seq<char>|
                w == u + v && u.len() > 0 && in_lang(a2, u) && in_lang(t2, v);
            lemma_star_congr_word(a1, a2, v);
            assert(in_lang(a1, u) && in_lang(t1, v));
        }
    }
}

/// Replacing the operands by ones with the same languages keeps the
/// language of a concatenation, an alternation and a star.
pub proof fn lemma_congr(a1: Term, b1: Term, a2: Term, b2: Term)
    requires
        same_lang(a1, a2),
        same_lang(b1, b2),
    ensures
        same_lang(cat(a1, b1), cat(a2, b2)),
        same_lang(Term::Alt(Box::new(a1), Box::new(b1)), Term::Alt(Box::new(a2), Box::new(b2))),
        same_lang(Term::Star(Box::new(a1)), Term::Star(Box::new(a2))),
{
    assert forall|w: Seq<char>| in_lang(cat(a1, b1), w) == in_lang(cat(a2, b2), w) by {
        lemma_cat(a1, b1, w);
        lemma_cat(a2, b2, w);
        lemma_cat_lang_congr(a1, b1, a2, b2, w);
    }
    assert forall|w: Seq<char>| in_lang(Term::Star(Box::new(a1)), w) == in_lang(Term::Star(Box::new(a2)), w) by {
        lemma_star_congr_word(a1, a2, w);
    }
    assert forall|w: Seq<char>|
        in_lang(Term::Alt(Box::new(a1), Box::new(b1)), w) == in_lang(Term::Alt(Box::new(a2), Box::new(b2)), w) by {
        assert(in_lang(a1, w) == in_lang(a2, w));
        assert(in_lang(b1, w) == in_lang(b2, w));
    }
}

/// An n-ary concatenation has the language of its first element followed
/// by the concatenation of the others.
pub proof fn lemma_cats_cons(s: Seq<Term>)
    requires
        s.len() > 0,
    ensures
        same_lang(Term::Cats(s), cat(s[0], Term::Cats(s.drop_first()))),
{
    assert forall|w: Seq<char>| in_lang(Term::Cats(s), w) == in_lang(cat(s[0], Term::Cats(s.drop_first())), w) by {
        lemma_cats(s, w);
        lemma_cat(s[0], Term::Cats(s.drop_first()), w);
        if cats_lang(s, w) {
            let (u, v) = choose|u: Seq<char>, v: Seq<char>|
                w == u + v && in_lang(s[0], u) && in_lang_cats(s.drop_first(), v);
            assert(in_lang(s[0], u) && in_lang(Term::Cats(s.drop_first()), v));
        }
        if cat_lang(s[0], Term::Cats(s.drop_first()), w) {
            let (u, v) = choose|u: Seq<char>, v: Seq<char>|
                w == u + v && in_lang(s[0], u) && in_lang(Term::Cats(s.drop_first()), v);
            assert(in_lang(s[0], u) && in_lang_cats(s.drop_first(), v));
        }
    }
}

/// Concatenations of element-wise equivalent lists are equivalent.
pub proof fn lemma_cats_congr(s1: Seq<Term>, s2: Seq<Term>)
    requires
        s1.len() == s2.len(),
        forall|i: int| 0 <= i < s1.len() ==> same_lang(#[trigger] s1[i], s2[i]),
    ensures
        same_lang(Term::Cats(s1), Term::Cats(s2)),
    decreases s1.len(),
{
    if s1.len() == 0 {
        assert forall|w: Seq<char>| in_lang(Term::Cats(s1), w) == in_lang(Term::Cats(s2), w) by {
            assert(in_lang_cats(s1, w) == (w.len() == 0));
            assert(in_lang_cats(s2, w) == (w.len() == 0));
        }
    } else {
        let r1 = s1.drop_first();
        let r2 = s2.drop_first();
        assert forall|i: int| 0 <= i < r1.len() implies same_lang(#[trigger] r1[i], r2[i]) by {
            assert(same_lang(s1[i + 1], s2[i + 1]));
        }
        lemma_cats_congr(r1, r2);
        assert(same_lang(s1[0], s2[0]));
        lemma_congr(s1[0], Term::Cats(r1), s2[0], Term::Cats(r2));
        lemma_cats_cons(s1);
        lemma_cats_cons(s2);
    }
}

} // verus!
