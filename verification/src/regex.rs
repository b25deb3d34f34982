//! A simple regular expression data type.

use vstd::prelude::*;
use crate::normal::{cat_free, cat_free_list, to_cats, to_cats_list, flatten, flatten_list, splice, normal_form, lemma_to_cats_list, lemma_cat_free_list, lemma_to_cats_cat_free, lemma_flatten_list_append, lemma_flatten_list_single};
use crate::syntax::{depth, balanced, closes_at, is_first_close, join, parse_spec, pattern, lemma_depth_append, lemma_depth_single, lemma_balanced_rest, lemma_balanced_group, lemma_first_close_unique};
use crate::term::{Term, smart_cat, smart_cats, rank, term_order, seq_order, lemma_order_basic, lemma_seq_order_basic};

verus! {

/// A regular expression abstract syntax tree.
#[derive(Debug, PartialOrd, Ord)]
pub enum R {
    /// The empty string.
    Eps,
    /// A single character literal.
    L(char),
    /// Concatenation of two regexes.
    Cat(Box<R>, Box<R>),
    /// Concatenation of n regexes.
    Seqs(Vec<R>),
    /// Alternation between two regexes.
    Alt(Box<R>, Box<R>),
    /// Kleene star.
    Star(Box<R>),
}

/// The model of a regular expression.
pub open spec fn term_of(r: R) -> Term
    decreases r,
{
    match r {
        R::Eps => Term::Eps,
        R::L(c) => Term::Lit(c),
        R::Cat(a, b) => Term::Cat(Box::new(term_of(*a)), Box::new(term_of(*b))),
        R::Seqs(v) => Term::Cats(terms_of(v@)),
        R::Alt(a, b) => Term::Alt(Box::new(term_of(*a)), Box::new(term_of(*b))),
        R::Star(a) => Term::Star(Box::new(term_of(*a))),
    }
}

/// The models of a sequence of regular expressions.
pub open spec fn terms_of(s: Seq<R>) -> Seq<Term>
    decreases s,
{
    if s.len() == 0 {
        Seq::empty()
    } else {
        terms_of(s.drop_last()).push(term_of(s.last()))
    }
}

impl View for R {
    type V = Term;

    open spec fn view(&self) -> Term {
        term_of(*self)
    }
}

pub proof fn lemma_terms_of(s: Seq<R>)
    ensures
        terms_of(s).len() == s.len(),
        forall|i: int| 0 <= i < s.len() ==> #[trigger] terms_of(s)[i] == term_of(s[i]),
    decreases s.len(),
{
    if s.len() > 0 {
        lemma_terms_of(s.drop_last());
    }
}

fn rank_of(r: &R) -> (res: u8)
    ensures
        res as int == rank(r@),
{
    match r {
        R::Eps => 0,
        R::L(_) => 1,
        R::Cat(_, _) => 2,
        R::Seqs(_) => 3,
        R::Alt(_, _) => 4,
        R::Star(_) => 5,
    }
}

/// Three-way comparison of two regexes (negative: `a` comes first), in the
/// order that a derived `Ord` gives the enum.
pub fn compare(a: &R, b: &R) -> (res: i8)
    ensures
        res as int == term_order(a@, b@),
    decreases a,
{
    let ra = rank_of(a);
    let rb = rank_of(b);
    if ra < rb {
        return -1;
    }
    if ra > rb {
        return 1;
    }
    match (a, b) {
        (R::L(x), R::L(y)) => {
            if *x < *y {
                -1
            } else if *x == *y {
                0
            } else {
                1
            }
        },
        (R::Cat(a1, a2), R::Cat(b1, b2)) => {
            let c = compare(a1, b1);
            if c != 0 {
                c
            } else {
                compare(a2, b2)
            }
        },
        (R::Seqs(v), R::Seqs(w)) => compare_vecs(v, w),
        (R::Alt(a1, a2), R::Alt(b1, b2)) => {
            let c = compare(a1, b1);
            if c != 0 {
                c
            } else {
                compare(a2, b2)
            }
        },
        (R::Star(x), R::Star(y)) => compare(x, y),
        _ => 0,
    }
}

/// Lexicographic comparison of two vectors of regexes.
pub fn compare_vecs(v: &Vec<R>, w: &Vec<R>) -> (res: i8)
    ensures
        res as int == seq_order(terms_of(v@), terms_of(w@)),
    decreases v,
{
    let ghost s = terms_of(v@);
    let ghost t = terms_of(w@);
    proof {
        lemma_terms_of(v@);
        lemma_terms_of(w@);
        assert(s.skip(0) =~= s);
        assert(t.skip(0) =~= t);
    }
    let mut i: usize = 0;
    while i < v.len() && i < w.len()
        invariant
            i <= v.len(),
            i <= w.len(),
            s == terms_of(v@),
            t == terms_of(w@),
            s.len() == v@.len(),
            t.len() == w@.len(),
            forall|k: int| 0 <= k < v@.len() ==> #[trigger] s[k] == term_of(v@[k]),
            forall|k: int| 0 <= k < w@.len() ==> #[trigger] t[k] == term_of(w@[k]),
            seq_order(s, t) == seq_order(s.skip(i as int), t.skip(i as int)),
        decreases v.len() - i,
    {
        let c = compare(&v[i], &w[i]);
        assert(s.skip(i as int)[0] == s[i as int]);
        assert(t.skip(i as int)[0] == t[i as int]);
        if c != 0 {
            return c;
        }
        assert(s.skip(i as int).drop_first() =~= s.skip(i + 1));
        assert(t.skip(i as int).drop_first() =~= t.skip(i + 1));
        i = i + 1;
    }
    if i < v.len() {
        1
    } else if i < w.len() {
        -1
    } else {
        0
    }
}

/// Element-wise equality of two vectors of regexes.
pub fn equal_vecs(a: &Vec<R>, b: &Vec<R>) -> (res: bool)
    ensures
        res == (terms_of(a@) == terms_of(b@)),
{
    proof {
        lemma_seq_order_basic(terms_of(a@), terms_of(b@));
    }
    compare_vecs(a, b) == 0
}

/// Structural equality of two regexes.
pub fn equal(a: &R, b: &R) -> (res: bool)
    ensures
        res == (a@ == b@),
{
    proof {
        lemma_order_basic(a@, b@);
    }
    compare(a, b) == 0
}

/// A deep copy.
pub fn copy(r: &R) -> (res: R)
    ensures
        res@ == r@,
    decreases r,
{
    match r {
        R::Eps => R::Eps,
        R::L(c) => R::L(*c),
        R::Cat(a, b) => R::Cat(Box::new(copy(a)), Box::new(copy(b))),
        R::Seqs(v) => R::Seqs(copy_vec(v)),
        R::Alt(a, b) => R::Alt(Box::new(copy(a)), Box::new(copy(b))),
        R::Star(a) => R::Star(Box::new(copy(a))),
    }
}

/// A deep copy of a vector of regexes.
pub fn copy_vec(v: &Vec<R>) -> (res: Vec<R>)
    ensures
        terms_of(res@) == terms_of(v@),
    decreases v,
{
    let mut out: Vec<R> = Vec::new();
    let mut i: usize = 0;
    while i < v.len()
        invariant
            i <= v.len(),
            out@.len() == i,
            forall|k: int| 0 <= k < i ==> #[trigger] term_of(out@[k]) == term_of(v@[k]),
        decreases v.len() - i,
    {
        out.push(copy(&v[i]));
        i = i + 1;
    }
    proof {
        lemma_terms_of(out@);
        lemma_terms_of(v@);
        assert(terms_of(out@) =~= terms_of(v@));
    }
    out
}

impl Clone for R {
    fn clone(&self) -> (res: R)
        ensures
            res@ == self@,
    {
        copy(self)
    }
}

impl PartialEq for R {
    fn eq(&self, other: &R) -> (res: bool) {
        equal(self, other)
    }
}

impl vstd::std_specs::cmp::PartialEqSpecImpl for R {
    open spec fn obeys_eq_spec() -> bool {
        true
    }

    open spec fn eq_spec(&self, other: &R) -> bool {
        self@ == other@
    }
}

impl Eq for R {

}

pub proof fn lemma_terms_of_add(a: Seq<R>, b: Seq<R>)
    ensures
        terms_of(a + b) == terms_of(a) + terms_of(b),
{
    lemma_terms_of(a);
    lemma_terms_of(b);
    lemma_terms_of(a + b);
    assert(terms_of(a + b) =~= terms_of(a) + terms_of(b));
}

/// A deep copy of the elements of `v` from position `from` on.
pub fn copy_from(v: &Vec<R>, from: usize) -> (res: Vec<R>)
    requires
        from <= v.len(),
    ensures
        terms_of(res@) == terms_of(v@).skip(from as int),
{
    let mut out: Vec<R> = Vec::new();
    let mut i: usize = from;
    while i < v.len()
        invariant
            from <= i <= v.len(),
            out@.len() == i - from,
            forall|k: int| 0 <= k < i - from ==> #[trigger] term_of(out@[k]) == term_of(v@[k + from]),
        decreases v.len() - i,
    {
        out.push(copy(&v[i]));
        i = i + 1;
    }
    proof {
        lemma_terms_of(out@);
        lemma_terms_of(v@);
        assert(terms_of(out@) =~= terms_of(v@).skip(from as int));
    }
    out
}

impl R {
    /// Concatenation of two regexes.
    pub fn seq(left: R, right: R) -> (res: R)
        ensures
            res@ == Term::Cat(Box::new(left@), Box::new(right@)),
    {
        R::Cat(Box::new(left), Box::new(right))
    }

    /// Concatenation that drops an `Eps` on either side: `Eps . r` and
    /// `r . Eps` are `r`; otherwise a binary concatenation.
    pub fn smart_seq(left: R, right: R) -> (res: R)
        ensures
            res@ == smart_cat(left@, right@),
    {
        match (left, right) {
            (R::Eps, right) => right,
            (left, R::Eps) => left,
            (left, right) => R::seq(left, right),
        }
    }

    /// Concatenation of n regexes.
    pub fn seqs(regexes: Vec<R>) -> (res: R)
        ensures
            res@ == Term::Cats(terms_of(regexes@)),
    {
        R::Seqs(regexes)
    }

    /// N-ary concatenation that drops an `Eps` on either side and keeps
    /// the element list flat: two `Seqs` are joined, a plain regex is put
    /// in front of or behind a `Seqs`, and two plain regexes make a new
    /// two-element `Seqs`.
    pub fn smart_seqs(left: R, right: R) -> (res: R)
        ensures
            res@ == smart_cats(left@, right@),
    {
        match (left, right) {
            (R::Eps, right) => right,
            (left, R::Eps) => left,
            (R::Seqs(mut ls), R::Seqs(mut rs)) => {
                let ghost l0 = ls@;
                let ghost r0 = rs@;
                ls.append(&mut rs);
                proof {
                    lemma_terms_of(l0);
                    lemma_terms_of(r0);
                    lemma_terms_of(ls@);
                    assert(terms_of(ls@) =~= terms_of(l0) + terms_of(r0));
                }
                R::Seqs(ls)
            },
            (left, R::Seqs(mut rs)) => {
                let ghost r0 = rs@;
                let ghost lt = left@;
                rs.insert(0, left);
                proof {
                    lemma_terms_of(r0);
                    lemma_terms_of(rs@);
                    assert(terms_of(rs@) =~= seq![lt] + terms_of(r0));
                }
                R::Seqs(rs)
            },
            (R::Seqs(mut ls), right) => {
                let ghost l0 = ls@;
                let ghost rt = right@;
                ls.push(right);
                proof {
                    lemma_terms_of(l0);
                    lemma_terms_of(ls@);
                    assert(terms_of(ls@) =~= terms_of(l0).push(rt));
                }
                R::Seqs(ls)
            },
            (left, right) => {
                let ghost lt = left@;
                let ghost rt = right@;
                let v = vec![left, right];
                proof {
                    lemma_terms_of(v@);
                    assert(terms_of(v@) =~= seq![lt, rt]);
                }
                R::Seqs(v)
            },
        }
    }

    /// Alternation between two regexes.
    pub fn alt(left: R, right: R) -> (res: R)
        ensures
            res@ == Term::Alt(Box::new(left@), Box::new(right@)),
    {
        R::Alt(Box::new(left), Box::new(right))
    }

    /// Kleene star of a regex.
    pub fn star(inner: R) -> (res: R)
        ensures
            res@ == Term::Star(Box::new(inner@)),
    {
        R::Star(Box::new(inner))
    }

    /// The regex that matches only the empty string.
    pub fn eps() -> (res: R)
        ensures
            res@ == Term::Eps,
    {
        R::Eps
    }

    /// The regular expression that the pattern `s` denotes. The syntax:
    /// a character matches itself, `rs` is the concatenation of `r` and
    /// `s`, `r*` repeats the atom `r` (a character or a group), `r|s` is an
    /// alternation, `(r)` groups. The star binds tightest, then
    /// concatenation, then alternation. The parentheses of `s` must match.
    pub fn from_str(s: &str) -> (res: R)
        requires
            balanced(s@),
        ensures
            res@ == pattern(s@),
    {
        let cs = chars_of(s);
        proof {
            assert(cs@.subrange(0, cs@.len() as int) =~= cs@);
        }
        parse(R::Eps, None, &cs, 0, cs.len())
    }

    /// The regex that matches the one character `c`.
    pub fn char(c: char) -> (res: R)
        ensures
            res@ == Term::Lit(c),
    {
        R::L(c)
    }
}

/// Normalizes a regex into Seq-Assoc normal form: every binary `Cat` becomes
/// a two-element `Seqs`, and every `Seqs` inside a `Seqs` is replaced by its
/// elements, so `(r . s) . t` and `r . (s . t)` both become `Seqs([r, s, t])`.
pub fn normalize(r: R) -> (res: R)
    ensures
        res@ == normal_form(r@),
{
    let s = seq_to_seqs(&r);
    proof {
        lemma_to_cats_cat_free(r@);
    }
    norm_seqs(&s)
}

/// Replaces every binary `Cat` by a two-element `Seqs`.
fn seq_to_seqs(r: &R) -> (res: R)
    ensures
        res@ == to_cats(r@),
    decreases r, 0nat,
{
    match r {
        R::Alt(left, right) => R::alt(seq_to_seqs(left), seq_to_seqs(right)),
        R::Star(inner) => R::star(seq_to_seqs(inner)),
        R::Cat(left, right) => {
            let v = vec![seq_to_seqs(left), seq_to_seqs(right)];
            proof {
                lemma_terms_of(v@);
                assert(terms_of(v@) =~= seq![to_cats(left@), to_cats(right@)]);
            }
            R::seqs(v)
        },
        R::Seqs(rs) => R::seqs(seq_to_seqs_vec(rs)),
        R::Eps => R::Eps,
        R::L(c) => R::L(*c),
    }
}

fn seq_to_seqs_vec(rs: &Vec<R>) -> (res: Vec<R>)
    ensures
        terms_of(res@) == to_cats_list(terms_of(rs@)),
    decreases rs, 1nat,
{
    let mut out: Vec<R> = Vec::new();
    let mut i: usize = 0;
    while i < rs.len()
        invariant
            i <= rs.len(),
            out@.len() == i,
            forall|k: int| 0 <= k < i ==> #[trigger] term_of(out@[k]) == to_cats(term_of(rs@[k])),
        decreases rs.len() - i,
    {
        out.push(seq_to_seqs(&rs[i]));
        i = i + 1;
    }
    proof {
        lemma_terms_of(out@);
        lemma_terms_of(rs@);
        lemma_to_cats_list(terms_of(rs@));
        assert(terms_of(out@) =~= to_cats_list(terms_of(rs@)));
    }
    out
}

/// Flattens nested `Seqs`: the elements of a `Seqs` are normalized, and
/// those that are `Seqs` themselves are replaced by their elements.
fn norm_seqs(r: &R) -> (res: R)
    requires
        cat_free(r@),
    ensures
        res@ == flatten(r@),
    decreases r, 0nat,
{
    match r {
        R::Alt(left, right) => R::alt(norm_seqs(left), norm_seqs(right)),
        R::Star(inner) => R::star(norm_seqs(inner)),
        R::Cat(_, _) => {
            proof {
                assert(false);
            }
            R::Eps
        },
        R::Seqs(rs) => R::seqs(norm_seqs_vec(rs)),
        R::Eps => R::Eps,
        R::L(c) => R::L(*c),
    }
}

fn norm_seqs_vec(rs: &Vec<R>) -> (res: Vec<R>)
    requires
        cat_free_list(terms_of(rs@)),
    ensures
        terms_of(res@) == flatten_list(terms_of(rs@)),
    decreases rs, 1nat,
{
    let ghost s = terms_of(rs@);
    proof {
        lemma_terms_of(rs@);
        lemma_cat_free_list(s);
        assert(s.take(0) =~= Seq::<Term>::empty());
    }
    let mut out: Vec<R> = Vec::new();
    let mut i: usize = 0;
    while i < rs.len()
        invariant
            i <= rs.len(),
            s == terms_of(rs@),
            s.len() == rs@.len(),
            forall|k: int| 0 <= k < rs@.len() ==> #[trigger] s[k] == term_of(rs@[k]),
            forall|k: int| 0 <= k < s.len() ==> #[trigger] cat_free(s[k]),
            terms_of(out@) == flatten_list(s.take(i as int)),
        decreases rs.len() - i,
    {
        assert(cat_free(s[i as int]));
        let n = norm_seqs(&rs[i]);
        let ghost o0 = out@;
        let ghost nt = n@;
        match n {
            R::Seqs(mut xs) => {
                let ghost x0 = xs@;
                out.append(&mut xs);
                proof {
                    lemma_terms_of_add(o0, x0);
                    assert(splice(nt) == terms_of(x0));
                }
            },
            other => {
                out.push(other);
                proof {
                    lemma_terms_of(o0);
                    lemma_terms_of(out@);
                    assert(terms_of(out@) =~= terms_of(o0) + seq![nt]);
                    assert(splice(nt) == seq![nt]);
                }
            },
        }
        proof {
            assert(s.take(i + 1) =~= s.take(i as int) + seq![s[i as int]]);
            lemma_flatten_list_append(s.take(i as int), seq![s[i as int]]);
            lemma_flatten_list_single(s[i as int]);
        }
        i = i + 1;
    }
    proof {
        assert(s.take(s.len() as int) =~= s);
    }
    out
}

/// The characters of `s`.
fn chars_of(s: &str) -> (res: Vec<char>)
    ensures
        res@ == s@,
{
    let mut out: Vec<char> = Vec::new();
    proof {
        broadcast use vstd::string::axiom_spec_iter;
    }
    for c in it: s.chars()
        invariant
            it.seq() == s@,
            out@ == it.seq().take(it.index()),
    {
        proof {
            assert(out@.push(c) =~= it.seq().take(it.index() + 1));
        }
        out.push(c);
    }
    proof {
        assert(out@ =~= s@);
    }
    out
}

/// The view of an optional regex.
pub open spec fn opt_term(o: Option<R>) -> Option<Term> {
    match o {
        Some(x) => Some(x@),
        None => None,
    }
}

/// `prev` followed by the pending atom `last`, if any.
fn join_atom(prev: R, last: Option<R>) -> (res: R)
    ensures
        res@ == join(prev@, opt_term(last)),
{
    match last {
        Some(x) => R::smart_seqs(prev, x),
        None => prev,
    }
}

/// Finds the `)` that matches the `(` just before position `lo`, tracking
/// the nesting depth; the result counts from `lo`. `None` if there is none
/// before `hi`.
fn find_matching_paren(cs: &Vec<char>, lo: usize, hi: usize) -> (res: Option<usize>)
    requires
        lo <= hi <= cs.len(),
    ensures
        match res {
            Some(j) => is_first_close(cs@.subrange(lo as int, hi as int), j as int),
            None => forall|j: int| !closes_at(cs@.subrange(lo as int, hi as int), j),
        },
{
    let ghost s = cs@.subrange(lo as int, hi as int);
    let mut d: usize = 0;
    let mut i: usize = 0;
    proof {
        assert(s.take(0) =~= Seq::<char>::empty());
    }
    while i < hi - lo
        invariant
            lo <= hi <= cs.len(),
            s == cs@.subrange(lo as int, hi as int),
            i <= hi - lo,
            d <= i,
            d as int == depth(s.take(i as int)),
            forall|k: int| 0 <= k < i ==> !closes_at(s, k),
        decreases hi - lo - i,
    {
        let c = cs[lo + i];
        proof {
            assert(s[i as int] == c);
            assert(s.take(i + 1) =~= s.take(i as int) + seq![c]);
            lemma_depth_append(s.take(i as int), seq![c]);
            lemma_depth_single(c);
        }
        if c == '(' {
            d = d + 1;
        } else if c == ')' {
            if d == 0 {
                proof {
                    assert(closes_at(s, i as int));
                }
                return Some(i);
            }
            d = d - 1;
        }
        i = i + 1;
    }
    proof {
        assert forall|j: int| !closes_at(s, j) by {
            if 0 <= j < i {
            }
        }
    }
    None
}

/// Reads the pattern `cs[lo..hi]` into a regex, with `prev` read before the
/// pending atom `last`.
fn parse(prev: R, last: Option<R>, cs: &Vec<char>, lo: usize, hi: usize) -> (res: R)
    requires
        lo <= hi <= cs.len(),
        balanced(cs@.subrange(lo as int, hi as int)),
    ensures
        res@ == parse_spec(prev@, opt_term(last), cs@.subrange(lo as int, hi as int)),
    decreases hi - lo,
{
    let ghost s = cs@.subrange(lo as int, hi as int);
    if lo == hi {
        return join_atom(prev, last);
    }
    let c = cs[lo];
    let ghost rest = s.drop_first();
    proof {
        assert(s[0] == c);
        assert(rest =~= cs@.subrange(lo + 1, hi as int));
        lemma_balanced_rest(s);
    }
    if c == '(' {
        proof {
            lemma_balanced_group(s);
        }
        match find_matching_paren(cs, lo + 1, hi) {
            Some(close) => {
                proof {
                    lemma_first_close_unique(rest, close as int);
                    assert(rest.take(close as int) =~= cs@.subrange(lo + 1, lo + 1 + close));
                    assert(rest.skip(close + 1) =~= cs@.subrange(lo + 2 + close, hi as int));
                }
                let inner = parse(R::Eps, None, cs, lo + 1, lo + 1 + close);
                let joined = join_atom(prev, last);
                parse(joined, Some(inner), cs, lo + 2 + close, hi)
            },
            None => {
                proof {
                    let j = choose|j: int| is_first_close(rest, j);
                    assert(closes_at(rest, j));
                }
                join_atom(prev, last)
            },
        }
    } else if c == '|' {
        let joined = join_atom(prev, last);
        let right = parse(R::Eps, None, cs, lo + 1, hi);
        R::alt(joined, right)
    } else if c == '*' {
        let atom = match last {
            Some(x) => x,
            None => R::Eps,
        };
        parse(prev, Some(R::star(atom)), cs, lo + 1, hi)
    } else {
        let joined = join_atom(prev, last);
        parse(joined, Some(R::char(c)), cs, lo + 1, hi)
    }
}

} // verus!
