//! The mathematical model of a regular expression, and the total order on it.

use vstd::prelude::*;

verus! {

/// The value a regular expression stands for: the same tree as `R`, with
/// the vector of an n-ary concatenation seen as a mathematical sequence.
pub enum Term {
    Eps,
    Lit(char),
    Cat(Box<Term>, Box<Term>),
    Cats(Seq<Term>),
    Alt(Box<Term>, Box<Term>),
    Star(Box<Term>),
}

/// Concatenation that drops an `Eps` on either side.
pub open spec fn smart_cat(a: Term, b: Term) -> Term {
    match (a, b) {
        (Term::Eps, _) => b,
        (_, Term::Eps) => a,
        _ => Term::Cat(Box::new(a), Box::new(b)),
    }
}

/// N-ary concatenation that drops an `Eps` on either side and merges the
/// element lists of `Cats` operands.
pub open spec fn smart_cats(a: Term, b: Term) -> Term {
    match (a, b) {
        (Term::Eps, _) => b,
        (_, Term::Eps) => a,
        (Term::Cats(ls), Term::Cats(rs)) => Term::Cats(ls + rs),
        (_, Term::Cats(rs)) => Term::Cats(seq![a] + rs),
        (Term::Cats(ls), _) => Term::Cats(ls.push(b)),
        _ => Term::Cats(seq![a, b]),
    }
}

/// `smart_cats` is associative.
pub proof fn lemma_smart_cats_associative(a: Term, b: Term, c: Term)
    ensures
        smart_cats(smart_cats(a, b), c) == smart_cats(a, smart_cats(b, c)),
{
    if !(a is Eps) && !(b is Eps) && !(c is Eps) {
        match (a, b, c) {
            (Term::Cats(x), Term::Cats(y), Term::Cats(z)) => {
                assert(x + y + z =~= x + (y + z));
            },
            (Term::Cats(x), Term::Cats(y), _) => {
                assert((x + y).push(c) =~= x + y.push(c));
            },
            (Term::Cats(x), _, Term::Cats(z)) => {
                assert(x.push(b) + z =~= x + (seq![b] + z));
            },
            (_, Term::Cats(y), Term::Cats(z)) => {
                assert(seq![a] + y + z =~= seq![a] + (y + z));
            },
            (Term::Cats(x), _, _) => {
                assert(x.push(b).push(c) =~= x + seq![b, c]);
            },
            (_, Term::Cats(y), _) => {
                assert((seq![a] + y).push(c) =~= seq![a] + y.push(c));
            },
            (_, _, Term::Cats(z)) => {
                assert(seq![a, b] + z =~= seq![a] + (seq![b] + z));
            },
            _ => {
                assert(seq![a, b].push(c) =~= seq![a] + seq![b, c]);
            },
        }
    }
}

/// Position of a constructor in the declaration order, which the order on
/// expressions compares first.
pub open spec fn rank(t: Term) -> int {
    match t {
        Term::Eps => 0,
        Term::Lit(_) => 1,
        Term::Cat(_, _) => 2,
        Term::Cats(_) => 3,
        Term::Alt(_, _) => 4,
        Term::Star(_) => 5,
    }
}

pub open spec fn char_order(a: char, b: char) -> int {
    if a < b {
        -1
    } else if a == b {
        0
    } else {
        1
    }
}

/// Three-way comparison of expressions: constructors in declaration order,
/// then the fields from left to right, sequences lexicographically
/// (a proper prefix comes first). Negative means "less than".
pub open spec fn term_order(a: Term, b: Term) -> int
    decreases a,
{
    if rank(a) < rank(b) {
        -1
    } else if rank(a) > rank(b) {
        1
    } else {
        match (a, b) {
            (Term::Lit(x), Term::Lit(y)) => char_order(x, y),
            (Term::Cat(a1, a2), Term::Cat(b1, b2)) => {
                let c = term_order(*a1, *b1);
                if c != 0 {
                    c
                } else {
                    term_order(*a2, *b2)
                }
            },
            (Term::Cats(s), Term::Cats(t)) => seq_order(s, t),
            (Term::Alt(a1, a2), Term::Alt(b1, b2)) => {
                let c = term_order(*a1, *b1);
                if c != 0 {
                    c
                } else {
                    term_order(*a2, *b2)
                }
            },
            (Term::Star(x), Term::Star(y)) => term_order(*x, *y),
            _ => 0,
        }
    }
}

/// Lexicographic comparison of sequences of expressions.
pub open spec fn seq_order(s: Seq<Term>, t: Seq<Term>) -> int
    decreases s,
{
    if s.len() == 0 {
        if t.len() == 0 {
            0
        } else {
            -1
        }
    } else if t.len() == 0 {
        1
    } else {
        let c = term_order(s[0], t[0]);
        if c != 0 {
            c
        } else {
            seq_order(s.drop_first(), t.drop_first())
        }
    }
}

pub open spec fn term_lt(a: Term, b: Term) -> bool {
    term_order(a, b) < 0
}

/// The sequence is strictly increasing: sorted, with no element twice.
pub open spec fn strictly_sorted(s: Seq<Term>) -> bool {
    forall|i: int, j: int| 0 <= i < j < s.len() ==> term_lt(#[trigger] s[i], #[trigger] s[j])
}

/// `s` lists the elements of `set` in increasing order, each once.
pub open spec fn lists(s: Seq<Term>, set: Set<Term>) -> bool {
    &&& strictly_sorted(s)
    &&& s.to_set() == set
}

/// The comparison is antisymmetric and decides equality.
pub proof fn lemma_order_basic(a: Term, b: Term)
    ensures
        -1 <= term_order(a, b) <= 1,
        term_order(a, b) == -term_order(b, a),
        term_order(a, b) == 0 <==> a == b,
    decreases a,
{
    match (a, b) {
        (Term::Cat(a1, a2), Term::Cat(b1, b2)) => {
            lemma_order_basic(*a1, *b1);
            lemma_order_basic(*a2, *b2);
        },
        (Term::Alt(a1, a2), Term::Alt(b1, b2)) => {
            lemma_order_basic(*a1, *b1);
            lemma_order_basic(*a2, *b2);
        },
        (Term::Star(x), Term::Star(y)) => {
            lemma_order_basic(*x, *y);
        },
        (Term::Cats(s), Term::Cats(t)) => {
            lemma_seq_order_basic(s, t);
        },
        _ => {},
    }
}

pub proof fn lemma_seq_order_basic(s: Seq<Term>, t: Seq<Term>)
    ensures
        -1 <= seq_order(s, t) <= 1,
        seq_order(s, t) == -seq_order(t, s),
        seq_order(s, t) == 0 <==> s == t,
    decreases s,
{
    if s.len() > 0 && t.len() > 0 {
        lemma_order_basic(s[0], t[0]);
        lemma_seq_order_basic(s.drop_first(), t.drop_first());
        if s[0] == t[0] && s.drop_first() == t.drop_first() {
            assert(s =~= seq![s[0]] + s.drop_first());
            assert(t =~= seq![t[0]] + t.drop_first());
        }
        if s == t {
            assert(s.drop_first() == t.drop_first());
        }
    } else if s.len() == 0 && t.len() == 0 {
        assert(s =~= t);
    }
}

/// The comparison is transitive.
pub proof fn lemma_order_trans(a: Term, b: Term, c: Term)
    requires
        term_order(a, b) < 0,
        term_order(b, c) < 0,
    ensures
        term_order(a, c) < 0,
    decreases a,
{
    lemma_order_basic(a, b);
    lemma_order_basic(b, c);
    if rank(a) == rank(b) && rank(b) == rank(c) {
        match (a, b, c) {
            (Term::Cat(a1, a2), Term::Cat(b1, b2), Term::Cat(c1, c2)) => {
                lemma_order_basic(*a1, *b1);
                lemma_order_basic(*b1, *c1);
                lemma_order_basic(*a1, *c1);
                if term_order(*a1, *b1) < 0 && term_order(*b1, *c1) < 0 {
                    lemma_order_trans(*a1, *b1, *c1);
                } else if term_order(*a2, *b2) < 0 && term_order(*b2, *c2) < 0 {
                    lemma_order_trans(*a2, *b2, *c2);
                }
            },
            (Term::Alt(a1, a2), Term::Alt(b1, b2), Term::Alt(c1, c2)) => {
                lemma_order_basic(*a1, *b1);
                lemma_order_basic(*b1, *c1);
                lemma_order_basic(*a1, *c1);
                if term_order(*a1, *b1) < 0 && term_order(*b1, *c1) < 0 {
                    lemma_order_trans(*a1, *b1, *c1);
                } else if term_order(*a2, *b2) < 0 && term_order(*b2, *c2) < 0 {
                    lemma_order_trans(*a2, *b2, *c2);
                }
            },
            (Term::Star(x), Term::Star(y), Term::Star(z)) => {
                lemma_order_trans(*x, *y, *z);
            },
            (Term::Cats(s), Term::Cats(t), Term::Cats(u)) => {
                lemma_seq_order_trans(s, t, u);
            },
            _ => {},
        }
    }
}

pub proof fn lemma_seq_order_trans(s: Seq<Term>, t: Seq<Term>, u: Seq<Term>)
    requires
        seq_order(s, t) < 0,
        seq_order(t, u) < 0,
    ensures
        seq_order(s, u) < 0,
    decreases s,
{
    if s.len() > 0 && t.len() > 0 && u.len() > 0 {
        lemma_order_basic(s[0], t[0]);
        lemma_order_basic(t[0], u[0]);
        lemma_order_basic(s[0], u[0]);
        if term_order(s[0], t[0]) < 0 && term_order(t[0], u[0]) < 0 {
            lemma_order_trans(s[0], t[0], u[0]);
        } else if term_order(s[0], t[0]) == 0 && term_order(t[0], u[0]) == 0 {
            lemma_seq_order_trans(s.drop_first(), t.drop_first(), u.drop_first());
        }
    }
}

} // verus!
