//! The textual syntax of regular expressions: balanced parentheses and the
//! expression a pattern denotes.

use vstd::prelude::*;
use crate::term::{Term, smart_cats, lemma_smart_cats_associative};
use crate::lang::in_lang;

verus! {

/// How a character changes the nesting depth of parentheses.
pub open spec fn delta(c: char) -> int {
    if c == '(' {
        1
    } else if c == ')' {
        -1
    } else {
        0
    }
}

/// Opening minus closing parentheses in `s`.
pub open spec fn depth(s: Seq<char>) -> int
    decreases s.len(),
{
    if s.len() == 0 {
        0
    } else {
        depth(s.drop_last()) + delta(s.last())
    }
}

/// The parentheses of `s` match: no prefix closes more than it opens, and
/// the whole opens as many as it closes.
pub open spec fn balanced(s: Seq<char>) -> bool {
    &&& depth(s) == 0
    &&& forall|i: int| 0 <= i <= s.len() ==> depth(#[trigger] s.take(i)) >= 0
}

/// Position `j` of `s` holds a `)` that closes a parenthesis opened just
/// before `s`.
pub open spec fn closes_at(s: Seq<char>, j: int) -> bool {
    0 <= j < s.len() && s[j] == ')' && depth(s.take(j)) == 0
}

/// `j` is the first such position.
pub open spec fn is_first_close(s: Seq<char>, j: int) -> bool {
    closes_at(s, j) && forall|k: int| 0 <= k < j ==> !closes_at(s, k)
}

/// The position of the `)` matching a `(` just before `s`.
pub open spec fn first_close(s: Seq<char>) -> int {
    choose|j: int| is_first_close(s, j)
}

/// `prev` followed by the pending atom `last`, if any.
pub open spec fn join(prev: Term, last: Option<Term>) -> Term {
    match last {
        Some(x) => smart_cats(prev, x),
        None => prev,
    }
}

/// The expression that the pattern `s` denotes, read left to right: `prev`
/// is what was read before the pending atom `last`. A character is an
/// atom, `(...)` a grouped atom, `*` repeats the pending atom (an empty
/// one if there is none), concatenation joins atoms, and `|` makes an
/// alternation of everything before it and everything after it.
pub open spec fn parse_spec(prev: Term, last: Option<Term>, s: Seq<char>) -> Term
    decreases s.len(),
{
    if s.len() == 0 {
        join(prev, last)
    } else {
        let c = s[0];
        let rest = s.drop_first();
        if c == '(' {
            let j = first_close(rest);
            if 0 <= j < rest.len() {
                parse_spec(
                    join(prev, last),
                    Some(parse_spec(Term::Eps, None, rest.take(j))),
                    rest.skip(j + 1),
                )
            } else {
                join(prev, last)
            }
        } else if c == '|' {
            Term::Alt(Box::new(join(prev, last)), Box::new(parse_spec(Term::Eps, None, rest)))
        } else if c == '*' {
            let atom = match last {
                Some(x) => x,
                None => Term::Eps,
            };
            parse_spec(prev, Some(Term::Star(Box::new(atom))), rest)
        } else {
            parse_spec(join(prev, last), Some(Term::Lit(c)), rest)
        }
    }
}

/// The expression the whole pattern `s` denotes.
pub open spec fn pattern(s: Seq<char>) -> Term {
    parse_spec(Term::Eps, None, s)
}

/// Every `|` of `s` stands inside parentheses.
pub open spec fn bars_nested(s: Seq<char>) -> bool {
    forall|i: int| 0 <= i < s.len() && s[i] == '|' ==> depth(#[trigger] s.take(i)) > 0
}

/// Reading a pattern after what was read before concatenates the two: where
/// the parentheses of `s` match and every `|` of `s` stands inside
/// parentheses, reading `s` after `prev`
/// gives `prev` followed by what `s` gives when read alone (a `*` repeats
/// only the atom just before it, never `prev`).
pub proof fn lemma_parse_after(prev: Term, last: Option<Term>, s: Seq<char>)
    requires
        balanced(s),
        bars_nested(s),
    ensures
        parse_spec(prev, last, s) == smart_cats(prev, parse_spec(Term::Eps, last, s)),
    decreases s.len(),
{
    let je = join(Term::Eps, last);
    assert(smart_cats(prev, je) == join(prev, last)) by {
        if let Some(x) = last {
            assert(je == x);
        }
    }
    if s.len() > 0 {
        let c = s[0];
        let rest = s.drop_first();
        assert(s =~= seq![c] + rest);
        lemma_balanced_rest(s);
        if c == '|' {
            assert(s.take(0) =~= Seq::<char>::empty());
            assert(depth(s.take(0)) == 0);
        } else if c == '(' {
            lemma_balanced_group(s);
            let j = first_close(rest);
            assert(is_first_close(rest, j));
            {
                let after = rest.skip(j + 1);
                let inner = Some(parse_spec(Term::Eps, None, rest.take(j)));
                assert(bars_nested(after)) by {
                    assert(closes_at(rest, j));
                    assert forall|k: int| 0 <= k < after.len() && after[k] == '|' implies depth(#[trigger] after.take(k)) > 0 by {
                        let pre = seq!['('] + rest.take(j) + seq![')'];
                        assert(s.take(j + 2 + k) =~= pre + after.take(k));
                        assert(s[j + 2 + k] == after[k]);
                        lemma_depth_append(pre, after.take(k));
                        lemma_depth_append(seq!['('] + rest.take(j), seq![')']);
                        lemma_depth_append(seq!['('], rest.take(j));
                        lemma_depth_single('(');
                        lemma_depth_single(')');
                    }
                }
                lemma_parse_after(join(prev, last), inner, after);
                lemma_parse_after(je, inner, after);
                lemma_smart_cats_associative(prev, je, parse_spec(Term::Eps, inner, after));
            }
        } else {
            assert(bars_nested(rest)) by {
                assert forall|k: int| 0 <= k < rest.len() && rest[k] == '|' implies depth(#[trigger] rest.take(k)) > 0 by {
                    lemma_depth_after(c, rest, k);
                    assert(s[k + 1] == rest[k]);
                    assert(s.take(k + 1) == (seq![c] + rest).take(k + 1));
                }
            }
            if c != '*' {
                lemma_parse_letter(prev, last, s, c);
                lemma_parse_letter(Term::Eps, last, s, c);
            }
            if c == '*' {
                let atom = match last {
                    Some(x) => x,
                    None => Term::Eps,
                };
                lemma_parse_after(prev, Some(Term::Star(Box::new(atom))), rest);
            } else {
                lemma_parse_after(join(prev, last), Some(Term::Lit(c)), rest);
                lemma_parse_after(je, Some(Term::Lit(c)), rest);
                lemma_smart_cats_associative(prev, je, parse_spec(Term::Eps, Some(Term::Lit(c)), rest));

            }
        }
    }
}

/// Reading, after `prev` and the pending atom `last`, a pattern `p` whose
/// `|`s all stand inside parentheses, then `|` and a pattern `rest`, makes
/// the alternation of what `p` gives and what `rest` gives alone.
proof fn lemma_parse_alt(prev: Term, last: Option<Term>, p: Seq<char>, rest: Seq<char>)
    requires
        balanced(p),
        bars_nested(p),
    ensures
        parse_spec(prev, last, p + seq!['|'] + rest) == Term::Alt(
            Box::new(parse_spec(prev, last, p)),
            Box::new(pattern(rest)),
        ),
    decreases p.len(),
{
    let s = p + seq!['|'] + rest;
    if p.len() == 0 {
        assert(s =~= seq!['|'] + rest);
        assert(s[0] == '|');
        assert(s.drop_first() =~= rest);
    } else {
        let c = p[0];
        let prest = p.drop_first();
        let srest = s.drop_first();
        assert(s[0] == c);
        assert(srest =~= prest + seq!['|'] + rest);
        assert(p =~= seq![c] + prest);
        lemma_balanced_rest(p);
        if c == '|' {
            assert(p.take(0) =~= Seq::<char>::empty());
            assert(depth(p.take(0)) == 0);
        } else if c == '(' {
            lemma_balanced_group(p);
            let j = first_close(prest);
            assert(is_first_close(prest, j));
            assert(is_first_close(srest, j)) by {
                assert(srest.take(j) =~= prest.take(j));
                assert(srest[j] == prest[j]);
                assert forall|k: int| 0 <= k < j implies !closes_at(srest, k) by {
                    assert(srest.take(k) =~= prest.take(k));
                    assert(srest[k] == prest[k]);
                    assert(!closes_at(prest, k));
                }
            }
            lemma_first_close_unique(srest, j);
            lemma_first_close_unique(prest, j);
            let after = prest.skip(j + 1);
            assert(srest.take(j) =~= prest.take(j));
            assert(srest.skip(j + 1) =~= after + seq!['|'] + rest);
            assert(bars_nested(after)) by {
                assert(closes_at(prest, j));
                assert forall|k: int| 0 <= k < after.len() && after[k] == '|' implies depth(#[trigger] after.take(k)) > 0 by {
                    let pre = seq!['('] + prest.take(j) + seq![')'];
                    assert(p.take(j + 2 + k) =~= pre + after.take(k));
                    assert(p[j + 2 + k] == after[k]);
                    lemma_depth_append(pre, after.take(k));
                    lemma_depth_append(seq!['('] + prest.take(j), seq![')']);
                    lemma_depth_append(seq!['('], prest.take(j));
                    lemma_depth_single('(');
                    lemma_depth_single(')');
                }
            }
            let inner = Some(parse_spec(Term::Eps, None, prest.take(j)));
            lemma_parse_alt(join(prev, last), inner, after, rest);
        } else {
            assert(bars_nested(prest)) by {
                assert forall|k: int| 0 <= k < prest.len() && prest[k] == '|' implies depth(#[trigger] prest.take(k)) > 0 by {
                    lemma_depth_after(c, prest, k);
                    assert(p[k + 1] == prest[k]);
                    assert(p.take(k + 1) == (seq![c] + prest).take(k + 1));
                }
            }
            if c == '*' {
                let atom = match last {
                    Some(x) => x,
                    None => Term::Eps,
                };
                lemma_parse_alt(prev, Some(Term::Star(Box::new(atom))), prest, rest);
            } else {
                lemma_parse_letter(prev, last, p, c);
                lemma_parse_letter(prev, last, s, c);
                lemma_parse_alt(join(prev, last), Some(Term::Lit(c)), prest, rest);
            }
        }
    }
}

/// Alternation binds loosest: where the parentheses of `p` match and its
/// `|`s all stand inside parentheses, the pattern `p|q` is the alternation
/// of the pattern `p` and the pattern `q`.
pub proof fn lemma_pattern_alt(p: Seq<char>, q: Seq<char>)
    requires
        balanced(p),
        bars_nested(p),
    ensures
        pattern(p + seq!['|'] + q) == Term::Alt(Box::new(pattern(p)), Box::new(pattern(q))),
{
    lemma_parse_alt(Term::Eps, None, p, q);
}

/// A `|` outside parentheses at position `k` of `p`.
spec fn top_bar(p: Seq<char>, k: int) -> bool {
    0 <= k < p.len() && p[k] == '|' && depth(p.take(k)) <= 0
}

proof fn lemma_first_top_bar(p: Seq<char>, k: int) -> (m: int)
    requires
        top_bar(p, k),
    ensures
        top_bar(p, m),
        forall|i: int| 0 <= i < m ==> !top_bar(p, i),
    decreases k,
{
    if exists|i: int| 0 <= i < k && top_bar(p, i) {
        let i = choose|i: int| 0 <= i < k && top_bar(p, i);
        lemma_first_top_bar(p, i)
    } else {
        k
    }
}

/// The words of the pattern `p|q` are the words of `p` and the words of
/// `q`, for every `p` whose parentheses match.
pub proof fn lemma_pattern_alt_lang(p: Seq<char>, q: Seq<char>, w: Seq<char>)
    requires
        balanced(p),
    ensures
        in_lang(pattern(p + seq!['|'] + q), w) <==> in_lang(pattern(p), w) || in_lang(pattern(q), w),
    decreases p.len(),
{
    if bars_nested(p) {
        lemma_pattern_alt(p, q);
    } else {
        let k = choose|k: int| 0 <= k < p.len() && p[k] == '|' && !(depth(#[trigger] p.take(k)) > 0);
        assert(top_bar(p, k));
        let m = lemma_first_top_bar(p, k);
        let p1 = p.take(m);
        let p2 = p.skip(m + 1);
        assert(p =~= p1 + seq!['|'] + p2);
        assert(depth(p1) == 0) by {
            assert(depth(p.take(m)) >= 0);
        }
        assert(balanced(p1)) by {
            assert forall|i: int| 0 <= i <= p1.len() implies depth(#[trigger] p1.take(i)) >= 0 by {
                assert(p1.take(i) =~= p.take(i));
            }
        }
        assert(bars_nested(p1)) by {
            assert forall|i: int| 0 <= i < p1.len() && p1[i] == '|' implies depth(#[trigger] p1.take(i)) > 0 by {
                assert(p1.take(i) =~= p.take(i));
                assert(p[i] == p1[i]);
                assert(!top_bar(p, i));
            }
        }
        assert(balanced(p2)) by {
            lemma_depth_single('|');
            assert forall|i: int| 0 <= i <= p2.len() implies depth(#[trigger] p2.take(i)) >= 0 by {
                assert(p.take(m + 1 + i) =~= p1 + seq!['|'] + p2.take(i));
                lemma_depth_append(p1 + seq!['|'], p2.take(i));
                lemma_depth_append(p1, seq!['|']);
                assert(depth(p.take(m + 1 + i)) >= 0);
            }
            assert(p2.take(p2.len() as int) =~= p2);
            assert(p.take(p.len() as int) =~= p);
            lemma_depth_append(p1 + seq!['|'], p2);
            lemma_depth_append(p1, seq!['|']);
        }
        assert(p + seq!['|'] + q =~= p1 + seq!['|'] + (p2 + seq!['|'] + q));
        lemma_pattern_alt(p1, p2 + seq!['|'] + q);
        lemma_pattern_alt(p1, p2);
        lemma_pattern_alt_lang(p2, q, w);
    }
}

/// In a balanced `p` followed by `)` and anything, that `)` is the first
/// one closing a parenthesis opened before.
proof fn lemma_close_after(p: Seq<char>, tail: Seq<char>)
    requires
        balanced(p),
    ensures
        first_close(p + seq![')'] + tail) == p.len(),
{
    let s = p + seq![')'] + tail;
    assert(s.take(p.len() as int) =~= p);
    assert forall|k: int| 0 <= k < p.len() implies !closes_at(s, k) by {
        assert(s.take(k) =~= p.take(k));
        if closes_at(s, k) {
            assert(p.take(k + 1).drop_last() =~= p.take(k));
            assert(p.take(k + 1).last() == s[k]);
            assert(depth(p.take(k + 1)) >= 0);
        }
    }
    assert(is_first_close(s, p.len() as int));
    lemma_first_close_unique(s, p.len() as int);
}

/// Parentheses group: where the parentheses of `p` match, `(p)` denotes
/// what `p` denotes, and `(p)*` its star.
pub proof fn lemma_pattern_group(p: Seq<char>)
    requires
        balanced(p),
    ensures
        pattern(seq!['('] + p + seq![')']) == pattern(p),
        pattern(seq!['('] + p + seq![')', '*']) == Term::Star(Box::new(pattern(p))),
{
    let g = seq!['('] + p + seq![')'];
    assert(g[0] == '(');
    assert(g.drop_first() =~= p + seq![')'] + Seq::<char>::empty());
    lemma_close_after(p, Seq::<char>::empty());
    assert(g.drop_first().take(p.len() as int) =~= p);
    assert(g.drop_first().skip(p.len() as int + 1) =~= Seq::<char>::empty());
    assert(parse_spec(Term::Eps, None, g) == parse_spec(Term::Eps, Some(pattern(p)), Seq::<char>::empty()));
    let gs = seq!['('] + p + seq![')', '*'];
    assert(gs[0] == '(');
    assert(gs.drop_first() =~= p + seq![')'] + seq!['*']);
    lemma_close_after(p, seq!['*']);
    assert(gs.drop_first().take(p.len() as int) =~= p);
    let star = gs.drop_first().skip(p.len() as int + 1);
    assert(star =~= seq!['*']);
    assert(star[0] == '*');
    assert(star.drop_first() =~= Seq::<char>::empty());
    assert(parse_spec(Term::Eps, None, gs) == parse_spec(Term::Eps, Some(pattern(p)), star));
    assert(parse_spec(Term::Eps, Some(pattern(p)), star) == parse_spec(
        Term::Eps,
        Some(Term::Star(Box::new(pattern(p)))),
        Seq::<char>::empty(),
    ));
}

/// A character that is not `(`, `)`, `|` or `*` denotes itself, and
/// followed by `*` its star.
pub proof fn lemma_pattern_letter(c: char)
    requires
        c != '(',
        c != ')',
        c != '|',
        c != '*',
    ensures
        pattern(seq![c]) == Term::Lit(c),
        pattern(seq![c, '*']) == Term::Star(Box::new(Term::Lit(c))),
{
    lemma_parse_letter(Term::Eps, None, seq![c], c);
    assert(seq![c].drop_first() =~= Seq::<char>::empty());
    lemma_parse_letter(Term::Eps, None, seq![c, '*'], c);
    let st = seq![c, '*'].drop_first();
    assert(st =~= seq!['*']);
    assert(st[0] == '*');
    assert(st.drop_first() =~= Seq::<char>::empty());
    assert(parse_spec(Term::Eps, Some(Term::Lit(c)), st) == parse_spec(
        Term::Eps,
        Some(Term::Star(Box::new(Term::Lit(c)))),
        Seq::<char>::empty(),
    ));
}

/// Reading a letter `c` that starts `s`.
proof fn lemma_parse_letter(prev: Term, last: Option<Term>, s: Seq<char>, c: char)
    requires
        s.len() > 0,
        s[0] == c,
        c != '(',
        c != '|',
        c != '*',
    ensures
        parse_spec(prev, last, s) == parse_spec(join(prev, last), Some(Term::Lit(c)), s.drop_first()),
{
}

pub proof fn lemma_depth_append(a: Seq<char>, b: Seq<char>)
    ensures
        depth(a + b) == depth(a) + depth(b),
    decreases b.len(),
{
    if b.len() == 0 {
        assert(a + b =~= a);
    } else {
        assert((a + b).drop_last() =~= a + b.drop_last());
        lemma_depth_append(a, b.drop_last());
    }
}

pub proof fn lemma_depth_single(c: char)
    ensures
        depth(seq![c]) == delta(c),
{
    assert(seq![c].drop_last() =~= Seq::<char>::empty());
    assert(depth(seq![c].drop_last()) == 0);
    assert(seq![c].last() == c);
}

/// The prefix depths of `s` after one leading character `c`.
proof fn lemma_depth_after(c: char, rest: Seq<char>, k: int)
    requires
        0 <= k <= rest.len(),
    ensures
        depth((seq![c] + rest).take(k + 1)) == delta(c) + depth(rest.take(k)),
{
    assert((seq![c] + rest).take(k + 1) =~= seq![c] + rest.take(k));
    lemma_depth_append(seq![c], rest.take(k));
    lemma_depth_single(c);
}

/// A balanced pattern does not start with `)`; after a first character
/// other than a parenthesis, the rest is balanced.
pub proof fn lemma_balanced_rest(s: Seq<char>)
    requires
        balanced(s),
        s.len() > 0,
    ensures
        s[0] != ')',
        s[0] != '(' ==> balanced(s.drop_first()),
{
    let rest = s.drop_first();
    assert(s =~= seq![s[0]] + rest);
    lemma_depth_after(s[0], rest, 0);
    assert(depth(s.take(1)) >= 0);
    assert(rest.take(0) =~= Seq::<char>::empty());
    if s[0] != '(' {
        assert forall|i: int| 0 <= i <= rest.len() implies depth(#[trigger] rest.take(i)) >= 0 by {
            lemma_depth_after(s[0], rest, i);
            assert(depth(s.take(i + 1)) >= 0);
        }
        lemma_depth_after(s[0], rest, rest.len() as int);
        assert(rest.take(rest.len() as int) =~= rest);
        assert(s.take(s.len() as int) =~= s);
    }
}

/// Before the first closing position, prefix depths stay non-negative.
proof fn lemma_before_first_close(rest: Seq<char>, j: int, k: int)
    requires
        is_first_close(rest, j),
        0 <= k <= j,
    ensures
        depth(rest.take(k)) >= 0,
    decreases k,
{
    if k == 0 {
        assert(rest.take(0) =~= Seq::<char>::empty());
    } else {
        lemma_before_first_close(rest, j, k - 1);
        assert(rest.take(k) =~= rest.take(k - 1) + seq![rest[k - 1]]);
        lemma_depth_append(rest.take(k - 1), seq![rest[k - 1]]);
        lemma_depth_single(rest[k - 1]);
        assert(!closes_at(rest, k - 1));
    }
}

/// Scanning `rest` from `i` on, where every prefix so far has a non-negative
/// depth, finds a first closing position.
proof fn lemma_find_close(rest: Seq<char>, i: int)
    requires
        0 <= i <= rest.len(),
        depth(rest) == -1,
        forall|k: int| 0 <= k <= rest.len() ==> depth(#[trigger] rest.take(k)) >= -1,
        forall|k: int| 0 <= k <= i ==> depth(#[trigger] rest.take(k)) >= 0,
        forall|k: int| 0 <= k < i ==> !closes_at(rest, k),
    ensures
        exists|j: int| is_first_close(rest, j),
    decreases rest.len() - i,
{
    if i == rest.len() {
        assert(rest.take(i) =~= rest);
    } else {
        assert(rest.take(i + 1) =~= rest.take(i) + seq![rest[i]]);
        lemma_depth_append(rest.take(i), seq![rest[i]]);
        lemma_depth_single(rest[i]);
        assert(depth(rest.take(i)) >= 0);
        assert(depth(rest.take(i + 1)) >= -1);
        if depth(rest.take(i + 1)) == -1 {
            assert(is_first_close(rest, i));
        } else {
            lemma_find_close(rest, i + 1);
        }
    }
}

/// A balanced pattern that starts with `(` has a matching `)`, and the
/// parts inside and after the group are balanced.
pub proof fn lemma_balanced_group(s: Seq<char>)
    requires
        balanced(s),
        s.len() > 0,
        s[0] == '(',
    ensures
        exists|j: int| is_first_close(s.drop_first(), j),
        forall|j: int| #[trigger] is_first_close(s.drop_first(), j) ==> {
            &&& balanced(s.drop_first().take(j))
            &&& balanced(s.drop_first().skip(j + 1))
        },
{
    let rest = s.drop_first();
    assert(s =~= seq!['('] + rest);
    assert forall|k: int| 0 <= k <= rest.len() implies depth(#[trigger] rest.take(k)) >= -1 by {
        lemma_depth_after('(', rest, k);
        assert(depth(s.take(k + 1)) >= 0);
    }
    lemma_depth_after('(', rest, rest.len() as int);
    assert(rest.take(rest.len() as int) =~= rest);
    assert(s.take(s.len() as int) =~= s);
    assert(rest.take(0) =~= Seq::<char>::empty());
    lemma_find_close(rest, 0);
    assert forall|j: int| #[trigger] is_first_close(rest, j) implies {
        &&& balanced(rest.take(j))
        &&& balanced(rest.skip(j + 1))
    } by {
        let inner = rest.take(j);
        let after = rest.skip(j + 1);
        assert forall|k: int| 0 <= k <= inner.len() implies depth(#[trigger] inner.take(k)) >= 0 by {
            assert(inner.take(k) =~= rest.take(k));
            lemma_before_first_close(rest, j, k);
        }
        assert(inner.take(j) =~= inner);
        assert forall|m: int| 0 <= m <= after.len() implies depth(#[trigger] after.take(m)) >= 0 by {
            assert(rest.take(j + 1 + m) =~= inner + seq![')'] + after.take(m));
            lemma_depth_append(inner + seq![')'], after.take(m));
            lemma_depth_append(inner, seq![')']);
            lemma_depth_single(')');
            lemma_depth_after('(', rest, j + 1 + m);
            assert(depth(s.take(j + 2 + m)) >= 0);
        }
        assert(rest =~= inner + seq![')'] + after);
        lemma_depth_append(inner + seq![')'], after);
        lemma_depth_append(inner, seq![')']);
        lemma_depth_single(')');
    }
}

/// There is at most one first closing position.
pub proof fn lemma_first_close_unique(s: Seq<char>, j: int)
    requires
        is_first_close(s, j),
    ensures
        first_close(s) == j,
{
    let k = first_close(s);
    assert(is_first_close(s, k));
    if k < j {
        assert(!closes_at(s, k));
    } else if k > j {
        assert(!closes_at(s, j));
    }
}

} // verus!
