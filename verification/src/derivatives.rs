//! Partial derivatives of regular expressions (Antimirov) and a matcher
//! built on them.

use vstd::prelude::*;
use crate::term::{Term, lists};
use crate::regex::{R, term_of, terms_of, lemma_terms_of, lemma_terms_of_add, copy, copy_from, copy_vec, equal_vecs};
use crate::lang::{is_nullable, all_nullable, pd, pd_cats, cat_each, cats_each, in_lang, pd_word, lemma_accepts, lemma_pd_word_push, letters_of, letters_of_cats, lemma_letters_cats_append, lemma_letters_cats_single, reach, over, pd_alpha, lemma_pd_word_within};
use crate::closure::{clos, pd_closed, lemma_clos};
use crate::sorted::lemma_lists_unique;
use crate::normal::{subterms, strict_subterms, subterms_list, lemma_subterms_list_append, lemma_subterms_list_single, shape_allowed, shape_ok, normal_form};
use crate::regex::{equal, normalize};
use crate::dfa::{step, is_accepting_state};
use crate::antimirov::lemma_subterm_property;
use crate::term::{smart_cat, smart_cats};
use crate::sorted::{sort_dedup, union, chars_increasing, sort_dedup_chars};

verus! {

/// Whether a regular expression accepts the empty string, computed on its
/// structure: `Eps` and stars are nullable, characters are not, a
/// concatenation when all its parts are, an alternation when one side is.
pub fn nullable(r: &R) -> (res: bool)
    ensures
        res == is_nullable(r@),
    decreases r, 0nat,
{
    match r {
        R::Eps => true,
        R::L(_) => false,
        R::Cat(left, right) => nullable(left) && nullable(right),
        R::Seqs(rs) => all_nullable_vec(rs),
        R::Alt(left, right) => nullable(left) || nullable(right),
        R::Star(_) => true,
    }
}

/// Whether every element of `rs` is nullable.
fn all_nullable_vec(rs: &Vec<R>) -> (res: bool)
    ensures
        res == all_nullable(terms_of(rs@)),
    decreases rs, 1nat,
{
    let ghost s = terms_of(rs@);
    proof {
        lemma_terms_of(rs@);
        assert(s.skip(0) =~= s);
    }
    let mut i: usize = 0;
    while i < rs.len()
        invariant
            i <= rs.len(),
            s == terms_of(rs@),
            s.len() == rs@.len(),
            forall|k: int| 0 <= k < rs@.len() ==> #[trigger] s[k] == term_of(rs@[k]),
            all_nullable(s) == all_nullable(s.skip(i as int)),
        decreases rs.len() - i,
    {
        assert(s.skip(i as int)[0] == s[i as int]);
        assert(s.skip(i as int).drop_first() =~= s.skip(i + 1));
        if !nullable(&rs[i]) {
            return false;
        }
        i = i + 1;
    }
    true
}

proof fn lemma_cat_each(s: Seq<Term>, t: Seq<Term>, b: Term)
    requires
        t.len() == s.len(),
        forall|k: int| 0 <= k < s.len() ==> #[trigger] t[k] == smart_cat(s[k], b),
    ensures
        t.to_set() == cat_each(s.to_set(), b),
{
    assert forall|y: Term| t.to_set().contains(y) <==> #[trigger] cat_each(s.to_set(), b).contains(y) by {
        if t.to_set().contains(y) {
            let k = choose|k: int| 0 <= k < t.len() && t[k] == y;
            assert(s.to_set().contains(s[k]));
        }
        if cat_each(s.to_set(), b).contains(y) {
            let x = choose|x: Term| s.to_set().contains(x) && smart_cat(x, b) == y;
            let k = choose|k: int| 0 <= k < s.len() && s[k] == x;
            assert(t[k] == y);
        }
    }
    assert(t.to_set() =~= cat_each(s.to_set(), b));
}

proof fn lemma_cats_each(s: Seq<Term>, t: Seq<Term>, b: Term)
    requires
        t.len() == s.len(),
        forall|k: int| 0 <= k < s.len() ==> #[trigger] t[k] == smart_cats(s[k], b),
    ensures
        t.to_set() == cats_each(s.to_set(), b),
{
    assert forall|y: Term| t.to_set().contains(y) <==> #[trigger] cats_each(s.to_set(), b).contains(y) by {
        if t.to_set().contains(y) {
            let k = choose|k: int| 0 <= k < t.len() && t[k] == y;
            assert(s.to_set().contains(s[k]));
        }
        if cats_each(s.to_set(), b).contains(y) {
            let x = choose|x: Term| s.to_set().contains(x) && smart_cats(x, b) == y;
            let k = choose|k: int| 0 <= k < s.len() && s[k] == x;
            assert(t[k] == y);
        }
    }
    assert(t.to_set() =~= cats_each(s.to_set(), b));
}

/// `smart_seq(d, right)` for each `d` of `ds`.
fn seq_each(ds: &Vec<R>, right: &R) -> (res: Vec<R>)
    ensures
        terms_of(res@).to_set() == cat_each(terms_of(ds@).to_set(), right@),
{
    let mut out: Vec<R> = Vec::new();
    let mut i: usize = 0;
    while i < ds.len()
        invariant
            i <= ds.len(),
            out@.len() == i,
            forall|k: int| 0 <= k < i ==> #[trigger] term_of(out@[k]) == smart_cat(term_of(ds@[k]), right@),
        decreases ds.len() - i,
    {
        out.push(R::smart_seq(copy(&ds[i]), copy(right)));
        i = i + 1;
    }
    proof {
        lemma_terms_of(out@);
        lemma_terms_of(ds@);
        lemma_cat_each(terms_of(ds@), terms_of(out@), right@);
    }
    out
}

/// `smart_seqs(d, right)` for each `d` of `ds`.
fn seqs_each(ds: &Vec<R>, right: &R) -> (res: Vec<R>)
    ensures
        terms_of(res@).to_set() == cats_each(terms_of(ds@).to_set(), right@),
{
    let mut out: Vec<R> = Vec::new();
    let mut i: usize = 0;
    while i < ds.len()
        invariant
            i <= ds.len(),
            out@.len() == i,
            forall|k: int| 0 <= k < i ==> #[trigger] term_of(out@[k]) == smart_cats(term_of(ds@[k]), right@),
        decreases ds.len() - i,
    {
        out.push(R::smart_seqs(copy(&ds[i]), copy(right)));
        i = i + 1;
    }
    proof {
        lemma_terms_of(out@);
        lemma_terms_of(ds@);
        lemma_cats_each(terms_of(ds@), terms_of(out@), right@);
    }
    out
}

/// The partial derivatives of `r` with respect to `c`: the regexes that
/// what follows `c` in a word of `r` must match, in increasing order, each
/// once.
pub fn part_deriv(c: char, r: &R) -> (res: Vec<R>)
    ensures
        lists(terms_of(res@), pd(c, r@)),
    decreases r, 0nat,
{
    match r {
        R::Eps => {
            let v: Vec<R> = Vec::new();
            proof {
                assert(terms_of(v@).to_set() =~= Set::<Term>::empty());
            }
            v
        },
        R::L(y) => {
            if c == *y {
                let v = vec![R::Eps];
                proof {
                    lemma_terms_of(v@);
                    let t = terms_of(v@);
                    assert(t =~= seq![Term::Eps]);
                    assert(t[0] == Term::Eps);
                    assert(t.to_set().contains(Term::Eps));
                    assert(t.to_set() =~= set![Term::Eps]);
                }
                v
            } else {
                let v: Vec<R> = Vec::new();
                proof {
                    assert(terms_of(v@).to_set() =~= Set::<Term>::empty());
                }
                v
            }
        },
        R::Cat(left, right) => {
            let dl = part_deriv(c, left);
            let pds = seq_each(&dl, right);
            if nullable(left) {
                let dr = part_deriv(c, right);
                let all = union(pds, dr);
                sort_dedup(all)
            } else {
                proof {
                    assert(pd(c, r@) =~= cat_each(pd(c, left@), right@));
                }
                sort_dedup(pds)
            }
        },
        R::Seqs(rs) => {
            proof {
                assert(terms_of(rs@).skip(0) =~= terms_of(rs@));
            }
            pd_seqs(c, rs, 0)
        },
        R::Alt(left, right) => {
            let dl = part_deriv(c, left);
            let dr = part_deriv(c, right);
            sort_dedup(union(dl, dr))
        },
        R::Star(inner) => {
            let star = R::star(copy(inner));
            let d = part_deriv(c, inner);
            sort_dedup(seq_each(&d, &star))
        },
    }
}

/// The partial derivatives of the concatenation of `rs[i..]`.
fn pd_seqs(c: char, rs: &Vec<R>, i: usize) -> (res: Vec<R>)
    requires
        i <= rs.len(),
    ensures
        lists(terms_of(res@), pd_cats(c, terms_of(rs@).skip(i as int))),
    decreases rs, rs.len() - i,
{
    let ghost s = terms_of(rs@).skip(i as int);
    proof {
        lemma_terms_of(rs@);
    }
    if i == rs.len() {
        let v: Vec<R> = Vec::new();
        proof {
            assert(terms_of(v@).to_set() =~= Set::<Term>::empty());
        }
        v
    } else if i + 1 == rs.len() {
        assert(s[0] == term_of(rs@[i as int]));
        part_deriv(c, &rs[i])
    } else {
        let rest = R::Seqs(copy_from(rs, i + 1));
        assert(s[0] == term_of(rs@[i as int]));
        assert(s.drop_first() =~= terms_of(rs@).skip(i + 1));
        let d = part_deriv(c, &rs[i]);
        let pds = seqs_each(&d, &rest);
        if nullable(&rs[i]) {
            let e = pd_seqs(c, rs, i + 1);
            sort_dedup(union(pds, e))
        } else {
            proof {
                assert(pd_cats(c, s) =~= cats_each(pd(c, s[0]), Term::Cats(s.drop_first())));
            }
            sort_dedup(pds)
        }
    }
}

/// Matches a string against a regular expression: starting from `{r}`,
/// replaces the current set of expressions by their partial derivatives
/// for each input character, and accepts when an expression of the final
/// set is nullable. The answer is whether `input` is a word of `r`.
pub fn matcher(input: &str, r: &R) -> (res: bool)
    ensures
        res == in_lang(r@, input@),
{
    let ghost start = set![r@];
    let mut current: Vec<R> = vec![copy(r)];
    proof {
        lemma_terms_of(current@);
        let t = terms_of(current@);
        assert(t[0] == r@);
        assert(t.to_set().contains(r@));
        assert(t.to_set() =~= start);
        assert(pd_word(Seq::<char>::empty(), start) == start);
    }
    let ghost mut seen: Seq<char> = Seq::empty();
    proof {
        broadcast use vstd::string::axiom_spec_iter;
    }
    for c in it: input.chars()
        invariant
            it.seq() == input@,
            seen == it.seq().take(it.index()),
            terms_of(current@).to_set() == pd_word(seen, start),
    {
        proof {
            lemma_pd_word_push(seen, c, start);
            assert(seen.push(c) =~= it.seq().take(it.index() + 1));
            seen = seen.push(c);
        }
        current = step(&current, c);
    }
    let res = is_accepting_state(&current);
    proof {
        assert(seen =~= input@);
        lemma_accepts(input@, start);
        if in_lang(r@, input@) {
            assert(start.contains(r@));
        }
    }
    res
}

/// All distinct characters appearing in a regular expression, in
/// increasing order.
pub fn letters(r: &R) -> (res: Vec<char>)
    ensures
        chars_increasing(res@),
        res@.to_set() == letters_of(r@),
    decreases r, 0nat,
{
    match r {
        R::L(c) => {
            let v = vec![*c];
            proof {
                assert(v@[0] == *c);
                assert(v@.to_set().contains(*c));
                assert(v@.to_set() =~= set![*c]);
            }
            v
        },
        R::Cat(left, right) => {
            let mut ls = letters(left);
            let mut rs = letters(right);
            let ghost l0 = ls@;
            let ghost r0 = rs@;
            ls.append(&mut rs);
            proof {
                vstd::seq_lib::seq_to_set_distributes_over_add(l0, r0);
            }
            sort_dedup_chars(ls)
        },
        R::Seqs(rs) => letters_vec(rs),
        R::Alt(left, right) => {
            let mut ls = letters(left);
            let mut rs = letters(right);
            let ghost l0 = ls@;
            let ghost r0 = rs@;
            ls.append(&mut rs);
            proof {
                vstd::seq_lib::seq_to_set_distributes_over_add(l0, r0);
            }
            sort_dedup_chars(ls)
        },
        R::Star(inner) => letters(inner),
        R::Eps => {
            let v: Vec<char> = Vec::new();
            proof {
                assert(v@.to_set() =~= Set::<char>::empty());
            }
            v
        },
    }
}

/// The distinct characters of the elements of `rs`, in increasing order.
fn letters_vec(rs: &Vec<R>) -> (res: Vec<char>)
    ensures
        chars_increasing(res@),
        res@.to_set() == letters_of_cats(terms_of(rs@)),
    decreases rs, 1nat,
{
    let ghost s = terms_of(rs@);
    proof {
        lemma_terms_of(rs@);
    }
    let mut acc: Vec<char> = Vec::new();
    proof {
        assert(s.take(0) =~= Seq::<Term>::empty());
        assert(acc@.to_set() =~= Set::<char>::empty());
    }
    let mut i: usize = 0;
    while i < rs.len()
        invariant
            i <= rs.len(),
            s == terms_of(rs@),
            s.len() == rs@.len(),
            forall|k: int| 0 <= k < rs@.len() ==> #[trigger] s[k] == term_of(rs@[k]),
            acc@.to_set() == letters_of_cats(s.take(i as int)),
        decreases rs.len() - i,
    {
        let mut ls = letters(&rs[i]);
        let ghost a0 = acc@;
        let ghost l0 = ls@;
        acc.append(&mut ls);
        proof {
            vstd::seq_lib::seq_to_set_distributes_over_add(a0, l0);
            assert(s.take(i + 1) =~= s.take(i as int) + seq![s[i as int]]);
            lemma_letters_cats_append(s.take(i as int), seq![s[i as int]]);
            lemma_letters_cats_single(s[i as int]);
        }
        i = i + 1;
    }
    proof {
        assert(s.take(s.len() as int) =~= s);
    }
    sort_dedup_chars(acc)
}

/// All partial derivatives reachable from `r`: starting from `r`, adds the
/// partial derivatives with respect to every letter of `r` until nothing
/// new appears. The result lists the descendants of `r` in increasing
/// order, each once; it is finite because every descendant lies in the
/// finite set `clos(r)`.
pub fn descendants(r: &R) -> (res: Vec<R>)
    ensures
        lists(terms_of(res@), reach(r@)),
{
    let alphabet = letters(r);
    let ghost a = alphabet@.to_set();
    let ghost cl = clos(r@).to_set();
    let mut current: Vec<R> = vec![copy(r)];
    proof {
        lemma_clos(r@);
        lemma_terms_of(current@);
        let t = terms_of(current@);
        assert(t[0] == r@);
        assert(t.to_set() =~= set![r@]) by {
            assert(t.to_set().contains(r@));
        }
        assert(pd_word(Seq::<char>::empty(), set![r@]).contains(r@));
        assert(over(Seq::<char>::empty(), letters_of(r@)));
        assert(reach(r@).contains(r@));
        assert(cl.contains(r@));
    }
    loop
        invariant
            a == alphabet@.to_set(),
            a == letters_of(r@),
            cl == clos(r@).to_set(),
            pd_closed(cl),
            lists(terms_of(current@), terms_of(current@).to_set()),
            terms_of(current@).to_set() <= reach(r@),
            terms_of(current@).to_set() <= cl,
            terms_of(current@).to_set().contains(r@),
        decreases cl.len() - terms_of(current@).to_set().len(),
    {
        let ghost cur = terms_of(current@);
        proof {
            lemma_terms_of(current@);
        }
        let mut next: Vec<R> = Vec::new();
        proof {
            assert(terms_of(next@).to_set() =~= Set::<Term>::empty());
        }
        let mut i: usize = 0;
        while i < current.len()
            invariant
                i <= current.len(),
                cur == terms_of(current@),
                cur.len() == current@.len(),
                forall|k: int| 0 <= k < current@.len() ==> #[trigger] cur[k] == term_of(current@[k]),
                a == alphabet@.to_set(),
                terms_of(next@).to_set() <= pd_alpha(a, cur.to_set()),
                forall|k: int, jj: int, y: Term|
                    0 <= k < i && 0 <= jj < alphabet@.len() && #[trigger] pd(alphabet@[jj], cur[k]).contains(y)
                        ==> terms_of(next@).to_set().contains(y),
            decreases current.len() - i,
        {
            let mut j: usize = 0;
            while j < alphabet.len()
                invariant
                    i < current.len(),
                    j <= alphabet.len(),
                    cur == terms_of(current@),
                    cur.len() == current@.len(),
                    forall|k: int| 0 <= k < current@.len() ==> #[trigger] cur[k] == term_of(current@[k]),
                    a == alphabet@.to_set(),
                    terms_of(next@).to_set() <= pd_alpha(a, cur.to_set()),
                    forall|k: int, jj: int, y: Term|
                        0 <= k < i && 0 <= jj < alphabet@.len() && #[trigger] pd(alphabet@[jj], cur[k]).contains(y)
                            ==> terms_of(next@).to_set().contains(y),
                    forall|jj: int, y: Term|
                        0 <= jj < j && #[trigger] pd(alphabet@[jj], cur[i as int]).contains(y)
                            ==> terms_of(next@).to_set().contains(y),
                decreases alphabet.len() - j,
            {
                let c = alphabet[j];
                let d = part_deriv(c, &current[i]);
                let ghost n0 = terms_of(next@).to_set();
                next = union(next, d);
                proof {
                    assert(a.contains(c));
                    assert(cur.to_set().contains(cur[i as int]));
                    assert forall|y: Term| terms_of(next@).to_set().contains(y) implies pd_alpha(a, cur.to_set()).contains(y) by {
                        if !n0.contains(y) {
                            assert(pd(c, cur[i as int]).contains(y));
                        }
                    }
                }
                j = j + 1;
            }
            i = i + 1;
        }
        let ghost n1 = terms_of(next@).to_set();
        let all = union(next, copy_vec(&current));
        let next = sort_dedup(all);
        let ghost f = terms_of(next@).to_set();
        proof {
            assert(f == n1 + cur.to_set());
            assert(n1 =~= pd_alpha(a, cur.to_set())) by {
                assert forall|y: Term| pd_alpha(a, cur.to_set()).contains(y) implies n1.contains(y) by {
                    let (c, x) = choose|c: char, x: Term| a.contains(c) && cur.to_set().contains(x) && #[trigger] pd(c, x).contains(y);
                    let k = choose|k: int| 0 <= k < cur.len() && cur[k] == x;
                    let jj = choose|jj: int| 0 <= jj < alphabet@.len() && alphabet@[jj] == c;
                    assert(pd(alphabet@[jj], cur[k]).contains(y));
                }
            }
            assert forall|y: Term| f.contains(y) implies reach(r@).contains(y) && cl.contains(y) by {
                if n1.contains(y) {
                    let (c, x) = choose|c: char, x: Term| a.contains(c) && cur.to_set().contains(x) && #[trigger] pd(c, x).contains(y);
                    assert(reach(r@).contains(x));
                    let w = choose|w: Seq<char>| over(w, letters_of(r@)) && #[trigger] pd_word(w, set![r@]).contains(x);
                    lemma_pd_word_push(w, c, set![r@]);
                    assert(pd_word(w.push(c), set![r@]).contains(y));
                    assert(over(w.push(c), letters_of(r@))) by {
                        assert forall|i: int| 0 <= i < w.push(c).len() implies letters_of(r@).contains(#[trigger] w.push(c)[i]) by {
                            if i < w.len() {
                                assert(w.push(c)[i] == w[i]);
                            }
                        }
                    }
                    assert(cl.contains(x));
                }
            }
        }
        if equal_vecs(&next, &current) {
            proof {
                assert(f == cur.to_set());
                assert(pd_alpha(a, cur.to_set()) <= cur.to_set());
                assert forall|x: Term| reach(r@).contains(x) implies cur.to_set().contains(x) by {
                    let w = choose|w: Seq<char>| over(w, letters_of(r@)) && #[trigger] pd_word(w, set![r@]).contains(x);
                    lemma_pd_word_within(w, a, r@, cur.to_set());
                }
                assert(cur.to_set() =~= reach(r@));
            }
            return current;
        }
        proof {
            if f == cur.to_set() {
                lemma_lists_unique(terms_of(next@), cur);
            }
            assert(f != cur.to_set());
            assert(cur.to_set() <= f);
            assert(!(f =~= cur.to_set()));
            let y = choose|y: Term| f.contains(y) && !cur.to_set().contains(y);
            vstd::seq_lib::seq_to_set_is_finite(terms_of(next@));
            vstd::seq_lib::seq_to_set_is_finite(clos(r@));
            cur.to_set().lemma_subset_not_in_lt(f, y);
            vstd::set_lib::lemma_len_subset(f, cl);
        }
        current = next;
    }
}

/// All subterms of a regular expression, the expression itself first; a
/// subterm that occurs twice is listed twice.
pub fn subterm(r: &R) -> (res: Vec<R>)
    ensures
        terms_of(res@) == subterms(r@),
    decreases r, 1nat,
{
    let mut v = vec![copy(r)];
    let ghost v0 = v@;
    let mut rest = subterm_2(r);
    let ghost r0 = rest@;
    v.append(&mut rest);
    proof {
        lemma_terms_of(v0);
        assert(terms_of(v0) =~= seq![r@]);
        lemma_terms_of_add(v0, r0);
    }
    v
}

/// All strict subterms of a regular expression.
fn subterm_2(r: &R) -> (res: Vec<R>)
    ensures
        terms_of(res@) == strict_subterms(r@),
    decreases r, 0nat,
{
    match r {
        R::Eps | R::L(_) => {
            let v: Vec<R> = Vec::new();
            proof {
                assert(terms_of(v@) =~= Seq::<Term>::empty());
            }
            v
        },
        R::Cat(left, right) => {
            let a = subterm(left);
            let b = subterm(right);
            concat(a, b)
        },
        R::Alt(left, right) => {
            let a = subterm(left);
            let b = subterm(right);
            concat(a, b)
        },
        R::Seqs(rs) => subterm_vec(rs),
        R::Star(inner) => subterm(inner),
    }
}

/// `a` followed by `b`.
fn concat(a: Vec<R>, b: Vec<R>) -> (res: Vec<R>)
    ensures
        terms_of(res@) == terms_of(a@) + terms_of(b@),
{
    let mut a = a;
    let mut b = b;
    let ghost a0 = a@;
    let ghost b0 = b@;
    a.append(&mut b);
    proof {
        lemma_terms_of_add(a0, b0);
    }
    a
}

/// The subterms of each element of `rs`, one element after the other.
fn subterm_vec(rs: &Vec<R>) -> (res: Vec<R>)
    ensures
        terms_of(res@) == subterms_list(terms_of(rs@)),
    decreases rs, 2nat,
{
    let ghost s = terms_of(rs@);
    proof {
        lemma_terms_of(rs@);
        assert(s.take(0) =~= Seq::<Term>::empty());
    }
    let mut out: Vec<R> = Vec::new();
    proof {
        assert(terms_of(out@) =~= Seq::<Term>::empty());
    }
    let mut i: usize = 0;
    while i < rs.len()
        invariant
            i <= rs.len(),
            s == terms_of(rs@),
            s.len() == rs@.len(),
            forall|k: int| 0 <= k < rs@.len() ==> #[trigger] s[k] == term_of(rs@[k]),
            terms_of(out@) == subterms_list(s.take(i as int)),
        decreases rs.len() - i,
    {
        let st = subterm(&rs[i]);
        out = concat(out, st);
        proof {
            assert(s.take(i + 1) =~= s.take(i as int) + seq![s[i as int]]);
            lemma_subterms_list_append(s.take(i as int), seq![s[i as int]]);
            lemma_subterms_list_single(s[i as int]);
        }
        i = i + 1;
    }
    proof {
        assert(s.take(s.len() as int) =~= s);
    }
    out
}

/// Whether `x` is an element of `v`.
fn contains(v: &Vec<R>, x: &R) -> (res: bool)
    ensures
        res == terms_of(v@).contains(x@),
{
    let ghost s = terms_of(v@);
    proof {
        lemma_terms_of(v@);
    }
    let mut i: usize = 0;
    while i < v.len()
        invariant
            i <= v.len(),
            s == terms_of(v@),
            s.len() == v@.len(),
            forall|k: int| 0 <= k < v@.len() ==> #[trigger] s[k] == term_of(v@[k]),
            forall|k: int| 0 <= k < i ==> s[k] != x@,
        decreases v.len() - i,
    {
        if equal(&v[i], x) {
            proof {
                assert(s[i as int] == x@);
            }
            return true;
        }
        i = i + 1;
    }
    false
}

/// Checks Antimirov's subterm property for one normalized descendant `d`
/// of the normalized expression `r`: `d` is `Eps`, or `r` itself, or a
/// sequence whose elements are all subterms of `r`. Any other shape of `d`
/// fails the check.
fn check_shape(d: &R, r: &R) -> (res: bool)
    ensures
        res == shape_ok(d@, r@),
{
    if let R::Eps = d {
        return true;
    }
    if equal(d, r) {
        return true;
    }
    match d {
        R::Seqs(ds) => {
            let st = subterm(r);
            let ghost xs = terms_of(ds@);
            proof {
                lemma_terms_of(ds@);
                assert(d@ == Term::Cats(xs));
            }
            let mut i: usize = 0;
            while i < ds.len()
                invariant
                    i <= ds.len(),
                    xs == terms_of(ds@),
                    xs.len() == ds@.len(),
                    forall|k: int| 0 <= k < ds@.len() ==> #[trigger] xs[k] == term_of(ds@[k]),
                    terms_of(st@) == subterms(r@),
                    d@ == Term::Cats(xs),
                    d@ != r@,
                    forall|k: int| 0 <= k < i ==> subterms(r@).contains(#[trigger] xs[k]),
                decreases ds.len() - i,
            {
                if !contains(&st, &ds[i]) {
                    proof {
                        assert(!subterms(r@).contains(xs[i as int]));
                        assert(d@ != r@);
                        assert(d@ == Term::Cats(xs));
                        assert(!(forall|k: int| 0 <= k < xs.len() ==> subterms(r@).contains(#[trigger] xs[k])));
                        assert(!(d@ is Eps));
                        assert(d@->Cats_0 == xs);
                        assert(!subterms(r@).contains(d@->Cats_0[i as int]));
                        assert(!shape_ok(d@, r@));
                    }
                    return false;
                }
                i = i + 1;
            }
            true
        },
        _ => {
            proof {
                assert(!(d@ is Cats));
            }
            false
        },
    }
}

/// Checks Antimirov's subterm property on `r`: normalizes `r`, then checks
/// that every descendant of the normalized expression, normalized, is
/// `Eps`, the normalized expression itself, or a sequence of its subterms.
/// A descendant of any other shape (such as `b*` for `ab*`) fails the
/// check. Where every descendant has one of the three shapes, the check
/// succeeds: that is Antimirov's subterm property.
pub fn prop(r: &R) -> (res: bool)
    ensures
        res == forall|d: Term| reach(normal_form(r@)).contains(d) ==> #[trigger] shape_ok(normal_form(d), normal_form(r@)),
        (forall|d: Term| reach(normal_form(r@)).contains(d) ==> #[trigger] shape_allowed(normal_form(d), normal_form(r@)))
            ==> res,
{
    let rp = normalize(copy(r));
    let ds = descendants(&rp);
    let ghost dt = terms_of(ds@);
    proof {
        lemma_terms_of(ds@);
    }
    let mut i: usize = 0;
    while i < ds.len()
        invariant
            i <= ds.len(),
            rp@ == normal_form(r@),
            lists(dt, reach(rp@)),
            dt == terms_of(ds@),
            dt.len() == ds@.len(),
            forall|k: int| 0 <= k < ds@.len() ==> #[trigger] dt[k] == term_of(ds@[k]),
            forall|k: int| 0 <= k < i ==> #[trigger] shape_ok(normal_form(dt[k]), rp@),
        decreases ds.len() - i,
    {
        let d = normalize(copy(&ds[i]));
        if !check_shape(&d, &rp) {
            proof {
                assert(dt.to_set().contains(dt[i as int]));
                assert(reach(normal_form(r@)).contains(dt[i as int]));
                lemma_subterm_property(r@, dt[i as int]);
            }
            return false;
        }
        i = i + 1;
    }
    proof {
        assert forall|d: Term| reach(normal_form(r@)).contains(d) implies #[trigger] shape_ok(normal_form(d), normal_form(r@)) by {
            assert(dt.to_set().contains(d));
            let k = choose|k: int| 0 <= k < dt.len() && dt[k] == d;
            assert(shape_ok(normal_form(dt[k]), rp@));
        }
    }
    true
}

} // verus!
