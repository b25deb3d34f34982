//! Deterministic finite automata built from regular expressions by the
//! subset construction over Antimirov's partial derivatives.

use vstd::prelude::*;
use crate::term::{Term, lists, strictly_sorted};
use crate::regex::{R, term_of, terms_of, lemma_terms_of, copy, equal_vecs};
use crate::lang::{
    is_nullable, pd, pd_set, lemma_pd_set_insert, in_lang, pd_word, lemma_accepts, letters_of, lemma_pd_letters, over,
    lemma_pd_word_push,
};
use crate::closure::{clos, pd_closed, lemma_clos, subsets, lemma_subsets_finite};
use crate::derivatives::{nullable, part_deriv, letters};
use crate::sorted::{sort_dedup, union, chars_increasing, lemma_lists_unique};

verus! {

/// The successor of a DFA state (a strictly increasing vector of regexes)
/// on character `c`: all partial derivatives of its elements, in increasing
/// order, each once.
pub fn step(state: &Vec<R>, c: char) -> (res: Vec<R>)
    ensures
        lists(terms_of(res@), pd_set(c, terms_of(state@).to_set())),
{
    let ghost s = terms_of(state@);
    proof {
        lemma_terms_of(state@);
    }
    let mut next: Vec<R> = Vec::new();
    proof {
        assert(s.take(0).to_set() =~= Set::<Term>::empty());
        assert(terms_of(next@).to_set() =~= Set::<Term>::empty());
        assert(pd_set(c, Set::<Term>::empty()) =~= Set::<Term>::empty());
    }
    let mut i: usize = 0;
    while i < state.len()
        invariant
            i <= state.len(),
            s == terms_of(state@),
            s.len() == state@.len(),
            forall|k: int| 0 <= k < state@.len() ==> #[trigger] s[k] == term_of(state@[k]),
            terms_of(next@).to_set() == pd_set(c, s.take(i as int).to_set()),
        decreases state.len() - i,
    {
        let d = part_deriv(c, &state[i]);
        next = union(next, d);
        proof {
            assert(s.take(i + 1) =~= s.take(i as int).push(s[i as int]));
            s.take(i as int).lemma_push_to_set_commute(s[i as int]);
            lemma_pd_set_insert(c, s.take(i as int).to_set(), s[i as int]);
        }
        i = i + 1;
    }
    proof {
        assert(s.take(s.len() as int) =~= s);
    }
    sort_dedup(next)
}

/// Whether a DFA state accepts: some regex in it is nullable.
pub fn is_accepting_state(state: &Vec<R>) -> (res: bool)
    ensures
        res == exists|x: Term| terms_of(state@).to_set().contains(x) && #[trigger] is_nullable(x),
{
    let ghost s = terms_of(state@);
    proof {
        lemma_terms_of(state@);
    }
    let mut i: usize = 0;
    while i < state.len()
        invariant
            i <= state.len(),
            s == terms_of(state@),
            s.len() == state@.len(),
            forall|k: int| 0 <= k < state@.len() ==> #[trigger] s[k] == term_of(state@[k]),
            forall|k: int| 0 <= k < i ==> !is_nullable(#[trigger] s[k]),
        decreases state.len() - i,
    {
        if nullable(&state[i]) {
            proof {
                assert(s.to_set().contains(s[i as int]));
            }
            return true;
        }
        i = i + 1;
    }
    proof {
        if exists|x: Term| s.to_set().contains(x) && #[trigger] is_nullable(x) {
            let x = choose|x: Term| s.to_set().contains(x) && #[trigger] is_nullable(x);
            let k = choose|k: int| 0 <= k < s.len() && s[k] == x;
            assert(!is_nullable(s[k]));
        }
    }
    false
}

/// The set of regexes in a DFA state.
pub open spec fn set_of(v: Vec<R>) -> Set<Term> {
    terms_of(v@).to_set()
}

/// The target of the first pair for `c` in a row of transitions.
pub open spec fn row_target(row: Seq<(char, usize)>, c: char) -> Option<usize>
    decreases row.len(),
{
    if row.len() == 0 {
        None
    } else if row[0].0 == c {
        Some(row[0].1)
    } else {
        row_target(row.drop_first(), c)
    }
}

/// A deterministic finite automaton built from a regular expression by the
/// subset construction over Antimirov's partial derivatives: each state
/// stands for a distinct set of partial derivatives reachable from the
/// expression (see `DFA::new`). The transition table is indexed by state
/// number: row `i` holds the pairs (character, successor) of state `i`.
pub struct DFA {
    /// Number of states, identified by `0..num_states`.
    num_states: usize,
    /// The initial state, always 0.
    start: usize,
    /// Whether each state accepts.
    accepting_states: Vec<bool>,
    /// For each state, its outgoing transitions as (character, successor)
    /// pairs, one per character.
    transitions: Vec<Vec<(char, usize)>>,
}

impl DFA {
    #[verifier::type_invariant]
    spec fn wf(self) -> bool {
        &&& self.accepting_states@.len() == self.num_states
        &&& self.transitions@.len() == self.num_states
        &&& self.start < self.num_states
        &&& forall|i: int, k: int|
            0 <= i < self.num_states && 0 <= k < self.transitions@[i]@.len() ==> #[trigger] self.transitions@[i]@[k].1
                < self.num_states
    }

    /// The successor of state `i` on `c`, if there is a transition.
    pub closed spec fn next_state(self, i: int, c: char) -> Option<usize> {
        row_target(self.transitions@[i]@, c)
    }

    /// The state reached from the start along `w`, if every step has a
    /// transition.
    pub closed spec fn run(self, w: Seq<char>) -> Option<usize>
        decreases w.len(),
    {
        if w.len() == 0 {
            Some(self.start)
        } else {
            match self.run(w.drop_last()) {
                Some(k) => self.next_state(k as int, w.last()),
                None => None,
            }
        }
    }

    /// The automaton accepts `w`: the run along `w` ends in an accepting
    /// state.
    pub closed spec fn accepts(self, w: Seq<char>) -> bool {
        match self.run(w) {
            Some(k) => self.accepting_states@[k as int],
            None => false,
        }
    }

    /// The automaton was built for `r`, with `qs[i]` the set of partial
    /// derivatives that state `i` stands for.
    closed spec fn built_for(self, qs: Seq<Set<Term>>, r: Term) -> bool {
        &&& qs.len() == self.num_states
        &&& self.accepting_states@.len() == self.num_states
        &&& self.transitions@.len() == self.num_states
        &&& self.start == 0
        &&& self.num_states > 0
        &&& qs[0] == set![r]
        &&& forall|i: int, k: int| 0 <= i < qs.len() && 0 <= k < qs.len() && i != k ==> #[trigger] qs[i] != #[trigger] qs[k]
        &&& forall|i: int| 0 <= i < qs.len() ==> #[trigger] self.accepting_states@[i] == exists|x: Term|
            qs[i].contains(x) && #[trigger] is_nullable(x)
        &&& forall|i: int, x: Term| 0 <= i < qs.len() && #[trigger] qs[i].contains(x) ==> letters_of(x) <= letters_of(r)
        &&& forall|i: int, c: char| 0 <= i < qs.len() && letters_of(r).contains(c) ==> {
            &&& #[trigger] self.next_state(i, c) matches Some(j)
            &&& j < qs.len()
            &&& qs[j as int] == pd_set(c, qs[i])
        }
        &&& forall|i: int, c: char| 0 <= i < qs.len() && !letters_of(r).contains(c) ==> #[trigger] self.next_state(i, c) is None
    }

    /// The states were numbered breadth first: `ws[i]` is a word over the
    /// letters of `r` that leaves the derivatives `qs[i]`, the words grow
    /// no shorter with the number, and a transition leads to a state whose
    /// word is at most one letter longer.
    closed spec fn discovered_by(self, qs: Seq<Set<Term>>, ws: Seq<Seq<char>>, r: Term) -> bool {
        &&& ws.len() == qs.len()
        &&& ws[0].len() == 0
        &&& forall|i: int| 0 <= i < ws.len() ==> over(#[trigger] ws[i], letters_of(r)) && pd_word(ws[i], set![r]) == qs[i]
        &&& forall|i: int, j: int| 0 <= i <= j < ws.len() ==> #[trigger] ws[i].len() <= #[trigger] ws[j].len()
        &&& forall|i: int, c: char| 0 <= i < ws.len() && #[trigger] self.next_state(i, c) is Some ==> {
            &&& self.next_state(i, c)->0 < ws.len()
            &&& ws[self.next_state(i, c)->0 as int].len() <= ws[i].len() + 1
        }
    }

    /// The automaton came from the breadth-first subset construction on
    /// `r`: some numbering of sets of partial derivatives of `r`, with words
    /// that reach them, fits its states.
    pub closed spec fn built_from(self, r: Term) -> bool {
        exists|qs: Seq<Set<Term>>, ws: Seq<Seq<char>>| self.built_for(qs, r) && #[trigger] self.discovered_by(qs, ws, r)
    }

    /// The number of states.
    pub closed spec fn state_count(self) -> nat {
        self.num_states as nat
    }

    /// State `i` is reached from the start along some word over `a`.
    pub open spec fn reached(self, i: usize, a: Set<char>) -> bool {
        exists|v: Seq<char>| over(v, a) && #[trigger] self.run(v) == Some(i)
    }

    /// State `i` is reached from the start along some word over `a` of
    /// length at most `n`.
    pub open spec fn reached_within(self, i: usize, a: Set<char>, n: nat) -> bool {
        exists|v: Seq<char>| over(v, a) && v.len() <= n && #[trigger] self.run(v) == Some(i)
    }

    /// A word over the letters of `r` always has a run.
    proof fn lemma_run_some(self, qs: Seq<Set<Term>>, r: Term, w: Seq<char>)
        requires
            self.built_for(qs, r),
            over(w, letters_of(r)),
        ensures
            self.run(w) matches Some(j) && j < qs.len(),
        decreases w.len(),
    {
        if w.len() > 0 {
            let w1 = w.drop_last();
            assert(over(w1, letters_of(r))) by {
                assert forall|k: int| 0 <= k < w1.len() implies letters_of(r).contains(#[trigger] w1[k]) by {
                    assert(w1[k] == w[k]);
                }
            }
            self.lemma_run_some(qs, r, w1);
            let k = self.run(w1)->0;
            assert(letters_of(r).contains(w[w.len() - 1]));
            assert(self.next_state(k as int, w.last()) is Some);
        }
    }

    /// No word reaching state `i` is shorter than the word `ws[i]`.
    proof fn lemma_depth(self, qs: Seq<Set<Term>>, ws: Seq<Seq<char>>, r: Term, w: Seq<char>)
        requires
            self.built_for(qs, r),
            self.discovered_by(qs, ws, r),
            self.run(w) is Some,
        ensures
            self.run(w)->0 < ws.len(),
            ws[self.run(w)->0 as int].len() <= w.len(),
        decreases w.len(),
    {
        if w.len() > 0 {
            let w1 = w.drop_last();
            self.lemma_depth(qs, ws, r, w1);
            let k = self.run(w1)->0;
            assert(self.next_state(k as int, w.last()) is Some);
        }
    }

    /// What the breadth-first subset construction on `r` gives: one state
    /// for each distinct set of partial derivatives reachable from `r`,
    /// each state reached, and states numbered by distance from the start.
    proof fn lemma_built_from(self, r: R)
        requires
            self.built_from(r@),
        ensures
            forall|w: Seq<char>| self.accepts(w) == in_lang(r@, w),
            forall|w: Seq<char>| over(w, letters_of(r@)) ==> #[trigger] self.run(w) is Some,
            forall|w1: Seq<char>, w2: Seq<char>|
                over(w1, letters_of(r@)) && over(w2, letters_of(r@)) ==> (#[trigger] self.run(w1) == #[trigger] self.run(
                    w2,
                ) <==> pd_word(w1, set![r@]) == pd_word(w2, set![r@])),
            forall|i: usize|
                i < self.state_count() ==> #[trigger] self.reached(i, letters_of(r@)),
            forall|w: Seq<char>, i: usize|
                over(w, letters_of(r@)) && (#[trigger] self.run(w) matches Some(j) && i < j) ==> #[trigger] self.reached_within(
                    i,
                    letters_of(r@),
                    w.len(),
                ),
    {
        let t = r@;
        let a = letters_of(t);
        let (qs, ws) = choose|qs: Seq<Set<Term>>, ws: Seq<Seq<char>>| self.built_for(qs, t) && #[trigger] self.discovered_by(qs, ws, t);
        assert forall|w: Seq<char>| self.accepts(w) == in_lang(t, w) by {
            lemma_dfa_agrees_with_matcher(self, r, w);
        }
        assert forall|w: Seq<char>| over(w, a) implies #[trigger] self.run(w) is Some by {
            self.lemma_run_some(qs, t, w);
        }
        assert forall|w1: Seq<char>, w2: Seq<char>| over(w1, a) && over(w2, a) implies (#[trigger] self.run(w1)
            == #[trigger] self.run(w2) <==> pd_word(w1, set![t]) == pd_word(w2, set![t])) by {
            self.lemma_run_some(qs, t, w1);
            self.lemma_run_some(qs, t, w2);
            self.lemma_run(qs, t, w1);
            self.lemma_run(qs, t, w2);
        }
        assert forall|i: usize| i < self.state_count() implies #[trigger] self.reached(i, a) by {
            let w = ws[i as int];
            self.lemma_run_some(qs, t, w);
            self.lemma_run(qs, t, w);
            assert(self.run(w) == Some(i));
        }
        assert forall|w: Seq<char>, i: usize| over(w, a) && (#[trigger] self.run(w) matches Some(j) && i < j) implies #[trigger] self.reached_within(
            i,
            a,
            w.len(),
        ) by {
            let j = self.run(w)->0;
            self.lemma_depth(qs, ws, t, w);
            let v = ws[i as int];
            self.lemma_run_some(qs, t, v);
            self.lemma_run(qs, t, v);
            assert(self.run(v) == Some(i));
            assert(ws[i as int].len() <= ws[j as int].len());
        }
    }

    proof fn lemma_run(self, qs: Seq<Set<Term>>, r: Term, w: Seq<char>)
        requires
            self.built_for(qs, r),
        ensures
            self.run(w) matches Some(j) ==> j < qs.len() && qs[j as int] == pd_word(w, set![r]),
            self.run(w) is None ==> pd_word(w, set![r]) == Set::<Term>::empty(),
        decreases w.len(),
    {
        if w.len() > 0 {
            let w1 = w.drop_last();
            let c = w.last();
            self.lemma_run(qs, r, w1);
            match self.run(w1) {
                Some(k) => {
                    if !letters_of(r).contains(c) {
                        assert(self.next_state(k as int, c) is None);
                        assert forall|y: Term| !#[trigger] pd_word(w, set![r]).contains(y) by {
                            if pd_word(w, set![r]).contains(y) {
                                let x = choose|x: Term| qs[k as int].contains(x) && #[trigger] pd(c, x).contains(y);
                                lemma_pd_letters(c, x, y);
                            }
                        }
                        assert(pd_word(w, set![r]) =~= Set::<Term>::empty());
                    }
                },
                None => {
                    assert(pd_word(w, set![r]) =~= Set::<Term>::empty());
                },
            }
        }
    }

    /// The language that the automaton accepts is that of `r`.
    proof fn lemma_accepts_lang(self, qs: Seq<Set<Term>>, r: Term, w: Seq<char>)
        requires
            self.built_for(qs, r),
        ensures
            self.accepts(w) == in_lang(r, w),
    {
        self.lemma_run(qs, r, w);
        lemma_accepts(w, set![r]);
        if in_lang(r, w) {
            assert(set![r].contains(r));
        }
        if exists|x: Term| set![r].contains(x) && #[trigger] in_lang(x, w) {
            let x = choose|x: Term| set![r].contains(x) && #[trigger] in_lang(x, w);
            assert(x == r);
        }
    }
}

/// An automaton built from `r` accepts a word exactly when the matcher
/// does: both decide whether the word is in the language of `r`.
pub proof fn lemma_dfa_agrees_with_matcher(dfa: DFA, r: R, w: Seq<char>)
    requires
        dfa.built_from(r@),
    ensures
        dfa.accepts(w) == in_lang(r@, w),
{
    let (qs, ws) = choose|qs: Seq<Set<Term>>, ws: Seq<Seq<char>>| dfa.built_for(qs, r@) && #[trigger] dfa.discovered_by(qs, ws, r@);
    dfa.lemma_accepts_lang(qs, r@, w);
}

proof fn lemma_row_target(row: Seq<(char, usize)>, cs: Seq<char>, c: char)
    requires
        row.len() == cs.len(),
        forall|jj: int| 0 <= jj < row.len() ==> #[trigger] row[jj].0 == cs[jj],
        chars_increasing(cs),
    ensures
        forall|j: int| 0 <= j < cs.len() && cs[j] == c ==> row_target(row, c) == Some(row[j].1),
        !cs.contains(c) ==> row_target(row, c) is None,
    decreases row.len(),
{
    if row.len() > 0 {
        let cs1 = cs.drop_first();
        let row1 = row.drop_first();
        assert forall|i: int, j: int| 0 <= i < j < cs1.len() implies #[trigger] cs1[i] < #[trigger] cs1[j] by {
            assert(cs[i + 1] < cs[j + 1]);
        }
        lemma_row_target(row1, cs1, c);
        assert forall|j: int| 0 <= j < cs.len() && cs[j] == c implies row_target(row, c) == Some(row[j].1) by {
            if j > 0 {
                assert(cs[0] < cs[j]);
                assert(cs1[j - 1] == c);
                assert(row1[j - 1] == row[j]);
            }
        }
        if !cs.contains(c) {
            assert(cs[0] != c);
            if cs1.contains(c) {
                let k = choose|k: int| 0 <= k < cs1.len() && cs1[k] == c;
                assert(cs[k + 1] == c);
            }
        }
    }
}

/// A sequence of distinct sets, all from the finite family `u`, is no
/// longer than `u` is large.
proof fn lemma_distinct_bound(qs: Seq<Set<Term>>, u: Set<Set<Term>>)
    requires
        u.finite(),
        forall|i: int| 0 <= i < qs.len() ==> u.contains(#[trigger] qs[i]),
        forall|i: int, k: int| 0 <= i < qs.len() && 0 <= k < qs.len() && i != k ==> #[trigger] qs[i] != #[trigger] qs[k],
    ensures
        qs.len() <= u.len(),
{
    assert(qs.no_duplicates());
    qs.unique_seq_to_set();
    assert(qs.to_set() <= u);
    vstd::set_lib::lemma_len_subset(qs.to_set(), u);
}

/// Finds a state whose regexes are, in order, those of `next`.
fn lookup_state(states: &Vec<Vec<R>>, next: &Vec<R>) -> (res: Option<usize>)
    ensures
        match res {
            Some(i) => i < states@.len() && terms_of(states@[i as int]@) == terms_of(next@),
            None => forall|i: int| 0 <= i < states@.len() ==> terms_of(#[trigger] states@[i]@) != terms_of(next@),
        },
{
    let mut i: usize = 0;
    while i < states.len()
        invariant
            i <= states@.len(),
            forall|k: int| 0 <= k < i ==> terms_of(#[trigger] states@[k]@) != terms_of(next@),
        decreases states.len() - i,
    {
        if equal_vecs(&states[i], next) {
            return Some(i);
        }
        i = i + 1;
    }
    None
}

/// The successor for `c` in a row of transitions.
fn lookup_transition(row: &Vec<(char, usize)>, c: char) -> (res: Option<usize>)
    ensures
        res == row_target(row@, c),
{
    let mut i: usize = 0;
    proof {
        assert(row@.skip(0) =~= row@);
    }
    while i < row.len()
        invariant
            i <= row@.len(),
            row_target(row@, c) == row_target(row@.skip(i as int), c),
        decreases row.len() - i,
    {
        assert(row@.skip(i as int)[0] == row@[i as int]);
        if row[i].0 == c {
            return Some(row[i].1);
        }
        assert(row@.skip(i as int).drop_first() =~= row@.skip(i + 1));
        i = i + 1;
    }
    None
}

/// Every transition of a fully built row: for each letter of the alphabet,
/// in order, the state standing for the derivatives of state `i`.
spec fn row_complete(row: Seq<(char, usize)>, alphabet: Seq<char>, states: Seq<Vec<R>>, i: int, k: int) -> bool {
    &&& row.len() == k
    &&& forall|jj: int| 0 <= jj < k ==> {
        &&& #[trigger] row[jj].0 == alphabet[jj]
        &&& row[jj].1 < states.len()
        &&& set_of(states[row[jj].1 as int]) == pd_set(alphabet[jj], set_of(states[i]))
    }
}

proof fn lemma_row_complete_grow(row: Seq<(char, usize)>, alphabet: Seq<char>, states: Seq<Vec<R>>, x: Vec<R>, i: int, k: int)
    requires
        row_complete(row, alphabet, states, i, k),
        0 <= i < states.len(),
    ensures
        row_complete(row, alphabet, states.push(x), i, k),
{
    assert forall|jj: int| 0 <= jj < k implies {
        &&& #[trigger] row[jj].0 == alphabet[jj]
        &&& row[jj].1 < states.push(x).len()
        &&& set_of(states.push(x)[row[jj].1 as int]) == pd_set(alphabet[jj], set_of(states.push(x)[i]))
    } by {
        assert(row[jj].0 == alphabet[jj]);
        assert(row[jj].1 < states.len());
        assert(states.push(x)[row[jj].1 as int] == states[row[jj].1 as int]);
        assert(states.push(x)[i] == states[i]);
    }
}

/// The words that discovered the states so far: `ws[i]`, over the letters
/// of `r`, leaves the derivatives of state `i`, and the words grow no
/// shorter with the number.
spec fn discovery_ok(ws: Seq<Seq<char>>, states: Seq<Vec<R>>, r: Term) -> bool {
    &&& ws.len() == states.len()
    &&& ws.len() > 0
    &&& ws[0].len() == 0
    &&& forall|i: int| 0 <= i < ws.len() ==> over(#[trigger] ws[i], letters_of(r)) && pd_word(ws[i], set![r]) == set_of(states[i])
    &&& forall|i: int, j: int| 0 <= i <= j < ws.len() ==> #[trigger] ws[i].len() <= #[trigger] ws[j].len()
}

proof fn lemma_discovery_grow(ws: Seq<Seq<char>>, states: Seq<Vec<R>>, r: Term, w: Seq<char>, x: Vec<R>)
    requires
        discovery_ok(ws, states, r),
        over(w, letters_of(r)),
        pd_word(w, set![r]) == set_of(x),
        forall|i: int| 0 <= i < ws.len() ==> #[trigger] ws[i].len() <= w.len(),
    ensures
        discovery_ok(ws.push(w), states.push(x), r),
{
    let ws2 = ws.push(w);
    let st2 = states.push(x);
    assert forall|i: int| 0 <= i < ws2.len() implies over(#[trigger] ws2[i], letters_of(r)) && pd_word(ws2[i], set![r]) == set_of(st2[i]) by {
        if i < ws.len() {
            assert(ws2[i] == ws[i]);
            assert(st2[i] == states[i]);
        }
    }
    assert forall|i: int, j: int| 0 <= i <= j < ws2.len() implies #[trigger] ws2[i].len() <= #[trigger] ws2[j].len() by {
        if j < ws.len() {
            assert(ws2[i] == ws[i]);
            assert(ws2[j] == ws[j]);
        } else if i < ws.len() {
            assert(ws2[i] == ws[i]);
        }
    }
}

/// What every state of an automaton under construction for `r` satisfies.
spec fn state_ok(v: Vec<R>, r: Term) -> bool {
    &&& strictly_sorted(terms_of(v@))
    &&& set_of(v) <= clos(r).to_set()
    &&& forall|x: Term| #[trigger] set_of(v).contains(x) ==> letters_of(x) <= letters_of(r)
}

impl DFA {
    /// Builds the automaton for `r` by the subset construction over
    /// Antimirov's partial derivatives: states are the distinct sets of
    /// partial derivatives reachable from `{r}`, numbered in the order they
    /// are discovered by a breadth-first search; a state accepts when one of
    /// its regexes is nullable. Only the letters of `r` get transitions.
    /// The automaton accepts exactly the words of `r`; two words over the
    /// letters of `r` lead to the same state exactly when they leave the same
    /// set of partial derivatives; every state is reached; and a state
    /// reached by a shorter word never has a larger number.
    pub fn new(r: &R) -> (dfa: DFA)
        ensures
            dfa.built_from(r@),
            forall|w: Seq<char>| dfa.accepts(w) == in_lang(r@, w),
            forall|w: Seq<char>| over(w, letters_of(r@)) ==> #[trigger] dfa.run(w) is Some,
            forall|w1: Seq<char>, w2: Seq<char>|
                over(w1, letters_of(r@)) && over(w2, letters_of(r@)) ==> (#[trigger] dfa.run(w1) == #[trigger] dfa.run(
                    w2,
                ) <==> pd_word(w1, set![r@]) == pd_word(w2, set![r@])),
            forall|i: usize|
                i < dfa.state_count() ==> #[trigger] dfa.reached(i, letters_of(r@)),
            forall|w: Seq<char>, i: usize|
                over(w, letters_of(r@)) && (#[trigger] dfa.run(w) matches Some(j) && i < j) ==> #[trigger] dfa.reached_within(
                    i,
                    letters_of(r@),
                    w.len(),
                ),
    {
        let alphabet = letters(r);
        let ghost a = letters_of(r@);
        let ghost cl = clos(r@).to_set();
        let ghost p = subsets(cl).len();
        proof {
            lemma_clos(r@);
            vstd::seq_lib::seq_to_set_is_finite(clos(r@));
            lemma_subsets_finite(cl);
        }
        let initial: Vec<R> = vec![copy(r)];
        proof {
            lemma_terms_of(initial@);
            let t = terms_of(initial@);
            assert(t[0] == r@);
            assert(t.to_set() =~= set![r@]) by {
                assert(t.to_set().contains(r@));
            }
            assert(cl.contains(r@));
            assert(subsets(cl).contains(set![r@]));
            lemma_distinct_bound(seq![set![r@]], subsets(cl));
        }
        let acc0 = is_accepting_state(&initial);
        let mut states: Vec<Vec<R>> = vec![initial];
        let mut accepting: Vec<bool> = vec![acc0];
        let mut rows: Vec<Vec<(char, usize)>> = vec![Vec::new()];
        let ghost mut ws: Seq<Seq<char>> = seq![Seq::<char>::empty()];
        proof {
            assert(ws[0].len() == 0);
            assert(pd_word(ws[0], set![r@]) == set![r@]);
            assert(over(ws[0], a));
        }
        let mut cur: usize = 0;
        while cur < states.len()
            invariant
                alphabet@.to_set() == a,
                a == letters_of(r@),
                chars_increasing(alphabet@),
                cl == clos(r@).to_set(),
                pd_closed(cl),
                subsets(cl).finite(),
                p == subsets(cl).len(),
                states@.len() == accepting@.len(),
                states@.len() == rows@.len(),
                1 <= states@.len() <= p,
                cur <= states@.len(),
                set_of(states@[0]) == set![r@],
                forall|i: int| 0 <= i < states@.len() ==> #[trigger] state_ok(states@[i], r@),
                forall|i: int, k: int|
                    0 <= i < states@.len() && 0 <= k < states@.len() && i != k ==> #[trigger] set_of(states@[i])
                        != #[trigger] set_of(states@[k]),
                forall|i: int| 0 <= i < states@.len() ==> #[trigger] accepting@[i] == exists|x: Term|
                    set_of(states@[i]).contains(x) && #[trigger] is_nullable(x),
                forall|i: int| 0 <= i < cur ==> #[trigger] row_complete(
                    rows@[i]@,
                    alphabet@,
                    states@,
                    i,
                    alphabet@.len() as int,
                ),
                discovery_ok(ws, states@, r@),
                cur < ws.len() ==> forall|i: int| 0 <= i < ws.len() ==> #[trigger] ws[i].len() <= ws[cur as int].len() + 1,
                forall|i: int, jj: int|
                    0 <= i < cur && 0 <= jj < rows@[i]@.len() ==> ws[#[trigger] rows@[i]@[jj].1 as int].len() <= ws[i].len() + 1,
            decreases p - cur,
        {
            let mut row: Vec<(char, usize)> = Vec::new();
            let mut j: usize = 0;
            while j < alphabet.len()
                invariant
                    alphabet@.to_set() == a,
                    a == letters_of(r@),
                    chars_increasing(alphabet@),
                    cl == clos(r@).to_set(),
                    pd_closed(cl),
                    subsets(cl).finite(),
                    p == subsets(cl).len(),
                    j <= alphabet@.len(),
                    cur < states@.len(),
                    states@.len() == accepting@.len(),
                    states@.len() == rows@.len(),
                    1 <= states@.len() <= p,
                    set_of(states@[0]) == set![r@],
                    forall|i: int| 0 <= i < states@.len() ==> #[trigger] state_ok(states@[i], r@),
                    forall|i: int, k: int|
                        0 <= i < states@.len() && 0 <= k < states@.len() && i != k ==> #[trigger] set_of(states@[i])
                            != #[trigger] set_of(states@[k]),
                    forall|i: int| 0 <= i < states@.len() ==> #[trigger] accepting@[i] == exists|x: Term|
                        set_of(states@[i]).contains(x) && #[trigger] is_nullable(x),
                    forall|i: int| 0 <= i < cur ==> #[trigger] row_complete(
                        rows@[i]@,
                        alphabet@,
                        states@,
                        i,
                        alphabet@.len() as int,
                    ),
                    row_complete(row@, alphabet@, states@, cur as int, j as int),
                    discovery_ok(ws, states@, r@),
                    forall|i: int| 0 <= i < ws.len() ==> #[trigger] ws[i].len() <= ws[cur as int].len() + 1,
                    forall|i: int, jj: int|
                        0 <= i < cur && 0 <= jj < rows@[i]@.len() ==> ws[#[trigger] rows@[i]@[jj].1 as int].len() <= ws[i].len() + 1,
                    forall|jj: int| 0 <= jj < j ==> ws[#[trigger] row@[jj].1 as int].len() <= ws[cur as int].len() + 1,
                decreases alphabet@.len() - j,
            {
                let c = alphabet[j];
                let next = step(&states[cur], c);
                let ghost q = pd_set(c, set_of(states@[cur as int]));
                proof {
                    assert(state_ok(states@[cur as int], r@));
                    assert forall|y: Term| #[trigger] q.contains(y) implies cl.contains(y) && letters_of(y) <= letters_of(r@) by {
                        let x = choose|x: Term| set_of(states@[cur as int]).contains(x) && #[trigger] pd(c, x).contains(y);
                        lemma_pd_letters(c, x, y);
                    }
                }
                let next_id = match lookup_state(&states, &next) {
                    Some(id) => {
                        proof {
                            assert(set_of(states@[id as int]) == q);
                        }
                        id
                    },
                    None => {
                        let id = states.len();
                        let acc = is_accepting_state(&next);
                        let ghost old_states = states@;
                        let ghost old_rows = rows@;
                        let ghost old_ws = ws;
                        proof {
                            assert forall|i: int| 0 <= i < old_states.len() implies #[trigger] set_of(old_states[i]) != q by {
                                assert(state_ok(old_states[i], r@));
                                if set_of(old_states[i]) == q {
                                    lemma_lists_unique(terms_of(old_states[i]@), terms_of(next@));
                                }
                            }
                        }
                        let ghost next_snapshot = next;
                        states.push(next);
                        proof {
                            assert(states@ == old_states.push(next_snapshot));
                        }
                        accepting.push(acc);
                        rows.push(Vec::new());
                        proof {
                            let wc = old_ws[cur as int].push(c);
                            assert(alphabet@.to_set().contains(alphabet@[j as int]));
                            assert(over(wc, a)) by {
                                assert forall|k: int| 0 <= k < wc.len() implies a.contains(#[trigger] wc[k]) by {
                                    if k < old_ws[cur as int].len() {
                                        assert(wc[k] == old_ws[cur as int][k]);
                                    }
                                }
                            }
                            lemma_pd_word_push(old_ws[cur as int], c, set![r@]);
                            ws = old_ws.push(wc);
                            lemma_discovery_grow(old_ws, old_states, r@, wc, next_snapshot);
                            let qs = Seq::new(states@.len(), |i: int| set_of(states@[i]));
                            assert forall|i: int| 0 <= i < qs.len() implies subsets(cl).contains(#[trigger] qs[i]) by {
                                assert(state_ok(states@[i], r@));
                            }
                            assert forall|i: int, k: int| 0 <= i < qs.len() && 0 <= k < qs.len() && i != k implies #[trigger] qs[i] != #[trigger] qs[k] by {
                                if i < old_states.len() && k < old_states.len() {
                                    assert(states@[i] == old_states[i]);
                                    assert(states@[k] == old_states[k]);
                                } else if i < old_states.len() {
                                    assert(states@[i] == old_states[i]);
                                } else {
                                    assert(states@[k] == old_states[k]);
                                }
                            }
                            lemma_distinct_bound(qs, subsets(cl));
                            assert(state_ok(states@[id as int], r@));
                            assert forall|i: int| 0 <= i < cur implies #[trigger] row_complete(
                                rows@[i]@,
                                alphabet@,
                                states@,
                                i,
                                alphabet@.len() as int,
                            ) by {
                                assert(rows@[i] == old_rows[i]);
                                lemma_row_complete_grow(old_rows[i]@, alphabet@, old_states, next_snapshot, i, alphabet@.len() as int);
                            }
                            assert forall|i: int, jj: int|
                                0 <= i < cur && 0 <= jj < rows@[i]@.len() implies ws[#[trigger] rows@[i]@[jj].1 as int].len() <= ws[i].len() + 1 by {
                                assert(rows@[i] == old_rows[i]);
                                assert(row_complete(old_rows[i]@, alphabet@, old_states, i, alphabet@.len() as int));
                                assert(old_rows[i]@[jj].0 == alphabet@[jj]);
                                assert(old_rows[i]@[jj].1 < old_states.len());
                            }
                            assert forall|jj: int| 0 <= jj < j implies ws[#[trigger] row@[jj].1 as int].len() <= ws[cur as int].len() + 1 by {
                                assert(row@[jj].0 == alphabet@[jj]);
                                assert(row@[jj].1 < old_states.len());
                            }
                            assert forall|i: int| 0 <= i < ws.len() implies #[trigger] ws[i].len() <= ws[cur as int].len() + 1 by {
                                if i < old_ws.len() {
                                    assert(ws[i] == old_ws[i]);
                                }
                            }
                            lemma_row_complete_grow(row@, alphabet@, old_states, next_snapshot, cur as int, j as int);
                        }
                        id
                    },
                };
                row.push((c, next_id));
                j = j + 1;
            }
            let ghost old_rows = rows@;
            rows.set(cur, row);
            proof {
                assert forall|i: int| 0 <= i < cur + 1 implies #[trigger] row_complete(
                    rows@[i]@,
                    alphabet@,
                    states@,
                    i,
                    alphabet@.len() as int,
                ) by {
                    if i < cur {
                        assert(rows@[i] == old_rows[i]);
                    }
                }
                assert forall|i: int, jj: int|
                    0 <= i < cur + 1 && 0 <= jj < rows@[i]@.len() implies ws[#[trigger] rows@[i]@[jj].1 as int].len() <= ws[i].len() + 1 by {
                    if i < cur {
                        assert(rows@[i] == old_rows[i]);
                    } else {
                        assert(rows@[i]@[jj] == row@[jj]);
                    }
                }
                if cur + 1 < ws.len() {
                    assert forall|i: int| 0 <= i < ws.len() implies #[trigger] ws[i].len() <= ws[cur + 1].len() + 1 by {
                        assert(ws[cur as int].len() <= ws[cur + 1].len());
                    }
                }
            }
            cur = cur + 1;
        }
        let ghost qs = Seq::new(states@.len(), |i: int| set_of(states@[i]));
        proof {
            assert forall|i: int, k: int| 0 <= i < states@.len() && 0 <= k < rows@[i]@.len() implies #[trigger] rows@[i]@[k].1 < states@.len() by {
                assert(row_complete(rows@[i]@, alphabet@, states@, i, alphabet@.len() as int));
                assert(rows@[i]@[k].0 == alphabet@[k]);
            }
        }
        let dfa = DFA { num_states: states.len(), start: 0, accepting_states: accepting, transitions: rows };
        proof {
            assert forall|i: int, c: char| 0 <= i < qs.len() && letters_of(r@).contains(c) implies {
                &&& #[trigger] dfa.next_state(i, c) matches Some(j)
                &&& j < qs.len()
                &&& qs[j as int] == pd_set(c, qs[i])
            } by {
                assert(row_complete(rows@[i]@, alphabet@, states@, i, alphabet@.len() as int));
                lemma_row_target(rows@[i]@, alphabet@, c);
                let jj = choose|jj: int| 0 <= jj < alphabet@.len() && alphabet@[jj] == c;
                assert(rows@[i]@[jj].0 == alphabet@[jj]);
            }
            assert forall|i: int, c: char| 0 <= i < qs.len() && !letters_of(r@).contains(c) implies #[trigger] dfa.next_state(i, c) is None by {
                assert(row_complete(rows@[i]@, alphabet@, states@, i, alphabet@.len() as int));
                lemma_row_target(rows@[i]@, alphabet@, c);
            }
            assert forall|i: int, x: Term| 0 <= i < qs.len() && #[trigger] qs[i].contains(x) implies letters_of(x) <= letters_of(r@) by {
                assert(state_ok(states@[i], r@));
            }
            assert(dfa.built_for(qs, r@));
            assert forall|i: int, c: char| 0 <= i < ws.len() && #[trigger] dfa.next_state(i, c) is Some implies {
                &&& dfa.next_state(i, c)->0 < ws.len()
                &&& ws[dfa.next_state(i, c)->0 as int].len() <= ws[i].len() + 1
            } by {
                lemma_row_target_in(rows@[i]@, c);
                let k = choose|k: int| 0 <= k < rows@[i]@.len() && rows@[i]@[k].1 == row_target(rows@[i]@, c)->0;
                assert(rows@[i]@[k].1 < states@.len());
            }
            assert(dfa.discovered_by(qs, ws, r@));
            assert(dfa.built_from(r@));
            dfa.lemma_built_from(*r);
        }
        dfa
    }

    /// Walks the transitions character by character from the start state;
    /// a missing transition (a character that `r` does not contain) rejects.
    /// After the last character, accepts when the state reached accepts.
    pub fn matches(&self, word: &str) -> (res: bool)
        ensures
            res == self.accepts(word@),
    {
        proof {
            use_type_invariant(self);
        }
        let mut current_state = self.start;
        let ghost mut seen: Seq<char> = Seq::empty();
        proof {
            broadcast use vstd::string::axiom_spec_iter;
        }
        for c in it: word.chars()
            invariant
                it.seq() == word@,
                seen == it.seq().take(it.index()),
                self.wf(),
                current_state < self.num_states,
                self.run(seen) == Some(current_state),
        {
            proof {
                assert(seen.push(c).drop_last() =~= seen);
                assert(seen.push(c) =~= it.seq().take(it.index() + 1));
            }
            match lookup_transition(&self.transitions[current_state], c) {
                Some(state) => {
                    proof {
                        self.lemma_row_target_bound(current_state as int, c);
                        seen = seen.push(c);
                    }
                    current_state = state;
                },
                None => {
                    proof {
                        assert(self.run(seen.push(c)) is None);
                        lemma_run_none(*self, seen.push(c), it.seq());
                    }
                    return false;
                },
            }
        }
        proof {
            assert(seen =~= word@);
        }
        self.accepting_states[current_state]
    }

    proof fn lemma_row_target_bound(self, i: int, c: char)
        requires
            self.wf(),
            0 <= i < self.num_states,
            self.next_state(i, c) is Some,
        ensures
            self.next_state(i, c)->0 < self.num_states,
    {
        lemma_row_target_in(self.transitions@[i]@, c);
        let k = choose|k: int| 0 <= k < self.transitions@[i]@.len() && self.transitions@[i]@[k].1 == self.next_state(i, c)->0;
        assert(self.transitions@[i]@[k].1 < self.num_states);
    }
}

proof fn lemma_row_target_in(row: Seq<(char, usize)>, c: char)
    requires
        row_target(row, c) is Some,
    ensures
        exists|k: int| 0 <= k < row.len() && row[k].1 == row_target(row, c)->0,
    decreases row.len(),
{
    if row[0].0 == c {
        assert(row[0].1 == row_target(row, c)->0);
    } else {
        lemma_row_target_in(row.drop_first(), c);
        let k = choose|k: int| 0 <= k < row.drop_first().len() && row.drop_first()[k].1 == row_target(row.drop_first(), c)->0;
        assert(row[k + 1].1 == row_target(row, c)->0);
    }
}

/// A run that fails on a prefix of `w` fails on `w`.
proof fn lemma_run_none(d: DFA, u: Seq<char>, w: Seq<char>)
    requires
        d.run(u) is None,
        u.len() <= w.len(),
        u == w.take(u.len() as int),
    ensures
        d.run(w) is None,
    decreases w.len() - u.len(),
{
    if u.len() < w.len() {
        let u1 = w.take(u.len() + 1 as int);
        assert(u1.drop_last() =~= u);
        lemma_run_none(d, u1, w);
    } else {
        assert(u =~= w);
    }
}

} // verus!
