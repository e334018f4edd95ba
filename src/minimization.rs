use vstd::prelude::*;

use crate::analysis_error::AnalysisError;
use crate::deterministic_finite_automaton::{
    accepts_from, entry_key, equivalent, lemma_trans_map_agreeing, lemma_trans_map_dom, model_total,
    model_wf, run_from, trans_map, AutomatonModel,
    model_of, DeterministicFiniteAutomaton, State, TransFunc,
};
use crate::utils::index_of;

verus! {

/// `a` does not come after `b` in the order of characters.
pub open spec fn char_le(a: char, b: char) -> bool {
    (a as u32) <= (b as u32)
}

/// `r` is the least state, in the order of characters, that is equivalent to `q`.
pub open spec fn is_rep(m: AutomatonModel, q: State, r: State) -> bool {
    &&& m.states.contains(r)
    &&& equivalent(m, r, q)
    &&& forall|p: State| m.states.contains(p) && equivalent(m, p, q) ==> char_le(r, p)
}

/// The representative of the equivalence class of `q`.
pub open spec fn rep(m: AutomatonModel, q: State) -> State {
    choose|r: State| is_rep(m, q, r)
}

/// The minimal automaton of `m`: each class of equivalent states collapsed onto its
/// least state, with the start state, the accepting states and the transitions rewritten
/// in terms of representatives.
pub open spec fn minimized(m: AutomatonModel) -> AutomatonModel {
    AutomatonModel {
        alphabet: m.alphabet,
        states: Set::new(|p: State| m.states.contains(p) && rep(m, p) == p),
        start: rep(m, m.start),
        ends: Set::new(|p: State| m.ends.contains(p) && rep(m, p) == p),
        delta: Map::new(
            |k: (State, char)| m.states.contains(k.0) && rep(m, k.0) == k.0 && m.alphabet.contains(k.1),
            |k: (State, char)| rep(m, m.delta[k]),
        ),
    }
}

/// Reading one symbol and then the rest.
pub proof fn lemma_run_cons(d: Map<(State, char), State>, q: State, c: char, s: Seq<char>)
    ensures
        run_from(d, q, seq![c] + s) == if d.contains_key((q, c)) {
            run_from(d, d[(q, c)], s)
        } else {
            None
        },
{
    let t = seq![c] + s;
    assert(t[0] == c);
    assert(t.subrange(1, t.len() as int) =~= s);
}

/// Runs stay among the states.
pub proof fn lemma_run_in_states(m: AutomatonModel, q: State, s: Seq<char>)
    requires
        model_wf(m),
        m.states.contains(q),
    ensures
        run_from(m.delta, q, s) matches Some(r) ==> m.states.contains(r),
    decreases s.len(),
{
    if s.len() > 0 && m.delta.contains_key((q, s[0])) {
        lemma_run_in_states(m, m.delta[(q, s[0])], s.subrange(1, s.len() as int));
    }
}

pub proof fn lemma_equiv_refl(m: AutomatonModel, p: State)
    ensures
        equivalent(m, p, p),
{
}

pub proof fn lemma_equiv_sym(m: AutomatonModel, p: State, q: State)
    requires
        equivalent(m, p, q),
    ensures
        equivalent(m, q, p),
{
    assert forall|s: Seq<char>| #[trigger] accepts_from(m, q, s) == accepts_from(m, p, s) by {
        assert(accepts_from(m, p, s) == accepts_from(m, q, s));
    }
}

pub proof fn lemma_equiv_trans(m: AutomatonModel, p: State, q: State, r: State)
    requires
        equivalent(m, p, q),
        equivalent(m, q, r),
    ensures
        equivalent(m, p, r),
{
    assert forall|s: Seq<char>| #[trigger] accepts_from(m, p, s) == accepts_from(m, r, s) by {
        assert(accepts_from(m, p, s) == accepts_from(m, q, s));
        assert(accepts_from(m, q, s) == accepts_from(m, r, s));
    }
}

/// Equivalent states agree on acceptance.
pub proof fn lemma_equiv_accept(m: AutomatonModel, p: State, q: State)
    requires
        equivalent(m, p, q),
    ensures
        m.ends.contains(p) == m.ends.contains(q),
{
    assert(accepts_from(m, p, Seq::empty()) == accepts_from(m, q, Seq::empty()));
}

/// Equivalent states move to equivalent states.
pub proof fn lemma_equiv_step(m: AutomatonModel, p: State, q: State, c: char)
    requires
        equivalent(m, p, q),
        m.delta.contains_key((p, c)),
        m.delta.contains_key((q, c)),
    ensures
        equivalent(m, m.delta[(p, c)], m.delta[(q, c)]),
{
    assert forall|s: Seq<char>| #[trigger]
        accepts_from(m, m.delta[(p, c)], s) == accepts_from(m, m.delta[(q, c)], s) by {
        lemma_run_cons(m.delta, p, c, s);
        lemma_run_cons(m.delta, q, c, s);
        assert(accepts_from(m, p, seq![c] + s) == accepts_from(m, q, seq![c] + s));
    }
}

/// A finite non-empty set of characters has a least element.
pub proof fn lemma_least_char(s: Set<char>)
    requires
        s.finite(),
        s.len() > 0,
    ensures
        exists|r: char| s.contains(r) && forall|p: char| s.contains(p) ==> char_le(r, p),
    decreases s.len(),
{
    let x = s.choose();
    assert(s.contains(x));
    let t = s.remove(x);
    if t.len() == 0 {
        assert forall|p: char| s.contains(p) implies char_le(x, p) by {
            if p != x {
                assert(t.contains(p));
            }
        }
    } else {
        lemma_least_char(t);
        let y = choose|r: char| t.contains(r) && forall|p: char| t.contains(p) ==> char_le(r, p);
        if char_le(x, y) {
            assert forall|p: char| s.contains(p) implies char_le(x, p) by {
                if p != x {
                    assert(t.contains(p));
                }
            }
        } else {
            assert forall|p: char| s.contains(p) implies char_le(y, p) by {
                if p != x {
                    assert(t.contains(p));
                }
            }
        }
    }
}

/// Every state has its representative.
pub proof fn lemma_rep(m: AutomatonModel, q: State)
    requires
        model_wf(m),
        m.states.contains(q),
    ensures
        is_rep(m, q, rep(m, q)),
{
    let cls = m.states.filter(|p: State| equivalent(m, p, q));
    lemma_equiv_refl(m, q);
    assert(cls.contains(q));
    vstd::set_lib::lemma_len_subset(cls, m.states);
    assert(cls.finite());
    lemma_least_char(cls);
    let r = choose|r: char| cls.contains(r) && forall|p: char| cls.contains(p) ==> char_le(r, p);
    assert forall|p: State| m.states.contains(p) && equivalent(m, p, q) implies char_le(r, p) by {
        assert(cls.contains(p));
    }
    assert(is_rep(m, q, r));
}

/// There is one representative.
pub proof fn lemma_rep_unique(m: AutomatonModel, q: State, r1: State, r2: State)
    requires
        is_rep(m, q, r1),
        is_rep(m, q, r2),
    ensures
        r1 == r2,
{
    assert(char_le(r1, r2));
    assert(char_le(r2, r1));
}

/// `r` is the representative of `q` when it is the least state equivalent to it.
pub proof fn lemma_rep_is(m: AutomatonModel, q: State, r: State)
    requires
        is_rep(m, q, r),
    ensures
        rep(m, q) == r,
{
    lemma_rep_unique(m, q, rep(m, q), r);
}

/// Equivalent states have the same representative, which is equivalent to both.
pub proof fn lemma_rep_class(m: AutomatonModel, p: State, q: State)
    requires
        model_wf(m),
        m.states.contains(p),
        m.states.contains(q),
        equivalent(m, p, q),
    ensures
        rep(m, p) == rep(m, q),
{
    lemma_rep(m, p);
    let r = rep(m, p);
    lemma_equiv_trans(m, r, p, q);
    assert forall|x: State| m.states.contains(x) && equivalent(m, x, q) implies char_le(r, x) by {
        lemma_equiv_sym(m, p, q);
        lemma_equiv_trans(m, x, q, p);
    }
    lemma_rep_is(m, q, r);
}

/// The representative of a state is a representative of itself.
pub proof fn lemma_rep_of_rep(m: AutomatonModel, q: State)
    requires
        model_wf(m),
        m.states.contains(q),
    ensures
        m.states.contains(rep(m, q)),
        equivalent(m, rep(m, q), q),
        rep(m, rep(m, q)) == rep(m, q),
{
    lemma_rep(m, q);
    lemma_rep_class(m, rep(m, q), q);
}

/// Reading a string in the minimal automaton from the representative of `q` ends in the
/// representative of where it ends from `q`, and fails exactly where it fails from `q`.
pub proof fn lemma_minimized_run(m: AutomatonModel, q: State, s: Seq<char>)
    requires
        model_wf(m),
        model_total(m),
        m.states.contains(q),
    ensures
        run_from(minimized(m).delta, rep(m, q), s) == match run_from(m.delta, q, s) {
            Some(r) => Some(rep(m, r)),
            None => None,
        },
    decreases s.len(),
{
    let n = minimized(m);
    lemma_rep_of_rep(m, q);
    let rq = rep(m, q);
    if s.len() > 0 {
        let c = s[0];
        let rest = s.subrange(1, s.len() as int);
        if m.alphabet.contains(c) {
            assert(m.delta.contains_key((q, c)));
            assert(m.delta.contains_key((rq, c)));
            assert(n.delta.contains_key((rq, c)));
            lemma_equiv_step(m, rq, q, c);
            lemma_rep_class(m, m.delta[(rq, c)], m.delta[(q, c)]);
            lemma_minimized_run(m, m.delta[(q, c)], rest);
        } else {
            assert(!m.delta.contains_key((q, c)));
            assert(!n.delta.contains_key((rq, c)));
        }
    }
}

/// From the representative of `q`, the minimal automaton accepts what `m` accepts from `q`.
pub proof fn lemma_minimized_accepts(m: AutomatonModel, q: State, s: Seq<char>)
    requires
        model_wf(m),
        model_total(m),
        m.states.contains(q),
    ensures
        accepts_from(minimized(m), rep(m, q), s) == accepts_from(m, q, s),
        run_from(minimized(m).delta, rep(m, q), s) is Some <==> run_from(m.delta, q, s) is Some,
{
    lemma_minimized_run(m, q, s);
    lemma_run_in_states(m, q, s);
    if let Some(r) = run_from(m.delta, q, s) {
        lemma_rep_of_rep(m, r);
        lemma_equiv_accept(m, rep(m, r), r);
    }
}

/// Minimisation keeps the language: from the start state, the minimal automaton accepts
/// exactly the strings that `m` accepts, and a run fails in one exactly when it fails in
/// the other.
pub proof fn lemma_minimize_preserves_language(m: AutomatonModel, s: Seq<char>)
    requires
        model_wf(m),
        model_total(m),
    ensures
        accepts_from(minimized(m), minimized(m).start, s) == accepts_from(m, m.start, s),
        run_from(minimized(m).delta, minimized(m).start, s) is Some <==> run_from(
            m.delta,
            m.start,
            s,
        ) is Some,
{
    lemma_minimized_accepts(m, m.start, s);
}

/// No two distinct states of the minimal automaton are equivalent.
pub proof fn lemma_minimized_no_equivalent_states(m: AutomatonModel, p: State, q: State)
    requires
        model_wf(m),
        model_total(m),
        minimized(m).states.contains(p),
        minimized(m).states.contains(q),
        p != q,
    ensures
        !equivalent(minimized(m), p, q),
{
    if equivalent(minimized(m), p, q) {
        assert forall|s: Seq<char>| #[trigger] accepts_from(m, p, s) == accepts_from(m, q, s) by {
            lemma_minimized_accepts(m, p, s);
            lemma_minimized_accepts(m, q, s);
            assert(accepts_from(minimized(m), p, s) == accepts_from(minimized(m), q, s));
        }
        lemma_rep_class(m, p, q);
    }
}

/// The minimal automaton is itself a well-formed total automaton.
pub proof fn lemma_minimized_wf(m: AutomatonModel)
    requires
        model_wf(m),
        model_total(m),
    ensures
        model_wf(minimized(m)),
        model_total(minimized(m)),
{
    let n = minimized(m);
    vstd::set_lib::lemma_len_subset(n.states, m.states);
    lemma_rep_of_rep(m, m.start);
    assert forall|k: (State, char)| #[trigger]
        n.delta.contains_key(k) implies n.states.contains(k.0) && n.alphabet.contains(k.1)
        && n.states.contains(n.delta[k]) by {
        assert(m.delta.contains_key(k));
        lemma_rep_of_rep(m, m.delta[k]);
    }
}

/// Minimising twice gives what minimising once gave.
pub proof fn lemma_minimize_idempotent(m: AutomatonModel)
    requires
        model_wf(m),
        model_total(m),
    ensures
        model_wf(minimized(m)),
        model_total(minimized(m)),
        minimized(minimized(m)) == minimized(m),
{
    let n = minimized(m);
    lemma_minimized_wf(m);
    assert forall|p: State| n.states.contains(p) implies rep(n, p) == p by {
        lemma_equiv_refl(n, p);
        assert forall|x: State| n.states.contains(x) && equivalent(n, x, p) implies char_le(p, x) by {
            if x != p {
                lemma_minimized_no_equivalent_states(m, x, p);
            }
        }
        assert(is_rep(n, p, p));
        lemma_rep_is(n, p, p);
    }
    let nn = minimized(n);
    lemma_rep_of_rep(m, m.start);
    assert(nn.states =~= n.states);
    assert(nn.ends =~= n.ends);
    assert forall|k: (State, char)| #[trigger] nn.delta.contains_key(k) implies nn.delta[k] == n.delta[k] by {
        assert(n.delta.contains_key(k));
        assert(m.delta.contains_key(k));
        lemma_rep_of_rep(m, m.delta[k]);
    }
    assert(nn.delta =~= n.delta);
}

/// The minimal automaton depends on the automaton alone, not on how its parts were listed.
pub proof fn lemma_minimize_deterministic(a: AutomatonModel, b: AutomatonModel)
    requires
        a == b,
    ensures
        minimized(a) == minimized(b),
{
}

// The refinement works on state indices: `tbl[i][b]` is the index of the target of state `i`
// on symbol `b`, and `id[i]` is the least index in the block of state `i`.

/// The table matches the automaton's transitions on the listed states and symbols.
spec fn table_ok(m: AutomatonModel, st: Seq<State>, al: Seq<char>, tbl: Seq<Vec<usize>>) -> bool {
    &&& tbl.len() == st.len()
    &&& forall|i: int| 0 <= i < st.len() ==> (#[trigger] tbl[i])@.len() == al.len()
    &&& forall|i: int, b: int|
        0 <= i < st.len() && 0 <= b < al.len() ==> (#[trigger] tbl[i]@[b]) < st.len()
            && m.delta.contains_key((st[i], al[b])) && m.delta[(st[i], al[b])] == st[tbl[i]@[b] as int]
}

/// Block labels: each state is labelled with the least index of its block.
spec fn labels_ok(id: Seq<usize>, n: int) -> bool {
    &&& id.len() == n
    &&& forall|i: int| 0 <= i < n ==> #[trigger] id[i] <= i && id[id[i] as int] == id[i]
}

/// States `i` and `j` move into the same blocks on every symbol.
spec fn same_sig(tbl: Seq<Vec<usize>>, id: Seq<usize>, k: int, i: int, j: int) -> bool {
    forall|b: int| 0 <= b < k ==> id[#[trigger] tbl[i]@[b] as int] == id[tbl[j]@[b] as int]
}

/// Equivalent states share a block.
spec fn labels_complete(m: AutomatonModel, st: Seq<State>, id: Seq<usize>) -> bool {
    forall|i: int, j: int|
        0 <= i < st.len() && 0 <= j < st.len() && equivalent(m, st[i], st[j]) ==> id[i] == id[j]
}

/// States of one block agree on acceptance.
spec fn labels_split_ends(m: AutomatonModel, st: Seq<State>, id: Seq<usize>) -> bool {
    forall|i: int, j: int|
        0 <= i < st.len() && 0 <= j < st.len() && id[i] == id[j] ==> m.ends.contains(st[i])
            == m.ends.contains(st[j])
}

/// No block splits any further.
spec fn labels_stable(tbl: Seq<Vec<usize>>, id: Seq<usize>, n: int, k: int) -> bool {
    forall|i: int, j: int| 0 <= i < n && 0 <= j < n && id[i] == id[j] ==> same_sig(tbl, id, k, i, j)
}

/// The sum, over the first `n` states, of how far each label lies below its index.
spec fn gap_sum(id: Seq<usize>, n: int) -> int
    decreases n,
{
    if n <= 0 {
        0
    } else {
        gap_sum(id, n - 1) + (n - 1) - id[n - 1]
    }
}

proof fn lemma_gap_sum_le(a: Seq<usize>, b: Seq<usize>, n: int)
    requires
        0 <= n <= a.len(),
        n <= b.len(),
        forall|i: int| 0 <= i < n ==> a[i] <= b[i],
    ensures
        gap_sum(b, n) <= gap_sum(a, n),
        (exists|i: int| 0 <= i < n && a[i] < b[i]) ==> gap_sum(b, n) < gap_sum(a, n),
    decreases n,
{
    if n > 0 {
        lemma_gap_sum_le(a, b, n - 1);
    }
}

proof fn lemma_gap_sum_nonneg(a: Seq<usize>, n: int)
    requires
        0 <= n <= a.len(),
        forall|i: int| 0 <= i < n ==> a[i] <= i,
    ensures
        gap_sum(a, n) >= 0,
    decreases n,
{
    if n > 0 {
        lemma_gap_sum_nonneg(a, n - 1);
    }
}

/// Whether states `i` and `j` move into the same blocks on every symbol.
fn same_signature(tbl: &Vec<Vec<usize>>, id: &Vec<usize>, k: usize, i: usize, j: usize) -> (r: bool)
    requires
        i < tbl.len(),
        j < tbl.len(),
        tbl@[i as int]@.len() == k,
        tbl@[j as int]@.len() == k,
        forall|x: int, b: int|
            0 <= x < tbl.len() && 0 <= b < k ==> (#[trigger] tbl@[x]@[b]) < id.len(),
    ensures
        r == same_sig(tbl@, id@, k as int, i as int, j as int),
{
    let mut b: usize = 0;
    while b < k
        invariant
            b <= k,
            i < tbl.len(),
            j < tbl.len(),
            tbl@[i as int]@.len() == k,
            tbl@[j as int]@.len() == k,
            forall|x: int, c: int|
                0 <= x < tbl.len() && 0 <= c < k ==> (#[trigger] tbl@[x]@[c]) < id.len(),
            forall|c: int|
                0 <= c < b ==> id@[#[trigger] tbl@[i as int]@[c] as int] == id@[tbl@[j as int]@[c] as int],
        decreases k - b,
    {
        if id[tbl[i][b]] != id[tbl[j][b]] {
            return false;
        }
        b = b + 1;
    }
    true
}

/// One round of refinement: each state gets the least index of its block whose signature
/// equals its own.
fn refine(tbl: &Vec<Vec<usize>>, id: &Vec<usize>, k: usize) -> (r: Vec<usize>)
    requires
        labels_ok(id@, tbl.len() as int),
        forall|i: int| 0 <= i < tbl.len() ==> (#[trigger] tbl@[i])@.len() == k,
        forall|x: int, b: int|
            0 <= x < tbl.len() && 0 <= b < k ==> (#[trigger] tbl@[x]@[b]) < tbl.len(),
    ensures
        r.len() == tbl.len(),
        forall|i: int|
            0 <= i < tbl.len() ==> #[trigger] r@[i] <= i && id@[r@[i] as int] == id@[i] && same_sig(
                tbl@,
                id@,
                k as int,
                r@[i] as int,
                i,
            ) && forall|j: int|
                0 <= j < r@[i] ==> !(id@[j] == id@[i] && same_sig(tbl@, id@, k as int, j, i)),
{
    let n = tbl.len();
    let mut r: Vec<usize> = Vec::new();
    let mut i: usize = 0;
    while i < n
        invariant
            n == tbl.len(),
            i <= n,
            r.len() == i,
            labels_ok(id@, n as int),
            forall|x: int| 0 <= x < n ==> (#[trigger] tbl@[x])@.len() == k,
            forall|x: int, b: int| 0 <= x < n && 0 <= b < k ==> (#[trigger] tbl@[x]@[b]) < n,
            forall|x: int|
                0 <= x < i ==> #[trigger] r@[x] <= x && id@[r@[x] as int] == id@[x] && same_sig(
                    tbl@,
                    id@,
                    k as int,
                    r@[x] as int,
                    x,
                ) && forall|j: int|
                    0 <= j < r@[x] ==> !(id@[j] == id@[x] && same_sig(tbl@, id@, k as int, j, x)),
        decreases n - i,
    {
        let mut j: usize = 0;
        while !(id[j] == id[i] && same_signature(tbl, id, k, j, i))
            invariant
                n == tbl.len(),
                i < n,
                j <= i,
                labels_ok(id@, n as int),
                forall|x: int| 0 <= x < n ==> (#[trigger] tbl@[x])@.len() == k,
                forall|x: int, b: int| 0 <= x < n && 0 <= b < k ==> (#[trigger] tbl@[x]@[b]) < n,
                forall|x: int|
                    0 <= x < j ==> !(id@[x] == id@[i as int] && same_sig(tbl@, id@, k as int, x, i as int)),
            decreases i - j,
        {
            proof {
                if j == i {
                    assert(same_sig(tbl@, id@, k as int, i as int, i as int));
                }
            }
            j = j + 1;
        }
        r.push(j);
        i = i + 1;
    }
    r
}

/// Whether two label vectors are equal.
fn same_labels(a: &Vec<usize>, b: &Vec<usize>) -> (r: bool)
    requires
        a.len() == b.len(),
    ensures
        r == (a@ == b@),
{
    let mut i: usize = 0;
    while i < a.len()
        invariant
            a.len() == b.len(),
            i <= a.len(),
            forall|j: int| 0 <= j < i ==> a@[j] == b@[j],
        decreases a.len() - i,
    {
        if a[i] != b[i] {
            return false;
        }
        i = i + 1;
    }
    assert(a@ =~= b@);
    true
}

/// What a refinement round keeps: labels stay well formed, equivalent states stay together,
/// blocks stay split by acceptance, and no label decreases.
proof fn lemma_refine_keeps(
    m: AutomatonModel,
    st: Seq<State>,
    al: Seq<char>,
    tbl: Seq<Vec<usize>>,
    id: Seq<usize>,
    r: Seq<usize>,
)
    requires
        model_wf(m),
        table_ok(m, st, al, tbl),
        labels_ok(id, st.len() as int),
        labels_complete(m, st, id),
        labels_split_ends(m, st, id),
        r.len() == st.len(),
        forall|i: int|
            0 <= i < st.len() ==> #[trigger] r[i] <= i && id[r[i] as int] == id[i] && same_sig(
                tbl,
                id,
                al.len() as int,
                r[i] as int,
                i,
            ) && forall|j: int|
                0 <= j < r[i] ==> !(id[j] == id[i] && same_sig(tbl, id, al.len() as int, j, i)),
    ensures
        labels_ok(r, st.len() as int),
        labels_complete(m, st, r),
        labels_split_ends(m, st, r),
        forall|i: int| 0 <= i < st.len() ==> id[i] <= #[trigger] r[i],
        forall|i: int, j: int|
            0 <= i < st.len() && 0 <= j < st.len() ==> (r[i] == r[j] <==> (id[i] == id[j]
                && same_sig(tbl, id, al.len() as int, i, j))),
{
    let n = st.len() as int;
    let k = al.len() as int;
    // The label of a state is the least index in its block with its signature.
    assert forall|i: int, j: int|
        0 <= i < n && 0 <= j < n implies (r[i] == r[j] <==> (id[i] == id[j] && same_sig(
            tbl,
            id,
            k,
            i,
            j,
        ))) by {
        let _ = r[i];
        let _ = r[j];
        if id[i] == id[j] && same_sig(tbl, id, k, i, j) {
            assert(same_sig(tbl, id, k, r[i] as int, j)) by {
                assert forall|b: int| 0 <= b < k implies id[#[trigger] tbl[r[i] as int]@[b] as int]
                    == id[tbl[j]@[b] as int] by {
                    assert(id[tbl[r[i] as int]@[b] as int] == id[tbl[i]@[b] as int]);
                    assert(id[tbl[i]@[b] as int] == id[tbl[j]@[b] as int]);
                }
            }
            assert(same_sig(tbl, id, k, r[j] as int, i)) by {
                assert forall|b: int| 0 <= b < k implies id[#[trigger] tbl[r[j] as int]@[b] as int]
                    == id[tbl[i]@[b] as int] by {
                    assert(id[tbl[r[j] as int]@[b] as int] == id[tbl[j]@[b] as int]);
                    assert(id[tbl[i]@[b] as int] == id[tbl[j]@[b] as int]);
                }
            }
            if r[i] < r[j] {
                assert(!(id[r[i] as int] == id[j] && same_sig(tbl, id, k, r[i] as int, j)));
            }
            if r[j] < r[i] {
                assert(!(id[r[j] as int] == id[i] && same_sig(tbl, id, k, r[j] as int, i)));
            }
        }
        if r[i] == r[j] {
            let x = r[i] as int;
            assert forall|b: int| 0 <= b < k implies id[#[trigger] tbl[i]@[b] as int] == id[tbl[j]@[b] as int] by {
                assert(id[tbl[x]@[b] as int] == id[tbl[i]@[b] as int]);
                assert(id[tbl[x]@[b] as int] == id[tbl[j]@[b] as int]);
            }
        }
    }
    assert forall|i: int| 0 <= i < n implies #[trigger] r[i] <= i && r[r[i] as int] == r[i] by {
        let x = r[i] as int;
        assert(same_sig(tbl, id, k, i, x)) by {
            assert forall|b: int| 0 <= b < k implies id[#[trigger] tbl[i]@[b] as int] == id[tbl[x]@[b] as int] by {
                assert(id[tbl[x]@[b] as int] == id[tbl[i]@[b] as int]);
            }
        }
    }
    assert forall|i: int| 0 <= i < n implies id[i] <= #[trigger] r[i] by {
        let x = r[i] as int;
        assert(id[x] <= x);
    }
    assert forall|i: int, j: int|
        0 <= i < n && 0 <= j < n && equivalent(m, st[i], st[j]) implies r[i] == r[j] by {
        assert forall|b: int| 0 <= b < k implies id[#[trigger] tbl[i]@[b] as int] == id[tbl[j]@[b] as int] by {
            let _ = tbl[i]@[b];
            let _ = tbl[j]@[b];
            lemma_equiv_step(m, st[i], st[j], al[b]);
        }
    }
}

/// At a fixpoint, states that share a block are equivalent.
proof fn lemma_stable_sound(
    m: AutomatonModel,
    st: Seq<State>,
    al: Seq<char>,
    tbl: Seq<Vec<usize>>,
    id: Seq<usize>,
    s: Seq<char>,
)
    requires
        model_wf(m),
        m.alphabet == al.to_set(),
        table_ok(m, st, al, tbl),
        labels_ok(id, st.len() as int),
        labels_split_ends(m, st, id),
        labels_stable(tbl, id, st.len() as int, al.len() as int),
    ensures
        forall|i: int, j: int|
            0 <= i < st.len() && 0 <= j < st.len() && id[i] == id[j] ==> accepts_from(m, st[i], s)
                == accepts_from(m, st[j], s),
    decreases s.len(),
{
    if s.len() > 0 {
        let c = s[0];
        let rest = s.subrange(1, s.len() as int);
        lemma_stable_sound(m, st, al, tbl, id, rest);
        assert forall|i: int, j: int|
            0 <= i < st.len() && 0 <= j < st.len() && id[i] == id[j] implies accepts_from(
                m,
                st[i],
                s,
            ) == accepts_from(m, st[j], s) by {
            if al.contains(c) {
                let b = choose|b: int| 0 <= b < al.len() && al[b] == c;
                let _ = tbl[i]@[b];
                let _ = tbl[j]@[b];
                assert(same_sig(tbl, id, al.len() as int, i, j));
                assert(id[tbl[i]@[b] as int] == id[tbl[j]@[b] as int]);
            } else {
                assert(!m.alphabet.contains(c));
                assert(!m.delta.contains_key((st[i], c)));
                assert(!m.delta.contains_key((st[j], c)));
            }
        }
    }
}

/// A transition entry with both states replaced by their representatives.
spec fn rep_entry(m: AutomatonModel, e: (TransFunc, State)) -> (TransFunc, State) {
    (TransFunc { now_state: rep(m, e.0.now_state), input_alpha: e.0.input_alpha }, rep(m, e.1))
}

/// The parts collapsed onto representatives describe the minimal automaton.
proof fn lemma_collapse(
    m: AutomatonModel,
    st: Seq<State>,
    reps: Seq<State>,
    ends: Seq<State>,
    new_ends: Seq<State>,
    trans: Seq<(TransFunc, State)>,
    new_trans: Seq<(TransFunc, State)>,
)
    requires
        model_wf(m),
        model_total(m),
        m.states == st.to_set(),
        m.ends == ends.to_set(),
        m.delta == trans_map(trans),
        crate::deterministic_finite_automaton::keys_unique(trans),
        reps.len() == st.len(),
        forall|i: int| 0 <= i < reps.len() ==> rep(m, st[i]) == #[trigger] reps[i],
        new_ends.len() == ends.len(),
        forall|x: int| 0 <= x < ends.len() ==> #[trigger] new_ends[x] == rep(m, ends[x]),
        new_trans.len() == trans.len(),
        forall|x: int| 0 <= x < trans.len() ==> #[trigger] new_trans[x] == rep_entry(m, trans[x]),
    ensures
        reps.to_set() == minimized(m).states,
        new_ends.to_set() == minimized(m).ends,
        trans_map(new_trans) == minimized(m).delta,
{
    let target = minimized(m);
    assert forall|p: State| reps.to_set().contains(p) <==> target.states.contains(p) by {
        if reps.to_set().contains(p) {
            let i = choose|i: int| 0 <= i < reps.len() && reps[i] == p;
            lemma_rep_of_rep(m, st[i]);
        }
        if target.states.contains(p) {
            let j = choose|j: int| 0 <= j < st.len() && st[j] == p;
            assert(reps[j] == p);
        }
    }
    assert(reps.to_set() =~= target.states);
    assert forall|p: State| new_ends.to_set().contains(p) <==> target.ends.contains(p) by {
        if new_ends.to_set().contains(p) {
            let x = choose|x: int| 0 <= x < new_ends.len() && new_ends[x] == p;
            assert(m.ends.contains(ends[x]));
            lemma_rep_of_rep(m, ends[x]);
            lemma_equiv_accept(m, p, ends[x]);
        }
        if target.ends.contains(p) {
            let x = choose|x: int| 0 <= x < ends.len() && ends[x] == p;
            assert(new_ends[x] == p);
        }
    }
    assert(new_ends.to_set() =~= target.ends);
    assert forall|key: (State, char)| trans_map(new_trans).contains_key(key) <==> target.delta.contains_key(key) by {
        lemma_trans_map_dom(new_trans, key);
        if trans_map(new_trans).contains_key(key) {
            let x = choose|x: int| 0 <= x < new_trans.len() && entry_key(new_trans[x]) == key;
            let _ = new_trans[x];
            lemma_trans_map_dom(trans, entry_key(trans[x]));
            assert(m.delta.contains_key(entry_key(trans[x])));
            lemma_rep_of_rep(m, trans[x].0.now_state);
        }
        if target.delta.contains_key(key) {
            assert(m.delta.contains_key(key));
            lemma_trans_map_dom(trans, key);
            let x = choose|x: int| 0 <= x < trans.len() && entry_key(trans[x]) == key;
            let _ = new_trans[x];
            assert(entry_key(new_trans[x]) == key);
        }
    }
    assert forall|key: (State, char)| #[trigger] trans_map(new_trans).contains_key(key) implies trans_map(new_trans)[key] == target.delta[key] by {
        assert(target.delta.contains_key(key));
        assert(m.delta.contains_key(key));
        let v = rep(m, m.delta[key]);
        assert forall|x: int| 0 <= x < new_trans.len() && entry_key(#[trigger] new_trans[x]) == key implies new_trans[x].1 == v by {
            let k0 = entry_key(trans[x]);
            lemma_trans_map_dom(trans, k0);
            assert(m.delta.contains_key(k0));
            let q = trans[x].0.now_state;
            assert(m.states.contains(q));
            lemma_rep_of_rep(m, q);
            // The representative of q is equivalent to q, so their successors are.
            lemma_equiv_step(m, key.0, q, key.1);
            lemma_rep_class(m, m.delta[key], m.delta[k0]);
            crate::deterministic_finite_automaton::lemma_trans_map_value(trans, x);
        }
        lemma_trans_map_agreeing(new_trans, key, v);
    }
    assert(trans_map(new_trans) =~= target.delta);
}

impl DeterministicFiniteAutomaton {
    /// The index table of the transitions, or `None` where one is missing.
    fn transition_table(&self) -> (r: Option<Vec<Vec<usize>>>)
        requires
            self.wf(),
        ensures
            match r {
                Some(t) => table_ok(self@, self.state@, self.alpha@, t@),
                None => !model_total(self@),
            },
    {
        let n = self.state.len();
        let k = self.alpha.len();
        let mut tbl: Vec<Vec<usize>> = Vec::new();
        let mut i: usize = 0;
        while i < n
            invariant
                self.wf(),
                n == self.state.len(),
                k == self.alpha.len(),
                i <= n,
                tbl.len() == i,
                forall|x: int| 0 <= x < i ==> (#[trigger] tbl@[x])@.len() == k,
                forall|x: int, b: int|
                    0 <= x < i && 0 <= b < k ==> (#[trigger] tbl@[x]@[b]) < n
                        && self@.delta.contains_key((self.state@[x], self.alpha@[b]))
                        && self@.delta[(self.state@[x], self.alpha@[b])] == self.state@[tbl@[x]@[b] as int],
            decreases n - i,
        {
            let mut row: Vec<usize> = Vec::new();
            let mut b: usize = 0;
            while b < k
                invariant
                    self.wf(),
                    n == self.state.len(),
                    k == self.alpha.len(),
                    i < n,
                    b <= k,
                    row.len() == b,
                    forall|c: int|
                        0 <= c < b ==> (#[trigger] row@[c]) < n && self@.delta.contains_key(
                            (self.state@[i as int], self.alpha@[c]),
                        ) && self@.delta[(self.state@[i as int], self.alpha@[c])]
                            == self.state@[row@[c] as int],
                decreases k - b,
            {
                match self.target(self.state[i], self.alpha[b]) {
                    None => {
                        proof {
                            assert(self@.states.contains(self.state@[i as int]));
                            assert(self@.alphabet.contains(self.alpha@[b as int]));
                        }
                        return None;
                    },
                    Some(t) => {
                        proof {
                            self.lemma_wf_model();
                            assert(self@.states.contains(t));
                        }
                        let x = index_of(&self.state, t).unwrap();
                        row.push(x);
                    },
                }
                b = b + 1;
            }
            tbl.push(row);
            i = i + 1;
        }
        Some(tbl)
    }

    /// Whether each state accepts.
    fn acceptance(&self) -> (r: Vec<bool>)
        ensures
            r.len() == self.state.len(),
            forall|i: int| 0 <= i < r.len() ==> #[trigger] r@[i] == self@.ends.contains(self.state@[i]),
    {
        let mut r: Vec<bool> = Vec::new();
        let mut i: usize = 0;
        while i < self.state.len()
            invariant
                i <= self.state.len(),
                r.len() == i,
                forall|x: int| 0 <= x < i ==> #[trigger] r@[x] == self@.ends.contains(self.state@[x]),
            decreases self.state.len() - i,
        {
            r.push(self.is_end_state(self.state[i]));
            i = i + 1;
        }
        r
    }

    /// The first partition: accepting states and the others, each labelled by its least index.
    fn initial_labels(&self, acc: &Vec<bool>) -> (r: Vec<usize>)
        requires
            acc.len() == self.state.len(),
            forall|i: int| 0 <= i < acc.len() ==> #[trigger] acc@[i] == self@.ends.contains(self.state@[i]),
        ensures
            labels_ok(r@, self.state.len() as int),
            labels_complete(self@, self.state@, r@),
            labels_split_ends(self@, self.state@, r@),
    {
        let n = acc.len();
        let mut r: Vec<usize> = Vec::new();
        let mut i: usize = 0;
        while i < n
            invariant
                n == acc.len(),
                i <= n,
                r.len() == i,
                forall|x: int|
                    0 <= x < i ==> #[trigger] r@[x] <= x && acc@[r@[x] as int] == acc@[x] && forall|j: int|
                        0 <= j < r@[x] ==> acc@[j] != acc@[x],
            decreases n - i,
        {
            let mut j: usize = 0;
            while acc[j] != acc[i]
                invariant
                    n == acc.len(),
                    i < n,
                    j <= i,
                    forall|x: int| 0 <= x < j ==> acc@[x] != acc@[i as int],
                decreases i - j,
            {
                j = j + 1;
            }
            r.push(j);
            i = i + 1;
        }
        proof {
            assert forall|i: int, j: int|
                0 <= i < n && 0 <= j < n && acc@[i] == acc@[j] implies r@[i] == r@[j] by {
                let _ = r@[i];
                let _ = r@[j];
                if r@[i] < r@[j] {
                    assert(acc@[r@[i] as int] != acc@[j]);
                }
                if r@[j] < r@[i] {
                    assert(acc@[r@[j] as int] != acc@[i]);
                }
            }
            assert forall|i: int| 0 <= i < n implies #[trigger] r@[i] <= i && r@[r@[i] as int] == r@[i] by {
                assert(acc@[r@[i] as int] == acc@[i]);
            }
            assert forall|i: int, j: int|
                0 <= i < n && 0 <= j < n && equivalent(self@, self.state@[i], self.state@[j]) implies r@[i] == r@[j] by {
                lemma_equiv_accept(self@, self.state@[i], self.state@[j]);
                let _ = acc@[i];
                let _ = acc@[j];
            }
            assert forall|i: int, j: int|
                0 <= i < n && 0 <= j < n && r@[i] == r@[j] implies self@.ends.contains(self.state@[i])
                == self@.ends.contains(self.state@[j]) by {
                let _ = r@[i];
                let _ = r@[j];
            }
        }
        r
    }

    /// Refines the labels until no block splits.
    fn stable_labels(&self, tbl: &Vec<Vec<usize>>, id0: Vec<usize>) -> (r: Vec<usize>)
        requires
            self.wf(),
            table_ok(self@, self.state@, self.alpha@, tbl@),
            labels_ok(id0@, self.state.len() as int),
            labels_complete(self@, self.state@, id0@),
            labels_split_ends(self@, self.state@, id0@),
        ensures
            labels_ok(r@, self.state.len() as int),
            labels_complete(self@, self.state@, r@),
            labels_split_ends(self@, self.state@, r@),
            labels_stable(tbl@, r@, self.state.len() as int, self.alpha.len() as int),
    {
        proof {
            self.lemma_wf_model();
        }
        let k = self.alpha.len();
        let mut id = id0;
        let mut next = refine(tbl, &id, k);
        proof {
            lemma_refine_keeps(self@, self.state@, self.alpha@, tbl@, id@, next@);
            lemma_gap_sum_nonneg(id@, self.state.len() as int);
        }
        while !same_labels(&next, &id)
            invariant
                self.wf(),
                model_wf(self@),
                k == self.alpha.len(),
                table_ok(self@, self.state@, self.alpha@, tbl@),
                labels_ok(id@, self.state.len() as int),
                labels_complete(self@, self.state@, id@),
                labels_split_ends(self@, self.state@, id@),
                labels_ok(next@, self.state.len() as int),
                labels_complete(self@, self.state@, next@),
                labels_split_ends(self@, self.state@, next@),
                gap_sum(id@, self.state.len() as int) >= 0,
                forall|i: int| 0 <= i < self.state.len() ==> id@[i] <= #[trigger] next@[i],
                forall|i: int, j: int|
                    0 <= i < self.state.len() && 0 <= j < self.state.len() ==> (next@[i] == next@[j]
                        <==> (id@[i] == id@[j] && same_sig(tbl@, id@, k as int, i, j))),
            decreases gap_sum(id@, self.state.len() as int),
        {
            proof {
                assert(next@ != id@);
                assert(exists|i: int| 0 <= i < self.state.len() && id@[i] < next@[i]) by {
                    assert(!(next@ =~= id@));
                }
                lemma_gap_sum_le(id@, next@, self.state.len() as int);
                lemma_gap_sum_nonneg(next@, self.state.len() as int);
            }
            id = next;
            next = refine(tbl, &id, k);
            proof {
                lemma_refine_keeps(self@, self.state@, self.alpha@, tbl@, id@, next@);
            }
        }
        proof {
            assert forall|i: int, j: int|
                0 <= i < self.state.len() && 0 <= j < self.state.len() && id@[i] == id@[j] implies same_sig(
                tbl@,
                id@,
                k as int,
                i,
                j,
            ) by {
                assert(next@[i] == id@[i]);
                assert(next@[j] == id@[j]);
            }
        }
        id
    }

    /// For each state, the index of the least state of its block.
    fn block_minima(&self, id: &Vec<usize>) -> (r: Vec<usize>)
        requires
            labels_ok(id@, self.state.len() as int),
        ensures
            r.len() == self.state.len(),
            forall|i: int| 0 <= i < r.len() ==> #[trigger] r@[i] < r.len() && id@[r@[i] as int] == id@[i],
            forall|i: int, j: int|
                #![trigger r@[i], self.state@[j]]
                0 <= i < r.len() && 0 <= j < r.len() && id@[j] == id@[i] ==> char_le(
                    self.state@[r@[i] as int],
                    self.state@[j],
                ),
    {
        let n = self.state.len();
        let mut r: Vec<usize> = Vec::new();
        let mut i: usize = 0;
        while i < n
            invariant
                n == self.state.len(),
                labels_ok(id@, n as int),
                i <= n,
                r.len() == i,
                forall|x: int| 0 <= x < i ==> #[trigger] r@[x] < n && id@[r@[x] as int] == id@[x],
                forall|x: int, j: int|
                    #![trigger r@[x], self.state@[j]]
                    0 <= x < i && 0 <= j < n && id@[j] == id@[x] ==> char_le(
                        self.state@[r@[x] as int],
                        self.state@[j],
                    ),
            decreases n - i,
        {
            let mut best: usize = i;
            let mut j: usize = 0;
            while j < n
                invariant
                    n == self.state.len(),
                    labels_ok(id@, n as int),
                    i < n,
                    j <= n,
                    best < n,
                    id@[best as int] == id@[i as int],
                    forall|x: int|
                        0 <= x < j && id@[x] == id@[i as int] ==> char_le(
                            self.state@[best as int],
                            #[trigger] self.state@[x],
                        ),
                decreases n - j,
            {
                if id[j] == id[i] && (self.state[j] as u32) < (self.state[best] as u32) {
                    best = j;
                }
                j = j + 1;
            }
            r.push(best);
            i = i + 1;
        }
        r
    }

    /// The representative of a state, read off the block minima.
    fn rep_by_table(&self, reps: &Vec<State>, q: State) -> (r: State)
        requires
            self.wf(),
            self@.states.contains(q),
            reps.len() == self.state.len(),
            forall|i: int| 0 <= i < reps.len() ==> rep(self@, self.state@[i]) == #[trigger] reps@[i],
        ensures
            r == rep(self@, q),
    {
        let i = index_of(&self.state, q).unwrap();
        reps[i]
    }

    /// Minimises the automaton by partition refinement. The first partition separates the
    /// accepting states from the others; blocks are split by the blocks their transitions
    /// reach until none splits; each block then collapses onto its least state. The
    /// automaton must have a transition for every state and symbol.
    pub fn simplify(&self) -> (r: Result<Self, AnalysisError>)
        requires
            self.wf(),
        ensures
            r is Err <==> !model_total(self@),
            r matches Ok(a) ==> a.wf() && a@ == minimized(self@),
            r matches Err(e) ==> e == AnalysisError::IncompleteAutomaton,
    {
        proof {
            self.lemma_wf_model();
        }
        let tbl = match self.transition_table() {
            Some(t) => t,
            None => {
                return Err(AnalysisError::IncompleteAutomaton);
            },
        };
        let ghost m = self@;
        let ghost st = self.state@;
        let ghost al = self.alpha@;
        proof {
            assert forall|q: State, c: char| m.states.contains(q) && m.alphabet.contains(c) implies #[trigger] m.delta.contains_key((q, c)) by {
                let i = choose|i: int| 0 <= i < st.len() && st[i] == q;
                let b = choose|b: int| 0 <= b < al.len() && al[b] == c;
                let _ = tbl@[i]@[b];
            }
        }
        let n = self.state.len();
        let k = self.alpha.len();
        let acc = self.acceptance();
        let id0 = self.initial_labels(&acc);
        let id = self.stable_labels(&tbl, id0);
        let mins = self.block_minima(&id);
        let mut reps: Vec<State> = Vec::new();
        let mut i: usize = 0;
        while i < n
            invariant
                n == self.state.len(),
                mins.len() == n,
                i <= n,
                reps.len() == i,
                forall|x: int| 0 <= x < n ==> #[trigger] mins@[x] < n,
                forall|x: int| 0 <= x < i ==> #[trigger] reps@[x] == self.state@[mins@[x] as int],
            decreases n - i,
        {
            reps.push(self.state[mins[i]]);
            i = i + 1;
        }
        proof {
            // Blocks are exactly the equivalence classes.
            assert forall|i: int, j: int|
                0 <= i < n && 0 <= j < n && id@[i] == id@[j] implies equivalent(m, st[i], st[j]) by {
                assert forall|s: Seq<char>| #[trigger] accepts_from(m, st[i], s) == accepts_from(m, st[j], s) by {
                    lemma_stable_sound(m, st, al, tbl@, id@, s);
                }
            }
            // Each block minimum is the representative of its states.
            assert forall|i: int| 0 <= i < n implies rep(m, st[i]) == #[trigger] reps@[i] by {
                let j = mins@[i] as int;
                assert(reps@[i] == st[j]);
                assert(equivalent(m, st[j], st[i]));
                assert forall|p: State| m.states.contains(p) && equivalent(m, p, st[i]) implies char_le(reps@[i], p) by {
                    let x = choose|x: int| 0 <= x < n && st[x] == p;
                    assert(id@[x] == id@[i]);
                    let _ = mins@[i];
                }
                assert(is_rep(m, st[i], reps@[i]));
                lemma_rep_is(m, st[i], reps@[i]);
            }
        }
        let mut new_ends: Vec<State> = Vec::new();
        let mut e: usize = 0;
        while e < self.end_state_set.len()
            invariant
                self.wf(),
                model_wf(m),
                m == self@,
                reps.len() == self.state.len(),
                forall|i: int| 0 <= i < reps.len() ==> rep(m, self.state@[i]) == #[trigger] reps@[i],
                e <= self.end_state_set.len(),
                new_ends.len() == e,
                forall|x: int| 0 <= x < e ==> #[trigger] new_ends@[x] == rep(m, self.end_state_set@[x]),
            decreases self.end_state_set.len() - e,
        {
            proof {
                assert(m.ends.contains(self.end_state_set@[e as int]));
            }
            let q = self.rep_by_table(&reps, self.end_state_set[e]);
            new_ends.push(q);
            e = e + 1;
        }
        let mut new_trans: Vec<(TransFunc, State)> = Vec::new();
        let mut t: usize = 0;
        while t < self.trans.len()
            invariant
                self.wf(),
                model_wf(m),
                m == self@,
                reps.len() == self.state.len(),
                forall|i: int| 0 <= i < reps.len() ==> rep(m, self.state@[i]) == #[trigger] reps@[i],
                t <= self.trans.len(),
                new_trans.len() == t,
                forall|x: int| 0 <= x < t ==> #[trigger] new_trans@[x] == rep_entry(m, self.trans@[x]),
            decreases self.trans.len() - t,
        {
            let (f, target) = self.trans[t];
            proof {
                assert(self.state@.contains(self.trans@[t as int].0.now_state));
                assert(self.state@.contains(self.trans@[t as int].1));
            }
            let from = self.rep_by_table(&reps, f.now_state);
            let to = self.rep_by_table(&reps, target);
            new_trans.push((TransFunc::new(from, f.input_alpha), to));
            t = t + 1;
        }
        let new_start = self.rep_by_table(&reps, self.start_state);
        let alpha = crate::utils::dedup_chars(&self.alpha);
        proof {
            lemma_collapse(m, self.state@, reps@, self.end_state_set@, new_ends@, self.trans@, new_trans@);
        }
        let new_states = reps;
        proof {
            let target = minimized(m);
            lemma_minimized_wf(m);
            lemma_rep_of_rep(m, m.start);
            assert(new_states@.to_set().contains(new_start));
            assert forall|x: int| 0 <= x < new_ends.len() implies new_states@.contains(#[trigger] new_ends@[x]) by {
                assert(new_ends@.to_set().contains(new_ends@[x]));
                assert(new_states@.to_set().contains(new_ends@[x]));
            }
            assert forall|x: int| 0 <= x < new_trans.len() implies new_states@.contains(#[trigger] new_trans@[x].0.now_state)
                && new_states@.contains(new_trans@[x].1) && alpha@.contains(new_trans@[x].0.input_alpha) by {
                let key = entry_key(new_trans@[x]);
                lemma_trans_map_dom(new_trans@, key);
                assert(target.delta.contains_key(key));
                assert(new_states@.to_set().contains(key.0));
                assert(alpha@.to_set().contains(key.1));
                assert(m.states.contains(self.trans@[x].1));
                lemma_rep_of_rep(m, self.trans@[x].1);
                assert(new_states@.to_set().contains(new_trans@[x].1));
            }
            assert(model_of(alpha@, new_states@, new_start, new_ends@, new_trans@) == target);
        }
        match DeterministicFiniteAutomaton::build(alpha, new_states, new_start, new_ends, new_trans) {
            Ok(a) => Ok(a),
            Err(e) => Err(e),
        }
    }
}

} // verus!
