//! The search for FIRST sets: depth first over the non-terminals, with the non-terminals
//! under computation on a stack; meeting one of them again means left recursion.
use vstd::prelude::*;

use crate::analysis_error::AnalysisError;
use crate::grammar_sets::{
    agree_on, is_first, set_map, body, first_closed, first_of_alternatives, first_of_seq, left_edge, left_path,
    left_recursive, lemma_first_mono, lemma_first_split, lemma_prefix_first_frame,
    lemma_reads_frame, lemma_reads_grow, lemma_reads_scan, null_prefix, prefix_first, reads,
    sym_first, sym_nullable, within_on,
};
use crate::pushdown_automaton_grammar::PushDownAutomatonGrammar;
use crate::regular_grammar::{GrammarModel, EMPTY_SENTENCE_CHAR};
use crate::utils::{add_all, add_all_except, copy_chars, contains_char, index_of, push_unique};

verus! {

/// The working state of the search: the FIRST set found for each non-terminal, a mark for
/// each (0 unseen, 1 under computation, 2 finished), and the non-terminals under computation.
pub struct FirstMemo {
    pub sets: Vec<Vec<char>>,
    pub mark: Vec<u8>,
    pub stack: Vec<char>,
    /// When each finished non-terminal finished, and the next such time.
    pub fin: Ghost<Seq<int>>,
    pub clock: Ghost<int>,
}

/// The non-terminals that finished before time `t`.
pub open spec fn done_before(nv: Seq<char>, m: FirstMemo, t: int) -> Set<char> {
    Set::new(|c: char| exists|k: int| 0 <= k < nv.len() && nv[k] == c && m.mark@[k] == 2 && m.fin@[k] < t)
}

/// The sets found, as a map over the non-terminals.
pub open spec fn fm(nv: Seq<char>, sets: Seq<Vec<char>>) -> Map<char, Set<char>> {
    Map::new(|c: char| nv.contains(c), |c: char| sets[nv.index_of(c)]@.to_set())
}

/// The finished non-terminals.
pub open spec fn done_set(nv: Seq<char>, mark: Seq<u8>) -> Set<char> {
    Set::new(|c: char| exists|i: int| 0 <= i < nv.len() && nv[i] == c && mark[i] == 2)
}

/// How many non-terminals are unseen.
pub open spec fn count_new(mark: Seq<u8>) -> nat
    decreases mark.len(),
{
    if mark.len() == 0 {
        0
    } else {
        count_new(mark.drop_last()) + if mark.last() == 0u8 {
            1nat
        } else {
            0nat
        }
    }
}

/// What the search keeps true: finished sets are what their productions give, read only
/// finished non-terminals, and lie within every map that satisfies the rules; the marks
/// under computation are those on the stack, which is a chain of leftmost reaches.
pub open spec fn memo_ok(g: GrammarModel, nv: Seq<char>, m: FirstMemo) -> bool {
    let f = fm(nv, m.sets@);
    let d = done_set(nv, m.mark@);
    &&& nv.no_duplicates()
    &&& nv.to_set() == g.non_terminals
    &&& m.sets.len() == nv.len()
    &&& m.mark.len() == nv.len()
    &&& forall|i: int| 0 <= i < nv.len() ==> #[trigger] m.mark@[i] <= 2
    &&& m.fin@.len() == nv.len()
    &&& m.clock@ >= 0
    &&& forall|i: int| 0 <= i < nv.len() && #[trigger] m.mark@[i] == 2 ==> 0 <= m.fin@[i] < m.clock@
    &&& forall|q: int, i: int|
        0 <= q < g.productions.len() && 0 <= i < nv.len() && m.mark@[i] == 2 && (#[trigger] g.productions[q]).0 == #[trigger] nv[i]
            ==> reads(g.non_terminals, f, body(g.productions[q].1), done_before(nv, m, m.fin@[i]))
    &&& forall|i: int|
        0 <= i < nv.len() && m.mark@[i] == 2 ==> (#[trigger] m.sets@[i])@.to_set()
            == first_of_alternatives(g, f, nv[i])
    &&& forall|q: int|
        0 <= q < g.productions.len() && d.contains(g.productions[q].0) ==> reads(
            g.non_terminals,
            f,
            body((#[trigger] g.productions[q]).1),
            d,
        )
    &&& forall|f2: Map<char, Set<char>>| #[trigger] first_closed(g, f2) ==> within_on(f, f2, d)
    &&& forall|i: int| 0 <= i < nv.len() ==> (m.mark@[i] == 1 <==> m.stack@.contains(#[trigger] nv[i]))
    &&& forall|f2: Map<char, Set<char>>| #[trigger] first_closed(g, f2) ==> left_path(g, f2, m.stack@)
}

/// From `a` to `b` finished sets stay, marks only advance.
pub open spec fn memo_grows(nv: Seq<char>, a: FirstMemo, b: FirstMemo) -> bool {
    &&& a.clock@ <= b.clock@
    &&& b.fin@.len() == a.fin@.len()
    &&& forall|i: int| 0 <= i < a.mark.len() && a.mark@[i] == 2 ==> #[trigger] b.fin@[i] == a.fin@[i]
    &&& forall|i: int| 0 <= i < a.mark.len() && a.mark@[i] != 2 && #[trigger] b.mark@[i] == 2 ==> b.fin@[i] >= a.clock@
    &&& b.sets.len() == a.sets.len()
    &&& b.mark.len() == a.mark.len()
    &&& forall|i: int| 0 <= i < a.mark.len() && a.mark@[i] == 2 ==> #[trigger] b.mark@[i] == 2 && b.sets@[i] == a.sets@[i]
    &&& forall|i: int| 0 <= i < a.mark.len() && #[trigger] b.mark@[i] == 0 ==> a.mark@[i] == 0
    &&& forall|i: int| 0 <= i < a.mark.len() && #[trigger] a.mark@[i] == 1 ==> b.mark@[i] == 1
}

/// The map gives each non-terminal its set.
pub proof fn lemma_fm_at(nv: Seq<char>, sets: Seq<Vec<char>>, i: int)
    requires
        nv.no_duplicates(),
        0 <= i < nv.len(),
    ensures
        fm(nv, sets).contains_key(nv[i]),
        fm(nv, sets)[nv[i]] == sets[i]@.to_set(),
{
    assert(nv.contains(nv[i]));
    let j = nv.index_of(nv[i]);
    assert(nv[j] == nv[i]);
}

proof fn lemma_count_set(mark: Seq<u8>, i: int, v: u8)
    requires
        0 <= i < mark.len(),
        mark[i] == 0,
        v != 0,
    ensures
        count_new(mark.update(i, v)) + 1 == count_new(mark),
    decreases mark.len(),
{
    let u = mark.update(i, v);
    if i < mark.len() - 1 {
        assert(u.drop_last() =~= mark.drop_last().update(i, v));
        lemma_count_set(mark.drop_last(), i, v);
    } else {
        assert(u.drop_last() =~= mark.drop_last());
    }
}

proof fn lemma_count_mono(a: Seq<u8>, b: Seq<u8>)
    requires
        a.len() == b.len(),
        forall|i: int| 0 <= i < a.len() && #[trigger] b[i] == 0 ==> a[i] == 0,
    ensures
        count_new(b) <= count_new(a),
    decreases a.len(),
{
    if a.len() > 0 {
        assert forall|i: int| 0 <= i < a.drop_last().len() && #[trigger] b.drop_last()[i] == 0 implies a.drop_last()[i] == 0 by {
            assert(b.drop_last()[i] == b[i]);
        }
        lemma_count_mono(a.drop_last(), b.drop_last());
        assert(b.last() == b[b.len() - 1]);
    }
}

/// Growth keeps the finished sets, so the maps agree on them.
proof fn lemma_grows_agree(nv: Seq<char>, a: FirstMemo, b: FirstMemo)
    requires
        nv.no_duplicates(),
        a.sets.len() == nv.len(),
        a.mark.len() == nv.len(),
        memo_grows(nv, a, b),
    ensures
        agree_on(fm(nv, a.sets@), fm(nv, b.sets@), done_set(nv, a.mark@)),
        done_set(nv, a.mark@).subset_of(done_set(nv, b.mark@)),
        count_new(b.mark@) <= count_new(a.mark@),
{
    assert forall|c: char| #[trigger] done_set(nv, a.mark@).contains(c) implies fm(nv, a.sets@)[c] == fm(
        nv,
        b.sets@,
    )[c] by {
        let i = choose|i: int| 0 <= i < nv.len() && nv[i] == c && a.mark@[i] == 2;
        lemma_fm_at(nv, a.sets@, i);
        lemma_fm_at(nv, b.sets@, i);
        assert(b.mark@[i] == 2);
        assert(b.sets@[i] == a.sets@[i]);
    }
    assert forall|c: char| done_set(nv, a.mark@).contains(c) implies done_set(nv, b.mark@).contains(c) by {
        let i = choose|i: int| 0 <= i < nv.len() && nv[i] == c && a.mark@[i] == 2;
        assert(b.mark@[i] == 2);
    }
    lemma_count_mono(a.mark@, b.mark@);
}

/// Growth composes.
proof fn lemma_grows_trans(nv: Seq<char>, a: FirstMemo, b: FirstMemo, c: FirstMemo)
    requires
        memo_grows(nv, a, b),
        memo_grows(nv, b, c),
    ensures
        memo_grows(nv, a, c),
{
    assert forall|i: int| 0 <= i < a.mark.len() && #[trigger] c.mark@[i] == 0 implies a.mark@[i] == 0 by {
        assert(b.mark@[i] == 0);
    }
    assert forall|i: int| 0 <= i < a.mark.len() && a.mark@[i] == 2 implies #[trigger] c.mark@[i] == 2 && c.sets@[i] == a.sets@[i] by {
        assert(b.mark@[i] == 2);
        assert(b.sets@[i] == a.sets@[i]);
        assert(c.mark@[i] == 2);
        assert(c.sets@[i] == b.sets@[i]);
    }
    assert forall|i: int| 0 <= i < a.mark.len() && #[trigger] a.mark@[i] == 1 implies c.mark@[i] == 1 by {
        assert(b.mark@[i] == 1);
    }
    assert forall|i: int| 0 <= i < a.mark.len() && a.mark@[i] == 2 implies #[trigger] c.fin@[i] == a.fin@[i] by {
        assert(b.mark@[i] == 2);
        assert(b.fin@[i] == a.fin@[i]);
    }
    assert forall|i: int| 0 <= i < a.mark.len() && a.mark@[i] != 2 && #[trigger] c.mark@[i] == 2 implies c.fin@[i] >= a.clock@ by {
        if b.mark@[i] == 2 {
            assert(b.fin@[i] >= a.clock@);
            assert(c.fin@[i] == b.fin@[i]);
        }
    }
}

/// Growth keeps the non-terminals that finished before a time that had passed.
proof fn lemma_before_stable(g: GrammarModel, nv: Seq<char>, a: FirstMemo, b: FirstMemo, t: int)
    requires
        memo_ok(g, nv, a),
        memo_grows(nv, a, b),
        t <= a.clock@,
    ensures
        done_before(nv, a, t) == done_before(nv, b, t),
{
    assert forall|c: char| done_before(nv, a, t).contains(c) <==> done_before(nv, b, t).contains(c) by {
        if done_before(nv, a, t).contains(c) {
            let k = choose|k: int| 0 <= k < nv.len() && nv[k] == c && a.mark@[k] == 2 && a.fin@[k] < t;
            assert(b.mark@[k] == 2);
            assert(b.fin@[k] == a.fin@[k]);
        }
        if done_before(nv, b, t).contains(c) {
            let k = choose|k: int| 0 <= k < nv.len() && nv[k] == c && b.mark@[k] == 2 && b.fin@[k] < t;
            if a.mark@[k] != 2 {
                assert(b.fin@[k] >= a.clock@);
            }
        }
    }
    assert(done_before(nv, a, t) =~= done_before(nv, b, t));
}

/// The scan of production `q` reaches `b[j]` in leftmost position, in every map above `f`
/// on the finished non-terminals.
proof fn lemma_edge_closed(
    g: GrammarModel,
    f: Map<char, Set<char>>,
    f2: Map<char, Set<char>>,
    q: int,
    j: int,
    d: Set<char>,
)
    requires
        0 <= q < g.productions.len(),
        0 <= j < body(g.productions[q].1).len(),
        g.non_terminals.contains(body(g.productions[q].1)[j]),
        null_prefix(g.non_terminals, f, body(g.productions[q].1), j),
        forall|m: int| 0 <= m < j ==> d.contains(#[trigger] body(g.productions[q].1)[m]),
        within_on(f, f2, d),
    ensures
        left_edge(g, f2, g.productions[q].0, body(g.productions[q].1)[j]),
{
    let b = body(g.productions[q].1);
    assert forall|m: int| 0 <= m < j implies sym_nullable(g.non_terminals, f2, #[trigger] b[m]) by {
        assert(sym_nullable(g.non_terminals, f, b[m]));
        assert(d.contains(b[m]));
    }
    let _ = g.productions[q];
    let _ = b[j];
}

/// Meeting a non-terminal of the stack again closes a cycle of leftmost reaches.
proof fn lemma_cycle(g: GrammarModel, f2: Map<char, Set<char>>, stack: Seq<char>, k: int, c: char)
    requires
        left_path(g, f2, stack),
        0 <= k < stack.len(),
        stack[k] == c,
        left_edge(g, f2, stack.last(), c),
    ensures
        left_recursive(g, f2),
{
    let p = stack.subrange(k, stack.len() as int).push(c);
    assert(p[0] == c);
    assert(p.last() == c);
    assert forall|x: int| 0 <= x < p.len() - 1 implies #[trigger] left_edge(g, f2, p[x], p[x + 1]) by {
        if x < p.len() - 2 {
            assert(p[x] == stack[k + x]);
            assert(p[x + 1] == stack[k + x + 1]);
            assert(left_edge(g, f2, stack[k + x], stack[k + x + 1]));
        } else {
            assert(p[x] == stack.last());
        }
    }
    assert(left_path(g, f2, p));
}

/// A scan that reads only `d` reaches, in leftmost position, only non-terminals of `d`.
proof fn lemma_reads_reach(nts: Set<char>, f: Map<char, Set<char>>, b: Seq<char>, d: Set<char>, j: int)
    requires
        reads(nts, f, b, d),
        0 <= j < b.len(),
        nts.contains(b[j]),
        forall|m: int| 0 <= m < j ==> sym_nullable(nts, f, #[trigger] b[m]),
    ensures
        d.contains(b[j]),
    decreases j,
{
    if j > 0 {
        let s = b.skip(1);
        assert(sym_nullable(nts, f, b[0]));
        assert forall|m: int| 0 <= m < j - 1 implies sym_nullable(nts, f, #[trigger] s[m]) by {
            assert(s[m] == b[m + 1]);
        }
        assert(s[j - 1] == b[j]);
        lemma_reads_reach(nts, f, s, d, j - 1);
    }
}

/// The finishing time of a non-terminal.
pub open spec fn rank_of(nv: Seq<char>, fin: Seq<int>, c: char) -> int {
    fin[nv.index_of(c)]
}

/// Along a chain of leftmost reaches that each lower the rank, the rank falls.
proof fn lemma_path_descends(g: GrammarModel, f: Map<char, Set<char>>, nv: Seq<char>, fin: Seq<int>, p: Seq<char>)
    requires
        forall|a: char, y: char| #[trigger] left_edge(g, f, a, y) ==> rank_of(nv, fin, y) < rank_of(nv, fin, a),
        left_path(g, f, p),
        p.len() >= 2,
    ensures
        rank_of(nv, fin, p.last()) < rank_of(nv, fin, p[0]),
    decreases p.len(),
{
    let k = p.len() - 2;
    assert(left_edge(g, f, p[k], p[k + 1]));
    if p.len() > 2 {
        let q = p.drop_last();
        assert forall|x: int| 0 <= x < q.len() - 1 implies #[trigger] left_edge(g, f, q[x], q[x + 1]) by {
            assert(left_edge(g, f, p[x], p[x + 1]));
        }
        lemma_path_descends(g, f, nv, fin, q);
    }
}

/// The bodies match the productions.
pub open spec fn bodies_ok(g: GrammarModel, bodies: Seq<Vec<char>>) -> bool {
    &&& bodies.len() == g.productions.len()
    &&& forall|q: int| 0 <= q < bodies.len() ==> (#[trigger] bodies[q])@ == body(g.productions[q].1)
}

impl PushDownAutomatonGrammar {
    /// The FIRST set of every non-terminal, found depth first: FIRST of a terminal is
    /// itself; a production adds the FIRST sets of its symbols, without the empty marker,
    /// while they derive the empty string, and the empty marker when all of them do.
    /// Meeting a non-terminal whose FIRST set is under computation fails the whole
    /// computation with `LeftRecursiveGrammar`.
    pub fn get_first_set(&self) -> (r: Result<Vec<(char, Vec<char>)>, AnalysisError>)
        requires
            self.wf(),
        ensures
            r matches Ok(v) ==> is_first(self@, set_map(v@)) && !left_recursive(self@, set_map(v@))
                && v.len() == self.nt_seq().len()
                && forall|i: int| 0 <= i < v.len() ==> (#[trigger] v@[i]).0 == self.nt_seq()[i],
            r matches Err(e) ==> e == AnalysisError::LeftRecursiveGrammar && forall|f2: Map<char, Set<char>>|
                #[trigger] first_closed(self@, f2) ==> left_recursive(self@, f2),
    {
        let ghost g = self@;
        let ghost nv = self.non_terminal@;
        let n = self.non_terminal.len();
        let bodies = self.production_bodies();
        let mut memo = FirstMemo {
            sets: Vec::new(),
            mark: Vec::new(),
            stack: Vec::new(),
            fin: Ghost(Seq::empty()),
            clock: Ghost(0),
        };
        let mut i: usize = 0;
        while i < n
            invariant
                n == nv.len(),
                i <= n,
                memo.sets.len() == i,
                memo.mark.len() == i,
                memo.fin@.len() == i,
                memo.clock@ == 0,
                memo.stack@.len() == 0,
                forall|x: int| 0 <= x < i ==> #[trigger] memo.mark@[x] == 0,
            decreases n - i,
        {
            memo.sets.push(Vec::new());
            memo.mark.push(0);
            memo.fin = Ghost(memo.fin@.push(0));
            i = i + 1;
        }
        proof {
            assert(done_set(nv, memo.mark@) =~= Set::empty());
            assert forall|i: int| 0 <= i < nv.len() implies (memo.mark@[i] == 1 <==> memo.stack@.contains(#[trigger] nv[i])) by {
                if memo.stack@.contains(nv[i]) {
                    let k = choose|k: int| 0 <= k < memo.stack@.len() && memo.stack@[k] == nv[i];
                }
            }
            assert(memo_ok(g, nv, memo));
        }
        let mut i: usize = 0;
        while i < n
            invariant
                g == self@,
                nv == self.non_terminal@,
                n == nv.len(),
                bodies_ok(g, bodies@),
                i <= n,
                memo_ok(g, nv, memo),
                memo.stack@.len() == 0,
                forall|x: int| 0 <= x < i ==> #[trigger] memo.mark@[x] == 2,
            decreases n - i,
        {
            if memo.mark[i] == 0 {
                proof {
                    assert forall|f2: Map<char, Set<char>>| #[trigger] first_closed(g, f2) implies left_path(g, f2, memo.stack@.push(nv[i as int])) by {
                        let p = memo.stack@.push(nv[i as int]);
                        assert(p.len() == 1);
                    }
                }
                let ghost mb = memo;
                match self.first_visit(&bodies, i, &mut memo) {
                    Ok(()) => {},
                    Err(()) => {
                        return Err(AnalysisError::LeftRecursiveGrammar);
                    },
                }
                proof {
                    assert forall|x: int| 0 <= x < i + 1 implies #[trigger] memo.mark@[x] == 2 by {
                        if x < i {
                            assert(mb.mark@[x] == 2);
                        }
                    }
                }
            } else {
                proof {
                    assert(memo.mark@[i as int] <= 2);
                    if memo.mark@[i as int] == 1 {
                        assert(memo.stack@.contains(nv[i as int]));
                    }
                }
            }
            i = i + 1;
        }
        let mut out: Vec<(char, Vec<char>)> = Vec::new();
        let mut k: usize = 0;
        while k < n
            invariant
                nv == self.non_terminal@,
                n == nv.len(),
                memo.sets.len() == n,
                k <= n,
                out.len() == k,
                forall|x: int| 0 <= x < k ==> (#[trigger] out@[x]).0 == nv[x] && out@[x].1@ == memo.sets@[x]@,
            decreases n - k,
        {
            let s = copy_chars(&memo.sets[k]);
            out.push((self.non_terminal[k], s));
            k = k + 1;
        }
        proof {
            let f = fm(nv, memo.sets@);
            let d = done_set(nv, memo.mark@);
            assert forall|c: char| #[trigger] g.non_terminals.contains(c) implies d.contains(c) && exists|x: int| 0 <= x < nv.len() && nv[x] == c by {
                assert(nv.to_set().contains(c));
                let x = choose|x: int| 0 <= x < nv.len() && nv[x] == c;
                assert(memo.mark@[x] == 2);
            }
            assert forall|c: char| set_map(out@).contains_key(c) <==> f.contains_key(c) by {
                if f.contains_key(c) {
                    let x = choose|x: int| 0 <= x < nv.len() && nv[x] == c;
                    assert(out@[x].0 == c);
                }
                if set_map(out@).contains_key(c) {
                    let x = choose|x: int| 0 <= x < out.len() && out@[x].0 == c;
                    assert(nv[x] == c);
                }
            }
            assert forall|c: char| #[trigger] set_map(out@).contains_key(c) implies set_map(out@)[c] == f[c] by {
                let x = choose|x: int| 0 <= x < out.len() && out@[x].0 == c;
                assert(nv[x] == c);
                lemma_fm_at(nv, memo.sets@, x);
            }
            assert(set_map(out@) =~= f);
            assert forall|a: char| #[trigger] g.non_terminals.contains(a) implies f[a] == first_of_alternatives(g, f, a) by {
                let x = choose|x: int| 0 <= x < nv.len() && nv[x] == a;
                lemma_fm_at(nv, memo.sets@, x);
                assert(memo.mark@[x] == 2);
                assert(memo.sets@[x]@.to_set() == first_of_alternatives(g, f, nv[x]));
            }
            assert forall|f2: Map<char, Set<char>>, a: char| first_closed(g, f2) && g.non_terminals.contains(a) implies #[trigger] f[a].subset_of(#[trigger] f2[a]) by {
                assert(within_on(f, f2, d));
                assert(d.contains(a));
            }
            assert(f.dom() =~= g.non_terminals) by {
                assert forall|c: char| f.dom().contains(c) <==> g.non_terminals.contains(c) by {
                    assert(nv.to_set().contains(c) == nv.contains(c));
                }
            }
            // Every leftmost reach goes to a non-terminal that finished earlier, so there is
            // no cycle of them.
            let fin = memo.fin@;
            assert forall|a: char, y: char| #[trigger] left_edge(g, f, a, y) implies rank_of(nv, fin, y) < rank_of(nv, fin, a) by {
                let (i, j) = choose|i: int, j: int|
                    #![trigger g.productions[i], body(g.productions[i].1)[j]]
                    0 <= i < g.productions.len() && g.productions[i].0 == a && 0 <= j < body(
                        g.productions[i].1,
                    ).len() && body(g.productions[i].1)[j] == y && g.non_terminals.contains(y) && forall|m: int|
                        0 <= m < j ==> sym_nullable(g.non_terminals, f, #[trigger] body(g.productions[i].1)[m]);
                assert(crate::pushdown_automaton_grammar::cfg_non_terminals(g.productions, g.start).contains(a)) by {
                    let _ = g.productions[i];
                }
                assert(nv.to_set().contains(a));
                let k = nv.index_of(a);
                assert(nv[k] == a);
                assert(memo.mark@[k] == 2);
                assert(reads(g.non_terminals, f, body(g.productions[i].1), done_before(nv, memo, fin[k])));
                lemma_reads_reach(g.non_terminals, f, body(g.productions[i].1), done_before(nv, memo, fin[k]), j);
                let k2 = choose|k2: int| 0 <= k2 < nv.len() && nv[k2] == y && memo.mark@[k2] == 2 && memo.fin@[k2] < fin[k];
                assert(nv[nv.index_of(y)] == y);
                assert(nv.index_of(y) == k2);
            }
            if left_recursive(g, f) {
                let p = choose|p: Seq<char>| p.len() >= 2 && p[0] == p.last() && #[trigger] left_path(g, f, p);
                lemma_path_descends(g, f, nv, fin, p);
            }
        }
        Ok(out)
    }

    /// Computes FIRST of the non-terminal `nv[ai]`, which is unseen, and of every unseen
    /// non-terminal its productions lead to.
    fn first_visit(&self, bodies: &Vec<Vec<char>>, ai: usize, memo: &mut FirstMemo) -> (r: Result<(), ()>)
        requires
            bodies_ok(self@, bodies@),
            memo_ok(self@, self.non_terminal@, *old(memo)),
            ai < self.non_terminal.len(),
            old(memo).mark@[ai as int] == 0,
            forall|f2: Map<char, Set<char>>| #[trigger] first_closed(self@, f2) ==> left_path(
                self@,
                f2,
                old(memo).stack@.push(self.non_terminal@[ai as int]),
            ),
        ensures
            r is Ok ==> memo_ok(self@, self.non_terminal@, *final(memo)) && memo_grows(
                self.non_terminal@,
                *old(memo),
                *final(memo),
            ) && final(memo).mark@[ai as int] == 2 && final(memo).stack@ == old(memo).stack@,
            r is Err ==> forall|f2: Map<char, Set<char>>| #[trigger] first_closed(self@, f2) ==> left_recursive(self@, f2),
        decreases count_new(old(memo).mark@), 0int,
    {
        let ghost g = self@;
        let ghost nv = self.non_terminal@;
        let ghost m0 = *memo;
        let a = self.non_terminal[ai];
        memo.mark.set(ai, 1);
        memo.stack.push(a);
        let ghost m1 = *memo;
        proof {
            lemma_count_set(m0.mark@, ai as int, 1);
            assert(m1.mark@ == m0.mark@.update(ai as int, 1u8));
            assert(m1.stack@ == m0.stack@.push(a));
            assert(m1.stack@.last() == a);
            assert(done_set(nv, m1.mark@) =~= done_set(nv, m0.mark@));
            assert(fm(nv, m1.sets@) == fm(nv, m0.sets@));
            assert forall|i: int| 0 <= i < nv.len() implies (m1.mark@[i] == 1 <==> m1.stack@.contains(#[trigger] nv[i])) by {
                if i != ai {
                    assert(nv[i] != a);
                    if m0.stack@.contains(nv[i]) {
                        let k = choose|k: int| 0 <= k < m0.stack@.len() && m0.stack@[k] == nv[i];
                        assert(m1.stack@[k] == nv[i]);
                    }
                    if m1.stack@.contains(nv[i]) {
                        let k = choose|k: int| 0 <= k < m1.stack@.len() && m1.stack@[k] == nv[i];
                        assert(m0.stack@[k] == nv[i]);
                    }
                } else {
                    assert(m1.stack@[m1.stack@.len() - 1] == a);
                }
            }
            assert(memo_grows(nv, m0, m1));
            assert forall|q: int, i: int|
                0 <= q < g.productions.len() && 0 <= i < nv.len() && m1.mark@[i] == 2 && (#[trigger] g.productions[q]).0 == #[trigger] nv[i]
                    implies reads(g.non_terminals, fm(nv, m1.sets@), body(g.productions[q].1), done_before(nv, m1, m1.fin@[i])) by {
                assert(m0.mark@[i] == 2);
                lemma_before_stable(g, nv, m0, m1, m0.fin@[i]);
            }
            assert(memo_ok(g, nv, m1));
        }
        let mut acc: Vec<char> = Vec::new();
        let mut q: usize = 0;
        while q < bodies.len()
            invariant
                g == self@,
                nv == self.non_terminal@,
                bodies_ok(g, bodies@),
                ai < nv.len(),
                a == nv[ai as int],
                memo_ok(g, nv, *memo),
                memo_grows(nv, m1, *memo),
                m0 == *old(memo),
                m1.stack@ == m0.stack@.push(a),
                m1.mark@ == m0.mark@.update(ai as int, 1u8),
                m1.sets@ == m0.sets@,
                memo.mark@[ai as int] == 1,
                memo.stack@ == m1.stack@,
                count_new(memo.mark@) < count_new(m0.mark@),
                q <= bodies.len(),
                acc@.no_duplicates(),
                acc@.to_set() == Set::new(
                    |t: char|
                        exists|x: int|
                            0 <= x < q && (#[trigger] g.productions[x]).0 == a && first_of_seq(
                                g.non_terminals,
                                fm(nv, memo.sets@),
                                body(g.productions[x].1),
                            ).contains(t),
                ),
                forall|x: int|
                    0 <= x < q && (#[trigger] g.productions[x]).0 == a ==> reads(
                        g.non_terminals,
                        fm(nv, memo.sets@),
                        body(g.productions[x].1),
                        done_set(nv, memo.mark@),
                    ),
            decreases bodies.len() - q,
        {
            if self.production_set[q].0 == a {
                let ghost mb = *memo;
                assert(count_new(memo.mark@) < count_new(m0.mark@));
                let part = match self.scan_production(bodies, q, ai, memo) {
                    Ok(p) => p,
                    Err(()) => {
                        return Err(());
                    },
                };
                let ghost ma = *memo;
                proof {
                    lemma_grows_trans(nv, m1, mb, ma);
                    lemma_grows_agree(nv, mb, ma);
                    let fb = fm(nv, mb.sets@);
                    let fa = fm(nv, ma.sets@);
                    let db = done_set(nv, mb.mark@);
                    let da = done_set(nv, ma.mark@);
                    assert forall|x: int| 0 <= x < q && (#[trigger] g.productions[x]).0 == a implies first_of_seq(
                        g.non_terminals,
                        fb,
                        body(g.productions[x].1),
                    ) == first_of_seq(g.non_terminals, fa, body(g.productions[x].1)) && reads(
                        g.non_terminals,
                        fa,
                        body(g.productions[x].1),
                        da,
                    ) by {
                        lemma_reads_frame(g.non_terminals, fb, fa, body(g.productions[x].1), db);
                        lemma_reads_grow(g.non_terminals, fa, body(g.productions[x].1), db, da);
                    }
                }
                let ghost acc0 = acc@.to_set();
                add_all(&mut acc, &part);
                proof {
                    let fa = fm(nv, memo.sets@);
                    assert(acc@.to_set() =~= Set::new(
                        |t: char|
                            exists|x: int|
                                0 <= x < q + 1 && (#[trigger] g.productions[x]).0 == a && first_of_seq(
                                    g.non_terminals,
                                    fa,
                                    body(g.productions[x].1),
                                ).contains(t),
                    )) by {
                        assert forall|t: char| acc@.to_set().contains(t) implies exists|x: int|
                            0 <= x < q + 1 && (#[trigger] g.productions[x]).0 == a && first_of_seq(
                                g.non_terminals,
                                fa,
                                body(g.productions[x].1),
                            ).contains(t) by {
                            if !acc0.contains(t) {
                                let _ = g.productions[q as int];
                            }
                        }
                    }
                }
            }
            q = q + 1;
        }
        // Finish `a`.
        let ghost mq = *memo;
        memo.sets.set(ai, acc);
        memo.mark.set(ai, 2);
        let _ = memo.stack.pop();
        memo.fin = Ghost(memo.fin@.update(ai as int, mq.clock@));
        memo.clock = Ghost(mq.clock@ + 1);
        proof {
            let fq = fm(nv, mq.sets@);
            let fe = fm(nv, memo.sets@);
            let dq = done_set(nv, mq.mark@);
            let de = done_set(nv, memo.mark@);
            lemma_fm_at(nv, memo.sets@, ai as int);
            assert(!dq.contains(a)) by {
                if dq.contains(a) {
                    let i = choose|i: int| 0 <= i < nv.len() && nv[i] == a && mq.mark@[i] == 2;
                    assert(i == ai);
                }
            }
            assert(agree_on(fq, fe, dq)) by {
                assert forall|c: char| #[trigger] dq.contains(c) implies fq[c] == fe[c] by {
                    let i = choose|i: int| 0 <= i < nv.len() && nv[i] == c && mq.mark@[i] == 2;
                    lemma_fm_at(nv, mq.sets@, i);
                    lemma_fm_at(nv, memo.sets@, i);
                    assert(i != ai);
                }
            }
            assert(de =~= dq.insert(a)) by {
                assert forall|c: char| de.contains(c) implies dq.insert(a).contains(c) by {
                    let i = choose|i: int| 0 <= i < nv.len() && nv[i] == c && memo.mark@[i] == 2;
                    if i != ai {
                        assert(mq.mark@[i] == 2);
                    }
                }
                assert forall|c: char| dq.insert(a).contains(c) implies de.contains(c) by {
                    if c != a {
                        let i = choose|i: int| 0 <= i < nv.len() && nv[i] == c && mq.mark@[i] == 2;
                        assert(memo.mark@[i] == 2);
                    }
                }
            }
            // Productions of finished non-terminals read only finished ones, so their FIRST
            // is unchanged.
            assert forall|x: int| 0 <= x < g.productions.len() && de.contains((#[trigger] g.productions[x]).0) implies reads(
                g.non_terminals,
                fe,
                body(g.productions[x].1),
                de,
            ) && first_of_seq(g.non_terminals, fq, body(g.productions[x].1)) == first_of_seq(
                g.non_terminals,
                fe,
                body(g.productions[x].1),
            ) by {
                lemma_reads_frame(g.non_terminals, fq, fe, body(g.productions[x].1), dq);
                lemma_reads_grow(g.non_terminals, fe, body(g.productions[x].1), dq, de);
            }
            assert forall|i: int| 0 <= i < nv.len() && memo.mark@[i] == 2 implies (#[trigger] memo.sets@[i])@.to_set()
                == first_of_alternatives(g, fe, nv[i]) by {
                assert(first_of_alternatives(g, fe, nv[i]) =~= first_of_alternatives(g, fq, nv[i])) by {
                    assert forall|t: char| first_of_alternatives(g, fq, nv[i]).contains(t) implies first_of_alternatives(g, fe, nv[i]).contains(t) by {
                        let x = choose|x: int| 0 <= x < g.productions.len() && (#[trigger] g.productions[x]).0 == nv[i] && first_of_seq(g.non_terminals, fq, body(g.productions[x].1)).contains(t);
                        assert(de.contains(g.productions[x].0));
                    }
                    assert forall|t: char| first_of_alternatives(g, fe, nv[i]).contains(t) implies first_of_alternatives(g, fq, nv[i]).contains(t) by {
                        let x = choose|x: int| 0 <= x < g.productions.len() && (#[trigger] g.productions[x]).0 == nv[i] && first_of_seq(g.non_terminals, fe, body(g.productions[x].1)).contains(t);
                        assert(de.contains(g.productions[x].0));
                    }
                }
                if i == ai {
                    assert(memo.sets@[i]@.to_set() =~= first_of_alternatives(g, fq, nv[i])) by {
                        assert forall|t: char| first_of_alternatives(g, fq, nv[i]).contains(t) implies memo.sets@[i]@.to_set().contains(t) by {
                            let x = choose|x: int| 0 <= x < g.productions.len() && (#[trigger] g.productions[x]).0 == nv[i] && first_of_seq(g.non_terminals, fq, body(g.productions[x].1)).contains(t);
                        }
                    }
                } else {
                    assert(mq.mark@[i] == 2);
                    assert(memo.sets@[i] == mq.sets@[i]);
                }
            }
            assert forall|f2: Map<char, Set<char>>| #[trigger] first_closed(g, f2) implies within_on(fe, f2, de) by {
                assert(within_on(fq, f2, dq));
                assert forall|c: char| #[trigger] de.contains(c) implies fe[c].subset_of(f2[c]) by {
                    if c == a {
                        assert forall|t: char| fe[a].contains(t) implies f2[a].contains(t) by {
                            let x = choose|x: int| 0 <= x < g.productions.len() && (#[trigger] g.productions[x]).0 == a && first_of_seq(g.non_terminals, fq, body(g.productions[x].1)).contains(t);
                            lemma_first_mono(g.non_terminals, fq, f2, body(g.productions[x].1), dq);
                            assert(first_of_seq(g.non_terminals, f2, body(g.productions[x].1)).subset_of(f2[g.productions[x].0]));
                        }
                    } else {
                        assert(dq.contains(c));
                    }
                }
            }
            assert(memo.stack@ =~= m0.stack@);
            assert forall|i: int| 0 <= i < nv.len() implies (memo.mark@[i] == 1 <==> memo.stack@.contains(#[trigger] nv[i])) by {
                if i != ai {
                    assert(memo.mark@[i] == mq.mark@[i]);
                    if m0.stack@.contains(nv[i]) {
                        let k = choose|k: int| 0 <= k < m0.stack@.len() && m0.stack@[k] == nv[i];
                        assert(m1.stack@[k] == nv[i]);
                    }
                    if m1.stack@.contains(nv[i]) {
                        let k = choose|k: int| 0 <= k < m1.stack@.len() && m1.stack@[k] == nv[i];
                        if k < m0.stack@.len() {
                            assert(m0.stack@[k] == nv[i]);
                        } else {
                            assert(nv[i] == a);
                        }
                    }
                } else {
                    assert(m0.mark@[ai as int] == 0);
                    if m0.stack@.contains(a) {
                        assert(m0.mark@[ai as int] == 1);
                    }
                }
            }
            assert forall|i: int| 0 <= i < m0.mark.len() && m0.mark@[i] == 2 implies #[trigger] memo.mark@[i] == 2 && memo.sets@[i] == m0.sets@[i] by {
                assert(m1.mark@[i] == 2);
                assert(mq.mark@[i] == 2);
            }
            assert forall|i: int| 0 <= i < m0.mark.len() && #[trigger] memo.mark@[i] == 0 implies m0.mark@[i] == 0 by {
                assert(mq.mark@[i] == 0);
            }
            assert forall|i: int| 0 <= i < m0.mark.len() && #[trigger] m0.mark@[i] == 1 implies memo.mark@[i] == 1 by {
                assert(m1.mark@[i] == 1);
            }
        }
        proof {
            let fq = fm(nv, mq.sets@);
            let fe = fm(nv, memo.sets@);
            let dq = done_set(nv, mq.mark@);
            assert forall|i: int| 0 <= i < m0.mark.len() && m0.mark@[i] == 2 implies #[trigger] memo.fin@[i] == m0.fin@[i] by {
                assert(m1.mark@[i] == 2);
                assert(mq.fin@[i] == m1.fin@[i]);
            }
            assert forall|i: int| 0 <= i < m0.mark.len() && m0.mark@[i] != 2 && #[trigger] memo.mark@[i] == 2 implies memo.fin@[i] >= m0.clock@ by {
                if i != ai {
                    assert(mq.mark@[i] == 2);
                    assert(m1.mark@[i] != 2);
                    assert(mq.fin@[i] >= m1.clock@);
                }
            }
            assert forall|i: int| 0 <= i < nv.len() && #[trigger] memo.mark@[i] == 2 implies 0 <= memo.fin@[i] < memo.clock@ by {
                if i != ai {
                    assert(mq.mark@[i] == 2);
                    assert(memo.fin@[i] == mq.fin@[i]);
                    assert(0 <= mq.fin@[i] < mq.clock@);
                } else {
                    assert(memo.fin@[i] == mq.clock@);
                }
            }
            // Everything finished before `a` finished before the new time of `a`.
            assert(done_before(nv, *memo, mq.clock@) =~= dq) by {
                assert forall|c: char| dq.contains(c) implies done_before(nv, *memo, mq.clock@).contains(c) by {
                    let k = choose|k: int| 0 <= k < nv.len() && nv[k] == c && mq.mark@[k] == 2;
                    assert(k != ai);
                    assert(memo.mark@[k] == 2);
                }
                assert forall|c: char| done_before(nv, *memo, mq.clock@).contains(c) implies dq.contains(c) by {
                    let k = choose|k: int| 0 <= k < nv.len() && nv[k] == c && memo.mark@[k] == 2 && memo.fin@[k] < mq.clock@;
                    assert(k != ai);
                    assert(mq.mark@[k] == 2);
                }
            }
            assert forall|q: int, i: int|
                0 <= q < g.productions.len() && 0 <= i < nv.len() && memo.mark@[i] == 2 && (#[trigger] g.productions[q]).0 == #[trigger] nv[i]
                    implies reads(g.non_terminals, fe, body(g.productions[q].1), done_before(nv, *memo, memo.fin@[i])) by {
                if i == ai {
                    assert(reads(g.non_terminals, fq, body(g.productions[q].1), dq));
                    lemma_reads_frame(g.non_terminals, fq, fe, body(g.productions[q].1), dq);
                } else {
                    assert(mq.mark@[i] == 2);
                    let t = mq.fin@[i];
                    assert(reads(g.non_terminals, fq, body(g.productions[q].1), done_before(nv, mq, t)));
                    assert(done_before(nv, mq, t) =~= done_before(nv, *memo, t)) by {
                        assert forall|c: char| done_before(nv, mq, t).contains(c) implies done_before(nv, *memo, t).contains(c) by {
                            let k = choose|k: int| 0 <= k < nv.len() && nv[k] == c && mq.mark@[k] == 2 && mq.fin@[k] < t;
                            assert(k != ai);
                            assert(memo.mark@[k] == 2);
                        }
                        assert forall|c: char| done_before(nv, *memo, t).contains(c) implies done_before(nv, mq, t).contains(c) by {
                            let k = choose|k: int| 0 <= k < nv.len() && nv[k] == c && memo.mark@[k] == 2 && memo.fin@[k] < t;
                            if k == ai {
                                assert(memo.fin@[k] == mq.clock@);
                            }
                            assert(mq.mark@[k] == 2);
                        }
                    }
                    assert(agree_on(fq, fe, done_before(nv, mq, t))) by {
                        assert forall|c: char| #[trigger] done_before(nv, mq, t).contains(c) implies fq[c] == fe[c] by {
                            let k = choose|k: int| 0 <= k < nv.len() && nv[k] == c && mq.mark@[k] == 2 && mq.fin@[k] < t;
                            assert(dq.contains(c));
                        }
                    }
                    lemma_reads_frame(g.non_terminals, fq, fe, body(g.productions[q].1), done_before(nv, mq, t));
                }
            }
        }
        Ok(())
    }

    /// FIRST of the right-hand side of production `q`, whose left symbol `nv[ai]` is under
    /// computation; unseen non-terminals met on the way are computed first.
    fn scan_production(&self, bodies: &Vec<Vec<char>>, q: usize, ai: usize, memo: &mut FirstMemo) -> (r: Result<Vec<char>, ()>)
        requires
            bodies_ok(self@, bodies@),
            memo_ok(self@, self.non_terminal@, *old(memo)),
            ai < self.non_terminal.len(),
            q < bodies.len(),
            old(memo).mark@[ai as int] == 1,
            old(memo).stack@.len() > 0,
            old(memo).stack@.last() == self.non_terminal@[ai as int],
            self@.productions[q as int].0 == self.non_terminal@[ai as int],
        ensures
            r matches Ok(part) ==> memo_ok(self@, self.non_terminal@, *final(memo)) && memo_grows(
                self.non_terminal@,
                *old(memo),
                *final(memo),
            ) && final(memo).stack@ == old(memo).stack@ && part@.no_duplicates() && part@.to_set()
                == first_of_seq(
                self@.non_terminals,
                fm(self.non_terminal@, final(memo).sets@),
                body(self@.productions[q as int].1),
            ) && reads(
                self@.non_terminals,
                fm(self.non_terminal@, final(memo).sets@),
                body(self@.productions[q as int].1),
                done_set(self.non_terminal@, final(memo).mark@),
            ),
            r is Err ==> forall|f2: Map<char, Set<char>>| #[trigger] first_closed(self@, f2) ==> left_recursive(self@, f2),
        decreases count_new(old(memo).mark@), 1int,
    {
        let ghost g = self@;
        let ghost nv = self.non_terminal@;
        let ghost nts = g.non_terminals;
        let ghost m0 = *memo;
        let b = &bodies[q];
        let ghost bs = b@;
        let mut part: Vec<char> = Vec::new();
        let mut j: usize = 0;
        let mut go = true;
        proof {
            assert(part@.to_set() =~= prefix_first(nts, fm(nv, memo.sets@), bs, 0));
        }
        while go && j < b.len()
            invariant
                g == self@,
                nv == self.non_terminal@,
                nts == g.non_terminals,
                bodies_ok(g, bodies@),
                q < bodies.len(),
                bs == body(g.productions[q as int].1),
                b@ == bs,
                ai < nv.len(),
                g.productions[q as int].0 == nv[ai as int],
                memo_ok(g, nv, *memo),
                memo_grows(nv, m0, *memo),
                m0 == *old(memo),
                memo.stack@ == m0.stack@,
                m0.stack@.len() > 0,
                m0.stack@.last() == nv[ai as int],
                count_new(memo.mark@) <= count_new(m0.mark@),
                j <= bs.len(),
                part@.no_duplicates(),
                part@.to_set() == prefix_first(nts, fm(nv, memo.sets@), bs, j as int),
                go ==> null_prefix(nts, fm(nv, memo.sets@), bs, j as int),
                !go ==> j > 0 && null_prefix(nts, fm(nv, memo.sets@), bs, j - 1) && !sym_nullable(
                    nts,
                    fm(nv, memo.sets@),
                    bs[j - 1],
                ),
                forall|m: int| 0 <= m < j && nts.contains(#[trigger] bs[m]) ==> done_set(nv, memo.mark@).contains(bs[m]),
            decreases bs.len() - j, if go { 1int } else { 0int },
        {
            let c = b[j];
            let ghost mb = *memo;
            match index_of(&self.non_terminal, c) {
                Some(y) => {
                    proof {
                        assert(nv.to_set().contains(c));
                    }
                    if memo.mark[y] == 1 {
                        proof {
                            assert forall|f2: Map<char, Set<char>>| #[trigger] first_closed(g, f2) implies left_recursive(g, f2) by {
                                assert(within_on(fm(nv, memo.sets@), f2, done_set(nv, memo.mark@)));
                                lemma_edge_closed(g, fm(nv, memo.sets@), f2, q as int, j as int, done_set(nv, memo.mark@));
                                assert(memo.stack@.contains(nv[y as int]));
                                let k = choose|k: int| 0 <= k < memo.stack@.len() && memo.stack@[k] == c;
                                lemma_cycle(g, f2, memo.stack@, k, c);
                            }
                        }
                        return Err(());
                    }
                    if memo.mark[y] == 0 {
                        proof {
                            assert forall|f2: Map<char, Set<char>>| #[trigger] first_closed(g, f2) implies left_path(g, f2, memo.stack@.push(nv[y as int])) by {
                                assert(within_on(fm(nv, memo.sets@), f2, done_set(nv, memo.mark@)));
                                lemma_edge_closed(g, fm(nv, memo.sets@), f2, q as int, j as int, done_set(nv, memo.mark@));
                                let p = memo.stack@.push(c);
                                assert forall|k: int| 0 <= k < p.len() - 1 implies #[trigger] left_edge(g, f2, p[k], p[k + 1]) by {
                                    if k < p.len() - 2 {
                                        assert(p[k] == memo.stack@[k]);
                                        assert(p[k + 1] == memo.stack@[k + 1]);
                                    } else {
                                        assert(p[k] == memo.stack@.last());
                                    }
                                }
                            }
                        }
                        assert(count_new(memo.mark@) <= count_new(m0.mark@));
                        match self.first_visit(bodies, y, memo) {
                            Ok(()) => {},
                            Err(()) => {
                                return Err(());
                            },
                        }
                        proof {
                            let ma = *memo;
                            lemma_grows_agree(nv, mb, ma);
                            lemma_grows_trans(nv, m0, mb, ma);
                            lemma_prefix_first_frame(nts, fm(nv, mb.sets@), fm(nv, ma.sets@), bs, j as int, done_set(nv, mb.mark@));
                            assert forall|m: int| 0 <= m < j && nts.contains(#[trigger] bs[m]) implies done_set(nv, ma.mark@).contains(bs[m]) by {
                                assert(done_set(nv, mb.mark@).contains(bs[m]));
                            }
                        }
                    }
                    // `c` is finished now.
                    proof {
                        assert(memo.mark@[y as int] == 2);
                        lemma_fm_at(nv, memo.sets@, y as int);
                        assert(done_set(nv, memo.mark@).contains(c));
                    }
                    let ghost p0 = part@.to_set();
                    add_all_except(&mut part, &memo.sets[y], EMPTY_SENTENCE_CHAR);
                    go = contains_char(&memo.sets[y], EMPTY_SENTENCE_CHAR);
                    proof {
                        let f = fm(nv, memo.sets@);
                        assert(sym_first(nts, f, c) == memo.sets@[y as int]@.to_set().remove(EMPTY_SENTENCE_CHAR));
                        assert(part@.to_set() =~= prefix_first(nts, f, bs, j + 1));
                        assert(go == sym_nullable(nts, f, c));
                    }
                },
                None => {
                    proof {
                        assert(!nts.contains(c)) by {
                            if nts.contains(c) {
                                assert(nv.to_set().contains(c));
                            }
                        }
                    }
                    push_unique(&mut part, c);
                    go = false;
                    proof {
                        assert(part@.to_set() =~= prefix_first(nts, fm(nv, memo.sets@), bs, j + 1));
                    }
                },
            }
            proof {
                let f = fm(nv, memo.sets@);
                if go {
                    assert forall|m: int| 0 <= m < j + 1 implies sym_nullable(nts, f, #[trigger] bs[m]) by {
                        if m < j {
                            assert(null_prefix(nts, f, bs, j as int));
                        }
                    }
                }
            }
            j = j + 1;
        }
        let ghost f = fm(nv, memo.sets@);
        let ghost d = done_set(nv, memo.mark@);
        if go {
            proof {
                assert(j == bs.len());
                lemma_first_split(nts, f, bs, j as int);
                assert(bs.skip(j as int) =~= Seq::<char>::empty());
                lemma_reads_scan(nts, f, bs, j as int, d);
            }
            push_unique(&mut part, EMPTY_SENTENCE_CHAR);
            proof {
                assert(part@.to_set() =~= first_of_seq(nts, f, bs));
            }
        } else {
            proof {
                lemma_first_split(nts, f, bs, j - 1);
                let s = bs.skip(j - 1);
                assert(s[0] == bs[j - 1]);
                assert(first_of_seq(nts, f, s) == sym_first(nts, f, bs[j - 1]));
                assert(part@.to_set() =~= first_of_seq(nts, f, bs));
                lemma_reads_scan(nts, f, bs, j - 1, d);
            }
        }
        Ok(part)
    }
}

} // verus!
