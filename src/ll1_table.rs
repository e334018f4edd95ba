//! SELECT sets and the LL(1) table.
use vstd::prelude::*;

use crate::analysis_error::AnalysisError;
use crate::first_search::bodies_ok;
use crate::follow_sets::{aligned, lemma_set_map_at};
use crate::grammar_sets::{
    first_closed, is_first, is_follow, is_ll1, left_recursive,
    left_symbols_declared, lemma_first_is_closed, lemma_first_unique, lemma_follow_unique, ll1_table, select_conflict,
    select_of, set_map,
};
use crate::prediction_analyzer::{entries_view, AnalyzerModel, PredictionAnalyzer, PredictionAnalyzerInput};
use crate::pushdown_automaton_grammar::PushDownAutomatonGrammar;
use crate::regular_grammar::{GrammarModel, EMPTY_SENTENCE_CHAR};
use crate::utils::{
    add_all, add_all_except, assoc_map, contains_char, index_of, intersects, lemma_assoc_agreeing,
    lemma_assoc_dom,
};

verus! {

/// One SELECT set per production, in the grammar's order, with the production it belongs to.
pub open spec fn selects_ok(
    g: GrammarModel,
    f: Map<char, Set<char>>,
    fo: Map<char, Set<char>>,
    v: Seq<((char, String), Vec<char>)>,
) -> bool {
    &&& v.len() == g.productions.len()
    &&& forall|q: int|
        0 <= q < v.len() ==> (#[trigger] v[q]).0.0 == g.productions[q].0 && v[q].0.1@ == g.productions[q].1
            && v[q].1@.no_duplicates() && v[q].1@.to_set() == select_of(g, f, fo, q)
}

/// The result of a successful LL(1) construction: the parser for the table, with FIRST,
/// FOLLOW and SELECT.
pub type Ll1Analysis = (
    PredictionAnalyzer,
    Vec<(char, Vec<char>)>,
    Vec<(char, Vec<char>)>,
    Vec<((char, String), Vec<char>)>,
);

impl PushDownAutomatonGrammar {
    proof fn lemma_left_symbols(&self)
        requires
            self.wf(),
        ensures
            left_symbols_declared(self@),
    {
        assert forall|i: int| 0 <= i < self@.productions.len() implies self@.non_terminals.contains(
            (#[trigger] self@.productions[i]).0,
        ) by {
            let _ = self@.productions[i];
        }
    }

    /// The SELECT set of every production: FIRST of its right-hand side, and, when that can
    /// derive the empty string, FOLLOW of its left symbol as well, without the empty marker.
    pub fn get_select_set(&self, first: &Vec<(char, Vec<char>)>, follow: &Vec<(char, Vec<char>)>) -> (r: Vec<((char, String), Vec<char>)>)
        requires
            self.wf(),
            aligned(first@, self.nt_seq()),
            aligned(follow@, self.nt_seq()),
        ensures
            selects_ok(self@, set_map(first@), set_map(follow@), r@),
    {
        let ghost g = self@;
        let ghost f = set_map(first@);
        let ghost fo = set_map(follow@);
        let bodies = self.production_bodies();
        let mut out: Vec<((char, String), Vec<char>)> = Vec::new();
        let mut q: usize = 0;
        while q < bodies.len()
            invariant
                self.wf(),
                g == self@,
                f == set_map(first@),
                fo == set_map(follow@),
                aligned(first@, self.nt_seq()),
                aligned(follow@, self.nt_seq()),
                bodies_ok(g, bodies@),
                q <= bodies.len(),
                out.len() == q,
                forall|x: int|
                    0 <= x < q ==> (#[trigger] out@[x]).0.0 == g.productions[x].0 && out@[x].0.1@ == g.productions[x].1
                        && out@[x].1@.no_duplicates() && out@[x].1@.to_set() == select_of(g, f, fo, x),
            decreases bodies.len() - q,
        {
            let a = self.production_set[q].0;
            proof {
                assert(a == g.productions[q as int].0);
                self.lemma_left_symbols();
                assert(self.nt_seq().to_set().contains(a));
                assert(bodies@[q as int]@.skip(0) =~= bodies@[q as int]@);
            }
            let fs = self.first_of_string(first, &bodies[q], 0);
            let mut sel: Vec<char> = Vec::new();
            if contains_char(&fs, EMPTY_SENTENCE_CHAR) {
                add_all_except(&mut sel, &fs, EMPTY_SENTENCE_CHAR);
                let ai = index_of(&self.non_terminal, a).unwrap();
                proof {
                    lemma_set_map_at(follow@, self.nt_seq(), ai as int);
                }
                add_all(&mut sel, &follow[ai].1);
                proof {
                    assert(sel@.to_set() =~= select_of(g, f, fo, q as int));
                }
            } else {
                add_all(&mut sel, &fs);
                proof {
                    assert(sel@.to_set() =~= select_of(g, f, fo, q as int));
                }
            }
            out.push(((a, self.production_set[q].1.clone()), sel));
            q = q + 1;
        }
        out
    }

    /// Builds the LL(1) parser: FIRST (failing on left recursion), FOLLOW, SELECT; fails
    /// with `NotLL1`, naming the non-terminal and both productions, when two productions of
    /// one non-terminal share a SELECT terminal; otherwise the table maps each non-terminal
    /// and terminal to the production whose SELECT set holds the terminal.
    pub fn build_ll1_analyzer(&self) -> (r: Result<Ll1Analysis, AnalysisError>)
        requires
            self.wf(),
        ensures
            r matches Ok(res) ==> is_first(self@, set_map(res.1@)) && !left_recursive(self@, set_map(res.1@))
                && is_follow(self@, set_map(res.1@), set_map(res.2@))
                && selects_ok(self@, set_map(res.1@), set_map(res.2@), res.3@)
                && is_ll1(self@, set_map(res.1@), set_map(res.2@))
                && res.0@ == (AnalyzerModel { table: ll1_table(self@, set_map(res.1@), set_map(res.2@)), start: self@.start }),
            r matches Err(AnalysisError::LeftRecursiveGrammar) ==> forall|f2: Map<char, Set<char>>|
                #[trigger] first_closed(self@, f2) ==> left_recursive(self@, f2),
            r matches Err(AnalysisError::NotLL1 { non_terminal, first, second }) ==> forall|f: Map<char, Set<char>>, fo: Map<char, Set<char>>|
                is_first(self@, f) && is_follow(self@, f, fo) ==> #[trigger] ll1_conflict_named(self@, f, fo, non_terminal, first@, second@),
            r matches Err(e) ==> e is LeftRecursiveGrammar || e is NotLL1,
            forall|f: Map<char, Set<char>>| #[trigger] is_first(self@, f) && left_recursive(self@, f)
                ==> r matches Err(AnalysisError::LeftRecursiveGrammar),
            (exists|f: Map<char, Set<char>>| #[trigger] first_closed(self@, f) && !left_recursive(self@, f))
                ==> !(r matches Err(AnalysisError::LeftRecursiveGrammar)),
            forall|f: Map<char, Set<char>>, fo: Map<char, Set<char>>|
                is_first(self@, f) && !left_recursive(self@, f) && #[trigger] is_follow(self@, f, fo)
                ==> (r is Ok <==> is_ll1(self@, f, fo)),
    {
        let ghost g = self@;
        proof {
            self.lemma_left_symbols();
        }
        let first = match self.get_first_set() {
            Ok(v) => v,
            Err(e) => {
                proof {
                    assert forall|f1: Map<char, Set<char>>| is_first(g, f1) implies left_recursive(g, f1) by {
                        lemma_first_is_closed(g, f1);
                    }
                }
                return Err(e);
            },
        };
        let follow = self.get_follow_set(&first);
        let select = self.get_select_set(&first, &follow);
        let ghost f = set_map(first@);
        let ghost fo = set_map(follow@);
        proof {
            self.lemma_left_symbols();
        }
        let m = select.len();
        let mut i: usize = 0;
        while i < m
            invariant
                g == self@,
                f == set_map(first@),
                fo == set_map(follow@),
                is_first(g, f),
                !left_recursive(g, f),
                is_follow(g, f, fo),
                left_symbols_declared(g),
                selects_ok(g, f, fo, select@),
                m == select.len(),
                i <= m,
                forall|x: int, y: int| 0 <= x < i && x < y < m ==> !#[trigger] select_conflict(g, f, fo, x, y),
            decreases m - i,
        {
            let mut j: usize = i + 1;
            while j < m
                invariant
                    g == self@,
                    f == set_map(first@),
                    fo == set_map(follow@),
                    is_first(g, f),
                    !left_recursive(g, f),
                !left_recursive(g, f),
                    is_follow(g, f, fo),
                    left_symbols_declared(g),
                    selects_ok(g, f, fo, select@),
                    m == select.len(),
                    i < m,
                    i + 1 <= j <= m,
                    forall|x: int, y: int| 0 <= x < i && x < y < m ==> !#[trigger] select_conflict(g, f, fo, x, y),
                    forall|y: int| i < y < j ==> !#[trigger] select_conflict(g, f, fo, i as int, y),
                decreases m - j,
            {
                let _ = select[i];
                let _ = select[j];
                if select[i].0.0 == select[j].0.0 && intersects(&select[i].1, &select[j].1) {
                    proof {
                        assert(select_conflict(g, f, fo, i as int, j as int));
                        assert forall|f1: Map<char, Set<char>>| #[trigger] is_first(g, f1) implies !left_recursive(g, f1) by {
                            lemma_first_unique(g, f, f1);
                        }
                        assert forall|f1: Map<char, Set<char>>, fo1: Map<char, Set<char>>|
                            is_first(g, f1) && is_follow(g, f1, fo1) implies !is_ll1(g, f1, fo1) by {
                            lemma_first_unique(g, f, f1);
                            lemma_follow_unique(g, f, fo, fo1);
                            assert(select_conflict(g, f1, fo1, i as int, j as int));
                        }
                        assert forall|f1: Map<char, Set<char>>, fo1: Map<char, Set<char>>|
                            is_first(g, f1) && is_follow(g, f1, fo1) implies #[trigger] ll1_conflict_named(
                            g,
                            f1,
                            fo1,
                            select@[i as int].0.0,
                            select@[i as int].0.1@,
                            select@[j as int].0.1@,
                        ) by {
                            lemma_first_unique(g, f, f1);
                            lemma_follow_unique(g, f, fo, fo1);
                        }
                    }
                    return Err(AnalysisError::NotLL1 {
                        non_terminal: select[i].0.0,
                        first: select[i].0.1.clone(),
                        second: select[j].0.1.clone(),
                    });
                }
                j = j + 1;
            }
            i = i + 1;
        }
        proof {
            assert forall|x: int, y: int| !#[trigger] select_conflict(g, f, fo, x, y) by {
                if select_conflict(g, f, fo, x, y) {
                    if x < y {
                        assert(!select_conflict(g, f, fo, x, y));
                    } else {
                        assert(!select_conflict(g, f, fo, y, x));
                        assert(select_of(g, f, fo, y).disjoint(select_of(g, f, fo, x)));
                        assert(select_of(g, f, fo, x).disjoint(select_of(g, f, fo, y)));
                    }
                }
            }
        }
        let entries = Self::table_entries(&select);
        let pa = PredictionAnalyzer::new(entries, self.start);
        proof {
            assert(select.len() == g.productions.len());
            lemma_table(g, f, fo, select@);
        }
        proof {
            assert forall|f1: Map<char, Set<char>>| #[trigger] is_first(g, f1) implies !left_recursive(g, f1) by {
                lemma_first_unique(g, f, f1);
            }
            assert forall|f1: Map<char, Set<char>>, fo1: Map<char, Set<char>>|
                is_first(g, f1) && is_follow(g, f1, fo1) implies is_ll1(g, f1, fo1) by {
                lemma_first_unique(g, f, f1);
                lemma_follow_unique(g, f, fo, fo1);
            }
        }
        Ok((pa, first, follow, select))
    }
}

proof fn lemma_table(
    g: GrammarModel,
    f: Map<char, Set<char>>,
    fo: Map<char, Set<char>>,
    select: Seq<((char, String), Vec<char>)>,
)
    requires
        is_ll1(g, f, fo),
        selects_ok(g, f, fo, select),
    ensures
        assoc_map(blocks(select, select.len() as int)) == ll1_table(g, f, fo),
{
    let ev = blocks(select, select.len() as int);
    let n = select.len() as int;
    let tb = ll1_table(g, f, fo);
    assert forall|key: (char, char)| assoc_map(ev).contains_key(key) <==> tb.contains_key(key) by {
        lemma_assoc_dom(ev, key);
        if assoc_map(ev).contains_key(key) {
            let x = choose|x: int| 0 <= x < ev.len() && ev[x].0 == key;
            lemma_blocks_index(select, n, x);
            let (p, y) = choose|p: int, y: int|
                0 <= p < n && 0 <= y < select[p].1@.len() && ev[x] == ((select[p].0.0, select[p].1@[y]), select[p].0.1@);
            let _ = select[p];
            assert(select[p].1@.to_set().contains(select[p].1@[y]));
            let _ = g.productions[p];
        }
        if tb.contains_key(key) {
            let p = choose|p: int| 0 <= p < g.productions.len() && (#[trigger] g.productions[p]).0 == key.0 && select_of(g, f, fo, p).contains(key.1);
            let _ = select[p];
            assert(select[p].1@.to_set().contains(key.1));
            let y = choose|y: int| 0 <= y < select[p].1@.len() && select[p].1@[y] == key.1;
            lemma_blocks_cover(select, n, p, y);
        }
    }
    assert forall|key: (char, char)| #[trigger] assoc_map(ev).contains_key(key) implies assoc_map(ev)[key] == tb[key] by {
        assert(tb.contains_key(key));
        let p0 = choose|p: int| 0 <= p < g.productions.len() && (#[trigger] g.productions[p]).0 == key.0 && select_of(g, f, fo, p).contains(key.1);
        assert forall|x: int| 0 <= x < ev.len() && (#[trigger] ev[x]).0 == key implies ev[x].1 == g.productions[p0].1 by {
            lemma_blocks_index(select, n, x);
            let (p, y) = choose|p: int, y: int|
                0 <= p < n && 0 <= y < select[p].1@.len() && ev[x] == ((select[p].0.0, select[p].1@[y]), select[p].0.1@);
            let _ = select[p];
            assert(select[p].1@.to_set().contains(select[p].1@[y]));
            if p != p0 {
                assert(select_of(g, f, fo, p).contains(key.1));
                assert(!select_conflict(g, f, fo, p, p0));
            }
        }
        lemma_assoc_agreeing(ev, key, g.productions[p0].1);
    }
    assert(assoc_map(ev) =~= tb);
}

impl PushDownAutomatonGrammar {
    /// One table entry per production and SELECT terminal.
    fn table_entries(select: &Vec<((char, String), Vec<char>)>) -> (r: Vec<(PredictionAnalyzerInput, String)>)
        ensures
            entries_view(r@) == blocks(select@, select.len() as int),
    {
        let mut entries: Vec<(PredictionAnalyzerInput, String)> = Vec::new();
        let mut q: usize = 0;
        proof {
            assert(entries_view(entries@) =~= blocks(select@, 0));
        }
        while q < select.len()
            invariant
                q <= select.len(),
                entries_view(entries@) == blocks(select@, q as int),
            decreases select.len() - q,
        {
            push_entries(&mut entries, select[q].0.0, &select[q].0.1, &select[q].1);
            q = q + 1;
        }
        entries
    }
}

/// The entries one production contributes: its left symbol and each SELECT terminal, with
/// the production.
pub open spec fn block(lhs: char, rhs: Seq<char>, sel: Seq<char>) -> Seq<((char, char), Seq<char>)> {
    Seq::new(sel.len(), |y: int| ((lhs, sel[y]), rhs))
}

/// The entries of the first `k` productions.
pub open spec fn blocks(select: Seq<((char, String), Vec<char>)>, k: int) -> Seq<((char, char), Seq<char>)>
    decreases k,
{
    if k <= 0 {
        Seq::empty()
    } else {
        blocks(select, k - 1) + block(select[k - 1].0.0, select[k - 1].0.1@, select[k - 1].1@)
    }
}

/// Appends one entry `(lhs, t) -> rhs` for each `t` of `sel`.
fn push_entries(entries: &mut Vec<(PredictionAnalyzerInput, String)>, lhs: char, rhs: &String, sel: &Vec<char>)
    ensures
        entries_view(final(entries)@) == entries_view(old(entries)@) + block(lhs, rhs@, sel@),
{
    let mut k: usize = 0;
    while k < sel.len()
        invariant
            k <= sel.len(),
            entries_view(entries@) == entries_view(old(entries)@) + block(lhs, rhs@, sel@.take(k as int)),
        decreases sel.len() - k,
    {
        let ghost before = entries@;
        entries.push((PredictionAnalyzerInput::new(lhs, sel[k]), rhs.clone()));
        proof {
            assert(entries_view(entries@) =~= entries_view(before).push(((lhs, sel@[k as int]), rhs@)));
            assert(block(lhs, rhs@, sel@.take(k as int + 1)) =~= block(lhs, rhs@, sel@.take(k as int)).push(((lhs, sel@[k as int]), rhs@)));
            assert(entries_view(entries@) =~= entries_view(old(entries)@) + block(lhs, rhs@, sel@.take(k as int + 1)));
        }
        k = k + 1;
    }
    assert(sel@.take(sel.len() as int) =~= sel@);
}

/// Each entry of the first `k` blocks comes from one of those productions.
proof fn lemma_blocks_index(select: Seq<((char, String), Vec<char>)>, k: int, x: int)
    requires
        0 <= k <= select.len(),
        0 <= x < blocks(select, k).len(),
    ensures
        exists|p: int, y: int|
            0 <= p < k && 0 <= y < select[p].1@.len() && blocks(select, k)[x] == ((select[p].0.0, select[p].1@[y]), select[p].0.1@),
    decreases k,
{
    let pre = blocks(select, k - 1);
    let b = block(select[k - 1].0.0, select[k - 1].0.1@, select[k - 1].1@);
    if x < pre.len() {
        lemma_blocks_index(select, k - 1, x);
        let (p, y) = choose|p: int, y: int|
            0 <= p < k - 1 && 0 <= y < select[p].1@.len() && pre[x] == ((select[p].0.0, select[p].1@[y]), select[p].0.1@);
        assert(blocks(select, k)[x] == pre[x]);
    } else {
        let y = x - pre.len();
        assert(blocks(select, k)[x] == b[y]);
    }
}

/// Each SELECT terminal of the first `k` productions has its entry.
proof fn lemma_blocks_cover(select: Seq<((char, String), Vec<char>)>, k: int, p: int, y: int)
    requires
        0 <= p < k <= select.len(),
        0 <= y < select[p].1@.len(),
    ensures
        exists|x: int| 0 <= x < blocks(select, k).len() && blocks(select, k)[x].0 == (select[p].0.0, select[p].1@[y]),
    decreases k,
{
    let pre = blocks(select, k - 1);
    if p < k - 1 {
        lemma_blocks_cover(select, k - 1, p, y);
        let x = choose|x: int| 0 <= x < pre.len() && pre[x].0 == (select[p].0.0, select[p].1@[y]);
        assert(blocks(select, k)[x] == pre[x]);
    } else {
        assert(blocks(select, k)[pre.len() + y].0 == (select[p].0.0, select[p].1@[y]));
    }
}

/// Productions `first` and `second` of `non_terminal` share a SELECT terminal.
pub open spec fn ll1_conflict_named(
    g: GrammarModel,
    f: Map<char, Set<char>>,
    fo: Map<char, Set<char>>,
    non_terminal: char,
    first: Seq<char>,
    second: Seq<char>,
) -> bool {
    exists|i: int, j: int|
        #[trigger] select_conflict(g, f, fo, i, j) && g.productions[i].0 == non_terminal && g.productions[i].1 == first
            && g.productions[j].1 == second
}

} // verus!
