use vstd::prelude::*;

use crate::analysis_error::AnalysisError;
use crate::grammar_sets::body;
use crate::notation::{is_ascii_upper, parse_rules, rules_of, rules_view};
use crate::regular_grammar::{is_epsilon, GrammarModel, EMPTY_SENTENCE_CHAR};
use crate::utils::{chars_of, push_unique};

verus! {

/// The terminals in a string of symbols: those that are not ASCII upper-case letters.
pub open spec fn body_terms(b: Seq<char>) -> Set<char> {
    Set::new(|c: char| b.contains(c) && !is_ascii_upper(c))
}

/// The non-terminals in a string of symbols: its ASCII upper-case letters.
pub open spec fn body_nts(b: Seq<char>) -> Set<char> {
    Set::new(|c: char| b.contains(c) && is_ascii_upper(c))
}

/// The terminals of a list of rules.
pub open spec fn cfg_terminals(rs: Seq<(char, Seq<char>)>) -> Set<char> {
    Set::new(|c: char| exists|i: int| 0 <= i < rs.len() && body_terms(body((#[trigger] rs[i]).1)).contains(c))
}

/// The non-terminals of a list of rules with start symbol `start`.
pub open spec fn cfg_non_terminals(rs: Seq<(char, Seq<char>)>, start: char) -> Set<char> {
    Set::new(
        |c: char|
            c == start || exists|i: int|
                0 <= i < rs.len() && (c == (#[trigger] rs[i]).0 || body_nts(body(rs[i].1)).contains(c)),
    )
}

/// Rules form a grammar with this start symbol: the start symbol and every left symbol are
/// ASCII upper-case letters and no right-hand side is empty.
pub open spec fn cfg_ok(rs: Seq<(char, Seq<char>)>, start: char) -> bool {
    &&& is_ascii_upper(start)
    &&& forall|i: int| 0 <= i < rs.len() ==> is_ascii_upper((#[trigger] rs[i]).0) && rs[i].1.len() > 0
}

/// The symbol sets depend on the set of rules alone.
proof fn lemma_symbols_by_set(a: Seq<(char, Seq<char>)>, b: Seq<(char, Seq<char>)>, start: char)
    requires
        a.to_set() == b.to_set(),
    ensures
        cfg_terminals(a) == cfg_terminals(b),
        cfg_non_terminals(a, start) == cfg_non_terminals(b, start),
{
    assert forall|x: int| 0 <= x < a.len() implies exists|y: int| 0 <= y < b.len() && b[y] == #[trigger] a[x] by {
        assert(a.to_set().contains(a[x]));
        assert(b.to_set().contains(a[x]));
    }
    assert forall|y: int| 0 <= y < b.len() implies exists|x: int| 0 <= x < a.len() && a[x] == #[trigger] b[y] by {
        assert(b.to_set().contains(b[y]));
        assert(a.to_set().contains(b[y]));
    }
    assert forall|c: char| cfg_terminals(a).contains(c) <==> cfg_terminals(b).contains(c) by {
        if cfg_terminals(a).contains(c) {
            let x = choose|x: int| 0 <= x < a.len() && body_terms(body((#[trigger] a[x]).1)).contains(c);
            let y = choose|y: int| 0 <= y < b.len() && b[y] == #[trigger] a[x];
        }
        if cfg_terminals(b).contains(c) {
            let y = choose|y: int| 0 <= y < b.len() && body_terms(body((#[trigger] b[y]).1)).contains(c);
            let x = choose|x: int| 0 <= x < a.len() && a[x] == #[trigger] b[y];
        }
    }
    assert forall|c: char| cfg_non_terminals(a, start).contains(c) <==> cfg_non_terminals(b, start).contains(c) by {
        if cfg_non_terminals(a, start).contains(c) && c != start {
            let x = choose|x: int| 0 <= x < a.len() && (c == (#[trigger] a[x]).0 || body_nts(body(a[x].1)).contains(c));
            let y = choose|y: int| 0 <= y < b.len() && b[y] == #[trigger] a[x];
        }
        if cfg_non_terminals(b, start).contains(c) && c != start {
            let y = choose|y: int| 0 <= y < b.len() && (c == (#[trigger] b[y]).0 || body_nts(body(b[y].1)).contains(c));
            let x = choose|x: int| 0 <= x < a.len() && a[x] == #[trigger] b[y];
        }
    }
    assert(cfg_terminals(a) =~= cfg_terminals(b));
    assert(cfg_non_terminals(a, start) =~= cfg_non_terminals(b, start));
}

/// A context-free grammar. ASCII upper-case letters are its non-terminals and every other
/// symbol a terminal; `$` alone is the empty right-hand side.
#[derive(Debug, Clone)]
pub struct PushDownAutomatonGrammar {
    pub(crate) terminal: Vec<char>,
    pub(crate) non_terminal: Vec<char>,
    pub(crate) production_set: Vec<(char, String)>,
    pub(crate) start: char,
}

impl PushDownAutomatonGrammar {
    pub open(crate) spec fn view(&self) -> GrammarModel {
        GrammarModel {
            terminals: self.terminal@.to_set(),
            non_terminals: self.non_terminal@.to_set(),
            productions: rules_view(self.production_set@),
            start: self.start,
        }
    }

    /// The non-terminals in the order the grammar keeps them.
    pub open(crate) spec fn nt_seq(&self) -> Seq<char> {
        self.non_terminal@
    }

    /// The symbol sets are those of the productions, which hold no repetition.
    pub open(crate) spec fn wf(&self) -> bool {
        &&& self.terminal@.no_duplicates()
        &&& self.non_terminal@.no_duplicates()
        &&& self@.productions.no_duplicates()
        &&& cfg_ok(self@.productions, self.start)
        &&& self@.terminals == cfg_terminals(self@.productions)
        &&& self@.non_terminals == cfg_non_terminals(self@.productions, self.start)
    }

    /// The symbols of each right-hand side, none for the empty one.
    pub(crate) fn production_bodies(&self) -> (r: Vec<Vec<char>>)
        ensures
            r.len() == self@.productions.len(),
            forall|q: int| 0 <= q < r.len() ==> (#[trigger] r@[q])@ == body(self@.productions[q].1),
    {
        let mut r: Vec<Vec<char>> = Vec::new();
        let mut q: usize = 0;
        while q < self.production_set.len()
            invariant
                q <= self.production_set.len(),
                r.len() == q,
                forall|x: int| 0 <= x < q ==> (#[trigger] r@[x])@ == body(self@.productions[x].1),
            decreases self.production_set.len() - q,
        {
            let cs = chars_of(self.production_set[q].1.as_str());
            proof {
                assert(cs@ == self@.productions[q as int].1);
            }
            if cs.len() == 1 && cs[0] == EMPTY_SENTENCE_CHAR {
                proof {
                    assert(cs@ =~= seq![EMPTY_SENTENCE_CHAR]);
                }
                r.push(Vec::new());
                proof {
                    assert(r@[q as int]@ =~= body(self@.productions[q as int].1));
                }
            } else {
                r.push(cs);
            }
            q = q + 1;
        }
        r
    }

    /// Reads a grammar written `E->TU,U->+TU|$` with start symbol `start_state`. Repeated
    /// productions count once.
    pub fn build_with_case(grammar_tokens: String, start_state: char) -> (r: Result<
        PushDownAutomatonGrammar,
        AnalysisError,
    >)
        ensures
            r is Ok <==> (rules_of(grammar_tokens@) matches Some(rs) && cfg_ok(rs, start_state)),
            r matches Ok(g) ==> g.wf() && g@.start == start_state && (rules_of(grammar_tokens@) matches Some(
                rs,
            ) && g@.productions.to_set() == rs.to_set()),
            r matches Err(e) ==> e == AnalysisError::MalformedProduction,
    {
        let rules = match parse_rules(grammar_tokens.as_str()) {
            Ok(v) => v,
            Err(()) => {
                return Err(AnalysisError::MalformedProduction);
            },
        };
        if !('A' <= start_state && start_state <= 'Z') {
            return Err(AnalysisError::MalformedProduction);
        }
        let ghost rs = rules_view(rules@);
        let mut terminal: Vec<char> = Vec::new();
        let mut non_terminal: Vec<char> = Vec::new();
        let mut prods: Vec<(char, String)> = Vec::new();
        push_unique(&mut non_terminal, start_state);
        proof {
            assert(non_terminal@.to_set() =~= cfg_non_terminals(rs.take(0), start_state));
            assert(terminal@.to_set() =~= cfg_terminals(rs.take(0)));
            assert(rules_view(prods@).to_set() =~= rs.take(0).to_set());
        }
        let mut i: usize = 0;
        while i < rules.len()
            invariant
                rs == rules_view(rules@),
                rules_of(grammar_tokens@) == Some(rs),
                is_ascii_upper(start_state),
                i <= rules.len(),
                terminal@.no_duplicates(),
                non_terminal@.no_duplicates(),
                rules_view(prods@).no_duplicates(),
                forall|j: int| 0 <= j < i ==> is_ascii_upper((#[trigger] rs[j]).0) && rs[j].1.len() > 0,
                forall|j: int| 0 <= j < prods.len() ==> is_ascii_upper((#[trigger] rules_view(prods@)[j]).0)
                    && rules_view(prods@)[j].1.len() > 0,
                rules_view(prods@).to_set() == rs.take(i as int).to_set(),
                terminal@.to_set() == cfg_terminals(rs.take(i as int)),
                non_terminal@.to_set() == cfg_non_terminals(rs.take(i as int), start_state),
            decreases rules.len() - i,
        {
            let l = rules[i].0;
            let cs = chars_of(rules[i].1.as_str());
            let ghost pre = rs.take(i as int);
            let ghost post = rs.take(i as int + 1);
            proof {
                assert(cs@ == rs[i as int].1);
                assert(l == rs[i as int].0);
                assert(post =~= pre.push(rs[i as int]));
            }
            if !('A' <= l && l <= 'Z') || cs.len() == 0 {
                proof {
                    assert(!cfg_ok(rs, start_state));
                }
                return Err(AnalysisError::MalformedProduction);
            }
            // Record the production unless it is already there.
            let mut k: usize = 0;
            let mut seen = false;
            while k < prods.len()
                invariant
                    k <= prods.len(),
                    !seen ==> forall|x: int| 0 <= x < k ==> rules_view(prods@)[x] != rs[i as int],
                    seen ==> rules_view(prods@).contains(rs[i as int]),
                    rs == rules_view(rules@),
                    i < rules.len(),
                decreases prods.len() - k,
            {
                if !seen && prods[k].0 == rules[i].0 && prods[k].1 == rules[i].1 {
                    seen = true;
                    proof {
                        assert(rules_view(prods@)[k as int] == rs[i as int]);
                    }
                }
                k = k + 1;
            }
            let ghost pv = rules_view(prods@);
            if !seen {
                prods.push((l, rules[i].1.clone()));
                proof {
                    assert(rules_view(prods@) =~= pv.push(rs[i as int]));
                    pv.lemma_push_to_set_commute(rs[i as int]);
                    pre.lemma_push_to_set_commute(rs[i as int]);
                    assert forall|a: int, b: int| 0 <= a < b < rules_view(prods@).len() implies rules_view(prods@)[a] != rules_view(prods@)[b] by {
                        if b == pv.len() {
                            assert(rules_view(prods@)[a] == pv[a]);
                        } else {
                            assert(rules_view(prods@)[a] == pv[a]);
                            assert(rules_view(prods@)[b] == pv[b]);
                        }
                    }
                    assert forall|j: int| 0 <= j < prods.len() implies is_ascii_upper((#[trigger] rules_view(prods@)[j]).0)
                        && rules_view(prods@)[j].1.len() > 0 by {
                        if j < pv.len() {
                            assert(rules_view(prods@)[j] == pv[j]);
                        }
                    }
                }
            } else {
                proof {
                    pre.lemma_push_to_set_commute(rs[i as int]);
                    assert(pv.to_set().contains(rs[i as int]));
                    assert(post.to_set() =~= pv.to_set());
                }
            }
            push_unique(&mut non_terminal, l);
            let eps = cs.len() == 1 && cs[0] == EMPTY_SENTENCE_CHAR;
            proof {
                assert(eps == is_epsilon(cs@)) by {
                    if eps {
                        assert(cs@ =~= seq![EMPTY_SENTENCE_CHAR]);
                    }
                }
            }
            let ghost t0 = terminal@.to_set();
            let ghost n0 = non_terminal@.to_set();
            if !eps {
                let mut m: usize = 0;
                while m < cs.len()
                    invariant
                        m <= cs.len(),
                        terminal@.no_duplicates(),
                        non_terminal@.no_duplicates(),
                        terminal@.to_set() == t0.union(body_terms(cs@.take(m as int))),
                        non_terminal@.to_set() == n0.union(body_nts(cs@.take(m as int))),
                    decreases cs.len() - m,
                {
                    let c = cs[m];
                    let ghost tm = terminal@.to_set();
                    let ghost nm = non_terminal@.to_set();
                    if 'A' <= c && c <= 'Z' {
                        push_unique(&mut non_terminal, c);
                    } else {
                        push_unique(&mut terminal, c);
                    }
                    proof {
                        let a = cs@.take(m as int);
                        let b = cs@.take(m as int + 1);
                        assert(b =~= a.push(c));
                        assert forall|x: char| b.contains(x) <==> a.contains(x) || x == c by {
                            if b.contains(x) {
                                let y = choose|y: int| 0 <= y < b.len() && b[y] == x;
                                if y < m {
                                    assert(a[y] == x);
                                }
                            }
                            if a.contains(x) {
                                let y = choose|y: int| 0 <= y < a.len() && a[y] == x;
                                assert(b[y] == x);
                            }
                            if x == c {
                                assert(b[m as int] == c);
                            }
                        }
                        assert(terminal@.to_set() =~= t0.union(body_terms(b)));
                        assert(non_terminal@.to_set() =~= n0.union(body_nts(b)));
                    }
                    m = m + 1;
                }
                proof {
                    assert(cs@.take(cs.len() as int) =~= cs@);
                }
            } else {
                proof {
                    assert(body_terms(body(cs@)) =~= Set::empty());
                    assert(body_nts(body(cs@)) =~= Set::empty());
                }
            }
            proof {
                let bt = body_terms(body(rs[i as int].1));
                let bn = body_nts(body(rs[i as int].1));
                assert(terminal@.to_set() =~= t0.union(bt));
                assert(non_terminal@.to_set() =~= n0.union(bn));
                assert forall|c: char| cfg_terminals(post).contains(c) <==> t0.union(bt).contains(c) by {
                    if cfg_terminals(post).contains(c) {
                        let j = choose|j: int| 0 <= j < post.len() && body_terms(body((#[trigger] post[j]).1)).contains(c);
                        if j < i {
                            assert(pre[j] == post[j]);
                        }
                    }
                    if t0.contains(c) {
                        let j = choose|j: int| 0 <= j < pre.len() && body_terms(body((#[trigger] pre[j]).1)).contains(c);
                        assert(pre[j] == post[j]);
                    }
                    if bt.contains(c) {
                        assert(post[i as int] == rs[i as int]);
                    }
                }
                assert(terminal@.to_set() =~= cfg_terminals(post));
                assert forall|c: char| cfg_non_terminals(post, start_state).contains(c) <==> n0.union(bn).contains(c) by {
                    if cfg_non_terminals(post, start_state).contains(c) && c != start_state {
                        let j = choose|j: int| 0 <= j < post.len() && (c == (#[trigger] post[j]).0 || body_nts(body(post[j].1)).contains(c));
                        if j < i {
                            assert(pre[j] == post[j]);
                        }
                    }
                    if n0.contains(c) && c != start_state && c != l {
                        let ghost nb = non_terminal@.to_set();
                        assert(cfg_non_terminals(pre, start_state).contains(c) || c == l);
                        let j = choose|j: int| 0 <= j < pre.len() && (c == (#[trigger] pre[j]).0 || body_nts(body(pre[j].1)).contains(c));
                        assert(pre[j] == post[j]);
                    }
                    if bn.contains(c) || c == l {
                        assert(post[i as int] == rs[i as int]);
                    }
                }
                assert(non_terminal@.to_set() =~= cfg_non_terminals(post, start_state));
            }
            i = i + 1;
        }
        proof {
            assert(rs.take(rules.len() as int) =~= rs);
            lemma_symbols_by_set(rules_view(prods@), rs, start_state);
        }
        Ok(PushDownAutomatonGrammar { terminal, non_terminal, production_set: prods, start: start_state })
    }
}

} // verus!
