use vstd::prelude::*;

use crate::analysis_error::AnalysisError;
use crate::deterministic_finite_automaton::{
    model_of, trans_map, AutomatonModel, DeterministicFiniteAutomaton, State, TransFunc,
};
use crate::notation::{parse_rules, rules_of, rules_view};
use crate::utils::{chars_of, contains_char, dedup_chars, push_unique};

verus! {

/// The character that, alone, writes the empty right-hand side.
pub const EMPTY_SENTENCE_CHAR: char = '$';

/// The accepting sentinel state that the automaton of a regular grammar adds.
pub const END_STATE: State = '+';

/// A grammar as plain values: its symbols, its productions in order, its start symbol.
pub struct GrammarModel {
    pub terminals: Set<char>,
    pub non_terminals: Set<char>,
    pub productions: Seq<(char, Seq<char>)>,
    pub start: char,
}

/// Whether a right-hand side is the empty one.
pub open spec fn is_epsilon(a: Seq<char>) -> bool {
    a == seq![EMPTY_SENTENCE_CHAR]
}

/// A right-linear right-hand side: empty, a terminal, or a terminal then a non-terminal.
pub open spec fn rg_alt_ok(a: Seq<char>) -> bool {
    is_epsilon(a) || a.len() == 1 || a.len() == 2
}

/// The terminals of right-linear rules: the first symbol of each non-empty right-hand side.
pub open spec fn rg_terminals(rs: Seq<(char, Seq<char>)>) -> Set<char> {
    Set::new(
        |c: char|
            exists|i: int|
                0 <= i < rs.len() && !is_epsilon((#[trigger] rs[i]).1) && rs[i].1.len() >= 1 && c
                    == rs[i].1[0],
    )
}

/// The non-terminals of right-linear rules: the left symbols and the second symbols.
pub open spec fn rg_non_terminals(rs: Seq<(char, Seq<char>)>) -> Set<char> {
    Set::new(
        |c: char|
            exists|i: int|
                0 <= i < rs.len() && (c == (#[trigger] rs[i]).0 || (rs[i].1.len() == 2 && c
                    == rs[i].1[1])),
    )
}

/// Rules form a regular grammar: every right-hand side is right-linear and no symbol is
/// both a terminal and a non-terminal.
pub open spec fn rg_ok(rs: Seq<(char, Seq<char>)>) -> bool {
    &&& forall|i: int| 0 <= i < rs.len() ==> rg_alt_ok((#[trigger] rs[i]).1)
    &&& rg_terminals(rs).disjoint(rg_non_terminals(rs))
}

/// The transition entry of a non-empty right-linear production.
pub open spec fn rg_entry(p: (char, Seq<char>)) -> (TransFunc, State) {
    (
        TransFunc { now_state: p.0, input_alpha: p.1[0] },
        if p.1.len() == 1 {
            END_STATE
        } else {
            p.1[1]
        },
    )
}

/// The transition entries of the non-empty productions, in order.
pub open spec fn rg_entries(ps: Seq<(char, Seq<char>)>) -> Seq<(TransFunc, State)>
    decreases ps.len(),
{
    if ps.len() == 0 {
        Seq::empty()
    } else if is_epsilon(ps.last().1) {
        rg_entries(ps.drop_last())
    } else {
        rg_entries(ps.drop_last()).push(rg_entry(ps.last()))
    }
}

/// The automaton of a regular grammar: its non-terminals and the sentinel as states, its
/// terminals as alphabet; the sentinel and every non-terminal with an empty production
/// accept; `A -> a` moves from `A` on `a` to the sentinel and `A -> aB` to `B`. Of two
/// productions with the same `A` and `a`, the later one counts.
pub open spec fn rg_automaton(g: GrammarModel) -> AutomatonModel {
    AutomatonModel {
        alphabet: g.terminals,
        states: g.non_terminals.insert(END_STATE),
        start: g.start,
        ends: Set::new(
            |q: State|
                q == END_STATE || exists|i: int|
                    0 <= i < g.productions.len() && (#[trigger] g.productions[i]).0 == q && is_epsilon(
                        g.productions[i].1,
                    ),
        ),
        delta: trans_map(rg_entries(g.productions)),
    }
}

/// A right-linear grammar.
#[derive(Debug, Clone)]
pub struct RegularGrammar {
    terminal: Vec<char>,
    non_terminal: Vec<char>,
    production_set: Vec<(char, String)>,
    start: char,
}

impl RegularGrammar {
    pub closed spec fn view(&self) -> GrammarModel {
        GrammarModel {
            terminals: self.terminal@.to_set(),
            non_terminals: self.non_terminal@.to_set(),
            productions: rules_view(self.production_set@),
            start: self.start,
        }
    }

    /// The sets are those of the productions, which are right-linear.
    pub closed spec fn wf(&self) -> bool {
        &&& self.terminal@.no_duplicates()
        &&& self.non_terminal@.no_duplicates()
        &&& rg_ok(self@.productions)
        &&& self@.terminals == rg_terminals(self@.productions)
        &&& self@.non_terminals == rg_non_terminals(self@.productions)
    }

    /// Reads a regular grammar written `S->aS|b,A->$` with start symbol `start`; `$` alone
    /// is the empty right-hand side.
    pub fn parse_grammar_token_and_build(grammars: String, start: char) -> (r: Result<
        RegularGrammar,
        AnalysisError,
    >)
        ensures
            r is Ok <==> (rules_of(grammars@) matches Some(rs) && rg_ok(rs)),
            r matches Ok(g) ==> g.wf() && rules_of(grammars@) == Some(g@.productions) && g@.start
                == start,
            r matches Ok(g) ==> g@.terminals == rg_terminals(g@.productions) && g@.non_terminals
                == rg_non_terminals(g@.productions),
            r matches Err(e) ==> e == AnalysisError::MalformedProduction,
    {
        let rules = match parse_rules(grammars.as_str()) {
            Ok(v) => v,
            Err(()) => {
                return Err(AnalysisError::MalformedProduction);
            },
        };
        let ghost rs = rules_view(rules@);
        let mut terminal: Vec<char> = Vec::new();
        let mut non_terminal: Vec<char> = Vec::new();
        let mut i: usize = 0;
        while i < rules.len()
            invariant
                rs == rules_view(rules@),
                rules_of(grammars@) == Some(rs),
                i <= rules.len(),
                terminal@.no_duplicates(),
                non_terminal@.no_duplicates(),
                forall|j: int| 0 <= j < i ==> rg_alt_ok((#[trigger] rs[j]).1),
                terminal@.to_set() == rg_terminals(rs.take(i as int)),
                non_terminal@.to_set() == rg_non_terminals(rs.take(i as int)),
            decreases rules.len() - i,
        {
            let cs = chars_of(rules[i].1.as_str());
            let l = rules[i].0;
            let ghost t0 = terminal@.to_set();
            let ghost n0 = non_terminal@.to_set();
            let ghost pre = rs.take(i as int);
            let ghost post = rs.take(i as int + 1);
            proof {
                assert(cs@ == rs[i as int].1);
                assert(l == rs[i as int].0);
                assert(post =~= pre.push(rs[i as int]));
            }
            let eps = cs.len() == 1 && cs[0] == EMPTY_SENTENCE_CHAR;
            proof {
                assert(eps == is_epsilon(cs@)) by {
                    if cs.len() == 1 && cs[0] == EMPTY_SENTENCE_CHAR {
                        assert(cs@ =~= seq![EMPTY_SENTENCE_CHAR]);
                    }
                }
            }
            if !eps && (cs.len() == 0 || cs.len() > 2) {
                proof {
                    assert(!rg_alt_ok(rs[i as int].1));
                }
                return Err(AnalysisError::MalformedProduction);
            }
            push_unique(&mut non_terminal, l);
            if !eps {
                push_unique(&mut terminal, cs[0]);
                if cs.len() == 2 {
                    push_unique(&mut non_terminal, cs[1]);
                }
            }
            proof {
                assert forall|c: char| terminal@.to_set().contains(c) <==> rg_terminals(post).contains(c) by {
                    if terminal@.to_set().contains(c) && !t0.contains(c) {
                        assert(post[i as int] == rs[i as int]);
                    }
                    if t0.contains(c) {
                        let j = choose|j: int| 0 <= j < pre.len() && !is_epsilon((#[trigger] pre[j]).1) && pre[j].1.len() >= 1 && c == pre[j].1[0];
                        assert(post[j] == pre[j]);
                    }
                    if rg_terminals(post).contains(c) {
                        let j = choose|j: int| 0 <= j < post.len() && !is_epsilon((#[trigger] post[j]).1) && post[j].1.len() >= 1 && c == post[j].1[0];
                        if j < i {
                            assert(pre[j] == post[j]);
                        }
                    }
                }
                assert(terminal@.to_set() =~= rg_terminals(post));
                assert forall|c: char| non_terminal@.to_set().contains(c) <==> rg_non_terminals(post).contains(c) by {
                    if non_terminal@.to_set().contains(c) && !n0.contains(c) {
                        assert(post[i as int] == rs[i as int]);
                    }
                    if n0.contains(c) {
                        let j = choose|j: int| 0 <= j < pre.len() && (c == (#[trigger] pre[j]).0 || (pre[j].1.len() == 2 && c == pre[j].1[1]));
                        assert(post[j] == pre[j]);
                    }
                    if rg_non_terminals(post).contains(c) {
                        let j = choose|j: int| 0 <= j < post.len() && (c == (#[trigger] post[j]).0 || (post[j].1.len() == 2 && c == post[j].1[1]));
                        if j < i {
                            assert(pre[j] == post[j]);
                        }
                    }
                }
                assert(non_terminal@.to_set() =~= rg_non_terminals(post));
            }
            i = i + 1;
        }
        proof {
            assert(rs.take(rules.len() as int) =~= rs);
        }
        let mut t: usize = 0;
        while t < terminal.len()
            invariant
                rules_of(grammars@) == Some(rs),
                rs == rules_view(rules@),
                forall|j: int| 0 <= j < rs.len() ==> rg_alt_ok((#[trigger] rs[j]).1),
                terminal@.to_set() == rg_terminals(rs),
                non_terminal@.to_set() == rg_non_terminals(rs),
                t <= terminal.len(),
                forall|j: int| 0 <= j < t ==> !non_terminal@.contains(#[trigger] terminal@[j]),
            decreases terminal.len() - t,
        {
            if contains_char(&non_terminal, terminal[t]) {
                proof {
                    assert(terminal@.to_set().contains(terminal@[t as int]));
                    assert(non_terminal@.to_set().contains(terminal@[t as int]));
                }
                return Err(AnalysisError::MalformedProduction);
            }
            t = t + 1;
        }
        proof {
            assert forall|c: char| rg_terminals(rs).contains(c) implies !rg_non_terminals(rs).contains(c) by {
                assert(terminal@.to_set().contains(c));
                let j = choose|j: int| 0 <= j < terminal.len() && terminal@[j] == c;
                assert(!non_terminal@.contains(terminal@[j]));
            }
        }
        let g = RegularGrammar { terminal, non_terminal, production_set: rules, start };
        Ok(g)
    }

    /// The automaton of the grammar (see `rg_automaton`). Fails when the start
    /// symbol is neither a non-terminal nor the sentinel.
    pub fn into_dfa(self) -> (r: Result<DeterministicFiniteAutomaton, AnalysisError>)
        requires
            self.wf(),
        ensures
            r is Ok <==> self@.non_terminals.insert(END_STATE).contains(self@.start),
            r matches Ok(a) ==> a.wf() && a@ == rg_automaton(self@),
            r matches Err(e) ==> e == AnalysisError::UndeclaredSymbolOrState,
    {
        let ghost g = self@;
        let ghost ps = g.productions;
        let alpha = dedup_chars(&self.terminal);
        let mut states = dedup_chars(&self.non_terminal);
        push_unique(&mut states, END_STATE);
        let mut ends: Vec<State> = Vec::new();
        ends.push(END_STATE);
        proof {
            assert(ends@[0] == END_STATE);
            assert(ends@.to_set() =~= Set::new(
                |q: State|
                    q == END_STATE || exists|j: int|
                        0 <= j < 0 && (#[trigger] ps[j]).0 == q && is_epsilon(ps[j].1),
            )) by {
                assert forall|q: State| ends@.to_set().contains(q) implies q == END_STATE by {
                    let x = choose|x: int| 0 <= x < ends.len() && ends@[x] == q;
                }
            }
        }
        let mut trans: Vec<(TransFunc, State)> = Vec::new();
        let mut i: usize = 0;
        while i < self.production_set.len()
            invariant
                g == self@,
                ps == g.productions,
                rg_ok(ps),
                i <= ps.len(),
                ps.len() == self.production_set.len(),
                trans@ == rg_entries(ps.take(i as int)),
                ends@.to_set() == Set::new(
                    |q: State|
                        q == END_STATE || exists|j: int|
                            0 <= j < i && (#[trigger] ps[j]).0 == q && is_epsilon(ps[j].1),
                ),
            decreases ps.len() - i,
        {
            let cs = chars_of(self.production_set[i].1.as_str());
            let l = self.production_set[i].0;
            let ghost e0 = ends@.to_set();
            proof {
                assert(cs@ == ps[i as int].1);
                assert(l == ps[i as int].0);
                assert(ps.take(i as int + 1).drop_last() =~= ps.take(i as int));
                assert(ps.take(i as int + 1).last() == ps[i as int]);
                assert(rg_alt_ok(ps[i as int].1));
            }
            if cs.len() == 1 && cs[0] == EMPTY_SENTENCE_CHAR {
                proof {
                    assert(cs@ =~= seq![EMPTY_SENTENCE_CHAR]);
                    ends@.lemma_push_to_set_commute(l);
                }
                ends.push(l);
                proof {
                    assert(ends@.to_set() =~= Set::new(
                        |q: State|
                            q == END_STATE || exists|j: int|
                                0 <= j < i + 1 && (#[trigger] ps[j]).0 == q && is_epsilon(ps[j].1),
                    )) by {
                        assert forall|q: State| (exists|j: int| 0 <= j < i + 1 && (#[trigger] ps[j]).0 == q && is_epsilon(ps[j].1)) implies ends@.to_set().contains(q) by {
                            let j = choose|j: int| 0 <= j < i + 1 && (#[trigger] ps[j]).0 == q && is_epsilon(ps[j].1);
                            if j < i {
                                assert(e0.contains(q));
                            }
                        }
                    }
                }
            } else {
                proof {
                    assert(!is_epsilon(cs@));
                    assert(ends@.to_set() =~= Set::new(
                        |q: State|
                            q == END_STATE || exists|j: int|
                                0 <= j < i + 1 && (#[trigger] ps[j]).0 == q && is_epsilon(ps[j].1),
                    )) by {
                        assert forall|q: State| (exists|j: int| 0 <= j < i + 1 && (#[trigger] ps[j]).0 == q && is_epsilon(ps[j].1)) implies ends@.to_set().contains(q) by {
                            let j = choose|j: int| 0 <= j < i + 1 && (#[trigger] ps[j]).0 == q && is_epsilon(ps[j].1);
                            assert(j < i);
                        }
                    }
                }
                let target = if cs.len() == 1 {
                    END_STATE
                } else {
                    cs[1]
                };
                trans.push((TransFunc::new(l, cs[0]), target));
            }
            i = i + 1;
        }
        proof {
            assert(ps.take(ps.len() as int) =~= ps);
            lemma_rg_entries_declared(ps);
            assert forall|x: int| 0 <= x < trans.len() implies states@.contains(#[trigger] trans@[x].0.now_state)
                && states@.contains(trans@[x].1) && alpha@.contains(trans@[x].0.input_alpha) by {
                assert(states@.to_set().contains(trans@[x].0.now_state));
                assert(states@.to_set().contains(trans@[x].1));
                assert(alpha@.to_set().contains(trans@[x].0.input_alpha));
            }
            assert forall|x: int| 0 <= x < ends.len() implies states@.contains(#[trigger] ends@[x]) by {
                assert(ends@.to_set().contains(ends@[x]));
                if ends@[x] != END_STATE {
                    let j = choose|j: int| 0 <= j < ps.len() && (#[trigger] ps[j]).0 == ends@[x] && is_epsilon(ps[j].1);
                    assert(rg_non_terminals(ps).contains(ends@[x]));
                }
                assert(states@.to_set().contains(ends@[x]));
            }
            assert(states@.contains(self.start) <==> states@.to_set().contains(self.start));
            assert(model_of(alpha@, states@, self.start, ends@, trans@) == rg_automaton(g));
        }
        DeterministicFiniteAutomaton::build(alpha, states, self.start, ends, trans)
    }
}

/// Each entry goes from a non-terminal on a terminal to a non-terminal or the sentinel.
proof fn lemma_rg_entries_declared(ps: Seq<(char, Seq<char>)>)
    requires
        forall|i: int| 0 <= i < ps.len() ==> rg_alt_ok((#[trigger] ps[i]).1),
    ensures
        forall|x: int|
            0 <= x < rg_entries(ps).len() ==> rg_non_terminals(ps).contains(
                (#[trigger] rg_entries(ps)[x]).0.now_state,
            ) && rg_terminals(ps).contains(rg_entries(ps)[x].0.input_alpha) && (rg_entries(ps)[x].1
                == END_STATE || rg_non_terminals(ps).contains(rg_entries(ps)[x].1)),
    decreases ps.len(),
{
    if ps.len() > 0 {
        let pre = ps.drop_last();
        lemma_rg_entries_declared(pre);
        let es = rg_entries(ps);
        assert forall|x: int| 0 <= x < es.len() implies rg_non_terminals(ps).contains(
            (#[trigger] es[x]).0.now_state,
        ) && rg_terminals(ps).contains(es[x].0.input_alpha) && (es[x].1 == END_STATE
            || rg_non_terminals(ps).contains(es[x].1)) by {
            if x < rg_entries(pre).len() {
                assert(es[x] == rg_entries(pre)[x]);
                let e = es[x];
                if rg_non_terminals(pre).contains(e.0.now_state) {
                    let j = choose|j: int| 0 <= j < pre.len() && (e.0.now_state == (#[trigger] pre[j]).0 || (pre[j].1.len() == 2 && e.0.now_state == pre[j].1[1]));
                    assert(ps[j] == pre[j]);
                }
                if rg_terminals(pre).contains(e.0.input_alpha) {
                    let j = choose|j: int| 0 <= j < pre.len() && !is_epsilon((#[trigger] pre[j]).1) && pre[j].1.len() >= 1 && e.0.input_alpha == pre[j].1[0];
                    assert(ps[j] == pre[j]);
                }
                if e.1 != END_STATE {
                    let j = choose|j: int| 0 <= j < pre.len() && (e.1 == (#[trigger] pre[j]).0 || (pre[j].1.len() == 2 && e.1 == pre[j].1[1]));
                    assert(ps[j] == pre[j]);
                }
            } else {
                let last = ps.len() - 1;
                assert(ps[last] == ps.last());
                assert(es[x] == rg_entry(ps[last]));
            }
        }
    }
}

} // verus!
