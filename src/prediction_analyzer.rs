use vstd::prelude::*;

use crate::analysis_error::AnalysisError;
use crate::grammar_sets::BEGIN_END_CHAR;
use crate::notation::is_ascii_upper;
use crate::regular_grammar::{is_epsilon, EMPTY_SENTENCE_CHAR};
use crate::utils::{
    assoc_keys_unique, assoc_map, chars_of, lemma_assoc_dom, lemma_assoc_push,
    lemma_assoc_update, lemma_assoc_value,
};

verus! {

/// The most steps a parse may take: as many as a machine word counts.
pub const PARSE_STEP_LIMIT: usize = usize::MAX;

/// A key of the parsing table: a non-terminal and a lookahead terminal.
#[derive(Clone, Copy, PartialEq, Eq, Structural, Hash, Debug, Default)]
pub struct PredictionAnalyzerInput {
    pub v_n: char,
    pub v_t: char,
}

impl PredictionAnalyzerInput {
    pub fn new(v_n: char, v_t: char) -> (r: Self)
        ensures
            r.v_n == v_n,
            r.v_t == v_t,
    {
        Self { v_n, v_t }
    }
}

/// One step of a parse.
#[derive(Clone, Copy, PartialEq, Eq, Structural, Debug)]
pub enum ParseStep {
    /// The top of the stack matched the lookahead, which was consumed.
    Match(char),
    /// The non-terminal on top was replaced by the production the table gives for it and
    /// the lookahead.
    Expand(char, char),
    /// The non-terminal on top was popped by an empty production.
    Vanish(char),
    /// The end marker matched the end of the input.
    Accept,
}

/// How a parse ends.
pub enum ParseOutcome {
    Accepted(Seq<ParseStep>),
    Rejected(int),
    Unfinished,
}

/// A parsing table as plain values, with its start symbol.
pub struct AnalyzerModel {
    pub table: Map<(char, char), Seq<char>>,
    pub start: char,
}

/// The entries as plain values.
pub open spec fn entries_view(s: Seq<(PredictionAnalyzerInput, String)>) -> Seq<((char, char), Seq<char>)> {
    s.map_values(|e: (PredictionAnalyzerInput, String)| ((e.0.v_n, e.0.v_t), e.1@))
}

/// The run of the table-driven parser from a stack (top last) and an input position, with
/// the steps taken so far, for at most `fuel` steps. A non-terminal is an ASCII upper-case
/// letter; the input ends with the end marker.
pub open spec fn parse_run(
    table: Map<(char, char), Seq<char>>,
    t: Seq<char>,
    stack: Seq<char>,
    pos: int,
    trace: Seq<ParseStep>,
    fuel: nat,
) -> ParseOutcome
    decreases fuel,
{
    if fuel == 0 {
        ParseOutcome::Unfinished
    } else if stack.len() == 0 || pos < 0 || pos >= t.len() {
        ParseOutcome::Rejected(pos)
    } else {
        let x = stack.last();
        let c = t[pos];
        let rest = stack.drop_last();
        if x == c && x == BEGIN_END_CHAR {
            ParseOutcome::Accepted(trace.push(ParseStep::Accept))
        } else if x == c {
            parse_run(table, t, rest, pos + 1, trace.push(ParseStep::Match(c)), (fuel - 1) as nat)
        } else if is_ascii_upper(x) && table.contains_key((x, c)) {
            if is_epsilon(table[(x, c)]) {
                parse_run(table, t, rest, pos, trace.push(ParseStep::Vanish(x)), (fuel - 1) as nat)
            } else {
                parse_run(
                    table,
                    t,
                    rest + table[(x, c)].reverse(),
                    pos,
                    trace.push(ParseStep::Expand(x, c)),
                    (fuel - 1) as nat,
                )
            }
        } else {
            ParseOutcome::Rejected(pos)
        }
    }
}

/// The parse of `input`: the stack starts as the end marker under the start symbol, and
/// the input is followed by the end marker.
pub open spec fn parse_outcome(m: AnalyzerModel, input: Seq<char>) -> ParseOutcome {
    parse_run(
        m.table,
        input.push(BEGIN_END_CHAR),
        seq![BEGIN_END_CHAR, m.start],
        0,
        Seq::empty(),
        PARSE_STEP_LIMIT as nat,
    )
}

/// A predictive parser: an LL(1) table and the start symbol.
#[derive(Debug)]
pub struct PredictionAnalyzer {
    analyzer_table: Vec<(PredictionAnalyzerInput, String)>,
    start_char: char,
}

/// The position of the entry with key `(v_n, v_t)`, if there is one.
fn find_entry(s: &Vec<(PredictionAnalyzerInput, String)>, v_n: char, v_t: char) -> (r: Option<usize>)
    ensures
        match r {
            Some(i) => i < s.len() && entries_view(s@)[i as int].0 == (v_n, v_t),
            None => forall|j: int| 0 <= j < s.len() ==> (#[trigger] entries_view(s@)[j]).0 != (v_n, v_t),
        },
{
    let mut i: usize = 0;
    while i < s.len()
        invariant
            i <= s.len(),
            forall|j: int| 0 <= j < i ==> (#[trigger] entries_view(s@)[j]).0 != (v_n, v_t),
        decreases s.len() - i,
    {
        if s[i].0.v_n == v_n && s[i].0.v_t == v_t {
            return Some(i);
        }
        i = i + 1;
    }
    None
}

impl PredictionAnalyzer {
    pub closed spec fn view(&self) -> AnalyzerModel {
        AnalyzerModel { table: assoc_map(entries_view(self.analyzer_table@)), start: self.start_char }
    }

    /// One entry per key.
    pub closed spec fn wf(&self) -> bool {
        assoc_keys_unique(entries_view(self.analyzer_table@))
    }

    #[verifier::type_invariant]
    spec fn keys_once(&self) -> bool {
        self.wf()
    }

    /// Every entry of `self` is in `o` with the same production.
    fn entries_within(&self, o: &PredictionAnalyzer) -> (r: bool)
        requires
            self.wf(),
            o.wf(),
        ensures
            r == forall|k: (char, char)| #[trigger] self@.table.contains_key(k) ==> o@.table.contains_key(k)
                && o@.table[k] == self@.table[k],
    {
        let ghost es = entries_view(self.analyzer_table@);
        let mut i: usize = 0;
        while i < self.analyzer_table.len()
            invariant
                self.wf(),
                o.wf(),
                es == entries_view(self.analyzer_table@),
                i <= self.analyzer_table.len(),
                forall|j: int| 0 <= j < i ==> o@.table.contains_key((#[trigger] es[j]).0) && o@.table[es[j].0] == es[j].1,
            decreases self.analyzer_table.len() - i,
        {
            let key = self.analyzer_table[i].0;
            proof {
                assert(es[i as int].0 == (key.v_n, key.v_t));
            }
            match o.production_for(key.v_n, key.v_t) {
                Some(p) => {
                    if p != self.analyzer_table[i].1 {
                        proof {
                            lemma_assoc_value(es, i as int);
                            assert(self@.table.contains_key(es[i as int].0));
                        }
                        return false;
                    }
                },
                None => {
                    proof {
                        lemma_assoc_value(es, i as int);
                        assert(self@.table.contains_key(es[i as int].0));
                    }
                    return false;
                },
            }
            i = i + 1;
        }
        proof {
            assert forall|k: (char, char)| #[trigger] self@.table.contains_key(k) implies o@.table.contains_key(k)
                && o@.table[k] == self@.table[k] by {
                lemma_assoc_dom(es, k);
                let j = choose|j: int| 0 <= j < es.len() && es[j].0 == k;
                lemma_assoc_value(es, j);
            }
        }
        true
    }

    /// A parser for the table given as entries; of two entries with the same key the later
    /// one counts.
    pub fn new(analyzer_table: Vec<(PredictionAnalyzerInput, String)>, start_char: char) -> (r: Self)
        ensures
            r.wf(),
            r@ == (AnalyzerModel { table: assoc_map(entries_view(analyzer_table@)), start: start_char }),
    {
        let mut out: Vec<(PredictionAnalyzerInput, String)> = Vec::new();
        let mut i: usize = 0;
        while i < analyzer_table.len()
            invariant
                i <= analyzer_table.len(),
                assoc_keys_unique(entries_view(out@)),
                assoc_map(entries_view(out@)) == assoc_map(entries_view(analyzer_table@.take(i as int))),
            decreases analyzer_table.len() - i,
        {
            let key = analyzer_table[i].0;
            let val = analyzer_table[i].1.clone();
            let ghost ev = ((key.v_n, key.v_t), val@);
            proof {
                assert(analyzer_table@.take(i as int + 1).drop_last() =~= analyzer_table@.take(i as int));
                assert(entries_view(analyzer_table@.take(i as int + 1)) =~= entries_view(analyzer_table@.take(i as int)).push(ev));
                lemma_assoc_push(entries_view(analyzer_table@.take(i as int)), ev);
            }
            match find_entry(&out, key.v_n, key.v_t) {
                Some(j) => {
                    proof {
                        lemma_assoc_update(entries_view(out@), j as int, ev);
                    }
                    let ghost prev = out@;
                    out.set(j, (key, val));
                    proof {
                        assert(entries_view(out@) =~= entries_view(prev).update(j as int, ev));
                    }
                },
                None => {
                    proof {
                        lemma_assoc_push(entries_view(out@), ev);
                    }
                    let ghost prev = out@;
                    out.push((key, val));
                    proof {
                        assert(entries_view(out@) =~= entries_view(prev).push(ev));
                        let e = entries_view(out@);
                        assert forall|a: int, b: int| 0 <= a < e.len() && 0 <= b < e.len() && a != b implies e[a].0 != e[b].0 by {
                            if a < prev.len() && b < prev.len() {
                                assert(e[a] == entries_view(prev)[a]);
                                assert(e[b] == entries_view(prev)[b]);
                            } else if a < prev.len() {
                                assert(e[a] == entries_view(prev)[a]);
                            } else {
                                assert(e[b] == entries_view(prev)[b]);
                            }
                        }
                    }
                },
            }
            i = i + 1;
        }
        proof {
            assert(analyzer_table@.take(analyzer_table.len() as int) =~= analyzer_table@);
        }
        PredictionAnalyzer { analyzer_table: out, start_char }
    }

    /// The production the table gives for `v_n` under lookahead `v_t`.
    pub fn production_for(&self, v_n: char, v_t: char) -> (r: Option<String>)
        requires
            self.wf(),
        ensures
            match r {
                Some(p) => self@.table.contains_key((v_n, v_t)) && self@.table[(v_n, v_t)] == p@,
                None => !self@.table.contains_key((v_n, v_t)),
            },
    {
        match find_entry(&self.analyzer_table, v_n, v_t) {
            Some(i) => {
                proof {
                    lemma_assoc_value(entries_view(self.analyzer_table@), i as int);
                }
                Some(self.analyzer_table[i].1.clone())
            },
            None => {
                proof {
                    lemma_assoc_dom(entries_view(self.analyzer_table@), (v_n, v_t));
                }
                None
            },
        }
    }

    /// Parses `to_parse` with the table: the stack starts as the end marker under the start
    /// symbol. Each step pops the top symbol: the end marker against the end of input
    /// accepts; a symbol equal to the lookahead consumes it; a non-terminal is replaced by
    /// the table's production for it and the lookahead, pushed right to left (nothing for
    /// the empty one); anything else rejects at the lookahead's index. Returns the steps
    /// taken on acceptance.
    pub fn analyzer(&self, to_parse: &String) -> (r: Result<Vec<ParseStep>, AnalysisError>)
        requires
            self.wf(),
        ensures
            match parse_outcome(self@, to_parse@) {
                ParseOutcome::Accepted(tr) => r matches Ok(v) && v@ == tr,
                ParseOutcome::Rejected(i) => r matches Err(AnalysisError::UnknownTransition { index }) && index == i,
                ParseOutcome::Unfinished => r matches Err(AnalysisError::ParseDidNotEnd),
            },
    {
        let ghost table = self@.table;
        let mut t = chars_of(to_parse.as_str());
        t.push(BEGIN_END_CHAR);
        let ghost tv = to_parse@.push(BEGIN_END_CHAR);
        let mut stack: Vec<char> = Vec::new();
        stack.push(BEGIN_END_CHAR);
        stack.push(self.start_char);
        let mut trace: Vec<ParseStep> = Vec::new();
        let mut pos: usize = 0;
        let mut fuel: usize = PARSE_STEP_LIMIT;
        proof {
            assert(t@ =~= tv);
            assert(stack@ =~= seq![BEGIN_END_CHAR, self@.start]);
            assert(trace@ =~= Seq::<ParseStep>::empty());
        }
        while fuel > 0
            invariant
                self.wf(),
                table == self@.table,
                t@ == tv,
                tv == to_parse@.push(BEGIN_END_CHAR),
                parse_outcome(self@, to_parse@) == parse_run(table, tv, stack@, pos as int, trace@, fuel as nat),
            decreases fuel,
        {
            if stack.len() == 0 || pos >= t.len() {
                return Err(AnalysisError::UnknownTransition { index: pos });
            }
            let x = stack.pop().unwrap();
            let c = t[pos];
            if x == c && x == BEGIN_END_CHAR {
                trace.push(ParseStep::Accept);
                return Ok(trace);
            } else if x == c {
                trace.push(ParseStep::Match(c));
                pos = pos + 1;
            } else if 'A' <= x && x <= 'Z' {
                match self.production_for(x, c) {
                    None => {
                        return Err(AnalysisError::UnknownTransition { index: pos });
                    },
                    Some(p) => {
                        let ps = chars_of(p.as_str());
                        if ps.len() == 1 && ps[0] == EMPTY_SENTENCE_CHAR {
                            proof {
                                assert(ps@ =~= seq![EMPTY_SENTENCE_CHAR]);
                            }
                            trace.push(ParseStep::Vanish(x));
                        } else {
                            proof {
                                assert(!is_epsilon(ps@)) by {
                                    if is_epsilon(ps@) {
                                        assert(ps@[0] == EMPTY_SENTENCE_CHAR);
                                    }
                                }
                            }
                            let ghost rest = stack@;
                            let mut k: usize = ps.len();
                            while k > 0
                                invariant
                                    k <= ps.len(),
                                    stack@ == rest + ps@.reverse().take(ps.len() - k),
                                decreases k,
                            {
                                k = k - 1;
                                stack.push(ps[k]);
                                proof {
                                    assert(ps@.reverse()[ps.len() - k - 1] == ps@[k as int]);
                                    assert(ps@.reverse().take(ps.len() - k) =~= ps@.reverse().take(ps.len() - k - 1).push(ps@[k as int]));
                                }
                            }
                            proof {
                                assert(ps@.reverse().take(ps.len() as int) =~= ps@.reverse());
                            }
                            trace.push(ParseStep::Expand(x, c));
                        }
                    },
                }
            } else {
                return Err(AnalysisError::UnknownTransition { index: pos });
            }
            fuel = fuel - 1;
        }
        Err(AnalysisError::ParseDidNotEnd)
    }

    /// The table's entries.
    pub fn entries(&self) -> (r: &Vec<(PredictionAnalyzerInput, String)>)
        ensures
            assoc_map(entries_view(r@)) == self@.table,
    {
        &self.analyzer_table
    }

    /// The start symbol.
    pub fn start_char(&self) -> (r: char)
        ensures
            r == self@.start,
    {
        self.start_char
    }
}

impl PartialEq for PredictionAnalyzer {
    fn eq(&self, o: &PredictionAnalyzer) -> (r: bool) {
        proof {
            use_type_invariant(self);
            use_type_invariant(o);
        }
        let same = self.start_char == o.start_char && self.entries_within(o) && o.entries_within(self);
        proof {
            if same {
                assert(self@.table =~= o@.table);
            }
        }
        same
    }
}

impl vstd::std_specs::cmp::PartialEqSpecImpl for PredictionAnalyzer {
    open spec fn obeys_eq_spec() -> bool {
        true
    }

    open spec fn eq_spec(&self, o: &PredictionAnalyzer) -> bool {
        self@ == o@
    }
}

} // verus!
