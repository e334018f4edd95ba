use vstd::prelude::*;

use crate::analysis_error::AnalysisError;
use crate::notation::{ascii_lower, ascii_upper, split_by, split_text, to_ascii_lower, to_ascii_upper};
use crate::utils::{chars_of, contains_char, dedup_chars, push_unique};

verus! {

/// A state label.
pub type State = char;

/// The left side of a transition: the current state and the symbol read.
#[derive(Clone, Copy, PartialEq, Eq, Structural, Hash, Debug, Default)]
pub struct TransFunc {
    pub now_state: State,
    pub input_alpha: char,
}

impl TransFunc {
    pub fn new(now_state: State, input_alpha: char) -> (r: Self)
        ensures
            r.now_state == now_state,
            r.input_alpha == input_alpha,
    {
        TransFunc { now_state, input_alpha }
    }
}

/// The mathematical automaton: alphabet, states, start, accepting states, transition map.
pub struct AutomatonModel {
    pub alphabet: Set<char>,
    pub states: Set<State>,
    pub start: State,
    pub ends: Set<State>,
    pub delta: Map<(State, char), State>,
}

/// The key of a transition entry.
pub open spec fn entry_key(e: (TransFunc, State)) -> (State, char) {
    (e.0.now_state, e.0.input_alpha)
}

/// The map that a list of transition entries stands for; a later entry overrides an earlier one.
pub open spec fn trans_map(s: Seq<(TransFunc, State)>) -> Map<(State, char), State>
    decreases s.len(),
{
    if s.len() == 0 {
        Map::empty()
    } else {
        trans_map(s.drop_last()).insert(entry_key(s.last()), s.last().1)
    }
}

/// No two entries share a key.
pub open spec fn keys_unique(s: Seq<(TransFunc, State)>) -> bool {
    forall|i: int, j: int|
        0 <= i < s.len() && 0 <= j < s.len() && i != j ==> entry_key(s[i]) != entry_key(s[j])
}

/// Every transition stays within the declared states and symbols, the start state and
/// the accepting states are declared, and the sets are finite.
pub open spec fn model_wf(m: AutomatonModel) -> bool {
    &&& m.alphabet.finite()
    &&& m.states.finite()
    &&& m.states.contains(m.start)
    &&& m.ends.subset_of(m.states)
    &&& forall|k: (State, char)| #[trigger]
        m.delta.contains_key(k) ==> m.states.contains(k.0) && m.alphabet.contains(k.1)
            && m.states.contains(m.delta[k])
}

/// Every state has a transition on every symbol.
pub open spec fn model_total(m: AutomatonModel) -> bool {
    forall|q: State, c: char|
        m.states.contains(q) && m.alphabet.contains(c) ==> #[trigger] m.delta.contains_key((q, c))
}

/// The state reached from `q` by reading `s`, if every step has a transition.
pub open spec fn run_from(d: Map<(State, char), State>, q: State, s: Seq<char>) -> Option<State>
    decreases s.len(),
{
    if s.len() == 0 {
        Some(q)
    } else if d.contains_key((q, s[0])) {
        run_from(d, d[(q, s[0])], s.subrange(1, s.len() as int))
    } else {
        None
    }
}

/// Whether reading `s` from `q` ends in an accepting state.
pub open spec fn accepts_from(m: AutomatonModel, q: State, s: Seq<char>) -> bool {
    match run_from(m.delta, q, s) {
        Some(r) => m.ends.contains(r),
        None => false,
    }
}

/// Myhill-Nerode equivalence: no input string tells `p` and `q` apart.
pub open spec fn equivalent(m: AutomatonModel, p: State, q: State) -> bool {
    forall|s: Seq<char>| #[trigger] accepts_from(m, p, s) == accepts_from(m, q, s)
}

/// Whether the inputs of `build` describe an automaton: the start state is declared, the
/// accepting states are declared, and each transition uses declared states and symbols.
pub open spec fn build_ok(
    alpha: Seq<char>,
    state: Seq<State>,
    start: State,
    ends: Seq<State>,
    trans: Seq<(TransFunc, State)>,
) -> bool {
    &&& state.contains(start)
    &&& forall|i: int| 0 <= i < ends.len() ==> state.contains(#[trigger] ends[i])
    &&& forall|i: int|
        0 <= i < trans.len() ==> state.contains(#[trigger] trans[i].0.now_state)
            && state.contains(trans[i].1) && alpha.contains(trans[i].0.input_alpha)
}

/// The automaton that the inputs of `build` describe.
pub open spec fn model_of(
    alpha: Seq<char>,
    state: Seq<State>,
    start: State,
    ends: Seq<State>,
    trans: Seq<(TransFunc, State)>,
) -> AutomatonModel {
    AutomatonModel {
        alphabet: alpha.to_set(),
        states: state.to_set(),
        start,
        ends: ends.to_set(),
        delta: trans_map(trans),
    }
}

/// A deterministic finite automaton. The sets are held without repetition and the
/// transitions with one entry per key.
#[derive(Debug, Clone)]
pub struct DeterministicFiniteAutomaton {
    pub(crate) alpha: Vec<char>,
    pub(crate) state: Vec<State>,
    pub(crate) start_state: State,
    pub(crate) end_state_set: Vec<State>,
    pub(crate) trans: Vec<(TransFunc, State)>,
}

pub proof fn lemma_trans_map_push(s: Seq<(TransFunc, State)>, e: (TransFunc, State))
    ensures
        trans_map(s.push(e)) == trans_map(s).insert(entry_key(e), e.1),
{
    assert(s.push(e).drop_last() =~= s);
}

/// The keys of `trans_map(s)` are the keys of the entries of `s`.
pub proof fn lemma_trans_map_dom(s: Seq<(TransFunc, State)>, k: (State, char))
    ensures
        trans_map(s).contains_key(k) <==> exists|i: int| 0 <= i < s.len() && entry_key(s[i]) == k,
    decreases s.len(),
{
    if s.len() > 0 {
        lemma_trans_map_dom(s.drop_last(), k);
        if trans_map(s).contains_key(k) && entry_key(s.last()) != k {
            let i = choose|i: int| 0 <= i < s.drop_last().len() && entry_key(s.drop_last()[i]) == k;
            assert(entry_key(s[i]) == k);
        }
        if exists|i: int| 0 <= i < s.len() && entry_key(s[i]) == k {
            let i = choose|i: int| 0 <= i < s.len() && entry_key(s[i]) == k;
            if i < s.len() - 1 {
                assert(entry_key(s.drop_last()[i]) == k);
            }
        }
    }
}

/// With unique keys, each entry's value is what the map gives for its key.
pub proof fn lemma_trans_map_value(s: Seq<(TransFunc, State)>, i: int)
    requires
        keys_unique(s),
        0 <= i < s.len(),
    ensures
        trans_map(s).contains_key(entry_key(s[i])),
        trans_map(s)[entry_key(s[i])] == s[i].1,
    decreases s.len(),
{
    if i < s.len() - 1 {
        assert(keys_unique(s.drop_last()));
        lemma_trans_map_value(s.drop_last(), i);
        assert(entry_key(s.last()) != entry_key(s[i]));
    }
}

/// Replacing the entry of a key in a list with unique keys updates the map at that key.
pub proof fn lemma_trans_map_update(s: Seq<(TransFunc, State)>, j: int, e: (TransFunc, State))
    requires
        keys_unique(s),
        0 <= j < s.len(),
        entry_key(s[j]) == entry_key(e),
    ensures
        keys_unique(s.update(j, e)),
        trans_map(s.update(j, e)) == trans_map(s).insert(entry_key(e), e.1),
{
    let t = s.update(j, e);
    assert(keys_unique(t)) by {
        assert forall|a: int, b: int|
            0 <= a < t.len() && 0 <= b < t.len() && a != b implies entry_key(t[a]) != entry_key(
                t[b],
            ) by {
            assert(entry_key(t[a]) == entry_key(s[a]));
            assert(entry_key(t[b]) == entry_key(s[b]));
        }
    }
    assert forall|k: (State, char)|
        trans_map(t).contains_key(k) == trans_map(s).insert(entry_key(e), e.1).contains_key(k) by {
        lemma_trans_map_dom(t, k);
        lemma_trans_map_dom(s, k);
        if exists|i: int| 0 <= i < s.len() && entry_key(s[i]) == k {
            let i = choose|i: int| 0 <= i < s.len() && entry_key(s[i]) == k;
            assert(entry_key(t[i]) == k);
        }
        if exists|i: int| 0 <= i < t.len() && entry_key(t[i]) == k {
            let i = choose|i: int| 0 <= i < t.len() && entry_key(t[i]) == k;
            assert(entry_key(s[i]) == k);
        }
    }
    assert forall|k: (State, char)| #[trigger]
        trans_map(t).contains_key(k) implies trans_map(t)[k] == trans_map(s).insert(
            entry_key(e),
            e.1,
        )[k] by {
        lemma_trans_map_dom(t, k);
        let i = choose|i: int| 0 <= i < t.len() && entry_key(t[i]) == k;
        lemma_trans_map_value(t, i);
        if i != j {
            assert(entry_key(s[i]) == k);
            lemma_trans_map_value(s, i);
        }
    }
    assert(trans_map(t) =~= trans_map(s).insert(entry_key(e), e.1));
}

/// Whether every transition uses declared states and symbols.
fn transitions_declared(alpha: &Vec<char>, state: &Vec<State>, trans: &Vec<(TransFunc, State)>) -> (r: bool)
    ensures
        r == forall|i: int|
            0 <= i < trans.len() ==> state@.contains(#[trigger] trans@[i].0.now_state)
                && state@.contains(trans@[i].1) && alpha@.contains(trans@[i].0.input_alpha),
{
    let mut i: usize = 0;
    while i < trans.len()
        invariant
            i <= trans.len(),
            forall|j: int|
                0 <= j < i ==> state@.contains(#[trigger] trans@[j].0.now_state)
                    && state@.contains(trans@[j].1) && alpha@.contains(trans@[j].0.input_alpha),
        decreases trans.len() - i,
    {
        let q = trans[i].0.now_state;
        let t = trans[i].1;
        let c = trans[i].0.input_alpha;
        let ok = contains_char(state, q) && contains_char(state, t) && contains_char(alpha, c);
        if !ok {
            proof {
                assert(q == trans@[i as int].0.now_state);
                assert(t == trans@[i as int].1);
                assert(c == trans@[i as int].0.input_alpha);
                assert(!(state@.contains(trans@[i as int].0.now_state) && state@.contains(trans@[i as int].1)
                    && alpha@.contains(trans@[i as int].0.input_alpha)));
            }
            return false;
        }
        proof {
            assert forall|j: int|
                0 <= j < i + 1 implies state@.contains(#[trigger] trans@[j].0.now_state)
                    && state@.contains(trans@[j].1) && alpha@.contains(trans@[j].0.input_alpha) by {
                if j == i {
                    assert(q == trans@[j].0.now_state);
                    assert(t == trans@[j].1);
                    assert(c == trans@[j].0.input_alpha);
                }
            }
        }
        i = i + 1;
    }
    proof {
        assert(i == trans.len());
        assert forall|j: int|
            0 <= j < trans.len() implies state@.contains(#[trigger] trans@[j].0.now_state)
                && state@.contains(trans@[j].1) && alpha@.contains(trans@[j].0.input_alpha) by {
            assert(0 <= j < i);
        }
    }
    true
}

/// The position of the entry with key `(q, c)`, if there is one.
pub fn find_key(s: &Vec<(TransFunc, State)>, q: State, c: char) -> (r: Option<usize>)
    ensures
        match r {
            Some(i) => i < s.len() && entry_key(s@[i as int]) == (q, c),
            None => forall|j: int| 0 <= j < s.len() ==> entry_key(#[trigger] s@[j]) != (q, c),
        },
{
    let mut i: usize = 0;
    while i < s.len()
        invariant
            i <= s.len(),
            forall|j: int| 0 <= j < i ==> entry_key(#[trigger] s@[j]) != (q, c),
        decreases s.len() - i,
    {
        if s[i].0.now_state == q && s[i].0.input_alpha == c {
            return Some(i);
        }
        i = i + 1;
    }
    None
}

/// Where every entry with key `k` carries `v`, the map gives `v` at `k`.
pub proof fn lemma_trans_map_agreeing(s: Seq<(TransFunc, State)>, k: (State, char), v: State)
    requires
        trans_map(s).contains_key(k),
        forall|x: int| 0 <= x < s.len() && entry_key(#[trigger] s[x]) == k ==> s[x].1 == v,
    ensures
        trans_map(s)[k] == v,
    decreases s.len(),
{
    if s.len() > 0 && entry_key(s.last()) != k {
        assert forall|x: int| 0 <= x < s.drop_last().len() && entry_key(#[trigger] s.drop_last()[x]) == k implies s.drop_last()[x].1 == v by {
            assert(s.drop_last()[x] == s[x]);
        }
        lemma_trans_map_agreeing(s.drop_last(), k, v);
    }
}

/// The mark that makes a state accepting in the state-list notation.
pub const END_STATE_FLAG: char = '*';

/// An alphabet unit is one character.
pub open spec fn alpha_units_ok(p: Seq<Seq<char>>) -> bool {
    forall|i: int| 0 <= i < p.len() ==> (#[trigger] p[i]).len() == 1
}

/// The alphabet that the units list, in lower case.
pub open spec fn alpha_of(p: Seq<Seq<char>>) -> Set<char> {
    Set::new(|c: char| exists|i: int| 0 <= i < p.len() && c == ascii_lower(#[trigger] p[i][0]))
}

/// A state unit is a state, or the accepting mark followed by a state.
pub open spec fn state_unit_ok(u: Seq<char>) -> bool {
    u.len() == 1 || (u.len() == 2 && u[0] == END_STATE_FLAG)
}

/// The states that the units list, in upper case.
pub open spec fn states_of(p: Seq<Seq<char>>) -> Set<State> {
    Set::new(|c: State| exists|i: int| 0 <= i < p.len() && c == ascii_upper((#[trigger] p[i]).last()))
}

/// The states that the units mark as accepting, in upper case.
pub open spec fn marked_states_of(p: Seq<Seq<char>>) -> Set<State> {
    Set::new(
        |c: State|
            exists|i: int| 0 <= i < p.len() && (#[trigger] p[i]).len() == 2 && c == ascii_upper(p[i][1]),
    )
}

/// A transition unit reads `X+a=Y`.
pub open spec fn trans_unit_ok(u: Seq<char>) -> bool {
    u.len() == 5 && u[1] == '+' && u[3] == '='
}

/// The transition a unit `X+a=Y` stands for: states in upper case, the symbol in lower case.
pub open spec fn trans_unit(u: Seq<char>) -> (TransFunc, State) {
    (TransFunc { now_state: ascii_upper(u[0]), input_alpha: ascii_lower(u[2]) }, ascii_upper(u[4]))
}

impl DeterministicFiniteAutomaton {
    /// Reads an alphabet written `a,b,c`. Each unit must be one character; letters are
    /// taken in lower case.
    pub fn parse_alpha_table(string: String) -> (r: Result<Vec<char>, ()>)
        ensures
            r is Ok <==> alpha_units_ok(split_by(string@, ',')),
            r matches Ok(v) ==> v@.no_duplicates() && v@.to_set() == alpha_of(split_by(string@, ',')),
    {
        let pieces = split_text(string.as_str(), ',');
        let ghost p = split_by(string@, ',');
        let mut out: Vec<char> = Vec::new();
        let mut i: usize = 0;
        while i < pieces.len()
            invariant
                p == split_by(string@, ','),
                pieces.len() == p.len(),
                forall|j: int| 0 <= j < pieces.len() ==> (#[trigger] pieces@[j])@ == p[j],
                i <= pieces.len(),
                forall|j: int| 0 <= j < i ==> (#[trigger] p[j]).len() == 1,
                out@.no_duplicates(),
                out@.to_set() == Set::new(|c: char| exists|j: int| 0 <= j < i && c == ascii_lower(#[trigger] p[j][0])),
            decreases pieces.len() - i,
        {
            let cs = chars_of(pieces[i].as_str());
            assert(cs@ == p[i as int]);
            if cs.len() != 1 {
                assert(!alpha_units_ok(p)) by {
                    assert(p[i as int].len() != 1);
                }
                return Err(());
            }
            let ghost before = out@.to_set();
            push_unique(&mut out, to_ascii_lower(cs[0]));
            proof {
                assert(out@.to_set() =~= Set::new(|c: char| exists|j: int| 0 <= j < i + 1 && c == ascii_lower(#[trigger] p[j][0]))) by {
                    assert forall|c: char| out@.to_set().contains(c) implies exists|j: int| 0 <= j < i + 1 && c == ascii_lower(#[trigger] p[j][0]) by {
                        if c != ascii_lower(p[i as int][0]) {
                            assert(before.contains(c));
                        }
                    }
                }
            }
            i = i + 1;
        }
        proof {
            assert(out@.to_set() =~= alpha_of(p));
        }
        Ok(out)
    }

    /// Reads a state list written `A,B,*C`, where `*` marks an accepting state; letters are
    /// taken in upper case. Returns the states and the accepting states.
    pub fn parse_state_set(states: String) -> (r: Result<(Vec<State>, Vec<State>), ()>)
        ensures
            r is Ok <==> forall|i: int| 0 <= i < split_by(states@, ',').len() ==> state_unit_ok(#[trigger] split_by(states@, ',')[i]),
            r matches Ok(v) ==> v.0@.no_duplicates() && v.1@.no_duplicates()
                && v.0@.to_set() == states_of(split_by(states@, ','))
                && v.1@.to_set() == marked_states_of(split_by(states@, ',')),
    {
        let pieces = split_text(states.as_str(), ',');
        let ghost p = split_by(states@, ',');
        let mut all: Vec<State> = Vec::new();
        let mut ends: Vec<State> = Vec::new();
        let mut i: usize = 0;
        while i < pieces.len()
            invariant
                p == split_by(states@, ','),
                pieces.len() == p.len(),
                forall|j: int| 0 <= j < pieces.len() ==> (#[trigger] pieces@[j])@ == p[j],
                i <= pieces.len(),
                forall|j: int| 0 <= j < i ==> state_unit_ok(#[trigger] p[j]),
                all@.no_duplicates(),
                ends@.no_duplicates(),
                all@.to_set() == Set::new(|c: State| exists|j: int| 0 <= j < i && c == ascii_upper((#[trigger] p[j]).last())),
                ends@.to_set() == Set::new(
                    |c: State| exists|j: int| 0 <= j < i && (#[trigger] p[j]).len() == 2 && c == ascii_upper(p[j][1]),
                ),
            decreases pieces.len() - i,
        {
            let cs = chars_of(pieces[i].as_str());
            assert(cs@ == p[i as int]);
            let ghost all0 = all@.to_set();
            let ghost ends0 = ends@.to_set();
            if cs.len() == 2 && cs[0] == END_STATE_FLAG {
                let q = to_ascii_upper(cs[1]);
                push_unique(&mut all, q);
                push_unique(&mut ends, q);
            } else if cs.len() == 1 {
                let q = to_ascii_upper(cs[0]);
                push_unique(&mut all, q);
                proof {
                    assert(ends@.to_set() =~= Set::new(
                        |c: State| exists|j: int| 0 <= j < i + 1 && (#[trigger] p[j]).len() == 2 && c == ascii_upper(p[j][1]),
                    )) by {
                        assert forall|c: State| (exists|j: int| 0 <= j < i + 1 && (#[trigger] p[j]).len() == 2 && c == ascii_upper(p[j][1])) implies ends0.contains(c) by {
                            let j = choose|j: int| 0 <= j < i + 1 && (#[trigger] p[j]).len() == 2 && c == ascii_upper(p[j][1]);
                            assert(j < i);
                        }
                    }
                }
            } else {
                assert(!state_unit_ok(p[i as int]));
                return Err(());
            }
            proof {
                assert(all@.to_set() =~= Set::new(|c: State| exists|j: int| 0 <= j < i + 1 && c == ascii_upper((#[trigger] p[j]).last()))) by {
                    assert forall|c: State| all@.to_set().contains(c) implies exists|j: int| 0 <= j < i + 1 && c == ascii_upper((#[trigger] p[j]).last()) by {
                        if c != ascii_upper(p[i as int].last()) {
                            assert(all0.contains(c));
                        }
                    }
                }
                assert(ends@.to_set() =~= Set::new(
                    |c: State| exists|j: int| 0 <= j < i + 1 && (#[trigger] p[j]).len() == 2 && c == ascii_upper(p[j][1]),
                )) by {
                    assert forall|c: State| ends@.to_set().contains(c) implies exists|j: int| 0 <= j < i + 1 && (#[trigger] p[j]).len() == 2 && c == ascii_upper(p[j][1]) by {
                        if !ends0.contains(c) {
                            assert(p[i as int].len() == 2);
                        }
                    }
                }
            }
            i = i + 1;
        }
        proof {
            assert(all@.to_set() =~= states_of(p));
            assert(ends@.to_set() =~= marked_states_of(p));
        }
        Ok((all, ends))
    }

    /// Reads a transition list written `A+a=B,B+b=A`; states are taken in upper case and
    /// symbols in lower case.
    pub fn parse_trans(trans: String) -> (r: Result<Vec<(TransFunc, State)>, ()>)
        ensures
            r is Ok <==> forall|i: int| 0 <= i < split_by(trans@, ',').len() ==> trans_unit_ok(#[trigger] split_by(trans@, ',')[i]),
            r matches Ok(v) ==> v.len() == split_by(trans@, ',').len() && forall|i: int|
                0 <= i < v.len() ==> #[trigger] v@[i] == trans_unit(split_by(trans@, ',')[i]),
    {
        let pieces = split_text(trans.as_str(), ',');
        let ghost p = split_by(trans@, ',');
        let mut out: Vec<(TransFunc, State)> = Vec::new();
        let mut i: usize = 0;
        while i < pieces.len()
            invariant
                p == split_by(trans@, ','),
                pieces.len() == p.len(),
                forall|j: int| 0 <= j < pieces.len() ==> (#[trigger] pieces@[j])@ == p[j],
                i <= pieces.len(),
                forall|j: int| 0 <= j < i ==> trans_unit_ok(#[trigger] p[j]),
                out.len() == i,
                forall|j: int| 0 <= j < i ==> #[trigger] out@[j] == trans_unit(p[j]),
            decreases pieces.len() - i,
        {
            let cs = chars_of(pieces[i].as_str());
            assert(cs@ == p[i as int]);
            if cs.len() != 5 || cs[1] != '+' || cs[3] != '=' {
                assert(!trans_unit_ok(p[i as int]));
                return Err(());
            }
            let f = TransFunc::new(to_ascii_upper(cs[0]), to_ascii_lower(cs[2]));
            out.push((f, to_ascii_upper(cs[4])));
            i = i + 1;
        }
        Ok(out)
    }

    /// Reads a start state written `A` or with a one-character prefix, `*A`; taken in upper case.
    pub fn parse_start_state(start: String) -> (r: Result<State, ()>)
        ensures
            r is Ok <==> start@.len() == 1 || start@.len() == 2,
            r matches Ok(q) ==> q == ascii_upper(start@.last()),
    {
        let cs = chars_of(start.as_str());
        if cs.len() == 2 {
            Ok(to_ascii_upper(cs[1]))
        } else if cs.len() == 1 {
            Ok(to_ascii_upper(cs[0]))
        } else {
            Err(())
        }
    }

    /// The automaton that this value stands for.
    pub open(crate) spec fn view(&self) -> AutomatonModel {
        model_of(
            self.alpha@,
            self.state@,
            self.start_state,
            self.end_state_set@,
            self.trans@,
        )
    }

    /// The representation invariant.
    pub open(crate) spec fn wf(&self) -> bool {
        &&& self.alpha@.no_duplicates()
        &&& self.state@.no_duplicates()
        &&& self.end_state_set@.no_duplicates()
        &&& keys_unique(self.trans@)
        &&& build_ok(
            self.alpha@,
            self.state@,
            self.start_state,
            self.end_state_set@,
            self.trans@,
        )
    }

    pub proof fn lemma_wf_model(&self)
        requires
            self.wf(),
        ensures
            model_wf(self@),
    {
        vstd::seq_lib::seq_to_set_is_finite(self.alpha@);
        vstd::seq_lib::seq_to_set_is_finite(self.state@);
        assert forall|k: (State, char)| #[trigger]
            self@.delta.contains_key(k) implies self@.states.contains(k.0)
            && self@.alphabet.contains(k.1) && self@.states.contains(self@.delta[k]) by {
            lemma_trans_map_dom(self.trans@, k);
            let i = choose|i: int|
                0 <= i < self.trans@.len() && entry_key(self.trans@[i]) == k;
            lemma_trans_map_value(self.trans@, i);
            assert(self.state@.contains(self.trans@[i].0.now_state));
        }
        assert forall|q: State| self@.ends.contains(q) implies self@.states.contains(q) by {
            let i = choose|i: int| 0 <= i < self.end_state_set@.len() && self.end_state_set@[i] == q;
            assert(self.state@.contains(self.end_state_set@[i]));
        }
    }

    /// Builds an automaton from its five parts. Repeated set elements are dropped; of two
    /// transitions with the same state and symbol the later one counts.
    pub fn build(
        alpha: Vec<char>,
        state: Vec<State>,
        start_state: State,
        end_state_set: Vec<State>,
        trans: Vec<(TransFunc, State)>,
    ) -> (r: Result<Self, AnalysisError>)
        ensures
            r is Ok <==> build_ok(alpha@, state@, start_state, end_state_set@, trans@),
            r matches Ok(a) ==> a.wf() && a@ == model_of(
                alpha@,
                state@,
                start_state,
                end_state_set@,
                trans@,
            ),
            r matches Err(e) ==> e == AnalysisError::UndeclaredSymbolOrState,
    {
        if !transitions_declared(&alpha, &state, &trans) {
            return Err(AnalysisError::UndeclaredSymbolOrState);
        }
        let mut out: Vec<(TransFunc, State)> = Vec::new();
        let mut i: usize = 0;
        while i < trans.len()
            invariant
                i <= trans.len(),
                keys_unique(out@),
                trans_map(out@) == trans_map(trans@.take(i as int)),
                forall|j: int|
                    0 <= j < out.len() ==> exists|m: int| 0 <= m < i && #[trigger] out@[j] == trans@[m],
            decreases trans.len() - i,
        {
            let (func, target) = trans[i];
            proof {
                assert(trans@.take(i as int + 1).drop_last() =~= trans@.take(i as int));
            }
            let found = find_key(&out, func.now_state, func.input_alpha);
            if let Some(j) = found {
                proof {
                    lemma_trans_map_update(out@, j as int, (func, target));
                }
                let ghost prev = out@;
                out.set(j, (func, target));
                proof {
                    assert forall|a: int| 0 <= a < out.len() implies exists|m: int|
                        0 <= m < i + 1 && #[trigger] out@[a] == trans@[m] by {
                        if a == j {
                            assert(out@[a] == trans@[i as int]);
                        } else {
                            assert(out@[a] == prev[a]);
                        }
                    }
                }
            } else {
                proof {
                    lemma_trans_map_push(out@, (func, target));
                }
                let ghost prev = out@;
                out.push((func, target));
                proof {
                    assert forall|a: int, b: int|
                        0 <= a < out.len() && 0 <= b < out.len() && a != b implies entry_key(
                            out@[a],
                        ) != entry_key(out@[b]) by {
                        if a < prev.len() && b < prev.len() {
                            assert(out@[a] == prev[a] && out@[b] == prev[b]);
                        }
                    }
                    assert forall|a: int| 0 <= a < out.len() implies exists|m: int|
                        0 <= m < i + 1 && #[trigger] out@[a] == trans@[m] by {
                        if a == prev.len() {
                            assert(out@[a] == trans@[i as int]);
                        } else {
                            assert(out@[a] == prev[a]);
                        }
                    }
                }
            }
            i = i + 1;
        }
        proof {
            assert(trans@.take(trans.len() as int) =~= trans@);
        }
        if !contains_char(&state, start_state) {
            return Err(AnalysisError::UndeclaredSymbolOrState);
        }
        let mut e: usize = 0;
        while e < end_state_set.len()
            invariant
                e <= end_state_set.len(),
                forall|j: int| 0 <= j < e ==> state@.contains(#[trigger] end_state_set@[j]),
            decreases end_state_set.len() - e,
        {
            if !contains_char(&state, end_state_set[e]) {
                return Err(AnalysisError::UndeclaredSymbolOrState);
            }
            e = e + 1;
        }
        let alpha_set = dedup_chars(&alpha);
        let state_set = dedup_chars(&state);
        let end_set = dedup_chars(&end_state_set);
        let r = DeterministicFiniteAutomaton {
            alpha: alpha_set,
            state: state_set,
            start_state,
            end_state_set: end_set,
            trans: out,
        };
        proof {
            assert(alpha_set@.to_set() == alpha@.to_set());
            assert(state_set@.to_set() == state@.to_set());
            assert forall|j: int| 0 <= j < end_set@.len() implies state_set@.contains(
                #[trigger] end_set@[j],
            ) by {
                assert(end_set@.to_set().contains(end_set@[j]));
                assert(end_state_set@.to_set().contains(end_set@[j]));
                assert(state@.to_set().contains(end_set@[j]));
                assert(state_set@.to_set().contains(end_set@[j]));
            }
            assert forall|j: int| 0 <= j < out@.len() implies state_set@.contains(
                #[trigger] out@[j].0.now_state,
            ) && state_set@.contains(out@[j].1) && alpha_set@.contains(out@[j].0.input_alpha) by {
                let m = choose|m: int| 0 <= m < trans.len() && out@[j] == trans@[m];
                assert(state@.contains(trans@[m].0.now_state));
                assert(state@.to_set().contains(out@[j].0.now_state));
                assert(state_set@.to_set().contains(out@[j].0.now_state));
                assert(state@.to_set().contains(out@[j].1));
                assert(state_set@.to_set().contains(out@[j].1));
                assert(alpha@.to_set().contains(out@[j].0.input_alpha));
                assert(alpha_set@.to_set().contains(out@[j].0.input_alpha));
            }
            assert(state@.to_set().contains(start_state));
            assert(state_set@.to_set().contains(start_state));
        }
        Ok(r)
    }

    /// The alphabet.
    pub fn alpha(&self) -> (r: &Vec<char>)
        ensures
            r@.to_set() == self@.alphabet,
    {
        &self.alpha
    }

    /// The states.
    pub fn state(&self) -> (r: &Vec<State>)
        ensures
            r@.to_set() == self@.states,
            self.wf() ==> r@.no_duplicates(),
    {
        &self.state
    }

    /// The start state.
    pub fn start_state(&self) -> (r: State)
        ensures
            r == self@.start,
    {
        self.start_state
    }

    /// The accepting states.
    pub fn end_state_set(&self) -> (r: &Vec<State>)
        ensures
            r@.to_set() == self@.ends,
    {
        &self.end_state_set
    }

    /// The transitions.
    pub fn trans(&self) -> (r: &Vec<(TransFunc, State)>)
        ensures
            trans_map(r@) == self@.delta,
            self.wf() ==> keys_unique(r@),
    {
        &self.trans
    }

    /// The target of the transition from `q` on `c`, if there is one.
    pub fn target(&self, q: State, c: char) -> (r: Option<State>)
        requires
            self.wf(),
        ensures
            match r {
                Some(t) => self@.delta.contains_key((q, c)) && self@.delta[(q, c)] == t,
                None => !self@.delta.contains_key((q, c)),
            },
    {
        match find_key(&self.trans, q, c) {
            Some(i) => {
                proof {
                    lemma_trans_map_value(self.trans@, i as int);
                }
                Some(self.trans[i].1)
            },
            None => {
                proof {
                    lemma_trans_map_dom(self.trans@, (q, c));
                }
                None
            },
        }
    }

    /// Whether `q` is an accepting state.
    pub fn is_end_state(&self, q: State) -> (r: bool)
        ensures
            r == self@.ends.contains(q),
    {
        contains_char(&self.end_state_set, q)
    }
}

} // verus!
