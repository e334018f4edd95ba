use vstd::prelude::*;

use crate::deterministic_finite_automaton::{
    run_from, AutomatonModel, DeterministicFiniteAutomaton, State,
};
use crate::utils::chars_of;

verus! {

/// An automaton together with the state it is in.
pub struct LiveModel {
    pub dfa: AutomatonModel,
    pub current: State,
}

/// Reading `a` and then `b` is reading `a + b`.
pub proof fn lemma_run_append(d: Map<(State, char), State>, q: State, a: Seq<char>, b: Seq<char>)
    ensures
        run_from(d, q, a + b) == match run_from(d, q, a) {
            Some(p) => run_from(d, p, b),
            None => None,
        },
    decreases a.len(),
{
    if a.len() > 0 {
        assert((a + b)[0] == a[0]);
        assert((a + b).subrange(1, (a + b).len() as int) =~= a.subrange(1, a.len() as int) + b);
        if d.contains_key((q, a[0])) {
            lemma_run_append(d, d[(q, a[0])], a.subrange(1, a.len() as int), b);
        }
    } else {
        assert(a + b =~= b);
    }
}

/// Reading one symbol.
pub proof fn lemma_run_single(d: Map<(State, char), State>, q: State, c: char)
    ensures
        run_from(d, q, seq![c]) == if d.contains_key((q, c)) {
            Some(d[(q, c)])
        } else {
            None
        },
{
    let s = seq![c];
    assert(s[0] == c);
    assert(s.subrange(1, 1) =~= Seq::<char>::empty());
    if d.contains_key((q, c)) {
        assert(run_from(d, d[(q, c)], Seq::<char>::empty()) == Some(d[(q, c)]));
    }
}

/// The state a live automaton returns to on `reset`.
pub open spec fn reset_model(v: LiveModel) -> LiveModel {
    LiveModel { dfa: v.dfa, current: v.dfa.start }
}

/// Whether a live automaton is in an accepting state.
pub open spec fn accepting(v: LiveModel) -> bool {
    v.dfa.ends.contains(v.current)
}

/// After `reset`, whatever came before, the acceptance check reports what it reports in the
/// start state.
pub proof fn lemma_reset_restores_start_acceptance(v: LiveModel)
    ensures
        accepting(reset_model(v)) == v.dfa.ends.contains(v.dfa.start),
        reset_model(v).dfa == v.dfa,
{
}

/// An automaton driven one symbol at a time.
pub struct LivingDFA {
    now_state: State,
    dfa: DeterministicFiniteAutomaton,
}

impl LivingDFA {
    pub closed spec fn view(&self) -> LiveModel {
        LiveModel { dfa: self.dfa@, current: self.now_state }
    }

    /// The wrapped automaton is well formed and the current state is one of its states.
    pub closed spec fn wf(&self) -> bool {
        self.dfa.wf() && self.dfa@.states.contains(self.now_state)
    }

    /// Starts the automaton in its start state.
    pub fn init(dfa: DeterministicFiniteAutomaton) -> (r: Self)
        requires
            dfa.wf(),
        ensures
            r.wf(),
            r@ == (LiveModel { dfa: dfa@, current: dfa@.start }),
    {
        proof {
            dfa.lemma_wf_model();
        }
        let now_state = dfa.start_state();
        LivingDFA { now_state, dfa }
    }

    /// Reads one symbol: moves along its transition, or fails and stays where it is.
    pub fn trans(&mut self, alpha: char) -> (r: Result<(), ()>)
        requires
            old(self).wf(),
        ensures
            final(self).wf(),
            final(self)@.dfa == old(self)@.dfa,
            r is Ok <==> old(self)@.dfa.delta.contains_key((old(self)@.current, alpha)),
            r is Ok ==> final(self)@.current == old(self)@.dfa.delta[(old(self)@.current, alpha)],
            r is Err ==> final(self)@ == old(self)@,
    {
        proof {
            self.dfa.lemma_wf_model();
        }
        match self.dfa.target(self.now_state, alpha) {
            Some(next) => {
                self.now_state = next;
                Ok(())
            },
            None => Err(()),
        }
    }

    /// Reads a string symbol by symbol. On the first symbol without a transition it stops and
    /// returns that symbol's index, keeping the moves made before it; otherwise it returns
    /// whether the state reached accepts.
    pub fn trans_with_str(&mut self, input: &str) -> (r: Result<bool, usize>)
        requires
            old(self).wf(),
        ensures
            final(self).wf(),
            final(self)@.dfa == old(self)@.dfa,
            r is Ok <==> run_from(old(self)@.dfa.delta, old(self)@.current, input@) is Some,
            r matches Ok(b) ==> run_from(old(self)@.dfa.delta, old(self)@.current, input@) == Some(
                final(self)@.current,
            ) && b == old(self)@.dfa.ends.contains(final(self)@.current),
            r matches Err(i) ==> i < input@.len() && run_from(
                old(self)@.dfa.delta,
                old(self)@.current,
                input@.take(i as int),
            ) == Some(final(self)@.current) && !old(self)@.dfa.delta.contains_key(
                (final(self)@.current, input@[i as int]),
            ),
    {
        let symbols = chars_of(input);
        let ghost d = self@.dfa.delta;
        let ghost q0 = self@.current;
        let mut i: usize = 0;
        while i < symbols.len()
            invariant
                self.wf(),
                self@.dfa == old(self)@.dfa,
                d == old(self)@.dfa.delta,
                q0 == old(self)@.current,
                symbols@ == input@,
                i <= symbols.len(),
                run_from(d, q0, input@.take(i as int)) == Some(self@.current),
            decreases symbols.len() - i,
        {
            let ghost before = self@.current;
            proof {
                lemma_run_append(d, q0, input@.take(i as int), seq![input@[i as int]]);
                assert(input@.take(i as int) + seq![input@[i as int]] =~= input@.take(i as int + 1));
                lemma_run_single(d, before, input@[i as int]);
            }
            if self.trans(symbols[i]).is_err() {
                proof {
                    lemma_run_append(d, q0, input@.take(i as int), input@.skip(i as int));
                    assert(input@.take(i as int) + input@.skip(i as int) =~= input@);
                    assert(input@.skip(i as int)[0] == input@[i as int]);
                }
                return Err(i);
            }
            i = i + 1;
        }
        proof {
            assert(input@.take(i as int) =~= input@);
        }
        Ok(self.try_to_accept())
    }

    /// Whether the current state accepts.
    pub fn try_to_accept(&self) -> (r: bool)
        ensures
            r == accepting(self@),
    {
        self.dfa.is_end_state(self.now_state)
    }

    /// Goes back to the start state.
    pub fn reset(&mut self)
        requires
            old(self).wf(),
        ensures
            final(self).wf(),
            final(self)@ == reset_model(old(self)@),
    {
        proof {
            self.dfa.lemma_wf_model();
        }
        self.now_state = self.dfa.start_state();
    }

    /// The state the automaton is in.
    pub fn current_state(&self) -> (r: State)
        ensures
            r == self@.current,
    {
        self.now_state
    }
}

} // verus!
