use compiler::analysis_error::AnalysisError;
use compiler::deterministic_finite_automaton::{DeterministicFiniteAutomaton, TransFunc};
use compiler::living_dfa::LivingDFA;
use compiler::prediction_analyzer::{ParseStep, PredictionAnalyzer, PredictionAnalyzerInput};
use compiler::pushdown_automaton_grammar::PushDownAutomatonGrammar;
use compiler::regular_grammar::RegularGrammar;
use compiler::utils::{collect_ordered_vec, split_type_two_grammar};

const EMPTY_SENTENCE: &str = "$";

fn arithmetic_table() -> Vec<(PredictionAnalyzerInput, String)> {
    [
        ('E', 'i', "TU"),
        ('T', 'i', "FV"),
        ('F', 'i', "i"),
        ('U', '+', "+TU"),
        ('V', '+', EMPTY_SENTENCE),
        ('V', '*', "*FV"),
        ('E', '(', "TU"),
        ('T', '(', "FV"),
        ('F', '(', "(E)"),
        ('U', ')', EMPTY_SENTENCE),
        ('V', ')', EMPTY_SENTENCE),
        ('U', '#', EMPTY_SENTENCE),
        ('V', '#', EMPTY_SENTENCE),
    ]
    .into_iter()
    .map(|(v_n, v_t, tag)| (PredictionAnalyzerInput::new(v_n, v_t), tag.to_string()))
    .collect::<Vec<_>>()
}

const ARITHMETIC: &str = "E->TU,U->+TU|$,T->FV,V->*FV|$,F->(E)|i";

fn sorted(mut v: Vec<char>) -> Vec<char> {
    v.sort();
    v
}

fn set_of<'a>(sets: &'a [(char, Vec<char>)], key: char) -> Vec<char> {
    sorted(sets.iter().find(|(k, _)| *k == key).expect("non-terminal").1.clone())
}

#[test]
fn test_ll1() {
    let pa = PredictionAnalyzer::new(arithmetic_table(), 'E');
    match pa.analyzer(&"i+i+(i*i+i)+i*(i+i)+(i)".to_string()) {
        Ok(res) => {
            println!("analysis stack is");
            for str in res {
                println!("{str:?}")
            }
        }
        Err(err) => {
            println!("{err:?}");
        }
    };
}

#[test]
fn test_first() {
    let pa = PredictionAnalyzer::new(arithmetic_table(), 'E');
    let pd = PushDownAutomatonGrammar::build_with_case(ARITHMETIC.to_string(), 'E').expect("err");
    assert_eq!(pa, pd.build_ll1_analyzer().expect("SS").0);
}

#[test]
fn arithmetic_sets() {
    let pd = PushDownAutomatonGrammar::build_with_case(ARITHMETIC.to_string(), 'E').unwrap();
    let first = pd.get_first_set().unwrap();
    assert_eq!(set_of(&first, 'F'), sorted(vec!['i', '(']));
    assert_eq!(set_of(&first, 'U'), sorted(vec!['+', '$']));
    assert_eq!(set_of(&first, 'E'), sorted(vec!['i', '(']));
    let follow = pd.get_follow_set(&first);
    let follow_u = set_of(&follow, 'U');
    assert!(follow_u.contains(&'#'));
    assert!(follow_u.contains(&')'));
    assert_eq!(follow_u, sorted(vec!['#', ')']));
    assert_eq!(set_of(&follow, 'V'), sorted(vec!['+', '#', ')']));
    let select = pd.get_select_set(&first, &follow);
    let u_eps = select
        .iter()
        .find(|((l, r), _)| *l == 'U' && r == EMPTY_SENTENCE)
        .expect("U -> $");
    assert_eq!(sorted(u_eps.1.clone()), follow_u);
    let u_plus = select.iter().find(|((l, r), _)| *l == 'U' && r == "+TU").unwrap();
    assert_eq!(u_plus.1, vec!['+']);
}

#[test]
fn arithmetic_parses() {
    let pd = PushDownAutomatonGrammar::build_with_case(ARITHMETIC.to_string(), 'E').unwrap();
    let (pa, _, _, _) = pd.build_ll1_analyzer().unwrap();
    let steps = pa.analyzer(&"i+i*i".to_string()).unwrap();
    assert_eq!(steps.last(), Some(&ParseStep::Accept));
    assert_eq!(steps.iter().filter(|s| matches!(s, ParseStep::Match(_))).count(), 5);
    assert_eq!(steps[0], ParseStep::Expand('E', 'i'));
    assert_eq!(pa.analyzer(&"i+".to_string()), Err(AnalysisError::UnknownTransition { index: 2 }));
    assert_eq!(pa.analyzer(&"".to_string()), Err(AnalysisError::UnknownTransition { index: 0 }));
    assert_eq!(pa.analyzer(&"i)".to_string()), Err(AnalysisError::UnknownTransition { index: 1 }));
}

#[test]
fn left_recursion_is_rejected() {
    let pd = PushDownAutomatonGrammar::build_with_case("A->Ab|c".to_string(), 'A').unwrap();
    assert_eq!(pd.get_first_set(), Err(AnalysisError::LeftRecursiveGrammar));
    assert!(matches!(pd.build_ll1_analyzer(), Err(AnalysisError::LeftRecursiveGrammar)));
    let indirect = PushDownAutomatonGrammar::build_with_case("S->Ab,A->Sa|$".to_string(), 'S').unwrap();
    assert!(matches!(indirect.build_ll1_analyzer(), Err(AnalysisError::LeftRecursiveGrammar)));
}

#[test]
fn select_conflict_is_not_ll1() {
    let pd = PushDownAutomatonGrammar::build_with_case("S->aB|aC,B->b,C->c".to_string(), 'S').unwrap();
    match pd.build_ll1_analyzer() {
        Err(AnalysisError::NotLL1 { non_terminal, first, second }) => {
            assert_eq!(non_terminal, 'S');
            let mut both = vec![first, second];
            both.sort();
            assert_eq!(both, vec!["aB".to_string(), "aC".to_string()]);
        }
        other => panic!("expected NotLL1, got {:?}", other.map(|r| r.0)),
    }
}

#[test]
fn grammar_notation_errors() {
    assert_eq!(
        PushDownAutomatonGrammar::build_with_case("E->TU".to_string(), 'e').err(),
        Some(AnalysisError::MalformedProduction)
    );
    assert_eq!(
        PushDownAutomatonGrammar::build_with_case("E=TU".to_string(), 'E').err(),
        Some(AnalysisError::MalformedProduction)
    );
    assert_eq!(
        PushDownAutomatonGrammar::build_with_case("E->T|".to_string(), 'E').err(),
        Some(AnalysisError::MalformedProduction)
    );
}

#[test]
fn table_equality_ignores_entry_order() {
    let mut reversed = arithmetic_table();
    reversed.reverse();
    assert_eq!(PredictionAnalyzer::new(arithmetic_table(), 'E'), PredictionAnalyzer::new(reversed, 'E'));
    let mut changed = arithmetic_table();
    changed[0].1 = "UT".to_string();
    assert_ne!(PredictionAnalyzer::new(arithmetic_table(), 'E'), PredictionAnalyzer::new(changed, 'E'));
    assert_ne!(PredictionAnalyzer::new(arithmetic_table(), 'E'), PredictionAnalyzer::new(arithmetic_table(), 'T'));
}

#[test]
fn later_table_entry_overrides() {
    let pa = PredictionAnalyzer::new(
        vec![
            (PredictionAnalyzerInput::new('S', 'a'), "a".to_string()),
            (PredictionAnalyzerInput::new('S', 'a'), "aa".to_string()),
        ],
        'S',
    );
    assert_eq!(pa.production_for('S', 'a'), Some("aa".to_string()));
    assert_eq!(pa.production_for('S', 'b'), None);
}

fn regular_dfa() -> DeterministicFiniteAutomaton {
    RegularGrammar::parse_grammar_token_and_build("S->aS|b".to_string(), 'S')
        .unwrap()
        .into_dfa()
        .unwrap()
}

#[test]
fn regular_grammar_language() {
    let mut live = LivingDFA::init(regular_dfa());
    assert_eq!(live.trans_with_str("b"), Ok(true));
    live.reset();
    assert_eq!(live.trans_with_str("aab"), Ok(true));
    live.reset();
    assert_eq!(live.trans_with_str("a"), Ok(false));
    live.reset();
    assert_eq!(live.trans_with_str(""), Ok(false));
    live.reset();
    assert_eq!(live.trans_with_str("ba"), Err(1));
}

#[test]
fn regular_grammar_shape() {
    let dfa = regular_dfa();
    let mut states = dfa.state().clone();
    states.sort();
    assert_eq!(states, vec!['+', 'S']);
    assert_eq!(dfa.end_state_set(), &vec!['+']);
    assert_eq!(dfa.start_state(), 'S');
    let eps = RegularGrammar::parse_grammar_token_and_build("S->aS|$".to_string(), 'S')
        .unwrap()
        .into_dfa()
        .unwrap();
    let mut ends = eps.end_state_set().clone();
    ends.sort();
    assert_eq!(ends, vec!['+', 'S']);
    assert!(RegularGrammar::parse_grammar_token_and_build("S->abc".to_string(), 'S').is_err());
    assert!(RegularGrammar::parse_grammar_token_and_build("S->aS,a->b".to_string(), 'S').is_err());
    let unknown_start = RegularGrammar::parse_grammar_token_and_build("S->b".to_string(), 'X').unwrap();
    assert_eq!(unknown_start.into_dfa().err(), Some(AnalysisError::UndeclaredSymbolOrState));
}

fn redundant_dfa() -> DeterministicFiniteAutomaton {
    let trans = vec![
        (TransFunc::new('A', 'a'), 'B'),
        (TransFunc::new('A', 'b'), 'C'),
        (TransFunc::new('B', 'a'), 'B'),
        (TransFunc::new('B', 'b'), 'C'),
        (TransFunc::new('C', 'a'), 'C'),
        (TransFunc::new('C', 'b'), 'C'),
    ];
    DeterministicFiniteAutomaton::build(vec!['a', 'b'], vec!['C', 'B', 'A'], 'A', vec!['C'], trans).unwrap()
}

#[test]
fn minimization_merges_equivalent_states() {
    let min = redundant_dfa().simplify().unwrap();
    let mut states = min.state().clone();
    states.sort();
    assert_eq!(states, vec!['A', 'C']);
    assert_eq!(min.start_state(), 'A');
    assert_eq!(min.end_state_set(), &vec!['C']);
    let mut trans: Vec<(char, char, char)> =
        min.trans().iter().map(|(f, t)| (f.now_state, f.input_alpha, *t)).collect();
    trans.sort();
    assert_eq!(trans, vec![('A', 'a', 'A'), ('A', 'b', 'C'), ('C', 'a', 'C'), ('C', 'b', 'C')]);
}

#[test]
fn minimization_is_idempotent() {
    let once = redundant_dfa().simplify().unwrap();
    let twice = once.simplify().unwrap();
    assert_eq!(once.state().len(), twice.state().len());
    let mut a = once.state().clone();
    let mut b = twice.state().clone();
    a.sort();
    b.sort();
    assert_eq!(a, b);
}

#[test]
fn minimization_keeps_language() {
    let given = redundant_dfa();
    let min = given.simplify().unwrap();
    for input in ["", "a", "b", "ab", "aab", "ba", "aaa", "abab", "c", "ac"] {
        let mut x = LivingDFA::init(given.clone());
        let mut y = LivingDFA::init(min.clone());
        assert_eq!(x.trans_with_str(input), y.trans_with_str(input), "on {input:?}");
    }
}

#[test]
fn minimization_is_deterministic() {
    let trans = vec![
        (TransFunc::new('C', 'b'), 'C'),
        (TransFunc::new('C', 'a'), 'C'),
        (TransFunc::new('B', 'b'), 'C'),
        (TransFunc::new('B', 'a'), 'B'),
        (TransFunc::new('A', 'b'), 'C'),
        (TransFunc::new('A', 'a'), 'B'),
    ];
    let other = DeterministicFiniteAutomaton::build(vec!['b', 'a'], vec!['A', 'B', 'C'], 'A', vec!['C'], trans).unwrap();
    let m1 = redundant_dfa().simplify().unwrap();
    let m2 = other.simplify().unwrap();
    let mut s1 = m1.state().clone();
    let mut s2 = m2.state().clone();
    s1.sort();
    s2.sort();
    assert_eq!(s1, s2);
    assert_eq!(m1.start_state(), m2.start_state());
}

#[test]
fn minimization_needs_a_total_automaton() {
    let partial = DeterministicFiniteAutomaton::build(
        vec!['a', 'b'],
        vec!['A', 'B'],
        'A',
        vec!['B'],
        vec![(TransFunc::new('A', 'a'), 'B')],
    )
    .unwrap();
    assert_eq!(partial.simplify().err(), Some(AnalysisError::IncompleteAutomaton));
}

#[test]
fn minimization_keeps_distinct_states() {
    // Every state distinguishes itself: counting a's modulo three.
    let trans = vec![
        (TransFunc::new('A', 'a'), 'B'),
        (TransFunc::new('B', 'a'), 'C'),
        (TransFunc::new('C', 'a'), 'A'),
    ];
    let dfa = DeterministicFiniteAutomaton::build(vec!['a'], vec!['A', 'B', 'C'], 'A', vec!['A'], trans).unwrap();
    assert_eq!(dfa.simplify().unwrap().state().len(), 3);
}

#[test]
fn build_rejects_undeclared_parts() {
    let bad_target = DeterministicFiniteAutomaton::build(
        vec!['a'],
        vec!['A'],
        'A',
        vec![],
        vec![(TransFunc::new('A', 'a'), 'Z')],
    );
    assert_eq!(bad_target.err(), Some(AnalysisError::UndeclaredSymbolOrState));
    let bad_symbol = DeterministicFiniteAutomaton::build(
        vec!['a'],
        vec!['A'],
        'A',
        vec![],
        vec![(TransFunc::new('A', 'b'), 'A')],
    );
    assert_eq!(bad_symbol.err(), Some(AnalysisError::UndeclaredSymbolOrState));
    let bad_start = DeterministicFiniteAutomaton::build(vec!['a'], vec!['A'], 'Q', vec![], vec![]);
    assert_eq!(bad_start.err(), Some(AnalysisError::UndeclaredSymbolOrState));
}

#[test]
fn reset_after_failed_run_restores_start_acceptance() {
    let mut live = LivingDFA::init(regular_dfa());
    assert_eq!(live.trans_with_str("ab"), Ok(true));
    assert_eq!(live.trans_with_str("x"), Err(0));
    live.reset();
    assert!(!live.try_to_accept());
    assert_eq!(live.current_state(), 'S');
    let accepting_start = RegularGrammar::parse_grammar_token_and_build("S->aS|$".to_string(), 'S')
        .unwrap()
        .into_dfa()
        .unwrap();
    let mut live = LivingDFA::init(accepting_start);
    assert_eq!(live.trans_with_str("ab"), Err(1));
    live.reset();
    assert!(live.try_to_accept());
}

#[test]
fn single_steps() {
    let mut live = LivingDFA::init(regular_dfa());
    assert_eq!(live.trans('a'), Ok(()));
    assert_eq!(live.current_state(), 'S');
    assert_eq!(live.trans('b'), Ok(()));
    assert_eq!(live.current_state(), '+');
    assert_eq!(live.trans('b'), Err(()));
    assert_eq!(live.current_state(), '+');
    assert!(live.try_to_accept());
}

#[test]
fn automaton_notation() {
    let mut alpha = DeterministicFiniteAutomaton::parse_alpha_table("a,B,a".to_string()).unwrap();
    alpha.sort();
    assert_eq!(alpha, vec!['a', 'b']);
    assert!(DeterministicFiniteAutomaton::parse_alpha_table("ab,c".to_string()).is_err());
    let (mut states, ends) = DeterministicFiniteAutomaton::parse_state_set("a,B,*c".to_string()).unwrap();
    states.sort();
    assert_eq!(states, vec!['A', 'B', 'C']);
    assert_eq!(ends, vec!['C']);
    assert!(DeterministicFiniteAutomaton::parse_state_set("A,#B".to_string()).is_err());
    let trans = DeterministicFiniteAutomaton::parse_trans("a+A=b,B+b=A".to_string()).unwrap();
    assert_eq!(trans, vec![(TransFunc::new('A', 'a'), 'B'), (TransFunc::new('B', 'b'), 'A')]);
    assert!(DeterministicFiniteAutomaton::parse_trans("A+a-B".to_string()).is_err());
    assert_eq!(DeterministicFiniteAutomaton::parse_start_state("a".to_string()), Ok('A'));
    assert_eq!(DeterministicFiniteAutomaton::parse_start_state("*b".to_string()), Ok('B'));
    assert!(DeterministicFiniteAutomaton::parse_start_state("abc".to_string()).is_err());
}

#[test]
fn rule_split() {
    assert_eq!(split_type_two_grammar("S->aS|b".to_string()), Ok(('S', "aS|b".to_string())));
    assert_eq!(split_type_two_grammar("S-aS".to_string()), Err(()));
    assert_eq!(split_type_two_grammar("SS->a".to_string()), Err(()));
    assert_eq!(split_type_two_grammar("S->a->b".to_string()), Ok(('S', "a".to_string())));
    assert_eq!(split_type_two_grammar("S->".to_string()), Ok(('S', "".to_string())));
}

#[test]
fn ordered_symbols() {
    assert_eq!(collect_ordered_vec(vec!['c', 'a', 'b', 'a']), vec!['a', 'a', 'b', 'c']);
    assert_eq!(collect_ordered_vec(vec![]), Vec::<char>::new());
    assert_eq!(collect_ordered_vec(vec!['Z', 'a', '+']), vec!['+', 'Z', 'a']);
}

#[test]
fn long_sentence_parses_to_the_end() {
    let pd = PushDownAutomatonGrammar::build_with_case(ARITHMETIC.to_string(), 'E').unwrap();
    let (pa, _, _, _) = pd.build_ll1_analyzer().unwrap();
    let copies = 250_000;
    let mut sentence = "i+".repeat(copies);
    sentence.push('i');
    let steps = pa.analyzer(&sentence).unwrap();
    assert!(steps.len() > 1_000_000);
    assert_eq!(steps.last(), Some(&ParseStep::Accept));
    let broken = "i+".repeat(copies);
    assert_eq!(pa.analyzer(&broken), Err(AnalysisError::UnknownTransition { index: 2 * copies }));
}
