use automata::action::Action;
use automata::dfa::{Dfa, DfaError};
use automata::graph::Graph;
use automata::matches::{Cursor, Matcher, Matches};
use automata::nfa::Nfa;
use automata::state_machine::StateMachine;
use std::cmp::Ordering;

fn symbols(s: &str) -> Vec<Action> {
    s.chars().map(Action::Single).collect()
}

fn sample_dfa() -> Dfa {
    let mut dfa = Dfa::new(1);
    dfa.add_end_state(2);
    dfa.add_end_state(1);
    dfa.add_edges(1, Action::Single('b'), 1).unwrap();
    dfa.add_edges(1, Action::Range('d', 'y'), 3).unwrap();
    dfa.add_edges(3, Action::Single('1'), 1).unwrap();
    dfa.add_edges(3, Action::Single('2'), 1).unwrap();
    dfa
}

fn sorted(mut v: Vec<usize>) -> Vec<usize> {
    v.sort();
    v
}

#[test]
fn dfa_macro() {
    let dfa = sample_dfa();
    let mut matches = Matches::new(&dfa, Cursor::new(symbols("123456")));
    assert_eq!(matches.collect_all(), Vec::<Vec<Action>>::new());
}

#[test]
fn input_ending_in_accepting_state_gives_no_match() {
    let dfa = sample_dfa();
    let mut cursor = Cursor::new(symbols("d1"));
    assert_eq!(dfa.match_next(&mut cursor), None);
    assert_eq!(cursor.remaining(), 0);
}

#[test]
fn run_ended_by_dead_symbol_is_returned() {
    let dfa = sample_dfa();
    let mut cursor = Cursor::new(symbols("d1z"));
    let r = dfa.match_next(&mut cursor).unwrap();
    assert!(matches!(r[..], [Action::Single('d'), Action::Single('1')]));
    assert_eq!(cursor.remaining(), 0);
}

#[test]
fn run_ending_outside_accepting_state_is_rejected() {
    let dfa = sample_dfa();
    let mut cursor = Cursor::new(symbols("dz"));
    assert!(!dfa.check(&mut cursor));
}

#[test]
fn successive_matches_take_disjoint_runs() {
    let dfa = sample_dfa();
    let mut matches = Matches::new(&dfa, Cursor::new(symbols("x1!e2!")));
    let first = matches.next().unwrap();
    assert!(matches!(first[..], [Action::Single('x'), Action::Single('1')]));
    let second = matches.next().unwrap();
    assert!(matches!(second[..], [Action::Single('e'), Action::Single('2')]));
    assert_eq!(matches.next(), None);
    assert_eq!(matches.into_cursor().remaining(), 0);
}

#[test]
fn determine_nfa() {
    let mut nfa = Nfa::new(1);
    nfa.add_edges(1, None, 2);
    nfa.add_edges(2, Some(Action::Single('a')), 3);
    nfa.add_end_state(3);
    let dfa = Dfa::from_nfa(&nfa);
    assert_eq!(dfa.states_len(), 2);
    let start = dfa.start_of();
    assert_eq!(start, 0);
    assert!(!dfa.is_end(&start));
    let next = dfa.next_state(&start, &Action::Single('a')).unwrap();
    assert_eq!(next, 1);
    assert!(dfa.is_end(&next));
    let mut cursor = Cursor::new(symbols("ab"));
    let r = dfa.match_next(&mut cursor).unwrap();
    assert!(matches!(r[..], [Action::Single('a')]));
}

#[test]
fn determinized_dfa_handles_epsilon_cycles() {
    let mut nfa = Nfa::new(1);
    nfa.add_edges(1, None, 2);
    nfa.add_edges(2, None, 1);
    nfa.add_edges(2, Some(Action::Range('a', 'c')), 3);
    nfa.add_edges(3, Some(Action::Single('x')), 4);
    nfa.add_end_state(4);
    let dfa = Dfa::from_nfa(&nfa);
    assert_eq!(dfa.states_len(), 3);
    let s1 = dfa.next_state(&0, &Action::Single('b')).unwrap();
    assert!(!dfa.is_end(&s1));
    let s2 = dfa.next_state(&s1, &Action::Single('x')).unwrap();
    assert!(dfa.is_end(&s2));
    assert_eq!(dfa.next_state(&0, &Action::Single('z')), None);
}

#[test]
fn closure_calculate() {
    let mut nfa = Nfa::new(1);
    nfa.add_edges(1, None, 2);
    nfa.add_edges(2, None, 3);
    nfa.add_edges(3, None, 1);
    nfa.add_edges(3, Some(Action::Single('a')), 4);
    nfa.add_edges(4, None, 5);
    assert_eq!(sorted(nfa.closure(&1)), vec![1, 2, 3]);
    assert_eq!(sorted(nfa.closure(&4)), vec![5]);
    assert_eq!(nfa.closure(&5), Vec::<usize>::new());
}

#[test]
fn closure_excludes_start_without_cycle() {
    let mut nfa = Nfa::new(1);
    nfa.add_edges(1, None, 2);
    nfa.add_edges(2, None, 3);
    let c = sorted(nfa.closure(&1));
    assert_eq!(c, vec![2, 3]);
    for t in c {
        for u in nfa.closure(&t) {
            assert!(nfa.closure(&1).contains(&u));
        }
    }
}

#[test]
fn nfa_match() {
    let mut nfa = Nfa::new(1);
    nfa.add_edges(1, Some(Action::Single('a')), 2);
    nfa.add_edges(1, Some(Action::Single('a')), 3);
    nfa.add_edges(1, Some(Action::Range('m', 'p')), 4);
    nfa.add_end_state(3);
    assert_eq!(sorted(nfa.move_t(&1, &Action::Single('a'))), vec![2, 3]);
    assert_eq!(nfa.move_t(&1, &Action::Single('n')), Vec::<usize>::new());
    assert_eq!(nfa.move_t(&1, &Action::Range('m', 'p')), vec![4]);
    assert_eq!(nfa.next_state(&1, &Some(Action::Single('n'))), Some(vec![4]));
    assert_eq!(nfa.next_state(&1, &None), None);
    assert!(nfa.is_end(&3));
    assert!(!nfa.is_end(&2));
}

#[test]
fn nfa_builders_report_novelty() {
    let mut nfa = Nfa::with_capacity(0, 4, 4);
    assert!(nfa.add_states(7));
    assert!(!nfa.add_states(7));
    assert!(nfa.add_end_state(7));
    assert!(!nfa.add_end_state(7));
    nfa.add_edges(0, Some(Action::Range('a', 'z')), 1);
    nfa.add_edges(0, Some(Action::Single('q')), 2);
    nfa.add_edges(0, Some(Action::Single('0')), 2);
    nfa.add_edges(0, None, 3);
    assert_eq!(nfa.path_len(), 2);
}

#[test]
fn macro_expand() {
    let mut graph = Graph::new();
    graph.add_edge((1, 'a'), 3);
    graph.add_edge((1, 'b'), 4);
    graph.add_edge((2, 'c'), 5);
    assert_eq!(graph.next_state(1, 'a'), Some(vec![3]));
    assert_eq!(graph.next_state(2, 'c'), Some(vec![5]));
    assert_eq!(graph.next_state(2, 'a'), None);
}

#[test]
fn graph_collects_destinations() {
    let mut graph = Graph::with_capaticy(4);
    graph.add_edge((1, 'a'), 3);
    graph.add_edge((1, 'a'), 4);
    graph.add_edge((1, 'a'), 3);
    assert_eq!(sorted(graph.next_state(1, 'a').unwrap()), vec![3, 4]);
}

#[test]
fn conflicting_edge_is_refused() {
    let mut dfa = Dfa::with_capacity(0, 1, 1);
    assert!(dfa.add_edges(0, Action::Range('a', 'c'), 1).is_ok());
    assert_eq!(dfa.add_edges(0, Action::Single('b'), 2), Err(DfaError::InvalidRelationship));
    assert_eq!(dfa.add_edges(0, Action::Range('a', 'c'), 2), Err(DfaError::InvalidRelationship));
    assert!(dfa.add_edges(0, Action::Single('d'), 2).is_ok());
    assert!(dfa.add_edges(1, Action::Single('b'), 2).is_ok());
    assert_eq!(dfa.next_state(&0, &Action::Single('b')), Some(1));
    assert_eq!(dfa.next_state(&0, &Action::Single('d')), Some(2));
}

#[test]
fn add_pattern_stops_at_first_conflict() {
    let mut dfa = Dfa::new(0);
    dfa.add_edges(0, Action::Single('c'), 5).unwrap();
    let pattern = [Action::Single('a'), Action::Single('c'), Action::Single('e')];
    assert_eq!(dfa.add_pattern(0, &pattern, 1), Err(DfaError::InvalidRelationship));
    assert_eq!(dfa.next_state(&0, &Action::Single('a')), Some(1));
    assert_eq!(dfa.next_state(&0, &Action::Single('e')), None);
    assert!(dfa.add_pattern(2, &pattern, 3).is_ok());
    assert_eq!(dfa.next_state(&2, &Action::Single('e')), Some(3));
}

#[test]
fn edge_order_does_not_matter() {
    let edges = [
        (0, Action::Single('a'), 1),
        (0, Action::Range('b', 'f'), 2),
        (1, Action::Single('a'), 0),
    ];
    let mut forward = Dfa::new(0);
    for (f, a, t) in edges.iter() {
        forward.add_edges(*f, *a, *t).unwrap();
    }
    let mut backward = Dfa::new(0);
    for (f, a, t) in edges.iter().rev() {
        backward.add_edges(*f, *a, *t).unwrap();
    }
    for c in ['a', 'b', 'e', 'g'] {
        for s in [0usize, 1] {
            assert_eq!(
                forward.next_state(&s, &Action::Single(c)),
                backward.next_state(&s, &Action::Single(c))
            );
        }
    }
}

#[test]
fn containment_equality() {
    assert!(Action::Range('d', 'y').eq_value(&'d'));
    assert!(Action::Range('d', 'y').eq_value(&'y'));
    assert!(!Action::Range('d', 'y').eq_value(&'z'));
    assert!(Action::Single('x').eq_value(&'x'));
    assert!(!Action::Single('x').eq_value(&'y'));
    assert!(Action::Range('a', 'c') == Action::Single('b'));
    assert!(Action::Single('b') == Action::Range('a', 'c'));
    assert!(Action::Range('a', 'c') != Action::Range('a', 'd'));
    assert!(Action::Range('a', 'c').identical(&Action::Range('a', 'c')));
    assert!(!Action::Range('a', 'c').identical(&Action::Single('b')));
}

#[test]
fn value_order_convention() {
    let r = Action::Range('d', 'y');
    assert_eq!(r.cmp_value(&'m'), Ordering::Equal);
    assert_eq!(r.cmp_value(&'z'), Ordering::Less);
    assert_eq!(r.cmp_value(&'a'), Ordering::Greater);
    assert_eq!(Action::Single('m').cmp_value(&'n'), Ordering::Less);
    assert_eq!(Action::Single('m').cmp_value(&'m'), Ordering::Equal);
}

#[test]
fn label_order() {
    let wide = Action::Range('a', 'z');
    let narrow = Action::Range('b', 'c');
    assert_eq!(wide.cmp(&narrow), Ordering::Greater);
    assert_eq!(narrow.cmp(&wide), Ordering::Less);
    assert_eq!(wide.cmp(&Action::Range('a', 'z')), Ordering::Equal);
    assert_eq!(narrow.cmp(&Action::Single('b')), Ordering::Equal);
    assert_eq!(narrow.cmp(&Action::Single('x')), Ordering::Less);
    assert_eq!(Action::Single('x').cmp(&narrow), Ordering::Greater);
    assert_eq!(narrow.cmp(&Action::Single('a')), Ordering::Greater);
    let r = Action::Range('d', 'y');
    assert_eq!(r.cmp(&Action::Single('z')), Ordering::Less);
    assert_eq!(Action::Single('z').cmp(&r), Ordering::Greater);
    assert_eq!(Action::Single('m').cmp(&r), Ordering::Equal);
    assert_eq!(Action::Single('a').cmp(&narrow), Ordering::Less);
    assert_eq!(Action::Single('a').cmp(&Action::Single('b')), Ordering::Less);
}

#[test]
fn optimize_changes_nothing() {
    let mut dfa = sample_dfa();
    dfa.optimize();
    assert_eq!(dfa.next_state(&1, &Action::Single('e')), Some(3));
    assert!(dfa.is_end(&1));
}

#[test]
fn from_edges_builds_or_refuses() {
    let ok = Dfa::from_edges(vec![(0, Action::Single('a'), 1), (1, Action::Range('0', '9'), 1)]).unwrap();
    assert_eq!(ok.start_of(), 0);
    assert_eq!(ok.next_state(&1, &Action::Single('5')), Some(1));
    assert_eq!(ok.next_state(&0, &Action::Single('a')), Some(1));
    let bad = Dfa::from_edges(vec![(0, Action::Range('a', 'f'), 1), (0, Action::Single('c'), 2)]);
    assert!(matches!(bad, Err(DfaError::InvalidRelationship)));
}

#[test]
fn matches_collects_every_run() {
    let dfa = sample_dfa();
    let mut m = dfa.matches(Cursor::new(symbols("1x1!e2!d")));
    let all = m.collect_all();
    assert_eq!(all.len(), 2);
    assert!(matches!(all[0][..], [Action::Single('x'), Action::Single('1')]));
    assert!(matches!(all[1][..], [Action::Single('e'), Action::Single('2')]));
}

#[test]
fn determinized_dfa_accepts_what_nfa_accepts() {
    let mut nfa = Nfa::new(1);
    nfa.add_edges(1, Some(Action::Single('a')), 2);
    nfa.add_edges(2, Some(Action::Single('b')), 3);
    nfa.add_end_state(3);
    let dfa = Dfa::from_nfa(&nfa);
    let s1 = dfa.next_state(&0, &Action::Single('a')).unwrap();
    let s2 = dfa.next_state(&s1, &Action::Single('b')).unwrap();
    assert!(dfa.is_end(&s2));
    assert!(!dfa.is_end(&s1));
}

#[test]
fn successor_sets_keep_their_source_states() {
    let mut nfa = Nfa::new(1);
    nfa.add_edges(1, Some(Action::Single('a')), 2);
    nfa.add_end_state(2);
    let dfa = Dfa::from_nfa(&nfa);
    assert_eq!(dfa.states_len(), 2);
    let s1 = dfa.next_state(&0, &Action::Single('a')).unwrap();
    let s2 = dfa.next_state(&s1, &Action::Single('a')).unwrap();
    assert_eq!(s1, s2);
    assert!(dfa.is_end(&s2));
}
