use regex_nfa::expr::Expr;
use regex_nfa::nfa::{ConditionChar, Edge, State, NFA};

fn states_of(nfa: &NFA) -> Vec<State> {
    let mut out = Vec::new();
    let mut i = 0;
    while i < nfa.num_states() {
        out.push(nfa.get_state(i).unwrap());
        i += 1;
    }
    out
}

#[test]
fn build_single() {
    let nfa = NFA::from_expr(&Expr::Single('a'));

    assert_eq!(
        vec![State::state(ConditionChar::one('a'), Edge::End)],
        states_of(&nfa)
    );
    assert_eq!(nfa.get_state(0), nfa.get_start());
}

#[test]
fn build_sequence() {
    let nfa = NFA::from_expr(&Expr::sequence(Expr::Single('a'), Expr::Single('b')));

    assert_eq!(
        vec![
            State::state(ConditionChar::one('a'), Edge::Id(1)),
            State::state(ConditionChar::one('b'), Edge::End)
        ],
        states_of(&nfa)
    );
    assert_eq!(nfa.get_state(0), nfa.get_start());
}

#[test]
fn build_option() {
    let nfa = NFA::from_expr(&Expr::optional(Expr::Single('a')));

    assert_eq!(
        vec![
            State::state(ConditionChar::one('a'), Edge::End),
            State::split(Edge::Id(0), Edge::End)
        ],
        states_of(&nfa)
    );
    assert_eq!(nfa.get_state(1), nfa.get_start());
}

#[test]
fn build_complex_option() {
    let nfa = NFA::from_expr(&Expr::sequence(
        Expr::optional(Expr::sequence(Expr::Single('a'), Expr::Single('b'))),
        Expr::Single('a'),
    ));

    assert_eq!(
        vec![
            State::state(ConditionChar::one('a'), Edge::Id(1)),
            State::state(ConditionChar::one('b'), Edge::Id(3)),
            State::split(Edge::Id(0), Edge::Id(3)),
            State::state(ConditionChar::one('a'), Edge::End)
        ],
        states_of(&nfa)
    );
    assert_eq!(nfa.get_state(2), nfa.get_start());
}

#[test]
fn build_one_or_more() {
    let nfa = NFA::from_expr(&Expr::one_or_more(Expr::Single('a')));
    // nfa for 'a+'

    assert_eq!(
        vec![
            State::state(ConditionChar::one('a'), Edge::Id(1)),
            State::split(Edge::Id(0), Edge::End)
        ],
        states_of(&nfa)
    );
    assert_eq!(nfa.get_state(0), nfa.get_start());
}

#[test]
fn build_more_complex_one_or_more() {
    // the tree for "a+a+b"
    let nfa = NFA::from_expr(&Expr::sequence(
        Expr::one_or_more(Expr::Single('a')),
        Expr::sequence(Expr::one_or_more(Expr::Single('a')), Expr::Single('b')),
    ));

    assert_eq!(
        vec![
            State::state(ConditionChar::one('a'), Edge::Id(1)),
            State::split(Edge::Id(0), Edge::Id(2)),
            State::state(ConditionChar::one('a'), Edge::Id(3)),
            State::split(Edge::Id(2), Edge::Id(4)),
            State::state(ConditionChar::one('b'), Edge::End)
        ],
        states_of(&nfa)
    );
    assert_eq!(nfa.get_state(0), nfa.get_start());
}

#[test]
fn build_zero_or_more() {
    let nfa = NFA::from_expr(&Expr::zero_or_more(Expr::Single('a')));
    // 'a*'

    assert_eq!(
        vec![
            State::state(ConditionChar::one('a'), Edge::Id(1)),
            State::split(Edge::Id(0), Edge::End)
        ],
        states_of(&nfa)
    );
    assert_eq!(nfa.get_state(1), nfa.get_start());
}

#[test]
fn build_more_complex_zero_or_more() {
    // the tree for "b*cd*"
    let nfa = NFA::from_expr(&Expr::sequence(
        Expr::zero_or_more(Expr::Single('b')),
        Expr::sequence(Expr::Single('c'), Expr::zero_or_more(Expr::Single('d'))),
    ));

    assert_eq!(
        vec![
            State::state(ConditionChar::one('b'), Edge::Id(1)), // 0
            State::split(Edge::Id(0), Edge::Id(2)),             // 1
            State::state(ConditionChar::one('c'), Edge::Id(4)), // 2
            State::state(ConditionChar::one('d'), Edge::Id(4)), // 3
            State::split(Edge::Id(3), Edge::End)                // 4
        ],
        states_of(&nfa)
    );
    assert_eq!(nfa.get_state(1), nfa.get_start());
}

#[test]
fn build_doesnt_infinite_loop() {
    // the tree for "(ab)*"
    let _nfa = NFA::from_expr(&Expr::zero_or_more(Expr::sequence(
        Expr::Single('a'),
        Expr::Single('b'),
    )));
    // the tree for "..+."
    let _nfa = NFA::from_expr(&Expr::sequence(
        Expr::Any,
        Expr::sequence(Expr::one_or_more(Expr::Any), Expr::Any),
    ));
}

#[test]
fn build_or() {
    let nfa = NFA::from_expr(&Expr::or(Expr::Single('a'), Expr::Single('b')));

    assert_eq!(
        vec![
            State::state(ConditionChar::one('a'), Edge::End),
            State::state(ConditionChar::one('b'), Edge::End),
            State::split(Edge::Id(0), Edge::Id(1))
        ],
        states_of(&nfa)
    );
    assert_eq!(nfa.get_state(2), nfa.get_start());
}

#[test]
fn build_any() {
    let nfa = NFA::from_expr(&Expr::Any);

    assert_eq!(
        vec![State::state(ConditionChar::Any, Edge::End)],
        states_of(&nfa)
    );
}

#[test]
fn build_char_class() {
    let nfa = NFA::from_expr(&Expr::Class(vec!['a', 'b']));

    assert_eq!(
        vec![State::state(ConditionChar::class(vec!['a', 'b']), Edge::End)],
        states_of(&nfa)
    );
}

#[test]
fn build_leaves_nothing_detached() {
    // every state of a compiled automaton is fully wired
    let trees = vec![
        Expr::or(
            Expr::optional(Expr::Single('a')),
            Expr::one_or_more(Expr::Single('b')),
        ),
        Expr::sequence(
            Expr::zero_or_more(Expr::Class(vec!['x', 'y'])),
            Expr::sequence(Expr::Any, Expr::optional(Expr::Single('z'))),
        ),
        Expr::one_or_more(Expr::or(Expr::Single('a'), Expr::Single('b'))),
    ];
    for tree in &trees {
        let nfa = NFA::from_expr(tree);
        assert!(nfa.num_states() > 0);
        assert!(nfa.get_start().is_some());
        let mut i = 0;
        while i < nfa.num_states() {
            match nfa.get_state(i).unwrap() {
                State::State { out, .. } => assert_ne!(out, Edge::Detached),
                State::Split { out1, out2 } => {
                    assert_ne!(out1, Edge::Detached);
                    assert_ne!(out2, Edge::Detached);
                }
            }
            i += 1;
        }
    }
}

#[test]
fn empty_automaton_queries() {
    let nfa = NFA::new();
    assert_eq!(0, nfa.num_states());
    assert_eq!(None, nfa.get_start());
    assert_eq!(None, nfa.get_state(0));

    let nfa = NFA::from_states(vec![State::state(ConditionChar::Any, Edge::End)]);
    assert_eq!(1, nfa.num_states());
    assert_eq!(
        Some(State::state(ConditionChar::Any, Edge::End)),
        nfa.get_start()
    );
    assert_eq!(None, nfa.get_state(1));
}
