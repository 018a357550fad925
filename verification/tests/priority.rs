use regex_nfa::expr::Expr;
use regex_nfa::nfa::{ConditionChar, Edge, State, NFA};

#[test]
fn prioritizes_state() {
    let s = State::state(ConditionChar::one('a'), Edge::End);
    assert_eq!(97, s.get_priority_key(&NFA::new()));

    let s = State::state(ConditionChar::Any, Edge::End);
    assert_eq!(0, s.get_priority_key(&NFA::new()));

    let s = State::state(ConditionChar::Epsilon, Edge::End);
    assert_eq!(usize::MAX, s.get_priority_key(&NFA::new()));

    // recursive
    let s = State::state(ConditionChar::Epsilon, Edge::Id(0));
    assert_eq!(
        98,
        s.get_priority_key(&NFA::from_states(vec![
            State::state(ConditionChar::Epsilon, Edge::Id(1)),
            State::state(ConditionChar::one('b'), Edge::End)
        ]))
    );

    // does not infinitely loop (assuming no free cycles)
    let s = State::state(ConditionChar::Epsilon, Edge::Id(0));
    assert_eq!(
        0,
        s.get_priority_key(&NFA::from_states(vec![State::state(
            ConditionChar::Any,
            Edge::Id(0)
        )]))
    );
}

#[test]
fn prioritizes_split() {
    let nfa = NFA::from_states(vec![State::state(ConditionChar::one('a'), Edge::End)]);
    let s = State::split(Edge::Id(0), Edge::End);
    assert_eq!(97, s.get_priority_key(&nfa));

    let s = State::split(Edge::End, Edge::End);
    assert_eq!(usize::MAX, s.get_priority_key(&NFA::new()));

    // recursive
    let s = State::split(Edge::Id(0), Edge::End);
    assert_eq!(
        0,
        s.get_priority_key(&NFA::from_states(vec![
            State::split(Edge::Id(1), Edge::Id(2)),
            State::state(ConditionChar::one('a'), Edge::End),
            State::state(ConditionChar::Any, Edge::End),
        ]))
    );
}

#[test]
fn prioritizes_class_like_any() {
    // a class outranks a literal regardless of its contents
    let s = State::state(ConditionChar::class(vec!['z']), Edge::End);
    assert_eq!(0, s.get_priority_key(&NFA::new()));

    let s = State::state(ConditionChar::class(vec![]), Edge::Detached);
    assert_eq!(0, s.get_priority_key(&NFA::new()));
}

#[test]
fn prioritizes_detached_epsilon_as_dead_end() {
    let s = State::state(ConditionChar::Epsilon, Edge::Detached);
    assert_eq!(usize::MAX, s.get_priority_key(&NFA::new()));

    let s = State::split(Edge::Detached, Edge::Id(0));
    assert_eq!(
        97,
        s.get_priority_key(&NFA::from_states(vec![State::state(
            ConditionChar::one('a'),
            Edge::End
        )]))
    );
}

#[test]
fn prioritizes_compiled_start() {
    // 'a?': the start split prefers entering the literal over skipping it
    let nfa = NFA::from_expr(&Expr::optional(Expr::Single('a')));
    let start = nfa.get_start().unwrap();
    assert_eq!(97, start.get_priority_key(&nfa));
}

#[test]
fn prioritizes_grouped_repetition() {
    // '(ab)*': the loop body consumes, so resolution bottoms out at 'a'
    let nfa = NFA::from_expr(&Expr::zero_or_more(Expr::sequence(
        Expr::Single('a'),
        Expr::Single('b'),
    )));
    let start = nfa.get_start().unwrap();
    assert_eq!(97, start.get_priority_key(&nfa));
}
