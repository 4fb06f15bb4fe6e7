use markov_dist::state::{NonTerminal, State, Terminal};

#[test]
fn on_non_terminal_applies_function_to_active_state() {
    let s = State::NonTerminal(NonTerminal::new(7u64));
    let r = s.on_non_terminal(|n: &NonTerminal<u64>| *n.state() + 1, 0);
    assert_eq!(r, 8);
}

#[test]
fn on_non_terminal_returns_default_for_absorbing_state() {
    let s = State::Terminal(Terminal::new(7u64));
    let r = s.on_non_terminal(|n: &NonTerminal<u64>| *n.state() + 1, 0);
    assert_eq!(r, 0);
}
