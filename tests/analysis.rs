use std::collections::HashSet;
use useless_productions::grammar::Grammar;
use useless_productions::useless::find_useless_productions;

fn names(v: &[&str]) -> Vec<String> {
    v.iter().map(|s| s.to_string()).collect()
}

fn useless_texts(grammar: &Grammar) -> HashSet<String> {
    find_useless_productions(grammar)
        .iter()
        .map(|pr| grammar.production_to_string(pr))
        .collect()
}

fn expected(v: &[&str]) -> HashSet<String> {
    v.iter().map(|s| s.to_string()).collect()
}

#[test]
fn productive_grammar_with_cycles() {
    let mut grammar = Grammar::new("S".to_string());
    grammar.add_production("S".to_string(), names(&["C"]));
    grammar.add_production("S".to_string(), names(&["H"]));
    grammar.add_production("S".to_string(), names(&["X", "E", "G", "b"]));
    grammar.add_production("S".to_string(), names(&["X", "E"]));
    grammar.add_production("C".to_string(), names(&["D"]));
    grammar.add_production("D".to_string(), names(&["a", "S", "b"]));
    grammar.add_production("D".to_string(), names(&["s"]));
    grammar.add_production("D".to_string(), vec![]);
    grammar.add_production("D".to_string(), names(&["a", "F"]));
    grammar.add_production("H".to_string(), names(&["H"]));
    grammar.add_production("H".to_string(), names(&["b", "F"]));
    grammar.add_production("F".to_string(), names(&["F", "a"]));
    grammar.add_production("E".to_string(), names(&["a", "b"]));
    grammar.add_production("E".to_string(), names(&["G"]));
    grammar.add_production("G".to_string(), names(&["a", "G"]));
    grammar.add_production("X".to_string(), names(&["b"]));
    grammar.add_production("X".to_string(), names(&["a"]));
    grammar.add_production("X".to_string(), names(&["Y"]));
    grammar.add_production("Y".to_string(), names(&["a"]));
    grammar.add_production("Y".to_string(), names(&["X"]));

    assert_eq!(
        useless_texts(&grammar),
        expected(&[
            "S -> H",
            "D -> a F",
            "H -> b F",
            "S -> X E G b",
            "H -> H",
            "F -> F a",
            "G -> a G",
            "E -> G",
        ])
    );
}

#[test]
fn self_cycle_without_grounding_is_useless() {
    let mut grammar = Grammar::new("H".to_string());
    grammar.add_production("H".to_string(), names(&["H"]));
    assert_eq!(useless_texts(&grammar), expected(&["H -> H"]));
}

#[test]
fn pure_cycle_is_useless() {
    let mut grammar = Grammar::new("S".to_string());
    grammar.add_production("S".to_string(), names(&["A"]));
    grammar.add_production("A".to_string(), names(&["B"]));
    grammar.add_production("B".to_string(), names(&["S"]));
    assert_eq!(useless_texts(&grammar), expected(&["S -> A", "A -> B", "B -> S"]));
}

#[test]
fn cycle_with_terminal_exit_is_productive() {
    let mut grammar = Grammar::new("S".to_string());
    grammar.add_production("S".to_string(), names(&["A"]));
    grammar.add_production("A".to_string(), names(&["B"]));
    grammar.add_production("B".to_string(), names(&["S"]));
    grammar.add_production("B".to_string(), names(&["c"]));
    assert!(useless_texts(&grammar).is_empty());
}

#[test]
fn and_dependency_needs_every_nonterminal() {
    let mut grammar = Grammar::new("S".to_string());
    grammar.add_production("S".to_string(), names(&["A", "B", "A"]));
    grammar.add_production("A".to_string(), names(&["a"]));
    grammar.add_production("B".to_string(), names(&["b", "B"]));
    assert_eq!(useless_texts(&grammar), expected(&["S -> A B A", "B -> b B"]));
}

#[test]
fn and_dependency_resolved_late() {
    let mut grammar = Grammar::new("S".to_string());
    grammar.add_production("S".to_string(), names(&["A", "B"]));
    grammar.add_production("A".to_string(), names(&["B"]));
    grammar.add_production("B".to_string(), names(&["C", "c"]));
    grammar.add_production("C".to_string(), vec![]);
    assert!(useless_texts(&grammar).is_empty());
}

#[test]
fn terminal_and_empty_bodies_are_never_useless() {
    let mut grammar = Grammar::new("S".to_string());
    grammar.add_production("S".to_string(), names(&["S", "S"]));
    grammar.add_production("T".to_string(), vec![]);
    grammar.add_production("U".to_string(), names(&["x", "y", "z"]));
    let texts = useless_texts(&grammar);
    assert_eq!(texts, expected(&["S -> S S"]));
    assert!(!texts.contains("T -> "));
    assert!(!texts.contains("U -> x y z"));
}

#[test]
fn grounded_grammar_has_no_useless_productions() {
    let mut grammar = Grammar::new("S".to_string());
    grammar.add_production("S".to_string(), names(&["A", "S", "B"]));
    grammar.add_production("S".to_string(), names(&["A"]));
    grammar.add_production("A".to_string(), names(&["a", "A"]));
    grammar.add_production("A".to_string(), names(&["a"]));
    grammar.add_production("B".to_string(), names(&["B", "A"]));
    grammar.add_production("B".to_string(), vec![]);
    assert!(find_useless_productions(&grammar).is_empty());
}

#[test]
fn useless_productions_are_stored_productions() {
    let mut grammar = Grammar::new("S".to_string());
    grammar.add_production("S".to_string(), names(&["A", "b"]));
    grammar.add_production("S".to_string(), names(&["b"]));
    grammar.add_production("A".to_string(), names(&["A"]));
    let all: Vec<_> = grammar.all_productions();
    let useless = find_useless_productions(&grammar);
    assert_eq!(useless.len(), 2);
    for pr in &useless {
        assert!(all.contains(pr));
    }
}

#[test]
fn repeated_analysis_gives_the_same_set() {
    let mut grammar = Grammar::new("S".to_string());
    grammar.add_production("S".to_string(), names(&["H"]));
    grammar.add_production("S".to_string(), names(&["a"]));
    grammar.add_production("H".to_string(), names(&["H", "S"]));
    let first = useless_texts(&grammar);
    let second = useless_texts(&grammar);
    assert_eq!(first, second);
    assert_eq!(first, expected(&["S -> H", "H -> H S"]));
}

#[test]
fn repeated_production_is_reported_once() {
    let mut grammar = Grammar::new("S".to_string());
    grammar.add_production("S".to_string(), names(&["S"]));
    grammar.add_production("S".to_string(), names(&["S"]));
    let useless = find_useless_productions(&grammar);
    assert_eq!(useless.len(), 1);
    assert_eq!(grammar.production_to_string(&useless[0]), "S -> S");
}

#[test]
fn nonterminal_without_productions_makes_its_users_useless() {
    let mut grammar = Grammar::new("S".to_string());
    grammar.add_production("S".to_string(), names(&["a", "Q"]));
    grammar.add_production("S".to_string(), names(&["a"]));
    assert_eq!(useless_texts(&grammar), expected(&["S -> a Q"]));
}
