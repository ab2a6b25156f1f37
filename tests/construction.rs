use useless_productions::grammar::{Grammar, GrammarError, ProductionReference, Symbol};

fn names(v: &[&str]) -> Vec<String> {
    v.iter().map(|s| s.to_string()).collect()
}

fn id(grammar: &Grammar, name: &str) -> usize {
    grammar.symbol_id(&name.to_string()).unwrap()
}

#[test]
fn new_grammar_holds_only_its_start_symbol() {
    let grammar = Grammar::new("S".to_string());
    assert_eq!(grammar.symbol_count(), 1);
    let s = id(&grammar, "S");
    assert!(grammar.is_starting_symbol(s));
    assert_eq!(grammar.start_symbol(), s);
    assert!(grammar.symbol(s).is_nonterminal());
    assert!(grammar.all_productions().is_empty());
}

#[test]
fn names_are_classified_by_their_initial() {
    let mut grammar = Grammar::new("S".to_string());
    grammar.add_production("S".to_string(), names(&["A", "b", "Cd", "e"]));
    assert!(grammar.symbol(id(&grammar, "A")).is_nonterminal());
    assert!(grammar.symbol(id(&grammar, "Cd")).is_nonterminal());
    assert!(grammar.symbol(id(&grammar, "b")).is_terminal());
    assert!(grammar.symbol(id(&grammar, "e")).is_terminal());
    assert!(!grammar.is_starting_symbol(id(&grammar, "A")));
    assert_eq!(grammar.symbol_count(), 5);
}

#[test]
fn interning_returns_the_same_symbol() {
    let mut grammar = Grammar::new("S".to_string());
    grammar.add_production("S".to_string(), names(&["a", "S", "a"]));
    let all = grammar.all_productions();
    assert_eq!(all.len(), 1);
    assert_eq!(all[0].body[0], all[0].body[2]);
    assert_eq!(all[0].body[1], all[0].head);
    assert_eq!(grammar.symbol_count(), 2);
}

#[test]
fn classification_is_sticky() {
    let mut grammar = Grammar::new("S".to_string());
    grammar.add_production("S".to_string(), names(&["a"]));
    grammar.add_production("a".to_string(), names(&["b"]));
    let a = id(&grammar, "a");
    assert!(grammar.symbol(a).is_terminal());
    assert_eq!(grammar.productions_for(a), Err(GrammarError::InvalidSymbolKind));

    grammar.add_production("x".to_string(), vec![]);
    grammar.add_production("S".to_string(), names(&["x"]));
    assert!(grammar.symbol(id(&grammar, "x")).is_nonterminal());
}

#[test]
fn productions_for_a_terminal_fail() {
    let mut grammar = Grammar::new("S".to_string());
    grammar.add_production("S".to_string(), names(&["t"]));
    let t = id(&grammar, "t");
    assert_eq!(grammar.productions_for(t), Err(GrammarError::InvalidSymbolKind));
}

#[test]
fn productions_for_an_unknown_nonterminal_fail() {
    let mut grammar = Grammar::new("S".to_string());
    let s = id(&grammar, "S");
    assert_eq!(grammar.productions_for(s), Err(GrammarError::UnknownNonTerminal));
    grammar.add_production("S".to_string(), names(&["A"]));
    let a = id(&grammar, "A");
    assert_eq!(grammar.productions_for(a), Err(GrammarError::UnknownNonTerminal));
}

#[test]
fn productions_for_keep_insertion_order() {
    let mut grammar = Grammar::new("S".to_string());
    grammar.add_production("S".to_string(), names(&["a"]));
    grammar.add_production("A".to_string(), names(&["b"]));
    grammar.add_production("S".to_string(), vec![]);
    grammar.add_production("S".to_string(), names(&["A", "a"]));
    let s = id(&grammar, "S");
    let a = id(&grammar, "A");
    let ta = id(&grammar, "a");
    let bodies = grammar.productions_for(s).unwrap();
    assert_eq!(bodies, vec![vec![ta], vec![], vec![a, ta]]);
    assert_eq!(grammar.productions_for(a).unwrap().len(), 1);
}

#[test]
fn all_productions_lists_every_insertion() {
    let mut grammar = Grammar::new("S".to_string());
    grammar.add_production("S".to_string(), names(&["a"]));
    grammar.add_production("S".to_string(), names(&["a"]));
    grammar.add_production("B".to_string(), vec![]);
    let all = grammar.all_productions();
    assert_eq!(all.len(), 3);
    let s = id(&grammar, "S");
    let b = id(&grammar, "B");
    let ta = id(&grammar, "a");
    assert_eq!(all[0], ProductionReference { head: s, body: vec![ta] });
    assert_eq!(all[1], all[0]);
    assert_eq!(all[2], ProductionReference { head: b, body: vec![] });
}

#[test]
fn production_text_separates_symbols_by_spaces() {
    let mut grammar = Grammar::new("S".to_string());
    grammar.add_production("S".to_string(), names(&["a", "B", "cd"]));
    grammar.add_production("B".to_string(), vec![]);
    let all = grammar.all_productions();
    assert_eq!(grammar.production_to_string(&all[0]), "S -> a B cd");
    assert_eq!(grammar.production_to_string(&all[1]), "B -> ");
}

#[test]
fn reserved_symbols() {
    assert!(Symbol::EndOfInputTerminal.is_terminal());
    assert!(Symbol::AugmentingNonTerminal.is_nonterminal());
    assert!(Symbol::Terminal("x".to_string()).is_terminal());
    assert!(Symbol::NonTerminal("X".to_string()).is_nonterminal());
    assert_eq!(Symbol::EndOfInputTerminal.name(), "$");
    assert_eq!(Symbol::AugmentingNonTerminal.name(), "'");
    assert_eq!(Symbol::Terminal("xy".to_string()).name(), "xy");
}

#[test]
fn unknown_name_has_no_id() {
    let grammar = Grammar::new("S".to_string());
    assert_eq!(grammar.symbol_id(&"T".to_string()), None);
}
