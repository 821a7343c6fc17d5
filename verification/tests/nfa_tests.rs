use regex_nfa::{Regex, NFA};

#[test]
fn test_nfa_single() {
    let n = NFA::from_regex(&Regex::Single('a'));

    assert!(n.accepts(&['a']));
    assert!(!n.accepts(&['b']));
    assert!(!n.accepts(&['a', 'b']));
}

#[test]
fn test_nfa_or() {
    let a = Regex::Single('a');
    let b = Regex::Single('b');
    let c = Regex::Single('c');
    let r = a.or(&b).or(&c);
    let n = NFA::from_regex(&r);

    assert!(n.accepts(&['a']));
    assert!(n.accepts(&['b']));
    assert!(n.accepts(&['c']));
    assert!(!n.accepts(&['a', 'b']));
}

#[test]
fn test_nfa_then() {
    let a = Regex::Single('a');
    let b = Regex::Single('b');
    let r = a.concat(&b);
    let n = NFA::from_regex(&r);

    assert!(!n.accepts(&['a']));
    assert!(!n.accepts(&['b']));
    assert!(n.accepts(&['a', 'b']));
}

#[test]
fn test_nfa_star() {
    let a = Regex::Single('a');
    let b = Regex::Single('b');
    let r = a.or(&b).star();
    let n = NFA::from_regex(&r);

    assert!(n.accepts(&['a']));
    assert!(n.accepts(&['b']));
    assert!(n.accepts(&['a', 'b', 'a', 'a']));
    assert!(!n.accepts(&['c']));
    assert!(!n.accepts(&['a', 'c']));
}

#[test]
fn test_empty_pattern() {
    let n = NFA::from_regex(&Regex::Empty);

    assert!(n.accepts(&[]));
    assert!(!n.accepts(&['a']));
}

#[test]
fn test_empty_fragment() {
    let n = NFA::empty();

    assert!(n.accepts(&[]));
    assert!(!n.accepts(&['x']));
}

#[test]
fn test_single_fragment() {
    let n = NFA::single('z');

    assert!(n.accepts(&['z']));
    assert!(!n.accepts(&[]));
    assert!(!n.accepts(&['z', 'z']));
}

#[test]
fn test_literal_scenario() {
    let n = NFA::from_regex(&Regex::Single('a'));

    assert!(n.accepts(&['a']));
    assert!(!n.accepts(&['b']));
    assert!(!n.accepts(&['a', 'a']));
    assert!(!n.accepts(&[]));
}

#[test]
fn test_or_commutes_concrete() {
    let a = Regex::Single('a');
    let b = Regex::Single('b');
    let ab = NFA::from_regex(&a.or(&b));
    let ba = NFA::from_regex(&b.or(&a));

    assert!(ab.accepts(&['a']) && ba.accepts(&['a']));
    assert!(ab.accepts(&['b']) && ba.accepts(&['b']));
    assert_eq!(ab.accepts(&['c']), ba.accepts(&['c']));
    assert_eq!(ab.accepts(&[]), ba.accepts(&[]));
    assert_eq!(ab.accepts(&['a', 'b']), ba.accepts(&['a', 'b']));
}

#[test]
fn test_concat_assoc_concrete() {
    let a = Regex::Single('a');
    let b = Regex::Single('b');
    let c = Regex::Single('c');
    let left = NFA::from_regex(&a.concat(&b).concat(&c));
    let right = NFA::from_regex(&a.concat(&b.concat(&c)));

    assert!(left.accepts(&['a', 'b', 'c']));
    assert!(right.accepts(&['a', 'b', 'c']));
    assert!(!left.accepts(&['a', 'b']));
    assert!(!right.accepts(&['a', 'b']));
    assert_eq!(left.accepts(&['a', 'c']), right.accepts(&['a', 'c']));
    assert_eq!(left.accepts(&[]), right.accepts(&[]));
}

#[test]
fn test_star_pump() {
    let p = Regex::Single('a').concat(&Regex::Single('b'));
    let np = NFA::from_regex(&p);
    let ns = NFA::from_regex(&p.star());

    assert!(np.accepts(&['a', 'b']));
    assert!(ns.accepts(&['a', 'b', 'a', 'b']));
    assert!(ns.accepts(&[]));
    assert!(!ns.accepts(&['a', 'b', 'a']));
}

#[test]
fn test_star_of_empty() {
    let n = NFA::from_regex(&Regex::Empty.star());

    assert!(n.accepts(&[]));
    assert!(!n.accepts(&['a']));
}

#[test]
fn test_empty_input_acceptance() {
    assert!(NFA::from_regex(&Regex::Empty).accepts(&[]));
    assert!(NFA::from_regex(&Regex::Single('q').star()).accepts(&[]));
    assert!(!NFA::from_regex(&Regex::Single('q')).accepts(&[]));
    assert!(!NFA::from_regex(&Regex::Single('q').concat(&Regex::Single('r'))).accepts(&[]));
    assert!(NFA::from_regex(&Regex::Empty.or(&Regex::Single('q'))).accepts(&[]));
}

#[test]
fn test_reject_with_long_tail() {
    let n = NFA::from_regex(&Regex::Single('a'));
    let mut input = vec!['b'];
    for _ in 0..100000 {
        input.push('a');
    }
    assert!(!n.accepts(&input));
}

#[test]
fn test_clone_preserves_language() {
    let r = Regex::Single('a').or(&Regex::Single('b')).star();
    let s = r.clone();
    let nr = NFA::from_regex(&r);
    let ns = NFA::from_regex(&s);

    assert!(nr.accepts(&['a', 'b']) && ns.accepts(&['a', 'b']));
    assert!(!nr.accepts(&['c']) && !ns.accepts(&['c']));
}
