use vstd::prelude::*;
use crate::regex::{Regex, in_language};
use crate::nfa::NFA;

verus! {

/// A literal pattern's language is exactly the one-symbol sequence of its
/// symbol: nothing shorter, longer or different is in it.
pub proof fn lemma_literal_exact(c: char, s: Seq<char>)
    ensures
        in_language(Regex::Single(c), s) <==> (s.len() == 1 && s[0] == c),
{
}

/// An automaton compiled from a literal pattern accepts the one-symbol
/// sequence of its symbol, and rejects the empty sequence, the doubled
/// symbol, and every other single symbol.
pub proof fn lemma_literal_acceptance(n: NFA, c: char)
    requires
        forall|t: Seq<char>| #[trigger] n.accepted(t) <==> in_language(Regex::Single(c), t),
    ensures
        n.accepted(seq![c]),
        !n.accepted(Seq::<char>::empty()),
        !n.accepted(seq![c, c]),
        forall|d: char| d != c ==> !n.accepted(seq![d]),
{
    assert(n.accepted(seq![c]) <==> in_language(Regex::Single(c), seq![c]));
    assert(n.accepted(Seq::<char>::empty()) <==> in_language(
        Regex::Single(c),
        Seq::<char>::empty(),
    ));
    assert(n.accepted(seq![c, c]) <==> in_language(Regex::Single(c), seq![c, c]));
    assert forall|d: char| d != c implies !n.accepted(seq![d]) by {
        assert(n.accepted(seq![d]) <==> in_language(Regex::Single(c), seq![d]));
        assert(seq![d][0] == d);
    };
}

/// A compiled automaton accepts the empty sequence exactly when the empty
/// sequence is in the pattern's language; in particular the empty pattern and
/// every repetition accept it, while a bare literal does not.
pub proof fn lemma_empty_input(n: NFA, r: Regex)
    requires
        forall|t: Seq<char>| #[trigger] n.accepted(t) <==> in_language(r, t),
    ensures
        n.accepted(Seq::<char>::empty()) <==> in_language(r, Seq::<char>::empty()),
        r is Empty ==> n.accepted(Seq::<char>::empty()),
        r is Star ==> n.accepted(Seq::<char>::empty()),
        r is Single ==> !n.accepted(Seq::<char>::empty()),
{
    assert(n.accepted(Seq::<char>::empty()) <==> in_language(r, Seq::<char>::empty()));
}

/// Alternation of patterns denotes the same language in either order.
pub proof fn lemma_or_commutes_language(a: Regex, b: Regex, s: Seq<char>)
    ensures
        in_language(Regex::Or(Box::new(a), Box::new(b)), s) == in_language(
            Regex::Or(Box::new(b), Box::new(a)),
            s,
        ),
{
}

/// Alternation is commutative in accepted-language terms: automata compiled
/// from `a.or(b)` and from `b.or(a)` accept exactly the same sequences.
pub proof fn lemma_or_commutative(a: Regex, b: Regex, m: NFA, n: NFA, s: Seq<char>)
    requires
        forall|t: Seq<char>|
            #[trigger] m.accepted(t) <==> in_language(Regex::Or(Box::new(a), Box::new(b)), t),
        forall|t: Seq<char>|
            #[trigger] n.accepted(t) <==> in_language(Regex::Or(Box::new(b), Box::new(a)), t),
    ensures
        m.accepted(s) == n.accepted(s),
{
    assert(m.accepted(s) <==> in_language(Regex::Or(Box::new(a), Box::new(b)), s));
    assert(n.accepted(s) <==> in_language(Regex::Or(Box::new(b), Box::new(a)), s));
}

/// Concatenation of patterns is associative at the level of languages.
pub proof fn lemma_concat_assoc_language(a: Regex, b: Regex, c: Regex, s: Seq<char>)
    ensures
        in_language(
            Regex::Then(Box::new(Regex::Then(Box::new(a), Box::new(b))), Box::new(c)),
            s,
        ) == in_language(
            Regex::Then(Box::new(a), Box::new(Regex::Then(Box::new(b), Box::new(c)))),
            s,
        ),
{
    let lhs = Regex::Then(Box::new(Regex::Then(Box::new(a), Box::new(b))), Box::new(c));
    let rhs = Regex::Then(Box::new(a), Box::new(Regex::Then(Box::new(b), Box::new(c))));
    if in_language(lhs, s) {
        let i = choose|i: int|
            0 <= i <= s.len() && in_language(
                Regex::Then(Box::new(a), Box::new(b)),
                #[trigger] s.take(i),
            ) && in_language(c, s.skip(i));
        let j = choose|j: int|
            0 <= j <= s.take(i).len() && in_language(a, #[trigger] s.take(i).take(j))
                && in_language(b, s.take(i).skip(j));
        assert(s.take(i).take(j) =~= s.take(j));
        assert(s.take(i).skip(j) =~= s.skip(j).take(i - j));
        assert(s.skip(i) =~= s.skip(j).skip(i - j));
        assert(in_language(b, s.skip(j).take(i - j)) && in_language(c, s.skip(j).skip(i - j)));
        assert(in_language(Regex::Then(Box::new(b), Box::new(c)), s.skip(j)));
        assert(in_language(a, s.take(j)));
        assert(in_language(rhs, s));
    }
    if in_language(rhs, s) {
        let j = choose|j: int|
            0 <= j <= s.len() && in_language(a, #[trigger] s.take(j)) && in_language(
                Regex::Then(Box::new(b), Box::new(c)),
                s.skip(j),
            );
        let k = choose|k: int|
            0 <= k <= s.skip(j).len() && in_language(b, #[trigger] s.skip(j).take(k))
                && in_language(c, s.skip(j).skip(k));
        let i = j + k;
        assert(s.take(i).take(j) =~= s.take(j));
        assert(s.take(i).skip(j) =~= s.skip(j).take(k));
        assert(s.skip(i) =~= s.skip(j).skip(k));
        assert(in_language(a, s.take(i).take(j)) && in_language(b, s.take(i).skip(j)));
        assert(in_language(Regex::Then(Box::new(a), Box::new(b)), s.take(i)));
        assert(in_language(c, s.skip(i)));
        assert(in_language(lhs, s));
    }
}

/// Concatenation associativity of language: `(a.concat(b)).concat(c)` and
/// `a.concat(b.concat(c))` compile to automata accepting the same sequences.
pub proof fn lemma_concat_associative(
    a: Regex,
    b: Regex,
    c: Regex,
    m: NFA,
    n: NFA,
    s: Seq<char>,
)
    requires
        forall|t: Seq<char>|
            #[trigger] m.accepted(t) <==> in_language(
                Regex::Then(Box::new(Regex::Then(Box::new(a), Box::new(b))), Box::new(c)),
                t,
            ),
        forall|t: Seq<char>|
            #[trigger] n.accepted(t) <==> in_language(
                Regex::Then(Box::new(a), Box::new(Regex::Then(Box::new(b), Box::new(c)))),
                t,
            ),
    ensures
        m.accepted(s) == n.accepted(s),
{
    lemma_concat_assoc_language(a, b, c, s);
    assert(m.accepted(s) <==> in_language(
        Regex::Then(Box::new(Regex::Then(Box::new(a), Box::new(b))), Box::new(c)),
        s,
    ));
    assert(n.accepted(s) <==> in_language(
        Regex::Then(Box::new(a), Box::new(Regex::Then(Box::new(b), Box::new(c)))),
        s,
    ));
}

/// Pumping a repetition: a sequence in a pattern's language, repeated twice,
/// is in the language of the pattern's star; and the star always contains
/// the empty sequence.
pub proof fn lemma_star_pump_language(p: Regex, s: Seq<char>)
    requires
        in_language(p, s),
    ensures
        in_language(Regex::Star(Box::new(p)), s + s),
        in_language(Regex::Star(Box::new(p)), Seq::<char>::empty()),
{
    let star = Regex::Star(Box::new(p));
    assert(in_language(star, Seq::<char>::empty()));
    if s.len() == 0 {
        assert(s + s =~= Seq::<char>::empty());
    } else {
        let u = s + s;
        let l = s.len() as int;
        assert(s.take(l) =~= s);
        assert(s.skip(l).len() == 0);
        assert(in_language(p, s.take(l)));
        assert(in_language(star, s.skip(l)));
        assert(in_language(star, s));
        assert(u.take(l) =~= s);
        assert(u.skip(l) =~= s);
        assert(in_language(p, u.take(l)));
        assert(in_language(star, u.skip(l)));
        assert(in_language(star, u));
    }
}

/// Repetition fixpoint: whatever the automaton compiled from `p` accepts,
/// the automaton compiled from `p.star()` accepts doubled; and the starred
/// automaton accepts the empty sequence whatever `p` is.
pub proof fn lemma_star_fixpoint(p: Regex, m: NFA, n: NFA, s: Seq<char>)
    requires
        forall|t: Seq<char>| #[trigger] m.accepted(t) <==> in_language(p, t),
        forall|t: Seq<char>|
            #[trigger] n.accepted(t) <==> in_language(Regex::Star(Box::new(p)), t),
    ensures
        m.accepted(s) ==> n.accepted(s + s),
        n.accepted(Seq::<char>::empty()),
{
    if m.accepted(s) {
        lemma_star_pump_language(p, s);
        assert(n.accepted(s + s) <==> in_language(Regex::Star(Box::new(p)), s + s));
    }
    assert(n.accepted(Seq::<char>::empty()) <==> in_language(
        Regex::Star(Box::new(p)),
        Seq::<char>::empty(),
    ));
}

/// Rejection is decided by the reachable-state set alone: once no state at
/// all is reachable after some prefix of the input, the whole input is
/// rejected, whatever the rest of it holds.  The simulation in
/// [`NFA::accepts`] therefore stops at the first symbol with no enabled
/// transition.
pub proof fn lemma_rejection_prefix(n: NFA, s: Seq<char>, j: int)
    requires
        0 <= j <= s.len(),
        forall|q: usize| !(#[trigger] n.reach(n.start_idx, s.take(j), q)),
    ensures
        !n.accepted(s),
{
    if n.accepted(s) {
        let nf = choose|nf: nat| #[trigger] n.reach_fuel(n.start_idx, s, n.final_idx, nf);
        n.lemma_prefix_reach(n.start_idx, s, n.final_idx, nf, j);
        let m = choose|m: usize| #[trigger] n.reach(n.start_idx, s.take(j), m);
        assert(false);
    }
}

} // verus!
