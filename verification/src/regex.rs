use vstd::prelude::*;

verus! {

/// A pattern describing a regular language over `char` symbols.
///
/// Patterns are built bottom-up from the two leaf forms (`Empty`, `Single`)
/// with the combinators `or`, `then` and `star`; every variant owns its
/// children, so no sharing or cycles can arise.
pub enum Regex {
    /// Matches exactly the zero-length sequence.
    Empty,
    /// Matches exactly one occurrence of the given symbol.
    Single(char),
    /// Matches anything either operand matches.
    Or(Box<Regex>, Box<Regex>),
    /// Matches a match of the first operand immediately followed by a match
    /// of the second.
    Then(Box<Regex>, Box<Regex>),
    /// Matches zero or more concatenated matches of the operand.
    Star(Box<Regex>),
}

/// Structural size of a pattern; a termination measure for recursion over
/// pattern trees.
pub open spec fn size(r: Regex) -> nat
    decreases r,
{
    match r {
        Regex::Empty => 1,
        Regex::Single(_) => 1,
        Regex::Or(a, b) => 1 + size(*a) + size(*b),
        Regex::Then(a, b) => 1 + size(*a) + size(*b),
        Regex::Star(a) => 1 + size(*a),
    }
}

/// The language a pattern denotes: `in_language(r, s)` holds iff the symbol
/// sequence `s` belongs to the regular language described by `r`.
pub open spec fn in_language(r: Regex, s: Seq<char>) -> bool
    decreases size(r), s.len(),
{
    match r {
        Regex::Empty => s.len() == 0,
        Regex::Single(c) => s.len() == 1 && s[0] == c,
        Regex::Or(a, b) => in_language(*a, s) || in_language(*b, s),
        Regex::Then(a, b) => exists|i: int|
            0 <= i <= s.len() && in_language(*a, #[trigger] s.take(i)) && in_language(*b, s.skip(i)),
        Regex::Star(a) => s.len() == 0 || exists|i: int|
            1 <= i <= s.len() && in_language(*a, #[trigger] s.take(i)) && in_language(r, s.skip(i)),
    }
}

impl Clone for Regex {
    fn clone(&self) -> (res: Regex)
        ensures
            res == *self,
        decreases size(*self),
    {
        match self {
            Regex::Empty => Regex::Empty,
            Regex::Single(c) => Regex::Single(*c),
            Regex::Or(a, b) => Regex::Or(Box::new((**a).clone()), Box::new((**b).clone())),
            Regex::Then(a, b) => Regex::Then(Box::new((**a).clone()), Box::new((**b).clone())),
            Regex::Star(a) => Regex::Star(Box::new((**a).clone())),
        }
    }
}

impl Regex {
    /// A pattern matching anything `self` or `s` matches.
    pub fn or(&self, s: &Regex) -> (r: Regex)
        ensures
            r == Regex::Or(Box::new(*self), Box::new(*s)),
    {
        Regex::Or(Box::new(self.clone()), Box::new(s.clone()))
    }

    /// A pattern matching a match of `self` immediately followed by a match
    /// of `s`.
    pub fn concat(&self, s: &Regex) -> (r: Regex)
        ensures
            r == Regex::Then(Box::new(*self), Box::new(*s)),
    {
        Regex::Then(Box::new(self.clone()), Box::new(s.clone()))
    }

    /// A pattern matching zero or more concatenated matches of `self`.
    pub fn star(&self) -> (r: Regex)
        ensures
            r == Regex::Star(Box::new(*self)),
    {
        Regex::Star(Box::new(self.clone()))
    }
}

} // verus!
