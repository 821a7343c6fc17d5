use vstd::prelude::*;

verus! {

/// One state of a nondeterministic finite automaton: an ordered collection of
/// outgoing transitions.  A transition whose label is `None` is an epsilon
/// transition, traversed without consuming input; a `Some(c)` label consumes
/// exactly the symbol `c`.
pub struct Node {
    pub transitions: Vec<(Option<char>, usize)>,
}

/// A nondeterministic finite automaton over `char` symbols.
///
/// States are the indices of `nodes`; every transition target is an index
/// into the same vector (see [`NFA::wf`]).  One state is designated as the
/// start, one as the accepting state.
pub struct NFA {
    pub nodes: Vec<Node>,
    pub start_idx: usize,
    pub final_idx: usize,
}

impl Node {
    pub fn new(ts: Vec<(Option<char>, usize)>) -> (r: Node)
        ensures
            r.transitions@ == ts@,
    {
        Node { transitions: ts }
    }

    /// The targets of exactly those transitions out of this node whose label
    /// equals `a`, in their original order, duplicates kept.
    pub fn neighbours(&self, a: Option<char>) -> (r: Vec<usize>)
        ensures
            r@ == self.transitions@.filter(|t: (Option<char>, usize)| t.0 == a).map_values(
                |t: (Option<char>, usize)| t.1,
            ),
            forall|p: usize| r@.contains(p) <==> self.transitions@.contains((a, p)),
    {
        let ghost pred = (|t: (Option<char>, usize)| t.0 == a);
        let ghost tgt = (|t: (Option<char>, usize)| t.1);
        let mut r: Vec<usize> = Vec::new();
        let mut k: usize = 0;
        proof {
            reveal(Seq::filter);
            assert(self.transitions@.take(0).filter(pred) =~= Seq::<(Option<char>, usize)>::empty());
            assert(r@ =~= self.transitions@.take(0).filter(pred).map_values(tgt));
        }
        while k < self.transitions.len()
            invariant
                k <= self.transitions@.len(),
                r@ == self.transitions@.take(k as int).filter(pred).map_values(tgt),
                pred == (|t: (Option<char>, usize)| t.0 == a),
                tgt == (|t: (Option<char>, usize)| t.1),
                forall|i: int| 0 <= i < r@.len() ==> self.transitions@.contains((a, r@[i])),
                forall|j: int|
                    0 <= j < k && (#[trigger] self.transitions@[j]).0 == a
                        ==> r@.contains(self.transitions@[j].1),
            decreases self.transitions@.len() - k,
        {
            let t = self.transitions[k];
            let same = match (t.0, a) {
                (None, None) => true,
                (Some(x), Some(y)) => x == y,
                _ => false,
            };
            proof {
                let tk = self.transitions@.take(k as int + 1);
                assert(tk.drop_last() =~= self.transitions@.take(k as int));
                assert(tk.last() == self.transitions@[k as int]);
                assert(same == pred(self.transitions@[k as int]));
            }
            if same {
                let ghost old_r = r@;
                r.push(t.1);
                proof {
                    assert(self.transitions@[k as int] == (a, t.1));
                    assert(self.transitions@.contains((a, t.1)));
                    assert forall|x: usize| old_r.contains(x) implies r@.contains(x) by {
                        let i = choose|i: int| 0 <= i < old_r.len() && old_r[i] == x;
                        assert(r@[i] == x);
                    };
                    assert(r@[old_r.len() as int] == t.1);
                    reveal(Seq::filter);
                    let tk = self.transitions@.take(k as int + 1);
                    assert(tk.filter(pred) == self.transitions@.take(k as int).filter(pred).push(
                        self.transitions@[k as int],
                    ));
                    assert(r@ =~= tk.filter(pred).map_values(tgt));
                }
            } else {
                proof {
                    reveal(Seq::filter);
                    let tk = self.transitions@.take(k as int + 1);
                    assert(tk.filter(pred) == self.transitions@.take(k as int).filter(pred));
                }
            }
            k += 1;
        }
        proof {
            assert(self.transitions@.take(self.transitions@.len() as int) =~= self.transitions@);
        }
        proof {
            assert forall|p: usize| r@.contains(p) implies self.transitions@.contains((a, p)) by {
                let i = choose|i: int| 0 <= i < r@.len() && r@[i] == p;
                assert(self.transitions@.contains((a, r@[i])));
            };
            assert forall|p: usize| self.transitions@.contains((a, p)) implies r@.contains(p) by {
                let j = choose|j: int|
                    0 <= j < self.transitions@.len() && self.transitions@[j] == (a, p);
                assert((self.transitions@[j]).0 == a);
            };
        }
        r
    }
}

impl NFA {
    /// Well-formedness: the designated states are valid indices and every
    /// transition target points back into the same node collection.
    pub open spec fn wf(self) -> bool {
        &&& self.start_idx < self.nodes@.len()
        &&& self.final_idx < self.nodes@.len()
        &&& forall|q: int, k: int|
            0 <= q < self.nodes@.len() && 0 <= k < self.nodes@[q].transitions@.len()
                ==> (#[trigger] self.nodes@[q].transitions@[k]).1 < self.nodes@.len()
    }

    /// There is a transition from state `q` to state `p` labeled `a`.
    pub open spec fn edge(self, q: usize, a: Option<char>, p: usize) -> bool {
        q < self.nodes@.len() && self.nodes@[q as int].transitions@.contains((a, p))
    }

    /// There is a path of at most `n` transitions from state `q` to state `p`
    /// whose consuming labels, in order, spell exactly `s`.
    pub open spec fn reach_fuel(self, q: usize, s: Seq<char>, p: usize, n: nat) -> bool
        decreases n,
    {
        ||| (q == p && s.len() == 0)
        ||| (n > 0 && exists|m: usize|
            #[trigger] self.edge(q, None, m) && self.reach_fuel(m, s, p, (n - 1) as nat))
        ||| (n > 0 && s.len() > 0 && exists|m: usize|
            #[trigger] self.edge(q, Some(s[0]), m) && self.reach_fuel(m, s.skip(1), p, (n - 1) as nat))
    }

    /// There is a path from state `q` to state `p` whose consuming labels
    /// spell exactly `s`.
    pub open spec fn reach(self, q: usize, s: Seq<char>, p: usize) -> bool {
        exists|n: nat| self.reach_fuel(q, s, p, n)
    }

    /// The automaton accepts `s`: some path from the start state to the
    /// accepting state consumes exactly the symbols of `s`, in order.
    pub open spec fn accepted(self, s: Seq<char>) -> bool {
        self.reach(self.start_idx, s, self.final_idx)
    }

    /// In a well-formed automaton, edges only connect valid states.
    pub proof fn lemma_edge_target(self, q: usize, a: Option<char>, p: usize)
        requires
            self.wf(),
            self.edge(q, a, p),
        ensures
            q < self.nodes@.len(),
            p < self.nodes@.len(),
    {
        let ts = self.nodes@[q as int].transitions@;
        let k = choose|k: int| 0 <= k < ts.len() && ts[k] == (a, p);
        assert(ts[k].1 < self.nodes@.len());
    }

    /// Reachability is monotone in the fuel bound.
    pub proof fn lemma_fuel_mono(self, q: usize, s: Seq<char>, p: usize, n1: nat, n2: nat)
        requires
            self.reach_fuel(q, s, p, n1),
            n1 <= n2,
        ensures
            self.reach_fuel(q, s, p, n2),
        decreases n1,
    {
        if q == p && s.len() == 0 {
        } else if n1 > 0 && exists|m: usize|
            #[trigger] self.edge(q, None, m) && self.reach_fuel(m, s, p, (n1 - 1) as nat) {
            let m = choose|m: usize|
                #[trigger] self.edge(q, None, m) && self.reach_fuel(m, s, p, (n1 - 1) as nat);
            self.lemma_fuel_mono(m, s, p, (n1 - 1) as nat, (n2 - 1) as nat);
        } else {
            let m = choose|m: usize|
                #[trigger] self.edge(q, Some(s[0]), m)
                    && self.reach_fuel(m, s.skip(1), p, (n1 - 1) as nat);
            self.lemma_fuel_mono(m, s.skip(1), p, (n1 - 1) as nat, (n2 - 1) as nat);
        }
    }

    /// Paths compose: a path consuming `s1` followed by a path consuming `s2`
    /// is a path consuming `s1 + s2`.
    pub proof fn lemma_fuel_trans(
        self,
        q: usize,
        s1: Seq<char>,
        m: usize,
        n1: nat,
        s2: Seq<char>,
        p: usize,
        n2: nat,
    )
        requires
            self.reach_fuel(q, s1, m, n1),
            self.reach_fuel(m, s2, p, n2),
        ensures
            self.reach_fuel(q, s1 + s2, p, n1 + n2),
        decreases n1,
    {
        if q == m && s1.len() == 0 {
            assert(s1 + s2 =~= s2);
            self.lemma_fuel_mono(m, s2, p, n2, n1 + n2);
        } else if n1 > 0 && exists|mm: usize|
            #[trigger] self.edge(q, None, mm) && self.reach_fuel(mm, s1, m, (n1 - 1) as nat) {
            let mm = choose|mm: usize|
                #[trigger] self.edge(q, None, mm) && self.reach_fuel(mm, s1, m, (n1 - 1) as nat);
            self.lemma_fuel_trans(mm, s1, m, (n1 - 1) as nat, s2, p, n2);
            assert(self.reach_fuel(mm, s1 + s2, p, (n1 + n2 - 1) as nat));
        } else {
            let mm = choose|mm: usize|
                #[trigger] self.edge(q, Some(s1[0]), mm)
                    && self.reach_fuel(mm, s1.skip(1), m, (n1 - 1) as nat);
            self.lemma_fuel_trans(mm, s1.skip(1), m, (n1 - 1) as nat, s2, p, n2);
            assert((s1 + s2)[0] == s1[0]);
            assert((s1 + s2).skip(1) =~= s1.skip(1) + s2);
            assert(self.reach_fuel(mm, (s1 + s2).skip(1), p, (n1 + n2 - 1) as nat));
        }
    }

    /// Prefixing a path with one epsilon transition.
    pub proof fn lemma_step_eps(self, q: usize, m: usize, s: Seq<char>, p: usize, n: nat)
        requires
            self.edge(q, None, m),
            self.reach_fuel(m, s, p, n),
        ensures
            self.reach_fuel(q, s, p, n + 1),
    {
    }

    /// Prefixing a path with one consuming transition.
    pub proof fn lemma_step_sym(
        self,
        q: usize,
        m: usize,
        c: char,
        s: Seq<char>,
        u: Seq<char>,
        p: usize,
        n: nat,
    )
        requires
            self.edge(q, Some(c), m),
            self.reach_fuel(m, s, p, n),
            u.len() > 0,
            u[0] == c,
            u.skip(1) == s,
        ensures
            self.reach_fuel(q, u, p, n + 1),
    {
    }

    /// A state without outgoing transitions only reaches itself, consuming
    /// nothing.
    pub proof fn lemma_stuck(self, q: usize, s: Seq<char>, p: usize, n: nat)
        requires
            self.reach_fuel(q, s, p, n),
            q < self.nodes@.len(),
            self.nodes@[q as int].transitions@.len() == 0,
        ensures
            p == q,
            s.len() == 0,
    {
        if !(q == p && s.len() == 0) {
            assert(forall|a: Option<char>, m: usize| !self.edge(q, a, m));
            assert(false);
        }
    }

    /// Any path can be cut after any number of consumed symbols: if a path
    /// from `q` consumes `s`, some state is reached consuming just `s.take(j)`.
    pub proof fn lemma_prefix_reach(self, q: usize, s: Seq<char>, p: usize, n: nat, j: int)
        requires
            self.reach_fuel(q, s, p, n),
            0 <= j <= s.len(),
        ensures
            exists|m: usize| #[trigger] self.reach(q, s.take(j), m),
        decreases n,
    {
        if q == p && s.len() == 0 {
            assert(s.take(j) =~= s);
            assert(self.reach_fuel(q, s.take(j), p, 0nat));
            assert(self.reach(q, s.take(j), p));
        } else if n > 0 && exists|m: usize|
            #[trigger] self.edge(q, None, m) && self.reach_fuel(m, s, p, (n - 1) as nat) {
            let mm = choose|mm: usize|
                #[trigger] self.edge(q, None, mm) && self.reach_fuel(mm, s, p, (n - 1) as nat);
            self.lemma_prefix_reach(mm, s, p, (n - 1) as nat, j);
            let w = choose|w: usize| #[trigger] self.reach(mm, s.take(j), w);
            let k = choose|k: nat| #[trigger] self.reach_fuel(mm, s.take(j), w, k);
            self.lemma_step_eps(q, mm, s.take(j), w, k);
            assert(self.reach(q, s.take(j), w));
        } else {
            let mm = choose|mm: usize|
                #[trigger] self.edge(q, Some(s[0]), mm)
                    && self.reach_fuel(mm, s.skip(1), p, (n - 1) as nat);
            if j == 0 {
                assert(s.take(0) =~= Seq::<char>::empty());
                assert(self.reach_fuel(q, s.take(j), q, 0nat));
                assert(self.reach(q, s.take(j), q));
            } else {
                self.lemma_prefix_reach(mm, s.skip(1), p, (n - 1) as nat, j - 1);
                let w = choose|w: usize| #[trigger] self.reach(mm, s.skip(1).take(j - 1), w);
                let k = choose|k: nat| #[trigger] self.reach_fuel(mm, s.skip(1).take(j - 1), w, k);
                assert(s.take(j).len() > 0);
                assert(s.take(j)[0] == s[0]);
                assert(s.take(j).skip(1) =~= s.skip(1).take(j - 1));
                self.lemma_step_sym(q, mm, s[0], s.skip(1).take(j - 1), s.take(j), w, k);
                assert(self.reach(q, s.take(j), w));
            }
        }
    }

    /// A path consuming a nonempty `s` decomposes at its last consuming
    /// transition: a path consuming all but the last symbol, one transition
    /// labeled with the last symbol, and a trailing epsilon-only path.
    pub proof fn lemma_last_step_fuel(self, q0: usize, s: Seq<char>, p: usize, n: nat)
        requires
            self.reach_fuel(q0, s, p, n),
            s.len() > 0,
        ensures
            exists|q: usize, m: usize|
                self.reach(q0, s.take(s.len() - 1), q)
                    && #[trigger] self.edge(q, Some(s.last()), m)
                    && self.reach(m, Seq::<char>::empty(), p),
        decreases n,
    {
        if n > 0 && exists|mm: usize|
            #[trigger] self.edge(q0, None, mm) && self.reach_fuel(mm, s, p, (n - 1) as nat) {
            let mm = choose|mm: usize|
                #[trigger] self.edge(q0, None, mm) && self.reach_fuel(mm, s, p, (n - 1) as nat);
            self.lemma_last_step_fuel(mm, s, p, (n - 1) as nat);
            let (q, m) = choose|q: usize, m: usize|
                self.reach(mm, s.take(s.len() - 1), q)
                    && #[trigger] self.edge(q, Some(s.last()), m)
                    && self.reach(m, Seq::<char>::empty(), p);
            let k = choose|k: nat| #[trigger] self.reach_fuel(mm, s.take(s.len() - 1), q, k);
            self.lemma_step_eps(q0, mm, s.take(s.len() - 1), q, k);
            assert(self.reach(q0, s.take(s.len() - 1), q));
        } else {
            let mm = choose|mm: usize|
                #[trigger] self.edge(q0, Some(s[0]), mm)
                    && self.reach_fuel(mm, s.skip(1), p, (n - 1) as nat);
            if s.len() == 1 {
                assert(s.skip(1) =~= Seq::<char>::empty());
                assert(s.take(s.len() - 1) =~= Seq::<char>::empty());
                assert(self.reach_fuel(q0, s.take(s.len() - 1), q0, 0nat));
                assert(self.reach(q0, s.take(s.len() - 1), q0));
                assert(s.last() == s[0]);
                assert(self.reach(mm, Seq::<char>::empty(), p));
                assert(self.edge(q0, Some(s.last()), mm));
            } else {
                self.lemma_last_step_fuel(mm, s.skip(1), p, (n - 1) as nat);
                let (q, m) = choose|q: usize, m: usize|
                    self.reach(mm, s.skip(1).take(s.skip(1).len() - 1), q)
                        && #[trigger] self.edge(q, Some(s.skip(1).last()), m)
                        && self.reach(m, Seq::<char>::empty(), p);
                assert(s.skip(1).last() == s.last());
                let u = s.take(s.len() - 1);
                assert(u.len() > 0);
                assert(u[0] == s[0]);
                assert(u.skip(1) =~= s.skip(1).take(s.skip(1).len() - 1));
                let k = choose|k: nat| #[trigger] self.reach_fuel(mm, s.skip(1).take(s.skip(1).len() - 1), q, k);
                self.lemma_step_sym(q0, mm, s[0], s.skip(1).take(s.skip(1).len() - 1), u, q, k);
                assert(self.reach(q0, u, q));
                assert(self.edge(q, Some(s.last()), m));
            }
        }
    }

    /// [`NFA::lemma_last_step_fuel`], stated for plain reachability.
    pub proof fn lemma_last_step(self, q0: usize, s: Seq<char>, p: usize)
        requires
            self.reach(q0, s, p),
            s.len() > 0,
        ensures
            exists|q: usize, m: usize|
                self.reach(q0, s.take(s.len() - 1), q)
                    && #[trigger] self.edge(q, Some(s.last()), m)
                    && self.reach(m, Seq::<char>::empty(), p),
    {
        let n = choose|n: nat| #[trigger] self.reach_fuel(q0, s, p, n);
        self.lemma_last_step_fuel(q0, s, p, n);
    }

    /// A set of states that contains `q` and is closed under epsilon
    /// transitions contains everything `q` reaches without consuming input.
    pub proof fn lemma_closed_absorbs(
        self,
        bits: Seq<bool>,
        q: usize,
        s: Seq<char>,
        p: usize,
        n: nat,
    )
        requires
            self.wf(),
            bits.len() == self.nodes@.len(),
            forall|x: usize, y: usize|
                x < bits.len() && bits[x as int] && #[trigger] self.edge(x, None, y)
                    ==> y < bits.len() && bits[y as int],
            q < bits.len(),
            bits[q as int],
            s.len() == 0,
            self.reach_fuel(q, s, p, n),
        ensures
            p < bits.len(),
            bits[p as int],
        decreases n,
    {
        if q == p && s.len() == 0 {
        } else {
            let mm = choose|mm: usize|
                #[trigger] self.edge(q, None, mm) && self.reach_fuel(mm, s, p, (n - 1) as nat);
            self.lemma_closed_absorbs(bits, mm, s, p, (n - 1) as nat);
        }
    }
}

/// Number of `true` entries in a bit vector.
pub open spec fn count_true(s: Seq<bool>) -> nat
    decreases s.len(),
{
    if s.len() == 0 {
        0
    } else {
        count_true(s.drop_last()) + if s.last() {
            1nat
        } else {
            0nat
        }
    }
}

proof fn lemma_count_le(s: Seq<bool>)
    ensures
        count_true(s) <= s.len(),
    decreases s.len(),
{
    if s.len() > 0 {
        lemma_count_le(s.drop_last());
    }
}

proof fn lemma_count_mono(s1: Seq<bool>, s2: Seq<bool>)
    requires
        s1.len() == s2.len(),
        forall|i: int| 0 <= i < s1.len() ==> (s1[i] ==> s2[i]),
    ensures
        count_true(s1) <= count_true(s2),
    decreases s1.len(),
{
    if s1.len() > 0 {
        lemma_count_mono(s1.drop_last(), s2.drop_last());
    }
}

proof fn lemma_count_strict(s1: Seq<bool>, s2: Seq<bool>, w: int)
    requires
        s1.len() == s2.len(),
        forall|i: int| 0 <= i < s1.len() ==> (s1[i] ==> s2[i]),
        0 <= w < s1.len(),
        !s1[w],
        s2[w],
    ensures
        count_true(s1) < count_true(s2),
    decreases s1.len(),
{
    if w == s1.len() - 1 {
        lemma_count_mono(s1.drop_last(), s2.drop_last());
    } else {
        lemma_count_strict(s1.drop_last(), s2.drop_last(), w);
    }
}

impl NFA {
    /// In a well-formed automaton, every state a path from a valid state
    /// reaches is valid.
    pub proof fn lemma_reach_valid(self, q: usize, s: Seq<char>, p: usize, n: nat)
        requires
            self.wf(),
            q < self.nodes@.len(),
            self.reach_fuel(q, s, p, n),
        ensures
            p < self.nodes@.len(),
        decreases n,
    {
        if q == p && s.len() == 0 {
        } else if n > 0 && exists|m: usize|
            #[trigger] self.edge(q, None, m) && self.reach_fuel(m, s, p, (n - 1) as nat) {
            let mm = choose|mm: usize|
                #[trigger] self.edge(q, None, mm) && self.reach_fuel(mm, s, p, (n - 1) as nat);
            self.lemma_edge_target(q, None, mm);
            self.lemma_reach_valid(mm, s, p, (n - 1) as nat);
        } else {
            let mm = choose|mm: usize|
                #[trigger] self.edge(q, Some(s[0]), mm)
                    && self.reach_fuel(mm, s.skip(1), p, (n - 1) as nat);
            self.lemma_edge_target(q, Some(s[0]), mm);
            self.lemma_reach_valid(mm, s.skip(1), p, (n - 1) as nat);
        }
    }

    /// One simulation step: the set of states reachable from any state in
    /// `cur` via a single transition labeled exactly `a`.
    fn step(&self, cur: &Vec<bool>, a: Option<char>) -> (res: Vec<bool>)
        requires
            self.wf(),
            cur@.len() == self.nodes@.len(),
        ensures
            res@.len() == self.nodes@.len(),
            forall|p: int|
                0 <= p < res@.len() ==> ((#[trigger] res@[p]) <==> exists|q: usize|
                    q < self.nodes@.len() && cur@[q as int] && #[trigger] self.edge(
                        q,
                        a,
                        p as usize,
                    )),
    {
        let n = self.nodes.len();
        let mut res: Vec<bool> = Vec::new();
        let mut i: usize = 0;
        while i < n
            invariant
                i <= n,
                res@.len() == i,
                forall|p: int| 0 <= p < i ==> !(#[trigger] res@[p]),
            decreases n - i,
        {
            res.push(false);
            i += 1;
        }
        let mut q: usize = 0;
        while q < n
            invariant
                q <= n,
                n == self.nodes@.len(),
                res@.len() == n,
                cur@.len() == n,
                self.wf(),
                forall|p: int|
                    0 <= p < n ==> ((#[trigger] res@[p]) <==> exists|q2: usize|
                        q2 < q && cur@[q2 as int] && #[trigger] self.edge(q2, a, p as usize)),
            decreases n - q,
        {
            if cur[q] {
                let ns = self.nodes[q].neighbours(a);
                let ghost entry = res@;
                let mut j: usize = 0;
                while j < ns.len()
                    invariant
                        j <= ns@.len(),
                        res@.len() == n,
                        entry.len() == n,
                        n == self.nodes@.len(),
                        self.wf(),
                        q < n,
                        forall|p: usize|
                            ns@.contains(p) <==> self.nodes@[q as int].transitions@.contains(
                                (a, p),
                            ),
                        forall|p: int|
                            0 <= p < n ==> ((#[trigger] res@[p]) <==> entry[p] || exists|jj: int|
                                0 <= jj < j && ns@[jj] == p),
                    decreases ns@.len() - j,
                {
                    let t = ns[j];
                    proof {
                        assert(ns@.contains(ns@[j as int]));
                        self.lemma_edge_target(q, a, t);
                    }
                    let ghost before = res@;
                    res[t] = true;
                    proof {
                        assert(res@ =~= before.update(t as int, true));
                        assert forall|p: int|
                            0 <= p < n implies ((res@[p]) <==> entry[p] || exists|jj: int|
                            0 <= jj < j + 1 && ns@[jj] == p) by {
                            if p == t {
                                assert(ns@[j as int] == p);
                            } else {
                                assert(res@[p] == before[p]);
                                assert forall|jj: int| 0 <= jj < j + 1 && ns@[jj] == p implies jj
                                    < j by {}
                            }
                        };
                    }
                    j += 1;
                }
                proof {
                    assert forall|p: int|
                        0 <= p < n implies ((res@[p]) <==> exists|q2: usize|
                        q2 < q + 1 && cur@[q2 as int] && #[trigger] self.edge(
                            q2,
                            a,
                            p as usize,
                        )) by {
                        if res@[p] {
                            if entry[p] {
                                let q2 = choose|q2: usize|
                                    q2 < q && cur@[q2 as int] && #[trigger] self.edge(
                                        q2,
                                        a,
                                        p as usize,
                                    );
                                assert(self.edge(q2, a, p as usize));
                            } else {
                                let jj = choose|jj: int| 0 <= jj < ns@.len() && ns@[jj] == p;
                                assert(ns@.contains(p as usize));
                                assert(self.edge(q, a, p as usize));
                            }
                        } else {
                            if exists|q2: usize|
                                q2 < q + 1 && cur@[q2 as int] && #[trigger] self.edge(
                                    q2,
                                    a,
                                    p as usize,
                                ) {
                                let q2 = choose|q2: usize|
                                    q2 < q + 1 && cur@[q2 as int] && #[trigger] self.edge(
                                        q2,
                                        a,
                                        p as usize,
                                    );
                                if q2 < q {
                                    assert(entry[p]);
                                } else {
                                    assert(self.edge(q, a, p as usize));
                                    assert(ns@.contains(p as usize));
                                    let jj = choose|jj: int| 0 <= jj < ns@.len() && ns@[jj] == p;
                                    assert(res@[p]);
                                }
                                assert(false);
                            }
                        }
                    };
                }
            } else {
                proof {
                    assert forall|p: int|
                        0 <= p < n implies ((res@[p]) <==> exists|q2: usize|
                        q2 < q + 1 && cur@[q2 as int] && #[trigger] self.edge(
                            q2,
                            a,
                            p as usize,
                        )) by {
                        if !res@[p] && exists|q2: usize|
                            q2 < q + 1 && cur@[q2 as int] && #[trigger] self.edge(
                                q2,
                                a,
                                p as usize,
                            ) {
                            let q2 = choose|q2: usize|
                                q2 < q + 1 && cur@[q2 as int] && #[trigger] self.edge(
                                    q2,
                                    a,
                                    p as usize,
                                );
                            assert(q2 < q);
                        }
                    };
                }
            }
            q += 1;
        }
        res
    }

    /// Extend a state set to its epsilon-closure: the least fixed point
    /// closed under epsilon transitions.
    fn epsilon_closure(&self, states: &mut Vec<bool>)
        requires
            self.wf(),
            old(states)@.len() == self.nodes@.len(),
        ensures
            final(states)@.len() == self.nodes@.len(),
            forall|p: int|
                0 <= p < self.nodes@.len() ==> ((#[trigger] final(states)@[p]) <==> exists|q: usize|
                    q < self.nodes@.len() && old(states)@[q as int] && #[trigger] self.reach(
                        q,
                        Seq::<char>::empty(),
                        p as usize,
                    )),
    {
        let n = self.nodes.len();
        proof {
            lemma_count_le(states@);
            assert forall|p: int|
                0 <= p < n && states@[p] implies exists|q: usize|
                q < n && old(states)@[q as int] && #[trigger] self.reach(
                    q,
                    Seq::<char>::empty(),
                    p as usize,
                ) by {
                assert(((p as usize) as int) == p);
                assert(self.reach_fuel(p as usize, Seq::<char>::empty(), p as usize, 0nat));
                assert(self.reach(p as usize, Seq::<char>::empty(), p as usize));
            };
        }
        loop
            invariant
                self.wf(),
                n == self.nodes@.len(),
                states@.len() == n,
                old(states)@.len() == n,
                count_true(states@) <= n,
                forall|q: int| 0 <= q < n ==> (old(states)@[q] ==> #[trigger] states@[q]),
                forall|p: int|
                    0 <= p < n ==> ((#[trigger] states@[p]) ==> exists|q: usize|
                        q < n && old(states)@[q as int] && #[trigger] self.reach(
                            q,
                            Seq::<char>::empty(),
                            p as usize,
                        )),
            ensures
                states@.len() == n,
                forall|q: int| 0 <= q < n ==> (old(states)@[q] ==> #[trigger] states@[q]),
                forall|p: int|
                    0 <= p < n ==> ((#[trigger] states@[p]) ==> exists|q: usize|
                        q < n && old(states)@[q as int] && #[trigger] self.reach(
                            q,
                            Seq::<char>::empty(),
                            p as usize,
                        )),
                forall|x: usize, y: usize|
                    x < n && states@[x as int] && #[trigger] self.edge(x, None, y) ==> y < n
                        && states@[y as int],
            decreases n - count_true(states@),
        {
            let new_nodes = self.step(states, None);
            let ghost prev = states@;
            let mut changed = false;
            let mut i: usize = 0;
            while i < n
                invariant
                    i <= n,
                    states@.len() == n,
                    new_nodes@.len() == n,
                    prev.len() == n,
                    forall|p: int|
                        0 <= p < n ==> ((#[trigger] states@[p]) <==> prev[p] || (p < i
                            && new_nodes@[p])),
                    changed <==> exists|p: int| 0 <= p < i && #[trigger] new_nodes@[p] && !prev[p],
                decreases n - i,
            {
                if new_nodes[i] && !states[i] {
                    states[i] = true;
                    proof {
                        assert(new_nodes@[i as int] && !prev[i as int]);
                    }
                    changed = true;
                }
                i += 1;
            }
            if !changed {
                proof {
                    assert forall|x: usize, y: usize|
                        x < n && states@[x as int] && #[trigger] self.edge(x, None, y) implies y < n
                        && states@[y as int] by {
                        self.lemma_edge_target(x, None, y);
                        assert(!(new_nodes@[x as int] && !prev[x as int]));
                        assert(prev[x as int]);
                        assert(((y as int) as usize) == y);
                        assert(new_nodes@[y as int]);
                        assert(!(new_nodes@[y as int] && !prev[y as int]));
                    };
                    assert(states@ =~= prev);
                }
                break ;
            }
            proof {
                // the merge pass strictly grew the set, so the fixed-point
                // iteration terminates
                assert forall|p: int| 0 <= p < n && prev[p] implies states@[p] by {}
                let w = choose|p: int| 0 <= p < n && #[trigger] new_nodes@[p] && !prev[p];
                assert(states@[w]);
                lemma_count_strict(prev, states@, w);
                lemma_count_le(states@);
                // the set only grows, so soundness is preserved: every new
                // member is an epsilon-successor of an old member
                assert forall|p: int|
                    0 <= p < n && states@[p] implies (exists|q: usize|
                    q < n && old(states)@[q as int] && #[trigger] self.reach(
                        q,
                        Seq::<char>::empty(),
                        p as usize,
                    )) by {
                    if !prev[p] {
                        assert(new_nodes@[p]);
                        let q2 = choose|q2: usize|
                            q2 < n && prev[q2 as int] && #[trigger] self.edge(
                                q2,
                                None,
                                p as usize,
                            );
                        let q0 = choose|q0: usize|
                            q0 < n && old(states)@[q0 as int] && #[trigger] self.reach(
                                q0,
                                Seq::<char>::empty(),
                                q2,
                            );
                        let k = choose|k: nat|
                            #[trigger] self.reach_fuel(q0, Seq::<char>::empty(), q2, k);
                        assert(self.reach_fuel(p as usize, Seq::<char>::empty(), p as usize, 0nat));
                        self.lemma_step_eps(q2, p as usize, Seq::<char>::empty(), p as usize, 0nat);
                        self.lemma_fuel_trans(
                            q0,
                            Seq::<char>::empty(),
                            q2,
                            k,
                            Seq::<char>::empty(),
                            p as usize,
                            1nat,
                        );
                        assert(Seq::<char>::empty() + Seq::<char>::empty() =~= Seq::<char>::empty());
                        assert(self.reach(q0, Seq::<char>::empty(), p as usize));
                    }
                };
            }
        }
        proof {
            assert forall|p: int|
                0 <= p < n && (exists|q: usize|
                    q < n && old(states)@[q as int] && #[trigger] self.reach(
                        q,
                        Seq::<char>::empty(),
                        p as usize,
                    )) implies states@[p] by {
                let q = choose|q: usize|
                    q < n && old(states)@[q as int] && #[trigger] self.reach(
                        q,
                        Seq::<char>::empty(),
                        p as usize,
                    );
                let k = choose|k: nat| #[trigger] self.reach_fuel(q, Seq::<char>::empty(), p as usize, k);
                self.lemma_closed_absorbs(states@, q, Seq::<char>::empty(), p as usize, k);
            };
        }
    }

    /// Decide whether the automaton accepts the input sequence `xs`: whether
    /// some path from the start state to the accepting state consumes exactly
    /// `xs`.  Simulation tracks the whole set of reachable states, stepping
    /// once per symbol, and rejects as soon as that set becomes empty.
    pub fn accepts(&self, xs: &[char]) -> (r: bool)
        requires
            self.wf(),
        ensures
            r == self.accepted(xs@),
    {
        let n = self.nodes.len();
        let mut states: Vec<bool> = Vec::new();
        let mut i: usize = 0;
        while i < n
            invariant
                i <= n,
                states@.len() == i,
                forall|p: int| 0 <= p < i ==> ((#[trigger] states@[p]) <==> p == self.start_idx),
            decreases n - i,
        {
            states.push(i == self.start_idx);
            i += 1;
        }
        let ghost init = states@;
        self.epsilon_closure(&mut states);
        proof {
            assert(xs@.take(0) =~= Seq::<char>::empty());
            assert forall|p: int|
                0 <= p < n implies ((states@[p]) <==> self.reach(
                self.start_idx,
                xs@.take(0),
                p as usize,
            )) by {
                if states@[p] {
                    let q = choose|q: usize|
                        q < n && init[q as int] && #[trigger] self.reach(
                            q,
                            Seq::<char>::empty(),
                            p as usize,
                        );
                    assert(q == self.start_idx);
                } else {
                    if self.reach(self.start_idx, xs@.take(0), p as usize) {
                        assert(init[self.start_idx as int]);
                        assert(self.reach(self.start_idx, Seq::<char>::empty(), p as usize));
                        assert(false);
                    }
                }
            };
        }
        let mut idx: usize = 0;
        while idx < xs.len()
            invariant
                self.wf(),
                n == self.nodes@.len(),
                states@.len() == n,
                idx <= xs@.len(),
                forall|p: int|
                    0 <= p < n ==> ((#[trigger] states@[p]) <==> self.reach(
                        self.start_idx,
                        xs@.take(idx as int),
                        p as usize,
                    )),
            decreases xs@.len() - idx,
        {
            let ghost t = xs@.take(idx as int);
            let c = xs[idx];
            let next = self.step(&states, Some(c));
            let mut any = false;
            let mut j: usize = 0;
            while j < n
                invariant
                    j <= n,
                    next@.len() == n,
                    any <==> exists|p: int| 0 <= p < j && #[trigger] next@[p],
                decreases n - j,
            {
                if next[j] {
                    any = true;
                }
                j += 1;
            }
            if !any {
                proof {
                    let ghost u = xs@.take(idx as int + 1);
                    assert(u =~= t.push(xs@[idx as int]));
                    if self.accepted(xs@) {
                        let nf = choose|nf: nat|
                            #[trigger] self.reach_fuel(self.start_idx, xs@, self.final_idx, nf);
                        self.lemma_prefix_reach(self.start_idx, xs@, self.final_idx, nf, idx + 1);
                        let m = choose|m: usize| #[trigger] self.reach(self.start_idx, u, m);
                        self.lemma_last_step(self.start_idx, u, m);
                        let (q1, mm) = choose|q1: usize, mm: usize|
                            self.reach(self.start_idx, u.take(u.len() - 1), q1)
                                && #[trigger] self.edge(q1, Some(u.last()), mm) && self.reach(
                                mm,
                                Seq::<char>::empty(),
                                m,
                            );
                        assert(u.take(u.len() - 1) =~= t);
                        assert(u.last() == c);
                        let k1 = choose|k1: nat| #[trigger] self.reach_fuel(self.start_idx, t, q1, k1);
                        self.lemma_reach_valid(self.start_idx, t, q1, k1);
                        assert(((q1 as int) as usize) == q1);
                        assert(states@[q1 as int]);
                        self.lemma_edge_target(q1, Some(c), mm);
                        assert(((mm as int) as usize) == mm);
                        assert(next@[mm as int]);
                        assert(false);
                    }
                }
                return false;
            }
            let ghost pre = states@;
            let ghost nextg = next@;
            states = next;
            self.epsilon_closure(&mut states);
            proof {
                let ghost u = xs@.take(idx as int + 1);
                assert(u =~= t.push(xs@[idx as int]));
                assert forall|p: int|
                    0 <= p < n implies ((states@[p]) <==> self.reach(
                    self.start_idx,
                    u,
                    p as usize,
                )) by {
                    if states@[p] {
                        let q = choose|q: usize|
                            q < n && nextg[q as int] && #[trigger] self.reach(
                                q,
                                Seq::<char>::empty(),
                                p as usize,
                            );
                        assert(((q as int) as usize) == q);
                        let q0 = choose|q0: usize|
                            q0 < n && pre[q0 as int] && #[trigger] self.edge(q0, Some(c), q);
                        assert(((q0 as int) as usize) == q0);
                        assert(self.reach(self.start_idx, t, q0));
                        let k0 = choose|k0: nat|
                            #[trigger] self.reach_fuel(self.start_idx, t, q0, k0);
                        let k2 = choose|k2: nat|
                            #[trigger] self.reach_fuel(q, Seq::<char>::empty(), p as usize, k2);
                        assert(seq![c].skip(1) =~= Seq::<char>::empty());
                        self.lemma_step_sym(
                            q0,
                            q,
                            c,
                            Seq::<char>::empty(),
                            seq![c],
                            p as usize,
                            k2,
                        );
                        self.lemma_fuel_trans(
                            self.start_idx,
                            t,
                            q0,
                            k0,
                            seq![c],
                            p as usize,
                            k2 + 1,
                        );
                        assert(t + seq![c] =~= u);
                        assert(self.reach(self.start_idx, u, p as usize));
                    } else {
                        if self.reach(self.start_idx, u, p as usize) {
                            self.lemma_last_step(self.start_idx, u, p as usize);
                            let (q1, mm) = choose|q1: usize, mm: usize|
                                self.reach(self.start_idx, u.take(u.len() - 1), q1)
                                    && #[trigger] self.edge(q1, Some(u.last()), mm) && self.reach(
                                    mm,
                                    Seq::<char>::empty(),
                                    p as usize,
                                );
                            assert(u.take(u.len() - 1) =~= t);
                            assert(u.last() == c);
                            let k1 = choose|k1: nat|
                                #[trigger] self.reach_fuel(self.start_idx, t, q1, k1);
                            self.lemma_reach_valid(self.start_idx, t, q1, k1);
                            assert(((q1 as int) as usize) == q1);
                            assert(pre[q1 as int]);
                            self.lemma_edge_target(q1, Some(c), mm);
                            assert(((mm as int) as usize) == mm);
                            assert(nextg[mm as int]);
                            assert(states@[p]);
                            assert(false);
                        }
                    }
                };
            }
            idx += 1;
        }
        let res = states[self.final_idx];
        proof {
            assert(xs@.take(xs@.len() as int) =~= xs@);
        }
        res
    }
}

} // verus!
