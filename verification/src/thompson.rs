use vstd::prelude::*;
use crate::nfa::{NFA, Node};
use crate::regex::{Regex, in_language, size};

verus! {

/// The number of states Thompson's construction allocates for a pattern:
/// two per leaf, plus two more per combinator.
pub open spec fn nfa_size(r: Regex) -> nat
    decreases r,
{
    match r {
        Regex::Empty => 2,
        Regex::Single(_) => 2,
        Regex::Or(a, b) => nfa_size(*a) + nfa_size(*b) + 2,
        Regex::Then(a, b) => nfa_size(*a) + nfa_size(*b) + 2,
        Regex::Star(a) => nfa_size(*a) + 2,
    }
}

/// The transitions of an embedded node copy: the labels unchanged, every
/// target shifted by `off`.
pub open spec fn shift_seq(ts: Seq<(Option<char>, usize)>, off: usize) -> Seq<
    (Option<char>, usize),
> {
    ts.map(|k: int, t: (Option<char>, usize)| (t.0, (t.1 + off) as usize))
}

/// Epsilon transitions to each of the given targets, in order.
pub open spec fn eps_seq(targets: Seq<usize>) -> Seq<(Option<char>, usize)> {
    targets.map(|k: int, t: usize| (Option::<char>::None, t))
}

/// The nodes of `sub` sit embedded in the node collection `ns` at index
/// offset `off`: each copied node carries `sub`'s transitions with targets
/// shifted by `off`, and the copy of `sub`'s accepting node additionally
/// carries the transitions `extra`, appended at the end.
pub open spec fn embedded_in(
    ns: Seq<Node>,
    sub: NFA,
    off: usize,
    extra: Seq<(Option<char>, usize)>,
) -> bool {
    &&& off + sub.nodes@.len() <= ns.len()
    &&& forall|i: int|
        0 <= i < sub.nodes@.len() && i != sub.final_idx ==> (#[trigger] ns[off + i]).transitions@
            == shift_seq(sub.nodes@[i].transitions@, off)
    &&& ns[off + sub.final_idx].transitions@ == shift_seq(
        sub.nodes@[sub.final_idx as int].transitions@,
        off,
    ) + extra
}

/// [`embedded_in`], read off a whole automaton.
pub open spec fn embeds_at(g: NFA, sub: NFA, off: usize, extra: Seq<(Option<char>, usize)>) -> bool {
    embedded_in(g.nodes@, sub, off, extra)
}

/// The observable transition table of an automaton: one row of transitions
/// per node, in node order.
pub open spec fn transition_table(g: NFA) -> Seq<Seq<(Option<char>, usize)>> {
    g.nodes@.map(|i: int, n: Node| n.transitions@)
}

/// The rows of an embedded fragment, as they appear in the host: each row
/// shifted by `off`, and the last row (the fragment's accepting node)
/// extended with `extra`.
pub open spec fn block_rows(
    rows: Seq<Seq<(Option<char>, usize)>>,
    off: usize,
    extra: Seq<(Option<char>, usize)>,
) -> Seq<Seq<(Option<char>, usize)>> {
    rows.map(
        |i: int, row: Seq<(Option<char>, usize)>|
            (if i == rows.len() - 1 {
                shift_seq(row, off) + extra
            } else {
                shift_seq(row, off)
            }),
    )
}

/// The transition table Thompson's construction produces for a pattern: a
/// pure function of the pattern value alone, so compilation is
/// deterministic — two compilations of equal patterns yield automata with
/// identical transition tables, start and accepting indices.
pub open spec fn compiled_table(r: Regex) -> Seq<Seq<(Option<char>, usize)>>
    decreases r,
{
    match r {
        Regex::Empty => seq![
            seq![(Option::<char>::None, 1usize)],
            Seq::<(Option<char>, usize)>::empty(),
        ],
        Regex::Single(c) => seq![
            seq![(Some(c), 1usize)],
            Seq::<(Option<char>, usize)>::empty(),
        ],
        Regex::Or(a, b) => {
            let ta = compiled_table(*a);
            let tb = compiled_table(*b);
            let fin = (ta.len() + tb.len() + 1) as usize;
            seq![
                seq![(Option::<char>::None, 1usize), (Option::<char>::None, (1 + ta.len()) as usize)],
            ] + block_rows(ta, 1, eps_seq(seq![fin])) + block_rows(
                tb,
                (1 + ta.len()) as usize,
                eps_seq(seq![fin]),
            ) + seq![Seq::<(Option<char>, usize)>::empty()]
        },
        Regex::Then(a, b) => {
            let ta = compiled_table(*a);
            let tb = compiled_table(*b);
            let fin = (ta.len() + tb.len() + 1) as usize;
            seq![seq![(Option::<char>::None, 1usize)]] + block_rows(
                ta,
                1,
                eps_seq(seq![(1 + ta.len()) as usize]),
            ) + block_rows(tb, (1 + ta.len()) as usize, eps_seq(seq![fin])) + seq![
                Seq::<(Option<char>, usize)>::empty(),
            ]
        },
        Regex::Star(a) => {
            let ta = compiled_table(*a);
            let fin = (ta.len() + 1) as usize;
            seq![
                seq![(Option::<char>::None, 1usize), (Option::<char>::None, fin)],
            ] + block_rows(ta, 1, eps_seq(seq![fin, 1usize])) + seq![
                Seq::<(Option<char>, usize)>::empty(),
            ]
        },
    }
}

/// The rows of an embedded block, read off the host's nodes.
proof fn lemma_block_table(g: NFA, sub: NFA, off: usize, extra: Seq<(Option<char>, usize)>)
    requires
        embeds_at(g, sub, off, extra),
        sub.final_idx == sub.nodes@.len() - 1,
        sub.nodes@.len() > 0,
    ensures
        forall|i: int|
            0 <= i < sub.nodes@.len() ==> (#[trigger] g.nodes@[off + i]).transitions@ == block_rows(
                transition_table(sub),
                off,
                extra,
            )[i],
{
    assert forall|i: int|
        0 <= i < sub.nodes@.len() implies (#[trigger] g.nodes@[off + i]).transitions@ == block_rows(
        transition_table(sub),
        off,
        extra,
    )[i] by {
        let tt = transition_table(sub);
        assert(tt[i] == sub.nodes@[i].transitions@);
        if i == sub.final_idx {
            assert(block_rows(tt, off, extra)[i] == shift_seq(tt[i], off) + extra);
        } else {
            assert(block_rows(tt, off, extra)[i] == shift_seq(tt[i], off));
        }
    };
}

/// A leaf fragment's transition table.
proof fn lemma_leaf_table(r: NFA, lbl: Option<char>)
    requires
        leaf_shape(r, lbl),
    ensures
        transition_table(r) == seq![seq![(lbl, 1usize)], Seq::<(Option<char>, usize)>::empty()],
{
    assert(transition_table(r)[0] == r.nodes@[0].transitions@);
    assert(transition_table(r)[1] == r.nodes@[1].transitions@);
    assert(r.nodes@[0].transitions@ =~= seq![(lbl, 1usize)]);
    assert(r.nodes@[1].transitions@ =~= Seq::<(Option<char>, usize)>::empty());
    assert(transition_table(r) =~= seq![
        seq![(lbl, 1usize)],
        Seq::<(Option<char>, usize)>::empty(),
    ]);
}

/// The transition table of an automaton with the alternation layout.
proof fn lemma_or_table(g: NFA, a: NFA, b: NFA)
    requires
        or_shape(g, a, b),
        a.final_idx == a.nodes@.len() - 1,
        b.final_idx == b.nodes@.len() - 1,
        a.nodes@.len() > 0,
        b.nodes@.len() > 0,
    ensures
        transition_table(g) == seq![
            seq![
                (Option::<char>::None, 1usize),
                (Option::<char>::None, (1 + a.nodes@.len()) as usize),
            ],
        ] + block_rows(transition_table(a), 1, eps_seq(seq![g.final_idx])) + block_rows(
            transition_table(b),
            (1 + a.nodes@.len()) as usize,
            eps_seq(seq![g.final_idx]),
        ) + seq![Seq::<(Option<char>, usize)>::empty()],
{
    let na = a.nodes@.len() as int;
    let nb = b.nodes@.len() as int;
    let offb = (1 + a.nodes@.len()) as usize;
    let rhs = seq![
        seq![
            (Option::<char>::None, 1usize),
            (Option::<char>::None, (1 + a.nodes@.len()) as usize),
        ],
    ] + block_rows(transition_table(a), 1, eps_seq(seq![g.final_idx])) + block_rows(
        transition_table(b),
        offb,
        eps_seq(seq![g.final_idx]),
    ) + seq![Seq::<(Option<char>, usize)>::empty()];
    lemma_block_table(g, a, 1, eps_seq(seq![g.final_idx]));
    lemma_block_table(g, b, offb, eps_seq(seq![g.final_idx]));
    assert(rhs.len() == na + nb + 2);
    assert forall|i: int| 0 <= i < na + nb + 2 implies transition_table(g)[i] == rhs[i] by {
        assert(transition_table(g)[i] == g.nodes@[i].transitions@);
        if i == 0 {
            assert(g.nodes@[0].transitions@ =~= seq![
                (Option::<char>::None, 1usize),
                (Option::<char>::None, (1 + a.nodes@.len()) as usize),
            ]);
        } else if i < 1 + na {
            assert(g.nodes@[1 + (i - 1)].transitions@ == block_rows(
                transition_table(a),
                1,
                eps_seq(seq![g.final_idx]),
            )[i - 1]);
            assert(g.nodes@[1 + (i - 1)] == g.nodes@[i]);
        } else if i < 1 + na + nb {
            assert(g.nodes@[offb + (i - 1 - na)].transitions@ == block_rows(
                transition_table(b),
                offb,
                eps_seq(seq![g.final_idx]),
            )[i - 1 - na]);
            assert(offb + (i - 1 - na) == i);
            assert(g.nodes@[offb + (i - 1 - na)] == g.nodes@[i]);
        } else {
            assert(g.nodes@[i].transitions@.len() == 0);
            assert(g.nodes@[i].transitions@ =~= Seq::<(Option<char>, usize)>::empty());
        }
    };
    assert(transition_table(g) =~= rhs);
}

/// The transition table of an automaton with the concatenation layout.
proof fn lemma_then_table(g: NFA, a: NFA, b: NFA)
    requires
        then_shape(g, a, b),
        a.final_idx == a.nodes@.len() - 1,
        b.final_idx == b.nodes@.len() - 1,
        a.nodes@.len() > 0,
        b.nodes@.len() > 0,
    ensures
        transition_table(g) == seq![seq![(Option::<char>::None, 1usize)]] + block_rows(
            transition_table(a),
            1,
            eps_seq(seq![(1 + a.nodes@.len()) as usize]),
        ) + block_rows(
            transition_table(b),
            (1 + a.nodes@.len()) as usize,
            eps_seq(seq![g.final_idx]),
        ) + seq![Seq::<(Option<char>, usize)>::empty()],
{
    let na = a.nodes@.len() as int;
    let nb = b.nodes@.len() as int;
    let offb = (1 + a.nodes@.len()) as usize;
    let rhs = seq![seq![(Option::<char>::None, 1usize)]] + block_rows(
        transition_table(a),
        1,
        eps_seq(seq![offb]),
    ) + block_rows(transition_table(b), offb, eps_seq(seq![g.final_idx])) + seq![
        Seq::<(Option<char>, usize)>::empty(),
    ];
    lemma_block_table(g, a, 1, eps_seq(seq![offb]));
    lemma_block_table(g, b, offb, eps_seq(seq![g.final_idx]));
    assert(rhs.len() == na + nb + 2);
    assert forall|i: int| 0 <= i < na + nb + 2 implies transition_table(g)[i] == rhs[i] by {
        assert(transition_table(g)[i] == g.nodes@[i].transitions@);
        if i == 0 {
            assert(g.nodes@[0].transitions@ =~= seq![(Option::<char>::None, 1usize)]);
        } else if i < 1 + na {
            assert(g.nodes@[1 + (i - 1)].transitions@ == block_rows(
                transition_table(a),
                1,
                eps_seq(seq![offb]),
            )[i - 1]);
            assert(g.nodes@[1 + (i - 1)] == g.nodes@[i]);
        } else if i < 1 + na + nb {
            assert(g.nodes@[offb + (i - 1 - na)].transitions@ == block_rows(
                transition_table(b),
                offb,
                eps_seq(seq![g.final_idx]),
            )[i - 1 - na]);
            assert(offb + (i - 1 - na) == i);
            assert(g.nodes@[offb + (i - 1 - na)] == g.nodes@[i]);
        } else {
            assert(g.nodes@[i].transitions@.len() == 0);
            assert(g.nodes@[i].transitions@ =~= Seq::<(Option<char>, usize)>::empty());
        }
    };
    assert(transition_table(g) =~= rhs);
}

/// The transition table of an automaton with the repetition layout.
proof fn lemma_star_table(g: NFA, a: NFA)
    requires
        star_shape(g, a),
        a.final_idx == a.nodes@.len() - 1,
        a.nodes@.len() > 0,
    ensures
        transition_table(g) == seq![
            seq![(Option::<char>::None, 1usize), (Option::<char>::None, g.final_idx)],
        ] + block_rows(transition_table(a), 1, eps_seq(seq![g.final_idx, 1usize])) + seq![
            Seq::<(Option<char>, usize)>::empty(),
        ],
{
    let na = a.nodes@.len() as int;
    let rhs = seq![
        seq![(Option::<char>::None, 1usize), (Option::<char>::None, g.final_idx)],
    ] + block_rows(transition_table(a), 1, eps_seq(seq![g.final_idx, 1usize])) + seq![
        Seq::<(Option<char>, usize)>::empty(),
    ];
    lemma_block_table(g, a, 1, eps_seq(seq![g.final_idx, 1usize]));
    assert(rhs.len() == na + 2);
    assert forall|i: int| 0 <= i < na + 2 implies transition_table(g)[i] == rhs[i] by {
        assert(transition_table(g)[i] == g.nodes@[i].transitions@);
        if i == 0 {
            assert(g.nodes@[0].transitions@ =~= seq![
                (Option::<char>::None, 1usize),
                (Option::<char>::None, g.final_idx),
            ]);
        } else if i < 1 + na {
            assert(g.nodes@[1 + (i - 1)].transitions@ == block_rows(
                transition_table(a),
                1,
                eps_seq(seq![g.final_idx, 1usize]),
            )[i - 1]);
            assert(g.nodes@[1 + (i - 1)] == g.nodes@[i]);
        } else {
            assert(g.nodes@[i].transitions@.len() == 0);
            assert(g.nodes@[i].transitions@ =~= Seq::<(Option<char>, usize)>::empty());
        }
    };
    assert(transition_table(g) =~= rhs);
}

/// Every transition in `extra` is an epsilon transition.
pub open spec fn eps_extras(extra: Seq<(Option<char>, usize)>) -> bool {
    forall|kk: int| 0 <= kk < extra.len() ==> (#[trigger] extra[kk]).0 is None
}

/// An edge of the embedded fragment yields the shifted edge of the host.
proof fn lemma_embed_edge(
    g: NFA,
    sub: NFA,
    off: usize,
    extra: Seq<(Option<char>, usize)>,
    q: usize,
    x: Option<char>,
    p: usize,
)
    requires
        embeds_at(g, sub, off, extra),
        sub.wf(),
        g.nodes@.len() <= usize::MAX,
        sub.edge(q, x, p),
    ensures
        g.edge((off + q) as usize, x, (off + p) as usize),
{
    let ts = sub.nodes@[q as int].transitions@;
    let k = choose|k: int| 0 <= k < ts.len() && ts[k] == (x, p);
    assert(ts[k].1 < sub.nodes@.len());
    assert(shift_seq(ts, off)[k] == (x, (off + p) as usize));
    let gts = g.nodes@[(off + q) as int].transitions@;
    if q as int != sub.final_idx {
        assert(gts[k] == (x, (off + p) as usize));
    } else {
        assert(gts == shift_seq(ts, off) + extra);
        assert(gts[k] == (x, (off + p) as usize));
    }
}

/// An edge of the host that leaves a state of the embedded block is either a
/// shifted edge of the fragment or one of the extra transitions added to the
/// copy of the fragment's accepting node.
proof fn lemma_embed_edge_inv(
    g: NFA,
    sub: NFA,
    off: usize,
    extra: Seq<(Option<char>, usize)>,
    qq: usize,
    x: Option<char>,
    pp: usize,
)
    requires
        embeds_at(g, sub, off, extra),
        sub.wf(),
        g.nodes@.len() <= usize::MAX,
        g.edge(qq, x, pp),
        off <= qq < off + sub.nodes@.len(),
    ensures
        (off <= pp < off + sub.nodes@.len() && sub.edge((qq - off) as usize, x, (pp - off) as usize))
            || (qq == off + sub.final_idx && extra.contains((x, pp))),
{
    let i = qq - off;
    let ts = sub.nodes@[i as int].transitions@;
    let gts = g.nodes@[qq as int].transitions@;
    let k = choose|k: int| 0 <= k < gts.len() && gts[k] == (x, pp);
    assert(g.nodes@[off + i] == g.nodes@[qq as int]);
    if i == sub.final_idx {
        assert(gts == shift_seq(ts, off) + extra);
        if k < ts.len() {
            assert(gts[k] == shift_seq(ts, off)[k]);
            assert(gts[k] == (ts[k].0, (ts[k].1 + off) as usize));
            assert(ts[k].1 < sub.nodes@.len());
            assert(pp == ts[k].1 + off);
            assert(ts[k] == (x, (pp - off) as usize));
            assert(sub.edge((qq - off) as usize, x, (pp - off) as usize));
        } else {
            assert(gts[k] == extra[k - ts.len()]);
            assert(extra.contains((x, pp)));
        }
    } else {
        assert(gts == shift_seq(ts, off));
        assert(gts[k] == (ts[k].0, (ts[k].1 + off) as usize));
        assert(ts[k].1 < sub.nodes@.len());
        assert(pp == ts[k].1 + off);
        assert(ts[k] == (x, (pp - off) as usize));
        assert(sub.edge((qq - off) as usize, x, (pp - off) as usize));
    }
}

/// A path of the embedded fragment lifts to the host, shifted by the offset.
proof fn lemma_embed_reach(
    g: NFA,
    sub: NFA,
    off: usize,
    extra: Seq<(Option<char>, usize)>,
    q: usize,
    s: Seq<char>,
    p: usize,
    n: nat,
)
    requires
        embeds_at(g, sub, off, extra),
        sub.wf(),
        g.nodes@.len() <= usize::MAX,
        q < sub.nodes@.len(),
        sub.reach_fuel(q, s, p, n),
    ensures
        g.reach_fuel((off + q) as usize, s, (off + p) as usize, n),
    decreases n,
{
    if q == p && s.len() == 0 {
    } else if n > 0 && exists|m: usize|
        #[trigger] sub.edge(q, None, m) && sub.reach_fuel(m, s, p, (n - 1) as nat) {
        let m = choose|m: usize|
            #[trigger] sub.edge(q, None, m) && sub.reach_fuel(m, s, p, (n - 1) as nat);
        sub.lemma_edge_target(q, None, m);
        lemma_embed_edge(g, sub, off, extra, q, None, m);
        lemma_embed_reach(g, sub, off, extra, m, s, p, (n - 1) as nat);
        g.lemma_step_eps((off + q) as usize, (off + m) as usize, s, (off + p) as usize, (n - 1) as nat);
    } else {
        let m = choose|m: usize|
            #[trigger] sub.edge(q, Some(s[0]), m) && sub.reach_fuel(m, s.skip(1), p, (n - 1) as nat);
        sub.lemma_edge_target(q, Some(s[0]), m);
        lemma_embed_edge(g, sub, off, extra, q, Some(s[0]), m);
        lemma_embed_reach(g, sub, off, extra, m, s.skip(1), p, (n - 1) as nat);
        g.lemma_step_sym(
            (off + q) as usize,
            (off + m) as usize,
            s[0],
            s.skip(1),
            s,
            (off + p) as usize,
            (n - 1) as nat,
        );
    }
}

/// A path of the host from inside an embedded block to a destination outside
/// it first runs inside the block to the copy of the fragment's accepting
/// node, leaves through one of the extra epsilon transitions, and goes on
/// with strictly less fuel.
proof fn lemma_embed_run(
    g: NFA,
    sub: NFA,
    off: usize,
    extra: Seq<(Option<char>, usize)>,
    q: usize,
    s: Seq<char>,
    dest: usize,
    n: nat,
)
    requires
        embeds_at(g, sub, off, extra),
        sub.wf(),
        g.nodes@.len() <= usize::MAX,
        eps_extras(extra),
        q < sub.nodes@.len(),
        !(off <= dest < off + sub.nodes@.len()),
        g.reach_fuel((off + q) as usize, s, dest, n),
    ensures
        exists|j: int, t: usize, m: nat|
            0 <= j <= s.len() && sub.reach(q, s.take(j), sub.final_idx) && extra.contains(
                (Option::<char>::None, t),
            ) && m < n && #[trigger] g.reach_fuel(t, s.skip(j), dest, m),
    decreases n,
{
    let qq = (off + q) as usize;
    assert(qq != dest);
    if n > 0 && exists|m1: usize|
        #[trigger] g.edge(qq, None, m1) && g.reach_fuel(m1, s, dest, (n - 1) as nat) {
        let m1 = choose|m1: usize|
            #[trigger] g.edge(qq, None, m1) && g.reach_fuel(m1, s, dest, (n - 1) as nat);
        lemma_embed_edge_inv(g, sub, off, extra, qq, None, m1);
        if off <= m1 < off + sub.nodes@.len() && sub.edge(q, None, (m1 - off) as usize) {
            let q2 = (m1 - off) as usize;
            sub.lemma_edge_target(q, None, q2);
            lemma_embed_run(g, sub, off, extra, q2, s, dest, (n - 1) as nat);
            let (j, t, m) = choose|j: int, t: usize, m: nat|
                0 <= j <= s.len() && sub.reach(q2, s.take(j), sub.final_idx) && extra.contains(
                    (Option::<char>::None, t),
                ) && m < (n - 1) as nat && #[trigger] g.reach_fuel(t, s.skip(j), dest, m);
            let k = choose|k: nat| #[trigger] sub.reach_fuel(q2, s.take(j), sub.final_idx, k);
            sub.lemma_step_eps(q, q2, s.take(j), sub.final_idx, k);
            assert(sub.reach(q, s.take(j), sub.final_idx));
        } else {
            assert(qq == off + sub.final_idx && extra.contains((Option::<char>::None, m1)));
            assert(q == sub.final_idx);
            assert(sub.reach_fuel(q, s.take(0), sub.final_idx, 0nat));
            assert(sub.reach(q, s.take(0), sub.final_idx));
            assert(s.skip(0) =~= s);
            assert(g.reach_fuel(m1, s.skip(0), dest, (n - 1) as nat));
        }
    } else {
        let m1 = choose|m1: usize|
            #[trigger] g.edge(qq, Some(s[0]), m1) && g.reach_fuel(m1, s.skip(1), dest, (n - 1) as nat);
        lemma_embed_edge_inv(g, sub, off, extra, qq, Some(s[0]), m1);
        if extra.contains((Some(s[0]), m1)) {
            let kk = choose|kk: int| 0 <= kk < extra.len() && extra[kk] == (Some(s[0]), m1);
            assert(false);
        }
        let q2 = (m1 - off) as usize;
        assert(sub.edge(q, Some(s[0]), q2));
        sub.lemma_edge_target(q, Some(s[0]), q2);
        lemma_embed_run(g, sub, off, extra, q2, s.skip(1), dest, (n - 1) as nat);
        let (j1, t, m) = choose|j1: int, t: usize, m: nat|
            0 <= j1 <= s.skip(1).len() && sub.reach(q2, s.skip(1).take(j1), sub.final_idx)
                && extra.contains((Option::<char>::None, t)) && m < (n - 1) as nat
                && #[trigger] g.reach_fuel(t, s.skip(1).skip(j1), dest, m);
        let j = j1 + 1;
        assert(s.take(j).len() > 0);
        assert(s.take(j)[0] == s[0]);
        assert(s.take(j).skip(1) =~= s.skip(1).take(j1));
        let k = choose|k: nat| #[trigger] sub.reach_fuel(q2, s.skip(1).take(j1), sub.final_idx, k);
        sub.lemma_step_sym(q, q2, s[0], s.skip(1).take(j1), s.take(j), sub.final_idx, k);
        assert(sub.reach(q, s.take(j), sub.final_idx));
        assert(s.skip(j) =~= s.skip(1).skip(j1));
        assert(g.reach_fuel(t, s.skip(j), dest, m));
    }
}

/// Every transition of an embedded block stays inside the host: targets of
/// shifted transitions land back in the block, targets of the extra
/// transitions are valid by assumption.
proof fn lemma_embed_targets(g: NFA, sub: NFA, off: usize, extra: Seq<(Option<char>, usize)>)
    requires
        embeds_at(g, sub, off, extra),
        sub.wf(),
        g.nodes@.len() <= usize::MAX,
        forall|kk: int| 0 <= kk < extra.len() ==> (#[trigger] extra[kk]).1 < g.nodes@.len(),
    ensures
        forall|i: int, k: int|
            0 <= i < sub.nodes@.len() && 0 <= k < g.nodes@[off + i].transitions@.len() ==> (
            #[trigger] g.nodes@[off + i].transitions@[k]).1 < g.nodes@.len(),
{
    assert forall|i: int, k: int|
        0 <= i < sub.nodes@.len() && 0 <= k < g.nodes@[off + i].transitions@.len() implies (
    #[trigger] g.nodes@[off + i].transitions@[k]).1 < g.nodes@.len() by {
        let ts = sub.nodes@[i].transitions@;
        let gts = g.nodes@[off + i].transitions@;
        if i != sub.final_idx {
            assert(gts == shift_seq(ts, off));
            assert(gts[k] == (ts[k].0, (ts[k].1 + off) as usize));
            assert(ts[k].1 < sub.nodes@.len());
        } else {
            assert(gts == shift_seq(ts, off) + extra);
            if k < ts.len() {
                assert(gts[k] == (ts[k].0, (ts[k].1 + off) as usize));
                assert(ts[k].1 < sub.nodes@.len());
            } else {
                assert(gts[k] == extra[k - ts.len()]);
            }
        }
    };
}

/// The layout [`NFA::or`] builds: a new start with epsilon transitions into
/// the embedded copies of both operands, whose accepting nodes each get an
/// epsilon transition to the new shared accepting state.
pub open spec fn or_shape(g: NFA, a: NFA, b: NFA) -> bool {
    let na = a.nodes@.len() as int;
    let nb = b.nodes@.len() as int;
    &&& g.nodes@.len() == na + nb + 2
    &&& g.nodes@.len() <= usize::MAX
    &&& g.start_idx == 0
    &&& g.final_idx == na + nb + 1
    &&& g.nodes@[0].transitions@.len() == 2
    &&& g.nodes@[0].transitions@[0] == (Option::<char>::None, 1usize)
    &&& g.nodes@[0].transitions@[1] == (Option::<char>::None, (1 + na) as usize)
    &&& g.nodes@[g.final_idx as int].transitions@.len() == 0
    &&& embeds_at(g, a, 1, eps_seq(seq![g.final_idx]))
    &&& embeds_at(g, b, (1 + na) as usize, eps_seq(seq![g.final_idx]))
}

/// An automaton with the alternation layout accepts exactly the union of its
/// operands' languages.
proof fn lemma_or_language(g: NFA, a: NFA, b: NFA, s: Seq<char>)
    requires
        a.wf(),
        b.wf(),
        a.start_idx == 0,
        b.start_idx == 0,
        or_shape(g, a, b),
    ensures
        g.accepted(s) <==> (a.accepted(s) || b.accepted(s)),
{
    let na = a.nodes@.len() as int;
    let nb = b.nodes@.len() as int;
    let fin = g.final_idx;
    let extra = eps_seq(seq![fin]);
    let offb = (1 + na) as usize;
    assert(extra.len() == 1 && extra[0] == (Option::<char>::None, fin));
    assert(eps_extras(extra));
    assert(g.nodes@[0].transitions@.contains((Option::<char>::None, 1usize)));
    assert(g.edge(0, None, 1));
    assert(g.nodes@[0].transitions@.contains((Option::<char>::None, offb)));
    assert(g.edge(0, None, offb));
    // the extra epsilon transition out of each embedded accepting node
    let atsl = shift_seq(a.nodes@[a.final_idx as int].transitions@, 1).len() as int;
    assert(g.nodes@[1 + a.final_idx].transitions@[atsl] == (Option::<char>::None, fin));
    assert(g.nodes@[1 + a.final_idx].transitions@.contains((Option::<char>::None, fin)));
    assert(g.edge((1 + a.final_idx) as usize, None, fin));
    let btsl = shift_seq(b.nodes@[b.final_idx as int].transitions@, offb).len() as int;
    assert(g.nodes@[offb + b.final_idx].transitions@[btsl] == (Option::<char>::None, fin));
    assert(g.nodes@[offb + b.final_idx].transitions@.contains((Option::<char>::None, fin)));
    assert(g.edge((offb + b.final_idx) as usize, None, fin));
    if a.accepted(s) {
        let k = choose|k: nat| #[trigger] a.reach_fuel(0, s, a.final_idx, k);
        lemma_embed_reach(g, a, 1, extra, 0, s, a.final_idx, k);
        assert(g.reach_fuel(fin, Seq::<char>::empty(), fin, 0nat));
        g.lemma_step_eps((1 + a.final_idx) as usize, fin, Seq::<char>::empty(), fin, 0nat);
        g.lemma_fuel_trans((1 + 0) as usize, s, (1 + a.final_idx) as usize, k, Seq::<char>::empty(), fin, 1nat);
        assert(s + Seq::<char>::empty() =~= s);
        g.lemma_step_eps(0, 1, s, fin, (k + 1) as nat);
        assert(g.accepted(s));
    }
    if b.accepted(s) {
        let k = choose|k: nat| #[trigger] b.reach_fuel(0, s, b.final_idx, k);
        lemma_embed_reach(g, b, offb, extra, 0, s, b.final_idx, k);
        assert(g.reach_fuel(fin, Seq::<char>::empty(), fin, 0nat));
        g.lemma_step_eps((offb + b.final_idx) as usize, fin, Seq::<char>::empty(), fin, 0nat);
        g.lemma_fuel_trans((offb + 0) as usize, s, (offb + b.final_idx) as usize, k, Seq::<char>::empty(), fin, 1nat);
        assert(s + Seq::<char>::empty() =~= s);
        g.lemma_step_eps(0, offb, s, fin, (k + 1) as nat);
        assert(g.accepted(s));
    }
    if g.accepted(s) && !(a.accepted(s) || b.accepted(s)) {
        let n = choose|n: nat| #[trigger] g.reach_fuel(0, s, fin, n);
        if n > 0 && exists|m1: usize|
            #[trigger] g.edge(0, None, m1) && g.reach_fuel(m1, s, fin, (n - 1) as nat) {
            let m1 = choose|m1: usize|
                #[trigger] g.edge(0, None, m1) && g.reach_fuel(m1, s, fin, (n - 1) as nat);
            let kk = choose|kk: int|
                0 <= kk < g.nodes@[0].transitions@.len() && g.nodes@[0].transitions@[kk] == (
                    Option::<char>::None,
                    m1,
                );
            assert(m1 == 1 || m1 == offb);
            if m1 == 1 {
                lemma_embed_run(g, a, 1, extra, 0, s, fin, (n - 1) as nat);
                let (j, t, m) = choose|j: int, t: usize, m: nat|
                    0 <= j <= s.len() && a.reach(0, s.take(j), a.final_idx) && extra.contains(
                        (Option::<char>::None, t),
                    ) && m < (n - 1) as nat && #[trigger] g.reach_fuel(t, s.skip(j), fin, m);
                let tk = choose|tk: int| 0 <= tk < extra.len() && extra[tk] == (Option::<char>::None, t);
                assert(t == fin);
                g.lemma_stuck(fin, s.skip(j), fin, m);
                assert(s.take(j) =~= s);
                assert(a.accepted(s));
            } else {
                lemma_embed_run(g, b, offb, extra, 0, s, fin, (n - 1) as nat);
                let (j, t, m) = choose|j: int, t: usize, m: nat|
                    0 <= j <= s.len() && b.reach(0, s.take(j), b.final_idx) && extra.contains(
                        (Option::<char>::None, t),
                    ) && m < (n - 1) as nat && #[trigger] g.reach_fuel(t, s.skip(j), fin, m);
                let tk = choose|tk: int| 0 <= tk < extra.len() && extra[tk] == (Option::<char>::None, t);
                assert(t == fin);
                g.lemma_stuck(fin, s.skip(j), fin, m);
                assert(s.take(j) =~= s);
                assert(b.accepted(s));
            }
        } else {
            let m1 = choose|m1: usize|
                #[trigger] g.edge(0, Some(s[0]), m1) && g.reach_fuel(m1, s.skip(1), fin, (n - 1) as nat);
            let kk = choose|kk: int|
                0 <= kk < g.nodes@[0].transitions@.len() && g.nodes@[0].transitions@[kk] == (
                    Some(s[0]),
                    m1,
                );
            assert(false);
        }
        assert(false);
    }
}

/// The layout [`NFA::concat`] builds: a new start with an epsilon transition
/// into the embedded copy of the first operand, whose accepting node leads by
/// epsilon into the embedded copy of the second operand, whose accepting node
/// leads by epsilon to the new accepting state.
pub open spec fn then_shape(g: NFA, a: NFA, b: NFA) -> bool {
    let na = a.nodes@.len() as int;
    let nb = b.nodes@.len() as int;
    &&& g.nodes@.len() == na + nb + 2
    &&& g.nodes@.len() <= usize::MAX
    &&& g.start_idx == 0
    &&& g.final_idx == na + nb + 1
    &&& g.nodes@[0].transitions@.len() == 1
    &&& g.nodes@[0].transitions@[0] == (Option::<char>::None, 1usize)
    &&& g.nodes@[g.final_idx as int].transitions@.len() == 0
    &&& embeds_at(g, a, 1, eps_seq(seq![(1 + na) as usize]))
    &&& embeds_at(g, b, (1 + na) as usize, eps_seq(seq![g.final_idx]))
}

/// An automaton with the concatenation layout accepts exactly the splits of
/// the input into a first part accepted by the first operand and a second
/// part accepted by the second.
proof fn lemma_then_language(g: NFA, a: NFA, b: NFA, s: Seq<char>)
    requires
        a.wf(),
        b.wf(),
        a.start_idx == 0,
        b.start_idx == 0,
        then_shape(g, a, b),
    ensures
        g.accepted(s) <==> exists|i: int|
            0 <= i <= s.len() && a.accepted(#[trigger] s.take(i)) && b.accepted(s.skip(i)),
{
    let na = a.nodes@.len() as int;
    let nb = b.nodes@.len() as int;
    let fin = g.final_idx;
    let offb = (1 + na) as usize;
    let extra_a = eps_seq(seq![offb]);
    let extra_b = eps_seq(seq![fin]);
    assert(extra_a.len() == 1 && extra_a[0] == (Option::<char>::None, offb));
    assert(extra_b.len() == 1 && extra_b[0] == (Option::<char>::None, fin));
    assert(eps_extras(extra_a));
    assert(eps_extras(extra_b));
    assert(g.nodes@[0].transitions@.contains((Option::<char>::None, 1usize)));
    assert(g.edge(0, None, 1));
    let atsl = shift_seq(a.nodes@[a.final_idx as int].transitions@, 1).len() as int;
    assert(g.nodes@[1 + a.final_idx].transitions@[atsl] == (Option::<char>::None, offb));
    assert(g.nodes@[1 + a.final_idx].transitions@.contains((Option::<char>::None, offb)));
    assert(g.edge((1 + a.final_idx) as usize, None, offb));
    let btsl = shift_seq(b.nodes@[b.final_idx as int].transitions@, offb).len() as int;
    assert(g.nodes@[offb + b.final_idx].transitions@[btsl] == (Option::<char>::None, fin));
    assert(g.nodes@[offb + b.final_idx].transitions@.contains((Option::<char>::None, fin)));
    assert(g.edge((offb + b.final_idx) as usize, None, fin));
    if exists|i: int| 0 <= i <= s.len() && a.accepted(#[trigger] s.take(i)) && b.accepted(s.skip(i)) {
        let i = choose|i: int|
            0 <= i <= s.len() && a.accepted(#[trigger] s.take(i)) && b.accepted(s.skip(i));
        let ka = choose|ka: nat| #[trigger] a.reach_fuel(0, s.take(i), a.final_idx, ka);
        lemma_embed_reach(g, a, 1, extra_a, 0, s.take(i), a.final_idx, ka);
        let kb = choose|kb: nat| #[trigger] b.reach_fuel(0, s.skip(i), b.final_idx, kb);
        lemma_embed_reach(g, b, offb, extra_b, 0, s.skip(i), b.final_idx, kb);
        assert(g.reach_fuel(fin, Seq::<char>::empty(), fin, 0nat));
        g.lemma_step_eps((offb + b.final_idx) as usize, fin, Seq::<char>::empty(), fin, 0nat);
        g.lemma_fuel_trans(
            (offb + 0) as usize,
            s.skip(i),
            (offb + b.final_idx) as usize,
            kb,
            Seq::<char>::empty(),
            fin,
            1nat,
        );
        assert(s.skip(i) + Seq::<char>::empty() =~= s.skip(i));
        g.lemma_step_eps((1 + a.final_idx) as usize, offb, s.skip(i), fin, (kb + 1) as nat);
        g.lemma_fuel_trans(
            (1 + 0) as usize,
            s.take(i),
            (1 + a.final_idx) as usize,
            ka,
            s.skip(i),
            fin,
            (kb + 2) as nat,
        );
        assert(s.take(i) + s.skip(i) =~= s);
        g.lemma_step_eps(0, 1, s, fin, (ka + kb + 2) as nat);
        assert(g.accepted(s));
    }
    if g.accepted(s) && !(exists|i: int|
        0 <= i <= s.len() && a.accepted(#[trigger] s.take(i)) && b.accepted(s.skip(i))) {
        let n = choose|n: nat| #[trigger] g.reach_fuel(0, s, fin, n);
        if n > 0 && exists|m1: usize|
            #[trigger] g.edge(0, None, m1) && g.reach_fuel(m1, s, fin, (n - 1) as nat) {
            let m1 = choose|m1: usize|
                #[trigger] g.edge(0, None, m1) && g.reach_fuel(m1, s, fin, (n - 1) as nat);
            let kk = choose|kk: int|
                0 <= kk < g.nodes@[0].transitions@.len() && g.nodes@[0].transitions@[kk] == (
                    Option::<char>::None,
                    m1,
                );
            assert(m1 == 1);
            lemma_embed_run(g, a, 1, extra_a, 0, s, fin, (n - 1) as nat);
            let (j, t, m) = choose|j: int, t: usize, m: nat|
                0 <= j <= s.len() && a.reach(0, s.take(j), a.final_idx) && extra_a.contains(
                    (Option::<char>::None, t),
                ) && m < (n - 1) as nat && #[trigger] g.reach_fuel(t, s.skip(j), fin, m);
            let tk = choose|tk: int|
                0 <= tk < extra_a.len() && extra_a[tk] == (Option::<char>::None, t);
            assert(t == offb);
            lemma_embed_run(g, b, offb, extra_b, 0, s.skip(j), fin, m);
            let (j2, t2, m2) = choose|j2: int, t2: usize, m2: nat|
                0 <= j2 <= s.skip(j).len() && b.reach(0, s.skip(j).take(j2), b.final_idx)
                    && extra_b.contains((Option::<char>::None, t2)) && m2 < m
                    && #[trigger] g.reach_fuel(t2, s.skip(j).skip(j2), fin, m2);
            let tk2 = choose|tk2: int|
                0 <= tk2 < extra_b.len() && extra_b[tk2] == (Option::<char>::None, t2);
            assert(t2 == fin);
            g.lemma_stuck(fin, s.skip(j).skip(j2), fin, m2);
            assert(j2 == s.skip(j).len());
            assert(s.skip(j).take(j2) =~= s.skip(j));
            assert(a.accepted(s.take(j)) && b.accepted(s.skip(j)));
        } else {
            let m1 = choose|m1: usize|
                #[trigger] g.edge(0, Some(s[0]), m1) && g.reach_fuel(m1, s.skip(1), fin, (n - 1) as nat);
            let kk = choose|kk: int|
                0 <= kk < g.nodes@[0].transitions@.len() && g.nodes@[0].transitions@[kk] == (
                    Some(s[0]),
                    m1,
                );
            assert(false);
        }
        assert(false);
    }
}

/// The layout [`NFA::star`] builds: a new start with epsilon transitions
/// into the embedded copy of the operand and directly to the new accepting
/// state; the embedded accepting node leads by epsilon both to the new
/// accepting state and back to the embedded start of the operand.
pub open spec fn star_shape(g: NFA, a: NFA) -> bool {
    let na = a.nodes@.len() as int;
    &&& g.nodes@.len() == na + 2
    &&& g.nodes@.len() <= usize::MAX
    &&& g.start_idx == 0
    &&& g.final_idx == na + 1
    &&& g.nodes@[0].transitions@.len() == 2
    &&& g.nodes@[0].transitions@[0] == (Option::<char>::None, 1usize)
    &&& g.nodes@[0].transitions@[1] == (Option::<char>::None, (na + 1) as usize)
    &&& g.nodes@[g.final_idx as int].transitions@.len() == 0
    &&& embeds_at(g, a, 1, eps_seq(seq![g.final_idx, 1usize]))
}

/// Completeness of the repetition layout, from the embedded start: a
/// nonempty sequence made of one or more operand-accepted segments is
/// consumed by a path from the embedded start to the accepting state.
proof fn lemma_star_complete_inner(g: NFA, a: NFA, ra: Regex, s: Seq<char>)
    requires
        a.wf(),
        a.start_idx == 0,
        star_shape(g, a),
        forall|t: Seq<char>| #[trigger] a.accepted(t) <==> in_language(ra, t),
        in_language(Regex::Star(Box::new(ra)), s),
        s.len() > 0,
    ensures
        g.reach(1, s, g.final_idx),
    decreases s.len(),
{
    let fin = g.final_idx;
    let extra = eps_seq(seq![fin, 1usize]);
    assert(extra.len() == 2 && extra[0] == (Option::<char>::None, fin) && extra[1] == (
        Option::<char>::None,
        1usize,
    ));
    let atsl = shift_seq(a.nodes@[a.final_idx as int].transitions@, 1).len() as int;
    assert(g.nodes@[1 + a.final_idx].transitions@[atsl] == (Option::<char>::None, fin));
    assert(g.nodes@[1 + a.final_idx].transitions@.contains((Option::<char>::None, fin)));
    assert(g.edge((1 + a.final_idx) as usize, None, fin));
    assert(g.nodes@[1 + a.final_idx].transitions@[atsl + 1] == (Option::<char>::None, 1usize));
    assert(g.nodes@[1 + a.final_idx].transitions@.contains((Option::<char>::None, 1usize)));
    assert(g.edge((1 + a.final_idx) as usize, None, 1));
    let i = choose|i: int|
        1 <= i <= s.len() && in_language(ra, #[trigger] s.take(i)) && in_language(
            Regex::Star(Box::new(ra)),
            s.skip(i),
        );
    assert(a.accepted(s.take(i)));
    let ka = choose|ka: nat| #[trigger] a.reach_fuel(0, s.take(i), a.final_idx, ka);
    lemma_embed_reach(g, a, 1, extra, 0, s.take(i), a.final_idx, ka);
    if s.skip(i).len() == 0 {
        assert(g.reach_fuel(fin, Seq::<char>::empty(), fin, 0nat));
        g.lemma_step_eps((1 + a.final_idx) as usize, fin, Seq::<char>::empty(), fin, 0nat);
        g.lemma_fuel_trans(
            (1 + 0) as usize,
            s.take(i),
            (1 + a.final_idx) as usize,
            ka,
            Seq::<char>::empty(),
            fin,
            1nat,
        );
        assert(s.take(i) + Seq::<char>::empty() =~= s);
        assert(g.reach(1, s, fin));
    } else {
        lemma_star_complete_inner(g, a, ra, s.skip(i));
        let k2 = choose|k2: nat| #[trigger] g.reach_fuel(1, s.skip(i), fin, k2);
        g.lemma_step_eps((1 + a.final_idx) as usize, 1, s.skip(i), fin, k2);
        g.lemma_fuel_trans(
            (1 + 0) as usize,
            s.take(i),
            (1 + a.final_idx) as usize,
            ka,
            s.skip(i),
            fin,
            (k2 + 1) as nat,
        );
        assert(s.take(i) + s.skip(i) =~= s);
        assert(g.reach(1, s, fin));
    }
}

/// Completeness of the repetition layout: every sequence in the star of the
/// operand's language is accepted.
proof fn lemma_star_complete(g: NFA, a: NFA, ra: Regex, s: Seq<char>)
    requires
        a.wf(),
        a.start_idx == 0,
        star_shape(g, a),
        forall|t: Seq<char>| #[trigger] a.accepted(t) <==> in_language(ra, t),
        in_language(Regex::Star(Box::new(ra)), s),
    ensures
        g.accepted(s),
{
    let fin = g.final_idx;
    if s.len() == 0 {
        assert(g.nodes@[0].transitions@.contains((Option::<char>::None, (
            a.nodes@.len() + 1) as usize,
        )));
        assert(g.edge(0, None, fin));
        assert(g.reach_fuel(fin, s, fin, 0nat));
        g.lemma_step_eps(0, fin, s, fin, 0nat);
        assert(g.accepted(s));
    } else {
        lemma_star_complete_inner(g, a, ra, s);
        assert(g.nodes@[0].transitions@.contains((Option::<char>::None, 1usize)));
        assert(g.edge(0, None, 1));
        let k = choose|k: nat| #[trigger] g.reach_fuel(1, s, fin, k);
        g.lemma_step_eps(0, 1, s, fin, k);
        assert(g.accepted(s));
    }
}

/// Soundness of the repetition layout, from the embedded start: whatever a
/// path from the embedded start to the accepting state consumes is in the
/// star of the operand's language.
proof fn lemma_star_sound_inner(g: NFA, a: NFA, ra: Regex, s: Seq<char>, n: nat)
    requires
        a.wf(),
        a.start_idx == 0,
        star_shape(g, a),
        forall|t: Seq<char>| #[trigger] a.accepted(t) <==> in_language(ra, t),
        g.reach_fuel(1, s, g.final_idx, n),
    ensures
        in_language(Regex::Star(Box::new(ra)), s),
    decreases n,
{
    let fin = g.final_idx;
    let extra = eps_seq(seq![fin, 1usize]);
    assert(extra.len() == 2 && extra[0] == (Option::<char>::None, fin) && extra[1] == (
        Option::<char>::None,
        1usize,
    ));
    assert(eps_extras(extra));
    let star = Regex::Star(Box::new(ra));
    assert(g.reach_fuel((1 + 0) as usize, s, fin, n));
    lemma_embed_run(g, a, 1, extra, 0, s, fin, n);
    let (j, t, m) = choose|j: int, t: usize, m: nat|
        0 <= j <= s.len() && a.reach(0, s.take(j), a.final_idx) && extra.contains(
            (Option::<char>::None, t),
        ) && m < n && #[trigger] g.reach_fuel(t, s.skip(j), fin, m);
    let tk = choose|tk: int| 0 <= tk < extra.len() && extra[tk] == (Option::<char>::None, t);
    assert(t == fin || t == 1);
    assert(a.accepted(s.take(j)));
    assert(in_language(ra, s.take(j)));
    if t == fin {
        g.lemma_stuck(fin, s.skip(j), fin, m);
        assert(j == s.len());
        assert(s.take(j) =~= s);
        assert(in_language(ra, s));
        if s.len() > 0 {
            let i = s.len() as int;
            assert(s.take(i) == s);
            assert(s.skip(i).len() == 0);
            assert(in_language(star, s.skip(i)));
            assert(in_language(star, s));
        }
    } else {
        lemma_star_sound_inner(g, a, ra, s.skip(j), m);
        if j == 0 {
            assert(s.skip(0) =~= s);
            assert(in_language(star, s));
        } else {
            assert(in_language(ra, s.take(j)) && in_language(star, s.skip(j)));
            assert(in_language(star, s));
        }
    }
}

/// Soundness of the repetition layout: everything the automaton accepts is
/// in the star of the operand's language.
proof fn lemma_star_sound(g: NFA, a: NFA, ra: Regex, s: Seq<char>, n: nat)
    requires
        a.wf(),
        a.start_idx == 0,
        star_shape(g, a),
        forall|t: Seq<char>| #[trigger] a.accepted(t) <==> in_language(ra, t),
        g.reach_fuel(0, s, g.final_idx, n),
    ensures
        in_language(Regex::Star(Box::new(ra)), s),
    decreases n,
{
    let fin = g.final_idx;
    let star = Regex::Star(Box::new(ra));
    if n > 0 && exists|m1: usize|
        #[trigger] g.edge(0, None, m1) && g.reach_fuel(m1, s, fin, (n - 1) as nat) {
        let m1 = choose|m1: usize|
            #[trigger] g.edge(0, None, m1) && g.reach_fuel(m1, s, fin, (n - 1) as nat);
        let kk = choose|kk: int|
            0 <= kk < g.nodes@[0].transitions@.len() && g.nodes@[0].transitions@[kk] == (
                Option::<char>::None,
                m1,
            );
        assert(m1 == 1 || m1 == fin);
        if m1 == fin {
            g.lemma_stuck(fin, s, fin, (n - 1) as nat);
            assert(in_language(star, s));
        } else {
            lemma_star_sound_inner(g, a, ra, s, (n - 1) as nat);
        }
    } else {
        assert(0 != fin);
        let m1 = choose|m1: usize|
            #[trigger] g.edge(0, Some(s[0]), m1) && g.reach_fuel(m1, s.skip(1), fin, (n - 1) as nat);
        let kk = choose|kk: int|
            0 <= kk < g.nodes@[0].transitions@.len() && g.nodes@[0].transitions@[kk] == (
                Some(s[0]),
                m1,
            );
        assert(false);
    }
}

/// The two-state fragments built by [`NFA::empty`] and [`NFA::single`]: one
/// transition with the given label from the start state to the accepting
/// state, which has no outgoing transitions.
pub open spec fn leaf_shape(r: NFA, lbl: Option<char>) -> bool {
    &&& r.nodes@.len() == 2
    &&& r.start_idx == 0
    &&& r.final_idx == 1
    &&& r.nodes@[0].transitions@.len() == 1
    &&& r.nodes@[0].transitions@[0] == (lbl, 1usize)
    &&& r.nodes@[1].transitions@.len() == 0
}

/// A leaf fragment accepts exactly what one traversal of its single
/// transition consumes.
proof fn lemma_leaf_language(r: NFA, lbl: Option<char>, s: Seq<char>)
    requires
        leaf_shape(r, lbl),
    ensures
        r.accepted(s) <==> (match lbl {
            None => s.len() == 0,
            Some(c) => s.len() == 1 && s[0] == c,
        }),
{
    assert(r.nodes@[0].transitions@.contains((lbl, 1usize)));
    assert(r.edge(0, lbl, 1));
    match lbl {
        None => {
            if s.len() == 0 {
                assert(r.reach_fuel(1, s, 1, 0nat));
                r.lemma_step_eps(0, 1, s, 1, 0nat);
                assert(r.reach(0, s, 1));
            }
        },
        Some(c) => {
            if s.len() == 1 && s[0] == c {
                assert(s.skip(1).len() == 0);
                assert(r.reach_fuel(1, s.skip(1), 1, 0nat));
                r.lemma_step_sym(0, 1, c, s.skip(1), s, 1, 0nat);
                assert(r.reach(0, s, 1));
            }
        },
    }
    if r.accepted(s) {
        let n = choose|n: nat| #[trigger] r.reach_fuel(0, s, 1, n);
        if n > 0 && exists|m: usize|
            #[trigger] r.edge(0, None, m) && r.reach_fuel(m, s, 1, (n - 1) as nat) {
            let m = choose|m: usize|
                #[trigger] r.edge(0, None, m) && r.reach_fuel(m, s, 1, (n - 1) as nat);
            let kk = choose|kk: int|
                0 <= kk < r.nodes@[0].transitions@.len() && r.nodes@[0].transitions@[kk] == (
                    Option::<char>::None,
                    m,
                );
            assert(kk == 0);
            assert(lbl is None && m == 1);
            r.lemma_stuck(1, s, 1, (n - 1) as nat);
        } else {
            let m = choose|m: usize|
                #[trigger] r.edge(0, Some(s[0]), m) && r.reach_fuel(m, s.skip(1), 1, (n - 1) as nat);
            let kk = choose|kk: int|
                0 <= kk < r.nodes@[0].transitions@.len() && r.nodes@[0].transitions@[kk] == (
                    Some(s[0]),
                    m,
                );
            assert(kk == 0);
            assert(lbl == Some(s[0]) && m == 1);
            r.lemma_stuck(1, s.skip(1), 1, (n - 1) as nat);
            assert(s.len() == 1);
        }
    }
}

impl NFA {
    /// The fragment accepting exactly the empty sequence: two states joined
    /// by one epsilon transition.
    pub fn empty() -> (r: NFA)
        ensures
            r.wf(),
            r.start_idx == 0,
            r.final_idx == 1,
            r.nodes@.len() == 2,
            leaf_shape(r, Option::<char>::None),
            forall|s: Seq<char>| #[trigger] r.accepted(s) <==> s.len() == 0,
    {
        let mut t0: Vec<(Option<char>, usize)> = Vec::new();
        t0.push((None, 1));
        let mut nodes: Vec<Node> = Vec::new();
        nodes.push(Node::new(t0));
        nodes.push(Node::new(Vec::new()));
        let r = NFA { nodes, start_idx: 0, final_idx: 1 };
        proof {
            assert(leaf_shape(r, Option::<char>::None));
            assert forall|q: int, k: int|
                0 <= q < r.nodes@.len() && 0 <= k < r.nodes@[q].transitions@.len() implies (
            #[trigger] r.nodes@[q].transitions@[k]).1 < r.nodes@.len() by {
                assert(q == 0 && k == 0);
            };
            assert forall|s: Seq<char>| #[trigger] r.accepted(s) <==> s.len() == 0 by {
                lemma_leaf_language(r, Option::<char>::None, s);
            };
        }
        r
    }

    /// The fragment accepting exactly the one-symbol sequence `[a]`: two
    /// states joined by one transition labeled `a`.
    pub fn single(a: char) -> (r: NFA)
        ensures
            r.wf(),
            r.start_idx == 0,
            r.final_idx == 1,
            r.nodes@.len() == 2,
            leaf_shape(r, Some(a)),
            forall|s: Seq<char>| #[trigger] r.accepted(s) <==> (s.len() == 1 && s[0] == a),
    {
        let mut t0: Vec<(Option<char>, usize)> = Vec::new();
        t0.push((Some(a), 1));
        let mut nodes: Vec<Node> = Vec::new();
        nodes.push(Node::new(t0));
        nodes.push(Node::new(Vec::new()));
        let r = NFA { nodes, start_idx: 0, final_idx: 1 };
        proof {
            assert(leaf_shape(r, Some(a)));
            assert forall|q: int, k: int|
                0 <= q < r.nodes@.len() && 0 <= k < r.nodes@[q].transitions@.len() implies (
            #[trigger] r.nodes@[q].transitions@[k]).1 < r.nodes@.len() by {
                assert(q == 0 && k == 0);
            };
            assert forall|s: Seq<char>| #[trigger] r.accepted(s) <==> (s.len() == 1 && s[0] == a) by {
                lemma_leaf_language(r, Some(a), s);
            };
        }
        r
    }

    /// A fresh vector of `total` nodes without transitions.
    fn blank_nodes(total: usize) -> (r: Vec<Node>)
        ensures
            r@.len() == total,
            forall|j: int| 0 <= j < total ==> (#[trigger] r@[j]).transitions@.len() == 0,
    {
        let mut nodes: Vec<Node> = Vec::new();
        let mut i: usize = 0;
        while i < total
            invariant
                i <= total,
                nodes@.len() == i,
                forall|j: int| 0 <= j < i ==> (#[trigger] nodes@[j]).transitions@.len() == 0,
            decreases total - i,
        {
            nodes.push(Node::new(Vec::new()));
            i += 1;
        }
        nodes
    }

    /// Alternation: a new start state with epsilon transitions into embedded
    /// copies of both operands; both embedded accepting states lead by
    /// epsilon to a single new accepting state.
    fn or(a: NFA, b: NFA) -> (r: NFA)
        requires
            a.wf(),
            b.wf(),
            a.start_idx == 0,
            b.start_idx == 0,
            a.nodes@.len() + b.nodes@.len() + 2 <= usize::MAX,
        ensures
            r.wf(),
            r.start_idx == 0,
            r.nodes@.len() == a.nodes@.len() + b.nodes@.len() + 2,
            or_shape(r, a, b),
            forall|s: Seq<char>| #[trigger] r.accepted(s) <==> (a.accepted(s) || b.accepted(s)),
    {
        let na = a.nodes.len();
        let nb = b.nodes.len();
        let total = na + nb + 2;
        let mut nodes = Self::blank_nodes(total);
        let final_idx = total - 1;
        let mut t0: Vec<(Option<char>, usize)> = Vec::new();
        t0.push((None, 1));
        t0.push((None, 1 + na));
        nodes[0] = Node::new(t0);
        let mut ft: Vec<usize> = Vec::new();
        ft.push(final_idx);
        let ghost ns0 = nodes@;
        NFA::embed(&mut nodes, &a, 1, ft.as_slice());
        let ghost ns1 = nodes@;
        NFA::embed(&mut nodes, &b, 1 + na, ft.as_slice());
        let r = NFA { nodes, start_idx: 0, final_idx };
        proof {
            let extra = eps_seq(ft@);
            assert(ft@ =~= seq![final_idx]);
            // the second embedding leaves the first block and the outer nodes alone
            assert(embedded_in(ns1, a, 1, extra));
            assert forall|i: int|
                0 <= i < a.nodes@.len() implies #[trigger] r.nodes@[1 + i] == ns1[1 + i] by {}
            assert(embeds_at(r, a, 1, extra));
            assert(embeds_at(r, b, (1 + na) as usize, extra));
            assert(r.nodes@[0] == ns1[0] && ns1[0] == ns0[0]);
            assert(r.nodes@[final_idx as int].transitions@.len() == 0);
            assert(or_shape(r, a, b));
            assert forall|kk: int| 0 <= kk < extra.len() implies (#[trigger] extra[kk]).1
                < r.nodes@.len() by {
                assert(extra[kk] == (Option::<char>::None, ft@[kk]));
            };
            lemma_embed_targets(r, a, 1, extra);
            lemma_embed_targets(r, b, (1 + na) as usize, extra);
            assert forall|q: int, k: int|
                0 <= q < r.nodes@.len() && 0 <= k < r.nodes@[q].transitions@.len() implies (
            #[trigger] r.nodes@[q].transitions@[k]).1 < r.nodes@.len() by {
                if q == 0 {
                    assert(k == 0 || k == 1);
                } else if q < 1 + na {
                    assert(r.nodes@[1 + (q - 1)] == r.nodes@[q]);
                    assert((r.nodes@[1 + (q - 1)].transitions@[k]).1 < r.nodes@.len());
                } else if q < 1 + na + nb {
                    assert(r.nodes@[(1 + na) + (q - 1 - na)] == r.nodes@[q]);
                    assert((r.nodes@[(1 + na) + (q - 1 - na)].transitions@[k]).1 < r.nodes@.len());
                }
            };
            assert(r.wf());
            assert forall|s: Seq<char>| #[trigger] r.accepted(s) <==> (a.accepted(s)
                || b.accepted(s)) by {
                lemma_or_language(r, a, b, s);
            };
        }
        r
    }

    /// Concatenation: a new start leads by epsilon into the embedded copy of
    /// `a`; `a`'s embedded accepting state leads by epsilon into the embedded
    /// copy of `b`; `b`'s embedded accepting state leads by epsilon to the
    /// new accepting state.
    fn concat(a: NFA, b: NFA) -> (r: NFA)
        requires
            a.wf(),
            b.wf(),
            a.start_idx == 0,
            b.start_idx == 0,
            a.nodes@.len() + b.nodes@.len() + 2 <= usize::MAX,
        ensures
            r.wf(),
            r.start_idx == 0,
            r.nodes@.len() == a.nodes@.len() + b.nodes@.len() + 2,
            then_shape(r, a, b),
            forall|s: Seq<char>|
                #[trigger] r.accepted(s) <==> exists|i: int|
                    0 <= i <= s.len() && a.accepted(#[trigger] s.take(i)) && b.accepted(s.skip(i)),
    {
        let na = a.nodes.len();
        let nb = b.nodes.len();
        let total = na + nb + 2;
        let mut nodes = Self::blank_nodes(total);
        let final_idx = total - 1;
        let mut t0: Vec<(Option<char>, usize)> = Vec::new();
        t0.push((None, 1));
        nodes[0] = Node::new(t0);
        let mut fta: Vec<usize> = Vec::new();
        fta.push(na + 1);
        let mut ftb: Vec<usize> = Vec::new();
        ftb.push(final_idx);
        let ghost ns0 = nodes@;
        NFA::embed(&mut nodes, &a, 1, fta.as_slice());
        let ghost ns1 = nodes@;
        NFA::embed(&mut nodes, &b, 1 + na, ftb.as_slice());
        let r = NFA { nodes, start_idx: 0, final_idx };
        proof {
            let extra_a = eps_seq(fta@);
            let extra_b = eps_seq(ftb@);
            assert(fta@ =~= seq![(na + 1) as usize]);
            assert(ftb@ =~= seq![final_idx]);
            assert(embedded_in(ns1, a, 1, extra_a));
            assert forall|i: int|
                0 <= i < a.nodes@.len() implies #[trigger] r.nodes@[1 + i] == ns1[1 + i] by {}
            assert(embeds_at(r, a, 1, extra_a));
            assert(embeds_at(r, b, (1 + na) as usize, extra_b));
            assert(r.nodes@[0] == ns1[0] && ns1[0] == ns0[0]);
            assert(r.nodes@[final_idx as int].transitions@.len() == 0);
            assert(then_shape(r, a, b));
            assert forall|kk: int| 0 <= kk < extra_a.len() implies (#[trigger] extra_a[kk]).1
                < r.nodes@.len() by {
                assert(extra_a[kk] == (Option::<char>::None, fta@[kk]));
            };
            assert forall|kk: int| 0 <= kk < extra_b.len() implies (#[trigger] extra_b[kk]).1
                < r.nodes@.len() by {
                assert(extra_b[kk] == (Option::<char>::None, ftb@[kk]));
            };
            lemma_embed_targets(r, a, 1, extra_a);
            lemma_embed_targets(r, b, (1 + na) as usize, extra_b);
            assert forall|q: int, k: int|
                0 <= q < r.nodes@.len() && 0 <= k < r.nodes@[q].transitions@.len() implies (
            #[trigger] r.nodes@[q].transitions@[k]).1 < r.nodes@.len() by {
                if q == 0 {
                    assert(k == 0);
                } else if q < 1 + na {
                    assert(r.nodes@[1 + (q - 1)] == r.nodes@[q]);
                    assert((r.nodes@[1 + (q - 1)].transitions@[k]).1 < r.nodes@.len());
                } else if q < 1 + na + nb {
                    assert(r.nodes@[(1 + na) + (q - 1 - na)] == r.nodes@[q]);
                    assert((r.nodes@[(1 + na) + (q - 1 - na)].transitions@[k]).1 < r.nodes@.len());
                }
            };
            assert(r.wf());
            assert forall|s: Seq<char>| #[trigger] r.accepted(s) <==> exists|i: int|
                0 <= i <= s.len() && a.accepted(#[trigger] s.take(i)) && b.accepted(s.skip(i)) by {
                lemma_then_language(r, a, b, s);
            };
        }
        r
    }

    /// Repetition: a new start leads by epsilon into the embedded copy of
    /// `a` and directly to the new accepting state; `a`'s embedded accepting
    /// state leads by epsilon both to the new accepting state and back to
    /// `a`'s embedded start.
    fn star(a: NFA) -> (r: NFA)
        requires
            a.wf(),
            a.start_idx == 0,
            a.nodes@.len() + 2 <= usize::MAX,
        ensures
            r.wf(),
            r.start_idx == 0,
            r.nodes@.len() == a.nodes@.len() + 2,
            star_shape(r, a),
    {
        let na = a.nodes.len();
        let total = na + 2;
        let mut nodes = Self::blank_nodes(total);
        let final_idx = total - 1;
        let mut t0: Vec<(Option<char>, usize)> = Vec::new();
        t0.push((None, 1));
        t0.push((None, final_idx));
        nodes[0] = Node::new(t0);
        let mut ft: Vec<usize> = Vec::new();
        ft.push(final_idx);
        ft.push(1);
        NFA::embed(&mut nodes, &a, 1, ft.as_slice());
        let r = NFA { nodes, start_idx: 0, final_idx };
        proof {
            let extra = eps_seq(ft@);
            assert(ft@ =~= seq![final_idx, 1usize]);
            assert(embeds_at(r, a, 1, extra));
            assert(r.nodes@[final_idx as int].transitions@.len() == 0);
            assert(star_shape(r, a));
            assert forall|kk: int| 0 <= kk < extra.len() implies (#[trigger] extra[kk]).1
                < r.nodes@.len() by {
                assert(extra[kk] == (Option::<char>::None, ft@[kk]));
            };
            lemma_embed_targets(r, a, 1, extra);
            assert forall|q: int, k: int|
                0 <= q < r.nodes@.len() && 0 <= k < r.nodes@[q].transitions@.len() implies (
            #[trigger] r.nodes@[q].transitions@[k]).1 < r.nodes@.len() by {
                if q == 0 {
                    assert(k == 0 || k == 1);
                } else if q < 1 + na {
                    assert(r.nodes@[1 + (q - 1)] == r.nodes@[q]);
                    assert((r.nodes@[1 + (q - 1)].transitions@[k]).1 < r.nodes@.len());
                }
            };
            assert(r.wf());
        }
        r
    }

    /// Compile a pattern into an automaton by Thompson's construction.
    ///
    /// The returned automaton accepts exactly the language the pattern
    /// denotes.  The size bound is a machine limit: the construction
    /// allocates one node collection of `nfa_size(reg)` states.
    pub fn from_regex(reg: &Regex) -> (r: NFA)
        requires
            nfa_size(*reg) <= usize::MAX,
        ensures
            r.wf(),
            r.start_idx == 0,
            r.final_idx == r.nodes@.len() - 1,
            r.nodes@[r.final_idx as int].transitions@.len() == 0,
            r.nodes@.len() == nfa_size(*reg),
            transition_table(r) == compiled_table(*reg),
            forall|s: Seq<char>| #[trigger] r.accepted(s) <==> in_language(*reg, s),
        decreases size(*reg),
    {
        match reg {
            Regex::Empty => {
                let r = Self::empty();
                proof {
                    lemma_leaf_table(r, Option::<char>::None);
                }
                r
            },
            Regex::Single(c) => {
                let r = Self::single(*c);
                proof {
                    lemma_leaf_table(r, Some(*c));
                }
                r
            },
            Regex::Or(ra, rb) => {
                let na = Self::from_regex(ra);
                let nb = Self::from_regex(rb);
                let ghost ga = na;
                let ghost gb = nb;
                let r = Self::or(na, nb);
                proof {
                    assert forall|s: Seq<char>| #[trigger] r.accepted(s) <==> in_language(
                        *reg,
                        s,
                    ) by {
                        assert(r.accepted(s) <==> (ga.accepted(s) || gb.accepted(s)));
                        assert(ga.accepted(s) <==> in_language(**ra, s));
                        assert(gb.accepted(s) <==> in_language(**rb, s));
                    };
                    lemma_or_table(r, ga, gb);
                    assert(transition_table(ga) == compiled_table(**ra));
                    assert(transition_table(gb) == compiled_table(**rb));
                    assert(((compiled_table(**ra).len() + compiled_table(**rb).len() + 1) as usize)
                        == r.final_idx);
                    assert(((1 + compiled_table(**ra).len()) as usize) == ((1
                        + ga.nodes@.len()) as usize));
                    assert(transition_table(r) == compiled_table(*reg));
                }
                r
            },
            Regex::Then(ra, rb) => {
                let na = Self::from_regex(ra);
                let nb = Self::from_regex(rb);
                let ghost ga = na;
                let ghost gb = nb;
                let r = Self::concat(na, nb);
                proof {
                    assert forall|s: Seq<char>| #[trigger] r.accepted(s) <==> in_language(
                        *reg,
                        s,
                    ) by {
                        assert(r.accepted(s) <==> exists|i: int|
                            0 <= i <= s.len() && ga.accepted(#[trigger] s.take(i)) && gb.accepted(
                                s.skip(i),
                            ));
                        assert forall|i: int| 0 <= i <= s.len() implies ((ga.accepted(
                            #[trigger] s.take(i),
                        ) && gb.accepted(s.skip(i))) <==> (in_language(**ra, s.take(i))
                            && in_language(**rb, s.skip(i)))) by {
                            assert(ga.accepted(s.take(i)) <==> in_language(**ra, s.take(i)));
                            assert(gb.accepted(s.skip(i)) <==> in_language(**rb, s.skip(i)));
                        };
                    };
                    lemma_then_table(r, ga, gb);
                    assert(transition_table(ga) == compiled_table(**ra));
                    assert(transition_table(gb) == compiled_table(**rb));
                    assert(((compiled_table(**ra).len() + compiled_table(**rb).len() + 1) as usize)
                        == r.final_idx);
                    assert(((1 + compiled_table(**ra).len()) as usize) == ((1
                        + ga.nodes@.len()) as usize));
                    assert(transition_table(r) == compiled_table(*reg));
                }
                r
            },
            Regex::Star(ra) => {
                let na = Self::from_regex(ra);
                let ghost ga = na;
                let r = Self::star(na);
                proof {
                    assert forall|s: Seq<char>| #[trigger] r.accepted(s) <==> in_language(
                        *reg,
                        s,
                    ) by {
                        if in_language(*reg, s) {
                            lemma_star_complete(r, ga, **ra, s);
                        }
                        if r.accepted(s) {
                            let n = choose|n: nat|
                                #[trigger] r.reach_fuel(0, s, r.final_idx, n);
                            lemma_star_sound(r, ga, **ra, s, n);
                        }
                    };
                    lemma_star_table(r, ga);
                    assert(transition_table(ga) == compiled_table(**ra));
                    assert(((compiled_table(**ra).len() + 1) as usize) == r.final_idx);
                    assert(transition_table(r) == compiled_table(*reg));
                }
                r
            },
        }
    }

    /// Copy `sub`'s nodes into `nodes` starting at index `offset`, shifting
    /// every transition target by `offset` and appending one epsilon
    /// transition to each target in `final_trans` to the copy of `sub`'s
    /// accepting node.
    pub(crate) fn embed(nodes: &mut Vec<Node>, sub: &NFA, offset: usize, final_trans: &[usize])
        requires
            sub.wf(),
            offset + sub.nodes@.len() <= old(nodes)@.len(),
        ensures
            final(nodes)@.len() == old(nodes)@.len(),
            forall|j: int|
                0 <= j < old(nodes)@.len() && !(offset <= j < offset + sub.nodes@.len())
                    ==> final(nodes)@[j] == old(nodes)@[j],
            embedded_in(final(nodes)@, *sub, offset, eps_seq(final_trans@)),
    {
        // a vector's length fits in usize; that bounds every shifted target
        let total = nodes.len();
        let mut i: usize = 0;
        while i < sub.nodes.len()
            invariant
                i <= sub.nodes@.len(),
                sub.wf(),
                offset + sub.nodes@.len() <= old(nodes)@.len(),
                old(nodes)@.len() <= usize::MAX,
                nodes@.len() == old(nodes)@.len(),
                forall|j: int|
                    0 <= j < nodes@.len() && !(offset <= j < offset + i) ==> nodes@[j] == old(
                        nodes,
                    )@[j],
                forall|j: int|
                    0 <= j < i && j != sub.final_idx ==> (#[trigger] nodes@[offset + j]).transitions@
                        == shift_seq(sub.nodes@[j].transitions@, offset),
                forall|j: int|
                    0 <= j < i && j == sub.final_idx ==> (#[trigger] nodes@[offset + j]).transitions@
                        == shift_seq(sub.nodes@[j].transitions@, offset) + eps_seq(final_trans@),
            decreases sub.nodes@.len() - i,
        {
            let mut ts: Vec<(Option<char>, usize)> = Vec::new();
            let mut k: usize = 0;
            while k < sub.nodes[i].transitions.len()
                invariant
                    k <= sub.nodes@[i as int].transitions@.len(),
                    sub.wf(),
                    i < sub.nodes@.len(),
                    offset + sub.nodes@.len() <= old(nodes)@.len(),
                    old(nodes)@.len() <= usize::MAX,
                    ts@.len() == k,
                    forall|j: int|
                        0 <= j < k ==> ts@[j] == (
                            sub.nodes@[i as int].transitions@[j].0,
                            (sub.nodes@[i as int].transitions@[j].1 + offset) as usize,
                        ),
                decreases sub.nodes@[i as int].transitions@.len() - k,
            {
                let t = sub.nodes[i].transitions[k];
                proof {
                    assert(sub.nodes@[i as int].transitions@[k as int].1 < sub.nodes@.len());
                }
                ts.push((t.0, t.1 + offset));
                k += 1;
            }
            proof {
                assert(ts@ =~= shift_seq(sub.nodes@[i as int].transitions@, offset));
            }
            if i == sub.final_idx {
                let ghost base = ts@;
                let mut k2: usize = 0;
                while k2 < final_trans.len()
                    invariant
                        k2 <= final_trans@.len(),
                        ts@.len() == base.len() + k2,
                        forall|j: int| 0 <= j < base.len() ==> ts@[j] == base[j],
                        forall|j: int|
                            0 <= j < k2 ==> ts@[base.len() + j] == (
                                Option::<char>::None,
                                final_trans@[j],
                            ),
                    decreases final_trans@.len() - k2,
                {
                    let t2 = final_trans[k2];
                    ts.push((None, t2));
                    k2 += 1;
                }
                proof {
                    assert(ts@ =~= base + eps_seq(final_trans@));
                }
            }
            let dst = i + offset;
            nodes[dst] = Node::new(ts);
            i += 1;
        }
    }
}

} // verus!
