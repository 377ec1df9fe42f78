//! The per-order decoder and the cascade that chains the orders.
//!
//! The frontier maps each live context to an accumulated joint weight, the best
//! single transition weight into it and the path reconstructed so far. Joint
//! weights are summed over all incoming contexts while the path follows the
//! locally best edge.

use std::collections::BTreeMap;
use vstd::prelude::*;
use crate::context::{code, lemma_code_bounds, pack, pow_base, push_char};
use crate::mapping::{same_chars, Mapping};

verus! {

broadcast use vstd::laws_cmp::group_laws_cmp, vstd::std_specs::btree::group_btree_axioms;

/// The arithmetic of probabilities that the decoder needs, each operation
/// described by a spec function that the decoder's contracts speak of. The
/// callers pick the representation: integers here, floats in a program.
pub trait Weight: Sized {
    spec fn one_spec() -> Self;

    spec fn zero_spec() -> Self;

    spec fn mul_spec(self, other: Self) -> Self;

    spec fn add_spec(self, other: Self) -> Self;

    /// Whether `self` is strictly greater than `other`.
    spec fn gt_spec(self, other: Self) -> bool;

    fn one() -> (r: Self)
        ensures
            r == Self::one_spec(),
    ;

    fn zero() -> (r: Self)
        ensures
            r == Self::zero_spec(),
    ;

    fn times(&self, other: &Self) -> (r: Self)
        ensures
            r == self.mul_spec(*other),
    ;

    fn plus(&self, other: &Self) -> (r: Self)
        ensures
            r == self.add_spec(*other),
    ;

    fn exceeds(&self, other: &Self) -> (r: bool)
        ensures
            r == self.gt_spec(*other),
    ;

    fn duplicate(&self) -> (r: Self)
        ensures
            r == *self,
    ;
}

/// Integer weights, such as probabilities scaled to a common denominator:
/// products and sums saturate at `u64::MAX`.
impl Weight for u64 {
    open spec fn one_spec() -> u64 {
        1
    }

    open spec fn zero_spec() -> u64 {
        0
    }

    open spec fn mul_spec(self, other: u64) -> u64 {
        if self * other > u64::MAX {
            u64::MAX
        } else {
            (self * other) as u64
        }
    }

    open spec fn add_spec(self, other: u64) -> u64 {
        if self + other > u64::MAX {
            u64::MAX
        } else {
            (self + other) as u64
        }
    }

    open spec fn gt_spec(self, other: u64) -> bool {
        self > other
    }

    fn one() -> (r: u64) {
        1
    }

    fn zero() -> (r: u64) {
        0
    }

    fn times(&self, other: &u64) -> (r: u64) {
        let a = *self;
        let b = *other;
        if b != 0 && a > u64::MAX / b {
            proof {
                assert(a * b > u64::MAX) by (nonlinear_arith)
                    requires
                        b > 0,
                        a > u64::MAX / b,
                ;
            }
            u64::MAX
        } else {
            proof {
                assert(a * b <= u64::MAX) by (nonlinear_arith)
                    requires
                        b == 0 || a <= u64::MAX / b,
                ;
            }
            a * b
        }
    }

    fn plus(&self, other: &u64) -> (r: u64) {
        if *self > u64::MAX - *other {
            u64::MAX
        } else {
            *self + *other
        }
    }

    fn exceeds(&self, other: &u64) -> (r: bool) {
        *self > *other
    }

    fn duplicate(&self) -> (r: u64) {
        *self
    }
}

/// One live context of the frontier.
pub struct State<W> {
    pub context: Vec<char>,
    pub joint: W,
    pub best: W,
    pub path: Vec<char>,
}

/// Why a sentence could not be decoded.
#[derive(PartialEq, Eq, Structural, Clone, Copy, Debug)]
pub enum DecodeError {
    /// The token at this index is not a syllable of the mapping.
    UnknownSyllable { index: usize },
    /// No sequence of candidates is supported by the table.
    NoViablePath,
}

/// Whether the table holds an entry for the characters `s`.
pub open spec fn has_entry<W>(table: Map<u64, W>, s: Seq<char>) -> bool {
    table.contains_key(code(s) as u64)
}

/// The contexts of a frontier.
pub open spec fn contexts<W>(f: Seq<State<W>>) -> Set<Seq<char>> {
    Set::new(|x: Seq<char>| exists|i: int| 0 <= i < f.len() && (#[trigger] f[i]).context@ == x)
}

/// The contexts reached from `prev` by one token with candidates `cands`.
pub open spec fn step<W>(prev: Set<Seq<char>>, cands: Seq<char>, table: Map<u64, W>) -> Set<Seq<char>> {
    Set::new(
        |d: Seq<char>|
            exists|x: Seq<char>, ch: char|
                #![trigger prev.contains(x), cands.contains(ch)]
                prev.contains(x) && cands.contains(ch) && has_entry(table, x.push(ch)) && d == x.push(
                    ch,
                ).drop_first(),
    )
}

/// The contexts reached from `start` by the tokens with candidates `cands[from..to]`.
pub open spec fn reach<W>(
    start: Set<Seq<char>>,
    cands: Seq<Seq<char>>,
    table: Map<u64, W>,
    from: int,
    to: int,
) -> Set<Seq<char>>
    decreases to - from,
{
    if to <= from {
        start
    } else {
        step(reach(start, cands, table, from, to - 1), cands[to - 1], table)
    }
}

/// Whether `p` picks one candidate for each token, in order.
pub open spec fn path_ok(p: Seq<char>, cands: Seq<Seq<char>>) -> bool {
    &&& p.len() == cands.len()
    &&& forall|j: int| 0 <= j < p.len() ==> cands[j].contains(#[trigger] p[j])
}

/// A frontier of distinct contexts of length `len` whose paths fit `cands`.
pub open spec fn frontier_ok<W>(f: Seq<State<W>>, len: nat, cands: Seq<Seq<char>>) -> bool {
    &&& forall|i: int| 0 <= i < f.len() ==> (#[trigger] f[i]).context@.len() == len
    &&& forall|i: int| 0 <= i < f.len() ==> path_ok((#[trigger] f[i]).path@, cands)
    &&& forall|i: int, j: int|
        0 <= i < f.len() && 0 <= j < f.len() && i != j ==> (#[trigger] f[i]).context@ != (#[trigger] f[j]).context@
}

/// The packed form of `ctx` followed by `ch`.
fn key_of(ctx: &Vec<char>, ch: char) -> (r: u64)
    requires
        ctx@.len() <= 2,
    ensures
        r as int == code(ctx@.push(ch)),
{
    let mut v = copy_chars(ctx);
    v.push(ch);
    pack(&v)
}

/// `ctx` without its oldest character, followed by `ch`.
fn shifted(ctx: &Vec<char>, ch: char) -> (r: Vec<char>)
    requires
        ctx@.len() <= 2,
    ensures
        r@ == ctx@.push(ch).drop_first(),
{
    let mut r: Vec<char> = Vec::new();
    let mut j: usize = 1;
    let ghost s = ctx@.push(ch);
    while j <= ctx.len()
        invariant
            1 <= j <= ctx@.len() + 1,
            ctx@.len() <= 2,
            s == ctx@.push(ch),
            r@ == s.subrange(1, j as int),
        decreases ctx@.len() + 1 - j,
    {
        let c = if j < ctx.len() {
            ctx[j]
        } else {
            ch
        };
        r.push(c);
        proof {
            assert(r@ =~= s.subrange(1, j + 1));
        }
        j = j + 1;
    }
    proof {
        assert(r@ =~= s.drop_first());
    }
    r
}

/// The index of the state with context `x`, if any.
fn find_context<W>(f: &Vec<State<W>>, x: &Vec<char>) -> (r: Option<usize>)
    ensures
        match r {
            Some(i) => i < f@.len() && f@[i as int].context@ == x@ && forall|j: int|
                0 <= j < i ==> (#[trigger] f@[j]).context@ != x@,
            None => forall|i: int| 0 <= i < f@.len() ==> (#[trigger] f@[i]).context@ != x@,
        },
{
    let mut i: usize = 0;
    while i < f.len()
        invariant
            i <= f@.len(),
            forall|j: int| 0 <= j < i ==> (#[trigger] f@[j]).context@ != x@,
        decreases f@.len() - i,
    {
        if same_chars(&f[i].context, x) {
            return Some(i);
        }
        i = i + 1;
    }
    None
}

/// A copy of a character vector.
fn copy_chars(v: &Vec<char>) -> (r: Vec<char>)
    ensures
        r@ == v@,
{
    let mut r: Vec<char> = Vec::new();
    let mut i: usize = 0;
    while i < v.len()
        invariant
            i <= v@.len(),
            r@ == v@.take(i as int),
        decreases v@.len() - i,
    {
        r.push(v[i]);
        proof {
            assert(r@ =~= v@.take(i + 1));
        }
        i = i + 1;
    }
    proof {
        assert(r@ =~= v@);
    }
    r
}

/// The contexts reached from the states before `a`, and from state `a` by the
/// candidates before `b`.
pub open spec fn partial<W>(
    cur: Seq<State<W>>,
    cands: Seq<char>,
    table: Map<u64, W>,
    a: int,
    b: int,
) -> Set<Seq<char>> {
    Set::new(
        |d: Seq<char>|
            exists|x: int, y: int|
                #![trigger cur[x], cands[y]]
                0 <= x < cur.len() && 0 <= y < cands.len() && (x < a || (x == a && y < b))
                    && has_entry(table, cur[x].context@.push(cands[y])) && d == cur[x].context@.push(
                    cands[y],
                ).drop_first(),
    )
}

proof fn lemma_path_push(p: Seq<char>, tc: Seq<Seq<char>>, cs: Seq<char>, ch: char)
    requires
        path_ok(p, tc),
        cs.contains(ch),
    ensures
        path_ok(p.push(ch), tc.push(cs)),
{
    assert forall|j: int| 0 <= j < p.push(ch).len() implies tc.push(cs)[j].contains(#[trigger] p.push(ch)[j]) by {
        if j < p.len() {
            assert(p.push(ch)[j] == p[j]);
            assert(tc.push(cs)[j] == tc[j]);
        }
    }
}

proof fn lemma_path_set_last(p: Seq<char>, tc: Seq<Seq<char>>, ch: char)
    requires
        path_ok(p, tc),
        p.len() > 0,
        tc[p.len() - 1].contains(ch),
    ensures
        path_ok(p.update(p.len() - 1, ch), tc),
{
    assert forall|j: int| 0 <= j < p.len() implies tc[j].contains(#[trigger] p.update(p.len() - 1, ch)[j]) by {
        if j < p.len() - 1 {
            assert(p.update(p.len() - 1, ch)[j] == p[j]);
        }
    }
}

/// The frontier after one more token with candidates `cands`.
fn advance_frontier<W: Weight>(
    cur: &Vec<State<W>>,
    cands: &Vec<char>,
    table: &BTreeMap<u64, W>,
    len: Ghost<nat>,
    tc: Ghost<Seq<Seq<char>>>,
) -> (r: Vec<State<W>>)
    requires
        len@ <= 2,
        frontier_ok(cur@, len@, tc@),
    ensures
        frontier_ok(r@, len@, tc@.push(cands@)),
        contexts(r@) == step(contexts(cur@), cands@, table@),
        snaps(r@) == advance_spec(snaps(cur@), cands@, table@, cur@.len() as int),
{
    let mut next: Vec<State<W>> = Vec::new();
    let mut a: usize = 0;
    proof {
        assert(contexts(next@) =~= partial(cur@, cands@, table@, 0, 0));
        assert(snaps(next@) =~= advance_spec(snaps(cur@), cands@, table@, 0));
    }
    while a < cur.len()
        invariant
            a <= cur@.len(),
            len@ <= 2,
            frontier_ok(cur@, len@, tc@),
            frontier_ok(next@, len@, tc@.push(cands@)),
            contexts(next@) == partial(cur@, cands@, table@, a as int, 0),
            snaps(next@) == advance_spec(snaps(cur@), cands@, table@, a as int),
        decreases cur@.len() - a,
    {
        let st = &cur[a];
        let mut b: usize = 0;
        let ghost base = snaps(next@);
        let ghost x = st.snap();
        proof {
            assert(snaps(cur@)[a as int] == x);
        }
        while b < cands.len()
            invariant
                a < cur@.len(),
                b <= cands@.len(),
                len@ <= 2,
                st == cur@[a as int],
                frontier_ok(cur@, len@, tc@),
                frontier_ok(next@, len@, tc@.push(cands@)),
                contexts(next@) == partial(cur@, cands@, table@, a as int, b as int),
                x == st.snap(),
                snaps(next@) == add_cands(base, x, cands@, table@, b as int),
            decreases cands@.len() - b,
        {
            let ghost prev = snaps(next@);
            let ch = cands[b];
            let key = key_of(&st.context, ch);
            let ghost e = st.context@.push(ch);
            proof {
                lemma_code_bounds(e);
                assert(pow_base(0) == 1);
                assert(pow_base(1) == 0x110000);
                assert(pow_base(2) == 0x110000 * 0x110000);
                assert(pow_base(3) == 0x110000 * 0x110000 * 0x110000);
                assert(key == code(e) as u64);
            }
            match table.get(&key) {
                None => {
                    proof {
                        assert(!has_entry(table@, e));
                        assert(x.0.push(ch) == e);
                        assert(add_edge(prev, x, ch, table@) == prev);
                        assert forall|d: Seq<char>|
                            partial(cur@, cands@, table@, a as int, b + 1).contains(d)
                                == partial(cur@, cands@, table@, a as int, b as int).contains(d) by {
                            if partial(cur@, cands@, table@, a as int, b + 1).contains(d) {
                                let (x, y) = choose|x: int, y: int|
                                    #![trigger cur@[x], cands@[y]]
                                    0 <= x < cur@.len() && 0 <= y < cands@.len() && (x < a || (x == a && y < b + 1))
                                        && has_entry(table@, cur@[x].context@.push(cands@[y])) && d == cur@[x].context@.push(
                                        cands@[y],
                                    ).drop_first();
                                assert(!(x == a && y == b));
                            }
                        }
                        assert(partial(cur@, cands@, table@, a as int, b + 1) =~= partial(cur@, cands@, table@, a as int, b as int));
                    }
                },
                Some(p) => {
                    let w = st.joint.times(p);
                    let d = shifted(&st.context, ch);
                    proof {
                        assert(*p == table@[code(e) as u64]);
                        assert(w == x.1.mul_spec(table@[code(e) as u64]));
                        assert(x.0.push(ch) == e);
                    }
                    proof {
                        assert(has_entry(table@, e));
                        assert(cands@[b as int] == ch);
                        assert(cands@.contains(ch));
                        assert forall|z: Seq<char>|
                            partial(cur@, cands@, table@, a as int, b + 1).contains(z)
                                == partial(cur@, cands@, table@, a as int, b as int).insert(d@).contains(z) by {
                            if partial(cur@, cands@, table@, a as int, b + 1).contains(z) && z != d@ {
                                let (x, y) = choose|x: int, y: int|
                                    #![trigger cur@[x], cands@[y]]
                                    0 <= x < cur@.len() && 0 <= y < cands@.len() && (x < a || (x == a && y < b + 1))
                                        && has_entry(table@, cur@[x].context@.push(cands@[y])) && z == cur@[x].context@.push(
                                        cands@[y],
                                    ).drop_first();
                                assert(!(x == a && y == b));
                            }
                            if z == d@ {
                                assert(cur@[a as int] == *st);
                                assert(partial(cur@, cands@, table@, a as int, b + 1).contains(z));
                            }
                        }
                        assert(partial(cur@, cands@, table@, a as int, b + 1) =~= partial(cur@, cands@, table@, a as int, b as int).insert(d@));
                    }
                    match find_context(&next, &d) {
                        Some(i) => {
                            proof {
                                assert forall|j: int| 0 <= j < i && j < prev.len() implies (#[trigger] prev[j]).0 != d@ by {
                                    assert(prev[j] == next@[j].snap());
                                }
                                assert(prev[i as int] == next@[i as int].snap());
                                lemma_find_ctx(prev, d@, i as int);
                            }
                            let joint = next[i].joint.plus(&w);
                            let mut path = copy_chars(&next[i].path);
                            let heavier = w.exceeds(&next[i].best);
                            let best = if heavier {
                                let last = path.len() - 1;
                                proof {
                                    lemma_path_set_last(path@, tc@.push(cands@), ch);
                                }
                                path.set(last, ch);
                                w
                            } else {
                                next[i].best.duplicate()
                            };
                            let ghost before = next@;
                            proof {
                                assert(contexts(before).contains(d@));
                            }
                            next.set(i, State { context: d, joint, best, path });
                            proof {
                                let o = prev[i as int];
                                let newv = if heavier {
                                    (d@, o.1.add_spec(w), w, o.3.update(o.3.len() - 1, ch))
                                } else {
                                    (d@, o.1.add_spec(w), o.2, o.3)
                                };
                                assert(snaps(next@) =~= prev.update(i as int, newv));
                                assert(snaps(next@) == add_edge(prev, x, ch, table@));
                                assert forall|z: Seq<char>| contexts(next@).contains(z) == contexts(before).contains(z) by {
                                    if contexts(before).contains(z) {
                                        let j = choose|j: int| 0 <= j < before.len() && (#[trigger] before[j]).context@ == z;
                                        assert(next@[j].context@ == z);
                                    }
                                    if contexts(next@).contains(z) {
                                        let j = choose|j: int| 0 <= j < next@.len() && (#[trigger] next@[j]).context@ == z;
                                        assert(before[j].context@ == z);
                                    }
                                }
                                assert(contexts(next@) =~= contexts(before));
                                assert(contexts(before).insert(d@) =~= contexts(before));
                            }
                        },
                        None => {
                            let mut path = copy_chars(&st.path);
                            proof {
                                lemma_path_push(path@, tc@, cands@, ch);
                            }
                            path.push(ch);
                            let ghost before = next@;
                            next.push(State { context: d, joint: w.duplicate(), best: w, path });
                            proof {
                                assert forall|j: int| 0 <= j < prev.len() implies (#[trigger] prev[j]).0 != d@ by {
                                    assert(prev[j] == before[j].snap());
                                }
                                lemma_find_ctx(prev, d@, prev.len() as int);
                                assert(snaps(next@) =~= prev.push((d@, w, w, x.3.push(ch))));
                                assert(snaps(next@) == add_edge(prev, x, ch, table@));
                                assert forall|z: Seq<char>| contexts(next@).contains(z) == contexts(before).insert(d@).contains(z) by {
                                    if contexts(before).contains(z) {
                                        let j = choose|j: int| 0 <= j < before.len() && (#[trigger] before[j]).context@ == z;
                                        assert(next@[j].context@ == z);
                                    }
                                    if contexts(next@).contains(z) && z != d@ {
                                        let j = choose|j: int| 0 <= j < next@.len() && (#[trigger] next@[j]).context@ == z;
                                        assert(before[j].context@ == z);
                                    }
                                    if z == d@ {
                                        assert(next@[next@.len() - 1].context@ == z);
                                    }
                                }
                                assert(contexts(next@) =~= contexts(before).insert(d@));
                            }
                        },
                    }
                },
            }
            proof {
                assert(cands@[b as int] == ch);
                assert(snaps(next@) == add_edge(prev, x, cands@[b as int], table@));
            }
            b = b + 1;
        }
        proof {
            assert(partial(cur@, cands@, table@, a as int, b as int) =~= partial(cur@, cands@, table@, a + 1, 0));
            assert(snaps(next@) == advance_spec(snaps(cur@), cands@, table@, a + 1));
        }
        a = a + 1;
    }
    proof {
        let st = step(contexts(cur@), cands@, table@);
        let pa = partial(cur@, cands@, table@, a as int, 0);
        assert forall|z: Seq<char>| pa.contains(z) == st.contains(z) by {
            if pa.contains(z) {
                let (x, y) = choose|x: int, y: int|
                    #![trigger cur@[x], cands@[y]]
                    0 <= x < cur@.len() && 0 <= y < cands@.len() && (x < a || (x == a && y < 0))
                        && has_entry(table@, cur@[x].context@.push(cands@[y])) && z == cur@[x].context@.push(
                        cands@[y],
                    ).drop_first();
                assert(contexts(cur@).contains(cur@[x].context@));
                assert(cands@.contains(cands@[y]));
            }
            if st.contains(z) {
                let (xs, ch) = choose|xs: Seq<char>, ch: char|
                    #![trigger contexts(cur@).contains(xs), cands@.contains(ch)]
                    contexts(cur@).contains(xs) && cands@.contains(ch) && has_entry(table@, xs.push(ch)) && z == xs.push(
                        ch,
                    ).drop_first();
                let x = choose|x: int| 0 <= x < cur@.len() && (#[trigger] cur@[x]).context@ == xs;
                let y = choose|y: int| 0 <= y < cands@.len() && cands@[y] == ch;
                assert(cur@[x].context@.push(cands@[y]) == xs.push(ch));
            }
        }
        assert(pa =~= st);
    }
    next
}

/// A frontier state as values: context, joint weight, best single-edge weight, path.
pub type Snap<W> = (Seq<char>, W, W, Seq<char>);

impl<W> State<W> {
    pub open spec fn snap(&self) -> Snap<W> {
        (self.context@, self.joint, self.best, self.path@)
    }
}

pub open spec fn snaps<W>(f: Seq<State<W>>) -> Seq<Snap<W>> {
    f.map_values(|s: State<W>| s.snap())
}

/// The index of the first state with context `d`.
pub open spec fn find_ctx<W>(f: Seq<Snap<W>>, d: Seq<char>) -> Option<int>
    decreases f.len(),
{
    if f.len() == 0 {
        None
    } else {
        match find_ctx(f.drop_last(), d) {
            Some(i) => Some(i),
            None => if f.last().0 == d {
                Some(f.len() - 1)
            } else {
                None
            },
        }
    }
}

pub proof fn lemma_find_ctx<W>(f: Seq<Snap<W>>, d: Seq<char>, i: int)
    requires
        0 <= i,
        forall|j: int| 0 <= j < i && j < f.len() ==> (#[trigger] f[j]).0 != d,
        i >= f.len() || f[i].0 == d,
    ensures
        find_ctx(f, d) == if i < f.len() { Some(i) } else { None::<int> },
    decreases f.len(),
{
    if f.len() > 0 {
        let g = f.drop_last();
        assert forall|j: int| 0 <= j < i && j < g.len() implies (#[trigger] g[j]).0 != d by {
            assert(g[j] == f[j]);
        }
        if i < g.len() {
            assert(g[i] == f[i]);
            lemma_find_ctx(g, d, i);
        } else {
            lemma_find_ctx(g, d, g.len() as int);
        }
    }
}

/// The frontier after moving state `x` along candidate `ch`: nothing if the
/// table lacks the entry; else the edge weight is added to the state of the
/// shifted context, which takes `ch` as its last step if the edge is strictly
/// heavier than its best so far, or a new state is appended.
pub open spec fn add_edge<W: Weight>(f: Seq<Snap<W>>, x: Snap<W>, ch: char, table: Map<u64, W>) -> Seq<Snap<W>> {
    let e = x.0.push(ch);
    if !has_entry(table, e) {
        f
    } else {
        let w = x.1.mul_spec(table[code(e) as u64]);
        let d = e.drop_first();
        match find_ctx(f, d) {
            Some(i) => {
                let o = f[i];
                if w.gt_spec(o.2) {
                    f.update(i, (d, o.1.add_spec(w), w, o.3.update(o.3.len() - 1, ch)))
                } else {
                    f.update(i, (d, o.1.add_spec(w), o.2, o.3))
                }
            },
            None => f.push((d, w, w, x.3.push(ch))),
        }
    }
}

/// The frontier after moving `x` along the first `n` candidates.
pub open spec fn add_cands<W: Weight>(f: Seq<Snap<W>>, x: Snap<W>, cands: Seq<char>, table: Map<u64, W>, n: int) -> Seq<Snap<W>>
    decreases n,
{
    if n <= 0 {
        f
    } else {
        add_edge(add_cands(f, x, cands, table, n - 1), x, cands[n - 1], table)
    }
}

/// The frontier built from the first `a` states of `cur` by one more token.
pub open spec fn advance_spec<W: Weight>(cur: Seq<Snap<W>>, cands: Seq<char>, table: Map<u64, W>, a: int) -> Seq<Snap<W>>
    decreases a,
{
    if a <= 0 {
        seq![]
    } else {
        add_cands(advance_spec(cur, cands, table, a - 1), cur[a - 1], cands, table, cands.len() as int)
    }
}

/// The index that the choice of the result picks among the first `n` states:
/// a later state replaces the choice only if its joint weight is strictly greater.
pub open spec fn pick<W: Weight>(f: Seq<Snap<W>>, n: int) -> int
    decreases n,
{
    if n <= 1 {
        0
    } else {
        let b = pick(f, n - 1);
        if f[n - 1].1.gt_spec(f[b].1) {
            n - 1
        } else {
            b
        }
    }
}

/// Where `>` is a strict order on the joint weights, the state picked has the
/// largest joint weight: no state's joint weight is greater.
pub proof fn lemma_pick_is_maximal<W: Weight>(f: Seq<Snap<W>>, n: int)
    requires
        1 <= n <= f.len(),
        forall|i: int| 0 <= i < n ==> !(#[trigger] f[i].1.gt_spec(f[i].1)),
        forall|i: int, j: int, k: int|
            0 <= i < n && 0 <= j < n && 0 <= k < n && (#[trigger] f[i].1.gt_spec(f[j].1)) && (#[trigger] f[j].1.gt_spec(f[k].1))
                ==> f[i].1.gt_spec(f[k].1),
    ensures
        0 <= pick(f, n) < n,
        forall|j: int| 0 <= j < n ==> !(#[trigger] f[j].1.gt_spec(f[pick(f, n)].1)),
    decreases n,
{
    if n > 1 {
        lemma_pick_is_maximal(f, n - 1);
        let b = pick(f, n - 1);
        if f[n - 1].1.gt_spec(f[b].1) {
            assert forall|j: int| 0 <= j < n implies !(#[trigger] f[j].1.gt_spec(f[n - 1].1)) by {
                if j < n - 1 && f[j].1.gt_spec(f[n - 1].1) {
                    assert(f[j].1.gt_spec(f[b].1));
                }
            }
        }
    }
}

/// The frontier that seeding builds from the first `n` seed states: each seed
/// state whose path some candidate of the next token extends to an entry gives
/// a state with that path as context, its joint weight and a zero best weight,
/// replacing a state with the same context.
pub open spec fn seed_spec<W: Weight>(seed: Seq<Snap<W>>, next: Seq<char>, table: Map<u64, W>, n: int) -> Seq<Snap<W>>
    decreases n,
{
    if n <= 0 {
        seq![]
    } else {
        let out = seed_spec(seed, next, table, n - 1);
        let st = seed[n - 1];
        if exists|y: int| 0 <= y < next.len() && has_entry(table, st.3.push(#[trigger] next[y])) {
            let fresh = (st.3, st.1, W::zero_spec(), st.3);
            match find_ctx(out, st.3) {
                Some(j) => out.update(j, fresh),
                None => out.push(fresh),
            }
        } else {
            out
        }
    }
}

/// The starting frontier: the empty context with weight one, or the seeded one.
pub open spec fn start_spec<W: Weight>(seed: Option<Seq<Snap<W>>>, next: Seq<char>, table: Map<u64, W>) -> Seq<Snap<W>> {
    match seed {
        None => seq![(Seq::<char>::empty(), W::one_spec(), W::zero_spec(), Seq::<char>::empty())],
        Some(f) => seed_spec(f, next, table, f.len() as int),
    }
}

/// The frontier after the tokens with candidates `cands[from..to]`.
pub open spec fn run_spec<W: Weight>(start: Seq<Snap<W>>, cands: Seq<Seq<char>>, table: Map<u64, W>, from: int, to: int) -> Seq<Snap<W>>
    decreases to - from,
{
    if to <= from {
        start
    } else {
        let f = run_spec(start, cands, table, from, to - 1);
        advance_spec(f, cands[to - 1], table, f.len() as int)
    }
}

pub open spec fn seed_snaps<W>(seed: Option<Vec<State<W>>>) -> Option<Seq<Snap<W>>> {
    match seed {
        None => None,
        Some(v) => Some(snaps(v@)),
    }
}

/// What decoding `words` with a model of order `order` gives once every token
/// is known: the final frontier, or `NoViablePath` if it is empty; the path is
/// that of the state `pick` chooses.
pub open spec fn decode_outcome<W: Weight>(
    mapping: Map<Seq<char>, Seq<char>>,
    table: Map<u64, W>,
    order: nat,
    words: Seq<&str>,
    seed: Option<Seq<Snap<W>>>,
) -> Result<(Seq<char>, Seq<Snap<W>>), DecodeError> {
    let tc = token_cands(mapping, words);
    let f = run_spec(start_spec(seed, tc[order - 1], table), tc, table, order - 1, words.len() as int);
    if f.len() == 0 {
        Err(DecodeError::NoViablePath)
    } else {
        Ok((f[pick(f, f.len() as int)].3, f))
    }
}

/// What the cascade gives once every token is known.
pub open spec fn convert_outcome<W: Weight>(m1: &Model<W>, m2: &Model<W>, m3: &Model<W>, words: Seq<&str>) -> Result<Seq<char>, DecodeError> {
    match decode_outcome(m1.mapping@, m1.prob@, 1, words.take(1), None) {
        Err(e) => Err(e),
        Ok((p1, f1)) => if words.len() == 1 {
            Ok(p1)
        } else {
            match decode_outcome(m2.mapping@, m2.prob@, 2, words.take(2), Some(f1)) {
                Err(e) => Err(e),
                Ok((p2, f2)) => if words.len() == 2 {
                    Ok(p2)
                } else {
                    match decode_outcome(m3.mapping@, m3.prob@, 3, words, Some(f2)) {
                        Err(e) => Err(e),
                        Ok((p3, _)) => Ok(p3),
                    }
                },
            }
        },
    }
}

/// A state whose path ends in its context of length `len`, and whose every step
/// from index `from` on is an entry of the table.
pub open spec fn follows_table<W>(st: Snap<W>, table: Map<u64, W>, len: nat, from: int) -> bool {
    &&& st.0.len() == len
    &&& st.3.len() >= len
    &&& st.3.subrange(st.3.len() - len, st.3.len() as int) == st.0
    &&& forall|q: int| from <= q < st.3.len() ==> #[trigger] has_entry(table, st.3.subrange(q - len, q + 1))
}

/// All states of `f` follow the table and have paths of length `n`.
pub open spec fn all_follow<W>(f: Seq<Snap<W>>, table: Map<u64, W>, len: nat, from: int, n: int) -> bool {
    forall|i: int| 0 <= i < f.len() ==> follows_table(#[trigger] f[i], table, len, from) && f[i].3.len() == n
}

pub proof fn lemma_find_ctx_some<W>(f: Seq<Snap<W>>, d: Seq<char>)
    ensures
        match find_ctx(f, d) {
            Some(i) => 0 <= i < f.len() && f[i].0 == d,
            None => true,
        },
    decreases f.len(),
{
    if f.len() > 0 {
        lemma_find_ctx_some(f.drop_last(), d);
        if let Some(i) = find_ctx(f.drop_last(), d) {
            assert(f.drop_last()[i] == f[i]);
        }
    }
}

proof fn lemma_add_edge_follows<W: Weight>(f: Seq<Snap<W>>, x: Snap<W>, ch: char, table: Map<u64, W>, len: nat, from: int, n: int)
    requires
        len <= from,
        follows_table(x, table, len, from),
        x.3.len() == n,
        all_follow(f, table, len, from, n + 1),
    ensures
        all_follow(add_edge(f, x, ch, table), table, len, from, n + 1),
{
    let e = x.0.push(ch);
    if has_entry(table, e) {
        let w = x.1.mul_spec(table[code(e) as u64]);
        let d = e.drop_first();
        lemma_find_ctx_some(f, d);
        let p = x.3.push(ch);
        assert(p.subrange(n - len, n + 1) =~= e) by {
            assert(x.3.subrange(n - len, n) == x.0);
            assert forall|t: int| 0 <= t < len + 1 implies p.subrange(n - len, n + 1)[t] == e[t] by {
                if t < len {
                    assert(x.3.subrange(n - len, n)[t] == x.0[t]);
                }
            }
        }
        match find_ctx(f, d) {
            Some(i) => {
                let o = f[i];
                assert(follows_table(o, table, len, from));
                if w.gt_spec(o.2) {
                    let np = o.3.update(o.3.len() - 1, ch);
                    if len >= 1 {
                        assert(o.3.subrange(n + 1 - len, n + 1)[len - 1] == o.0[len - 1]);
                        assert(o.0[len - 1] == e[len as int]);
                        assert(np =~= o.3);
                    } else {
                        assert forall|q: int| from <= q < np.len() implies #[trigger] has_entry(table, np.subrange(q - len, q + 1)) by {
                            if q < n {
                                assert(np.subrange(q, q + 1) =~= o.3.subrange(q, q + 1));
                            } else {
                                assert(np.subrange(q, q + 1) =~= e);
                            }
                        }
                        assert(np.subrange(np.len() - len, np.len() as int) =~= d);
                    }
                    let g = f.update(i, (d, o.1.add_spec(w), w, np));
                    assert forall|j: int| 0 <= j < g.len() implies follows_table(#[trigger] g[j], table, len, from) && g[j].3.len() == n + 1 by {
                        if j != i {
                            assert(g[j] == f[j]);
                        }
                    }
                } else {
                    let g = f.update(i, (d, o.1.add_spec(w), o.2, o.3));
                    assert forall|j: int| 0 <= j < g.len() implies follows_table(#[trigger] g[j], table, len, from) && g[j].3.len() == n + 1 by {
                        if j != i {
                            assert(g[j] == f[j]);
                        }
                    }
                }
            },
            None => {
                assert(p.subrange(p.len() - len, p.len() as int) =~= d) by {
                    assert forall|t: int| 0 <= t < len implies p.subrange(p.len() - len, p.len() as int)[t] == d[t] by {
                        assert(p.subrange(n - len, n + 1)[t + 1] == e[t + 1]);
                    }
                }
                assert forall|q: int| from <= q < p.len() implies #[trigger] has_entry(table, p.subrange(q - len, q + 1)) by {
                    if q < n {
                        assert(p.subrange(q - len, q + 1) =~= x.3.subrange(q - len, q + 1));
                    }
                }
                let g = f.push((d, w, w, p));
                assert forall|j: int| 0 <= j < g.len() implies follows_table(#[trigger] g[j], table, len, from) && g[j].3.len() == n + 1 by {
                    if j < f.len() {
                        assert(g[j] == f[j]);
                    }
                }
            },
        }
    }
}

proof fn lemma_advance_follows<W: Weight>(cur: Seq<Snap<W>>, cands: Seq<char>, table: Map<u64, W>, len: nat, from: int, n: int, a: int)
    requires
        len <= from,
        0 <= a <= cur.len(),
        all_follow(cur, table, len, from, n),
    ensures
        all_follow(advance_spec(cur, cands, table, a), table, len, from, n + 1),
    decreases a,
{
    if a > 0 {
        lemma_advance_follows(cur, cands, table, len, from, n, a - 1);
        let x = cur[a - 1];
        assert(follows_table(x, table, len, from));
        lemma_add_cands_follows(advance_spec(cur, cands, table, a - 1), x, cands, table, len, from, n, cands.len() as int);
    }
}

proof fn lemma_add_cands_follows<W: Weight>(f: Seq<Snap<W>>, x: Snap<W>, cands: Seq<char>, table: Map<u64, W>, len: nat, from: int, n: int, m: int)
    requires
        len <= from,
        0 <= m <= cands.len(),
        follows_table(x, table, len, from),
        x.3.len() == n,
        all_follow(f, table, len, from, n + 1),
    ensures
        all_follow(add_cands(f, x, cands, table, m), table, len, from, n + 1),
    decreases m,
{
    if m > 0 {
        lemma_add_cands_follows(f, x, cands, table, len, from, n, m - 1);
        lemma_add_edge_follows(add_cands(f, x, cands, table, m - 1), x, cands[m - 1], table, len, from, n);
    }
}

proof fn lemma_run_follows<W: Weight>(start: Seq<Snap<W>>, cands: Seq<Seq<char>>, table: Map<u64, W>, len: nat, from: int, to: int)
    requires
        len <= from <= to,
        all_follow(start, table, len, from, from),
    ensures
        all_follow(run_spec(start, cands, table, from, to), table, len, from, to),
    decreases to - from,
{
    if to > from {
        lemma_run_follows(start, cands, table, len, from, to - 1);
        let f = run_spec(start, cands, table, from, to - 1);
        lemma_advance_follows(f, cands[to - 1], table, len, from, to - 1, f.len() as int);
    }
}

proof fn lemma_seed_follows<W: Weight>(seed: Seq<Snap<W>>, next: Seq<char>, table: Map<u64, W>, len: nat, n: int)
    requires
        0 <= n <= seed.len(),
        forall|i: int| 0 <= i < seed.len() ==> (#[trigger] seed[i]).3.len() == len,
    ensures
        all_follow(seed_spec(seed, next, table, n), table, len, len as int, len as int),
    decreases n,
{
    if n > 0 {
        lemma_seed_follows(seed, next, table, len, n - 1);
        let out = seed_spec(seed, next, table, n - 1);
        let st = seed[n - 1];
        let fresh = (st.3, st.1, W::zero_spec(), st.3);
        assert(st.3.subrange(0, len as int) =~= st.3);
        assert(follows_table(fresh, table, len, len as int));
        lemma_find_ctx_some(out, st.3);
        let r = seed_spec(seed, next, table, n);
        assert forall|j: int| 0 <= j < r.len() implies follows_table(#[trigger] r[j], table, len, len as int) && r[j].3.len() == len by {
            if j < out.len() && r[j] != fresh {
                assert(r[j] == out[j]);
            }
        }
    }
}

pub proof fn lemma_pick_bounds<W: Weight>(f: Seq<Snap<W>>, n: int)
    requires
        1 <= n,
    ensures
        0 <= pick(f, n) < n,
    decreases n,
{
    if n > 1 {
        lemma_pick_bounds(f, n - 1);
    }
}

/// Decoding follows the table: every state of the final frontier, the chosen
/// one included, has a path that ends in its context and whose every step after
/// the seed is an entry of the model's table.
pub proof fn lemma_decode_follows_table<W: Weight>(
    mapping: Map<Seq<char>, Seq<char>>,
    table: Map<u64, W>,
    order: nat,
    words: Seq<&str>,
    seed: Option<Seq<Snap<W>>>,
)
    requires
        1 <= order <= words.len(),
        seed is None ==> order == 1,
        seed is Some ==> forall|i: int| 0 <= i < seed->0.len() ==> (#[trigger] seed->0[i]).3.len() == order - 1,
    ensures
        match decode_outcome(mapping, table, order, words, seed) {
            Ok((p, f)) => {
                &&& all_follow(f, table, (order - 1) as nat, order - 1, words.len() as int)
                &&& exists|i: int| 0 <= i < f.len() && (#[trigger] f[i]).3 == p && follows_table(f[i], table, (order - 1) as nat, order - 1)
            },
            Err(_) => true,
        },
{
    let tc = token_cands(mapping, words);
    let len = (order - 1) as nat;
    let start = start_spec(seed, tc[order - 1], table);
    match seed {
        None => {
            assert(start[0].3.subrange(0, 0) =~= start[0].0);
            assert(all_follow(start, table, len, 0, 0));
        },
        Some(sd) => {
            lemma_seed_follows(sd, tc[order - 1], table, len, sd.len() as int);
        },
    }
    lemma_run_follows(start, tc, table, len, order - 1, words.len() as int);
    let f = run_spec(start, tc, table, order - 1, words.len() as int);
    if f.len() > 0 {
        lemma_pick_bounds(f, f.len() as int);
        let i = pick(f, f.len() as int);
        assert(follows_table(f[i], table, len, order - 1));
        assert(decode_outcome(mapping, table, order, words, seed) == Ok::<(Seq<char>, Seq<Snap<W>>), DecodeError>((f[i].3, f)));
    }
}

/// Whether every token is a syllable of the mapping.
pub open spec fn all_known(m: Map<Seq<char>, Seq<char>>, words: Seq<&str>) -> bool {
    forall|j: int| 0 <= j < words.len() ==> m.contains_key((#[trigger] words[j])@)
}

/// The candidates of each token.
pub open spec fn token_cands(m: Map<Seq<char>, Seq<char>>, words: Seq<&str>) -> Seq<Seq<char>> {
    Seq::new(words.len(), |j: int| m[words[j]@])
}

/// The contexts that decoding starts from: the empty context without a seed; with
/// one, each seed path that some candidate of the next token extends to an entry.
pub open spec fn start_set<W>(seed: Option<Seq<State<W>>>, next: Seq<char>, table: Map<u64, W>) -> Set<Seq<char>> {
    match seed {
        None => set![seq![]],
        Some(f) => Set::new(
            |x: Seq<char>|
                exists|i: int, ch: char|
                    #![trigger f[i], next.contains(ch)]
                    0 <= i < f.len() && f[i].path@ == x && next.contains(ch) && has_entry(table, x.push(ch)),
        ),
    }
}

pub open spec fn seed_view<W>(seed: Option<Vec<State<W>>>) -> Option<Seq<State<W>>> {
    match seed {
        None => None,
        Some(v) => Some(v@),
    }
}

/// The starting contexts that the first `n` seed states give.
pub open spec fn seed_part<W>(seed: Seq<State<W>>, next: Seq<char>, table: Map<u64, W>, n: int) -> Set<Seq<char>> {
    Set::new(
        |x: Seq<char>|
            exists|a: int, ch: char|
                #![trigger seed[a], next.contains(ch)]
                0 <= a < n && seed[a].path@ == x && next.contains(ch) && has_entry(table, x.push(ch)),
    )
}

/// A model of one order: the mapping and the probability table, keyed by the
/// packed form of each entry.
pub struct Model<W> {
    pub mapping: Mapping,
    pub prob: BTreeMap<u64, W>,
    pub order: usize,
}

impl<W: Weight> Model<W> {
    pub open spec fn wf(&self) -> bool {
        &&& self.mapping.wf()
        &&& 1 <= self.order <= 3
    }

    /// A model of the given order with no syllables and no entries.
    pub fn empty(order: usize) -> (r: Model<W>)
        requires
            1 <= order <= 3,
        ensures
            r.wf(),
            r.order == order,
            r.mapping@ == Map::<Seq<char>, Seq<char>>::empty(),
            r.prob@ == Map::<u64, W>::empty(),
    {
        Model { mapping: Mapping::new(), prob: BTreeMap::new(), order }
    }

    /// The index of the first token that is not a syllable of the mapping, if any.
    fn first_unknown(&self, words: &Vec<&str>) -> (r: Option<usize>)
        requires
            self.wf(),
        ensures
            match r {
                Some(i) => {
                    &&& i < words@.len()
                    &&& !self.mapping@.contains_key(words@[i as int]@)
                    &&& all_known(self.mapping@, words@.take(i as int))
                },
                None => all_known(self.mapping@, words@),
            },
    {
        let mut i: usize = 0;
        while i < words.len()
            invariant
                self.wf(),
                i <= words@.len(),
                all_known(self.mapping@, words@.take(i as int)),
            decreases words@.len() - i,
        {
            match self.mapping.get(words[i]) {
                None => return Some(i),
                Some(_) => {},
            }
            proof {
                assert forall|j: int| 0 <= j < i + 1 implies self.mapping@.contains_key(
                    (#[trigger] words@.take(i + 1)[j])@,
                ) by {
                    if j < i {
                        assert(words@.take(i + 1)[j] == words@.take(i as int)[j]);
                    }
                }
            }
            i = i + 1;
        }
        proof {
            assert(words@.take(i as int) =~= words@);
        }
        None
    }

    /// Decodes a sentence with this model, starting from the frontier that the
    /// model one order lower left over the first `order - 1` tokens.
    ///
    /// Without a seed the frontier starts as the empty context with weight one.
    /// With one, each seed state's path becomes a context, kept with its joint
    /// weight if some candidate of token `order - 1` extends it to an entry.
    /// Each token then moves every live context along every candidate that the
    /// table holds; a new state takes the path of its first incoming context and
    /// the candidate, and a strictly heavier single transition later replaces
    /// the last character. The result is the path of the first state with the
    /// largest joint weight.
    pub fn decode(&self, words: &Vec<&str>, seed: Option<Vec<State<W>>>) -> (r: Result<
        (Vec<char>, Vec<State<W>>),
        DecodeError,
    >)
        requires
            self.wf(),
            words@.len() >= self.order,
            seed is Some <==> self.order >= 2,
            seed is Some ==> all_known(self.mapping@, words@.take(self.order - 1)),
            seed is Some ==> forall|i: int|
                0 <= i < seed->0@.len() ==> path_ok(
                    (#[trigger] seed->0@[i]).path@,
                    token_cands(self.mapping@, words@.take(self.order - 1)),
                ),
        ensures
            match r {
                Ok((path, f)) => {
                    let tc = token_cands(self.mapping@, words@);
                    let start = start_set(seed_view(seed), tc[self.order - 1], self.prob@);
                    &&& all_known(self.mapping@, words@)
                    &&& path_ok(path@, tc)
                    &&& exists|i: int| 0 <= i < f@.len() && (#[trigger] f@[i]).path@ == path@
                    &&& frontier_ok(f@, (self.order - 1) as nat, tc)
                    &&& contexts(f@) == reach(start, tc, self.prob@, self.order - 1, words@.len() as int)
                    &&& f@.len() > 0
                },
                Err(DecodeError::UnknownSyllable { index }) => {
                    &&& index < words@.len()
                    &&& !self.mapping@.contains_key(words@[index as int]@)
                    &&& all_known(self.mapping@, words@.take(index as int))
                },
                Err(DecodeError::NoViablePath) => {
                    let tc = token_cands(self.mapping@, words@);
                    let start = start_set(seed_view(seed), tc[self.order - 1], self.prob@);
                    &&& all_known(self.mapping@, words@)
                    &&& reach(start, tc, self.prob@, self.order - 1, words@.len() as int)
                        =~= Set::<Seq<char>>::empty()
                },
            },
            all_known(self.mapping@, words@) ==> decode_outcome(
                self.mapping@,
                self.prob@,
                self.order as nat,
                words@,
                seed_snaps(seed),
            ) == match r {
                Ok((path, f)) => Ok((path@, snaps(f@))),
                Err(e) => Err(e),
            },
    {
        if let Some(i) = self.first_unknown(words) {
            return Err(DecodeError::UnknownSyllable { index: i });
        }
        let ghost tc = token_cands(self.mapping@, words@);
        let k = self.order;
        let ghost sv = seed_view(seed);
        let ghost ss = seed_snaps(seed);
        let mut cur: Vec<State<W>> = Vec::new();
        match seed {
            None => {
                cur.push(State { context: Vec::new(), joint: W::one(), best: W::zero(), path: Vec::new() });
                proof {
                    assert(tc.take(0) =~= seq![]);
                    assert(path_ok(cur@[0].path@, tc.take(0)));
                    assert(contexts(cur@) =~= set![seq![]]);
                    assert(snaps(cur@) =~= start_spec(ss, tc[k - 1], self.prob@));
                }
            },
            Some(sd) => {
                let next = self.mapping.get(words[k - 1]).unwrap();
                proof {
                    assert(token_cands(self.mapping@, words@.take(k - 1)) =~= tc.take(k - 1));
                    assert(next@ == tc[k - 1]);
                }
                cur = self.seed_frontier(&sd, next, Ghost(tc.take(k - 1)));
            },
        }
        let mut i: usize = k - 1;
        proof {
            assert(contexts(cur@) == reach(start_set(sv, tc[k - 1], self.prob@), tc, self.prob@, k - 1, i as int));
        }
        while i < words.len()
            invariant
                self.wf(),
                k == self.order,
                k - 1 <= i <= words@.len(),
                all_known(self.mapping@, words@),
                tc == token_cands(self.mapping@, words@),
                frontier_ok(cur@, (k - 1) as nat, tc.take(i as int)),
                contexts(cur@) == reach(start_set(sv, tc[k - 1], self.prob@), tc, self.prob@, k - 1, i as int),
                snaps(cur@) == run_spec(start_spec(ss, tc[k - 1], self.prob@), tc, self.prob@, k - 1, i as int),
            decreases words@.len() - i,
        {
            let cands = self.mapping.get(words[i]).unwrap();
            proof {
                assert(cands@ == tc[i as int]);
                assert(tc.take(i as int).push(cands@) =~= tc.take(i + 1));
            }
            cur = advance_frontier(&cur, cands, &self.prob, Ghost((k - 1) as nat), Ghost(tc.take(i as int)));
            i = i + 1;
        }
        proof {
            assert(tc.take(i as int) =~= tc);
        }
        if cur.len() == 0 {
            proof {
                assert(contexts(cur@) =~= Set::<Seq<char>>::empty());
                assert(snaps(cur@).len() == 0);
            }
            return Err(DecodeError::NoViablePath);
        }
        let mut best: usize = 0;
        let mut j: usize = 1;
        let ghost fs = snaps(cur@);
        while j < cur.len()
            invariant
                best < cur@.len(),
                1 <= j <= cur@.len(),
                fs == snaps(cur@),
                best == pick(fs, j as int),
            decreases cur@.len() - j,
        {
            proof {
                assert(fs[j as int].1 == cur@[j as int].joint);
                assert(fs[best as int].1 == cur@[best as int].joint);
            }
            if cur[j].joint.exceeds(&cur[best].joint) {
                best = j;
            }
            j = j + 1;
        }
        let path = copy_chars(&cur[best].path);
        proof {
            assert(path_ok(cur@[best as int].path@, tc));
            assert(cur@[best as int].path@ == path@);
            assert(fs[best as int].3 == path@);
        }
        Ok((path, cur))
    }

    /// The starting frontier from the seed: each seed state whose path, taken as
    /// the context, extends to an entry with some candidate of the next token.
    fn seed_frontier(&self, seed: &Vec<State<W>>, next: &Vec<char>, tc: Ghost<Seq<Seq<char>>>) -> (r: Vec<State<W>>)
        requires
            self.wf(),
            tc@.len() == self.order - 1,
            forall|i: int| 0 <= i < seed@.len() ==> path_ok((#[trigger] seed@[i]).path@, tc@),
        ensures
            frontier_ok(r@, (self.order - 1) as nat, tc@),
            contexts(r@) == start_set(Some(seed@), next@, self.prob@),
            snaps(r@) == seed_spec(snaps(seed@), next@, self.prob@, seed@.len() as int),
    {
        let mut out: Vec<State<W>> = Vec::new();
        let mut i: usize = 0;
        let ghost target = start_set(Some(seed@), next@, self.prob@);
        proof {
            assert(contexts(out@) =~= seed_part(seed@, next@, self.prob@, 0));
        }
        while i < seed.len()
            invariant
                self.wf(),
                i <= seed@.len(),
                tc@.len() == self.order - 1,
                forall|a: int| 0 <= a < seed@.len() ==> path_ok((#[trigger] seed@[a]).path@, tc@),
                frontier_ok(out@, (self.order - 1) as nat, tc@),
                contexts(out@) == seed_part(seed@, next@, self.prob@, i as int),
                snaps(out@) == seed_spec(snaps(seed@), next@, self.prob@, i as int),
            decreases seed@.len() - i,
        {
            let st = &seed[i];
            let ghost prev = snaps(out@);
            proof {
                assert(snaps(seed@)[i as int] == st.snap());
            }
            proof {
                assert(path_ok(st.path@, tc@));
            }
            let mut c: usize = 0;
            let mut hit = false;
            while c < next.len()
                invariant
                    c <= next@.len(),
                    st.path@.len() <= 2,
                    hit == exists|y: int| 0 <= y < c && has_entry(self.prob@, st.path@.push(#[trigger] next@[y])),
                decreases next@.len() - c,
            {
                let key = key_of(&st.path, next[c]);
                proof {
                    let e = st.path@.push(next@[c as int]);
                    lemma_code_bounds(e);
                    assert(pow_base(0) == 1);
                    assert(pow_base(1) == 0x110000);
                    assert(pow_base(2) == 0x110000 * 0x110000);
                    assert(pow_base(3) == 0x110000 * 0x110000 * 0x110000);
                }
                if self.prob.get(&key).is_some() {
                    hit = true;
                }
                c = c + 1;
            }
            let ghost before = out@;
            let ghost x = st.path@;
            let ghost goal = if hit {
                seed_part(seed@, next@, self.prob@, i as int).insert(x)
            } else {
                seed_part(seed@, next@, self.prob@, i as int)
            };
            proof {
                assert(seed_part(seed@, next@, self.prob@, i + 1) =~= goal) by {
                    assert forall|z: Seq<char>| #[trigger] seed_part(seed@, next@, self.prob@, i + 1).contains(z) == goal.contains(z) by {
                        if seed_part(seed@, next@, self.prob@, i + 1).contains(z) {
                            let (a, ch) = choose|a: int, ch: char|
                                #![trigger seed@[a], next@.contains(ch)]
                                0 <= a < i + 1 && seed@[a].path@ == z && next@.contains(ch) && has_entry(self.prob@, z.push(ch));
                            if a == i {
                                let y = choose|y: int| 0 <= y < next@.len() && next@[y] == ch;
                                assert(has_entry(self.prob@, st.path@.push(next@[y])));
                            } else {
                                assert(seed_part(seed@, next@, self.prob@, i as int).contains(z));
                            }
                        }
                        if hit && z == x {
                            let y = choose|y: int| 0 <= y < c && has_entry(self.prob@, st.path@.push(#[trigger] next@[y]));
                            assert(next@.contains(next@[y]));
                            assert(seed@[i as int].path@ == z);
                        }
                        if seed_part(seed@, next@, self.prob@, i as int).contains(z) {
                            let (a, ch) = choose|a: int, ch: char|
                                #![trigger seed@[a], next@.contains(ch)]
                                0 <= a < i && seed@[a].path@ == z && next@.contains(ch) && has_entry(self.prob@, z.push(ch));
                            assert(0 <= a < i + 1);
                        }
                    }
                }
            }
            if hit {
                let ctx = copy_chars(&st.path);
                let path = copy_chars(&st.path);
                let fresh = State { context: ctx, joint: st.joint.duplicate(), best: W::zero(), path };
                let ghost fs = fresh.snap();
                match find_context(&out, &fresh.context) {
                    Some(j) => {
                        proof {
                            assert forall|q: int| 0 <= q < j && q < prev.len() implies (#[trigger] prev[q]).0 != x by {
                                assert(prev[q] == out@[q].snap());
                            }
                            assert(prev[j as int] == out@[j as int].snap());
                            lemma_find_ctx(prev, x, j as int);
                        }
                        out.set(j, fresh);
                        proof {
                            assert(snaps(out@) =~= prev.update(j as int, fs));
                            assert forall|z: Seq<char>| contexts(out@).contains(z) == contexts(before).contains(z) by {
                                if contexts(before).contains(z) {
                                    let q = choose|q: int| 0 <= q < before.len() && (#[trigger] before[q]).context@ == z;
                                    assert(out@[q].context@ == z);
                                }
                                if contexts(out@).contains(z) {
                                    let q = choose|q: int| 0 <= q < out@.len() && (#[trigger] out@[q]).context@ == z;
                                    assert(before[q].context@ == z);
                                }
                            }
                            assert(contexts(before).contains(x));
                            assert(contexts(out@) =~= contexts(before).insert(x));
                        }
                    },
                    None => {
                        proof {
                            assert forall|q: int| 0 <= q < prev.len() implies (#[trigger] prev[q]).0 != x by {
                                assert(prev[q] == out@[q].snap());
                            }
                            lemma_find_ctx(prev, x, prev.len() as int);
                        }
                        out.push(fresh);
                        proof {
                            assert(snaps(out@) =~= prev.push(fs));
                            assert forall|z: Seq<char>| contexts(out@).contains(z) == contexts(before).insert(x).contains(z) by {
                                if contexts(before).contains(z) {
                                    let q = choose|q: int| 0 <= q < before.len() && (#[trigger] before[q]).context@ == z;
                                    assert(out@[q].context@ == z);
                                }
                                if contexts(out@).contains(z) && z != x {
                                    let q = choose|q: int| 0 <= q < out@.len() && (#[trigger] out@[q]).context@ == z;
                                    assert(before[q].context@ == z);
                                }
                                if z == x {
                                    assert(out@[out@.len() - 1].context@ == z);
                                }
                            }
                            assert(contexts(out@) =~= contexts(before).insert(x));
                        }
                    },
                }
            }
            i = i + 1;
        }
        proof {
            assert(seed_part(seed@, next@, self.prob@, i as int) =~= target);
        }
        out
    }
}

/// The characters of `v` as a string.
pub fn string_of(v: &Vec<char>) -> (r: String)
    ensures
        r@ == v@,
{
    let mut r = String::new();
    let mut i: usize = 0;
    while i < v.len()
        invariant
            i <= v@.len(),
            r@ == v@.take(i as int),
        decreases v@.len() - i,
    {
        push_char(&mut r, v[i]);
        proof {
            assert(r@ =~= v@.take(i + 1));
        }
        i = i + 1;
    }
    proof {
        assert(r@ =~= v@);
    }
    r
}

/// The first `n` tokens of `words`.
fn first_tokens<'a>(words: &Vec<&'a str>, n: usize) -> (r: Vec<&'a str>)
    requires
        n <= words@.len(),
    ensures
        r@ == words@.take(n as int),
{
    let mut r: Vec<&'a str> = Vec::new();
    let mut i: usize = 0;
    while i < n
        invariant
            i <= n <= words@.len(),
            r@ == words@.take(i as int),
        decreases n - i,
    {
        r.push(words[i]);
        proof {
            assert(r@ =~= words@.take(i + 1));
        }
        i = i + 1;
    }
    r
}

/// Converts a sentence of syllables to characters, by sentence length: one token
/// with the order-1 model; two with order 1 then order 2; more with orders 1, 2
/// and 3, each seeded with the frontier that the order below left.
pub fn convert<W: Weight>(m1: &Model<W>, m2: &Model<W>, m3: &Model<W>, words: &Vec<&str>) -> (r: Result<
    String,
    DecodeError,
>)
    requires
        m1.wf(),
        m2.wf(),
        m3.wf(),
        m1.order == 1,
        m2.order == 2,
        m3.order == 3,
        m1.mapping@ == m2.mapping@,
        m2.mapping@ == m3.mapping@,
        words@.len() >= 1,
    ensures
        match r {
            Ok(s) => {
                &&& all_known(m1.mapping@, words@)
                &&& path_ok(s@, token_cands(m1.mapping@, words@))
            },
            Err(DecodeError::UnknownSyllable { index }) => {
                &&& index < words@.len()
                &&& !m1.mapping@.contains_key(words@[index as int]@)
                &&& all_known(m1.mapping@, words@.take(index as int))
            },
            Err(DecodeError::NoViablePath) => all_known(m1.mapping@, words@),
        },
        all_known(m1.mapping@, words@) ==> convert_outcome(m1, m2, m3, words@) == match r {
            Ok(s) => Ok(s@),
            Err(e) => Err(e),
        },
{
    if let Some(i) = m1.first_unknown(words) {
        return Err(DecodeError::UnknownSyllable { index: i });
    }
    let n = words.len();
    let w1 = first_tokens(words, 1);
    proof {
        assert forall|j: int| 0 <= j < w1@.len() implies m1.mapping@.contains_key((#[trigger] w1@[j])@) by {
            assert(w1@[j] == words@[j]);
        }
    }
    let (p1, f1) = match m1.decode(&w1, None) {
        Ok(v) => v,
        Err(e) => {
            proof {
                if let DecodeError::UnknownSyllable { index } = e {
                    assert(w1@[index as int] == words@[index as int]);
                }
            }
            return Err(e);
        },
    };
    if n == 1 {
        proof {
            assert(w1@ =~= words@);
            assert(token_cands(m1.mapping@, w1@) =~= token_cands(m1.mapping@, words@));
        }
        return Ok(string_of(&p1));
    }
    let w2 = first_tokens(words, 2);
    proof {
        assert(w2@.take(1) =~= w1@);
        assert forall|j: int| 0 <= j < w2@.len() implies m2.mapping@.contains_key((#[trigger] w2@[j])@) by {
            assert(w2@[j] == words@[j]);
        }
    }
    let (p2, f2) = match m2.decode(&w2, Some(f1)) {
        Ok(v) => v,
        Err(e) => {
            proof {
                if let DecodeError::UnknownSyllable { index } = e {
                    assert(w2@[index as int] == words@[index as int]);
                }
            }
            return Err(e);
        },
    };
    if n == 2 {
        proof {
            assert(w2@ =~= words@);
            assert(token_cands(m2.mapping@, w2@) =~= token_cands(m1.mapping@, words@));
        }
        return Ok(string_of(&p2));
    }
    proof {
        assert(words@.take(2) =~= w2@);
    }
    match m3.decode(words, Some(f2)) {
        Ok((p3, _)) => Ok(string_of(&p3)),
        Err(e) => {
            Err(e)
        },
    }
}

} // verus!
