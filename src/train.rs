//! Maximum-likelihood estimation of n-gram probabilities from a corpus.
//!
//! For each entry, `P(entry) = count(entry) / count(context(entry))`, with no
//! smoothing. Probabilities are kept exact, as a pair of counts.

use std::collections::BTreeMap;
use std::collections::BTreeSet;
use vstd::prelude::*;
use crate::context::{code, lemma_code_bounds, lemma_context_code, pack, CHAR_BASE};
use crate::scanner::{lemma_scan_len, scan, Scanner};

verus! {

broadcast use vstd::laws_cmp::group_laws_cmp, vstd::std_specs::btree::group_btree_axioms;

/// An exact probability: `num / den`.
#[derive(PartialEq, Eq, Structural, Clone, Copy, Debug)]
pub struct Ratio {
    pub num: u64,
    pub den: u64,
}

impl Ratio {
    /// Whether the probability lies in (0, 1].
    pub open spec fn in_unit_interval(self) -> bool {
        0 < self.num <= self.den
    }
}

/// How many entries of `s` have the packed form `c`.
pub open spec fn count_code(s: Seq<Seq<char>>, c: int) -> nat
    decreases s.len(),
{
    if s.len() == 0 {
        0
    } else {
        count_code(s.drop_last(), c) + if code(s.last()) == c { 1nat } else { 0nat }
    }
}

/// How many entries of `s` have a context with the packed form `c`.
pub open spec fn count_context(s: Seq<Seq<char>>, c: int) -> nat
    decreases s.len(),
{
    if s.len() == 0 {
        0
    } else {
        count_context(s.drop_last(), c) + if code(s.last().drop_last()) == c { 1nat } else { 0nat }
    }
}

pub open spec fn get_count(m: Map<u64, u64>, c: u64) -> nat {
    if m.contains_key(c) {
        m[c] as nat
    } else {
        0
    }
}

/// Occurrence counts of the entries of one order and of their contexts.
pub struct Counts {
    order: usize,
    occur: BTreeMap<u64, u64>,
    context: BTreeMap<u64, u64>,
    keys: Vec<u64>,
    total: u64,
}

impl Counts {
    pub closed spec fn order(&self) -> nat {
        self.order as nat
    }

    /// How often the entry with packed form `c` was seen.
    pub closed spec fn occurrences(&self, c: u64) -> nat {
        get_count(self.occur@, c)
    }

    /// How often an entry whose context has packed form `c` was seen.
    pub closed spec fn context_occurrences(&self, c: u64) -> nat {
        get_count(self.context@, c)
    }

    /// How many entries were seen in all.
    pub closed spec fn total(&self) -> nat {
        self.total as nat
    }

    pub closed spec fn wf(&self) -> bool {
        &&& 1 <= self.order <= 3
        &&& forall|c: u64| #[trigger] self.occur@.contains_key(c) ==> self.occur@[c] >= 1
        &&& forall|c: u64| #[trigger] self.occur@.contains_key(c) <==> self.keys@.contains(c)
        &&& self.keys@.no_duplicates()
        &&& forall|c: u64| #[trigger] get_count(self.occur@, c) <= get_count(
            self.context@,
            (c / CHAR_BASE) as u64,
        )
        &&& forall|c: u64| #[trigger] get_count(self.context@, c) <= self.total
    }

    /// No counts yet, for entries of the given order.
    pub fn new(order: usize) -> (r: Counts)
        requires
            1 <= order <= 3,
        ensures
            r.wf(),
            r.order() == order,
            r.total() == 0,
            forall|c: u64| r.occurrences(c) == 0 && r.context_occurrences(c) == 0,
    {
        Counts { order, occur: BTreeMap::new(), context: BTreeMap::new(), keys: Vec::new(), total: 0 }
    }

    /// The probability table: each entry seen, with `count(entry) / count(context)`.
    pub fn estimate(&self) -> (r: BTreeMap<u64, Ratio>)
        requires
            self.wf(),
        ensures
            forall|c: u64| #[trigger] r@.contains_key(c) <==> self.occurrences(c) > 0,
            forall|c: u64|
                #[trigger] r@.contains_key(c) ==> r@[c] == (Ratio {
                    num: self.occurrences(c) as u64,
                    den: self.context_occurrences((c / CHAR_BASE) as u64) as u64,
                }),
            forall|c: u64| #[trigger] r@.contains_key(c) ==> r@[c].in_unit_interval(),
    {
        let mut r: BTreeMap<u64, Ratio> = BTreeMap::new();
        let mut i: usize = 0;
        while i < self.keys.len()
            invariant
                self.wf(),
                i <= self.keys@.len(),
                forall|c: u64| #[trigger] r@.contains_key(c) <==> self.keys@.take(i as int).contains(c),
                forall|c: u64|
                    #[trigger] r@.contains_key(c) ==> r@[c] == (Ratio {
                        num: self.occurrences(c) as u64,
                        den: self.context_occurrences((c / CHAR_BASE) as u64) as u64,
                    }),
            decreases self.keys@.len() - i,
        {
            let c = self.keys[i];
            let num: u64 = *self.occur.get(&c).unwrap();
            let ck = c / CHAR_BASE;
            let den: u64 = match self.context.get(&ck) {
                Some(v) => *v,
                None => 0,
            };
            proof {
                assert(self.occur@.contains_key(c));
                assert(get_count(self.context@, ck) == den);
            }
            r.insert(c, Ratio { num, den });
            proof {
                assert forall|x: u64| #[trigger] r@.contains_key(x) <==> self.keys@.take(i + 1).contains(x) by {
                    assert(self.keys@.take(i + 1) =~= self.keys@.take(i as int).push(c));
                    if x != c && self.keys@.take(i + 1).contains(x) {
                        let j = choose|j: int| 0 <= j < i + 1 && #[trigger] self.keys@.take(i + 1)[j] == x;
                        assert(self.keys@.take(i as int)[j] == x);
                    }
                    if x != c && self.keys@.take(i as int).contains(x) {
                        let j = choose|j: int| 0 <= j < i && #[trigger] self.keys@.take(i as int)[j] == x;
                        assert(self.keys@.take(i + 1)[j] == x);
                    }
                    if x == c {
                        assert(self.keys@.take(i + 1)[i as int] == c);
                    }
                }
            }
            i = i + 1;
        }
        proof {
            assert(self.keys@.take(i as int) =~= self.keys@);
            assert forall|c: u64| #[trigger] r@.contains_key(c) implies r@[c].in_unit_interval() by {
                if r@.contains_key(c) {
                    assert(get_count(self.occur@, c) <= get_count(self.context@, (c / CHAR_BASE) as u64));
                }
            }
        }
        r
    }

    /// Adds the entries of one document to the counts.
    pub fn add_text(&mut self, text: &str, valid: &BTreeSet<char>)
        requires
            old(self).wf(),
            old(self).total() + text@.len() <= u64::MAX,
        ensures
            final(self).wf(),
            final(self).order() == old(self).order(),
            final(self).total() == old(self).total() + scan(text@, valid@, old(self).order()).len(),
            forall|c: u64|
                #[trigger] final(self).occurrences(c) == old(self).occurrences(c) + count_code(
                    scan(text@, valid@, old(self).order()),
                    c as int,
                ),
            forall|c: u64|
                #[trigger] final(self).context_occurrences(c) == old(self).context_occurrences(c)
                    + count_context(scan(text@, valid@, old(self).order()), c as int),
    {
        let mut sc = Scanner::new(text, valid, self.order);
        loop
            invariant
                sc.wf(),
                sc.text() == text@,
                sc.vocab() == valid@,
                sc.order() == self.order,
                self.wf(),
                self.order == old(self).order,
                old(self).total() + text@.len() <= u64::MAX,
                self.total() == old(self).total() + sc.produced().len(),
                forall|c: u64|
                    #[trigger] self.occurrences(c) == old(self).occurrences(c) + count_code(
                        sc.produced(),
                        c as int,
                    ),
                forall|c: u64|
                    #[trigger] self.context_occurrences(c) == old(self).context_occurrences(c)
                        + count_context(sc.produced(), c as int),
            decreases sc.text().len() - sc.pos(),
        {
            let ghost before = sc.produced();
            match sc.advance() {
                None => {
                    return;
                },
                Some(n) => {
                    let key = window_key(&sc, n, self.order);
                    let ghost e = text@.subrange(n - self.order, n as int);
                    proof {
                        lemma_scan_len(text@, valid@, self.order as nat, sc.pos());
                        assert(sc.produced() == before.push(e));
                        assert(sc.produced().drop_last() =~= before);
                        lemma_context_code(e);
                        lemma_code_bounds(e);
                    }
                    self.bump(key);
                    proof {
                        assert forall|c: u64| #[trigger] self.occurrences(c) == old(self).occurrences(c)
                            + count_code(sc.produced(), c as int) by {
                            assert(count_code(sc.produced(), c as int) == count_code(before, c as int)
                                + if code(e) == c { 1nat } else { 0nat });
                        }
                        assert forall|c: u64| #[trigger] self.context_occurrences(c)
                            == old(self).context_occurrences(c) + count_context(sc.produced(), c as int) by {
                            assert(count_context(sc.produced(), c as int) == count_context(before, c as int)
                                + if code(e.drop_last()) == c { 1nat } else { 0nat });
                        }
                    }
                },
            }
        }
    }

    /// Counts one more occurrence of the entry with packed form `key`.
    fn bump(&mut self, key: u64)
        requires
            old(self).wf(),
            old(self).total < u64::MAX,
        ensures
            final(self).wf(),
            final(self).order == old(self).order,
            final(self).total == old(self).total + 1,
            forall|c: u64|
                #[trigger] final(self).occurrences(c) == old(self).occurrences(c) + if c == key {
                    1nat
                } else {
                    0nat
                },
            forall|c: u64|
                #[trigger] final(self).context_occurrences(c) == old(self).context_occurrences(c)
                    + if c == key / CHAR_BASE {
                    1nat
                } else {
                    0nat
                },
    {
        let ck = key / CHAR_BASE;
        let o: u64 = match self.occur.get(&key) {
            Some(v) => *v,
            None => {
                self.keys.push(key);
                0
            },
        };
        proof {
            assert(get_count(self.occur@, key) == o);
            assert(get_count(self.occur@, key) <= get_count(self.context@, (key / CHAR_BASE) as u64));
        }
        self.occur.insert(key, o + 1);
        let t: u64 = match self.context.get(&ck) {
            Some(v) => *v,
            None => 0,
        };
        proof {
            assert(get_count(self.context@, ck) == t);
        }
        self.context.insert(ck, t + 1);
        self.total = self.total + 1;
        proof {
            if old(self).occur@.contains_key(key) {
                assert(self.keys@ == old(self).keys@);
            } else {
                assert(self.keys@ == old(self).keys@.push(key));
                assert(self.keys@[self.keys@.len() - 1] == key);
            }
            assert(self.keys@.contains(key));
            assert forall|c: u64| #[trigger] self.occur@.contains_key(c) <==> self.keys@.contains(c) by {
                if c != key {
                    assert(self.occur@.contains_key(c) == old(self).occur@.contains_key(c));
                    if !old(self).occur@.contains_key(key) {
                        if self.keys@.contains(c) {
                            let i = choose|i: int| 0 <= i < self.keys@.len() && self.keys@[i] == c;
                            assert(old(self).keys@[i] == c);
                        }
                        if old(self).keys@.contains(c) {
                            let i = choose|i: int| 0 <= i < old(self).keys@.len() && old(self).keys@[i] == c;
                            assert(self.keys@[i] == c);
                        }
                    }
                }
            }
            assert forall|c: u64|
                #[trigger] get_count(self.occur@, c) <= get_count(self.context@, (c / CHAR_BASE) as u64) by {
                assert(get_count(old(self).occur@, c) <= get_count(old(self).context@, (c / CHAR_BASE) as u64));
            }
            assert forall|c: u64| #[trigger] get_count(self.context@, c) <= self.total by {
                assert(get_count(old(self).context@, c) <= old(self).total);
            }
        }
    }
}

/// The packed form of the `k` characters of `s`'s text that end just before index `n`.
fn window_key(s: &Scanner, n: usize, k: usize) -> (r: u64)
    requires
        s.wf(),
        1 <= k <= 3,
        k <= n <= s.text().len(),
    ensures
        r as int == code(s.text().subrange(n - k, n as int)),
{
    let mut w: Vec<char> = Vec::new();
    let mut j: usize = n - k;
    while j < n
        invariant
            n - k <= j <= n,
            s.wf(),
            k <= n <= s.text().len(),
            w@ == s.text().subrange(n - k, j as int),
        decreases n - j,
    {
        w.push(s.char_at(j));
        proof {
            assert(w@ =~= s.text().subrange(n - k, j + 1));
        }
        j = j + 1;
    }
    pack(&w)
}

} // verus!
