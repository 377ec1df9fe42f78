//! Scanning raw text for n-gram entries over a vocabulary.
//!
//! A sliding window holds the vocabulary characters seen last. A character
//! outside the vocabulary empties it, so no entry ever straddles a gap.

use std::collections::BTreeSet;
use vstd::prelude::*;
use vstd::std_specs::iter::IteratorSpec;
use crate::context::{Gram, Match1, Match2, Match3};

verus! {

/// The length of the run of vocabulary characters that ends at index `i` (inclusive).
pub open spec fn run_len(text: Seq<char>, valid: Set<char>, i: int) -> nat
    decreases i + 1,
{
    if i < 0 || i >= text.len() || !valid.contains(text[i]) {
        0
    } else {
        run_len(text, valid, i - 1) + 1
    }
}

/// The order-`k` entries found in the first `n` characters of `text`, in order.
pub open spec fn scan_upto(text: Seq<char>, valid: Set<char>, k: nat, n: nat) -> Seq<Seq<char>>
    decreases n,
{
    if n == 0 {
        seq![]
    } else {
        let prev = scan_upto(text, valid, k, (n - 1) as nat);
        if run_len(text, valid, n - 1) >= k {
            prev.push(text.subrange(n - k, n as int))
        } else {
            prev
        }
    }
}

/// All order-`k` entries of `text`, in order.
pub open spec fn scan(text: Seq<char>, valid: Set<char>, k: nat) -> Seq<Seq<char>> {
    scan_upto(text, valid, k, text.len())
}

/// A run of length at least `k` ending at `i` holds only vocabulary characters.
pub proof fn lemma_run_in_vocab(text: Seq<char>, valid: Set<char>, i: int, k: nat, t: int)
    requires
        run_len(text, valid, i) >= k,
        i - k < t <= i,
    ensures
        0 <= t < text.len(),
        valid.contains(text[t]),
    decreases k,
{
    if t < i {
        lemma_run_in_vocab(text, valid, i - 1, (k - 1) as nat, t);
    }
}

/// No entry straddles a gap: every entry the scan finds is a run of `k`
/// consecutive characters of the text, all in the vocabulary.
pub proof fn lemma_scan_entries_in_vocab(text: Seq<char>, valid: Set<char>, k: nat, n: nat, j: int)
    requires
        n <= text.len(),
        0 <= j < scan_upto(text, valid, k, n).len(),
    ensures
        exists|m: int|
            #![trigger text.subrange(m - k, m)]
            k <= m <= n && scan_upto(text, valid, k, n)[j] == text.subrange(m - k, m) && forall|t: int|
                m - k <= t < m ==> valid.contains(#[trigger] text[t]),
    decreases n,
{
    let prev = scan_upto(text, valid, k, (n - 1) as nat);
    if j < prev.len() {
        lemma_scan_entries_in_vocab(text, valid, k, (n - 1) as nat, j);
        let m = choose|m: int|
            #![trigger text.subrange(m - k, m)]
            k <= m <= n - 1 && prev[j] == text.subrange(m - k, m) && forall|t: int|
                m - k <= t < m ==> valid.contains(#[trigger] text[t]);
        assert(scan_upto(text, valid, k, n)[j] == prev[j]);
    } else {
        let m = n as int;
        assert forall|t: int| m - k <= t < m implies valid.contains(#[trigger] text[t]) by {
            lemma_run_in_vocab(text, valid, n - 1, k, t);
        }
        assert(run_len(text, valid, n - 1) >= k);
        assert(k <= m) by {
            lemma_run_len_bound(text, valid, n - 1);
        }
        assert(scan_upto(text, valid, k, n)[j] == text.subrange(m - k, m));
    }
}

/// A run ending at `i` is at most `i + 1` long.
pub proof fn lemma_run_len_bound(text: Seq<char>, valid: Set<char>, i: int)
    ensures
        run_len(text, valid, i) <= if i < 0 { 0 } else { i + 1 },
    decreases i + 1,
{
    if i >= 0 {
        lemma_run_len_bound(text, valid, i - 1);
    }
}

/// A scan of the first `n` characters finds at most `n` entries.
pub proof fn lemma_scan_len(text: Seq<char>, valid: Set<char>, k: nat, n: nat)
    ensures
        scan_upto(text, valid, k, n).len() <= n,
    decreases n,
{
    if n > 0 {
        lemma_scan_len(text, valid, k, (n - 1) as nat);
    }
}

/// Collects the characters of a string.
pub fn chars_of(s: &str) -> (r: Vec<char>)
    ensures
        r@ == s@,
{
    let mut out: Vec<char> = Vec::new();
    proof {
        broadcast use vstd::string::axiom_spec_iter;
    }
    for c in it: s.chars()
        invariant
            it.seq() == s@,
            out@ == s@.take(it.index() as int),
    {
        proof {
            assert(out@.push(c) =~= s@.take(it.index() + 1));
        }
        out.push(c);
    }
    proof {
        assert(out@ =~= s@);
    }
    out
}

/// Relies on `BTreeSet::contains`: whether the set holds the character.
#[verifier::external_body]
pub(crate) fn vocab_contains(valid: &BTreeSet<char>, c: char) -> (r: bool)
    ensures
        r == valid@.contains(c),
{
    valid.contains(&c)
}

/// The sliding-window state shared by the scanners of every order.
pub struct Scanner<'a> {
    chars: Vec<char>,
    pos: usize,
    run: usize,
    order: usize,
    valid: &'a BTreeSet<char>,
}

impl<'a> Scanner<'a> {
    pub closed spec fn text(&self) -> Seq<char> {
        self.chars@
    }

    pub closed spec fn vocab(&self) -> Set<char> {
        self.valid@
    }

    pub closed spec fn order(&self) -> nat {
        self.order as nat
    }

    pub closed spec fn pos(&self) -> nat {
        self.pos as nat
    }

    pub closed spec fn wf(&self) -> bool {
        &&& self.order >= 1
        &&& self.pos <= self.chars@.len()
        &&& self.run == run_len(self.chars@, self.valid@, self.pos - 1)
        &&& self.run <= self.pos
    }

    /// The entries handed out so far.
    pub open spec fn produced(&self) -> Seq<Seq<char>> {
        scan_upto(self.text(), self.vocab(), self.order(), self.pos())
    }

    /// Whether the whole text has been read.
    pub open spec fn done(&self) -> bool {
        self.pos() == self.text().len()
    }

    pub fn new(input: &str, valid: &'a BTreeSet<char>, order: usize) -> (r: Scanner<'a>)
        requires
            order >= 1,
        ensures
            r.wf(),
            r.text() == input@,
            r.vocab() == valid@,
            r.order() == order,
            r.pos() == 0,
    {
        Scanner { chars: chars_of(input), pos: 0, run: 0, order, valid }
    }

    pub fn char_at(&self, i: usize) -> (r: char)
        requires
            self.wf(),
            i < self.text().len(),
        ensures
            r == self.text()[i as int],
    {
        proof {
            assert(self.pos <= self.chars@.len());
        }
        self.chars[i]
    }

    /// Reads up to the end of the next entry and returns the index just past it.
    pub fn advance(&mut self) -> (r: Option<usize>)
        requires
            old(self).wf(),
        ensures
            final(self).wf(),
            final(self).text() == old(self).text(),
            final(self).vocab() == old(self).vocab(),
            final(self).order() == old(self).order(),
            final(self).pos() >= old(self).pos(),
            match r {
                Some(n) => {
                    &&& n == final(self).pos()
                    &&& n > old(self).pos()
                    &&& n <= final(self).text().len()
                    &&& old(self).order() <= n
                    &&& final(self).produced() == old(self).produced().push(
                        old(self).text().subrange(n - old(self).order(), n as int),
                    )
                },
                None => final(self).done() && final(self).produced() == old(self).produced(),
            },
    {
        let ghost start = self.produced();
        while self.pos < self.chars.len()
            invariant
                self.wf(),
                self.text() == old(self).text(),
                self.vocab() == old(self).vocab(),
                self.order() == old(self).order(),
                self.pos() >= old(self).pos(),
                self.produced() == start,
                start == old(self).produced(),
            decreases self.chars@.len() - self.pos,
        {
            let c = self.chars[self.pos];
            self.pos = self.pos + 1;
            let found = vocab_contains(self.valid, c);
            if found {
                proof {
                    assert(self.valid@.contains(c));
                    assert(self.chars@[self.pos - 1] == c);
                }
                self.run = self.run + 1;
                if self.run >= self.order {
                    return Some(self.pos);
                }
            } else {
                proof {
                    assert(!self.valid@.contains(c));
                    assert(self.chars@[self.pos - 1] == c);
                }
                self.run = 0;
            }
        }
        None
    }
}

/// The order-1 entries of a text, one at a time.
pub struct Match1Iter<'a> {
    inner: Scanner<'a>,
}

impl<'a> Match1Iter<'a> {
    pub closed spec fn scanner(&self) -> Scanner<'a> {
        self.inner
    }

    pub open spec fn wf(&self) -> bool {
        self.scanner().wf() && self.scanner().order() == 1
    }

    /// The entries handed out so far.
    pub open spec fn produced(&self) -> Seq<Seq<char>> {
        self.scanner().produced()
    }

    /// Whether the whole text has been read.
    pub open spec fn done(&self) -> bool {
        self.scanner().done()
    }

    /// The next entry, or `None` once the text is used up.
    pub fn next(&mut self) -> (r: Option<Match1>)
        requires
            old(self).wf(),
        ensures
            final(self).wf(),
            final(self).scanner().text() == old(self).scanner().text(),
            final(self).scanner().vocab() == old(self).scanner().vocab(),
            match r {
                Some(e) => final(self).produced() == old(self).produced().push(e.chars()),
                None => final(self).done() && final(self).produced() == old(self).produced(),
            },
    {
        match self.inner.advance() {
            Some(n) => {
                let e = Match1 { end: self.inner.char_at(n - 1) };
                proof {
                    assert(e.chars() =~= self.scanner().text().subrange(n - 1, n as int));
                }
                Some(e)
            },
            None => None,
        }
    }
}

impl Match1 {
    /// Starts a scan of `input` for order-1 entries over the vocabulary `valid`.
    pub fn iter<'a>(input: &'a str, valid: &'a BTreeSet<char>) -> (r: Match1Iter<'a>)
        ensures
            r.wf(),
            r.scanner().text() == input@,
            r.scanner().vocab() == valid@,
            r.produced().len() == 0,
    {
        Match1Iter { inner: Scanner::new(input, valid, 1) }
    }
}

/// The order-2 entries of a text, one at a time.
pub struct Match2Iter<'a> {
    inner: Scanner<'a>,
}

impl<'a> Match2Iter<'a> {
    pub closed spec fn scanner(&self) -> Scanner<'a> {
        self.inner
    }

    pub open spec fn wf(&self) -> bool {
        self.scanner().wf() && self.scanner().order() == 2
    }

    /// The entries handed out so far.
    pub open spec fn produced(&self) -> Seq<Seq<char>> {
        self.scanner().produced()
    }

    /// Whether the whole text has been read.
    pub open spec fn done(&self) -> bool {
        self.scanner().done()
    }

    /// The next entry, or `None` once the text is used up.
    pub fn next(&mut self) -> (r: Option<Match2>)
        requires
            old(self).wf(),
        ensures
            final(self).wf(),
            final(self).scanner().text() == old(self).scanner().text(),
            final(self).scanner().vocab() == old(self).scanner().vocab(),
            match r {
                Some(e) => final(self).produced() == old(self).produced().push(e.chars()),
                None => final(self).done() && final(self).produced() == old(self).produced(),
            },
    {
        match self.inner.advance() {
            Some(n) => {
                let a = self.inner.char_at(n - 2);
                let e = Match2 { prefix: Match1 { end: a }, end: self.inner.char_at(n - 1) };
                proof {
                    assert(e.chars() =~= self.scanner().text().subrange(n - 2, n as int));
                }
                Some(e)
            },
            None => None,
        }
    }
}

impl Match2 {
    /// Starts a scan of `input` for order-2 entries over the vocabulary `valid`.
    pub fn iter<'a>(input: &'a str, valid: &'a BTreeSet<char>) -> (r: Match2Iter<'a>)
        ensures
            r.wf(),
            r.scanner().text() == input@,
            r.scanner().vocab() == valid@,
            r.produced().len() == 0,
    {
        Match2Iter { inner: Scanner::new(input, valid, 2) }
    }
}

/// The order-3 entries of a text, one at a time.
pub struct Match3Iter<'a> {
    inner: Scanner<'a>,
}

impl<'a> Match3Iter<'a> {
    pub closed spec fn scanner(&self) -> Scanner<'a> {
        self.inner
    }

    pub open spec fn wf(&self) -> bool {
        self.scanner().wf() && self.scanner().order() == 3
    }

    /// The entries handed out so far.
    pub open spec fn produced(&self) -> Seq<Seq<char>> {
        self.scanner().produced()
    }

    /// Whether the whole text has been read.
    pub open spec fn done(&self) -> bool {
        self.scanner().done()
    }

    /// The next entry, or `None` once the text is used up.
    pub fn next(&mut self) -> (r: Option<Match3>)
        requires
            old(self).wf(),
        ensures
            final(self).wf(),
            final(self).scanner().text() == old(self).scanner().text(),
            final(self).scanner().vocab() == old(self).scanner().vocab(),
            match r {
                Some(e) => final(self).produced() == old(self).produced().push(e.chars()),
                None => final(self).done() && final(self).produced() == old(self).produced(),
            },
    {
        match self.inner.advance() {
            Some(n) => {
                let a = self.inner.char_at(n - 3);
                let b = self.inner.char_at(n - 2);
                let c = self.inner.char_at(n - 1);
                let e = Match3 { prefix: Match2 { prefix: Match1 { end: a }, end: b }, end: c };
                proof {
                    assert(e.chars() =~= self.scanner().text().subrange(n - 3, n as int));
                }
                Some(e)
            },
            None => None,
        }
    }
}

impl Match3 {
    /// Starts a scan of `input` for order-3 entries over the vocabulary `valid`.
    pub fn iter<'a>(input: &'a str, valid: &'a BTreeSet<char>) -> (r: Match3Iter<'a>)
        ensures
            r.wf(),
            r.scanner().text() == input@,
            r.scanner().vocab() == valid@,
            r.produced().len() == 0,
    {
        Match3Iter { inner: Scanner::new(input, valid, 3) }
    }
}

} // verus!
