//! Order-k n-gram entries: a context of k-1 characters followed by one character.
//!
//! An order-k entry embeds an order-(k-1) entry as its context, so every order
//! reaches all the lower ones without extra state.

use vstd::prelude::*;
use vstd::string::StrSliceExecFns;
use crate::scanner::chars_of;

verus! {

/// The base of the packed integer form of an entry: one more than the largest `char`.
pub const CHAR_BASE: u64 = 0x110000;

/// The packed integer form of a character sequence: a base-`CHAR_BASE` number,
/// most significant digit first.
pub open spec fn code(s: Seq<char>) -> int
    decreases s.len(),
{
    if s.len() == 0 {
        0
    } else {
        code(s.drop_last()) * CHAR_BASE as int + (s.last() as u32) as int
    }
}

/// The context of an entry given by its packed form: the entry without its last character.
pub open spec fn context_code(c: int) -> int {
    c / CHAR_BASE as int
}

pub open spec fn pow_base(n: nat) -> int
    decreases n,
{
    if n == 0 {
        1
    } else {
        pow_base((n - 1) as nat) * CHAR_BASE as int
    }
}

/// Every `char` is below `CHAR_BASE`.
pub proof fn lemma_char_bound(c: char)
    ensures
        (c as u32) < CHAR_BASE,
{
    vstd::utf8::char_is_scalar(c);
}

pub proof fn lemma_code_bounds(s: Seq<char>)
    ensures
        0 <= code(s) < pow_base(s.len()),
    decreases s.len(),
{
    if s.len() > 0 {
        let d = s.drop_last();
        lemma_code_bounds(d);
        lemma_char_bound(s.last());
        let c = (s.last() as u32) as int;
        let p = pow_base(d.len());
        let b = CHAR_BASE as int;
        assert(0 <= c < b);
        assert(code(d) * b + c < p * b) by (nonlinear_arith)
            requires 0 <= code(d) < p, 0 <= c < b;
        assert(0 <= code(d) * b) by (nonlinear_arith)
            requires 0 <= code(d), 0 <= b;
    }
}

/// Dropping the last character of a sequence divides its packed form by the base.
pub proof fn lemma_context_code(s: Seq<char>)
    requires
        s.len() > 0,
    ensures
        context_code(code(s)) == code(s.drop_last()),
{
    let d = s.drop_last();
    lemma_code_bounds(d);
    lemma_char_bound(s.last());
    let c = (s.last() as u32) as int;
    let b = CHAR_BASE as int;
    assert((code(d) * b + c) / b == code(d)) by (nonlinear_arith)
        requires 0 <= c < b, b > 0;
}

/// Anything that stands for a sequence of characters: an entry or a context.
pub trait Gram: Sized {
    spec fn chars(&self) -> Seq<char>;

    /// The packed integer form of the characters.
    fn key(&self) -> (r: u64)
        ensures
            r as int == code(self.chars()),
    ;
}

/// The trait of order-k entries, for k >= 1.
pub trait Match: Gram {
    /// The context type: an order-(k-1) entry, or the empty context for k = 1.
    type Prefix: Gram;

    spec fn order() -> nat;

    fn new(prefix: &Self::Prefix, end: char) -> (r: Self)
        requires
            prefix.chars().len() + 1 == Self::order(),
        ensures
            r.chars() == prefix.chars().push(end),
    ;

    /// The number of characters of an entry.
    fn min_len() -> (r: usize)
        ensures
            r == Self::order(),
    ;

    /// The context that follows this entry: its characters without the oldest one.
    fn shift_prefix(&self) -> (r: Self::Prefix)
        ensures
            r.chars() == self.chars().drop_first(),
    ;
}

/// The empty context, the context of every order-1 entry.
#[derive(PartialEq, Eq, Structural, Clone, Copy, Debug, PartialOrd, Ord, Hash)]
pub struct Match0 {}

pub type Match1Prefix = Match0;

pub type Match2Prefix = Match1;

pub type Match3Prefix = Match2;

/// An order-1 entry: a single character with the empty context.
#[derive(PartialEq, Eq, Structural, Clone, Copy, Debug, PartialOrd, Ord, Hash)]
pub struct Match1 {
    pub end: char,
}

/// An order-2 entry: one character of context, then a character.
#[derive(PartialEq, Eq, Structural, Clone, Copy, Debug, PartialOrd, Ord, Hash)]
pub struct Match2 {
    pub prefix: Match1,
    pub end: char,
}

/// An order-3 entry: two characters of context, then a character.
#[derive(PartialEq, Eq, Structural, Clone, Copy, Debug, PartialOrd, Ord, Hash)]
pub struct Match3 {
    pub prefix: Match2,
    pub end: char,
}

impl Match0 {
    pub fn empty() -> (r: Match0)
        ensures
            r.chars().len() == 0,
    {
        Match0 {}
    }
}

impl Gram for Match0 {
    open spec fn chars(&self) -> Seq<char> {
        seq![]
    }

    fn key(&self) -> (r: u64) {
        0
    }
}

impl Gram for Match1 {
    open spec fn chars(&self) -> Seq<char> {
        seq![self.end]
    }

    fn key(&self) -> (r: u64) {
        proof {
            assert(self.chars().drop_last() =~= seq![]);
            assert(self.chars().last() == self.end);
            assert(code(seq![]) == 0);
        }
        self.end as u32 as u64
    }
}

impl Gram for Match2 {
    open spec fn chars(&self) -> Seq<char> {
        self.prefix.chars().push(self.end)
    }

    fn key(&self) -> (r: u64) {
        let a = self.prefix.key();
        let b = self.end as u32 as u64;
        proof {
            assert(self.chars().drop_last() =~= self.prefix.chars());
            lemma_code_bounds(self.prefix.chars());
            assert(pow_base(0) == 1);
            assert(pow_base(1) == 0x110000);
            assert(a as int * CHAR_BASE as int + b < 0x110000 * 0x110000) by (nonlinear_arith)
                requires a < 0x110000, b < 0x110000;
        }
        a * CHAR_BASE + b
    }
}

impl Gram for Match3 {
    open spec fn chars(&self) -> Seq<char> {
        self.prefix.chars().push(self.end)
    }

    fn key(&self) -> (r: u64) {
        let a = self.prefix.key();
        let b = self.end as u32 as u64;
        proof {
            assert(self.chars().drop_last() =~= self.prefix.chars());
            lemma_code_bounds(self.prefix.chars());
            assert(pow_base(0) == 1);
            assert(pow_base(1) == 0x110000);
            assert(pow_base(2) == 0x110000 * 0x110000);
            assert(a as int * CHAR_BASE as int + b < 0x110000 * 0x110000 * 0x110000)
                by (nonlinear_arith)
                requires a < 0x110000 * 0x110000, b < 0x110000;
        }
        a * CHAR_BASE + b
    }
}


/// Relies on `String::push`: appends one character.
#[verifier::external_body]
pub(crate) fn push_char(s: &mut String, c: char)
    ensures
        final(s)@ == old(s)@.push(c),
{
    s.push(c);
}

impl Match for Match1 {
    type Prefix = Match0;

    open spec fn order() -> nat {
        1
    }

    fn new(prefix: &Match0, end: char) -> (r: Match1) {
        proof {
            assert(seq![end] =~= prefix.chars().push(end));
        }
        Match1 { end }
    }

    fn min_len() -> (r: usize) {
        1
    }

    fn shift_prefix(&self) -> (r: Match0) {
        proof {
            assert(self.chars().drop_first() =~= seq![]);
        }
        Match0 {}
    }
}

impl Match for Match2 {
    type Prefix = Match1;

    open spec fn order() -> nat {
        2
    }

    fn new(prefix: &Match1, end: char) -> (r: Match2) {
        Match2 { prefix: *prefix, end }
    }

    fn min_len() -> (r: usize) {
        2
    }

    fn shift_prefix(&self) -> (r: Match1) {
        proof {
            assert(self.chars().drop_first() =~= seq![self.end]);
        }
        Match1 { end: self.end }
    }
}

impl Match for Match3 {
    type Prefix = Match2;

    open spec fn order() -> nat {
        3
    }

    fn new(prefix: &Match2, end: char) -> (r: Match3) {
        Match3 { prefix: *prefix, end }
    }

    fn min_len() -> (r: usize) {
        3
    }

    fn shift_prefix(&self) -> (r: Match2) {
        let r = Match2 { prefix: Match1 { end: self.prefix.end }, end: self.end };
        proof {
            assert(self.chars().drop_first() =~= r.chars());
        }
        r
    }
}

/// The entry whose canonical form is `s`, where `s` has exactly one character.
pub open spec fn parse1(s: Seq<char>) -> Option<Match1> {
    if s.len() == 1 {
        Some(Match1 { end: s[0] })
    } else {
        None
    }
}

/// The entry whose canonical form is `s`, where `s` has exactly two characters.
pub open spec fn parse2(s: Seq<char>) -> Option<Match2> {
    if s.len() == 2 {
        Some(Match2 { prefix: Match1 { end: s[0] }, end: s[1] })
    } else {
        None
    }
}

/// The entry whose canonical form is `s`, where `s` has exactly three characters.
pub open spec fn parse3(s: Seq<char>) -> Option<Match3> {
    if s.len() == 3 {
        Some(Match3 { prefix: Match2 { prefix: Match1 { end: s[0] }, end: s[1] }, end: s[2] })
    } else {
        None
    }
}

impl Match1 {
    /// The context of this entry.
    pub fn get_prefix(&self) -> (r: Match0)
        ensures
            r.chars() == self.chars().drop_last(),
    {
        proof {
            assert(self.chars().drop_last() =~= seq![]);
        }
        Match0 {}
    }

    /// Reads an entry back from its canonical form.
    pub fn from_str(s: &str) -> (r: Option<Match1>)
        ensures
            r == parse1(s@),
    {
        if s.unicode_len() != 1 {
            return None;
        }
        Some(Match1 { end: s.get_char(0) })
    }

    /// The canonical form: the characters of the entry, in order.
    pub fn to_string(&self) -> (r: String)
        ensures
            r@ == self.chars(),
    {
        let mut r = String::new();
        push_char(&mut r, self.end);
        proof {
            assert(r@ =~= self.chars());
        }
        r
    }
}

impl Match2 {
    /// The context of this entry.
    pub fn get_prefix(&self) -> (r: Match1)
        ensures
            r.chars() == self.chars().drop_last(),
    {
        proof {
            assert(self.chars().drop_last() =~= self.prefix.chars());
        }
        self.prefix
    }

    /// Reads an entry back from its canonical form.
    pub fn from_str(s: &str) -> (r: Option<Match2>)
        ensures
            r == parse2(s@),
    {
        if s.unicode_len() != 2 {
            return None;
        }
        Some(Match2 { prefix: Match1 { end: s.get_char(0) }, end: s.get_char(1) })
    }

    /// The canonical form: the characters of the entry, in order.
    pub fn to_string(&self) -> (r: String)
        ensures
            r@ == self.chars(),
    {
        let mut r = String::new();
        push_char(&mut r, self.prefix.end);
        push_char(&mut r, self.end);
        proof {
            assert(r@ =~= self.chars());
        }
        r
    }
}

impl Match3 {
    /// The context of this entry.
    pub fn get_prefix(&self) -> (r: Match2)
        ensures
            r.chars() == self.chars().drop_last(),
    {
        proof {
            assert(self.chars().drop_last() =~= self.prefix.chars());
        }
        self.prefix
    }

    /// Reads an entry back from its canonical form.
    pub fn from_str(s: &str) -> (r: Option<Match3>)
        ensures
            r == parse3(s@),
    {
        if s.unicode_len() != 3 {
            return None;
        }
        let a = s.get_char(0);
        let b = s.get_char(1);
        let c = s.get_char(2);
        Some(Match3 { prefix: Match2 { prefix: Match1 { end: a }, end: b }, end: c })
    }

    /// The canonical form: the characters of the entry, in order.
    pub fn to_string(&self) -> (r: String)
        ensures
            r@ == self.chars(),
    {
        let mut r = String::new();
        push_char(&mut r, self.prefix.prefix.end);
        push_char(&mut r, self.prefix.end);
        push_char(&mut r, self.end);
        proof {
            assert(r@ =~= self.chars());
        }
        r
    }
}

/// Reading back the canonical form of any entry gives that entry, at every order.
pub proof fn lemma_serialization_bijection(e1: Match1, e2: Match2, e3: Match3)
    ensures
        parse1(e1.chars()) == Some(e1),
        parse2(e2.chars()) == Some(e2),
        parse3(e3.chars()) == Some(e3),
{
    assert(e2.chars()[0] == e2.prefix.end);
    assert(e3.chars()[0] == e3.prefix.prefix.end);
    assert(e3.chars()[1] == e3.prefix.end);
    assert(e3.chars()[2] == e3.end);
    assert(e3.chars().len() == 3);
    let p = parse3(e3.chars()).unwrap();
    assert(p.prefix.prefix == e3.prefix.prefix);
    assert(p.prefix == e3.prefix);
}

/// Two entries of one order with the same canonical form are the same entry.
pub proof fn lemma_serialization_injective(a: Match3, b: Match3)
    requires
        a.chars() == b.chars(),
    ensures
        a == b,
{
    lemma_serialization_bijection(a.prefix.prefix, a.prefix, a);
    lemma_serialization_bijection(b.prefix.prefix, b.prefix, b);
}

/// The packed form of a sequence of at most three characters.
pub fn pack(v: &Vec<char>) -> (r: u64)
    requires
        v@.len() <= 3,
    ensures
        r as int == code(v@),
{
    let mut acc: u64 = 0;
    let mut j: usize = 0;
    proof {
        assert(v@.take(0) =~= Seq::<char>::empty());
    }
    while j < v.len()
        invariant
            j <= v@.len() <= 3,
            acc as int == code(v@.take(j as int)),
        decreases v@.len() - j,
    {
        let c = v[j];
        proof {
            let w = v@.take(j + 1);
            assert(w.drop_last() =~= v@.take(j as int));
            assert(w.last() == c);
            lemma_code_bounds(v@.take(j as int));
            lemma_char_bound(c);
            assert(pow_base(0) == 1);
            assert(pow_base(1) == 0x110000);
            assert(pow_base(2) == 0x110000 * 0x110000);
            assert(acc < 0x110000 * 0x110000);
            let ci = (c as u32) as int;
            assert(acc * 0x110000 + ci < 0x110000 * 0x110000 * 0x110000) by (nonlinear_arith)
                requires
                    acc < 0x110000 * 0x110000,
                    0 <= ci < 0x110000,
            ;
        }
        acc = acc * CHAR_BASE + c as u32 as u64;
        j = j + 1;
    }
    proof {
        assert(v@.take(j as int) =~= v@);
    }
    acc
}

/// Relies on `char::from_u32`: the character with the given scalar value, if it is one.
#[verifier::external_body]
fn char_from(u: u32) -> (r: Option<char>)
    ensures
        match r {
            Some(c) => c as u32 == u,
            None => !vstd::utf8::is_scalar(u),
        },
{
    char::from_u32(u)
}

/// Sequences of one length with the same packed form are equal.
pub proof fn lemma_code_injective(s: Seq<char>, t: Seq<char>)
    requires
        s.len() == t.len(),
        code(s) == code(t),
    ensures
        s == t,
    decreases s.len(),
{
    if s.len() > 0 {
        let b = CHAR_BASE as int;
        lemma_char_bound(s.last());
        lemma_char_bound(t.last());
        lemma_code_bounds(s.drop_last());
        lemma_code_bounds(t.drop_last());
        let (qs, rs) = (code(s.drop_last()), (s.last() as u32) as int);
        let (qt, rt) = (code(t.drop_last()), (t.last() as u32) as int);
        assert(qs == qt && rs == rt) by (nonlinear_arith)
            requires
                qs * b + rs == qt * b + rt,
                0 <= rs < b,
                0 <= rt < b,
                b > 0,
        {
            vstd::arithmetic::div_mod::lemma_fundamental_div_mod_converse(qs * b + rs, b, qs, rs);
            vstd::arithmetic::div_mod::lemma_fundamental_div_mod_converse(qt * b + rt, b, qt, rt);
        }
        lemma_code_injective(s.drop_last(), t.drop_last());
        vstd::utf8::char_u32_cast(s.last(), s.last() as u32);
        vstd::utf8::char_u32_cast(t.last(), t.last() as u32);
        assert(s =~= s.drop_last().push(s.last()));
        assert(t =~= t.drop_last().push(t.last()));
    }
}

/// Whether `s` is a sequence of `order` characters with packed form `key`.
pub open spec fn packs(s: Seq<char>, key: u64, order: nat) -> bool {
    s.len() == order && code(s) == key
}

/// The characters whose packed form is `key`, as the canonical string of an
/// entry of the given order; `None` if `key` packs no such characters.
pub fn entry_string(key: u64, order: usize) -> (r: Option<String>)
    requires
        1 <= order <= 3,
    ensures
        match r {
            Some(s) => packs(s@, key, order as nat),
            None => forall|s: Seq<char>| !#[trigger] packs(s, key, order as nat),
        },
{
    let mut digits: Vec<u32> = Vec::new();
    let mut rest: u64 = key;
    let mut i: usize = 0;
    proof {
        assert forall|s: Seq<char>| #[trigger] packs(s, key, order as nat) implies rest == code(
            s.take(order - i),
        ) by {
            assert(s.take(order as int) =~= s);
        }
    }
    while i < order
        invariant
            i <= order <= 3,
            digits@.len() == i,
            forall|s: Seq<char>|
                #[trigger] packs(s, key, order as nat) ==> rest == code(s.take(order - i)) && forall|q: int|
                    0 <= q < i ==> digits@[q] == s[order - 1 - q] as u32,
        decreases order - i,
    {
        let d = (rest % CHAR_BASE) as u32;
        let next = rest / CHAR_BASE;
        proof {
            assert forall|s: Seq<char>| #[trigger] packs(s, key, order as nat) implies next == code(
                s.take(order - i - 1),
            ) && d == s[order - 1 - i] as u32 by {
                let t = s.take(order - i);
                assert(t.drop_last() =~= s.take(order - i - 1));
                assert(t.last() == s[order - 1 - i]);
                lemma_char_bound(t.last());
                lemma_code_bounds(t.drop_last());
                vstd::arithmetic::div_mod::lemma_fundamental_div_mod_converse(
                    rest as int,
                    CHAR_BASE as int,
                    code(t.drop_last()),
                    (t.last() as u32) as int,
                );
            }
        }
        digits.push(d);
        rest = next;
        i = i + 1;
    }
    if rest != 0 {
        proof {
            assert forall|s: Seq<char>| !#[trigger] packs(s, key, order as nat) by {
                if packs(s, key, order as nat) {
                    assert(s.take(0) =~= Seq::<char>::empty());
                }
            }
        }
        return None;
    }
    let mut out = String::new();
    let mut j: usize = order;
    while j > 0
        invariant
            j <= order <= 3,
            digits@.len() == order,
            out@.len() == order - j,
            forall|s: Seq<char>|
                #[trigger] packs(s, key, order as nat) ==> out@ == s.take(order - j) && forall|q: int|
                    0 <= q < order ==> digits@[q] == s[order - 1 - q] as u32,
        decreases j,
    {
        match char_from(digits[j - 1]) {
            Some(c) => {
                let ghost before = out@;
                push_char(&mut out, c);
                proof {
                    assert forall|s: Seq<char>| #[trigger] packs(s, key, order as nat) implies out@ == s.take(
                        order - j + 1,
                    ) by {
                        let x = s[order - j];
                        assert(digits@[j - 1] == x as u32);
                        vstd::utf8::char_u32_cast(x, x as u32);
                        vstd::utf8::char_u32_cast(c, c as u32);
                        assert(c == x);
                        assert(out@ =~= s.take(order - j + 1));
                    }
                }
            },
            None => {
                proof {
                    assert forall|s: Seq<char>| !#[trigger] packs(s, key, order as nat) by {
                        if packs(s, key, order as nat) {
                            let x = s[order - j];
                            assert(digits@[j - 1] == x as u32);
                            vstd::utf8::char_is_scalar(x);
                        }
                    }
                }
                return None;
            },
        }
        j = j - 1;
    }
    let v = chars_of(out.as_str());
    if pack(&v) != key {
        proof {
            assert forall|s: Seq<char>| !#[trigger] packs(s, key, order as nat) by {
                if packs(s, key, order as nat) {
                    assert(s.take(order as int) =~= s);
                }
            }
        }
        return None;
    }
    Some(out)
}

/// The packed form of an entry of the given order read from its canonical string.
pub fn entry_key(s: &str, order: usize) -> (r: Option<u64>)
    requires
        1 <= order <= 3,
    ensures
        match r {
            Some(k) => s@.len() == order && k == code(s@),
            None => s@.len() != order,
        },
{
    let v = chars_of(s);
    if v.len() != order {
        return None;
    }
    Some(pack(&v))
}

/// Writing a table key as its canonical string and reading it back gives the
/// same key, and two keys of one order never share a string.
pub proof fn lemma_key_string_round_trip(k1: u64, s1: Seq<char>, k2: u64, s2: Seq<char>)
    requires
        s1.len() == s2.len(),
        code(s1) == k1,
        code(s2) == k2,
    ensures
        (s1 == s2) <==> (k1 == k2),
{
    if k1 == k2 {
        lemma_code_injective(s1, s2);
    }
}

} // verus!
