//! The pinyin mapping: syllable -> candidate characters, read from a resource
//! with one record per line.

use std::collections::BTreeSet;
use vstd::prelude::*;
use crate::context::push_char;
use crate::scanner::chars_of;

verus! {

/// Whether `c` separates pieces: a line break when splitting into lines, a
/// space when splitting a line into fields.
pub open spec fn is_sep(c: char, lines: bool) -> bool {
    if lines {
        c == '\r' || c == '\n'
    } else {
        c == ' '
    }
}

/// The pieces of `s` between separators; `n` separators give `n + 1` pieces.
pub open spec fn split(s: Seq<char>, lines: bool) -> Seq<Seq<char>>
    decreases s.len(),
{
    if s.len() == 0 {
        seq![seq![]]
    } else {
        let prev = split(s.drop_last(), lines);
        if is_sep(s.last(), lines) {
            prev.push(seq![])
        } else {
            prev.update(prev.len() - 1, prev.last().push(s.last()))
        }
    }
}

pub proof fn lemma_split_nonempty(s: Seq<char>, lines: bool)
    ensures
        split(s, lines).len() >= 1,
    decreases s.len(),
{
    if s.len() > 0 {
        lemma_split_nonempty(s.drop_last(), lines);
    }
}

pub open spec fn views(v: Seq<Vec<char>>) -> Seq<Seq<char>> {
    v.map_values(|x: Vec<char>| x@)
}

/// Splits `s` at each separator.
pub fn split_exec(s: &Vec<char>, lines: bool) -> (r: Vec<Vec<char>>)
    ensures
        views(r@) == split(s@, lines),
{
    let mut done: Vec<Vec<char>> = Vec::new();
    let mut cur: Vec<char> = Vec::new();
    let mut i: usize = 0;
    proof {
        assert(s@.take(0) =~= Seq::<char>::empty());
        assert(views(done@).push(cur@) =~= split(s@.take(0), lines));
    }
    while i < s.len()
        invariant
            i <= s@.len(),
            views(done@).push(cur@) == split(s@.take(i as int), lines),
        decreases s@.len() - i,
    {
        let c = s[i];
        proof {
            assert(s@.take(i + 1).drop_last() =~= s@.take(i as int));
            assert(s@.take(i + 1).last() == c);
            lemma_split_nonempty(s@.take(i as int), lines);
        }
        let sep = if lines {
            c == '\r' || c == '\n'
        } else {
            c == ' '
        };
        if sep {
            let old_cur = cur;
            proof {
                assert(views(done@.push(old_cur)).push(Seq::<char>::empty()) =~= split(
                    s@.take(i + 1),
                    lines,
                ));
            }
            done.push(old_cur);
            cur = Vec::new();
        } else {
            cur.push(c);
            proof {
                let prev = split(s@.take(i as int), lines);
                assert(views(done@).push(cur@) =~= prev.update(prev.len() - 1, prev.last().push(c)));
            }
        }
        i = i + 1;
    }
    proof {
        assert(s@.take(i as int) =~= s@);
    }
    done.push(cur);
    proof {
        assert(views(done@) =~= split(s@, lines));
    }
    done
}

/// The map that a list of records gives, later records replacing earlier ones.
pub open spec fn map_of(r: Seq<(Seq<char>, Seq<char>)>) -> Map<Seq<char>, Seq<char>>
    decreases r.len(),
{
    if r.len() == 0 {
        map![]
    } else {
        map_of(r.drop_last()).insert(r.last().0, r.last().1)
    }
}

/// Records after index `i` that do not have key `k` leave it as the first `i` records gave it.
pub proof fn lemma_map_of_suffix(r: Seq<(Seq<char>, Seq<char>)>, i: int, k: Seq<char>)
    requires
        0 <= i <= r.len(),
        forall|j: int| i <= j < r.len() ==> (#[trigger] r[j]).0 != k,
    ensures
        map_of(r).contains_key(k) == map_of(r.take(i)).contains_key(k),
        map_of(r).contains_key(k) ==> map_of(r)[k] == map_of(r.take(i))[k],
    decreases r.len(),
{
    if r.len() > i {
        let d = r.drop_last();
        assert(r.take(i) =~= d.take(i));
        assert forall|j: int| i <= j < d.len() implies (#[trigger] d[j]).0 != k by {
            assert(d[j] == r[j]);
        }
        lemma_map_of_suffix(d, i, k);
    } else {
        assert(r.take(i) =~= r);
    }
}

/// Listing each syllable of a mapping exactly once, in any order, and adding the
/// records back one by one rebuilds the same mapping.
pub proof fn lemma_mapping_round_trip(m: Map<Seq<char>, Seq<char>>, r: Seq<(Seq<char>, Seq<char>)>)
    requires
        forall|i: int, j: int| 0 <= i < j < r.len() ==> (#[trigger] r[i]).0 != (#[trigger] r[j]).0,
        forall|i: int| 0 <= i < r.len() ==> m.contains_key((#[trigger] r[i]).0) && m[r[i].0] == r[i].1,
        forall|k: Seq<char>| #[trigger] m.contains_key(k) ==> exists|i: int| 0 <= i < r.len() && (#[trigger] r[i]).0 == k,
    ensures
        map_of(r) == m,
    decreases r.len(),
{
    if r.len() == 0 {
        assert(m =~= map![]);
    } else {
        let d = r.drop_last();
        let last = r.last();
        let m2 = m.remove(last.0);
        assert forall|k: Seq<char>| #[trigger] m2.contains_key(k) implies exists|i: int| 0 <= i < d.len() && (#[trigger] d[i]).0 == k by {
            let i = choose|i: int| 0 <= i < r.len() && (#[trigger] r[i]).0 == k;
            assert(i != r.len() - 1);
            assert(d[i] == r[i]);
        }
        assert forall|i: int| 0 <= i < d.len() implies m2.contains_key((#[trigger] d[i]).0) && m2[d[i].0] == d[i].1 by {
            assert(d[i] == r[i]);
            assert(r[i].0 != r[r.len() - 1].0);
        }
        assert forall|i: int, j: int| 0 <= i < j < d.len() implies (#[trigger] d[i]).0 != (#[trigger] d[j]).0 by {
            assert(d[i] == r[i]);
            assert(d[j] == r[j]);
        }
        lemma_mapping_round_trip(m2, d);
        assert(r[r.len() - 1] == last);
        assert(m2.insert(last.0, last.1) =~= m);
    }
}

/// The characters that any record offers, shadowed records included.
pub open spec fn vocab_of(r: Seq<(Seq<char>, Seq<char>)>) -> Set<char> {
    Set::new(|c: char| exists|i: int, j: int| 0 <= i < r.len() && 0 <= j < r[i].1.len() && r[i].1[j] == c)
}

/// A well-formed record line: every field after the first is non-empty.
pub open spec fn fields_ok(f: Seq<Seq<char>>) -> bool {
    forall|i: int| 1 <= i < f.len() ==> (#[trigger] f[i]).len() > 0
}

/// The candidates of a record line: the first character of each field after the first.
pub open spec fn fields_candidates(f: Seq<Seq<char>>) -> Seq<char> {
    f.subrange(1, f.len() as int).map_values(|x: Seq<char>| x[0])
}

/// A syllable and its candidate characters, or a record line that cannot be read.
pub open spec fn parse_line_spec(line: Seq<char>) -> Option<(Seq<char>, Seq<char>)> {
    let f = split(line, false);
    if fields_ok(f) {
        Some((f[0], fields_candidates(f)))
    } else {
        None
    }
}

/// The mapping resource held a line that cannot be read.
#[derive(PartialEq, Eq, Structural, Clone, Copy, Debug)]
pub struct ConfigurationError {
    /// The index of the line among the pieces between line breaks.
    pub line: usize,
}

/// Syllable -> candidate characters.
pub struct Mapping {
    keys: Vec<Vec<char>>,
    names: Vec<String>,
    cands: Vec<Vec<char>>,
}

impl Mapping {
    /// The records in the order they were added.
    pub closed spec fn records(&self) -> Seq<(Seq<char>, Seq<char>)> {
        Seq::new(self.keys@.len(), |i: int| (self.keys@[i]@, self.cands@[i]@))
    }

    pub closed spec fn wf(&self) -> bool {
        &&& self.keys@.len() == self.names@.len()
        &&& self.keys@.len() == self.cands@.len()
        &&& forall|i: int| 0 <= i < self.keys@.len() ==> (#[trigger] self.names@[i])@ == self.keys@[i]@
    }

    pub open spec fn view(&self) -> Map<Seq<char>, Seq<char>> {
        map_of(self.records())
    }

    pub fn new() -> (r: Mapping)
        ensures
            r.wf(),
            r.records().len() == 0,
            r@ == Map::<Seq<char>, Seq<char>>::empty(),
    {
        let r = Mapping { keys: Vec::new(), names: Vec::new(), cands: Vec::new() };
        proof {
            assert(r.records() =~= seq![]);
        }
        r
    }

    /// Adds a record; a later record for the same syllable replaces an earlier one.
    pub fn insert(&mut self, syllable: String, chars: Vec<char>)
        requires
            old(self).wf(),
        ensures
            final(self).wf(),
            final(self).records() == old(self).records().push((syllable@, chars@)),
            final(self)@ == old(self)@.insert(syllable@, chars@),
    {
        let key = chars_of(syllable.as_str());
        self.keys.push(key);
        self.names.push(syllable);
        self.cands.push(chars);
        proof {
            assert(self.records() =~= old(self).records().push((key@, chars@)));
            assert(self.records().drop_last() =~= old(self).records());
        }
    }

    /// The number of records, shadowed ones included.
    pub fn len(&self) -> (r: usize)
        requires
            self.wf(),
        ensures
            r == self.records().len(),
    {
        self.keys.len()
    }

    /// The record at index `i`.
    pub fn record(&self, i: usize) -> (r: (&String, &Vec<char>))
        requires
            self.wf(),
            i < self.records().len(),
        ensures
            r.0@ == self.records()[i as int].0,
            r.1@ == self.records()[i as int].1,
    {
        (&self.names[i], &self.cands[i])
    }

    /// The candidates of a syllable.
    pub fn get(&self, syllable: &str) -> (r: Option<&Vec<char>>)
        requires
            self.wf(),
        ensures
            match r {
                Some(v) => self@.contains_key(syllable@) && v@ == self@[syllable@],
                None => !self@.contains_key(syllable@),
            },
    {
        let key = chars_of(syllable);
        let mut i: usize = self.keys.len();
        while i > 0
            invariant
                self.wf(),
                i <= self.keys@.len(),
                key@ == syllable@,
                forall|j: int| i <= j < self.records().len() ==> (#[trigger] self.records()[j]).0 != key@,
            decreases i,
        {
            if same_chars(&self.keys[i - 1], &key) {
                proof {
                    let r = self.records();
                    let t = r.take(i as int);
                    lemma_map_of_suffix(r, i as int, key@);
                    assert(t.drop_last() =~= r.take(i - 1));
                    assert(t.last() == r[i - 1]);
                }
                return Some(&self.cands[i - 1]);
            }
            i = i - 1;
        }
        proof {
            lemma_map_of_suffix(self.records(), 0, key@);
            assert(self.records().take(0) =~= seq![]);
        }
        None
    }
}

/// Whether two character vectors hold the same characters.
pub fn same_chars(a: &Vec<char>, b: &Vec<char>) -> (r: bool)
    ensures
        r == (a@ == b@),
{
    if a.len() != b.len() {
        return false;
    }
    let mut i: usize = 0;
    while i < a.len()
        invariant
            i <= a@.len(),
            a@.len() == b@.len(),
            forall|j: int| 0 <= j < i ==> a@[j] == b@[j],
        decreases a@.len() - i,
    {
        if a[i] != b[i] {
            return false;
        }
        i = i + 1;
    }
    proof {
        assert(a@ =~= b@);
    }
    true
}

/// A line that is either empty (skipped) or a readable record.
pub open spec fn line_good(l: Seq<char>) -> bool {
    l.len() == 0 || parse_line_spec(l) is Some
}

/// The records of a resource split into lines, or `None` if a line cannot be read.
pub open spec fn parse_records(lines: Seq<Seq<char>>) -> Option<Seq<(Seq<char>, Seq<char>)>>
    decreases lines.len(),
{
    if lines.len() == 0 {
        Some(seq![])
    } else {
        match parse_records(lines.drop_last()) {
            None => None,
            Some(prev) => {
                let l = lines.last();
                if l.len() == 0 {
                    Some(prev)
                } else {
                    match parse_line_spec(l) {
                        Some(rec) => Some(prev.push(rec)),
                        None => None,
                    }
                }
            },
        }
    }
}

/// The records of a mapping resource given as text, or `None` if a line cannot be read.
pub open spec fn parse_mapping_spec(text: Seq<char>) -> Option<Seq<(Seq<char>, Seq<char>)>> {
    parse_records(split(text, true))
}

pub proof fn lemma_parse_records_good(lines: Seq<Seq<char>>)
    ensures
        parse_records(lines) is Some <==> forall|j: int| 0 <= j < lines.len() ==> line_good(#[trigger] lines[j]),
    decreases lines.len(),
{
    if lines.len() > 0 {
        let d = lines.drop_last();
        lemma_parse_records_good(d);
        if parse_records(lines) is Some {
            assert forall|j: int| 0 <= j < lines.len() implies line_good(#[trigger] lines[j]) by {
                if j < d.len() {
                    assert(lines[j] == d[j]);
                }
            }
        }
        if forall|j: int| 0 <= j < lines.len() ==> line_good(#[trigger] lines[j]) {
            assert forall|j: int| 0 <= j < d.len() implies line_good(#[trigger] d[j]) by {
                assert(lines[j] == d[j]);
            }
            assert(line_good(lines[lines.len() - 1]));
        }
    }
}

/// Reads one non-empty record line: the syllable, then one candidate per further field.
pub fn parse_line(line: &Vec<char>) -> (r: Option<(String, Vec<char>)>)
    ensures
        match r {
            Some(p) => parse_line_spec(line@) == Some((p.0@, p.1@)),
            None => parse_line_spec(line@) is None,
        },
{
    let fields = split_exec(line, false);
    proof {
        lemma_split_nonempty(line@, false);
    }
    let ghost f = views(fields@);
    let mut name = String::new();
    let first = &fields[0];
    let mut i: usize = 0;
    proof {
        assert(name@ =~= f[0].take(0));
    }
    while i < first.len()
        invariant
            i <= first@.len(),
            f.len() >= 1,
            first@ == f[0],
            name@ == f[0].take(i as int),
        decreases first@.len() - i,
    {
        push_char(&mut name, first[i]);
        proof {
            assert(name@ =~= f[0].take(i + 1));
        }
        i = i + 1;
    }
    proof {
        assert(name@ =~= f[0]);
    }
    let mut cands: Vec<char> = Vec::new();
    let mut k: usize = 1;
    while k < fields.len()
        invariant
            1 <= k <= fields@.len(),
            f == views(fields@),
            f == split(line@, false),
            f.len() == fields@.len(),
            forall|j: int| 1 <= j < k ==> (#[trigger] f[j]).len() > 0,
            cands@ == f.subrange(1, k as int).map_values(|x: Seq<char>| x[0]),
        decreases fields@.len() - k,
    {
        let field = &fields[k];
        proof {
            assert(field@ == f[k as int]);
        }
        if field.len() == 0 {
            proof {
                assert(f[k as int].len() == 0);
                assert(!fields_ok(f));
                assert(split(line@, false) == f);
            }
            return None;
        }
        cands.push(field[0]);
        proof {
            assert(cands@ =~= f.subrange(1, k + 1).map_values(|x: Seq<char>| x[0]));
        }
        k = k + 1;
    }
    proof {
        assert(split(line@, false) == f);
        assert(fields_ok(f));
        assert(cands@ == fields_candidates(f));
    }
    Some((name, cands))
}

/// The characters that a GBK-encoded resource decodes to.
pub uninterp spec fn gbk_text(b: Seq<u8>) -> Seq<char>;

/// Relies on `encoding_rs::Encoding::decode` for `GBK`: a function of the bytes
/// alone, a byte-order mark sniffed and malformed sequences replaced.
#[verifier::external_body]
fn decode_gbk(bytes: &[u8]) -> (r: String)
    ensures
        r@ == gbk_text(bytes@),
{
    encoding_rs::GBK.decode(bytes).0.into_owned()
}

impl Mapping {
    /// Reads a mapping resource given as text: one record per line, fields
    /// separated by spaces, empty lines skipped.
    pub fn parse(text: &str) -> (r: Result<Mapping, ConfigurationError>)
        ensures
            match r {
                Ok(m) => m.wf() && parse_mapping_spec(text@) == Some(m.records()),
                Err(e) => {
                    let lines = split(text@, true);
                    &&& parse_mapping_spec(text@) is None
                    &&& e.line < lines.len()
                    &&& !line_good(lines[e.line as int])
                    &&& forall|j: int| 0 <= j < e.line ==> line_good(#[trigger] lines[j])
                },
            },
    {
        let chars = chars_of(text);
        let lines = split_exec(&chars, true);
        let ghost ls = views(lines@);
        let mut m = Mapping::new();
        let mut i: usize = 0;
        proof {
            assert(ls.take(0) =~= seq![]);
        }
        while i < lines.len()
            invariant
                i <= lines@.len(),
                ls == views(lines@),
                ls == split(text@, true),
                m.wf(),
                parse_records(ls.take(i as int)) == Some(m.records()),
                forall|j: int| 0 <= j < i ==> line_good(#[trigger] ls[j]),
            decreases lines@.len() - i,
        {
            let line = &lines[i];
            proof {
                assert(line@ == ls[i as int]);
                assert(ls.take(i + 1).drop_last() =~= ls.take(i as int));
                assert(ls.take(i + 1).last() == ls[i as int]);
            }
            if line.len() > 0 {
                match parse_line(line) {
                    Some((name, cands)) => {
                        m.insert(name, cands);
                    },
                    None => {
                        proof {
                            lemma_parse_records_good(ls);
                        }
                        return Err(ConfigurationError { line: i });
                    },
                }
            }
            i = i + 1;
        }
        proof {
            assert(ls.take(i as int) =~= ls);
        }
        Ok(m)
    }

    /// Reads a GBK-encoded mapping resource.
    pub fn from_gbk(bytes: &[u8]) -> (r: Result<Mapping, ConfigurationError>)
        ensures
            match r {
                Ok(m) => m.wf() && parse_mapping_spec(gbk_text(bytes@)) == Some(m.records()),
                Err(e) => parse_mapping_spec(gbk_text(bytes@)) is None,
            },
    {
        let text = decode_gbk(bytes);
        Mapping::parse(text.as_str())
    }

    /// The vocabulary: every character that any record offers.
    pub fn vocabulary(&self) -> (r: BTreeSet<char>)
        requires
            self.wf(),
        ensures
            r@ == vocab_of(self.records()),
    {
        let mut r: BTreeSet<char> = BTreeSet::new();
        let mut i: usize = 0;
        while i < self.cands.len()
            invariant
                self.wf(),
                i <= self.cands@.len(),
                r@ == vocab_of(self.records().take(i as int)),
            decreases self.cands@.len() - i,
        {
            let cs = &self.cands[i];
            let mut j: usize = 0;
            while j < cs.len()
                invariant
                    self.wf(),
                    i < self.cands@.len(),
                    cs@ == self.records()[i as int].1,
                    j <= cs@.len(),
                    r@ == vocab_of(self.records().take(i as int)).union(prefix_set(cs@, j as int)),
                decreases cs@.len() - j,
            {
                vocab_insert(&mut r, cs[j]);
                proof {
                    assert forall|c: char| prefix_set(cs@, j + 1).contains(c) == prefix_set(cs@, j as int).insert(cs@[j as int]).contains(c) by {
                        if prefix_set(cs@, j + 1).contains(c) && c != cs@[j as int] {
                            let b = choose|b: int| 0 <= b < j + 1 && cs@[b] == c;
                            assert(prefix_set(cs@, j as int).contains(c));
                        }
                        if c == cs@[j as int] {
                            assert(prefix_set(cs@, j + 1).contains(c));
                        }
                    }
                    assert(prefix_set(cs@, j + 1) =~= prefix_set(cs@, j as int).insert(cs@[j as int]));
                }
                j = j + 1;
            }
            proof {
                let rs = self.records();
                assert(rs.take(i + 1) =~= rs.take(i as int).push(rs[i as int]));
                assert forall|c: char| r@.contains(c) == vocab_of(rs.take(i + 1)).contains(c) by {
                    let t = rs.take(i + 1);
                    if vocab_of(t).contains(c) {
                        let (a, b) = choose|a: int, b: int| 0 <= a < t.len() && 0 <= b < t[a].1.len() && t[a].1[b] == c;
                        if a < i {
                            assert(rs.take(i as int)[a] == t[a]);
                        } else {
                            assert(prefix_set(cs@, j as int).contains(c));
                        }
                    }
                    if prefix_set(cs@, j as int).contains(c) {
                        let b = choose|b: int| 0 <= b < cs@.len() && cs@[b] == c;
                        assert(t[i as int].1[b] == c);
                    }
                    if vocab_of(rs.take(i as int)).contains(c) {
                        let (a, b) = choose|a: int, b: int| 0 <= a < i && 0 <= b < rs.take(i as int)[a].1.len() && rs.take(i as int)[a].1[b] == c;
                        assert(t[a] == rs.take(i as int)[a]);
                    }
                }
                assert(r@ =~= vocab_of(rs.take(i + 1)));
            }
            i = i + 1;
        }
        proof {
            assert(self.records().take(i as int) =~= self.records());
        }
        r
    }
}

/// The characters among the first `j` of `s`.
pub open spec fn prefix_set(s: Seq<char>, j: int) -> Set<char> {
    Set::new(|c: char| exists|b: int| 0 <= b < j && s[b] == c)
}

/// Relies on `BTreeSet::insert`: adds the character to the set.
#[verifier::external_body]
fn vocab_insert(s: &mut BTreeSet<char>, c: char)
    ensures
        final(s)@ == old(s)@.insert(c),
{
    s.insert(c);
}

} // verus!
