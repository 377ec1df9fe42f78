use pinyin::{convert, DecodeError, Gram, Mapping, Match1, Match2, Match3, Model, Weight};

#[derive(Debug, Clone, Copy, PartialEq)]
struct P(f64);

impl Weight for P {
    fn one_spec() -> Self {
        P(1.0)
    }
    fn zero_spec() -> Self {
        P(0.0)
    }
    fn mul_spec(self, other: Self) -> Self {
        P(self.0 * other.0)
    }
    fn add_spec(self, other: Self) -> Self {
        P(self.0 + other.0)
    }
    fn gt_spec(self, other: Self) -> bool {
        self.0 > other.0
    }
    fn one() -> Self {
        P(1.0)
    }
    fn zero() -> Self {
        P(0.0)
    }
    fn times(&self, other: &Self) -> Self {
        P(self.0 * other.0)
    }
    fn plus(&self, other: &Self) -> Self {
        P(self.0 + other.0)
    }
    fn exceeds(&self, other: &Self) -> bool {
        self.0 > other.0
    }
    fn duplicate(&self) -> Self {
        *self
    }
}

fn mapping(records: &[(&str, &[char])]) -> Mapping {
    let mut m = Mapping::new();
    for (s, cs) in records {
        m.insert(s.to_string(), cs.to_vec());
    }
    m
}

fn m1(records: &[(&str, &[char])], table: &[(char, f64)]) -> Model<P> {
    let mut m: Model<P> = Model::empty(1);
    m.mapping = mapping(records);
    for (c, p) in table {
        m.prob.insert(Match1 { end: *c }.key(), P(*p));
    }
    m
}

fn m2(records: &[(&str, &[char])], table: &[(char, char, f64)]) -> Model<P> {
    let mut m: Model<P> = Model::empty(2);
    m.mapping = mapping(records);
    for (a, b, p) in table {
        let e = Match2 { prefix: Match1 { end: *a }, end: *b };
        m.prob.insert(e.key(), P(*p));
    }
    m
}

fn m3(records: &[(&str, &[char])], table: &[(char, char, char, f64)]) -> Model<P> {
    let mut m: Model<P> = Model::empty(3);
    m.mapping = mapping(records);
    for (a, b, c, p) in table {
        let e = Match3 { prefix: Match2 { prefix: Match1 { end: *a }, end: *b }, end: *c };
        m.prob.insert(e.key(), P(*p));
    }
    m
}

#[test]
fn order_one_picks_likelier_character() {
    let recs: &[(&str, &[char])] = &[("ma", &['妈', '马'])];
    let a = m1(recs, &[('妈', 0.9), ('马', 0.1)]);
    let b = m2(recs, &[]);
    let c = m3(recs, &[]);
    assert_eq!(convert(&a, &b, &c, &vec!["ma"]), Ok("妈".to_string()));
}

#[test]
fn order_two_cascade_follows_context() {
    let recs: &[(&str, &[char])] = &[("ni", &['你']), ("hao", &['好', '号'])];
    let a = m1(recs, &[('你', 0.5), ('好', 0.2), ('号', 0.3)]);
    let b = m2(recs, &[('你', '好', 0.9), ('你', '号', 0.1)]);
    let c = m3(recs, &[]);
    assert_eq!(convert(&a, &b, &c, &vec!["ni", "hao"]), Ok("你好".to_string()));
}

#[test]
fn unknown_syllable_fails_only_that_sentence() {
    let recs: &[(&str, &[char])] = &[("ma", &['妈', '马'])];
    let a = m1(recs, &[('妈', 0.9), ('马', 0.1)]);
    let b = m2(recs, &[]);
    let c = m3(recs, &[]);
    assert_eq!(
        convert(&a, &b, &c, &vec!["xyz"]),
        Err(DecodeError::UnknownSyllable { index: 0 })
    );
    assert_eq!(convert(&a, &b, &c, &vec!["ma"]), Ok("妈".to_string()));
}

#[test]
fn unknown_syllable_reports_first_unknown_index() {
    let recs: &[(&str, &[char])] = &[("ma", &['妈'])];
    let a = m1(recs, &[('妈', 1.0)]);
    let b = m2(recs, &[('妈', '妈', 1.0)]);
    let c = m3(recs, &[]);
    assert_eq!(
        convert(&a, &b, &c, &vec!["ma", "q", "r"]),
        Err(DecodeError::UnknownSyllable { index: 1 })
    );
}

#[test]
fn three_tokens_decode_through_order_three() {
    let recs: &[(&str, &[char])] = &[("a", &['甲', '乙']), ("b", &['丙', '丁']), ("c", &['戊', '己'])];
    // order 2 alone would favour 丁 after 甲
    let a = m1(recs, &[('甲', 0.6), ('乙', 0.4)]);
    let b = m2(recs, &[('甲', '丙', 0.3), ('甲', '丁', 0.7), ('乙', '丁', 0.6)]);
    // the only order-3 transition leads through 甲 丙 戊
    let c = m3(recs, &[('甲', '丙', '戊', 1.0)]);
    assert_eq!(convert(&a, &b, &c, &vec!["a", "b", "c"]), Ok("甲丙戊".to_string()));
}

#[test]
fn no_viable_path_when_table_has_no_transition() {
    let recs: &[(&str, &[char])] = &[("ni", &['你']), ("hao", &['好'])];
    let a = m1(recs, &[('你', 1.0)]);
    let b = m2(recs, &[]);
    let c = m3(recs, &[]);
    assert_eq!(convert(&a, &b, &c, &vec!["ni", "hao"]), Err(DecodeError::NoViablePath));
    assert_eq!(convert(&a, &b, &c, &vec!["hao"]), Err(DecodeError::NoViablePath));
}

#[test]
fn decoding_twice_gives_same_output() {
    let recs: &[(&str, &[char])] = &[("ni", &['你', '泥']), ("hao", &['好', '号'])];
    let a = m1(recs, &[('你', 0.5), ('泥', 0.5)]);
    let b = m2(recs, &[('你', '好', 0.9), ('泥', '号', 0.1), ('你', '号', 0.2)]);
    let c = m3(recs, &[]);
    let words = vec!["ni", "hao"];
    let first = convert(&a, &b, &c, &words);
    let second = convert(&a, &b, &c, &words);
    assert_eq!(first, second);
    assert_eq!(first, Ok("你好".to_string()));
}

#[test]
fn decode_returns_frontier_of_live_contexts() {
    let recs: &[(&str, &[char])] = &[("ma", &['妈', '马'])];
    let a = m1(recs, &[('妈', 0.9), ('马', 0.1)]);
    let (path, frontier) = a.decode(&vec!["ma"], None).unwrap();
    assert_eq!(path, vec!['妈']);
    assert_eq!(frontier.len(), 1);
    assert!(frontier[0].context.is_empty());
    assert!((frontier[0].joint.0 - 1.0).abs() < 1e-9);
    assert!((frontier[0].best.0 - 0.9).abs() < 1e-9);
}

fn int_model(order: usize, records: &[(&str, &[char])], table: &[(&str, u64)]) -> Model<u64> {
    let mut m: Model<u64> = Model::empty(order);
    m.mapping = mapping(records);
    for (e, w) in table {
        m.prob.insert(pinyin::context::entry_key(e, order).unwrap(), *w);
    }
    m
}

#[test]
fn integer_weights_order_one() {
    let recs: &[(&str, &[char])] = &[("ma", &['妈', '马'])];
    let a = int_model(1, recs, &[("妈", 9), ("马", 1)]);
    let b = int_model(2, recs, &[]);
    let c = int_model(3, recs, &[]);
    assert_eq!(convert(&a, &b, &c, &vec!["ma"]), Ok("妈".to_string()));
    let (_, f) = a.decode(&vec!["ma"], None).unwrap();
    assert_eq!(f.len(), 1);
    assert_eq!(f[0].joint, 10);
    assert_eq!(f[0].best, 9);
}

#[test]
fn integer_weights_sum_and_best_edge() {
    let recs: &[(&str, &[char])] = &[("a", &['x', 'y']), ("b", &['z'])];
    let a = int_model(1, recs, &[("x", 3), ("y", 5)]);
    let b = int_model(2, recs, &[("xz", 2), ("yz", 4)]);
    let (_, f1) = a.decode(&vec!["a"], None).unwrap();
    // the order-1 frontier keeps the path of the heavier edge
    assert_eq!(f1[0].path, vec!['y']);
    let (p, f2) = b.decode(&vec!["a", "b"], Some(f1)).unwrap();
    assert_eq!(p, vec!['y', 'z']);
    assert_eq!(f2.len(), 1);
    assert_eq!(f2[0].context, vec!['z']);
    assert_eq!(f2[0].joint, 8 * 4);
}

#[test]
fn integer_weights_saturate() {
    assert_eq!(Weight::times(&u64::MAX, &2), u64::MAX);
    assert_eq!(Weight::plus(&u64::MAX, &1), u64::MAX);
    assert_eq!(Weight::times(&6u64, &7), 42);
    assert!(Weight::exceeds(&3u64, &2));
    assert!(!Weight::exceeds(&2u64, &2));
}
