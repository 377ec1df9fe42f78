use pinyin::{Counts, Gram, Mapping, Match, Match0, Match1, Match2, Match3, Ratio};
use pinyin::context::{entry_key, entry_string};
use std::collections::BTreeSet;

fn vocab(cs: &[char]) -> BTreeSet<char> {
    cs.iter().copied().collect()
}

#[test]
fn serialization_round_trips_every_order() {
    let e1 = Match1 { end: '你' };
    let e2 = Match2 { prefix: Match1 { end: '你' }, end: '好' };
    let e3 = Match3 { prefix: e2, end: '吗' };
    assert_eq!(e1.to_string(), "你");
    assert_eq!(e2.to_string(), "你好");
    assert_eq!(e3.to_string(), "你好吗");
    assert_eq!(Match1::from_str(&e1.to_string()), Some(e1));
    assert_eq!(Match2::from_str(&e2.to_string()), Some(e2));
    assert_eq!(Match3::from_str(&e3.to_string()), Some(e3));
}

#[test]
fn from_str_rejects_wrong_length() {
    assert_eq!(Match1::from_str(""), None);
    assert_eq!(Match2::from_str("你"), None);
    assert_eq!(Match3::from_str("你好吗呢"), None);
}

#[test]
fn shift_and_prefix() {
    let e3 = Match3 { prefix: Match2 { prefix: Match1 { end: 'a' }, end: 'b' }, end: 'c' };
    assert_eq!(e3.shift_prefix(), Match2 { prefix: Match1 { end: 'b' }, end: 'c' });
    assert_eq!(e3.get_prefix(), Match2 { prefix: Match1 { end: 'a' }, end: 'b' });
    assert_eq!(Match2::new(&Match1 { end: 'x' }, 'y').to_string(), "xy");
    assert_eq!(Match1::new(&Match0::empty(), 'z').to_string(), "z");
    assert_eq!(Match3::min_len(), 3);
}

#[test]
fn packed_keys() {
    assert_eq!(Match1 { end: 'a' }.key(), 97);
    assert_eq!(Match2 { prefix: Match1 { end: 'a' }, end: 'b' }.key(), 97 * 0x110000 + 98);
}

#[test]
fn scanner_resets_on_out_of_vocabulary_character() {
    let v = vocab(&['A', 'B']);
    let mut it = Match2::iter("A了B", &v);
    assert_eq!(it.next(), None);
    let mut it1 = Match1::iter("A了B", &v);
    assert_eq!(it1.next(), Some(Match1 { end: 'A' }));
    assert_eq!(it1.next(), Some(Match1 { end: 'B' }));
    assert_eq!(it1.next(), None);
}

#[test]
fn scanner_emits_sliding_windows() {
    let v = vocab(&['a', 'b', 'c', 'd']);
    let mut it = Match3::iter("abcd.ab", &v);
    assert_eq!(it.next().map(|e| e.to_string()), Some("abc".to_string()));
    assert_eq!(it.next().map(|e| e.to_string()), Some("bcd".to_string()));
    assert_eq!(it.next(), None);
    let mut it2 = Match2::iter("abxcd", &v);
    assert_eq!(it2.next().map(|e| e.to_string()), Some("ab".to_string()));
    assert_eq!(it2.next().map(|e| e.to_string()), Some("cd".to_string()));
    assert_eq!(it2.next(), None);
}

#[test]
fn estimated_probabilities_are_count_ratios() {
    let v = vocab(&['a', 'b']);
    let mut c = Counts::new(2);
    c.add_text("abab", &v);
    c.add_text("aa", &v);
    let t = c.estimate();
    let ab = Match2 { prefix: Match1 { end: 'a' }, end: 'b' }.key();
    let aa = Match2 { prefix: Match1 { end: 'a' }, end: 'a' }.key();
    let ba = Match2 { prefix: Match1 { end: 'b' }, end: 'a' }.key();
    assert_eq!(t.get(&ab), Some(&Ratio { num: 2, den: 3 }));
    assert_eq!(t.get(&aa), Some(&Ratio { num: 1, den: 3 }));
    assert_eq!(t.get(&ba), Some(&Ratio { num: 1, den: 1 }));
    assert_eq!(t.len(), 3);
    for r in t.values() {
        assert!(r.num > 0 && r.num <= r.den);
    }
}

#[test]
fn order_one_probabilities_share_the_empty_context() {
    let v = vocab(&['a', 'b']);
    let mut c = Counts::new(1);
    c.add_text("aab-", &v);
    let t = c.estimate();
    assert_eq!(t.get(&Match1 { end: 'a' }.key()), Some(&Ratio { num: 2, den: 3 }));
    assert_eq!(t.get(&Match1 { end: 'b' }.key()), Some(&Ratio { num: 1, den: 3 }));
}

#[test]
fn no_order_two_entry_links_across_a_gap() {
    let v = vocab(&['A', 'B']);
    let mut c = Counts::new(2);
    c.add_text("A了B", &v);
    assert!(c.estimate().is_empty());
}

#[test]
fn mapping_parse_reads_records() {
    let m = Mapping::parse("ma 妈 马\r\n\nni 你们 泥\n").unwrap();
    assert_eq!(m.get("ma"), Some(&vec!['妈', '马']));
    assert_eq!(m.get("ni"), Some(&vec!['你', '泥']));
    assert_eq!(m.get("hao"), None);
    assert_eq!(m.len(), 2);
    let v = m.vocabulary();
    assert_eq!(v, vocab(&['妈', '马', '你', '泥']));
}

#[test]
fn mapping_later_record_replaces_earlier() {
    let m = Mapping::parse("ma 妈\nma 马").unwrap();
    assert_eq!(m.get("ma"), Some(&vec!['马']));
    assert_eq!(m.vocabulary(), vocab(&['妈', '马']));
}

#[test]
fn mapping_parse_rejects_empty_field() {
    let e = Mapping::parse("ma 妈\nni  你\nhao 好").err().unwrap();
    assert_eq!(e.line, 1);
    assert!(Mapping::parse("ma 妈 ").is_err());
}

#[test]
fn mapping_from_gbk_decodes_bytes() {
    let bytes: Vec<u8> = vec![b'm', b'a', b' ', 0xC2, 0xE8, b' ', 0xC2, 0xED];
    let m = Mapping::from_gbk(&bytes).unwrap();
    assert_eq!(m.get("ma"), Some(&vec!['妈', '马']));
}

#[test]
fn table_keys_round_trip_through_strings() {
    let e = Match3 { prefix: Match2 { prefix: Match1 { end: '你' }, end: '好' }, end: '吗' };
    let s = entry_string(e.key(), 3).unwrap();
    assert_eq!(s, "你好吗");
    assert_eq!(entry_key(&s, 3), Some(e.key()));
    assert_eq!(entry_key("你好", 3), None);
    assert_eq!(entry_string(Match1 { end: 'a' }.key(), 1), Some("a".to_string()));
}

#[test]
fn entry_string_rejects_keys_that_pack_no_characters() {
    // a surrogate code point is not a character
    assert_eq!(entry_string(0xD800, 1), None);
    // too large for a single character
    assert_eq!(entry_string(0x110000, 1), None);
    assert_eq!(entry_string(0x110000 * 0x110000, 2), None);
}

#[test]
fn counts_add_up_across_documents() {
    let v = vocab(&['x', 'y']);
    let mut c = Counts::new(3);
    c.add_text("xyx", &v);
    c.add_text("xyy", &v);
    let t = c.estimate();
    let xyx = Match3 { prefix: Match2 { prefix: Match1 { end: 'x' }, end: 'y' }, end: 'x' }.key();
    let xyy = Match3 { prefix: Match2 { prefix: Match1 { end: 'x' }, end: 'y' }, end: 'y' }.key();
    assert_eq!(t.get(&xyx), Some(&Ratio { num: 1, den: 2 }));
    assert_eq!(t.get(&xyy), Some(&Ratio { num: 1, den: 2 }));
    assert_eq!(t.len(), 2);
}

#[test]
fn empty_text_gives_empty_table() {
    let v = vocab(&['x']);
    let mut c = Counts::new(1);
    c.add_text("", &v);
    assert!(c.estimate().is_empty());
}
