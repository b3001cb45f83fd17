use bpe_tokenizer::model::{Pair, VocabEntry};
use bpe_tokenizer::tokenizer::Tokenizer;

fn pair(b1: i32, b2: i32) -> Option<VocabEntry> {
    Some(VocabEntry::Pair(Pair { b1, b2 }))
}

#[test]
fn new_tokenizer_is_empty() {
    let t = Tokenizer::new();
    assert_eq!(t.vocab_size(), 0);
    assert_eq!(t.merge_count(), 0);
    assert_eq!(t.entry(97), None);
    assert_eq!(t.entry(256), None);
}

#[test]
fn train_aaaa_regression() {
    let mut t = Tokenizer::new();
    let reduced = t.train_reduced("aaaa");
    assert_eq!(reduced, vec![257, 257]);
    assert_eq!(t.merge_count(), 2);
    assert_eq!(t.vocab_size(), 3);
    assert_eq!(t.entry(97), Some(VocabEntry::Byte(97)));
    assert_eq!(t.entry(256), pair(97, 97));
    assert_eq!(t.entry(257), pair(256, 256));
    assert_eq!(t.entry(258), None);
    assert_eq!(t.entry(98), None);
}

#[test]
fn encode_decode_aaaa() {
    let mut t = Tokenizer::new();
    t.train("aaaa");
    let codes = t.encode("aaaa");
    assert_eq!(codes, vec![257]);
    assert_eq!(t.decode(&codes), Some("aaaa".to_string()));
}

#[test]
fn no_merge_on_distinct_bytes() {
    let mut t = Tokenizer::new();
    let reduced = t.train_reduced("abcdefg");
    assert_eq!(reduced, vec![97, 98, 99, 100, 101, 102, 103]);
    assert_eq!(t.merge_count(), 0);
    assert_eq!(t.vocab_size(), 7);
    for b in 97..104 {
        assert_eq!(t.entry(b), Some(VocabEntry::Byte(b)));
    }
    assert_eq!(t.entry(96), None);
    assert_eq!(t.entry(104), None);
}

#[test]
fn train_ababab_ties_go_to_least_pair() {
    let mut t = Tokenizer::new();
    let reduced = t.train_reduced("ababab");
    assert_eq!(reduced, vec![258, 257, 258]);
    assert_eq!(t.merge_count(), 3);
    assert_eq!(t.vocab_size(), 5);
    assert_eq!(t.entry(256), pair(97, 98));
    assert_eq!(t.entry(257), pair(98, 256));
    assert_eq!(t.entry(258), pair(256, 257));
}

#[test]
fn encode_ababab() {
    let mut t = Tokenizer::new();
    t.train("ababab");
    let codes = t.encode("ababab");
    assert_eq!(codes, vec![256, 256, 256]);
    assert_eq!(t.decode(&codes), Some("ababab".to_string()));
}

#[test]
fn rounds_bounded_by_input_length() {
    for text in ["aaaa", "ababab", "abcdefg", "the cat sat on the mat", "", "x"] {
        let mut t = Tokenizer::new();
        let reduced = t.train_reduced(text);
        assert_eq!(reduced.len() + t.merge_count(), text.len());
    }
}

#[test]
fn merge_codes_refer_to_earlier_codes() {
    let mut t = Tokenizer::new();
    t.train("the cat sat on the mat with the hat");
    let n = t.merge_count() as i32;
    assert!(n > 0);
    for code in 256..256 + n {
        match t.entry(code) {
            Some(VocabEntry::Pair(p)) => {
                for part in [p.b1, p.b2] {
                    assert!(part < code);
                    assert!(t.entry(part).is_some());
                }
            }
            other => panic!("code {} has entry {:?}", code, other),
        }
    }
    assert_eq!(t.entry(256 + n), None);
}

#[test]
fn round_trip_on_trained_text() {
    let text = "the cat sat on the mat with the hat";
    let mut t = Tokenizer::new();
    t.train(text);
    let codes = t.encode(text);
    assert!(codes.len() < text.len());
    assert_eq!(t.decode(&codes), Some(text.to_string()));
}

#[test]
fn round_trip_multibyte_text() {
    let text = "héllo wörld, héllo wörld";
    let mut t = Tokenizer::new();
    t.train(text);
    let codes = t.encode(text);
    assert_eq!(t.decode(&codes), Some(text.to_string()));
}

#[test]
fn round_trip_on_other_text() {
    let mut t = Tokenizer::new();
    t.train("abababab");
    let text = "baba zz ab";
    assert_eq!(t.decode(&t.encode(text)), Some(text.to_string()));
}

#[test]
fn encode_stable_when_nothing_merges() {
    let mut t = Tokenizer::new();
    t.train("aaaa");
    assert_eq!(t.encode("abab"), vec![97, 98, 97, 98]);
    assert_eq!(t.encode_seq(vec![257, 256]), vec![257, 256]);
}

#[test]
fn encode_seq_reapplies_passes() {
    let mut t = Tokenizer::new();
    t.train("aaaa");
    assert_eq!(t.encode_seq(vec![256, 97, 97]), vec![257]);
    assert_eq!(t.encode_seq(vec![256, 97]), vec![256, 97]);
    assert_eq!(t.encode_seq(vec![]), Vec::<i32>::new());
}

#[test]
fn decode_raw_bytes_verbatim() {
    let t = Tokenizer::new();
    assert_eq!(t.decode_codes(&[104, 105]), vec![104, 105]);
    assert_eq!(t.decode_bytes(&[104, 105]), vec![104u8, 105]);
    assert_eq!(t.decode(&[104, 105]), Some("hi".to_string()));
    assert_eq!(t.decode(&[]), Some("".to_string()));
}

#[test]
fn decode_expands_nested_codes() {
    let mut t = Tokenizer::new();
    t.train("ababab");
    assert_eq!(t.decode_codes(&[258]), vec![97, 98, 98, 97, 98]);
    assert_eq!(t.decode(&[258, 99]), Some("abbabc".to_string()));
}

#[test]
fn decode_invalid_utf8() {
    let t = Tokenizer::new();
    let failure = "ERROR: Invalid UTF-8";
    assert_eq!(t.decode(&t.encode(failure)), Some(failure.to_string()));
    assert_eq!(t.decode(&[255]), None);
    assert_eq!(t.decode(&[0xc3]), None);
    assert_eq!(t.decode(&[0xed, 0xa0, 0x80]), None);
    assert_eq!(t.decode(&[0xc3, 0xa9]), Some("é".to_string()));
}

#[test]
fn decode_unknown_code_keeps_low_byte() {
    let t = Tokenizer::new();
    assert_eq!(t.decode_codes(&[300]), vec![300]);
    assert_eq!(t.decode_bytes(&[300]), vec![44u8]);
    assert_eq!(t.decode(&[300]), Some(",".to_string()));
}

#[test]
fn unseen_byte_passes_through() {
    let mut t = Tokenizer::new();
    t.train("aaaa");
    let codes = t.encode("aaaab");
    assert_eq!(codes, vec![257, 98]);
    assert!(codes.contains(&98));
    assert_eq!(t.decode(&codes), Some("aaaab".to_string()));
}

#[test]
fn training_twice_continues_codes() {
    let mut t = Tokenizer::new();
    t.train("aaaa");
    t.train("bbbb");
    assert_eq!(t.merge_count(), 4);
    assert_eq!(t.entry(258), pair(98, 98));
    assert_eq!(t.entry(259), pair(258, 258));
    assert_eq!(t.vocab_size(), 6);
    assert_eq!(t.decode(&t.encode("aaaabbbb")), Some("aaaabbbb".to_string()));
}

#[test]
fn unseen_byte_keeps_its_count() {
    let mut t = Tokenizer::new();
    t.train("aaaa");
    let codes = t.encode("baab");
    assert_eq!(codes, vec![98, 256, 98]);
    assert_eq!(codes.iter().filter(|&&c| c == 98).count(), 2);
}

#[test]
fn merges_at_most_length_minus_two() {
    for text in ["aaa", "aaaa", "aaaaaaaa", "abababab", "ab", "a"] {
        let mut t = Tokenizer::new();
        t.train(text);
        assert!(t.merge_count() <= text.len().saturating_sub(2));
    }
}
