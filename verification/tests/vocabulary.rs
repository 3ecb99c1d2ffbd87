use bpetok::error::VocabError;
use bpetok::token::Token;
use bpetok::vocabulary::{Edit, Vocabulary};

#[test]
fn fresh_builder_holds_the_256_base_tokens() {
    let v = Vocabulary::<Edit>::new();
    assert_eq!(v.token_count(), 256);
    let tokens = v.get_tokens();
    for i in 0..256usize {
        assert_eq!(tokens[i].get_token_id(), i);
        assert_eq!(tokens[i].get_pair(), None);
        assert_eq!(tokens[i].get_token(), vec![i as u8]);
    }
    assert_eq!(v.get_last_id(), 255);
}

#[test]
fn add_assigns_sorted_position_and_rejects_duplicates() {
    let mut v = Vocabulary::<Edit>::new();
    let t = Token::new(b"ab".to_vec(), 256, Some((97, 98)), Some(7));
    assert!(v.add(t).is_ok());
    assert_eq!(v.token_count(), 257);
    assert_eq!(v.get_last_id(), 256);

    // same ID again
    let same_id = Token::new(b"xy".to_vec(), 256, Some((120, 121)), None);
    assert!(v.add(same_id).is_err());
    assert_eq!(v.token_count(), 257);

    // same (text, pair) under a fresh ID
    let same_text_pair = Token::new(b"ab".to_vec(), 300, Some((97, 98)), None);
    assert!(v.add(same_text_pair).is_err());

    // same text under another pair is a different token
    let same_text_other_pair = Token::new(b"ab".to_vec(), 300, Some((96, 99)), None);
    assert!(v.add(same_text_other_pair).is_ok());
    assert_eq!(v.token_count(), 258);
}

#[test]
fn append_keeps_the_new_and_skips_the_duplicates() {
    let mut v = Vocabulary::<Edit>::new();
    let list = vec![
        Token::new(b"aa".to_vec(), 256, Some((97, 97)), None),
        Token::new(b"aa".to_vec(), 257, Some((97, 97)), None), // duplicate (text, pair)
        Token::new(b"ba".to_vec(), 257, Some((98, 97)), None),
    ];
    v.append(list);
    assert_eq!(v.token_count(), 258);
    let tokens = v.get_tokens();
    assert_eq!(tokens[256].get_token(), b"aa".to_vec());
    assert_eq!(tokens[257].get_token(), b"ba".to_vec());
}

#[test]
fn find_token_answers_by_id() {
    let mut v = Vocabulary::<Edit>::new();
    let t = Token::new(b"aa".to_vec(), 300, Some((97, 97)), None);
    assert!(v.add(t).is_ok());
    assert_eq!(v.find_token(97).unwrap().get_token(), b"a".to_vec());
    assert_eq!(v.find_token(300).unwrap().get_pair(), Some((97, 97)));
    assert!(v.find_token(299).is_none());
}

#[test]
fn freezing_keeps_every_token() {
    let mut v = Vocabulary::<Edit>::new();
    let t = Token::new(b"aa".to_vec(), 256, Some((97, 97)), Some(3));
    assert!(v.add(t).is_ok());
    let frozen = v.freeze();
    assert_eq!(frozen.token_count(), 257);
    assert_eq!(frozen.find_token(256).unwrap().get_occurrence(), 3);
}

#[test]
fn token_accessors_report_what_was_given() {
    let mut t = Token::new(b"hi".to_vec(), 12, None, None);
    assert_eq!(t.get_token(), b"hi".to_vec());
    assert_eq!(t.get_token_id(), 12);
    assert_eq!(t.get_pair(), None);
    assert_eq!(t.get_occurrence(), 1);
    t.increase_occurrence(None);
    assert_eq!(t.get_occurrence(), 2);
    t.increase_occurrence(Some(5));
    assert_eq!(t.get_occurrence(), 7);
}

#[test]
fn error_messages_carry_through() {
    let e = VocabError::new("duplicate");
    assert_eq!(e.msg, "duplicate");
    let e = bpetok::error::LoaderError::new("no file");
    assert_eq!(e.msg, "no file");
    let e = bpetok::error::TrainingError::new("bad read");
    assert_eq!(e.msg, "bad read");
    let e = bpetok::error::ExportError::new("bad path");
    assert_eq!(e.msg, "bad path");
}
