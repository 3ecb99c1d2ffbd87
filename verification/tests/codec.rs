use bpetok::decoder::Decoder;
use bpetok::token::Token;
use bpetok::tokenizer::Tokenizer;
use bpetok::training::{Initialized, Training};
use bpetok::vocabulary::{Edit, Vocabulary};

fn vocab_with(extra: Vec<Token>) -> Vocabulary<bpetok::vocabulary::ReadOnly> {
    let mut v = Vocabulary::<Edit>::new();
    v.append(extra);
    v.freeze()
}

#[test]
fn whole_word_shortcut_emits_one_id() {
    let v = vocab_with(vec![Token::new(b"aa".to_vec(), 256, Some((97, 97)), None)]);
    let t = Tokenizer::new(v);
    assert_eq!(t.tokenize(&b"aa".to_vec()), vec![256usize]);
}

#[test]
fn unmatched_words_fall_back_to_byte_pairs() {
    let v = vocab_with(vec![Token::new(b"aa".to_vec(), 256, Some((97, 97)), None)]);
    let t = Tokenizer::new(v);
    // "ab": no whole-word match, bytes [97,98], no mergeable pair
    assert_eq!(t.tokenize(&b"ab".to_vec()), vec![97usize, 98]);
    // "aab": bytes [97,97,98]; (97,97) merges, 98 stays
    assert_eq!(t.tokenize(&b"aab".to_vec()), vec![256usize, 98]);
}

#[test]
fn merge_encoding_is_a_single_pass_not_a_fixpoint() {
    let v = vocab_with(vec![
        Token::new(b"aa".to_vec(), 256, Some((97, 97)), None),
        Token::new(b"aaaa".to_vec(), 257, Some((256, 256)), None),
    ]);
    let t = Tokenizer::new(v);
    // "aaaab" has no whole-word match; the single greedy pass merges the
    // byte pairs but does not revisit the fresh (256,256) pair.
    assert_eq!(t.tokenize(&b"aaaab".to_vec()), vec![256usize, 256, 98]);
    // "aaaa" alone takes the whole-word shortcut instead.
    assert_eq!(t.tokenize(&b"aaaa".to_vec()), vec![257usize]);
}

#[test]
fn whitespace_and_line_breaks_separate_words() {
    let v = vocab_with(vec![Token::new(b"aa".to_vec(), 256, Some((97, 97)), None)]);
    let t = Tokenizer::new(v);
    assert_eq!(t.tokenize(&b"aa aa".to_vec()), vec![256usize, 256]);
    assert_eq!(t.tokenize(&b"aa\naa".to_vec()), vec![256usize, 256]);
    assert_eq!(t.tokenize(&b"  aa\t\naa  ".to_vec()), vec![256usize, 256]);
    assert_eq!(t.tokenize(&b"".to_vec()), Vec::<usize>::new());
    assert_eq!(t.tokenize(&b" \n ".to_vec()), Vec::<usize>::new());
}

#[test]
fn decoding_concatenates_token_texts() {
    let v = vocab_with(vec![Token::new(b"aa".to_vec(), 256, Some((97, 97)), None)]);
    let d = Decoder::new(v);
    assert_eq!(d.decode(vec![256, 97, 98]), b"aaab".to_vec());
    assert_eq!(d.decode(vec![]), Vec::<u8>::new());
}

#[test]
fn unknown_ids_decode_to_the_placeholder_marker() {
    let v = vocab_with(vec![]);
    let d = Decoder::new(v);
    // the replacement character, then decoding continues
    assert_eq!(d.decode(vec![9999, 97]), vec![0xEF, 0xBF, 0xBD, 97]);
}

#[test]
fn whole_word_encoding_round_trips_through_decode() {
    // train on a tiny corpus, then encode a string that equals a learned
    // token's text: decoding must give exactly that text back.
    let trainer = Training::<Initialized>::new(Some(257));
    let lines = vec![b"aa ab".to_vec()];
    let finished = trainer.start_training(&lines).start_merge().unwrap();
    let frozen = finished.get_vocabulary().freeze();
    let tokenizer = Tokenizer::new(frozen);
    let ids = tokenizer.tokenize(&b"aa".to_vec());
    assert_eq!(ids, vec![256usize]);
    let decoder = Decoder::new(tokenizer.vocabulary);
    assert_eq!(decoder.decode(ids), b"aa".to_vec());
}

#[test]
fn training_scenario_decodes_mixed_ids() {
    let trainer = Training::<Initialized>::new(Some(257));
    let lines = vec![b"aa ab".to_vec()];
    let finished = trainer.start_training(&lines).start_merge().unwrap();
    let frozen = finished.get_vocabulary().freeze();
    let tokenizer = Tokenizer::new(frozen);
    assert_eq!(tokenizer.tokenize(&b"ab".to_vec()), vec![97usize, 98]);
    let decoder = Decoder::new(tokenizer.vocabulary);
    assert_eq!(decoder.decode(vec![256, 97, 98]), b"aaab".to_vec());
}
