use bpetok::export::{ExportHandler, ExportTypes};
use bpetok::token::Token;
use bpetok::training::{Initialized, Training};
use bpetok::vocabulary::{Edit, ReadOnly, Vocabulary};

#[test]
fn export_demands_the_json_extension() {
    let v = Vocabulary::<Edit>::new();
    assert!(v.to_json(&b"tokens.txt".to_vec()).is_err());
    assert!(v.to_json(&b"tokens.json".to_vec()).is_ok());
    assert!(v.to_json(&b"a.b.json".to_vec()).is_ok());
    assert!(v.to_json(&b"a.json.txt".to_vec()).is_err());
    assert!(v.to_json(&b"nodotjson".to_vec()).is_err());
    // the whole name counts as the last dot-piece when no dot is present
    assert!(v.to_json(&b"json".to_vec()).is_ok());
}

#[test]
fn import_demands_the_json_extension_too() {
    assert!(Vocabulary::<ReadOnly>::from_json(&b"v.yaml".to_vec(), &b"{}".to_vec()).is_err());
    let v = Vocabulary::<ReadOnly>::from_json(&b"v.json".to_vec(), &b"{}".to_vec()).unwrap();
    assert_eq!(v.token_count(), 0);
}

#[test]
fn import_of_an_export_reproduces_every_record() {
    let trainer = Training::<Initialized>::new(Some(258));
    let lines = vec![b"low lower lowest low low".to_vec()];
    let finished = trainer.start_training(&lines).start_merge().unwrap();
    let vocab = finished.get_vocabulary();
    let bytes = vocab.to_json(&b"v.json".to_vec()).unwrap();
    let loaded = Vocabulary::<ReadOnly>::from_json(&b"v.json".to_vec(), &bytes).unwrap();
    assert_eq!(loaded.token_count(), vocab.token_count());
    let before = vocab.get_tokens();
    let after = loaded.get_tokens();
    for i in 0..before.len() {
        assert_eq!(after[i].get_token_id(), before[i].get_token_id());
        assert_eq!(after[i].get_token(), before[i].get_token());
        assert_eq!(after[i].get_pair(), before[i].get_pair());
    }
}

#[test]
fn every_byte_value_survives_the_escape_round_trip() {
    // the base vocabulary holds one token per byte value, so exporting
    // and importing it exercises every string escape the format uses.
    let v = Vocabulary::<Edit>::new();
    let bytes = v.to_json(&b"v.json".to_vec()).unwrap();
    let loaded = Vocabulary::<ReadOnly>::from_json(&b"v.json".to_vec(), &bytes).unwrap();
    assert_eq!(loaded.token_count(), 256);
    for i in 0..256usize {
        let t = loaded.find_token(i).unwrap();
        assert_eq!(t.get_token(), vec![i as u8]);
        assert_eq!(t.get_pair(), None);
    }
}

#[test]
fn a_handwritten_store_loads_field_by_field() {
    let text = br#"{"0":{"token":"a","pair":[]},"7":{"token":"ab","pair":[3,4]}}"#.to_vec();
    let v = Vocabulary::<ReadOnly>::from_json(&b"v.json".to_vec(), &text).unwrap();
    assert_eq!(v.token_count(), 2);
    let t = v.find_token(0).unwrap();
    assert_eq!(t.get_token(), b"a".to_vec());
    assert_eq!(t.get_pair(), None);
    let t = v.find_token(7).unwrap();
    assert_eq!(t.get_token(), b"ab".to_vec());
    assert_eq!(t.get_pair(), Some((3, 4)));
}

#[test]
fn escaped_texts_load_as_their_bytes() {
    let text = br#"{"1":{"token":"\u0000\"\\","pair":[]}}"#.to_vec();
    let v = Vocabulary::<ReadOnly>::from_json(&b"v.json".to_vec(), &text).unwrap();
    assert_eq!(v.find_token(1).unwrap().get_token(), vec![0u8, 34, 92]);
}

#[test]
fn malformed_content_is_rejected_whole() {
    let path = b"v.json".to_vec();
    let bad: Vec<&[u8]> = vec![
        b"",
        b"{",
        b"[]",
        b"{\"0\":{\"token\":\"a\",\"pair\":[]}",     // unclosed object
        b"{\"01\":{\"token\":\"a\",\"pair\":[]}}",   // leading zero
        b"{\"0\":{\"token\":\"a\",\"pair\":[1]}}",   // one-element pair
        b"{\"0\":{\"token\":\"a\",\"pair\":[1,]}}",  // dangling comma
        b"{\"0\":{\"token\":a,\"pair\":[]}}",        // unquoted text
        b"{\"x\":{\"token\":\"a\",\"pair\":[]}}",    // non-numeric key
    ];
    for content in bad {
        assert!(
            Vocabulary::<ReadOnly>::from_json(&path, &content.to_vec()).is_err(),
            "accepted: {:?}",
            content
        );
    }
}

#[test]
fn ids_out_of_order_or_repeated_are_rejected() {
    let path = b"v.json".to_vec();
    let unsorted =
        br#"{"7":{"token":"b","pair":[]},"0":{"token":"a","pair":[]}}"#.to_vec();
    assert!(Vocabulary::<ReadOnly>::from_json(&path, &unsorted).is_err());
    let repeated =
        br#"{"7":{"token":"b","pair":[]},"7":{"token":"a","pair":[]}}"#.to_vec();
    assert!(Vocabulary::<ReadOnly>::from_json(&path, &repeated).is_err());
    let dup_text_pair =
        br#"{"1":{"token":"b","pair":[3,4]},"2":{"token":"b","pair":[3,4]}}"#.to_vec();
    assert!(Vocabulary::<ReadOnly>::from_json(&path, &dup_text_pair).is_err());
}

#[test]
fn the_export_handler_writes_the_same_json() {
    let mut v = Vocabulary::<Edit>::new();
    assert!(v.add(Token::new(b"hi".to_vec(), 256, Some((104, 105)), None)).is_ok());
    let handler = ExportHandler::new(ExportTypes::JSON);
    let via_handler = handler.export_vocabulary(&v, &b"out.json".to_vec()).unwrap();
    let direct = v.to_json(&b"out.json".to_vec()).unwrap();
    assert_eq!(via_handler, direct);
    assert!(handler.export_vocabulary(&v, &b"out.csv".to_vec()).is_err());
}

#[test]
fn exported_json_is_the_canonical_compact_form() {
    let small = br#"{"0":{"token":"a","pair":[]},"7":{"token":"ab","pair":[3,4]}}"#.to_vec();
    let loaded = Vocabulary::<ReadOnly>::from_json(&b"v.json".to_vec(), &small).unwrap();
    let out = loaded.to_json(&b"v.json".to_vec()).unwrap();
    assert_eq!(out, small);
}
