use vstd::prelude::*;

use crate::decoder::{decode_ids, decode_one};
use crate::token::TokenModel;
use crate::tokenizer::{
    encode_text, encode_word, encode_words, find_by_text, lemma_find_by_text_found,
};
use crate::training::{lemma_merge_round_len, merge_round, train};
use crate::vocabulary::{has_id, ids_sorted, lemma_insert_pos_bounds};
use crate::word::{WordModel, is_whitespace_byte, lemma_single_word, split_words};

verus! {

/// The vocabulary never shrinks: one round leaves it the same size or one
/// token larger, and the whole training run leaves it no smaller than it
/// started. Training halts exactly at the earlier of the two conditions:
/// the trained store has reached the target size, or one further round
/// would produce zero growth (indeed, would change nothing at all).
pub proof fn lemma_training_monotone_and_halts(
    words: Seq<WordModel>,
    ts: Seq<TokenModel>,
    limit: usize,
)
    ensures
        merge_round(words, ts).1.len() >= ts.len(),
        train(words, ts, limit).1.len() >= ts.len(),
        train(words, ts, limit).1.len() >= limit || merge_round(
            train(words, ts, limit).0,
            train(words, ts, limit).1,
        ) == train(words, ts, limit),
    decreases limit - ts.len(),
{
    lemma_merge_round_len(words, ts);
    if ts.len() >= limit {
        assert(train(words, ts, limit).1.len() >= limit);
    } else {
        let r = merge_round(words, ts);
        if r.1.len() == ts.len() {
            lemma_round_no_growth_is_identity(words, ts);
            assert(r == (words, ts));
            assert(merge_round(train(words, ts, limit).0, train(words, ts, limit).1) == train(
                words,
                ts,
                limit,
            ));
        } else {
            lemma_training_monotone_and_halts(r.0, r.1, limit);
        }
    }
}

/// A round that does not grow the vocabulary changes nothing: the words
/// stay as they are, and so does the store.
pub proof fn lemma_round_no_growth_is_identity(words: Seq<WordModel>, ts: Seq<TokenModel>)
    requires
        merge_round(words, ts).1.len() == ts.len(),
    ensures
        merge_round(words, ts) == (words, ts),
{
    if crate::training::any_pair(words) {
        let p = crate::training::best_pair(words);
        let t = crate::training::merged_token(words, ts, p.0, p.1);
        if crate::vocabulary::id_fresh(ts, t.token_id) && crate::vocabulary::text_pair_fresh(
            ts,
            t,
        ) {
            lemma_insert_pos_bounds(ts, t.token_id);
        }
    }
}

/// The final vocabulary size never exceeds the configured target size,
/// for every starting store that is not already beyond it (training from
/// the 256 seeded base tokens, any target of at least 256 qualifies; a
/// smaller target simply leaves the seeded store untouched).
pub proof fn lemma_target_size_bound(words: Seq<WordModel>, ts: Seq<TokenModel>, limit: usize)
    requires
        ts.len() <= limit,
    ensures
        train(words, ts, limit).1.len() <= limit,
    decreases limit - ts.len(),
{
    if ts.len() >= limit {
    } else {
        lemma_merge_round_len(words, ts);
        let r = merge_round(words, ts);
        if r.1.len() == ts.len() {
        } else {
            lemma_target_size_bound(r.0, r.1, limit);
        }
    }
}

/// Whole-word shortcut round trip: a text that exactly equals some
/// token's text, and that forms a single word (nonempty, free of
/// whitespace bytes), decodes from its own encoding to exactly itself.
pub proof fn lemma_whole_word_round_trip(ts: Seq<TokenModel>, text: Seq<u8>)
    requires
        ids_sorted(ts),
        exists|i: int| 0 <= i < ts.len() && (#[trigger] ts[i]).text == text,
        text.len() > 0,
        forall|i: int| 0 <= i < text.len() ==> !is_whitespace_byte(#[trigger] text[i]),
    ensures
        decode_ids(ts, encode_text(ts, text)) == text,
{
    lemma_single_word(text);
    let ws = seq![text];
    assert(ws.drop_last() =~= Seq::<Seq<u8>>::empty());
    assert(ws.last() == text);
    assert(encode_words(ts, ws.drop_last()) == Seq::<usize>::empty());
    lemma_find_by_text_found(ts, text);
    match find_by_text(ts, text) {
        Some(id) => {
            assert(encode_word(ts, text) == seq![id]);
            assert(encode_text(ts, text) =~= seq![id]);
            let ids = seq![id];
            assert(ids.drop_last() =~= Seq::<usize>::empty());
            assert(ids.last() == id);
            assert(decode_ids(ts, ids.drop_last()) == Seq::<u8>::empty());
            let w = choose|i: int|
                0 <= i < ts.len() && (#[trigger] ts[i]).token_id == id && ts[i].text == text;
            assert(has_id(ts, id));
            let j = choose|i: int| 0 <= i < ts.len() && ts[i].token_id == id;
            if j != w {
                assert(ts[j].token_id == ts[w].token_id);
                assert(false);
            }
            assert(decode_one(ts, id) == text);
            assert(Seq::<u8>::empty() + text =~= text);
        },
        None => {
            let w = choose|i: int| 0 <= i < ts.len() && (#[trigger] ts[i]).text == text;
            assert(ts[w].text != text);
        },
    }
}

} // verus!
