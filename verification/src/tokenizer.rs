use vstd::prelude::*;

use crate::token::{Token, TokenModel};
use crate::vocabulary::{ReadOnly, Vocabulary};
use crate::word::{bytes_as_ids, split_line, split_words};

verus! {

/// The ID of the first token of `ts` whose text equals `w`, if any.
pub open spec fn find_by_text(ts: Seq<TokenModel>, w: Seq<u8>) -> Option<usize>
    decreases ts.len(),
{
    if ts.len() == 0 {
        None
    } else if ts[0].text == w {
        Some(ts[0].token_id)
    } else {
        find_by_text(ts.skip(1), w)
    }
}

/// The ID of the first token of `ts` whose parent pair is `(a, b)`, if any.
pub open spec fn find_by_pair(ts: Seq<TokenModel>, a: usize, b: usize) -> Option<usize>
    decreases ts.len(),
{
    if ts.len() == 0 {
        None
    } else if ts[0].pair == Some((a, b)) {
        Some(ts[0].token_id)
    } else {
        find_by_pair(ts.skip(1), a, b)
    }
}

/// One greedy left-to-right merge pass over a word's base symbols: at each
/// position, if the adjacent pair is some token's parent pair, that
/// token's ID is emitted and two positions are consumed; otherwise the
/// symbol itself is emitted. A merge produced mid-pass is not re-examined
/// (single pass, not a fixpoint).
pub open spec fn merge_encode(ts: Seq<TokenModel>, syms: Seq<usize>) -> Seq<usize>
    decreases syms.len(),
{
    if syms.len() == 0 {
        Seq::empty()
    } else if syms.len() == 1 {
        seq![syms[0]]
    } else {
        match find_by_pair(ts, syms[0], syms[1]) {
            Some(id) => seq![id] + merge_encode(ts, syms.skip(2)),
            None => seq![syms[0]] + merge_encode(ts, syms.skip(1)),
        }
    }
}

/// Encoding of one word: the whole-word shortcut if some token's text
/// equals the word, otherwise the greedy merge pass over its bytes.
pub open spec fn encode_word(ts: Seq<TokenModel>, w: Seq<u8>) -> Seq<usize> {
    match find_by_text(ts, w) {
        Some(id) => seq![id],
        None => merge_encode(ts, bytes_as_ids(w)),
    }
}

/// Encoding of a word list, word by word, in order.
pub open spec fn encode_words(ts: Seq<TokenModel>, ws: Seq<Seq<u8>>) -> Seq<usize>
    decreases ws.len(),
{
    if ws.len() == 0 {
        Seq::empty()
    } else {
        encode_words(ts, ws.drop_last()) + encode_word(ts, ws.last())
    }
}

/// Encoding of raw text: split into whitespace-delimited words (a line
/// break is whitespace, so it is always a boundary of its own), then each
/// word encoded in order.
pub open spec fn encode_text(ts: Seq<TokenModel>, text: Seq<u8>) -> Seq<usize> {
    encode_words(ts, split_words(text))
}

pub proof fn lemma_find_by_text_skip(ts: Seq<TokenModel>, w: Seq<u8>, i: int)
    requires
        0 <= i <= ts.len(),
        forall|j: int| 0 <= j < i ==> ts[j].text != w,
    ensures
        find_by_text(ts, w) == find_by_text(ts.skip(i), w),
    decreases i,
{
    if i > 0 {
        assert(ts[0].text != w);
        assert forall|j: int| 0 <= j < i - 1 implies ts.skip(1)[j].text != w by {
            assert(ts.skip(1)[j] == ts[j + 1]);
        }
        lemma_find_by_text_skip(ts.skip(1), w, i - 1);
        assert(ts.skip(1).skip(i - 1) =~= ts.skip(i));
    } else {
        assert(ts.skip(0) =~= ts);
    }
}

pub proof fn lemma_find_by_pair_skip(ts: Seq<TokenModel>, a: usize, b: usize, i: int)
    requires
        0 <= i <= ts.len(),
        forall|j: int| 0 <= j < i ==> ts[j].pair != Some((a, b)),
    ensures
        find_by_pair(ts, a, b) == find_by_pair(ts.skip(i), a, b),
    decreases i,
{
    if i > 0 {
        assert(ts[0].pair != Some((a, b)));
        assert forall|j: int| 0 <= j < i - 1 implies ts.skip(1)[j].pair != Some((a, b)) by {
            assert(ts.skip(1)[j] == ts[j + 1]);
        }
        lemma_find_by_pair_skip(ts.skip(1), a, b, i - 1);
        assert(ts.skip(1).skip(i - 1) =~= ts.skip(i));
    } else {
        assert(ts.skip(0) =~= ts);
    }
}

/// What `find_by_text` returns: the first matching token's ID, or nothing
/// when no token's text matches.
pub proof fn lemma_find_by_text_found(ts: Seq<TokenModel>, w: Seq<u8>)
    ensures
        match find_by_text(ts, w) {
            Some(id) => exists|i: int|
                0 <= i < ts.len() && (#[trigger] ts[i]).token_id == id && ts[i].text == w,
            None => forall|i: int| 0 <= i < ts.len() ==> (#[trigger] ts[i]).text != w,
        },
    decreases ts.len(),
{
    if ts.len() == 0 {
    } else if ts[0].text == w {
        assert(ts[0].token_id == ts[0].token_id && ts[0].text == w);
    } else {
        lemma_find_by_text_found(ts.skip(1), w);
        match find_by_text(ts, w) {
            Some(id) => {
                let i = choose|i: int|
                    0 <= i < ts.skip(1).len() && (#[trigger] ts.skip(1)[i]).token_id == id
                        && ts.skip(1)[i].text == w;
                assert(ts[i + 1] == ts.skip(1)[i]);
            },
            None => {
                assert forall|i: int| 0 <= i < ts.len() implies (#[trigger] ts[i]).text != w by {
                    if i > 0 {
                        assert(ts.skip(1)[i - 1] == ts[i]);
                    }
                }
            },
        }
    }
}

/// Linear scan for the first token whose text equals `w`.
fn find_text(tokens: &Vec<Token>, w: &Vec<u8>) -> (r: Option<usize>)
    ensures
        r == find_by_text(tokens.deep_view(), w@),
{
    let ghost ts = tokens.deep_view();
    let mut i: usize = 0;
    while i < tokens.len()
        invariant
            i <= ts.len(),
            ts == tokens.deep_view(),
            ts.len() == tokens@.len(),
            forall|j: int| 0 <= j < i ==> (#[trigger] ts[j]).text != w@,
        decreases tokens.len() - i,
    {
        proof {
            assert(ts[i as int] == tokens@[i as int]@);
        }
        if crate::token::bytes_eq(&tokens[i].token, w) {
            proof {
                lemma_find_by_text_skip(ts, w@, i as int);
                assert(ts.skip(i as int)[0] == ts[i as int]);
            }
            return Some(tokens[i].token_id);
        }
        i = i + 1;
    }
    proof {
        lemma_find_by_text_skip(ts, w@, i as int);
        assert(ts.skip(i as int).len() == 0);
    }
    None
}

/// Linear scan for the first token whose parent pair is `(a, b)`.
fn find_pair(tokens: &Vec<Token>, a: usize, b: usize) -> (r: Option<usize>)
    ensures
        r == find_by_pair(tokens.deep_view(), a, b),
{
    let ghost ts = tokens.deep_view();
    let mut i: usize = 0;
    while i < tokens.len()
        invariant
            i <= ts.len(),
            ts == tokens.deep_view(),
            ts.len() == tokens@.len(),
            forall|j: int| 0 <= j < i ==> (#[trigger] ts[j]).pair != Some((a, b)),
        decreases tokens.len() - i,
    {
        proof {
            assert(ts[i as int] == tokens@[i as int]@);
        }
        if crate::vocabulary::pair_eq(tokens[i].pair, Some((a, b))) {
            proof {
                lemma_find_by_pair_skip(ts, a, b, i as int);
                assert(ts.skip(i as int)[0] == ts[i as int]);
            }
            return Some(tokens[i].token_id);
        }
        i = i + 1;
    }
    proof {
        lemma_find_by_pair_skip(ts, a, b, i as int);
        assert(ts.skip(i as int).len() == 0);
    }
    None
}

/// The encoder: turns raw byte text into the ordered sequence of token
/// IDs of a frozen vocabulary, and never mutates the store.
pub struct Tokenizer {
    pub vocabulary: Vocabulary<ReadOnly>,
}

impl Tokenizer {
    pub fn new(vocabulary: Vocabulary<ReadOnly>) -> (t: Tokenizer)
        ensures
            t.vocabulary@ == vocabulary@,
    {
        Tokenizer { vocabulary }
    }

    /// Encode raw text: split on whitespace, then per word either the
    /// whole-word shortcut or the single greedy merge pass.
    pub fn tokenize(&self, text: &Vec<u8>) -> (r: Vec<usize>)
        ensures
            r@ == encode_text(self.vocabulary@, text@),
    {
        let mut result: Vec<usize> = Vec::new();
        let words = split_line(text);
        let ghost ts = self.vocabulary@;
        let ghost ws = split_words(text@);
        proof {
            assert(ws.take(0) =~= Seq::<Seq<u8>>::empty());
        }
        let mut wi: usize = 0;
        while wi < words.len()
            invariant
                wi <= words@.len(),
                ts == self.vocabulary@,
                ws == split_words(text@),
                words.deep_view() == ws,
                words.deep_view().len() == words@.len(),
                result@ == encode_words(ts, ws.take(wi as int)),
            decreases words.len() - wi,
        {
            let ghost pre = result@;
            proof {
                assert(words.deep_view()[wi as int] == words@[wi as int]@);
            }
            match find_text(self.vocabulary.get_tokens(), &words[wi]) {
                Some(id) => {
                    result.push(id);
                    proof {
                        assert(result@ =~= pre + seq![id]);
                    }
                },
                None => {
                    let mut sub = self.tokenize_using_merge(&words[wi]);
                    result.append(&mut sub);
                },
            }
            proof {
                assert(ws.take(wi as int + 1).drop_last() =~= ws.take(wi as int));
                assert(ws.take(wi as int + 1).last() == ws[wi as int]);
                assert(encode_words(ts, ws.take(wi as int + 1)) == encode_words(
                    ts,
                    ws.take(wi as int),
                ) + encode_word(ts, ws[wi as int]));
            }
            wi = wi + 1;
        }
        proof {
            assert(ws.take(ws.len() as int) =~= ws);
        }
        result
    }

    /// Encode one word without a whole-word match: its bytes become base
    /// token IDs, then one greedy left-to-right merge pass runs over them.
    fn tokenize_using_merge(&self, text: &Vec<u8>) -> (r: Vec<usize>)
        ensures
            r@ == merge_encode(self.vocabulary@, bytes_as_ids(text@)),
    {
        let word = crate::word::Word::new(text, None);
        let syms = word.letters;
        let ghost ts = self.vocabulary@;
        let ghost s = bytes_as_ids(text@);
        let mut result: Vec<usize> = Vec::new();
        let mut idx: usize = 0;
        proof {
            assert(s.skip(0) =~= s);
            assert(Seq::<usize>::empty() + merge_encode(ts, s) =~= merge_encode(ts, s));
        }
        while idx < syms.len()
            invariant
                idx <= syms@.len(),
                syms@ == s,
                ts == self.vocabulary@,
                merge_encode(ts, s) == result@ + merge_encode(ts, s.skip(idx as int)),
            decreases syms.len() - idx,
        {
            let ghost pre = result@;
            let ghost rest = s.skip(idx as int);
            if idx + 1 < syms.len() {
                proof {
                    assert(rest[0] == s[idx as int]);
                    assert(rest[1] == s[idx as int + 1]);
                }
                match find_pair(self.vocabulary.get_tokens(), syms[idx], syms[idx + 1]) {
                    Some(id) => {
                        result.push(id);
                        proof {
                            assert(rest.skip(2) =~= s.skip(idx as int + 2));
                            assert(pre + (seq![id] + merge_encode(ts, s.skip(idx as int + 2)))
                                =~= result@ + merge_encode(ts, s.skip(idx as int + 2)));
                        }
                        idx = idx + 2;
                    },
                    None => {
                        result.push(syms[idx]);
                        proof {
                            assert(rest.skip(1) =~= s.skip(idx as int + 1));
                            assert(pre + (seq![s[idx as int]] + merge_encode(
                                ts,
                                s.skip(idx as int + 1),
                            )) =~= result@ + merge_encode(ts, s.skip(idx as int + 1)));
                        }
                        idx = idx + 1;
                    },
                }
            } else {
                result.push(syms[idx]);
                proof {
                    assert(rest.len() == 1);
                    assert(rest[0] == s[idx as int]);
                    assert(rest.skip(1) =~= s.skip(idx as int + 1));
                    assert(merge_encode(ts, rest) == seq![s[idx as int]]);
                    assert(pre + seq![s[idx as int]] =~= result@);
                    assert(s.skip(idx as int + 1).len() == 0);
                    assert(result@ + merge_encode(ts, s.skip(idx as int + 1)) =~= result@);
                }
                idx = idx + 1;
            }
        }
        proof {
            assert(s.skip(s.len() as int) =~= Seq::<usize>::empty());
            assert(result@ + Seq::<usize>::empty() =~= result@);
        }
        result
    }
}

} // verus!
