use vstd::prelude::*;

use crate::token::concat_bytes;
use crate::vocabulary::{ReadOnly, Vocabulary, has_id, token_with_id};
use crate::token::TokenModel;

verus! {

/// The explicit unknown-placeholder marker emitted for an ID that is not
/// in the vocabulary: the bytes of the replacement character U+FFFD.
pub open spec fn unknown_marker() -> Seq<u8> {
    seq![0xEFu8, 0xBFu8, 0xBDu8]
}

/// What one ID decodes to: the text of the token carrying that ID, or the
/// unknown-placeholder marker when no token does.
pub open spec fn decode_one(ts: Seq<TokenModel>, id: usize) -> Seq<u8> {
    if has_id(ts, id) {
        token_with_id(ts, id).text
    } else {
        unknown_marker()
    }
}

/// What an ID sequence decodes to: each ID's text, concatenated in order.
pub open spec fn decode_ids(ts: Seq<TokenModel>, ids: Seq<usize>) -> Seq<u8>
    decreases ids.len(),
{
    if ids.len() == 0 {
        Seq::empty()
    } else {
        decode_ids(ts, ids.drop_last()) + decode_one(ts, ids.last())
    }
}

/// The decoder: turns a sequence of token IDs back into byte text using a
/// frozen vocabulary, and never mutates the store. An unknown ID yields
/// the placeholder marker rather than an error, so decoding always runs
/// to completion.
pub struct Decoder {
    pub vocabulary: Vocabulary<ReadOnly>,
}

impl Decoder {
    /// The decoder's invariant: its store answers ID lookups.
    pub open spec fn wf(&self) -> bool {
        self.vocabulary.wf()
    }

    pub fn new(vocabulary: Vocabulary<ReadOnly>) -> (d: Decoder)
        requires
            vocabulary.wf(),
        ensures
            d.vocabulary@ == vocabulary@,
            d.wf(),
    {
        Decoder { vocabulary }
    }

    /// Decode a sequence of token IDs into the concatenation of their
    /// texts, an unknown ID contributing the placeholder marker.
    pub fn decode(&self, tokens: Vec<usize>) -> (r: Vec<u8>)
        requires
            self.wf(),
        ensures
            r@ == decode_ids(self.vocabulary@, tokens@),
    {
        let ghost ts = self.vocabulary@;
        let ghost ids = tokens@;
        let mut result: Vec<u8> = Vec::new();
        let mut i: usize = 0;
        proof {
            assert(ids.take(0) =~= Seq::<usize>::empty());
        }
        while i < tokens.len()
            invariant
                i <= ids.len(),
                ids == tokens@,
                ts == self.vocabulary@,
                self.wf(),
                result@ == decode_ids(ts, ids.take(i as int)),
            decreases tokens.len() - i,
        {
            let ghost pre = result@;
            match self.vocabulary.find_token(tokens[i]) {
                Some(t) => {
                    let text = crate::token::copy_bytes(&t.token);
                    result = concat_bytes(result, &text);
                    proof {
                        assert(decode_one(ts, ids[i as int]) == t.token@);
                    }
                },
                None => {
                    result.push(0xEF);
                    result.push(0xBF);
                    result.push(0xBD);
                    proof {
                        assert(result@ =~= pre + unknown_marker());
                    }
                },
            }
            proof {
                assert(ids.take(i as int + 1).drop_last() =~= ids.take(i as int));
                assert(ids.take(i as int + 1).last() == ids[i as int]);
                assert(decode_ids(ts, ids.take(i as int + 1)) == decode_ids(
                    ts,
                    ids.take(i as int),
                ) + decode_one(ts, ids[i as int]));
            }
            i = i + 1;
        }
        proof {
            assert(ids.take(ids.len() as int) =~= ids);
        }
        result
    }
}

} // verus!
