use vstd::prelude::*;

use crate::error::VocabError;
use crate::token::{Token, TokenModel};
use core::marker::PhantomData;

verus! {

/// Lifecycle tag of a vocabulary still being built: tokens may be appended.
pub struct Edit;

/// Lifecycle tag of a frozen vocabulary: immutable, the only form accepted
/// by the encoder, the decoder and persistence export.
pub struct ReadOnly;

/// The vocabulary store: the set of learned and base symbols, kept sorted
/// by token ID so that lookup by ID is a binary search.
pub struct Vocabulary<S> {
    state: PhantomData<S>,
    tokens: Vec<Token>,
}

/// The token IDs are strictly increasing over the store, so every ID occurs
/// at most once.
pub open spec fn ids_sorted(ts: Seq<TokenModel>) -> bool {
    forall|i: int, j: int|
        0 <= i < j < ts.len() ==> ts[i].token_id < ts[j].token_id
}

/// No token of `ts` has the same ID as `id`.
pub open spec fn id_fresh(ts: Seq<TokenModel>, id: usize) -> bool {
    forall|i: int| 0 <= i < ts.len() ==> ts[i].token_id != id
}

/// No token of `ts` carries both the text and the parent pair of `t`.
pub open spec fn text_pair_fresh(ts: Seq<TokenModel>, t: TokenModel) -> bool {
    forall|i: int|
        0 <= i < ts.len() ==> !(ts[i].text == t.text && ts[i].pair == t.pair)
}

/// No two tokens of `ts` share an identical (text, parent pair) combination.
pub open spec fn no_dup_text_pair(ts: Seq<TokenModel>) -> bool {
    forall|i: int, j: int|
        0 <= i < j < ts.len() ==> !(ts[i].text == ts[j].text && ts[i].pair == ts[j].pair)
}

/// Some token of `ts` has ID `id`.
pub open spec fn has_id(ts: Seq<TokenModel>, id: usize) -> bool {
    exists|i: int| 0 <= i < ts.len() && ts[i].token_id == id
}

/// The token of `ts` with ID `id` (unique whenever the IDs are sorted).
pub open spec fn token_with_id(ts: Seq<TokenModel>, id: usize) -> TokenModel
    recommends
        has_id(ts, id),
{
    ts[choose|i: int| 0 <= i < ts.len() && ts[i].token_id == id]
}

/// The highest token ID present, or 0 of an empty store.
pub open spec fn spec_last_id(ts: Seq<TokenModel>) -> usize {
    if ts.len() == 0 {
        0
    } else {
        ts[ts.len() - 1].token_id
    }
}

/// The base store the builder starts from: exactly 256 tokens, the token
/// of each byte value carrying that one-byte text, no parent pair.
pub open spec fn base_tokens(ts: Seq<TokenModel>) -> bool {
    &&& ts.len() == 256
    &&& forall|i: int|
        0 <= i < 256 ==> (#[trigger] ts[i]).token_id == i && ts[i].pair is None
            && ts[i].text == seq![i as u8] && ts[i].occurrences == 1
}

/// The position at which a token with ID `id` belongs in the ID-sorted
/// store: the first index whose token ID is at least `id`.
pub open spec fn insert_pos(ts: Seq<TokenModel>, id: usize) -> int
    decreases ts.len(),
{
    if ts.len() == 0 {
        0
    } else if id <= ts[0].token_id {
        0
    } else {
        1 + insert_pos(ts.skip(1), id)
    }
}

/// What one append attempt leaves in the store: the token inserted at its
/// sorted position if both its ID and its (text, parent pair) are fresh,
/// the store unchanged otherwise.
pub open spec fn spec_add(ts: Seq<TokenModel>, t: TokenModel) -> Seq<TokenModel> {
    if id_fresh(ts, t.token_id) && text_pair_fresh(ts, t) {
        ts.insert(insert_pos(ts, t.token_id), t)
    } else {
        ts
    }
}

/// What a sequence of append attempts leaves in the store, first to last.
pub open spec fn spec_append(ts: Seq<TokenModel>, list: Seq<TokenModel>) -> Seq<TokenModel>
    decreases list.len(),
{
    if list.len() == 0 {
        ts
    } else {
        spec_append(spec_add(ts, list[0]), list.skip(1))
    }
}

pub proof fn lemma_insert_pos_bounds(ts: Seq<TokenModel>, id: usize)
    ensures
        0 <= insert_pos(ts, id) <= ts.len(),
        forall|j: int| 0 <= j < insert_pos(ts, id) ==> ts[j].token_id < id,
        insert_pos(ts, id) < ts.len() ==> id <= ts[insert_pos(ts, id)].token_id,
    decreases ts.len(),
{
    if ts.len() == 0 {
    } else if id <= ts[0].token_id {
    } else {
        lemma_insert_pos_bounds(ts.skip(1), id);
        assert forall|j: int| 0 <= j < insert_pos(ts, id) implies ts[j].token_id < id by {
            if j > 0 {
                assert(ts.skip(1)[j - 1] == ts[j]);
            }
        }
        assert(insert_pos(ts, id) < ts.len() ==> id <= ts[insert_pos(ts, id)].token_id) by {
            if insert_pos(ts, id) < ts.len() {
                assert(ts.skip(1)[insert_pos(ts.skip(1), id)] == ts[insert_pos(ts, id)]);
            }
        }
    }
}

pub proof fn lemma_insert_pos_unique(ts: Seq<TokenModel>, id: usize, k: int)
    requires
        ids_sorted(ts),
        0 <= k <= ts.len(),
        forall|j: int| 0 <= j < k ==> ts[j].token_id < id,
        k < ts.len() ==> id <= ts[k].token_id,
    ensures
        k == insert_pos(ts, id),
{
    lemma_insert_pos_bounds(ts, id);
    let ip = insert_pos(ts, id);
    if k < ip {
        assert(ts[k].token_id < id);
    } else if ip < k {
        assert(ts[ip].token_id < id);
    }
}

impl<S> View for Vocabulary<S> {
    type V = Seq<TokenModel>;

    closed spec fn view(&self) -> Seq<TokenModel> {
        self.tokens.deep_view()
    }
}

impl<S> Vocabulary<S> {
    /// The store invariant: IDs strictly sorted, no duplicated
    /// (text, parent pair) combination.
    pub open spec fn wf(&self) -> bool {
        ids_sorted(self@) && no_dup_text_pair(self@)
    }

    /// A builder seeded with the 256 base tokens: IDs 0..=255, each token's
    /// text the one-byte text for that byte value, no parent pair.
    pub fn new() -> (v: Vocabulary<Edit>)
        ensures
            base_tokens(v@),
            v.wf(),
    {
        let mut tokens: Vec<Token> = Vec::new();
        let mut i: usize = 0;
        while i < 256
            invariant
                i <= 256,
                tokens@.len() == i,
                forall|j: int|
                    0 <= j < i ==> (#[trigger] tokens@[j]).token_id == j && tokens@[j].pair
                        is None && tokens@[j].token@ == seq![j as u8] && tokens@[j].occurrences
                        == 1,
            decreases 256 - i,
        {
            let mut text: Vec<u8> = Vec::new();
            text.push(i as u8);
            proof {
                assert(text@ =~= seq![i as u8]);
            }
            let token = Token::new(text, i, None, None);
            tokens.push(token);
            i = i + 1;
        }
        let v = Vocabulary::<Edit> { state: PhantomData, tokens };
        proof {
            assert forall|j: int| 0 <= j < 256 implies (#[trigger] v@[j]).token_id == j && v@[j].pair
                is None && v@[j].text == seq![j as u8] && v@[j].occurrences == 1 by {
                assert(v@[j] == v.tokens@[j]@);
            }
            assert forall|a: int, b: int| 0 <= a < b < v@.len() implies
                !(v@[a].text == v@[b].text && v@[a].pair == v@[b].pair) by {
                assert(v@[a].text == seq![a as u8]);
                assert(v@[b].text == seq![b as u8]);
                assert(v@[a].text[0] == a as u8);
                assert(v@[b].text[0] == b as u8);
            }
        }
        v
    }

    /// Current token count of the store.
    pub fn token_count(&self) -> (r: usize)
        ensures
            r == self@.len(),
    {
        self.tokens.len()
    }

    /// All tokens of the store, in ID-sorted order.
    pub fn get_tokens(&self) -> (r: &Vec<Token>)
        ensures
            r.deep_view() == self@,
    {
        &self.tokens
    }

    /// The highest token ID currently present (0 of an empty store).
    pub fn get_last_id(&self) -> (r: usize)
        requires
            self.wf(),
        ensures
            r == spec_last_id(self@),
            forall|i: int| 0 <= i < self@.len() ==> (#[trigger] self@[i]).token_id <= r,
    {
        if self.tokens.len() == 0 {
            return 0;
        }
        let r = self.tokens[self.tokens.len() - 1].token_id;
        proof {
            assert(self@[self@.len() - 1] == self.tokens@[self@.len() - 1]@);
        }
        r
    }

    /// Binary search for the token with the given ID.
    pub fn find_token(&self, token_id: usize) -> (r: Option<&Token>)
        requires
            self.wf(),
        ensures
            match r {
                Some(t) => has_id(self@, token_id) && t@ == token_with_id(self@, token_id)
                    && t.token_id == token_id,
                None => !has_id(self@, token_id),
            },
    {
        let mut lo: usize = 0;
        let mut hi: usize = self.tokens.len();
        proof {
            assert(self@.len() == self.tokens@.len());
        }
        while lo < hi
            invariant
                self.wf(),
                lo <= hi <= self@.len(),
                self@.len() == self.tokens@.len(),
                forall|i: int|
                    0 <= i < self@.len() && (#[trigger] self@[i]).token_id == token_id
                        ==> lo <= i < hi,
            decreases hi - lo,
        {
            let mid = lo + (hi - lo) / 2;
            let t = &self.tokens[mid];
            proof {
                assert(self@[mid as int] == self.tokens@[mid as int]@);
            }
            if t.token_id == token_id {
                proof {
                    assert(self@[mid as int].token_id == token_id);
                    assert(has_id(self@, token_id));
                    let w = choose|i: int| 0 <= i < self@.len() && self@[i].token_id == token_id;
                    if w != mid {
                        assert(self@[w].token_id == self@[mid as int].token_id);
                        assert(false);
                    }
                }
                return Some(t);
            } else if t.token_id < token_id {
                lo = mid + 1;
            } else {
                hi = mid;
            }
        }
        None
    }
}

impl Vocabulary<Edit> {
    /// Append one token. Fails with a duplicate-token error when a token
    /// with the same ID, or one with an identical (text, parent pair)
    /// combination, already exists; otherwise inserts the token at its
    /// ID-sorted position.
    pub fn add(&mut self, token: Token) -> (r: Result<(), VocabError>)
        requires
            old(self).wf(),
        ensures
            final(self).wf(),
            final(self)@ == spec_add(old(self)@, token@),
            match r {
                Ok(_) => id_fresh(old(self)@, token.token_id)
                    && text_pair_fresh(old(self)@, token@)
                    && final(self)@ == old(self)@.insert(
                    insert_pos(old(self)@, token.token_id),
                    token@,
                ),
                Err(_) => (!id_fresh(old(self)@, token.token_id)
                    || !text_pair_fresh(old(self)@, token@)) && final(self)@ == old(self)@,
            },
    {
        let n = self.tokens.len();
        let mut i: usize = 0;
        let mut pos: usize = n;
        proof {
            assert(self@.len() == self.tokens@.len());
        }
        while i < n
            invariant
                self.wf(),
                n == self@.len(),
                self@.len() == self.tokens@.len(),
                i <= n,
                forall|j: int| 0 <= j < i ==> (#[trigger] self@[j]).token_id != token.token_id,
                forall|j: int|
                    0 <= j < i ==> !((#[trigger] self@[j]).text == token.token@
                        && self@[j].pair == token.pair),
                pos == n || (pos < i && token.token_id < self@[pos as int].token_id
                    && forall|j: int| 0 <= j < pos ==> (#[trigger] self@[j]).token_id
                    < token.token_id),
                pos == n ==> forall|j: int|
                    0 <= j < i ==> (#[trigger] self@[j]).token_id < token.token_id,
            decreases n - i,
        {
            let t = &self.tokens[i];
            proof {
                assert(self@[i as int] == self.tokens@[i as int]@);
            }
            if t.token_id == token.token_id {
                return Err(VocabError::new("Token already exists."));
            }
            if crate::token::bytes_eq(&t.token, &token.token) && pair_eq(t.pair, token.pair) {
                return Err(VocabError::new("Token already exists."));
            }
            if pos == n && token.token_id < t.token_id {
                pos = i;
            }
            i = i + 1;
        }
        proof {
            lemma_insert_pos_unique(self@, token.token_id, pos as int);
            let ts = self@;
            let tm = token@;
            let k = pos as int;
            assert forall|a: int, b: int| 0 <= a < b < ts.insert(k, tm).len() implies
                ts.insert(k, tm)[a].token_id < ts.insert(k, tm)[b].token_id by {
                lemma_insert_effect(ts, tm, k, a);
                lemma_insert_effect(ts, tm, k, b);
            }
            assert forall|a: int, b: int| 0 <= a < b < ts.insert(k, tm).len() implies
                !(ts.insert(k, tm)[a].text == ts.insert(k, tm)[b].text
                    && ts.insert(k, tm)[a].pair == ts.insert(k, tm)[b].pair) by {
                lemma_insert_effect(ts, tm, k, a);
                lemma_insert_effect(ts, tm, k, b);
            }
        }
        let ghost pre = self@;
        self.tokens.insert(pos, token);
        proof {
            assert(self@ =~= pre.insert(pos as int, token@));
        }
        Ok(())
    }

    /// Append a list of tokens in order, skipping every duplicate.
    pub fn append(&mut self, token_list: Vec<Token>)
        requires
            old(self).wf(),
        ensures
            final(self).wf(),
            final(self)@ == spec_append(old(self)@, token_list.deep_view()),
    {
        let mut list = token_list;
        let ghost all = token_list.deep_view();
        proof {
            assert(spec_append(old(self)@, all) == spec_append(self@, list.deep_view()));
        }
        while list.len() > 0
            invariant
                self.wf(),
                spec_append(old(self)@, all) == spec_append(self@, list.deep_view()),
            decreases list.len(),
        {
            let ghost pre_vocab = self@;
            let ghost pre_list = list.deep_view();
            let t = list.remove(0);
            proof {
                assert(list.deep_view() =~~= pre_list.skip(1));
                assert(pre_list[0] == t@);
            }
            match self.add(t) {
                Ok(_) => {},
                Err(_) => {},
            }
            proof {
                assert(spec_append(pre_vocab, pre_list) == spec_append(self@, list.deep_view()));
            }
        }
        proof {
            assert(list.deep_view().len() == 0);
            assert(spec_append(self@, list.deep_view()) == self@);
        }
    }

    /// Freeze the builder: the same tokens, now immutable.
    pub fn freeze(self) -> (v: Vocabulary<ReadOnly>)
        ensures
            v@ == self@,
    {
        Vocabulary { state: PhantomData, tokens: self.tokens }
    }
}

impl Vocabulary<ReadOnly> {
    /// Assemble a frozen store directly from a token list, as loading a
    /// persisted vocabulary does. The list must already be ID-sorted.
    pub(crate) fn from_tokens(tokens: Vec<Token>) -> (v: Vocabulary<ReadOnly>)
        requires
            ids_sorted(tokens.deep_view()),
            no_dup_text_pair(tokens.deep_view()),
        ensures
            v@ == tokens.deep_view(),
            v.wf(),
    {
        Vocabulary { state: PhantomData, tokens }
    }
}

/// Where a token lands and what moves aside when it is inserted at `k`.
pub proof fn lemma_insert_effect(ts: Seq<TokenModel>, t: TokenModel, k: int, a: int)
    requires
        0 <= k <= ts.len(),
        0 <= a < ts.len() + 1,
    ensures
        a < k ==> ts.insert(k, t)[a] == ts[a],
        a == k ==> ts.insert(k, t)[a] == t,
        a > k ==> ts.insert(k, t)[a] == ts[a - 1],
{
}

/// Structural comparison of two optional parent pairs.
pub fn pair_eq(a: Option<(usize, usize)>, b: Option<(usize, usize)>) -> (r: bool)
    ensures
        r == (a == b),
{
    match (a, b) {
        (None, None) => true,
        (Some(x), Some(y)) => x.0 == y.0 && x.1 == y.1,
        _ => false,
    }
}

} // verus!
