use vstd::prelude::*;

verus! {

/// A symbol in the vocabulary.
///
/// `token` is the byte text this symbol expands to when fully decoded;
/// `token_id` is its unique, monotonically assigned ID; `pair` optionally
/// names the two token IDs whose concatenated texts produced this token's
/// text (absent for the 256 base byte tokens); `occurrences` is an
/// informational frequency weight accumulated at creation time.
pub struct Token {
    pub token: Vec<u8>,
    pub token_id: usize,
    pub pair: Option<(usize, usize)>,
    pub occurrences: usize,
}

/// The mathematical model of a token: its byte text as a sequence, its ID,
/// its optional parent pair and its occurrence weight.
pub ghost struct TokenModel {
    pub text: Seq<u8>,
    pub token_id: usize,
    pub pair: Option<(usize, usize)>,
    pub occurrences: usize,
}

impl View for Token {
    type V = TokenModel;

    open spec fn view(&self) -> TokenModel {
        TokenModel {
            text: self.token@,
            token_id: self.token_id,
            pair: self.pair,
            occurrences: self.occurrences,
        }
    }
}

impl DeepView for Token {
    type V = TokenModel;

    open spec fn deep_view(&self) -> TokenModel {
        self.view()
    }
}

impl Token {
    pub fn new(
        token: Vec<u8>,
        token_id: usize,
        pair: Option<(usize, usize)>,
        occurrence: Option<usize>,
    ) -> (t: Token)
        ensures
            t.token == token,
            t.token_id == token_id,
            t.pair == pair,
            t.occurrences == (match occurrence {
                Some(o) => o,
                None => 1,
            }),
    {
        Token {
            token,
            token_id,
            pair,
            occurrences: match occurrence {
                Some(o) => o,
                None => 1,
            },
        }
    }

    pub fn increase_occurrence(&mut self, occurrence: Option<usize>)
        requires
            old(self).occurrences + (match occurrence {
                Some(o) => o,
                None => 1,
            }) <= usize::MAX,
        ensures
            final(self).occurrences == old(self).occurrences + (match occurrence {
                Some(o) => o,
                None => 1,
            }),
            final(self).token == old(self).token,
            final(self).token_id == old(self).token_id,
            final(self).pair == old(self).pair,
    {
        match occurrence {
            Some(occ) => {
                self.occurrences = self.occurrences + occ;
            },
            None => {
                self.occurrences = self.occurrences + 1;
            },
        }
    }

    pub fn get_token(&self) -> (r: Vec<u8>)
        ensures
            r@ == self.token@,
    {
        copy_bytes(&self.token)
    }

    pub fn get_occurrence(&self) -> (r: usize)
        ensures
            r == self.occurrences,
    {
        self.occurrences
    }

    pub fn get_pair(&self) -> (r: Option<(usize, usize)>)
        ensures
            r == self.pair,
    {
        self.pair
    }

    pub fn get_token_id(&self) -> (r: usize)
        ensures
            r == self.token_id,
    {
        self.token_id
    }
}

/// Concatenation of two byte texts, as merging two tokens does.
pub fn concat_bytes(a: Vec<u8>, b: &Vec<u8>) -> (r: Vec<u8>)
    ensures
        r@ == a@ + b@,
{
    let mut r = a;
    let ghost first = r@;
    let mut i: usize = 0;
    while i < b.len()
        invariant
            i <= b@.len(),
            r@ == first + b@.take(i as int),
        decreases b.len() - i,
    {
        r.push(b[i]);
        i = i + 1;
        proof {
            assert(r@ =~= first + b@.take(i as int));
        }
    }
    proof {
        assert(first + b@.take(b@.len() as int) =~= first + b@);
    }
    r
}

/// Byte-for-byte equality of two byte vectors.
pub fn bytes_eq(a: &Vec<u8>, b: &Vec<u8>) -> (r: bool)
    ensures
        r == (a@ == b@),
{
    if a.len() != b.len() {
        return false;
    }
    let mut i: usize = 0;
    while i < a.len()
        invariant
            a@.len() == b@.len(),
            i <= a@.len(),
            forall|j: int| 0 <= j < i ==> a@[j] == b@[j],
        decreases a.len() - i,
    {
        if a[i] != b[i] {
            return false;
        }
        i = i + 1;
    }
    proof {
        assert(a@ =~= b@);
    }
    true
}

/// Byte-for-byte copy of a byte vector.
pub fn copy_bytes(v: &Vec<u8>) -> (r: Vec<u8>)
    ensures
        r@ == v@,
{
    let mut r: Vec<u8> = Vec::new();
    let mut i: usize = 0;
    while i < v.len()
        invariant
            i <= v.len(),
            r@ == v@.take(i as int),
        decreases v.len() - i,
    {
        r.push(v[i]);
        i = i + 1;
        proof {
            assert(r@ =~= v@.take(i as int));
        }
    }
    proof {
        assert(v@.take(v@.len() as int) =~= v@);
    }
    r
}

} // verus!
