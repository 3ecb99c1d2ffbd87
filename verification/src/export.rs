use vstd::prelude::*;

use crate::error::ExportError;
use crate::token::{Token, TokenModel};
use crate::vocabulary::Vocabulary;

verus! {

// --- File name handling ------------------------------------------------

/// The bytes after the last dot of a file name (the whole name when it
/// has no dot), as splitting on dots and taking the last piece gives.
pub open spec fn after_last_dot(s: Seq<u8>) -> Seq<u8>
    decreases s.len(),
{
    if s.len() == 0 {
        s
    } else if s.last() == 46 {
        Seq::empty()
    } else {
        after_last_dot(s.drop_last()).push(s.last())
    }
}

/// The persisted vocabulary lives in files whose extension is `json`.
pub open spec fn json_extension(s: Seq<u8>) -> bool {
    after_last_dot(s) == seq![106u8, 115u8, 111u8, 110u8]
}

proof fn lemma_after_last_dot_at(s: Seq<u8>, k: int)
    requires
        0 <= k < s.len(),
        s[k] == 46,
        forall|j: int| k < j < s.len() ==> s[j] != 46,
    ensures
        after_last_dot(s) == s.subrange(k + 1, s.len() as int),
    decreases s.len(),
{
    if k == s.len() - 1 {
        assert(s.subrange(k + 1, s.len() as int) =~= Seq::<u8>::empty());
    } else {
        assert(s.last() != 46);
        assert forall|j: int| k < j < s.drop_last().len() implies s.drop_last()[j] != 46 by {
            assert(s.drop_last()[j] == s[j]);
        }
        lemma_after_last_dot_at(s.drop_last(), k);
        assert(s.drop_last().subrange(k + 1, s.drop_last().len() as int).push(s.last())
            =~= s.subrange(k + 1, s.len() as int));
    }
}

proof fn lemma_after_last_dot_none(s: Seq<u8>)
    requires
        forall|j: int| 0 <= j < s.len() ==> s[j] != 46,
    ensures
        after_last_dot(s) == s,
    decreases s.len(),
{
    if s.len() > 0 {
        lemma_after_last_dot_none(s.drop_last());
        assert(s.drop_last().push(s.last()) =~= s);
    }
}

/// Runtime test whether a file name carries the `json` extension.
pub fn json_extension_ok(path: &Vec<u8>) -> (r: bool)
    ensures
        r == json_extension(path@),
{
    let n = path.len();
    let mut k: usize = n;
    while k > 0
        invariant
            k <= n,
            n == path@.len(),
            forall|j: int| k <= j < n ==> path@[j] != 46,
        decreases k,
    {
        if path[k - 1] == 46 {
            proof {
                lemma_after_last_dot_at(path@, k as int - 1);
            }
            let ext = crate::word::subvec(path, k, n);
            let mut expected: Vec<u8> = Vec::new();
            expected.push(106);
            expected.push(115);
            expected.push(111);
            expected.push(110);
            proof {
                assert(expected@ =~= seq![106u8, 115u8, 111u8, 110u8]);
            }
            return crate::token::bytes_eq(&ext, &expected);
        }
        k = k - 1;
    }
    proof {
        lemma_after_last_dot_none(path@);
    }
    let mut expected: Vec<u8> = Vec::new();
    expected.push(106);
    expected.push(115);
    expected.push(111);
    expected.push(110);
    proof {
        assert(expected@ =~= seq![106u8, 115u8, 111u8, 110u8]);
    }
    crate::token::bytes_eq(path, &expected)
}

// --- Serialization -----------------------------------------------------
//
// The persisted form is a JSON object mapping each token ID, written as a
// decimal string key, to a record {"token": text, "pair": [first, second]}
// with the empty list standing for a base token without a parent pair.
// The writer emits the compact canonical form: no extra whitespace, keys
// in ID order, printable ASCII literal, quote and backslash escaped, and
// every other byte written as a \u00XX escape.

/// The decimal digits of `n`, most significant first, no leading zeros.
pub open spec fn dec_digits(n: nat) -> Seq<u8>
    decreases n,
{
    if n < 10 {
        seq![(48 + n) as u8]
    } else {
        dec_digits(n / 10) + seq![(48 + n % 10) as u8]
    }
}

/// The lowercase hex digit of a value below 16.
pub open spec fn hex_digit(n: u8) -> u8 {
    if n < 10 {
        (48 + n) as u8
    } else {
        (87 + n) as u8
    }
}

/// How one text byte is written inside a JSON string.
pub open spec fn esc_byte(b: u8) -> Seq<u8> {
    if b == 34 {
        seq![92u8, 34u8]
    } else if b == 92 {
        seq![92u8, 92u8]
    } else if 32 <= b && b < 127 {
        seq![b]
    } else {
        seq![92u8, 117u8, 48u8, 48u8, hex_digit(b / 16), hex_digit(b % 16)]
    }
}

/// A whole text written inside a JSON string.
pub open spec fn esc_bytes(s: Seq<u8>) -> Seq<u8>
    decreases s.len(),
{
    if s.len() == 0 {
        Seq::empty()
    } else {
        esc_byte(s[0]) + esc_bytes(s.skip(1))
    }
}

/// The written form of a parent pair: `[]` or `[first,second]`.
pub open spec fn emit_pair(p: Option<(usize, usize)>) -> Seq<u8> {
    match p {
        None => seq![91u8, 93u8],
        Some(q) => seq![91u8] + dec_digits(q.0 as nat) + seq![44u8] + dec_digits(q.1 as nat)
            + seq![93u8],
    }
}

/// The bytes between a record's ID key and its text: `":{"token":"`.
pub open spec fn record_head() -> Seq<u8> {
    seq![34u8, 58u8, 123u8, 34u8, 116u8, 111u8, 107u8, 101u8, 110u8, 34u8, 58u8, 34u8]
}

/// The bytes between a record's text and its pair: `,"pair":`.
pub open spec fn record_mid() -> Seq<u8> {
    seq![44u8, 34u8, 112u8, 97u8, 105u8, 114u8, 34u8, 58u8]
}

/// One token's record: `"id":{"token":"text","pair":P}`.
pub open spec fn emit_record(t: TokenModel) -> Seq<u8> {
    seq![34u8] + dec_digits(t.token_id as nat) + record_head() + esc_bytes(t.text) + seq![34u8]
        + record_mid() + emit_pair(t.pair) + seq![125u8]
}

/// All records, comma separated, in store order.
pub open spec fn emit_records(ts: Seq<TokenModel>) -> Seq<u8>
    decreases ts.len(),
{
    if ts.len() == 0 {
        Seq::empty()
    } else if ts.len() == 1 {
        emit_record(ts[0])
    } else {
        emit_record(ts[0]) + seq![44u8] + emit_records(ts.skip(1))
    }
}

/// The whole persisted vocabulary.
pub open spec fn emit_vocab(ts: Seq<TokenModel>) -> Seq<u8> {
    seq![123u8] + emit_records(ts) + seq![125u8]
}

/// Append the decimal digits of `n`.
fn push_decimal(out: &mut Vec<u8>, n: usize)
    ensures
        final(out)@ == old(out)@ + dec_digits(n as nat),
    decreases n,
{
    let ghost base = out@;
    if n < 10 {
        out.push(48 + (n as u8));
        proof {
            assert(out@ =~= base + dec_digits(n as nat));
        }
    } else {
        push_decimal(out, n / 10);
        out.push(48 + ((n % 10) as u8));
        proof {
            assert((48 + ((n as nat) % 10)) as u8 == 48 + ((n % 10) as u8));
            assert(out@ =~= base + dec_digits(n as nat));
        }
    }
}

proof fn lemma_esc_bytes_push(s: Seq<u8>, x: u8)
    ensures
        esc_bytes(s.push(x)) == esc_bytes(s) + esc_byte(x),
    decreases s.len(),
{
    if s.len() == 0 {
        assert(s.push(x)[0] == x);
        assert(s.push(x).skip(1) =~= Seq::<u8>::empty());
        assert(esc_bytes(s.push(x).skip(1)) == Seq::<u8>::empty());
        assert(esc_bytes(s.push(x)) == esc_byte(x) + Seq::<u8>::empty());
        assert(esc_bytes(s) == Seq::<u8>::empty());
        assert(esc_byte(x) + Seq::<u8>::empty() =~= esc_byte(x));
        assert(Seq::<u8>::empty() + esc_byte(x) =~= esc_byte(x));
    } else {
        lemma_esc_bytes_push(s.skip(1), x);
        assert(s.push(x)[0] == s[0]);
        assert(s.push(x).skip(1) =~= s.skip(1).push(x));
        assert((esc_byte(s[0]) + (esc_bytes(s.skip(1)) + esc_byte(x))) =~= ((esc_byte(s[0])
            + esc_bytes(s.skip(1))) + esc_byte(x)));
    }
}

/// Append the escaped form of a text.
fn push_escaped(out: &mut Vec<u8>, s: &Vec<u8>)
    ensures
        final(out)@ == old(out)@ + esc_bytes(s@),
{
    let ghost base = out@;
    let mut i: usize = 0;
    proof {
        assert(s@.take(0) =~= Seq::<u8>::empty());
        assert(base + esc_bytes(s@.take(0)) =~= base);
    }
    while i < s.len()
        invariant
            i <= s@.len(),
            out@ == base + esc_bytes(s@.take(i as int)),
        decreases s.len() - i,
    {
        let b = s[i];
        let ghost pre = out@;
        if b == 34 {
            out.push(92);
            out.push(34);
        } else if b == 92 {
            out.push(92);
            out.push(92);
        } else if 32 <= b && b < 127 {
            out.push(b);
        } else {
            out.push(92);
            out.push(117);
            out.push(48);
            out.push(48);
            let hi = b / 16;
            let lo = b % 16;
            out.push(if hi < 10 {
                48 + hi
            } else {
                87 + hi
            });
            out.push(if lo < 10 {
                48 + lo
            } else {
                87 + lo
            });
        }
        proof {
            assert(out@ =~= pre + esc_byte(b));
            lemma_esc_bytes_push(s@.take(i as int), b);
            assert(s@.take(i as int + 1) =~= s@.take(i as int).push(b));
            assert(base + (esc_bytes(s@.take(i as int)) + esc_byte(b)) =~= (base + esc_bytes(
                s@.take(i as int),
            )) + esc_byte(b));
        }
        i = i + 1;
    }
    proof {
        assert(s@.take(s@.len() as int) =~= s@);
    }
}

/// Append one token's record.
#[verifier::rlimit(60)]
fn push_record(out: &mut Vec<u8>, t: &Token)
    ensures
        final(out)@ == old(out)@ + emit_record(t@),
{
    let ghost base = out@;
    out.push(34);
    push_decimal(out, t.token_id);
    let ghost s1 = out@;
    proof {
        assert(s1 =~= base + seq![34u8] + dec_digits(t.token_id as nat));
    }
    out.push(34);
    out.push(58);
    out.push(123);
    out.push(34);
    out.push(116);
    out.push(111);
    out.push(107);
    out.push(101);
    out.push(110);
    out.push(34);
    out.push(58);
    out.push(34);
    let ghost s2 = out@;
    proof {
        assert(s2 =~= s1 + record_head());
    }
    push_escaped(out, &t.token);
    out.push(34);
    let ghost s3 = out@;
    proof {
        assert(s3 =~= s2 + esc_bytes(t.token@) + seq![34u8]);
    }
    out.push(44);
    out.push(34);
    out.push(112);
    out.push(97);
    out.push(105);
    out.push(114);
    out.push(34);
    out.push(58);
    let ghost s4 = out@;
    proof {
        assert(s4 =~= s3 + record_mid());
    }
    match t.pair {
        None => {
            out.push(91);
            out.push(93);
            proof {
                assert(out@ =~= s4 + emit_pair(t.pair));
            }
        },
        Some(p) => {
            out.push(91);
            push_decimal(out, p.0);
            out.push(44);
            push_decimal(out, p.1);
            out.push(93);
            proof {
                assert(out@ =~= s4 + emit_pair(t.pair));
            }
        },
    }
    out.push(125);
    proof {
        assert(out@ =~= base + emit_record(t@));
    }
}

proof fn lemma_emit_records_snoc(ts: Seq<TokenModel>, i: int)
    requires
        1 <= i < ts.len(),
    ensures
        emit_records(ts.take(i + 1)) == emit_records(ts.take(i)) + seq![44u8] + emit_record(
            ts[i],
        ),
    decreases i,
{
    if i == 1 {
        let t2 = ts.take(2);
        assert(t2[0] == ts[0]);
        assert(t2.skip(1) =~= seq![ts[1]]);
        assert(emit_records(seq![ts[1]]) == emit_record(ts[1]));
        assert(ts.take(1) =~= seq![ts[0]]);
        assert(emit_records(ts.take(1)) == emit_record(ts[0]));
        assert(emit_record(ts[0]) + seq![44u8] + emit_record(ts[1]) =~= emit_record(ts[0]) + (
        seq![44u8] + emit_record(ts[1])));
        assert(emit_records(t2) == emit_record(ts[0]) + seq![44u8] + emit_records(t2.skip(1)));
    } else {
        lemma_emit_records_snoc(ts.skip(1), i - 1);
        assert(ts.take(i + 1).skip(1) =~= ts.skip(1).take(i));
        assert(ts.take(i).skip(1) =~= ts.skip(1).take(i - 1));
        assert(ts.skip(1)[i - 1] == ts[i]);
        assert(ts.take(i + 1)[0] == ts[0]);
        assert(ts.take(i)[0] == ts[0]);
        assert(emit_records(ts.take(i + 1)) == emit_record(ts[0]) + seq![44u8] + emit_records(
            ts.skip(1).take(i),
        ));
        assert(emit_records(ts.take(i)) == emit_record(ts[0]) + seq![44u8] + emit_records(
            ts.skip(1).take(i - 1),
        ));
        assert(emit_record(ts[0]) + seq![44u8] + (emit_records(ts.skip(1).take(i - 1))
            + seq![44u8] + emit_record(ts[i])) =~= (emit_record(ts[0]) + seq![44u8]
            + emit_records(ts.skip(1).take(i - 1))) + seq![44u8] + emit_record(ts[i]));
    }
}

/// The persisted bytes of a token list: loop over the records.
fn emit_tokens(tokens: &Vec<Token>) -> (r: Vec<u8>)
    ensures
        r@ == emit_vocab(tokens.deep_view()),
{
    let ghost ts = tokens.deep_view();
    let mut out: Vec<u8> = Vec::new();
    out.push(123);
    let mut i: usize = 0;
    proof {
        assert(ts.take(0) =~= Seq::<TokenModel>::empty());
        assert(out@ =~= seq![123u8] + emit_records(ts.take(0)));
    }
    while i < tokens.len()
        invariant
            i <= ts.len(),
            ts == tokens.deep_view(),
            ts.len() == tokens@.len(),
            out@ == seq![123u8] + emit_records(ts.take(i as int)),
        decreases tokens.len() - i,
    {
        let ghost pre = out@;
        if i > 0 {
            out.push(44);
        }
        push_record(&mut out, &tokens[i]);
        proof {
            assert(tokens@[i as int]@ == ts[i as int]);
            if i == 0 {
                assert(ts.take(1) =~= seq![ts[0]]);
                assert(emit_records(ts.take(1)) == emit_record(ts[0]));
                assert(out@ =~= seq![123u8] + emit_records(ts.take(1)));
            } else {
                lemma_emit_records_snoc(ts, i as int);
                assert(out@ =~= (pre + seq![44u8]) + emit_record(ts[i as int]));
                assert(out@ =~= seq![123u8] + (emit_records(ts.take(i as int)) + seq![44u8]
                    + emit_record(ts[i as int])));
            }
        }
        i = i + 1;
    }
    out.push(125);
    proof {
        assert(ts.take(ts.len() as int) =~= ts);
        assert(out@ =~= emit_vocab(ts));
    }
    out
}

impl<S> Vocabulary<S> {
    /// Serialize the store for the given destination name: the canonical
    /// persisted form, or an error when the name does not carry the
    /// `json` extension. Writing the bytes out is the caller's concern;
    /// a failure there leaves the in-memory store untouched either way.
    pub fn to_json(&self, path: &Vec<u8>) -> (r: Result<Vec<u8>, ExportError>)
        ensures
            match r {
                Ok(bytes) => json_extension(path@) && bytes@ == emit_vocab(self@),
                Err(_) => !json_extension(path@),
            },
    {
        if !json_extension_ok(path) {
            return Err(ExportError::new("File extension must be .json"));
        }
        Ok(emit_tokens(self.get_tokens()))
    }
}

/// The formats the export handler can write.
pub enum ExportTypes {
    JSON,
}

/// Writes a vocabulary out in a chosen format (only JSON is offered).
pub struct ExportHandler {
    pub export_type: ExportTypes,
}

impl ExportHandler {
    pub fn new(export_type: ExportTypes) -> (h: ExportHandler)
        ensures
            h.export_type == export_type,
    {
        ExportHandler { export_type }
    }

    /// Serialize a store for the given destination name, in the
    /// handler's format.
    pub fn export_vocabulary<S>(&self, vocabulary: &Vocabulary<S>, path: &Vec<u8>) -> (r: Result<
        Vec<u8>,
        ExportError,
    >)
        ensures
            match r {
                Ok(bytes) => json_extension(path@) && bytes@ == emit_vocab(vocabulary@),
                Err(_) => !json_extension(path@),
            },
    {
        match self.export_type {
            ExportTypes::JSON => {
                match vocabulary.to_json(path) {
                    Ok(bytes) => Ok(bytes),
                    Err(e) => Err(e),
                }
            },
        }
    }
}

} // verus!
