use vstd::prelude::*;

use crate::error::VocabError;
use crate::export::{dec_digits, json_extension, json_extension_ok, record_head, record_mid};
use crate::token::{Token, TokenModel};
use crate::vocabulary::{ReadOnly, Vocabulary, ids_sorted, no_dup_text_pair};

verus! {

// --- The accepted grammar ----------------------------------------------
//
// Loading accepts the canonical compact form the writer emits: an object
// of `"id":{"token":text,"pair":[...]}` records without extra whitespace,
// IDs in strictly ascending order, decimal numbers without leading
// zeros, and string escapes limited to \", \\ and \u00XX. Anything else
// is malformed: loading fails completely and populates nothing.

pub open spec fn is_digit(b: u8) -> bool {
    48 <= b <= 57
}

/// Length of the leading digit run.
pub open spec fn digit_run(s: Seq<u8>) -> nat
    decreases s.len(),
{
    if s.len() == 0 || !is_digit(s[0]) {
        0
    } else {
        1 + digit_run(s.skip(1))
    }
}

/// The number a digit sequence denotes, most significant digit first.
pub open spec fn digits_value(ds: Seq<u8>) -> nat
    decreases ds.len(),
{
    if ds.len() == 0 {
        0
    } else {
        digits_value(ds.drop_last()) * 10 + ((ds.last() - 48) as nat)
    }
}

proof fn lemma_digit_run_le(s: Seq<u8>)
    ensures
        digit_run(s) <= s.len(),
    decreases s.len(),
{
    if s.len() == 0 || !is_digit(s[0]) {
    } else {
        lemma_digit_run_le(s.skip(1));
    }
}

/// A decimal number: a nonempty digit run without a leading zero, read to
/// its end.
pub open spec fn parse_nat(s: Seq<u8>) -> Option<(nat, Seq<u8>)> {
    let n = digit_run(s);
    if n == 0 {
        None
    } else if s[0] == 48 && n > 1 {
        None
    } else {
        Some((digits_value(s.take(n as int)), s.skip(n as int)))
    }
}

pub open spec fn is_hex_lower(b: u8) -> bool {
    (48 <= b <= 57) || (97 <= b <= 102)
}

pub open spec fn hex_val(b: u8) -> u8 {
    if b <= 57 {
        (b - 48) as u8
    } else {
        (b - 87) as u8
    }
}

/// A JSON string body up to and including its closing quote, unescaped:
/// printable ASCII stands for itself, \" and \\ for quote and backslash,
/// and \u00XX for the byte XX.
pub open spec fn parse_string_body(s: Seq<u8>) -> Option<(Seq<u8>, Seq<u8>)>
    decreases s.len(),
{
    if s.len() == 0 {
        None
    } else if s[0] == 34 {
        Some((Seq::empty(), s.skip(1)))
    } else if s[0] == 92 {
        if s.len() >= 2 && (s[1] == 34 || s[1] == 92) {
            match parse_string_body(s.skip(2)) {
                Some(q) => Some((seq![s[1]] + q.0, q.1)),
                None => None,
            }
        } else if s.len() >= 6 && s[1] == 117 && s[2] == 48 && s[3] == 48 && is_hex_lower(s[4])
            && is_hex_lower(s[5]) {
            match parse_string_body(s.skip(6)) {
                Some(q) => Some((seq![(hex_val(s[4]) * 16 + hex_val(s[5])) as u8] + q.0, q.1)),
                None => None,
            }
        } else {
            None
        }
    } else if 32 <= s[0] && s[0] < 127 {
        match parse_string_body(s.skip(1)) {
            Some(q) => Some((seq![s[0]] + q.0, q.1)),
            None => None,
        }
    } else {
        None
    }
}

/// A parent pair list: `[]`, or `[first,second]` with both IDs fitting
/// the machine word.
pub open spec fn parse_pair_list(s: Seq<u8>) -> Option<(Option<(usize, usize)>, Seq<u8>)> {
    if s.len() >= 2 && s[0] == 91 && s[1] == 93 {
        Some((None, s.skip(2)))
    } else if s.len() >= 1 && s[0] == 91 {
        match parse_nat(s.skip(1)) {
            Some(q1) => {
                if q1.0 <= usize::MAX && q1.1.len() >= 1 && q1.1[0] == 44 {
                    match parse_nat(q1.1.skip(1)) {
                        Some(q2) => {
                            if q2.0 <= usize::MAX && q2.1.len() >= 1 && q2.1[0] == 93 {
                                Some(
                                    (
                                        Some((q1.0 as usize, q2.0 as usize)),
                                        q2.1.skip(1),
                                    ),
                                )
                            } else {
                                None
                            }
                        },
                        None => None,
                    }
                } else {
                    None
                }
            },
            None => None,
        }
    } else {
        None
    }
}

pub open spec fn begins_with(s: Seq<u8>, lit: Seq<u8>) -> bool {
    lit.len() <= s.len() && s.take(lit.len() as int) == lit
}

/// One record: `"id":{"token":text,"pair":P}`. The loaded token's
/// occurrence weight starts over at one; it is not part of the format.
pub open spec fn parse_record(s: Seq<u8>) -> Option<(TokenModel, Seq<u8>)> {
    if s.len() >= 1 && s[0] == 34 {
        match parse_nat(s.skip(1)) {
            Some(q1) => {
                if q1.0 <= usize::MAX && begins_with(q1.1, record_head()) {
                    match parse_string_body(q1.1.skip(record_head().len() as int)) {
                        Some(q2) => {
                            if begins_with(q2.1, record_mid()) {
                                match parse_pair_list(q2.1.skip(record_mid().len() as int)) {
                                    Some(q3) => {
                                        if q3.1.len() >= 1 && q3.1[0] == 125 {
                                            Some(
                                                (
                                                    TokenModel {
                                                        text: q2.0,
                                                        token_id: q1.0 as usize,
                                                        pair: q3.0,
                                                        occurrences: 1,
                                                    },
                                                    q3.1.skip(1),
                                                ),
                                            )
                                        } else {
                                            None
                                        }
                                    },
                                    None => None,
                                }
                            } else {
                                None
                            }
                        },
                        None => None,
                    }
                } else {
                    None
                }
            },
            None => None,
        }
    } else {
        None
    }
}

proof fn lemma_parse_nat_consumes(s: Seq<u8>)
    ensures
        parse_nat(s) matches Some(q) ==> q.1.len() < s.len(),
{
    lemma_digit_run_le(s);
}

proof fn lemma_parse_string_consumes(s: Seq<u8>)
    ensures
        parse_string_body(s) matches Some(q) ==> q.1.len() < s.len(),
    decreases s.len(),
{
    if s.len() == 0 {
    } else if s[0] == 34 {
    } else if s[0] == 92 {
        if s.len() >= 2 && (s[1] == 34 || s[1] == 92) {
            lemma_parse_string_consumes(s.skip(2));
        } else if s.len() >= 6 && s[1] == 117 && s[2] == 48 && s[3] == 48 && is_hex_lower(s[4])
            && is_hex_lower(s[5]) {
            lemma_parse_string_consumes(s.skip(6));
        }
    } else if 32 <= s[0] && s[0] < 127 {
        lemma_parse_string_consumes(s.skip(1));
    }
}

proof fn lemma_parse_pair_consumes(s: Seq<u8>)
    ensures
        parse_pair_list(s) matches Some(q) ==> q.1.len() < s.len(),
{
    if s.len() >= 2 && s[0] == 91 && s[1] == 93 {
    } else if s.len() >= 1 && s[0] == 91 {
        lemma_parse_nat_consumes(s.skip(1));
        match parse_nat(s.skip(1)) {
            Some(q1) => {
                lemma_parse_nat_consumes(q1.1.skip(1));
            },
            None => {},
        }
    }
}

proof fn lemma_parse_record_consumes(s: Seq<u8>)
    ensures
        parse_record(s) matches Some(q) ==> q.1.len() < s.len(),
{
    if s.len() >= 1 && s[0] == 34 {
        lemma_parse_nat_consumes(s.skip(1));
        match parse_nat(s.skip(1)) {
            Some(q1) => {
                lemma_parse_string_consumes(q1.1.skip(record_head().len() as int));
                match parse_string_body(q1.1.skip(record_head().len() as int)) {
                    Some(q2) => {
                        lemma_parse_pair_consumes(q2.1.skip(record_mid().len() as int));
                    },
                    None => {},
                }
            },
            None => {},
        }
    }
}

/// A comma-separated run of records, as many as the commas carry.
pub open spec fn parse_records(s: Seq<u8>) -> Option<(Seq<TokenModel>, Seq<u8>)>
    decreases s.len(),
    via parse_records_decreases
{
    match parse_record(s) {
        Some(q) => {
            if q.1.len() >= 1 && q.1[0] == 44 {
                match parse_records(q.1.skip(1)) {
                    Some(q2) => Some((seq![q.0] + q2.0, q2.1)),
                    None => None,
                }
            } else {
                Some((seq![q.0], q.1))
            }
        },
        None => None,
    }
}

#[via_fn]
proof fn parse_records_decreases(s: Seq<u8>) {
    lemma_parse_record_consumes(s);
}

/// The whole persisted vocabulary: `{}` or an object of records.
pub open spec fn parse_vocab(s: Seq<u8>) -> Option<Seq<TokenModel>> {
    if s.len() == 2 && s[0] == 123 && s[1] == 125 {
        Some(Seq::empty())
    } else if s.len() >= 1 && s[0] == 123 {
        match parse_records(s.skip(1)) {
            Some(q) => {
                if q.1.len() == 1 && q.1[0] == 125 {
                    Some(q.0)
                } else {
                    None
                }
            },
            None => None,
        }
    } else {
        None
    }
}

// --- Round trip: loading what was written ------------------------------

/// What a token looks like after a persistence round trip: ID, text and
/// parent pair intact, the occurrence weight reset to one.
pub open spec fn persisted_token(t: TokenModel) -> TokenModel {
    TokenModel { text: t.text, token_id: t.token_id, pair: t.pair, occurrences: 1 }
}

/// A whole store after a persistence round trip.
pub open spec fn persisted_tokens(ts: Seq<TokenModel>) -> Seq<TokenModel> {
    ts.map(|i: int, t: TokenModel| persisted_token(t))
}

proof fn lemma_dec_digits_shape(v: nat)
    ensures
        dec_digits(v).len() >= 1,
        forall|i: int| 0 <= i < dec_digits(v).len() ==> is_digit(#[trigger] dec_digits(v)[i]),
        dec_digits(v)[0] == 48 ==> v == 0,
    decreases v,
{
    if v < 10 {
    } else {
        lemma_dec_digits_shape(v / 10);
        assert forall|i: int| 0 <= i < dec_digits(v).len() implies is_digit(
            #[trigger] dec_digits(v)[i],
        ) by {
            if i < dec_digits(v / 10).len() {
                assert(dec_digits(v)[i] == dec_digits(v / 10)[i]);
            } else {
                assert(dec_digits(v)[i] == (48 + v % 10) as u8);
            }
        }
        assert(dec_digits(v)[0] == dec_digits(v / 10)[0]);
    }
}

proof fn lemma_digits_value_of(v: nat)
    ensures
        digits_value(dec_digits(v)) == v,
    decreases v,
{
    if v < 10 {
        assert(dec_digits(v).drop_last() =~= Seq::<u8>::empty());
    } else {
        lemma_digits_value_of(v / 10);
        assert(dec_digits(v).drop_last() =~= dec_digits(v / 10));
        assert(dec_digits(v).last() == (48 + v % 10) as u8);
    }
}

proof fn lemma_digit_run_concat(ds: Seq<u8>, rest: Seq<u8>)
    requires
        forall|i: int| 0 <= i < ds.len() ==> is_digit(#[trigger] ds[i]),
        rest.len() == 0 || !is_digit(rest[0]),
    ensures
        digit_run(ds + rest) == ds.len(),
    decreases ds.len(),
{
    if ds.len() == 0 {
        assert(ds + rest =~= rest);
    } else {
        assert forall|i: int| 0 <= i < ds.skip(1).len() implies is_digit(
            #[trigger] ds.skip(1)[i],
        ) by {
            assert(ds.skip(1)[i] == ds[i + 1]);
        }
        lemma_digit_run_concat(ds.skip(1), rest);
        assert((ds + rest)[0] == ds[0]);
        assert((ds + rest).skip(1) =~= ds.skip(1) + rest);
    }
}

proof fn lemma_parse_nat_round(v: nat, rest: Seq<u8>)
    requires
        rest.len() == 0 || !is_digit(rest[0]),
    ensures
        parse_nat(dec_digits(v) + rest) == Some((v, rest)),
{
    let ds = dec_digits(v);
    lemma_dec_digits_shape(v);
    lemma_digits_value_of(v);
    lemma_digit_run_concat(ds, rest);
    let s = ds + rest;
    assert(s[0] == ds[0]);
    assert(s.take(ds.len() as int) =~= ds);
    assert(s.skip(ds.len() as int) =~= rest);
    if s[0] == 48 && digit_run(s) > 1 {
        assert(v == 0);
        assert(ds.len() == 1);
    }
}

proof fn lemma_hex_of_digit(x: u8)
    requires
        x < 16,
    ensures
        is_hex_lower(crate::export::hex_digit(x)),
        hex_val(crate::export::hex_digit(x)) == x,
{
}

proof fn lemma_parse_string_round(text: Seq<u8>, rest: Seq<u8>)
    ensures
        parse_string_body(crate::export::esc_bytes(text) + seq![34u8] + rest) == Some(
            (text, rest),
        ),
    decreases text.len(),
{
    let s = crate::export::esc_bytes(text) + seq![34u8] + rest;
    if text.len() == 0 {
        assert(crate::export::esc_bytes(text) == Seq::<u8>::empty());
        assert(s =~= seq![34u8] + rest);
        assert(s[0] == 34);
        assert(s.skip(1) =~= rest);
        assert(parse_string_body(s) == Some((Seq::<u8>::empty(), rest)));
        assert(text =~= Seq::<u8>::empty());
    } else {
        let t0 = text[0];
        let e = crate::export::esc_byte(t0);
        let tail = crate::export::esc_bytes(text.skip(1)) + seq![34u8] + rest;
        lemma_parse_string_round(text.skip(1), rest);
        assert(crate::export::esc_bytes(text) == e + crate::export::esc_bytes(text.skip(1)));
        assert(s =~= e + tail);
        assert(s.skip(e.len() as int) =~= tail);
        if t0 == 34 {
            assert(s[0] == 92 && s[1] == 34);
            assert(s.skip(2) =~= tail);
            assert(seq![s[1]] + text.skip(1) =~= text);
        } else if t0 == 92 {
            assert(s[0] == 92 && s[1] == 92);
            assert(s.skip(2) =~= tail);
            assert(seq![s[1]] + text.skip(1) =~= text);
        } else if 32 <= t0 && t0 < 127 {
            assert(s[0] == t0);
            assert(s.skip(1) =~= tail);
            assert(seq![s[0]] + text.skip(1) =~= text);
        } else {
            lemma_hex_of_digit(t0 / 16);
            lemma_hex_of_digit(t0 % 16);
            assert(s[0] == 92 && s[1] == 117 && s[2] == 48 && s[3] == 48);
            assert(s[4] == crate::export::hex_digit(t0 / 16));
            assert(s[5] == crate::export::hex_digit(t0 % 16));
            assert(s.skip(6) =~= tail);
            assert((hex_val(s[4]) * 16 + hex_val(s[5])) as u8 == t0);
            assert(seq![t0] + text.skip(1) =~= text);
        }
    }
}

proof fn lemma_parse_pair_round(p: Option<(usize, usize)>, rest: Seq<u8>)
    ensures
        parse_pair_list(crate::export::emit_pair(p) + rest) == Some((p, rest)),
{
    let s = crate::export::emit_pair(p) + rest;
    match p {
        None => {
            assert(s[0] == 91 && s[1] == 93);
            assert(s.skip(2) =~= rest);
        },
        Some(q) => {
            let da = dec_digits(q.0 as nat);
            let db = dec_digits(q.1 as nat);
            lemma_dec_digits_shape(q.0 as nat);
            lemma_dec_digits_shape(q.1 as nat);
            let rest_a = seq![44u8] + (db + (seq![93u8] + rest));
            let rest_b = seq![93u8] + rest;
            assert(s =~= seq![91u8] + (da + rest_a));
            assert(s[0] == 91);
            assert(s[1] == da[0]);
            assert(is_digit(da[0]));
            assert(s[1] != 93);
            assert(s.skip(1) =~= da + rest_a);
            lemma_parse_nat_round(q.0 as nat, rest_a);
            assert(rest_a[0] == 44);
            assert(rest_a.skip(1) =~= db + rest_b);
            lemma_parse_nat_round(q.1 as nat, rest_b);
            assert(rest_b[0] == 93);
            assert(rest_b.skip(1) =~= rest);
        },
    }
}

#[verifier::rlimit(100)]
proof fn lemma_parse_record_round(t: TokenModel, rest: Seq<u8>)
    ensures
        parse_record(crate::export::emit_record(t) + rest) == Some((persisted_token(t), rest)),
{
    let s = crate::export::emit_record(t) + rest;
    let dd = dec_digits(t.token_id as nat);
    let esc = crate::export::esc_bytes(t.text);
    let ep = crate::export::emit_pair(t.pair);
    let z3 = seq![125u8] + rest;
    let z2 = ep + z3;
    let z1 = record_mid() + z2;
    let z0 = seq![34u8] + z1;
    let y = esc + z0;
    let x = record_head() + y;
    assert(s =~= seq![34u8] + (dd + x));
    assert(s[0] == 34);
    assert(s.skip(1) =~= dd + x);
    assert(x[0] == record_head()[0]);
    assert(!is_digit(x[0]));
    lemma_parse_nat_round(t.token_id as nat, x);
    lemma_dec_digits_shape(t.token_id as nat);
    assert(x.take(record_head().len() as int) =~= record_head());
    assert(begins_with(x, record_head()));
    assert(x.skip(record_head().len() as int) =~= y);
    assert(y =~= esc + seq![34u8] + z1);
    lemma_parse_string_round(t.text, z1);
    assert(parse_string_body(y) == Some((t.text, z1)));
    assert(z1.take(record_mid().len() as int) =~= record_mid());
    assert(begins_with(z1, record_mid()));
    assert(z1.skip(record_mid().len() as int) =~= z2);
    lemma_parse_pair_round(t.pair, z3);
    assert(parse_pair_list(z2) == Some((t.pair, z3)));
    assert(z3[0] == 125);
    assert(z3.skip(1) =~= rest);
    assert((t.token_id as nat) as usize == t.token_id);
}

proof fn lemma_parse_records_round(ts: Seq<TokenModel>, rest: Seq<u8>)
    requires
        ts.len() >= 1,
        rest.len() >= 1,
        rest[0] != 44,
    ensures
        parse_records(crate::export::emit_records(ts) + rest) == Some(
            (persisted_tokens(ts), rest),
        ),
    decreases ts.len(),
{
    let s = crate::export::emit_records(ts) + rest;
    if ts.len() == 1 {
        assert(crate::export::emit_records(ts) == crate::export::emit_record(ts[0]));
        lemma_parse_record_round(ts[0], rest);
        assert(parse_record(s) == Some((persisted_token(ts[0]), rest)));
        assert(persisted_tokens(ts) =~= seq![persisted_token(ts[0])]);
    } else {
        let tail = crate::export::emit_records(ts.skip(1)) + rest;
        let rest0 = seq![44u8] + tail;
        assert(s =~= crate::export::emit_record(ts[0]) + rest0);
        lemma_parse_record_round(ts[0], rest0);
        assert(parse_record(s) == Some((persisted_token(ts[0]), rest0)));
        assert(rest0[0] == 44);
        assert(rest0.skip(1) =~= tail);
        lemma_parse_records_round(ts.skip(1), rest);
        assert(parse_records(tail) == Some((persisted_tokens(ts.skip(1)), rest)));
        assert(seq![persisted_token(ts[0])] + persisted_tokens(ts.skip(1)) =~= persisted_tokens(
            ts,
        ));
    }
}

/// Loading what was written reproduces the store: every record comes back
/// with its ID, text and parent pair intact (the occurrence weight is not
/// part of the format and starts over at one).
pub proof fn lemma_vocab_round_trip(ts: Seq<TokenModel>)
    ensures
        parse_vocab(crate::export::emit_vocab(ts)) == Some(persisted_tokens(ts)),
        persisted_tokens(ts).len() == ts.len(),
        forall|k: int|
            0 <= k < ts.len() ==> (#[trigger] persisted_tokens(ts)[k]).token_id
                == ts[k].token_id && persisted_tokens(ts)[k].text == ts[k].text
                && persisted_tokens(ts)[k].pair == ts[k].pair,
        ids_sorted(ts) ==> ids_sorted(persisted_tokens(ts)),
        no_dup_text_pair(ts) ==> no_dup_text_pair(persisted_tokens(ts)),
{
    let s = crate::export::emit_vocab(ts);
    if ts.len() == 0 {
        assert(crate::export::emit_records(ts) == Seq::<u8>::empty());
        assert(s =~= seq![123u8, 125u8]);
        assert(s.len() == 2 && s[0] == 123 && s[1] == 125);
        assert(persisted_tokens(ts) =~= Seq::<TokenModel>::empty());
    } else {
        let er = crate::export::emit_records(ts);
        assert(crate::export::emit_record(ts[0]).len() >= 1) by {
            assert(crate::export::emit_record(ts[0]).last() == 125);
        }
        assert(er.len() >= 1);
        assert(s.len() >= 3);
        assert(s[0] == 123);
        assert(s.skip(1) =~= er + seq![125u8]);
        lemma_parse_records_round(ts, seq![125u8]);
        assert(parse_records(s.skip(1)) == Some((persisted_tokens(ts), seq![125u8])));
    }
}

// --- The runtime parser -------------------------------------------------

proof fn lemma_digit_run_range(s: Seq<u8>, i: int, j: int)
    requires
        0 <= i <= j <= s.len(),
        forall|m: int| i <= m < j ==> is_digit(#[trigger] s[m]),
        j == s.len() || !is_digit(s[j]),
    ensures
        digit_run(s.skip(i)) == j - i,
    decreases j - i,
{
    let rest = s.skip(i);
    if i == j {
        if i < s.len() {
            assert(rest[0] == s[i]);
        }
    } else {
        assert(rest[0] == s[i]);
        lemma_digit_run_range(s, i + 1, j);
        assert(rest.skip(1) =~= s.skip(i + 1));
    }
}

proof fn lemma_digits_value_prefix_le(ds: Seq<u8>, k: int)
    requires
        0 <= k <= ds.len(),
    ensures
        digits_value(ds.take(k)) <= digits_value(ds),
    decreases ds.len() - k,
{
    if k == ds.len() {
        assert(ds.take(k) =~= ds);
    } else {
        lemma_digits_value_prefix_le(ds, k + 1);
        assert(ds.take(k + 1).drop_last() =~= ds.take(k));
        assert(ds.take(k + 1).last() == ds[k]);
        assert(digits_value(ds.take(k + 1)) == digits_value(ds.take(k)) * 10 + ((ds[k]
            - 48) as nat));
        assert(digits_value(ds.take(k)) * 10 >= digits_value(ds.take(k)));
    }
}

/// Scan a decimal number. Reports nothing when the grammar rejects it or
/// its value does not fit the machine word.
fn scan_nat(s: &Vec<u8>, i: usize) -> (r: Option<(usize, usize)>)
    requires
        i <= s@.len(),
    ensures
        match r {
            Some(p) => i < p.1 <= s@.len() && parse_nat(s@.skip(i as int)) == Some(
                ((p.0 as nat), s@.skip(p.1 as int)),
            ),
            None => match parse_nat(s@.skip(i as int)) {
                Some(q) => q.0 > usize::MAX,
                None => true,
            },
        },
{
    let n = s.len();
    let mut j = i;
    while j < n && 48 <= s[j] && s[j] <= 57
        invariant
            i <= j <= n,
            n == s@.len(),
            forall|m: int| i <= m < j ==> is_digit(#[trigger] s@[m]),
        decreases n - j,
    {
        j = j + 1;
    }
    proof {
        lemma_digit_run_range(s@, i as int, j as int);
    }
    if j == i {
        return None;
    }
    if s[i] == 48 && j - i > 1 {
        proof {
            assert(s@.skip(i as int)[0] == s@[i as int]);
        }
        return None;
    }
    let ghost run = s@.subrange(i as int, j as int);
    let mut v: usize = 0;
    let mut k = i;
    proof {
        assert(run.take(0) =~= Seq::<u8>::empty());
    }
    while k < j
        invariant
            i <= k <= j <= n,
            i < j,
            n == s@.len(),
            run == s@.subrange(i as int, j as int),
            forall|m: int| i <= m < j ==> is_digit(#[trigger] s@[m]),
            digit_run(s@.skip(i as int)) == j - i,
            s@[i as int] == 48 ==> j == i + 1,
            v as nat == digits_value(run.take(k as int - i)),
        decreases j - k,
    {
        let d = s[k] - 48;
        proof {
            assert(run.take(k as int - i + 1).drop_last() =~= run.take(k as int - i));
            assert(run.take(k as int - i + 1).last() == s@[k as int]);
            assert(digits_value(run.take(k as int - i + 1)) == digits_value(
                run.take(k as int - i),
            ) * 10 + ((s@[k as int] - 48) as nat));
        }
        if v > (usize::MAX - (d as usize)) / 10 {
            proof {
                let q = (usize::MAX - (d as usize)) / 10;
                assert(q * 10 + (usize::MAX - (d as usize)) % 10 == usize::MAX - (d as usize));
                assert(v >= q + 1);
                assert(v * 10 >= (q + 1) * 10) by (nonlinear_arith)
                    requires
                        v >= q + 1,
                        q >= 0,
                ;
                assert(v * 10 + d > usize::MAX);
                assert(digits_value(run.take(k as int - i + 1)) > usize::MAX);
                lemma_digits_value_prefix_le(run, k as int - i + 1);
                assert(digits_value(run) > usize::MAX);
                assert(s@.skip(i as int).take(j as int - i) =~= run);
                assert(s@.skip(i as int)[0] == s@[i as int]);
            }
            return None;
        }
        proof {
            let q = (usize::MAX - (d as usize)) / 10;
            assert(q * 10 + (usize::MAX - (d as usize)) % 10 == usize::MAX - (d as usize));
            assert(v * 10 <= q * 10) by (nonlinear_arith)
                requires
                    v <= q,
                    q >= 0,
            ;
            assert(v * 10 + (d as usize) <= usize::MAX);
        }
        v = v * 10 + (d as usize);
        k = k + 1;
    }
    proof {
        assert(run.take(j as int - i) =~= run);
        assert(s@.skip(i as int).take(j as int - i) =~= run);
        assert(s@.skip(i as int).skip(j as int - i) =~= s@.skip(j as int));
        assert(s@.skip(i as int)[0] == s@[i as int]);
    }
    Some((v, j))
}

/// The value of one lowercase hex digit.
fn hexv(b: u8) -> (r: u8)
    requires
        is_hex_lower(b),
    ensures
        r == hex_val(b),
        r < 16,
{
    if b <= 57 {
        b - 48
    } else {
        b - 87
    }
}

/// Scan a JSON string body up to its closing quote, unescaping it.
fn scan_string(s: &Vec<u8>, i: usize) -> (r: Option<(Vec<u8>, usize)>)
    requires
        i <= s@.len(),
    ensures
        match r {
            Some(p) => i < p.1 <= s@.len() && parse_string_body(s@.skip(i as int)) == Some(
                (p.0@, s@.skip(p.1 as int)),
            ),
            None => parse_string_body(s@.skip(i as int)) is None,
        },
{
    let n = s.len();
    let mut text: Vec<u8> = Vec::new();
    let mut pos = i;
    while pos < n
        invariant
            i <= pos <= n,
            n == s@.len(),
            match parse_string_body(s@.skip(pos as int)) {
                Some(q) => parse_string_body(s@.skip(i as int)) == Some((text@ + q.0, q.1)),
                None => parse_string_body(s@.skip(i as int)) is None,
            },
        decreases n - pos,
    {
        let b = s[pos];
        let ghost rest = s@.skip(pos as int);
        proof {
            assert(rest[0] == s@[pos as int]);
        }
        if b == 34 {
            proof {
                assert(parse_string_body(rest) == Some((Seq::<u8>::empty(), rest.skip(1))));
                assert(rest.skip(1) =~= s@.skip(pos as int + 1));
                assert(text@ + Seq::<u8>::empty() =~= text@);
            }
            return Some((text, pos + 1));
        } else if b == 92 {
            if pos + 1 < n && (s[pos + 1] == 34 || s[pos + 1] == 92) {
                let ghost pre = text@;
                text.push(s[pos + 1]);
                proof {
                    assert(rest[1] == s@[pos as int + 1]);
                    assert(rest.skip(2) =~= s@.skip(pos as int + 2));
                    match parse_string_body(s@.skip(pos as int + 2)) {
                        Some(q) => {
                            assert(parse_string_body(rest) == Some(
                                (seq![s@[pos as int + 1]] + q.0, q.1),
                            ));
                            assert(pre + (seq![s@[pos as int + 1]] + q.0) =~= text@ + q.0);
                        },
                        None => {
                            assert(parse_string_body(rest) is None);
                        },
                    }
                }
                pos = pos + 2;
            } else if n - pos > 5 && s[pos + 1] == 117 && s[pos + 2] == 48 && s[pos + 3] == 48
                && ((48 <= s[pos + 4] && s[pos + 4] <= 57) || (97 <= s[pos + 4] && s[pos + 4]
                <= 102)) && ((48 <= s[pos + 5] && s[pos + 5] <= 57) || (97 <= s[pos + 5]
                && s[pos + 5] <= 102)) {
                let hv = hexv(s[pos + 4]) * 16 + hexv(s[pos + 5]);
                let ghost pre = text@;
                text.push(hv);
                proof {
                    assert(rest[1] == s@[pos as int + 1]);
                    assert(rest[2] == s@[pos as int + 2]);
                    assert(rest[3] == s@[pos as int + 3]);
                    assert(rest[4] == s@[pos as int + 4]);
                    assert(rest[5] == s@[pos as int + 5]);
                    assert(rest.skip(6) =~= s@.skip(pos as int + 6));
                    assert(hv == (hex_val(rest[4]) * 16 + hex_val(rest[5])) as u8);
                    match parse_string_body(s@.skip(pos as int + 6)) {
                        Some(q) => {
                            assert(parse_string_body(rest) == Some((seq![hv] + q.0, q.1)));
                            assert(pre + (seq![hv] + q.0) =~= text@ + q.0);
                        },
                        None => {
                            assert(parse_string_body(rest) is None);
                        },
                    }
                }
                pos = pos + 6;
            } else {
                proof {
                    if rest.len() >= 2 && (rest[1] == 34 || rest[1] == 92) {
                        assert(pos as int + 1 < n);
                    }
                    if rest.len() >= 6 && rest[1] == 117 && rest[2] == 48 && rest[3] == 48
                        && is_hex_lower(rest[4]) && is_hex_lower(rest[5]) {
                        assert(rest[1] == s@[pos as int + 1]);
                        assert(rest[2] == s@[pos as int + 2]);
                        assert(rest[3] == s@[pos as int + 3]);
                        assert(rest[4] == s@[pos as int + 4]);
                        assert(rest[5] == s@[pos as int + 5]);
                    }
                    assert(parse_string_body(rest) is None);
                }
                return None;
            }
        } else if 32 <= b && b < 127 {
            let ghost pre = text@;
            text.push(b);
            proof {
                assert(rest.skip(1) =~= s@.skip(pos as int + 1));
                match parse_string_body(s@.skip(pos as int + 1)) {
                    Some(q) => {
                        assert(parse_string_body(rest) == Some((seq![b] + q.0, q.1)));
                        assert(pre + (seq![b] + q.0) =~= text@ + q.0);
                    },
                    None => {
                        assert(parse_string_body(rest) is None);
                    },
                }
            }
            pos = pos + 1;
        } else {
            return None;
        }
    }
    proof {
        assert(s@.skip(pos as int).len() == 0);
    }
    None
}

/// Scan a parent pair list.
fn scan_pair(s: &Vec<u8>, i: usize) -> (r: Option<(Option<(usize, usize)>, usize)>)
    requires
        i <= s@.len(),
    ensures
        match r {
            Some(p) => i < p.1 <= s@.len() && parse_pair_list(s@.skip(i as int)) == Some(
                (p.0, s@.skip(p.1 as int)),
            ),
            None => parse_pair_list(s@.skip(i as int)) is None,
        },
{
    let n = s.len();
    let ghost rest = s@.skip(i as int);
    if i >= n || s[i] != 91 {
        proof {
            if rest.len() >= 1 {
                assert(rest[0] == s@[i as int]);
            }
        }
        return None;
    }
    proof {
        assert(rest[0] == s@[i as int]);
    }
    if i + 1 < n && s[i + 1] == 93 {
        proof {
            assert(rest[1] == s@[i as int + 1]);
            assert(rest.skip(2) =~= s@.skip(i as int + 2));
        }
        return Some((None, i + 2));
    }
    proof {
        if rest.len() >= 2 {
            assert(rest[1] == s@[i as int + 1]);
        }
        assert(!(rest.len() >= 2 && rest[0] == 91 && rest[1] == 93));
        assert(rest.skip(1) =~= s@.skip(i as int + 1));
    }
    let (a, j1) = match scan_nat(s, i + 1) {
        Some(p) => p,
        None => {
            return None;
        },
    };
    if j1 >= n || s[j1] != 44 {
        proof {
            if s@.skip(j1 as int).len() >= 1 {
                assert(s@.skip(j1 as int)[0] == s@[j1 as int]);
            }
        }
        return None;
    }
    proof {
        assert(s@.skip(j1 as int)[0] == s@[j1 as int]);
        assert(s@.skip(j1 as int).skip(1) =~= s@.skip(j1 as int + 1));
    }
    let (b, j2) = match scan_nat(s, j1 + 1) {
        Some(p) => p,
        None => {
            return None;
        },
    };
    if j2 >= n || s[j2] != 93 {
        proof {
            if s@.skip(j2 as int).len() >= 1 {
                assert(s@.skip(j2 as int)[0] == s@[j2 as int]);
            }
        }
        return None;
    }
    proof {
        assert(s@.skip(j2 as int)[0] == s@[j2 as int]);
        assert(s@.skip(j2 as int).skip(1) =~= s@.skip(j2 as int + 1));
    }
    Some((Some((a, b)), j2 + 1))
}

/// Check the fixed bytes between a record's ID and its text.
fn expect_head(s: &Vec<u8>, i: usize) -> (r: bool)
    requires
        i <= s@.len(),
    ensures
        r == begins_with(s@.skip(i as int), record_head()),
{
    if s.len() - i < 12 {
        return false;
    }
    let r = s[i] == 34 && s[i + 1] == 58 && s[i + 2] == 123 && s[i + 3] == 34 && s[i + 4] == 116
        && s[i + 5] == 111 && s[i + 6] == 107 && s[i + 7] == 101 && s[i + 8] == 110 && s[i + 9]
        == 34 && s[i + 10] == 58 && s[i + 11] == 34;
    proof {
        let rest = s@.skip(i as int);
        if r {
            assert(rest.take(12) =~= record_head());
        } else {
            if rest.take(12) == record_head() {
                assert(forall|m: int|
                    0 <= m < 12 ==> #[trigger] rest[m] == record_head()[m]);
                assert(rest[0] == 34 && rest[1] == 58 && rest[2] == 123 && rest[3] == 34
                    && rest[4] == 116 && rest[5] == 111 && rest[6] == 107 && rest[7] == 101
                    && rest[8] == 110 && rest[9] == 34 && rest[10] == 58 && rest[11] == 34);
            }
        }
    }
    r
}

/// Check the fixed bytes between a record's text and its pair.
fn expect_mid(s: &Vec<u8>, i: usize) -> (r: bool)
    requires
        i <= s@.len(),
    ensures
        r == begins_with(s@.skip(i as int), record_mid()),
{
    if s.len() - i < 8 {
        return false;
    }
    let r = s[i] == 44 && s[i + 1] == 34 && s[i + 2] == 112 && s[i + 3] == 97 && s[i + 4] == 105
        && s[i + 5] == 114 && s[i + 6] == 34 && s[i + 7] == 58;
    proof {
        let rest = s@.skip(i as int);
        if r {
            assert(rest.take(8) =~= record_mid());
        } else {
            if rest.take(8) == record_mid() {
                assert(forall|m: int| 0 <= m < 8 ==> #[trigger] rest[m] == record_mid()[m]);
                assert(rest[0] == 44 && rest[1] == 34 && rest[2] == 112 && rest[3] == 97
                    && rest[4] == 105 && rest[5] == 114 && rest[6] == 34 && rest[7] == 58);
            }
        }
    }
    r
}

/// Scan one record into a token.
fn scan_record(s: &Vec<u8>, i: usize) -> (r: Option<(Token, usize)>)
    requires
        i <= s@.len(),
    ensures
        match r {
            Some(p) => i < p.1 <= s@.len() && parse_record(s@.skip(i as int)) == Some(
                (p.0@, s@.skip(p.1 as int)),
            ),
            None => parse_record(s@.skip(i as int)) is None,
        },
{
    let n = s.len();
    let ghost rest = s@.skip(i as int);
    if i >= n || s[i] != 34 {
        proof {
            if rest.len() >= 1 {
                assert(rest[0] == s@[i as int]);
            }
        }
        return None;
    }
    proof {
        assert(rest[0] == s@[i as int]);
        assert(rest.skip(1) =~= s@.skip(i as int + 1));
    }
    let (id, j1) = match scan_nat(s, i + 1) {
        Some(p) => p,
        None => {
            return None;
        },
    };
    if !expect_head(s, j1) {
        return None;
    }
    proof {
        assert(s@.skip(j1 as int).skip(12) =~= s@.skip(j1 as int + 12));
        assert(record_head().len() == 12);
    }
    let (text, j2) = match scan_string(s, j1 + 12) {
        Some(p) => p,
        None => {
            return None;
        },
    };
    if !expect_mid(s, j2) {
        return None;
    }
    proof {
        assert(s@.skip(j2 as int).skip(8) =~= s@.skip(j2 as int + 8));
        assert(record_mid().len() == 8);
    }
    let (pair, j3) = match scan_pair(s, j2 + 8) {
        Some(p) => p,
        None => {
            return None;
        },
    };
    if j3 >= n || s[j3] != 125 {
        proof {
            if s@.skip(j3 as int).len() >= 1 {
                assert(s@.skip(j3 as int)[0] == s@[j3 as int]);
            }
        }
        return None;
    }
    proof {
        assert(s@.skip(j3 as int)[0] == s@[j3 as int]);
        assert(s@.skip(j3 as int).skip(1) =~= s@.skip(j3 as int + 1));
    }
    let t = Token::new(text, id, pair, None);
    Some((t, j3 + 1))
}

/// Scan a comma-separated run of records, appending the tokens in file
/// order.
fn scan_records(s: &Vec<u8>, i: usize, out: &mut Vec<Token>) -> (r: Option<usize>)
    requires
        i <= s@.len(),
    ensures
        match r {
            Some(j) => i < j <= s@.len() && (match parse_records(s@.skip(i as int)) {
                Some(q) => final(out).deep_view() == old(out).deep_view() + q.0 && s@.skip(
                    j as int,
                ) == q.1,
                None => false,
            }),
            None => parse_records(s@.skip(i as int)) is None,
        },
    decreases s@.len() - i,
{
    let (t, j) = match scan_record(s, i) {
        Some(p) => p,
        None => {
            return None;
        },
    };
    let ghost tm = t@;
    let ghost pre = out.deep_view();
    out.push(t);
    proof {
        assert(out.deep_view() =~= pre.push(tm));
    }
    if j < s.len() && s[j] == 44 {
        proof {
            assert(s@.skip(j as int)[0] == s@[j as int]);
            assert(s@.skip(j as int).skip(1) =~= s@.skip(j as int + 1));
        }
        match scan_records(s, j + 1, out) {
            Some(j2) => {
                proof {
                    match parse_records(s@.skip(j as int + 1)) {
                        Some(q2) => {
                            assert(parse_records(s@.skip(i as int)) == Some(
                                (seq![tm] + q2.0, q2.1),
                            ));
                            assert(pre + (seq![tm] + q2.0) =~= (pre.push(tm)) + q2.0);
                        },
                        None => {},
                    }
                }
                Some(j2)
            },
            None => None,
        }
    } else {
        proof {
            if s@.skip(j as int).len() >= 1 {
                assert(s@.skip(j as int)[0] == s@[j as int]);
            }
            assert(!(s@.skip(j as int).len() >= 1 && s@.skip(j as int)[0] == 44));
            assert(parse_records(s@.skip(i as int)) == Some((seq![tm], s@.skip(j as int))));
            assert(pre + seq![tm] =~= pre.push(tm));
        }
        Some(j)
    }
}

proof fn lemma_sorted_chain(ts: Seq<TokenModel>, i: int, j: int)
    requires
        forall|k: int| 0 <= k < ts.len() - 1 ==> (#[trigger] ts[k]).token_id < ts[k + 1].token_id,
        0 <= i < j < ts.len(),
    ensures
        ts[i].token_id < ts[j].token_id,
    decreases j - i,
{
    if j > i + 1 {
        lemma_sorted_chain(ts, i, j - 1);
    }
}

/// Check that token IDs come strictly ascending.
fn check_ascending(tokens: &Vec<Token>) -> (r: bool)
    ensures
        r == ids_sorted(tokens.deep_view()),
{
    let ghost ts = tokens.deep_view();
    if tokens.len() < 2 {
        return true;
    }
    let mut i: usize = 1;
    while i < tokens.len()
        invariant
            1 <= i <= ts.len(),
            ts == tokens.deep_view(),
            ts.len() == tokens@.len(),
            forall|k: int| 0 <= k < i - 1 ==> (#[trigger] ts[k]).token_id < ts[k + 1].token_id,
        decreases tokens.len() - i,
    {
        proof {
            assert(ts[i as int - 1] == tokens@[i as int - 1]@);
            assert(ts[i as int] == tokens@[i as int]@);
        }
        if tokens[i - 1].token_id >= tokens[i].token_id {
            return false;
        }
        i = i + 1;
    }
    proof {
        assert forall|a: int, b: int| 0 <= a < b < ts.len() implies ts[a].token_id
            < ts[b].token_id by {
            lemma_sorted_chain(ts, a, b);
        }
    }
    true
}

/// Check that no two tokens share an identical (text, pair) combination.
fn check_no_dup(tokens: &Vec<Token>) -> (r: bool)
    ensures
        r == no_dup_text_pair(tokens.deep_view()),
{
    let ghost ts = tokens.deep_view();
    let mut i: usize = 0;
    while i < tokens.len()
        invariant
            i <= ts.len(),
            ts == tokens.deep_view(),
            ts.len() == tokens@.len(),
            forall|a: int, b: int|
                #![trigger ts[a], ts[b]]
                0 <= a < b < ts.len() && a < i ==> !(ts[a].text == ts[b].text && ts[a].pair
                    == ts[b].pair),
        decreases tokens.len() - i,
    {
        let mut j = i + 1;
        while j < tokens.len()
            invariant
                i < j <= ts.len(),
                i < ts.len(),
                ts == tokens.deep_view(),
                ts.len() == tokens@.len(),
                forall|b: int|
                    i < b < j ==> !((#[trigger] ts[b]).text == ts[i as int].text && ts[b].pair
                        == ts[i as int].pair),
            decreases tokens.len() - j,
        {
            proof {
                assert(ts[i as int] == tokens@[i as int]@);
                assert(ts[j as int] == tokens@[j as int]@);
            }
            if crate::token::bytes_eq(&tokens[i].token, &tokens[j].token)
                && crate::vocabulary::pair_eq(tokens[i].pair, tokens[j].pair) {
                return false;
            }
            j = j + 1;
        }
        i = i + 1;
    }
    true
}

impl Vocabulary<ReadOnly> {
    /// Load a persisted vocabulary: the source name must carry the
    /// `json` extension, the bytes must be a well-formed persisted store
    /// (the canonical form described above) with strictly ascending IDs
    /// and no duplicated (text, pair) combination. Loading succeeds
    /// completely or fails completely; no partial store is ever built.
    pub fn from_json(path: &Vec<u8>, bytes: &Vec<u8>) -> (r: Result<
        Vocabulary<ReadOnly>,
        VocabError,
    >)
        ensures
            match r {
                Ok(v) => json_extension(path@) && parse_vocab(bytes@) == Some(v@) && v.wf(),
                Err(_) => !json_extension(path@) || (match parse_vocab(bytes@) {
                    Some(list) => !(ids_sorted(list) && no_dup_text_pair(list)),
                    None => true,
                }),
            },
    {
        if !json_extension_ok(path) {
            return Err(VocabError::new("File is not a JSON file."));
        }
        let n = bytes.len();
        if n == 2 && bytes[0] == 123 && bytes[1] == 125 {
            let empty: Vec<Token> = Vec::new();
            proof {
                assert(empty.deep_view() =~= Seq::<TokenModel>::empty());
            }
            let v = Vocabulary::from_tokens(empty);
            return Ok(v);
        }
        if n < 1 || bytes[0] != 123 {
            return Err(VocabError::new("Failed to parse JSON."));
        }
        proof {
            assert(bytes@[0] == 123);
        }
        let mut tokens: Vec<Token> = Vec::new();
        let ghost no_tokens = tokens.deep_view();
        proof {
            assert(no_tokens =~= Seq::<TokenModel>::empty());
        }
        let j = match scan_records(bytes, 1, &mut tokens) {
            Some(j) => j,
            None => {
                return Err(VocabError::new("Failed to parse JSON."));
            },
        };
        if !(j == n - 1 && bytes[j] == 125) {
            proof {
                match parse_records(bytes@.skip(1)) {
                    Some(q) => {
                        assert(q.1 == bytes@.skip(j as int));
                        if q.1.len() == 1 && q.1[0] == 125 {
                            assert(j as int == n - 1);
                            assert(bytes@.skip(j as int)[0] == bytes@[j as int]);
                        }
                    },
                    None => {},
                }
            }
            return Err(VocabError::new("Failed to parse JSON."));
        }
        proof {
            assert(bytes@.skip(j as int)[0] == bytes@[j as int]);
            assert(bytes@.skip(j as int).len() == 1);
        }
        if !check_ascending(&tokens) {
            proof {
                match parse_records(bytes@.skip(1)) {
                    Some(q) => {
                        assert(tokens.deep_view() =~= q.0);
                    },
                    None => {},
                }
            }
            return Err(VocabError::new("Token IDs must be unique and ascending."));
        }
        if !check_no_dup(&tokens) {
            proof {
                match parse_records(bytes@.skip(1)) {
                    Some(q) => {
                        assert(tokens.deep_view() =~= q.0);
                    },
                    None => {},
                }
            }
            return Err(VocabError::new("Duplicate token records."));
        }
        proof {
            match parse_records(bytes@.skip(1)) {
                Some(q) => {
                    assert(tokens.deep_view() =~= q.0);
                },
                None => {},
            }
        }
        let v = Vocabulary::from_tokens(tokens);
        Ok(v)
    }
}

} // verus!
