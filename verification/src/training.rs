use vstd::prelude::*;

use crate::error::TrainingError;
use crate::token::{Token, TokenModel, concat_bytes, copy_bytes};
use crate::vocabulary::{
    Edit, Vocabulary, base_tokens, has_id, id_fresh, insert_pos, lemma_insert_pos_bounds,
    lemma_insert_pos_unique, spec_last_id, text_pair_fresh, token_with_id,
};
use crate::word::{
    Word, WordModel, bytes_as_ids, corpus_words, lemma_bytes_as_ids_injective, lemma_dedup_count,
    lemma_dedup_distinct, lemma_dedup_push, lemma_count_in_push, letters_match, merge_seq, lemma_merge_seq_elems, models_table, saturated,
    dedup, count_in, split_line, split_words,
};
use core::marker::PhantomData;

verus! {

/// How often the adjacent pair `(a, b)` occurs in `s`, every position
/// counted (overlapping occurrences included).
pub open spec fn count_pairs(s: Seq<usize>, a: usize, b: usize) -> nat
    decreases s.len(),
{
    if s.len() < 2 {
        0
    } else {
        (if s[0] == a && s[1] == b {
            1nat
        } else {
            0nat
        }) + count_pairs(s.skip(1), a, b)
    }
}

/// The accumulated weight of the pair `(a, b)` over a word table: for each
/// occurrence of the pair in a word, that word's occurrence count.
pub open spec fn pair_weight(words: Seq<WordModel>, a: usize, b: usize) -> nat
    decreases words.len(),
{
    if words.len() == 0 {
        0
    } else {
        pair_weight(words.drop_last(), a, b) + (words.last().occurence_count as nat)
            * count_pairs(words.last().letters, a, b)
    }
}

/// How many times the pair `(a, b)` is enumerated over the whole table,
/// regardless of word occurrence counts.
pub open spec fn pair_count_total(words: Seq<WordModel>, a: usize, b: usize) -> nat
    decreases words.len(),
{
    if words.len() == 0 {
        0
    } else {
        pair_count_total(words.drop_last(), a, b) + count_pairs(words.last().letters, a, b)
    }
}

/// The pair `(a, b)` stands adjacent somewhere in some word of the table.
pub open spec fn pair_present(words: Seq<WordModel>, a: usize, b: usize) -> bool {
    exists|k: int, i: int|
        0 <= k < words.len() && 0 <= i && i + 1 < words[k].letters.len()
            && (#[trigger] words[k].letters[i]) == a && words[k].letters[i + 1] == b
}

/// Some word still offers an adjacent pair (that is, has length above one).
pub open spec fn any_pair(words: Seq<WordModel>) -> bool {
    exists|a: usize, b: usize| #[trigger] pair_present(words, a, b)
}

/// The saturated pair weight, as the trainer accumulates it at runtime.
pub open spec fn sat_weight(words: Seq<WordModel>, a: usize, b: usize) -> usize {
    saturated(pair_weight(words, a, b))
}

/// Lexicographic order on pairs: the deterministic tie-break rule.
pub open spec fn pair_lex_le(a1: usize, b1: usize, a2: usize, b2: usize) -> bool {
    a1 < a2 || (a1 == a2 && b1 <= b2)
}

/// The pair the trainer selects: present, of maximal accumulated weight,
/// and lexicographically smallest among the maximal ones.
pub open spec fn is_best_pair(words: Seq<WordModel>, a: usize, b: usize) -> bool {
    &&& pair_present(words, a, b)
    &&& forall|c: usize, d: usize|
        #[trigger] pair_present(words, c, d) ==> sat_weight(words, c, d) < sat_weight(
            words,
            a,
            b,
        ) || (sat_weight(words, c, d) == sat_weight(words, a, b) && pair_lex_le(a, b, c, d))
}

/// The selected pair (unique whenever any pair is present).
pub open spec fn best_pair(words: Seq<WordModel>) -> (usize, usize) {
    choose|p: (usize, usize)| is_best_pair(words, p.0, p.1)
}

pub proof fn lemma_best_pair_unique(words: Seq<WordModel>, a: usize, b: usize)
    requires
        is_best_pair(words, a, b),
    ensures
        best_pair(words) == (a, b),
{
    assert(is_best_pair(words, (a, b).0, (a, b).1));
    let p = choose|p: (usize, usize)| is_best_pair(words, p.0, p.1);
    assert(is_best_pair(words, p.0, p.1));
    assert(pair_present(words, p.0, p.1));
    assert(pair_present(words, a, b));
    assert(sat_weight(words, p.0, p.1) == sat_weight(words, a, b));
    assert(pair_lex_le(a, b, p.0, p.1));
    assert(pair_lex_le(p.0, p.1, a, b));
    assert(p.0 == a && p.1 == b);
}

pub proof fn lemma_count_pairs_push(s: Seq<usize>, x: usize, a: usize, b: usize)
    ensures
        count_pairs(s.push(x), a, b) == count_pairs(s, a, b) + (if s.len() >= 1 && s.last() == a
            && x == b {
            1nat
        } else {
            0nat
        }),
    decreases s.len(),
{
    if s.len() == 0 {
        assert(s.push(x).len() == 1);
    } else {
        lemma_count_pairs_push(s.skip(1), x, a, b);
        assert(s.push(x).skip(1) =~= s.skip(1).push(x));
        assert(s.push(x)[0] == s[0]);
        assert(s.push(x)[1] == s[1] || s.len() == 1);
        if s.len() == 1 {
            assert(s.push(x)[1] == x);
            assert(s.last() == s[0]);
        }
    }
}

pub proof fn lemma_count_pairs_positive(s: Seq<usize>, a: usize, b: usize)
    ensures
        (count_pairs(s, a, b) > 0) <==> (exists|i: int|
            0 <= i && i + 1 < s.len() && (#[trigger] s[i]) == a && s[i + 1] == b),
    decreases s.len(),
{
    if s.len() < 2 {
    } else {
        lemma_count_pairs_positive(s.skip(1), a, b);
        if count_pairs(s, a, b) > 0 {
            if s[0] == a && s[1] == b {
                let i0: int = 0;
                assert(0 <= i0 && i0 + 1 < s.len() && s[i0] == a && s[i0 + 1] == b);
            } else {
                let i = choose|i: int|
                    0 <= i && i + 1 < s.skip(1).len() && (#[trigger] s.skip(1)[i]) == a
                        && s.skip(1)[i + 1] == b;
                assert(s[i + 1] == s.skip(1)[i]);
                assert(s[i + 2] == s.skip(1)[i + 1]);
                assert(0 <= i + 1 && (i + 1) + 1 < s.len() && s[i + 1] == a && s[(i + 1) + 1]
                    == b);
            }
        }
        if exists|i: int| 0 <= i && i + 1 < s.len() && (#[trigger] s[i]) == a && s[i + 1] == b {
            let i = choose|i: int|
                0 <= i && i + 1 < s.len() && (#[trigger] s[i]) == a && s[i + 1] == b;
            if i == 0 {
                assert(count_pairs(s, a, b) > 0);
            } else {
                assert(s.skip(1)[i - 1] == s[i]);
                assert(s.skip(1)[i] == s[i + 1]);
                assert(0 <= i - 1 && (i - 1) + 1 < s.skip(1).len() && s.skip(1)[i - 1] == a
                    && s.skip(1)[(i - 1) + 1] == b);
                assert(count_pairs(s.skip(1), a, b) > 0);
            }
        }
    }
}

pub proof fn lemma_pair_present_count(words: Seq<WordModel>, a: usize, b: usize)
    ensures
        (pair_count_total(words, a, b) > 0) <==> pair_present(words, a, b),
    decreases words.len(),
{
    if words.len() == 0 {
    } else {
        let rest = words.drop_last();
        lemma_pair_present_count(rest, a, b);
        lemma_count_pairs_positive(words.last().letters, a, b);
        if pair_count_total(words, a, b) > 0 {
            if pair_count_total(rest, a, b) > 0 {
                let (k, i) = choose|k: int, i: int|
                    0 <= k < rest.len() && 0 <= i && i + 1 < rest[k].letters.len()
                        && (#[trigger] rest[k].letters[i]) == a && rest[k].letters[i + 1] == b;
                assert(words[k] == rest[k]);
                assert(0 <= k < words.len() && 0 <= i && i + 1 < words[k].letters.len()
                    && words[k].letters[i] == a && words[k].letters[i + 1] == b);
            } else {
                let i = choose|i: int|
                    0 <= i && i + 1 < words.last().letters.len()
                        && (#[trigger] words.last().letters[i]) == a
                        && words.last().letters[i + 1] == b;
                let k = words.len() - 1;
                assert(words[k] == words.last());
                assert(0 <= k < words.len() && 0 <= i && i + 1 < words[k].letters.len()
                    && words[k].letters[i] == a && words[k].letters[i + 1] == b);
            }
        }
        if pair_present(words, a, b) {
            let (k, i) = choose|k: int, i: int|
                0 <= k < words.len() && 0 <= i && i + 1 < words[k].letters.len()
                    && (#[trigger] words[k].letters[i]) == a && words[k].letters[i + 1] == b;
            if k < words.len() - 1 {
                assert(rest[k] == words[k]);
                assert(0 <= k < rest.len() && 0 <= i && i + 1 < rest[k].letters.len()
                    && rest[k].letters[i] == a && rest[k].letters[i + 1] == b);
                assert(pair_count_total(rest, a, b) > 0);
            } else {
                assert(words[k] == words.last());
                assert(count_pairs(words.last().letters, a, b) > 0);
            }
        }
    }
}

/// A pair whose enumeration count is zero accumulates zero weight.
pub proof fn lemma_weight_zero(words: Seq<WordModel>, a: usize, b: usize)
    requires
        pair_count_total(words, a, b) == 0,
    ensures
        pair_weight(words, a, b) == 0,
    decreases words.len(),
{
    if words.len() == 0 {
    } else {
        lemma_weight_zero(words.drop_last(), a, b);
        assert(count_pairs(words.last().letters, a, b) == 0);
    }
}

/// Saturating a partial sum before adding more loses nothing.
pub proof fn lemma_sat_add(x: nat, d: usize)
    ensures
        saturated((saturated(x) + d) as nat) == saturated(x + (d as nat)),
{
    if x > usize::MAX {
        assert(saturated(x) == usize::MAX);
    }
}

/// One entry of the round-scoped pair-weight table.
#[derive(Clone, Copy)]
pub(crate) struct PairCount {
    pub(crate) first: usize,
    pub(crate) second: usize,
    pub(crate) weight: usize,
}

pub(crate) open spec fn pc_has(t: Seq<PairCount>, a: usize, b: usize) -> bool {
    exists|i: int| 0 <= i < t.len() && (#[trigger] t[i]).first == a && t[i].second == b
}

pub(crate) open spec fn pc_distinct(t: Seq<PairCount>) -> bool {
    forall|i: int, j: int|
        0 <= i < j < t.len() ==> !(t[i].first == t[j].first && t[i].second == t[j].second)
}

pub(crate) open spec fn pc_weight(t: Seq<PairCount>, a: usize, b: usize) -> usize {
    t[choose|i: int| 0 <= i < t.len() && (#[trigger] t[i]).first == a && t[i].second == b].weight
}

proof fn lemma_pc_weight_at(t: Seq<PairCount>, i: int)
    requires
        pc_distinct(t),
        0 <= i < t.len(),
    ensures
        pc_has(t, t[i].first, t[i].second),
        pc_weight(t, t[i].first, t[i].second) == t[i].weight,
{
    let a = t[i].first;
    let b = t[i].second;
    assert(0 <= i < t.len() && t[i].first == a && t[i].second == b);
    let w = choose|j: int| 0 <= j < t.len() && (#[trigger] t[j]).first == a && t[j].second == b;
    if w != i {
        assert(!(t[if w < i {
            w
        } else {
            i
        }].first == t[if w < i {
            i
        } else {
            w
        }].first && t[if w < i {
            w
        } else {
            i
        }].second == t[if w < i {
            i
        } else {
            w
        }].second));
    }
}

proof fn lemma_pc_update(t: Seq<PairCount>, idx: int, e: PairCount)
    requires
        pc_distinct(t),
        0 <= idx < t.len(),
        e.first == t[idx].first,
        e.second == t[idx].second,
    ensures
        pc_distinct(t.update(idx, e)),
        forall|c: usize, d: usize|
            #[trigger] pc_has(t.update(idx, e), c, d) <==> pc_has(t, c, d),
        forall|c: usize, d: usize|
            pc_has(t, c, d) && !(c == e.first && d == e.second) ==> #[trigger] pc_weight(
                t.update(idx, e),
                c,
                d,
            ) == pc_weight(t, c, d),
        pc_weight(t.update(idx, e), e.first, e.second) == e.weight,
{
    let t2 = t.update(idx, e);
    assert forall|c: usize, d: usize| #[trigger] pc_has(t2, c, d) implies pc_has(t, c, d) by {
        let i = choose|i: int| 0 <= i < t2.len() && (#[trigger] t2[i]).first == c && t2[i].second == d;
        if i == idx {
            assert(t[idx].first == c && t[idx].second == d);
        } else {
            assert(t[i].first == c && t[i].second == d);
        }
    }
    assert forall|c: usize, d: usize| pc_has(t, c, d) implies #[trigger] pc_has(t2, c, d) by {
        let i = choose|i: int| 0 <= i < t.len() && (#[trigger] t[i]).first == c && t[i].second == d;
        if i == idx {
            assert(t2[idx].first == c && t2[idx].second == d);
        } else {
            assert(t2[i].first == c && t2[i].second == d);
        }
    }
    assert forall|c: usize, d: usize|
        pc_has(t, c, d) && !(c == e.first && d == e.second) implies #[trigger] pc_weight(
        t2,
        c,
        d,
    ) == pc_weight(t, c, d) by {
        let i = choose|i: int| 0 <= i < t.len() && (#[trigger] t[i]).first == c && t[i].second == d;
        assert(i != idx);
        assert(t2[i].first == c && t2[i].second == d);
        lemma_pc_weight_at(t, i);
        let j = choose|j: int| 0 <= j < t2.len() && (#[trigger] t2[j]).first == c && t2[j].second == d;
        assert(j != idx);
        assert(t[j].first == c && t[j].second == d);
        if j != i {
            assert(!(t[if j < i {
                j
            } else {
                i
            }].first == t[if j < i {
                i
            } else {
                j
            }].first && t[if j < i {
                j
            } else {
                i
            }].second == t[if j < i {
                i
            } else {
                j
            }].second));
        }
    }
    assert(pc_distinct(t2)) by {
        assert forall|i: int, j: int| 0 <= i < j < t2.len() implies !(t2[i].first == t2[j].first
            && t2[i].second == t2[j].second) by {
            assert(t2[i] == t[i] || i == idx);
            assert(t2[j] == t[j] || j == idx);
            assert(t2[i].first == t[i].first && t2[i].second == t[i].second);
            assert(t2[j].first == t[j].first && t2[j].second == t[j].second);
        }
    }
    assert(pc_weight(t2, e.first, e.second) == e.weight) by {
        assert(pc_distinct(t2));
        assert(t2[idx] == e);
        lemma_pc_weight_at(t2, idx);
    }
}

proof fn lemma_pc_push(t: Seq<PairCount>, e: PairCount)
    requires
        pc_distinct(t),
        !pc_has(t, e.first, e.second),
    ensures
        pc_distinct(t.push(e)),
        forall|c: usize, d: usize|
            #[trigger] pc_has(t.push(e), c, d) <==> (pc_has(t, c, d) || (c == e.first && d
                == e.second)),
        forall|c: usize, d: usize|
            pc_has(t, c, d) ==> #[trigger] pc_weight(t.push(e), c, d) == pc_weight(t, c, d),
        pc_weight(t.push(e), e.first, e.second) == e.weight,
{
    let t2 = t.push(e);
    assert(t2[t.len() as int] == e);
    assert forall|c: usize, d: usize| #[trigger] pc_has(t2, c, d) implies (pc_has(t, c, d) || (c
        == e.first && d == e.second)) by {
        let i = choose|i: int| 0 <= i < t2.len() && (#[trigger] t2[i]).first == c && t2[i].second == d;
        if i < t.len() {
            assert(t[i].first == c && t[i].second == d);
        }
    }
    assert forall|c: usize, d: usize|
        pc_has(t, c, d) || (c == e.first && d == e.second) implies #[trigger] pc_has(
        t2,
        c,
        d,
    ) by {
        if pc_has(t, c, d) {
            let i = choose|i: int| 0 <= i < t.len() && (#[trigger] t[i]).first == c && t[i].second == d;
            assert(t2[i].first == c && t2[i].second == d);
        } else {
            assert(t2[t.len() as int].first == c && t2[t.len() as int].second == d);
        }
    }
    assert(pc_distinct(t2)) by {
        assert forall|i: int, j: int| 0 <= i < j < t2.len() implies !(t2[i].first == t2[j].first
            && t2[i].second == t2[j].second) by {
            if j < t.len() {
            } else {
                assert(t2[j] == e);
                if t2[i].first == e.first && t2[i].second == e.second {
                    assert(t[i].first == e.first && t[i].second == e.second);
                    assert(pc_has(t, e.first, e.second));
                }
            }
        }
    }
    assert forall|c: usize, d: usize| pc_has(t, c, d) implies #[trigger] pc_weight(t2, c, d)
        == pc_weight(t, c, d) by {
        let i = choose|i: int| 0 <= i < t.len() && (#[trigger] t[i]).first == c && t[i].second == d;
        assert(t2[i].first == c && t2[i].second == d);
        lemma_pc_weight_at(t, i);
        lemma_pc_weight_at(t2, i);
    }
    lemma_pc_weight_at(t2, t.len() as int);
}

/// Linear scan for the table entry of the pair `(a, b)`.
pub(crate) fn find_pc(t: &Vec<PairCount>, a: usize, b: usize) -> (r: Option<usize>)
    ensures
        match r {
            Some(i) => 0 <= i < t@.len() && t@[i as int].first == a && t@[i as int].second == b,
            None => !pc_has(t@, a, b),
        },
{
    let mut i: usize = 0;
    while i < t.len()
        invariant
            i <= t@.len(),
            forall|j: int| 0 <= j < i ==> !((#[trigger] t@[j]).first == a && t@[j].second == b),
        decreases t.len() - i,
    {
        if t[i].first == a && t[i].second == b {
            return Some(i);
        }
        i = i + 1;
    }
    None
}

/// Saturating accumulation of a pair weight.
pub(crate) fn sat_add(w: usize, d: usize) -> (r: usize)
    ensures
        r == saturated((w + d) as nat),
{
    if w <= usize::MAX - d {
        w + d
    } else {
        usize::MAX
    }
}

/// One full pair-counting pass over the word table: every adjacent pair of
/// every word accumulates that word's occurrence count into the
/// round-scoped pair-weight table.
pub(crate) fn count_pair_weights(words: &Vec<Word>) -> (r: Vec<PairCount>)
    ensures
        pc_distinct(r@),
        forall|a: usize, b: usize|
            #[trigger] pc_has(r@, a, b) ==> pair_present(words.deep_view(), a, b) && pc_weight(
                r@,
                a,
                b,
            ) == sat_weight(words.deep_view(), a, b),
        forall|a: usize, b: usize|
            #[trigger] pair_present(words.deep_view(), a, b) ==> pc_has(r@, a, b),
{
    let ghost dv = words.deep_view();
    let mut table: Vec<PairCount> = Vec::new();
    let mut k: usize = 0;
    proof {
        assert(dv.take(0) =~= Seq::<WordModel>::empty());
    }
    while k < words.len()
        invariant
            k <= dv.len(),
            dv == words.deep_view(),
            dv.len() == words@.len(),
            pc_distinct(table@),
            forall|a: usize, b: usize|
                #[trigger] pc_has(table@, a, b) ==> pair_count_total(dv.take(k as int), a, b) > 0
                    && pc_weight(table@, a, b) == saturated(
                    pair_weight(dv.take(k as int), a, b),
                ),
            forall|a: usize, b: usize|
                #[trigger] pair_count_total(dv.take(k as int), a, b) > 0 ==> pc_has(table@, a, b),
        decreases dv.len() - k,
    {
        let ghost s = dv[k as int].letters;
        let occ = words[k].occurence_count;
        let n = words[k].letters.len();
        proof {
            assert(words@[k as int]@ == dv[k as int]);
            assert(n == s.len());
            assert(occ == dv[k as int].occurence_count);
        }
        if n >= 2 {
            let mut i: usize = 0;
            while i + 1 < n
                invariant
                    i < n,
                    k < dv.len(),
                    n == s.len(),
                    s == dv[k as int].letters,
                    dv == words.deep_view(),
                    dv.len() == words@.len(),
                    occ == dv[k as int].occurence_count,
                    pc_distinct(table@),
                    forall|a: usize, b: usize|
                        #[trigger] pc_has(table@, a, b) ==> pair_count_total(
                            dv.take(k as int),
                            a,
                            b,
                        ) + count_pairs(s.take(i as int + 1), a, b) > 0 && pc_weight(table@, a, b)
                            == saturated(
                            pair_weight(dv.take(k as int), a, b) + (occ as nat) * count_pairs(
                                s.take(i as int + 1),
                                a,
                                b,
                            ),
                        ),
                    forall|a: usize, b: usize|
                        #![trigger count_pairs(s.take(i as int + 1), a, b)]
                        pair_count_total(dv.take(k as int), a, b) + count_pairs(
                            s.take(i as int + 1),
                            a,
                            b,
                        ) > 0 ==> pc_has(table@, a, b),
                decreases n - i,
            {
                let a = words[k].letters[i];
                let b = words[k].letters[i + 1];
                let ghost pre = table@;
                let ghost prefix = s.take(i as int + 1);
                proof {
                    assert(words@[k as int].letters@ == s);
                    assert(s[i as int] == a && s[i as int + 1] == b);
                    assert(s.take(i as int + 2) =~= prefix.push(s[i as int + 1]));
                    assert(prefix.len() == i + 1 >= 1);
                    assert(prefix.last() == s[i as int]);
                    assert forall|c: usize, d: usize|
                        #![trigger count_pairs(s.take(i as int + 2), c, d)]
                        count_pairs(s.take(i as int + 2), c, d) == count_pairs(prefix, c, d) + (
                        if c == a && d == b {
                            1nat
                        } else {
                            0nat
                        }) by {
                        lemma_count_pairs_push(prefix, s[i as int + 1], c, d);
                    }
                }
                match find_pc(&table, a, b) {
                    Some(idx) => {
                        let e = table[idx];
                        let w2 = sat_add(e.weight, occ);
                        let e2 = PairCount { first: e.first, second: e.second, weight: w2 };
                        table.set(idx, e2);
                        proof {
                            lemma_pc_weight_at(pre, idx as int);
                            lemma_pc_update(pre, idx as int, e2);
                            let cw = pair_weight(dv.take(k as int), a, b);
                            let cc = count_pairs(prefix, a, b);
                            assert(e.weight == saturated(cw + (occ as nat) * cc));
                            lemma_sat_add(cw + (occ as nat) * cc, occ);
                            assert((occ as nat) * (cc + 1) == (occ as nat) * cc + occ)
                                by (nonlinear_arith);
                            assert(count_pairs(s.take(i as int + 2), a, b) == cc + 1);
                            assert(pc_weight(table@, a, b) == saturated(
                                cw + (occ as nat) * count_pairs(s.take(i as int + 2), a, b),
                            ));
                        }
                    },
                    None => {
                        let e = PairCount { first: a, second: b, weight: occ };
                        table.push(e);
                        proof {
                            assert(pair_count_total(dv.take(k as int), a, b) + count_pairs(
                                prefix,
                                a,
                                b,
                            ) == 0);
                            lemma_weight_zero(dv.take(k as int), a, b);
                            lemma_pc_push(pre, e);
                            assert(count_pairs(s.take(i as int + 2), a, b) == 1);
                            assert((occ as nat) * 1nat == occ as nat) by (nonlinear_arith);
                            assert(saturated(
                                pair_weight(dv.take(k as int), a, b) + (occ as nat) * count_pairs(
                                    s.take(i as int + 2),
                                    a,
                                    b,
                                ),
                            ) == occ);
                        }
                    },
                }
                i = i + 1;
            }
            proof {
                assert(s.take(i as int + 1) =~= s);
            }
        } else {
            proof {
                assert forall|a: usize, b: usize|
                    #![trigger count_pairs(s, a, b)]
                    count_pairs(s, a, b) == 0 by {
                    assert(s.len() < 2);
                }
            }
        }
        proof {
            assert(dv.take(k as int + 1).drop_last() =~= dv.take(k as int));
            assert(dv.take(k as int + 1).last() == dv[k as int]);
            assert forall|a: usize, b: usize|
                #![trigger pair_count_total(dv.take(k as int + 1), a, b)]
                pair_count_total(dv.take(k as int + 1), a, b) == pair_count_total(
                dv.take(k as int),
                a,
                b,
            ) + count_pairs(s, a, b) && pair_weight(dv.take(k as int + 1), a, b) == pair_weight(
                dv.take(k as int),
                a,
                b,
            ) + (occ as nat) * count_pairs(s, a, b) by {
                assert(pair_count_total(dv.take(k as int + 1), a, b) == pair_count_total(
                    dv.take(k as int + 1).drop_last(),
                    a,
                    b,
                ) + count_pairs(dv.take(k as int + 1).last().letters, a, b));
                assert(pair_weight(dv.take(k as int + 1), a, b) == pair_weight(
                    dv.take(k as int + 1).drop_last(),
                    a,
                    b,
                ) + (dv.take(k as int + 1).last().occurence_count as nat) * count_pairs(
                    dv.take(k as int + 1).last().letters,
                    a,
                    b,
                ));
            }
            if n < 2 {
                assert forall|a: usize, b: usize| #[trigger] pc_has(table@, a, b) implies
                    pair_count_total(dv.take(k as int + 1), a, b) > 0 && pc_weight(table@, a, b)
                        == saturated(pair_weight(dv.take(k as int + 1), a, b)) by {
                    assert(count_pairs(s, a, b) == 0);
                }
                assert forall|a: usize, b: usize|
                    #[trigger] pair_count_total(dv.take(k as int + 1), a, b) > 0 implies pc_has(
                    table@,
                    a,
                    b,
                ) by {
                    assert(count_pairs(s, a, b) == 0);
                }
            }
        }
        k = k + 1;
    }
    proof {
        assert(dv.take(dv.len() as int) =~= dv);
        assert forall|a: usize, b: usize| #[trigger] pc_has(table@, a, b) implies pair_present(
            dv,
            a,
            b,
        ) && pc_weight(table@, a, b) == sat_weight(dv, a, b) by {
            lemma_pair_present_count(dv, a, b);
        }
        assert forall|a: usize, b: usize| #[trigger] pair_present(dv, a, b) implies pc_has(
            table@,
            a,
            b,
        ) by {
            lemma_pair_present_count(dv, a, b);
        }
    }
    table
}

/// Select the pair of maximal accumulated weight, ties broken by the
/// lexicographically smallest pair.
pub(crate) fn select_best(t: &Vec<PairCount>) -> (r: Option<(usize, usize)>)
    requires
        pc_distinct(t@),
    ensures
        match r {
            Some(p) => pc_has(t@, p.0, p.1) && forall|j: int|
                0 <= j < t@.len() ==> ((#[trigger] t@[j]).weight < pc_weight(t@, p.0, p.1) || (
                t@[j].weight == pc_weight(t@, p.0, p.1) && pair_lex_le(
                    p.0,
                    p.1,
                    t@[j].first,
                    t@[j].second,
                ))),
            None => t@.len() == 0,
        },
{
    if t.len() == 0 {
        return None;
    }
    let mut best = t[0];
    let ghost mut bi: int = 0;
    let mut j: usize = 1;
    while j < t.len()
        invariant
            1 <= j <= t@.len(),
            0 <= bi < t@.len(),
            t@[bi] == best,
            pc_distinct(t@),
            forall|m: int|
                0 <= m < j ==> ((#[trigger] t@[m]).weight < best.weight || (t@[m].weight
                    == best.weight && pair_lex_le(best.first, best.second, t@[m].first,
                t@[m].second))),
        decreases t.len() - j,
    {
        let e = t[j];
        if e.weight > best.weight || (e.weight == best.weight && (e.first < best.first || (e.first
            == best.first && e.second < best.second))) {
            best = e;
            proof {
                bi = j as int;
            }
        }
        j = j + 1;
    }
    proof {
        lemma_pc_weight_at(t@, bi);
    }
    Some((best.first, best.second))
}

/// Text of the token of `ts` with ID `id`.
pub open spec fn text_of(ts: Seq<TokenModel>, id: usize) -> Seq<u8> {
    token_with_id(ts, id).text
}

/// The token one round constructs from the selected pair: the next ID, the
/// concatenated parent texts, the pair itself, the pair's accumulated
/// weight.
pub open spec fn merged_token(
    words: Seq<WordModel>,
    ts: Seq<TokenModel>,
    a: usize,
    b: usize,
) -> TokenModel {
    TokenModel {
        text: text_of(ts, a) + text_of(ts, b),
        token_id: ((spec_last_id(ts) + 1) as usize),
        pair: Some((a, b)),
        occurrences: sat_weight(words, a, b),
    }
}

/// Every word rewritten by one greedy pass over the merged pair.
pub open spec fn rewrite_words(
    words: Seq<WordModel>,
    a: usize,
    b: usize,
    nid: usize,
) -> Seq<WordModel> {
    words.map(
        |i: int, w: WordModel|
            WordModel {
                letters: merge_seq(w.letters, a, b, nid),
                occurence_count: w.occurence_count,
            },
    )
}

/// One training round: if no word offers an adjacent pair, nothing
/// changes; otherwise the best pair's token is appended (unless it
/// duplicates an existing one) and every word is rewritten.
pub open spec fn merge_round(words: Seq<WordModel>, ts: Seq<TokenModel>) -> (
    Seq<WordModel>,
    Seq<TokenModel>,
) {
    if !any_pair(words) {
        (words, ts)
    } else {
        let p = best_pair(words);
        let t = merged_token(words, ts, p.0, p.1);
        if id_fresh(ts, t.token_id) && text_pair_fresh(ts, t) {
            (
                rewrite_words(words, p.0, p.1, t.token_id),
                ts.insert(insert_pos(ts, t.token_id), t),
            )
        } else {
            (words, ts)
        }
    }
}

/// One round grows the vocabulary by at most one token, and never shrinks
/// it.
pub proof fn lemma_merge_round_len(words: Seq<WordModel>, ts: Seq<TokenModel>)
    ensures
        merge_round(words, ts).1.len() == ts.len() || merge_round(words, ts).1.len() == ts.len()
            + 1,
{
    if any_pair(words) {
        let p = best_pair(words);
        let t = merged_token(words, ts, p.0, p.1);
        if id_fresh(ts, t.token_id) && text_pair_fresh(ts, t) {
            lemma_insert_pos_bounds(ts, t.token_id);
        }
    }
}

/// The whole training loop: rounds repeat until the vocabulary reaches the
/// target size or a full round brings no growth, whichever comes first.
pub open spec fn train(words: Seq<WordModel>, ts: Seq<TokenModel>, limit: usize) -> (
    Seq<WordModel>,
    Seq<TokenModel>,
)
    decreases limit - ts.len(),
    via train_decreases
{
    if ts.len() >= limit {
        (words, ts)
    } else {
        let r = merge_round(words, ts);
        if r.1.len() == ts.len() {
            r
        } else {
            train(r.0, r.1, limit)
        }
    }
}

#[via_fn]
proof fn train_decreases(words: Seq<WordModel>, ts: Seq<TokenModel>, limit: usize) {
    if ts.len() < limit {
        lemma_merge_round_len(words, ts);
    }
}

/// Token IDs run 0, 1, 2, ... without gaps, as monotonic allocation
/// leaves them.
pub open spec fn ids_consecutive(ts: Seq<TokenModel>) -> bool {
    forall|i: int| 0 <= i < ts.len() ==> (#[trigger] ts[i]).token_id == i
}

/// Every symbol of every word names a token of the store.
pub open spec fn symbols_resolve(words: Seq<WordModel>, ts: Seq<TokenModel>) -> bool {
    forall|k: int, i: int|
        0 <= k < words.len() && 0 <= i < words[k].letters.len() ==> has_id(
            ts,
            #[trigger] words[k].letters[i],
        )
}

/// An ingested word table speaks only in byte values, so a vocabulary
/// seeded with the 256 base tokens resolves every symbol it uses.
pub proof fn lemma_fresh_table_resolves(
    words: Seq<WordModel>,
    ws: Seq<Seq<u8>>,
    ts: Seq<TokenModel>,
)
    requires
        models_table(words, ws),
        base_tokens(ts),
    ensures
        symbols_resolve(words, ts),
{
    assert forall|k: int, i: int|
        0 <= k < words.len() && 0 <= i < words[k].letters.len() implies has_id(
        ts,
        #[trigger] words[k].letters[i],
    ) by {
        let d = dedup(ws);
        assert(words[k].letters == bytes_as_ids(d[k]));
        assert(words[k].letters[i] == d[k][i] as usize);
        let v = words[k].letters[i];
        assert(v < 256);
        assert(ts[v as int].token_id == v);
    }
}

/// The target vocabulary size used when none is given.
pub const DEFAULT_TOKEN_LIMIT: usize = 10000;

/// Phase tag: the trainer is created but has not read the corpus yet.
pub struct Initialized;

/// Phase tag: the corpus is ingested; the word table is frozen.
pub struct DoneReading;

/// Phase tag: the merge loop has run to completion.
pub struct Finished;

/// The merge trainer: a builder vocabulary seeded with the base tokens,
/// the word frequency table, and the target vocabulary size.
pub struct Training<S> {
    pub state: PhantomData<S>,
    pub vocabulary: Vocabulary<Edit>,
    pub word_data: Vec<Word>,
    pub token_limit: usize,
}

impl<S> Training<S> {
    /// A fresh trainer: base vocabulary, empty word table, and the given
    /// target size (or the default).
    pub fn new(token_limit: Option<usize>) -> (t: Training<Initialized>)
        ensures
            base_tokens(t.vocabulary@),
            t.vocabulary.wf(),
            ids_consecutive(t.vocabulary@),
            t.word_data@.len() == 0,
            t.token_limit == (match token_limit {
                Some(l) => l,
                None => DEFAULT_TOKEN_LIMIT,
            }),
    {
        Training {
            state: PhantomData,
            vocabulary: Vocabulary::<Edit>::new(),
            word_data: Vec::new(),
            token_limit: match token_limit {
                Some(l) => l,
                None => DEFAULT_TOKEN_LIMIT,
            },
        }
    }
}

/// Record one sighting of word `w`: bump its table entry's occurrence
/// (saturating at the machine word), or append a fresh entry at the end.
fn record_word(words: &mut Vec<Word>, w: &Vec<u8>, Ghost(seen): Ghost<Seq<Seq<u8>>>)
    requires
        models_table(old(words).deep_view(), seen),
    ensures
        models_table(final(words).deep_view(), seen.push(w@)),
{
    let ghost d = dedup(seen);
    let ghost d2 = dedup(seen.push(w@));
    proof {
        lemma_dedup_push(seen, w@);
        lemma_dedup_distinct(seen);
    }
    let mut k: usize = 0;
    while k < words.len()
        invariant
            k <= words@.len(),
            models_table(words.deep_view(), seen),
            d == dedup(seen),
            d2 == dedup(seen.push(w@)),
            forall|j: int|
                0 <= j < k ==> (#[trigger] words.deep_view()[j]).letters != bytes_as_ids(w@),
        decreases words.len() - k,
    {
        if letters_match(&words[k].letters, w) {
            let ghost pre_dv = words.deep_view();
            proof {
                lemma_dedup_push(seen, w@);
                lemma_dedup_distinct(seen);
                assert(words@[k as int]@ == pre_dv[k as int]);
                assert(pre_dv[k as int].letters == bytes_as_ids(d[k as int]));
                lemma_bytes_as_ids_injective(d[k as int], w@);
                assert(d[k as int] == w@);
                assert(d.contains(w@));
                assert(d2 == d);
            }
            let mut e = words.remove(k);
            if e.occurence_count < usize::MAX {
                e.occurence_count = e.occurence_count + 1;
            }
            words.insert(k, e);
            proof {
                assert(words.deep_view() =~= pre_dv.update(k as int, e@));
                let s2 = seen.push(w@);
                assert forall|j: int|
                    0 <= j < words.deep_view().len() implies (#[trigger] words.deep_view()[j]).letters
                    == bytes_as_ids(d2[j]) && words.deep_view()[j].occurence_count == saturated(
                    count_in(s2, d2[j]),
                ) by {
                    lemma_count_in_push(seen, w@, d2[j]);
                    if j == k {
                        let c = count_in(seen, w@);
                        assert(pre_dv[j].occurence_count == saturated(c));
                        if pre_dv[j].occurence_count < usize::MAX {
                            assert(c < usize::MAX);
                            assert(saturated(c + 1) == c + 1);
                        } else {
                            assert(c >= usize::MAX);
                            assert(saturated(c + 1) == usize::MAX);
                        }
                    } else {
                        assert(d2[j] != w@);
                    }
                }
            }
            return;
        }
        k = k + 1;
    }
    proof {
        lemma_dedup_push(seen, w@);
        lemma_dedup_distinct(seen);
        if d.contains(w@) {
            let j = choose|j: int| 0 <= j < d.len() && d[j] == w@;
            assert(words.deep_view()[j].letters == bytes_as_ids(d[j]));
        }
        assert(!d.contains(w@));
        lemma_dedup_count(seen, w@);
        assert(count_in(seen, w@) == 0);
        assert(d2 == d.push(w@));
    }
    let ghost pre_dv = words.deep_view();
    let e = Word::new(w, None);
    words.push(e);
    proof {
        assert(words.deep_view() =~= pre_dv.push(e@));
        let s2 = seen.push(w@);
        assert forall|j: int|
            0 <= j < words.deep_view().len() implies (#[trigger] words.deep_view()[j]).letters
            == bytes_as_ids(d2[j]) && words.deep_view()[j].occurence_count == saturated(
            count_in(s2, d2[j]),
        ) by {
            lemma_count_in_push(seen, w@, d2[j]);
            if j < pre_dv.len() {
                assert(d2[j] == d[j]);
                assert(words.deep_view()[j] == pre_dv[j]);
                if d[j] == w@ {
                    assert(d.contains(w@));
                }
            } else {
                assert(d2[j] == w@);
                assert(words.deep_view()[j] == e@);
                assert(count_in(seen, w@) == 0);
            }
        }
    }
}

impl Training<Initialized> {
    /// Ingest the corpus: collapse its lines into the word frequency
    /// table, one entry per distinct whitespace-delimited word with its
    /// occurrence count. The caller reads the lines from their source; a
    /// source that fails mid-stream must abort before this step, so no
    /// partial table is ever built.
    pub fn start_training(self, lines: &Vec<Vec<u8>>) -> (t: Training<DoneReading>)
        ensures
            models_table(t.word_data.deep_view(), corpus_words(lines.deep_view())),
            t.vocabulary@ == self.vocabulary@,
            t.token_limit == self.token_limit,
    {
        let mut words: Vec<Word> = Vec::new();
        let ghost mut seen: Seq<Seq<u8>> = Seq::empty();
        let ghost ldv = lines.deep_view();
        proof {
            assert(ldv.take(0) =~= Seq::<Seq<u8>>::empty());
            assert(seen =~= corpus_words(ldv.take(0)));
        }
        let mut li: usize = 0;
        while li < lines.len()
            invariant
                li <= ldv.len(),
                ldv == lines.deep_view(),
                ldv.len() == lines@.len(),
                seen == corpus_words(ldv.take(li as int)),
                models_table(words.deep_view(), seen),
            decreases lines.len() - li,
        {
            let line_words = split_line(&lines[li]);
            proof {
                assert(lines@[li as int]@ == ldv[li as int]);
                assert(line_words.deep_view() == split_words(ldv[li as int]));
                assert(split_words(ldv[li as int]).take(0) =~= Seq::<Seq<u8>>::empty());
                assert(seen + split_words(ldv[li as int]).take(0) =~= seen);
            }
            let ghost line_start = seen;
            let mut wi: usize = 0;
            while wi < line_words.len()
                invariant
                    wi <= line_words@.len(),
                    line_words.deep_view() == split_words(ldv[li as int]),
                    line_words.deep_view().len() == line_words@.len(),
                    li < ldv.len(),
                    seen == line_start + split_words(ldv[li as int]).take(wi as int),
                    models_table(words.deep_view(), seen),
                decreases line_words.len() - wi,
            {
                record_word(&mut words, &line_words[wi], Ghost(seen));
                proof {
                    assert(line_words.deep_view()[wi as int] == line_words@[wi as int]@);
                    seen = seen.push(line_words@[wi as int]@);
                    assert(split_words(ldv[li as int]).take(wi as int + 1) =~= split_words(
                        ldv[li as int],
                    ).take(wi as int).push(line_words@[wi as int]@));
                    assert(seen =~= line_start + split_words(ldv[li as int]).take(wi as int + 1));
                }
                wi = wi + 1;
            }
            proof {
                assert(split_words(ldv[li as int]).take(wi as int) =~= split_words(
                    ldv[li as int],
                ));
                assert(ldv.take(li as int + 1).drop_last() =~= ldv.take(li as int));
                assert(ldv.take(li as int + 1).last() == ldv[li as int]);
                assert(corpus_words(ldv.take(li as int + 1)) == corpus_words(ldv.take(li as int))
                    + split_words(ldv[li as int]));
            }
            li = li + 1;
        }
        proof {
            assert(ldv.take(ldv.len() as int) =~= ldv);
        }
        Training {
            state: PhantomData,
            vocabulary: self.vocabulary,
            word_data: words,
            token_limit: self.token_limit,
        }
    }
}

impl Training<DoneReading> {
    /// Run the iterative merge loop to completion: round after round,
    /// count pair weights, append the best pair's token, rewrite the
    /// words; stop at the earlier of target size reached or a round with
    /// no growth.
    pub fn start_merge(self) -> (r: Result<Training<Finished>, TrainingError>)
        requires
            self.vocabulary.wf(),
            ids_consecutive(self.vocabulary@),
            self.vocabulary@.len() >= 1,
            symbols_resolve(self.word_data.deep_view(), self.vocabulary@),
        ensures
            r is Ok,
            r matches Ok(t) ==> {
                let tr = train(self.word_data.deep_view(), self.vocabulary@, self.token_limit);
                t.word_data.deep_view() == tr.0 && t.vocabulary@ == tr.1 && t.token_limit
                    == self.token_limit && t.vocabulary.wf()
            },
    {
        let Training { state: _, vocabulary: mut vocab, word_data: mut words, token_limit } = self;
        let ghost w0 = words.deep_view();
        let ghost t0 = vocab@;
        let mut done = false;
        while !done && vocab.token_count() < token_limit
            invariant
                vocab.wf(),
                ids_consecutive(vocab@),
                vocab@.len() >= 1,
                symbols_resolve(words.deep_view(), vocab@),
                train(w0, t0, token_limit) == train(words.deep_view(), vocab@, token_limit),
                done ==> train(words.deep_view(), vocab@, token_limit) == (
                    words.deep_view(),
                    vocab@,
                ),
            decreases
                    token_limit - vocab@.len() + (if done {
                        0int
                    } else {
                        1int
                    }),
        {
            let ghost pw = words.deep_view();
            let ghost pt = vocab@;
            let counts = count_pair_weights(&words);
            match select_best(&counts) {
                None => {
                    done = true;
                    proof {
                        if any_pair(pw) {
                            let (a, b) = choose|a: usize, b: usize|
                                #[trigger] pair_present(pw, a, b);
                            assert(pc_has(counts@, a, b));
                        }
                        assert(!any_pair(pw));
                        assert(merge_round(pw, pt) == (pw, pt));
                        assert(train(pw, pt, token_limit) == (pw, pt));
                    }
                },
                Some((a, b)) => {
                    proof {
                        assert(pc_has(counts@, a, b));
                        assert(pair_present(pw, a, b));
                        assert forall|c: usize, d: usize|
                            #[trigger] pair_present(pw, c, d) implies sat_weight(pw, c, d)
                            < sat_weight(pw, a, b) || (sat_weight(pw, c, d) == sat_weight(
                            pw,
                            a,
                            b,
                        ) && pair_lex_le(a, b, c, d)) by {
                            assert(pc_has(counts@, c, d));
                            let i = choose|i: int|
                                0 <= i < counts@.len() && (#[trigger] counts@[i]).first == c
                                    && counts@[i].second == d;
                            lemma_pc_weight_at(counts@, i);
                        }
                        assert(is_best_pair(pw, a, b));
                        lemma_best_pair_unique(pw, a, b);
                        let (k, i) = choose|k: int, i: int|
                            0 <= k < pw.len() && 0 <= i && i + 1 < pw[k].letters.len()
                                && (#[trigger] pw[k].letters[i]) == a && pw[k].letters[i + 1]
                                == b;
                        assert(has_id(pt, pw[k].letters[i]));
                        assert(has_id(pt, pw[k].letters[i + 1]));
                    }
                    let first_text = match vocab.find_token(a) {
                        Some(t) => copy_bytes(&t.token),
                        None => unreached(),
                    };
                    let second_text = match vocab.find_token(b) {
                        Some(t) => copy_bytes(&t.token),
                        None => unreached(),
                    };
                    let last = vocab.get_last_id();
                    proof {
                        assert(pt[pt.len() - 1].token_id == pt.len() - 1);
                    }
                    let tid = last + 1;
                    let widx = match find_pc(&counts, a, b) {
                        Some(i) => i,
                        None => unreached(),
                    };
                    let wt = counts[widx].weight;
                    proof {
                        lemma_pc_weight_at(counts@, widx as int);
                        assert(wt == sat_weight(pw, a, b));
                    }
                    let text = concat_bytes(first_text, &second_text);
                    let token = Token::new(text, tid, Some((a, b)), Some(wt));
                    proof {
                        assert(token@ == merged_token(pw, pt, a, b));
                    }
                    match vocab.add(token) {
                        Ok(_) => {
                            proof {
                                assert forall|j: int| 0 <= j < pt.len() implies (
                                #[trigger] pt[j]).token_id < tid by {}
                                lemma_insert_pos_unique(pt, tid, pt.len() as int);
                                assert(vocab@ == pt.insert(pt.len() as int, token@));
                                assert forall|j: int| 0 <= j < vocab@.len() implies (
                                #[trigger] vocab@[j]).token_id == j by {
                                    if j < pt.len() {
                                        assert(vocab@[j] == pt[j]);
                                    } else {
                                        assert(vocab@[j] == token@);
                                    }
                                }
                            }
                            let mut wi: usize = 0;
                            while wi < words.len()
                                invariant
                                    wi <= words@.len(),
                                    words.deep_view().len() == pw.len(),
                                    words@.len() == pw.len(),
                                    forall|j: int|
                                        0 <= j < wi ==> (#[trigger] words.deep_view()[j])
                                            == (WordModel {
                                            letters: merge_seq(pw[j].letters, a, b, tid),
                                            occurence_count: pw[j].occurence_count,
                                        }),
                                    forall|j: int|
                                        wi <= j < pw.len() ==> (#[trigger] words.deep_view()[j])
                                            == pw[j],
                                decreases words.len() - wi,
                            {
                                let ghost pre_dv = words.deep_view();
                                let mut e = words.remove(wi);
                                let ghost e0 = e@;
                                e.merge_letters(tid, (a, b));
                                words.insert(wi, e);
                                proof {
                                    assert(e0 == pre_dv[wi as int]);
                                    assert(pre_dv[wi as int] == pw[wi as int]);
                                    assert(e@ == (WordModel {
                                        letters: merge_seq(pw[wi as int].letters, a, b, tid),
                                        occurence_count: pw[wi as int].occurence_count,
                                    }));
                                    assert(words.deep_view() =~= pre_dv.update(wi as int, e@));
                                    assert forall|j: int| 0 <= j < wi + 1 implies (
                                    #[trigger] words.deep_view()[j]) == (WordModel {
                                        letters: merge_seq(pw[j].letters, a, b, tid),
                                        occurence_count: pw[j].occurence_count,
                                    }) by {
                                        if j < wi {
                                            assert(words.deep_view()[j] == pre_dv[j]);
                                        } else {
                                            assert(words.deep_view()[j] == e@);
                                        }
                                    }
                                }
                                wi = wi + 1;
                            }
                            proof {
                                assert(words.deep_view() =~= rewrite_words(pw, a, b, tid));
                                assert(merge_round(pw, pt) == (words.deep_view(), vocab@));
                                assert(vocab@.len() == pt.len() + 1);
                                assert(train(pw, pt, token_limit) == train(
                                    words.deep_view(),
                                    vocab@,
                                    token_limit,
                                ));
                                assert forall|k: int, i: int|
                                    0 <= k < words.deep_view().len() && 0 <= i
                                        < words.deep_view()[k].letters.len() implies has_id(
                                    vocab@,
                                    #[trigger] words.deep_view()[k].letters[i],
                                ) by {
                                    let m = merge_seq(pw[k].letters, a, b, tid);
                                    lemma_merge_seq_elems(pw[k].letters, a, b, tid);
                                    let x = words.deep_view()[k].letters[i];
                                    if x == tid {
                                        assert(vocab@[pt.len() as int].token_id == tid);
                                    } else {
                                        assert(pw[k].letters.contains(x));
                                        let j = choose|j: int|
                                            0 <= j < pw[k].letters.len() && pw[k].letters[j] == x;
                                        assert(has_id(pt, pw[k].letters[j]));
                                        let jj = choose|jj: int|
                                            0 <= jj < pt.len() && pt[jj].token_id == x;
                                        assert(vocab@[jj] == pt[jj]);
                                        assert(has_id(vocab@, x));
                                    }
                                }
                            }
                        },
                        Err(_) => {
                            done = true;
                            proof {
                                assert(merge_round(pw, pt) == (pw, pt));
                                assert(train(pw, pt, token_limit) == (pw, pt));
                            }
                        },
                    }
                },
            }
        }
        proof {
            if !done {
                assert(vocab@.len() >= token_limit);
                assert(train(words.deep_view(), vocab@, token_limit) == (
                    words.deep_view(),
                    vocab@,
                ));
            }
        }
        Ok(Training { state: PhantomData, vocabulary: vocab, word_data: words, token_limit })
    }
}

impl Training<Finished> {
    /// Hand out the trained vocabulary, still a builder until frozen.
    pub fn get_vocabulary(self) -> (v: Vocabulary<Edit>)
        ensures
            v@ == self.vocabulary@,
            v.wf() == self.vocabulary.wf(),
    {
        self.vocabulary
    }
}

} // verus!
