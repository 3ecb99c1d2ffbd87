use vstd::prelude::*;

verus! {

/// Training-time working state of one distinct corpus word: the ordered
/// token IDs whose concatenated texts spell the word, and how often the
/// word occurred in the corpus.
pub struct Word {
    pub letters: Vec<usize>,
    pub occurence_count: usize,
}

/// The mathematical model of a word entry: its symbol IDs as a sequence
/// and its occurrence count.
pub ghost struct WordModel {
    pub letters: Seq<usize>,
    pub occurence_count: usize,
}

impl View for Word {
    type V = WordModel;

    open spec fn view(&self) -> WordModel {
        WordModel { letters: self.letters@, occurence_count: self.occurence_count }
    }
}

impl DeepView for Word {
    type V = WordModel;

    open spec fn deep_view(&self) -> WordModel {
        self.view()
    }
}

/// The byte sequence of a word read as a sequence of base token IDs.
pub open spec fn bytes_as_ids(s: Seq<u8>) -> Seq<usize> {
    s.map(|i: int, b: u8| b as usize)
}

/// One greedy left-to-right rewrite pass: every non-overlapping occurrence
/// of the adjacent pair `(first, second)` is replaced by `nid`; a pair
/// newly formed by a replacement is not re-examined in the same pass.
pub open spec fn merge_seq(s: Seq<usize>, first: usize, second: usize, nid: usize) -> Seq<usize>
    decreases s.len(),
{
    if s.len() >= 2 && s[0] == first && s[1] == second {
        seq![nid] + merge_seq(s.skip(2), first, second, nid)
    } else if s.len() >= 1 {
        seq![s[0]] + merge_seq(s.skip(1), first, second, nid)
    } else {
        Seq::empty()
    }
}

impl Word {
    /// A fresh word entry: its symbols are the word's bytes, each read as
    /// the base token ID of that byte value.
    pub fn new(word: &Vec<u8>, occurence_count: Option<usize>) -> (w: Word)
        ensures
            w.letters@ == bytes_as_ids(word@),
            w.occurence_count == (match occurence_count {
                Some(cnt) => cnt,
                None => 1,
            }),
    {
        let mut letters: Vec<usize> = Vec::new();
        let mut i: usize = 0;
        while i < word.len()
            invariant
                i <= word@.len(),
                letters@ == bytes_as_ids(word@.take(i as int)),
            decreases word.len() - i,
        {
            letters.push(word[i] as usize);
            i = i + 1;
            proof {
                assert(letters@ =~= bytes_as_ids(word@.take(i as int)));
            }
        }
        proof {
            assert(word@.take(word@.len() as int) =~= word@);
        }
        Word {
            occurence_count: match occurence_count {
                Some(cnt) => cnt,
                None => 1,
            },
            letters,
        }
    }

    /// One more sighting of this word in the corpus.
    pub fn increase_occurence(&mut self)
        requires
            old(self).occurence_count < usize::MAX,
        ensures
            final(self).occurence_count == old(self).occurence_count + 1,
            final(self).letters == old(self).letters,
    {
        self.occurence_count = self.occurence_count + 1;
    }

    /// Rewrite the symbols by one greedy left-to-right pass over the
    /// adjacent pair `pair`, replacing each non-overlapping occurrence by
    /// `token_id`.
    pub fn merge_letters(&mut self, token_id: usize, pair: (usize, usize))
        ensures
            final(self).letters@ == merge_seq(old(self).letters@, pair.0, pair.1, token_id),
            final(self).occurence_count == old(self).occurence_count,
    {
        let ghost orig = self.letters@;
        let mut merged: Vec<usize> = Vec::new();
        let mut i: usize = 0;
        proof {
            assert(orig.skip(0) =~= orig);
            assert(Seq::<usize>::empty() + merge_seq(orig, pair.0, pair.1, token_id)
                =~= merge_seq(orig, pair.0, pair.1, token_id));
        }
        while i < self.letters.len()
            invariant
                i <= self.letters@.len(),
                self.letters@ == orig,
                merge_seq(orig, pair.0, pair.1, token_id) == merged@ + merge_seq(
                    orig.skip(i as int),
                    pair.0,
                    pair.1,
                    token_id,
                ),
            decreases self.letters.len() - i,
        {
            let ghost pre = merged@;
            if i + 1 < self.letters.len() && self.letters[i] == pair.0 && self.letters[i + 1]
                == pair.1 {
                merged.push(token_id);
                proof {
                    let rest = orig.skip(i as int);
                    assert(rest[0] == orig[i as int]);
                    assert(rest[1] == orig[i as int + 1]);
                    assert(rest.skip(2) =~= orig.skip(i as int + 2));
                    assert(merge_seq(rest, pair.0, pair.1, token_id) == seq![token_id]
                        + merge_seq(orig.skip(i as int + 2), pair.0, pair.1, token_id));
                    assert(pre + (seq![token_id] + merge_seq(
                        orig.skip(i as int + 2),
                        pair.0,
                        pair.1,
                        token_id,
                    )) =~= merged@ + merge_seq(orig.skip(i as int + 2), pair.0, pair.1, token_id));
                }
                i = i + 2;
            } else {
                merged.push(self.letters[i]);
                proof {
                    let rest = orig.skip(i as int);
                    assert(rest[0] == orig[i as int]);
                    if rest.len() >= 2 {
                        assert(rest[1] == orig[i as int + 1]);
                    }
                    assert(rest.skip(1) =~= orig.skip(i as int + 1));
                    assert(merge_seq(rest, pair.0, pair.1, token_id) == seq![orig[i as int]]
                        + merge_seq(orig.skip(i as int + 1), pair.0, pair.1, token_id));
                    assert(pre + (seq![orig[i as int]] + merge_seq(
                        orig.skip(i as int + 1),
                        pair.0,
                        pair.1,
                        token_id,
                    )) =~= merged@ + merge_seq(orig.skip(i as int + 1), pair.0, pair.1, token_id));
                }
                i = i + 1;
            }
        }
        proof {
            assert(orig.skip(orig.len() as int) =~= Seq::<usize>::empty());
            assert(merged@ + Seq::<usize>::empty() =~= merged@);
        }
        self.letters = merged;
    }
}

/// A greedy rewrite pass introduces no symbol beyond the replacement ID
/// and the symbols already present.
pub proof fn lemma_merge_seq_elems(s: Seq<usize>, a: usize, b: usize, nid: usize)
    ensures
        forall|i: int|
            0 <= i < merge_seq(s, a, b, nid).len() ==> (#[trigger] merge_seq(s, a, b, nid)[i])
                == nid || s.contains(merge_seq(s, a, b, nid)[i]),
    decreases s.len(),
{
    let m = merge_seq(s, a, b, nid);
    if s.len() >= 2 && s[0] == a && s[1] == b {
        lemma_merge_seq_elems(s.skip(2), a, b, nid);
        assert forall|i: int| 0 <= i < m.len() implies (#[trigger] m[i]) == nid || s.contains(
            m[i],
        ) by {
            if i > 0 {
                assert(m[i] == merge_seq(s.skip(2), a, b, nid)[i - 1]);
                if m[i] != nid {
                    let j = choose|j: int| 0 <= j < s.skip(2).len() && s.skip(2)[j] == m[i];
                    assert(s[j + 2] == m[i]);
                }
            }
        }
    } else if s.len() >= 1 {
        lemma_merge_seq_elems(s.skip(1), a, b, nid);
        assert forall|i: int| 0 <= i < m.len() implies (#[trigger] m[i]) == nid || s.contains(
            m[i],
        ) by {
            if i == 0 {
                assert(m[0] == s[0]);
            } else {
                assert(m[i] == merge_seq(s.skip(1), a, b, nid)[i - 1]);
                if m[i] != nid {
                    let j = choose|j: int| 0 <= j < s.skip(1).len() && s.skip(1)[j] == m[i];
                    assert(s[j + 1] == m[i]);
                }
            }
        }
    }
}

/// The ASCII whitespace bytes: space, tab, line feed, form feed, carriage
/// return. A line break is itself whitespace, so it always separates words.
pub open spec fn is_whitespace_byte(b: u8) -> bool {
    b == 32 || b == 9 || b == 10 || b == 12 || b == 13
}

/// Runtime test for `is_whitespace_byte`.
pub fn whitespace_byte(b: u8) -> (r: bool)
    ensures
        r == is_whitespace_byte(b),
{
    b == 32 || b == 9 || b == 10 || b == 12 || b == 13
}

/// Length of the maximal leading run of non-whitespace bytes.
pub open spec fn word_end(s: Seq<u8>) -> nat
    decreases s.len(),
{
    if s.len() == 0 || is_whitespace_byte(s[0]) {
        0
    } else {
        1 + word_end(s.skip(1))
    }
}

proof fn lemma_word_end_le_len(s: Seq<u8>)
    ensures
        word_end(s) <= s.len(),
    decreases s.len(),
{
    if s.len() == 0 || is_whitespace_byte(s[0]) {
    } else {
        lemma_word_end_le_len(s.skip(1));
    }
}

/// Whitespace splitting: each maximal run of non-whitespace bytes is one
/// word, in order of appearance.
pub open spec fn split_words(s: Seq<u8>) -> Seq<Seq<u8>>
    decreases s.len(),
    via split_words_decreases
{
    if s.len() == 0 {
        Seq::empty()
    } else if is_whitespace_byte(s[0]) {
        split_words(s.skip(1))
    } else {
        seq![s.take(word_end(s) as int)] + split_words(s.skip(word_end(s) as int))
    }
}

#[via_fn]
proof fn split_words_decreases(s: Seq<u8>) {
    lemma_word_end_le_len(s);
    if s.len() > 0 && !is_whitespace_byte(s[0]) {
        assert(word_end(s) >= 1);
    }
}

/// Copy of the byte range `[a, b)` of `v`.
pub fn subvec(v: &Vec<u8>, a: usize, b: usize) -> (r: Vec<u8>)
    requires
        a <= b <= v@.len(),
    ensures
        r@ == v@.subrange(a as int, b as int),
{
    let mut r: Vec<u8> = Vec::new();
    let mut i: usize = a;
    while i < b
        invariant
            a <= i <= b <= v@.len(),
            r@ == v@.subrange(a as int, i as int),
        decreases b - i,
    {
        r.push(v[i]);
        i = i + 1;
        proof {
            assert(r@ =~= v@.subrange(a as int, i as int));
        }
    }
    r
}

/// Split one line into its whitespace-delimited words.
pub fn split_line(line: &Vec<u8>) -> (r: Vec<Vec<u8>>)
    ensures
        r.deep_view() == split_words(line@),
{
    let mut words: Vec<Vec<u8>> = Vec::new();
    let mut i: usize = 0;
    proof {
        assert(line@.skip(0) =~= line@);
        assert(Seq::<Seq<u8>>::empty() + split_words(line@) =~= split_words(line@));
    }
    while i < line.len()
        invariant
            i <= line@.len(),
            split_words(line@) == words.deep_view() + split_words(line@.skip(i as int)),
        decreases line.len() - i,
    {
        if whitespace_byte(line[i]) {
            proof {
                let rest = line@.skip(i as int);
                assert(rest[0] == line@[i as int]);
                assert(rest.skip(1) =~= line@.skip(i as int + 1));
            }
            i = i + 1;
        } else {
            let start = i;
            let mut j = i + 1;
            proof {
                let rest = line@.skip(start as int);
                assert(rest[0] == line@[start as int]);
            }
            while j < line.len() && !whitespace_byte(line[j])
                invariant
                    start < j <= line@.len(),
                    forall|k: int| start <= k < j ==> !is_whitespace_byte(line@[k]),
                decreases line.len() - j,
            {
                j = j + 1;
            }
            proof {
                lemma_word_end_run(line@, start as int, j as int);
            }
            let w = subvec(line, start, j);
            let ghost pre = words.deep_view();
            words.push(w);
            proof {
                assert(words.deep_view() =~~= pre.push(w@));
                let rest = line@.skip(start as int);
                assert(rest[0] == line@[start as int]);
                assert(!is_whitespace_byte(rest[0]));
                assert(rest.take(word_end(rest) as int) =~= line@.subrange(
                    start as int,
                    j as int,
                ));
                assert(rest.skip(word_end(rest) as int) =~= line@.skip(j as int));
                assert(split_words(rest) == seq![w@] + split_words(line@.skip(j as int)));
                assert(pre + (seq![w@] + split_words(line@.skip(j as int))) =~~= words.deep_view()
                    + split_words(line@.skip(j as int)));
            }
            i = j;
        }
    }
    proof {
        assert(line@.skip(line@.len() as int) =~= Seq::<u8>::empty());
        assert(words.deep_view() + Seq::<Seq<u8>>::empty() =~= words.deep_view());
    }
    words
}

/// A run of non-whitespace bytes that ends at the line's end or at a
/// whitespace byte is exactly the maximal leading word of its suffix.
proof fn lemma_word_end_run(s: Seq<u8>, start: int, j: int)
    requires
        0 <= start < j <= s.len(),
        forall|k: int| start <= k < j ==> !is_whitespace_byte(s[k]),
        j == s.len() || is_whitespace_byte(s[j]),
    ensures
        word_end(s.skip(start)) == j - start,
    decreases j - start,
{
    let rest = s.skip(start);
    assert(rest[0] == s[start]);
    if start + 1 == j {
        if j < s.len() {
            assert(rest.skip(1)[0] == s[j]);
        }
        assert(word_end(rest.skip(1)) == 0);
    } else {
        lemma_word_end_run(s, start + 1, j);
        assert(rest.skip(1) =~= s.skip(start + 1));
    }
}

/// A nonempty text without whitespace bytes splits into exactly itself.
pub proof fn lemma_single_word(text: Seq<u8>)
    requires
        text.len() > 0,
        forall|i: int| 0 <= i < text.len() ==> !is_whitespace_byte(#[trigger] text[i]),
    ensures
        split_words(text) == seq![text],
{
    lemma_word_end_run(text, 0, text.len() as int);
    assert(text.skip(0) =~= text);
    assert(word_end(text) == text.len());
    assert(!is_whitespace_byte(text[0]));
    assert(text.take(text.len() as int) =~= text);
    assert(text.skip(text.len() as int).len() == 0);
    assert(split_words(text.skip(text.len() as int)) == Seq::<Seq<u8>>::empty());
    assert(seq![text] + Seq::<Seq<u8>>::empty() =~= seq![text]);
}

/// All words of a corpus, line by line, in order.
pub open spec fn corpus_words(lines: Seq<Seq<u8>>) -> Seq<Seq<u8>>
    decreases lines.len(),
{
    if lines.len() == 0 {
        Seq::empty()
    } else {
        corpus_words(lines.drop_last()) + split_words(lines.last())
    }
}

/// How often word `w` occurs in the word stream `ws`.
pub open spec fn count_in(ws: Seq<Seq<u8>>, w: Seq<u8>) -> nat
    decreases ws.len(),
{
    if ws.len() == 0 {
        0
    } else {
        count_in(ws.drop_last(), w) + (if ws.last() == w {
            1nat
        } else {
            0
        })
    }
}

/// The distinct words of the stream `ws`, in first-occurrence order.
pub open spec fn dedup(ws: Seq<Seq<u8>>) -> Seq<Seq<u8>>
    decreases ws.len(),
{
    if ws.len() == 0 {
        Seq::empty()
    } else {
        let d = dedup(ws.drop_last());
        if d.contains(ws.last()) {
            d
        } else {
            d.push(ws.last())
        }
    }
}

/// A count capped at the machine word: occurrence counts saturate instead
/// of overflowing.
pub open spec fn saturated(n: nat) -> usize {
    if n > usize::MAX {
        usize::MAX
    } else {
        n as usize
    }
}

/// The word table models a word stream: one entry per distinct word in
/// first-occurrence order, symbols the word's bytes as base token IDs,
/// occurrence the word's (saturated) count in the stream.
pub open spec fn models_table(table: Seq<WordModel>, ws: Seq<Seq<u8>>) -> bool {
    &&& table.len() == dedup(ws).len()
    &&& forall|k: int|
        0 <= k < table.len() ==> (#[trigger] table[k]).letters == bytes_as_ids(dedup(ws)[k])
            && table[k].occurence_count == saturated(count_in(ws, dedup(ws)[k]))
}

/// One more word extends the distinct-word list only when it is new.
pub proof fn lemma_dedup_push(ws: Seq<Seq<u8>>, w: Seq<u8>)
    ensures
        dedup(ws.push(w)) == (if dedup(ws).contains(w) {
            dedup(ws)
        } else {
            dedup(ws).push(w)
        }),
{
    assert(ws.push(w).drop_last() =~= ws);
    assert(ws.push(w).last() == w);
}

/// One more word raises exactly its own count by one.
pub proof fn lemma_count_in_push(ws: Seq<Seq<u8>>, w: Seq<u8>, u: Seq<u8>)
    ensures
        count_in(ws.push(w), u) == count_in(ws, u) + (if w == u {
            1nat
        } else {
            0nat
        }),
{
    assert(ws.push(w).drop_last() =~= ws);
    assert(ws.push(w).last() == w);
}

pub proof fn lemma_dedup_distinct(ws: Seq<Seq<u8>>)
    ensures
        forall|i: int, j: int| 0 <= i < j < dedup(ws).len() ==> dedup(ws)[i] != dedup(ws)[j],
        forall|i: int| 0 <= i < dedup(ws).len() ==> ws.contains(#[trigger] dedup(ws)[i]),
        forall|i: int| 0 <= i < ws.len() ==> dedup(ws).contains(#[trigger] ws[i]),
    decreases ws.len(),
{
    if ws.len() > 0 {
        lemma_dedup_distinct(ws.drop_last());
        let d = dedup(ws.drop_last());
        assert forall|i: int| 0 <= i < dedup(ws).len() implies ws.contains(
            #[trigger] dedup(ws)[i],
        ) by {
            if i < d.len() {
                let wit = choose|k: int| 0 <= k < ws.drop_last().len() && ws.drop_last()[k] == d[i];
                assert(ws[wit] == d[i]);
            } else {
                assert(dedup(ws)[i] == ws.last());
                assert(ws[ws.len() - 1] == ws.last());
            }
        }
        assert forall|i: int| 0 <= i < ws.len() implies dedup(ws).contains(#[trigger] ws[i]) by {
            if i < ws.len() - 1 {
                assert(ws.drop_last()[i] == ws[i]);
                let wit = choose|k: int| 0 <= k < d.len() && d[k] == ws[i];
                assert(dedup(ws)[wit] == ws[i]);
            } else {
                if d.contains(ws.last()) {
                    let wit = choose|k: int| 0 <= k < d.len() && d[k] == ws.last();
                    assert(dedup(ws)[wit] == ws[i]);
                } else {
                    assert(dedup(ws)[d.len() as int] == ws[i]);
                }
            }
        }
        assert forall|i: int, j: int| 0 <= i < j < dedup(ws).len() implies dedup(ws)[i] != dedup(
            ws,
        )[j] by {
            if j < d.len() {
            } else if !d.contains(ws.last()) {
                assert(dedup(ws)[j] == ws.last());
                if dedup(ws)[i] == ws.last() {
                    assert(d[i] == ws.last());
                    assert(d.contains(ws.last()));
                }
            }
        }
    }
}

pub proof fn lemma_dedup_count(ws: Seq<Seq<u8>>, w: Seq<u8>)
    ensures
        dedup(ws).contains(w) <==> count_in(ws, w) > 0,
    decreases ws.len(),
{
    if ws.len() > 0 {
        lemma_dedup_count(ws.drop_last(), w);
        let d = dedup(ws.drop_last());
        if ws.last() == w {
            if d.contains(w) {
                assert(dedup(ws) == d);
            } else {
                assert(dedup(ws)[d.len() as int] == w);
                assert(dedup(ws).contains(w));
            }
        } else {
            if d.contains(w) {
                let wit = choose|k: int| 0 <= k < d.len() && d[k] == w;
                if !d.contains(ws.last()) {
                    assert(dedup(ws)[wit] == w);
                }
                assert(dedup(ws).contains(w));
            } else {
                if dedup(ws).contains(w) {
                    let wit = choose|k: int| 0 <= k < dedup(ws).len() && dedup(ws)[k] == w;
                    if !d.contains(ws.last()) && wit == d.len() {
                        assert(dedup(ws)[wit] == ws.last());
                    } else {
                        assert(d[wit] == w);
                    }
                }
            }
        }
    }
}

/// Reading bytes as base token IDs loses nothing: equal ID sequences come
/// from equal byte sequences.
pub proof fn lemma_bytes_as_ids_injective(a: Seq<u8>, b: Seq<u8>)
    requires
        bytes_as_ids(a) == bytes_as_ids(b),
    ensures
        a == b,
{
    assert(bytes_as_ids(a).len() == a.len());
    assert(bytes_as_ids(b).len() == b.len());
    assert forall|i: int| 0 <= i < a.len() implies a[i] == b[i] by {
        assert(bytes_as_ids(a)[i] == a[i] as usize);
        assert(bytes_as_ids(b)[i] == b[i] as usize);
        assert(bytes_as_ids(a)[i] == bytes_as_ids(b)[i]);
    }
    assert(a =~= b);
}

/// Runtime test whether a word entry's symbols are exactly the bytes of
/// `w` read as base token IDs.
pub fn letters_match(letters: &Vec<usize>, w: &Vec<u8>) -> (r: bool)
    ensures
        r == (letters@ == bytes_as_ids(w@)),
{
    if letters.len() != w.len() {
        return false;
    }
    let mut i: usize = 0;
    while i < w.len()
        invariant
            letters@.len() == w@.len(),
            i <= w@.len(),
            forall|j: int| 0 <= j < i ==> letters@[j] == w@[j] as usize,
        decreases w.len() - i,
    {
        if letters[i] != w[i] as usize {
            proof {
                assert(bytes_as_ids(w@)[i as int] == w@[i as int] as usize);
            }
            return false;
        }
        i = i + 1;
    }
    proof {
        assert(letters@ =~= bytes_as_ids(w@));
    }
    true
}

} // verus!
