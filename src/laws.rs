//! Laws of training, encoding and decoding, proved over the model.

use vstd::prelude::*;
use vstd::string::StringSliceAdditionalSpecFns;
use crate::model::{
    Pair, pair_count, best_pair, rebuild, trained, merge_code, byte_codes, first_merge,
    merge_pass, merge_pass_from, encode_codes, expansion, flat, code_bytes, pair_of,
    vocab_wf, code_valid, vocab_map, occurrences, VocabEntry, CODE_POINT_START,
};
use crate::lemmas::{
    lemma_count_bound, is_terminal, lemma_flat_concat, lemma_flat_single, lemma_flat_terminal, lemma_expansion_merge,
};
use crate::tokenizer::Tokenizer;

verus! {

broadcast use {vstd::utf8::encode_utf8_valid_utf8, vstd::utf8::encode_utf8_decode_utf8};

/// Training ends after at most as many rounds as the sequence is long: each
/// round learns one merge and shortens the sequence by one, so the final
/// sequence and the learned merges together are exactly as long as the input.
/// A round needs a pair counted twice, so a sequence of length `n` yields at
/// most `n - 2` merges (none when `n < 2`).
pub proof fn lemma_train_rounds(s: Seq<i32>, m: Seq<Pair>)
    ensures
        trained(s, m).0.len() + trained(s, m).1.len() == s.len() + m.len(),
        trained(s, m).1.len() <= m.len() + s.len(),
        trained(s, m).1.len() <= m.len() + if s.len() >= 2 {
            s.len() - 2
        } else {
            0
        },
    decreases s.len(),
{
    if s.len() >= 2 && pair_count(s, best_pair(s)) >= 2 {
        let p = best_pair(s);
        lemma_count_bound(s, p, s.len() - 1);
        lemma_train_rounds(rebuild(s, p, merge_code(m.len() as int)), m.push(p));
    }
}

/// Training keeps the merges learned before and appends new ones, which take
/// the next codes in increasing order.
pub proof fn lemma_train_extends(s: Seq<i32>, m: Seq<Pair>)
    ensures
        trained(s, m).1.len() >= m.len(),
        trained(s, m).1.subrange(0, m.len() as int) == m,
    decreases s.len(),
{
    if s.len() >= 2 && pair_count(s, best_pair(s)) >= 2 {
        let p = best_pair(s);
        lemma_train_extends(rebuild(s, p, merge_code(m.len() as int)), m.push(p));
        let r = trained(s, m).1;
        assert(r.subrange(0, m.len() as int) =~= r.subrange(0, m.len() as int + 1).subrange(
            0,
            m.len() as int,
        ));
        assert(m.push(p).subrange(0, m.len() as int) =~= m);
    } else {
        assert(m.subrange(0, m.len() as int) =~= m);
    }
}

/// Where no adjacent pair occurs twice, training learns nothing and leaves the
/// sequence as it is.
pub proof fn lemma_train_no_merge(s: Seq<i32>, m: Seq<Pair>)
    requires
        forall|p: Pair| #[trigger] pair_count(s, p) <= 1,
    ensures
        trained(s, m) == (s, m),
{
    if s.len() >= 2 {
        assert(pair_count(s, best_pair(s)) <= 1);
    }
}

/// One encoding pass keeps the full expansion.
proof fn lemma_pass_flat(seen: Seq<bool>, m: Seq<Pair>, s: Seq<i32>, i: int, cur: i32)
    requires
        vocab_wf(seen, m),
        0 <= i <= s.len(),
    ensures
        flat(m, merge_pass_from(m, s, i, cur)) == expansion(m, cur) + flat(
            m,
            s.subrange(i, s.len() as int),
        ),
    decreases s.len() - i,
{
    let rest = s.subrange(i, s.len() as int);
    if i >= s.len() {
        lemma_flat_single(m, cur);
        assert(flat(m, rest) =~= Seq::<i32>::empty());
        assert(expansion(m, cur) + flat(m, rest) =~= expansion(m, cur));
    } else {
        let tail = s.subrange(i + 1, s.len() as int);
        assert(rest =~= seq![s[i]] + tail);
        lemma_flat_concat(m, seq![s[i]], tail);
        lemma_flat_single(m, s[i]);
        match first_merge(m, Pair { b1: cur, b2: s[i] }) {
            Some(k) => {
                lemma_first_merge_found(m, Pair { b1: cur, b2: s[i] }, 0);
                lemma_pass_flat(seen, m, s, i + 1, merge_code(k));
                lemma_expansion_merge(seen, m, k);
                assert(flat(m, merge_pass_from(m, s, i, cur)) =~= expansion(m, cur) + flat(
                    m,
                    rest,
                ));
            },
            None => {
                lemma_pass_flat(seen, m, s, i + 1, s[i]);
                lemma_flat_concat(m, seq![cur], merge_pass_from(m, s, i + 1, s[i]));
                lemma_flat_single(m, cur);
                assert(flat(m, merge_pass_from(m, s, i, cur)) =~= expansion(m, cur) + flat(
                    m,
                    rest,
                ));
            },
        }
    }
}

/// A merge index that the lookup finds is in range and holds the pair.
proof fn lemma_first_merge_found(m: Seq<Pair>, p: Pair, k: int)
    requires
        k >= 0,
    ensures
        crate::model::first_merge_from(m, p, k) matches Some(j) ==> k <= j < m.len() && m[j]
            == p,
        crate::model::first_merge_from(m, p, k) is None ==> forall|j: int|
            k <= j < m.len() ==> m[j] != p,
    decreases m.len() - k,
{
    if 0 <= k < m.len() && m[k] != p {
        lemma_first_merge_found(m, p, k + 1);
    }
}

/// Encoding keeps the full expansion.
proof fn lemma_encode_flat(seen: Seq<bool>, m: Seq<Pair>, s: Seq<i32>)
    requires
        vocab_wf(seen, m),
    ensures
        flat(m, encode_codes(m, s)) == flat(m, s),
    decreases s.len(),
{
    let t = merge_pass(m, s);
    if t.len() < s.len() {
        lemma_pass_flat(seen, m, s, 1, s[0]);
        lemma_flat_concat(m, seq![s[0]], s.subrange(1, s.len() as int));
        lemma_flat_single(m, s[0]);
        assert(s =~= seq![s[0]] + s.subrange(1, s.len() as int));
        lemma_encode_flat(seen, m, t);
    }
}

/// Raw byte codes are their own expansion.
proof fn lemma_flat_bytes(m: Seq<Pair>, b: Seq<u8>)
    ensures
        flat(m, byte_codes(b)) == byte_codes(b),
{
    lemma_flat_terminal(m, byte_codes(b));
}

/// Decoding what encoding returns gives back the text, for every text and
/// every well-formed vocabulary: the decoded bytes are the text's own bytes,
/// so they are valid UTF-8 and spell the text.
pub proof fn lemma_round_trip(t: &Tokenizer, text: &str)
    requires
        t.wf(),
    ensures
        code_bytes(flat(t.merge_list(), encode_codes(t.merge_list(), byte_codes(text.spec_bytes()))))
            == text.spec_bytes(),
        vstd::utf8::valid_utf8(
            code_bytes(
                flat(t.merge_list(), encode_codes(t.merge_list(), byte_codes(text.spec_bytes()))),
            ),
        ),
        vstd::utf8::decode_utf8(
            code_bytes(
                flat(t.merge_list(), encode_codes(t.merge_list(), byte_codes(text.spec_bytes()))),
            ),
        ) == text@,
{
    let m = t.merge_list();
    let b = text.spec_bytes();
    lemma_encode_flat(t.seen_table(), m, byte_codes(b));
    lemma_flat_bytes(m, b);
    assert(code_bytes(byte_codes(b)) =~= b);
}

/// Encoding a sequence in which no adjacent pair forms a merge returns it
/// unchanged.
pub proof fn lemma_encode_stable(m: Seq<Pair>, s: Seq<i32>)
    requires
        forall|i: int| 0 <= i < s.len() - 1 ==> first_merge(m, #[trigger] pair_of(s, i)) is None,
    ensures
        encode_codes(m, s) == s,
{
    if s.len() > 0 {
        lemma_pass_stable(m, s, 1);
        assert(s.subrange(0, s.len() as int) =~= s);
    }
}

/// With no merge ahead, a pass from `i` returns the rest of the sequence.
proof fn lemma_pass_stable(m: Seq<Pair>, s: Seq<i32>, i: int)
    requires
        1 <= i <= s.len(),
        forall|j: int| 0 <= j < s.len() - 1 ==> first_merge(m, #[trigger] pair_of(s, j)) is None,
    ensures
        merge_pass_from(m, s, i, s[i - 1]) == s.subrange(i - 1, s.len() as int),
    decreases s.len() - i,
{
    if i < s.len() {
        assert(Pair { b1: s[i - 1], b2: s[i] } == pair_of(s, i - 1));
        lemma_pass_stable(m, s, i + 1);
        assert(s.subrange(i - 1, s.len() as int) =~= seq![s[i - 1]] + s.subrange(
            i,
            s.len() as int,
        ));
    } else {
        assert(s.subrange(i - 1, s.len() as int) =~= seq![s[i - 1]]);
    }
}

/// A sequence of raw byte codes decodes to itself, with nothing to expand.
pub proof fn lemma_decode_raw(m: Seq<Pair>, s: Seq<i32>)
    requires
        forall|i: int| 0 <= i < s.len() ==> 0 <= #[trigger] s[i] < CODE_POINT_START,
    ensures
        forall|i: int| 0 <= i < s.len() ==> is_terminal(m, #[trigger] s[i]),
        flat(m, s) == s,
        forall|i: int| 0 <= i < s.len() ==> #[trigger] code_bytes(s)[i] == s[i],
{
    lemma_flat_terminal(m, s);
}

/// A code that no merge uses as a part survives a pass from `i` when it is
/// pending or still ahead.
proof fn lemma_pass_keeps(
    seen: Seq<bool>,
    m: Seq<Pair>,
    s: Seq<i32>,
    i: int,
    cur: i32,
    x: i32,
)
    requires
        vocab_wf(seen, m),
        0 <= x < CODE_POINT_START,
        !seen[x as int],
        0 <= i <= s.len(),
        cur == x || exists|j: int| i <= j < s.len() && s[j] == x,
    ensures
        merge_pass_from(m, s, i, cur).contains(x),
    decreases s.len() - i,
{
    if i >= s.len() {
        assert(merge_pass_from(m, s, i, cur)[0] == x);
    } else {
        let p = Pair { b1: cur, b2: s[i] };
        match first_merge(m, p) {
            Some(k) => {
                lemma_first_merge_found(m, p, 0);
                assert(code_valid(seen, k, m[k].b1) && code_valid(seen, k, m[k].b2));
                let j = choose|j: int| i <= j < s.len() && s[j] == x;
                assert(i + 1 <= j);
                lemma_pass_keeps(seen, m, s, i + 1, merge_code(k), x);
            },
            None => {
                let r = merge_pass_from(m, s, i + 1, s[i]);
                if cur == x {
                    assert((seq![cur] + r)[0] == x);
                } else {
                    let j = choose|j: int| i <= j < s.len() && s[j] == x;
                    if j > i {
                        assert(i + 1 <= j < s.len() && s[j] == x);
                    }
                    lemma_pass_keeps(seen, m, s, i + 1, s[i], x);
                    let l = choose|l: int| 0 <= l < r.len() && r[l] == x;
                    assert((seq![cur] + r)[l + 1] == x);
                }
            },
        }
    }
}

/// A code that no merge uses as a part survives encoding.
proof fn lemma_encode_keeps(seen: Seq<bool>, m: Seq<Pair>, s: Seq<i32>, x: i32)
    requires
        vocab_wf(seen, m),
        0 <= x < CODE_POINT_START,
        !seen[x as int],
        s.contains(x),
    ensures
        encode_codes(m, s).contains(x),
    decreases s.len(),
{
    let t = merge_pass(m, s);
    if t.len() < s.len() {
        let j = choose|j: int| 0 <= j < s.len() && s[j] == x;
        if j > 0 {
            assert(1 <= j < s.len() && s[j] == x);
        }
        lemma_pass_keeps(seen, m, s, 1, s[0], x);
        lemma_encode_keeps(seen, m, t, x);
    }
}

/// A byte never seen in training passes through encoding as its own code.
pub proof fn lemma_unseen_byte(t: &Tokenizer, text: &str, x: u8)
    requires
        t.wf(),
        !t.seen_table()[x as int],
        text.spec_bytes().contains(x),
    ensures
        encode_codes(t.merge_list(), byte_codes(text.spec_bytes())).contains(x as i32),
{
    let b = text.spec_bytes();
    let j = choose|j: int| 0 <= j < b.len() && b[j] == x;
    assert(byte_codes(b)[j] == x as i32);
    lemma_encode_keeps(t.seen_table(), t.merge_list(), byte_codes(b), x as i32);
}

/// Training a fresh tokenizer on text in which no adjacent byte pair occurs
/// twice learns no merge, and the final sequence is the text's bytes.
pub proof fn lemma_no_merge_text(text: &str)
    requires
        forall|p: Pair| #[trigger] pair_count(byte_codes(text.spec_bytes()), p) <= 1,
    ensures
        trained(byte_codes(text.spec_bytes()), Seq::empty()) == (
            byte_codes(text.spec_bytes()),
            Seq::<Pair>::empty(),
        ),
{
    lemma_train_no_merge(byte_codes(text.spec_bytes()), Seq::empty());
}

/// The vocabulary's codes from 256 up are exactly `256 .. 256 + k` for `k`
/// merges, and each of them is a pair of two smaller codes of the vocabulary.
pub proof fn lemma_vocab_codes(t: &Tokenizer)
    requires
        t.wf(),
    ensures
        forall|c: int|
            c >= CODE_POINT_START ==> (#[trigger] t.vocab().contains_key(c) <==> c
                < CODE_POINT_START + t.merge_list().len()),
        forall|c: int|
            c >= CODE_POINT_START && #[trigger] t.vocab().contains_key(c) ==> {
                let p = t.merge_list()[c - CODE_POINT_START];
                &&& t.vocab()[c] == VocabEntry::Pair(p)
                &&& p.b1 < c && p.b2 < c
                &&& t.vocab().contains_key(p.b1 as int)
                &&& t.vocab().contains_key(p.b2 as int)
            },
{
    assert forall|c: int|
        c >= CODE_POINT_START && #[trigger] t.vocab().contains_key(c) implies {
        let p = t.merge_list()[c - CODE_POINT_START];
        &&& t.vocab()[c] == VocabEntry::Pair(p)
        &&& p.b1 < c && p.b2 < c
        &&& t.vocab().contains_key(p.b1 as int)
        &&& t.vocab().contains_key(p.b2 as int)
    } by {
        let k = c - CODE_POINT_START;
        assert(code_valid(t.seen_table(), k, t.merge_list()[k].b1));
        assert(code_valid(t.seen_table(), k, t.merge_list()[k].b2));
    }
}

/// Training with no merges yet, on text in which no adjacent byte pair occurs
/// twice, learns no merge: with the text's bytes as the seen bytes, the
/// vocabulary is exactly the distinct bytes of the text, each its own code.
pub proof fn lemma_no_merge_vocab(seen: Seq<bool>, text: &str)
    requires
        seen.len() == 256,
        forall|b: int| 0 <= b < 256 ==> #[trigger] seen[b] == text.spec_bytes().contains(b as u8),
        forall|p: Pair| #[trigger] pair_count(byte_codes(text.spec_bytes()), p) <= 1,
    ensures
        trained(byte_codes(text.spec_bytes()), Seq::empty()).1 == Seq::<Pair>::empty(),
        vocab_map(seen, trained(byte_codes(text.spec_bytes()), Seq::empty()).1) == Map::new(
            |c: int| 0 <= c < 256 && text.spec_bytes().contains(c as u8),
            |c: int| VocabEntry::Byte(c as i32),
        ),
{
    lemma_train_no_merge(byte_codes(text.spec_bytes()), Seq::empty());
    assert(vocab_map(seen, Seq::<Pair>::empty()) =~= Map::new(
        |c: int| 0 <= c < 256 && text.spec_bytes().contains(c as u8),
        |c: int| VocabEntry::Byte(c as i32),
    ));
}

/// A code that no merge uses as a part keeps its number of occurrences
/// through a pass from `i`.
proof fn lemma_pass_count(seen: Seq<bool>, m: Seq<Pair>, s: Seq<i32>, i: int, cur: i32, x: i32)
    requires
        vocab_wf(seen, m),
        0 <= x < CODE_POINT_START,
        !seen[x as int],
        0 <= i <= s.len(),
    ensures
        occurrences(merge_pass_from(m, s, i, cur), x) == (if cur == x {
            1nat
        } else {
            0nat
        }) + occurrences(s.subrange(i, s.len() as int), x),
    decreases s.len() - i,
{
    let rest = s.subrange(i, s.len() as int);
    if i >= s.len() {
        assert(seq![cur].subrange(1, 1) =~= Seq::<i32>::empty());
        assert(rest =~= Seq::<i32>::empty());
    } else {
        assert(rest.subrange(1, rest.len() as int) =~= s.subrange(i + 1, s.len() as int));
        let p = Pair { b1: cur, b2: s[i] };
        match first_merge(m, p) {
            Some(k) => {
                lemma_first_merge_found(m, p, 0);
                assert(code_valid(seen, k, m[k].b1) && code_valid(seen, k, m[k].b2));
                lemma_pass_count(seen, m, s, i + 1, merge_code(k), x);
            },
            None => {
                let r = merge_pass_from(m, s, i + 1, s[i]);
                lemma_pass_count(seen, m, s, i + 1, s[i], x);
                assert((seq![cur] + r).subrange(1, r.len() as int + 1) =~= r);
            },
        }
    }
}

/// A code that no merge uses as a part keeps its number of occurrences
/// through encoding.
proof fn lemma_encode_count(seen: Seq<bool>, m: Seq<Pair>, s: Seq<i32>, x: i32)
    requires
        vocab_wf(seen, m),
        0 <= x < CODE_POINT_START,
        !seen[x as int],
    ensures
        occurrences(encode_codes(m, s), x) == occurrences(s, x),
    decreases s.len(),
{
    let t = merge_pass(m, s);
    if t.len() < s.len() {
        lemma_pass_count(seen, m, s, 1, s[0], x);
        lemma_encode_count(seen, m, t, x);
    }
}

/// A byte never seen in training occurs in the encoding exactly as often as
/// in the text, each time as its own code.
pub proof fn lemma_unseen_byte_count(t: &Tokenizer, text: &str, x: u8)
    requires
        t.wf(),
        !t.seen_table()[x as int],
    ensures
        occurrences(encode_codes(t.merge_list(), byte_codes(text.spec_bytes())), x as i32)
            == occurrences(byte_codes(text.spec_bytes()), x as i32),
{
    lemma_encode_count(t.seen_table(), t.merge_list(), byte_codes(text.spec_bytes()), x as i32);
}

} // verus!
