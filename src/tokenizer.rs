//! The tokenizer: its vocabulary, training, encoding and decoding.

use vstd::prelude::*;
use vstd::string::StringSliceAdditionalSpecFns;
use std::collections::HashMap;
use crate::model::{
    Pair, VocabEntry, pair_at, pair_count, pair_count_upto, is_best_pair, pair_lt, pair_of,
    rebuild, trained, byte_codes, code_valid, vocab_wf, vocab_map, merge_code, first_merge,
    first_merge_from, merge_pass, merge_pass_from, encode_codes, seen_count, flat, code_bytes,
    code_byte, CODE_POINT_START, MAX_CODE,
};
use crate::laws::{lemma_train_rounds, lemma_train_extends};
use crate::lemmas::{
    is_terminal, lemma_flat_push, lemma_flat_len, lemma_flat_terminal, lemma_expansion_merge,
    lemma_count_occurs, lemma_count_bound, lemma_best_pair_is,
};

verus! {

/// Byte `c` occurs among the first `n` bytes of `b`.
spec fn occurs_before(b: Seq<u8>, n: int, c: int) -> bool {
    exists|j: int| 0 <= j < n && b[j] == c
}

/// The map key of a pair of non-negative codes: first code in the high half.
spec fn pair_key(p: Pair) -> u64 {
    (p.b1 as int * 0x1_0000_0000 + p.b2 as int) as u64
}

/// Distinct pairs of non-negative codes have distinct keys.
proof fn lemma_pair_key_injective(p: Pair, q: Pair)
    requires
        p.b1 >= 0 && p.b2 >= 0 && q.b1 >= 0 && q.b2 >= 0,
        pair_key(p) == pair_key(q),
    ensures
        p == q,
{
    let (a, b, c, d) = (p.b1 as int, p.b2 as int, q.b1 as int, q.b2 as int);
    assert(0 <= a * 0x1_0000_0000 + b < 0x1_0000_0000_0000_0000) by (nonlinear_arith)
        requires
            0 <= a < 0x8000_0000,
            0 <= b < 0x8000_0000,
    ;
    assert(0 <= c * 0x1_0000_0000 + d < 0x1_0000_0000_0000_0000) by (nonlinear_arith)
        requires
            0 <= c < 0x8000_0000,
            0 <= d < 0x8000_0000,
    ;
    assert(a == c && b == d) by (nonlinear_arith)
        requires
            a * 0x1_0000_0000 + b == c * 0x1_0000_0000 + d,
            0 <= b < 0x8000_0000,
            0 <= d < 0x8000_0000,
    ;
}

/// The map key of `p`.
fn key_of(p: Pair) -> (r: u64)
    requires
        p.b1 >= 0 && p.b2 >= 0,
    ensures
        r == pair_key(p),
{
    let a = p.b1 as u64;
    let b = p.b2 as u64;
    assert(a * 0x1_0000_0000 <= 0x7fff_ffff * 0x1_0000_0000) by (nonlinear_arith)
        requires
            a <= 0x7fff_ffff,
    ;
    a * 0x1_0000_0000 + b
}

/// Counts every adjacent pair of `s` in one pass: the result maps the key of
/// each pair that occurs to its number of occurrences.
fn count_pairs(s: &Vec<i32>) -> (r: HashMap<u64, usize>)
    requires
        s.len() >= 1,
        forall|i: int| 0 <= i < s.len() ==> #[trigger] s@[i] >= 0,
    ensures
        forall|j: int|
            0 <= j < s.len() - 1 ==> r@.contains_key(#[trigger] pair_key(pair_of(s@, j)))
                && r@[pair_key(pair_of(s@, j))] == pair_count(s@, pair_of(s@, j)),
{
    broadcast use vstd::std_specs::hash::group_hash_axioms;

    let mut counts: HashMap<u64, usize> = HashMap::new();
    let mut i: usize = 0;
    while i + 1 < s.len()
        invariant
            s.len() >= 1,
            i <= s.len() - 1,
            forall|k: int| 0 <= k < s.len() ==> #[trigger] s@[k] >= 0,
            forall|j: int|
                0 <= j < i ==> counts@.contains_key(#[trigger] pair_key(pair_of(s@, j)))
                    && counts@[pair_key(pair_of(s@, j))] == pair_count_upto(
                    s@,
                    pair_of(s@, j),
                    i as int,
                ),
            forall|k: u64|
                #[trigger] counts@.contains_key(k) ==> exists|j: int|
                    0 <= j < i && pair_key(#[trigger] pair_of(s@, j)) == k,
        decreases s.len() - i,
    {
        let q = Pair { b1: s[i], b2: s[i + 1] };
        assert(q == pair_of(s@, i as int));
        assert(s@[i as int] >= 0 && s@[i + 1] >= 0);
        let key = key_of(q);
        let old_c: usize = match counts.get(&key) {
            Some(c) => *c,
            None => 0,
        };
        proof {
            lemma_count_bound(s@, q, i as int);
            lemma_count_occurs(s@, q, i as int);
            if counts@.contains_key(key) {
                let j = choose|j: int| 0 <= j < i && pair_key(#[trigger] pair_of(s@, j)) == key;
                assert(s@[j] >= 0 && s@[j + 1] >= 0);
                lemma_pair_key_injective(pair_of(s@, j), q);
            } else if pair_count_upto(s@, q, i as int) >= 1 {
                let j = choose|j: int| 0 <= j < i && pair_at(s@, j, q);
                assert(pair_of(s@, j) == q);
            }
            assert(old_c == pair_count_upto(s@, q, i as int));
        }
        let ghost prev = counts@;
        counts.insert(key, old_c + 1);
        proof {
            assert forall|j: int| 0 <= j < i + 1 implies counts@.contains_key(
                #[trigger] pair_key(pair_of(s@, j)),
            ) && counts@[pair_key(pair_of(s@, j))] == pair_count_upto(
                s@,
                pair_of(s@, j),
                i + 1,
            ) by {
                let pj = pair_of(s@, j);
                assert(s@[j] >= 0 && s@[j + 1] >= 0);
                if pj != q {
                    if pair_key(pj) == key {
                        lemma_pair_key_injective(pj, q);
                    }
                }
            }
            assert forall|k: u64| #[trigger] counts@.contains_key(k) implies exists|j: int|
                0 <= j < i + 1 && pair_key(#[trigger] pair_of(s@, j)) == k by {
                if k == key {
                    assert(pair_key(pair_of(s@, i as int)) == k);
                } else {
                    assert(prev.contains_key(k));
                    let j = choose|j: int| 0 <= j < i && pair_key(#[trigger] pair_of(s@, j)) == k;
                    assert(0 <= j < i + 1 && pair_key(pair_of(s@, j)) == k);
                }
            }
        }
        i = i + 1;
    }
    counts
}

/// Finds the most frequent adjacent pair of `s`, ties going to the least
/// pair, together with its count.
fn find_best_pair(s: &Vec<i32>) -> (r: (Pair, usize))
    requires
        s.len() >= 2,
        forall|i: int| 0 <= i < s.len() ==> #[trigger] s@[i] >= 0,
    ensures
        is_best_pair(s@, r.0),
        r.1 == pair_count(s@, r.0),
{
    broadcast use vstd::std_specs::hash::group_hash_axioms;

    let counts = count_pairs(s);
    let mut best = Pair { b1: s[0], b2: s[1] };
    proof {
        assert(pair_at(s@, 0, best));
        assert(best == pair_of(s@, 0));
        lemma_count_occurs(s@, best, s.len() - 1);
    }
    let mut best_c: usize = match counts.get(&key_of(best)) {
        Some(c) => *c,
        None => 0,
    };
    let mut i: usize = 1;
    while i + 1 < s.len()
        invariant
            2 <= s.len(),
            1 <= i <= s.len() - 1,
            forall|k: int| 0 <= k < s.len() ==> #[trigger] s@[k] >= 0,
            forall|j: int|
                0 <= j < s.len() - 1 ==> counts@.contains_key(#[trigger] pair_key(pair_of(s@, j)))
                    && counts@[pair_key(pair_of(s@, j))] == pair_count(s@, pair_of(s@, j)),
            best_c == pair_count(s@, best),
            best_c >= 1,
            forall|j: int|
                0 <= j < i ==> pair_count(s@, #[trigger] pair_of(s@, j)) <= best_c && (pair_count(
                    s@,
                    pair_of(s@, j),
                ) == best_c ==> !pair_lt(pair_of(s@, j), best)),
        decreases s.len() - i,
    {
        let q = Pair { b1: s[i], b2: s[i + 1] };
        assert(q == pair_of(s@, i as int));
        assert(s@[i as int] >= 0 && s@[i + 1] >= 0);
        let c: usize = match counts.get(&key_of(q)) {
            Some(c) => *c,
            None => 0,
        };
        if c > best_c || (c == best_c && (q.b1 < best.b1 || (q.b1 == best.b1 && q.b2 < best.b2))) {
            best = q;
            best_c = c;
        }
        i = i + 1;
    }
    proof {
        assert forall|q: Pair|
            #![trigger pair_count(s@, q)]
            pair_count(s@, q) <= pair_count(s@, best) && (pair_count(s@, q) == pair_count(
                s@,
                best,
            ) ==> !pair_lt(q, best)) by {
            lemma_count_occurs(s@, q, s.len() - 1);
            if pair_count(s@, q) >= 1 {
                let j = choose|j: int| 0 <= j < s.len() - 1 && pair_at(s@, j, q);
                assert(q == pair_of(s@, j));
            }
        }
    }
    (best, best_c)
}

/// Rewrites `s` for one training round: each position below the last becomes
/// `code` where `p` starts and keeps its code otherwise.
fn rebuild_seq(s: &Vec<i32>, p: Pair, code: i32) -> (r: Vec<i32>)
    requires
        s.len() >= 2,
    ensures
        r@ == rebuild(s@, p, code),
{
    let mut out: Vec<i32> = Vec::new();
    let mut i: usize = 0;
    while i + 1 < s.len()
        invariant
            s.len() >= 2,
            i <= s.len() - 1,
            out.len() == i,
            forall|j: int| 0 <= j < i ==> out@[j] == rebuild(s@, p, code)[j],
        decreases s.len() - i,
    {
        if s[i] == p.b1 && s[i + 1] == p.b2 {
            out.push(code);
        } else {
            out.push(s[i]);
        }
        i = i + 1;
    }
    assert(out@ =~= rebuild(s@, p, code));
    out
}

/// A byte-pair-encoding tokenizer. Codes below 256 are raw bytes; the merge at
/// index `k` of the merge list has code `256 + k`.
pub struct Tokenizer {
    seen: Vec<bool>,
    merges: Vec<Pair>,
}

impl Tokenizer {
    /// For each byte value, whether it has been seen in training.
    pub closed spec fn seen_table(&self) -> Seq<bool> {
        self.seen@
    }

    /// The learned merges, in the order of their codes.
    pub closed spec fn merge_list(&self) -> Seq<Pair> {
        self.merges@
    }

    /// The vocabulary: code to entry.
    pub open spec fn vocab(&self) -> Map<int, VocabEntry> {
        vocab_map(self.seen_table(), self.merge_list())
    }

    /// The tokenizer's invariant: its vocabulary is well formed.
    pub open spec fn wf(&self) -> bool {
        vocab_wf(self.seen_table(), self.merge_list())
    }

    /// A tokenizer with an empty vocabulary.
    pub fn new() -> (r: Self)
        ensures
            r.wf(),
            r.merge_list().len() == 0,
            forall|b: int| 0 <= b < 256 ==> !r.seen_table()[b],
            r.vocab() =~= Map::<int, VocabEntry>::empty(),
    {
        let mut seen: Vec<bool> = Vec::new();
        let mut i: usize = 0;
        while i < 256
            invariant
                i <= 256,
                seen.len() == i,
                forall|b: int| 0 <= b < i ==> !seen@[b],
            decreases 256 - i,
        {
            seen.push(false);
            i = i + 1;
        }
        Tokenizer { seen, merges: Vec::new() }
    }

    /// Trains on `text` and returns the final training sequence. The text's
    /// bytes join the vocabulary; then, while some adjacent pair occurs at
    /// least twice, the most frequent one (ties to the least pair) gets the
    /// next code and the sequence is rewritten, its last position dropped.
    pub fn train_reduced(&mut self, text: &str) -> (r: Vec<i32>)
        requires
            old(self).wf(),
            CODE_POINT_START + old(self).merge_list().len() + text.spec_bytes().len() <= MAX_CODE,
        ensures
            final(self).wf(),
            forall|b: int|
                0 <= b < 256 ==> final(self).seen_table()[b] == (old(self).seen_table()[b]
                    || text.spec_bytes().contains(b as u8)),
            (r@, final(self).merge_list()) == trained(
                byte_codes(text.spec_bytes()),
                old(self).merge_list(),
            ),
    {
        let bytes = text.as_bytes();
        let ghost old_seen = self.seen@;
        let mut codes: Vec<i32> = Vec::new();
        let mut i: usize = 0;
        while i < bytes.len()
            invariant
                bytes@ == text.spec_bytes(),
                self.merges@ == old(self).merges@,
                self.seen@.len() == 256,
                old_seen == old(self).seen@,
                codes@ == byte_codes(bytes@.subrange(0, i as int)),
                i <= bytes.len(),
                forall|b: int|
                    #![trigger self.seen@[b]]
                    0 <= b < 256 ==> self.seen@[b] == (old_seen[b] || occurs_before(
                        bytes@,
                        i as int,
                        b,
                    )),
            decreases bytes.len() - i,
        {
            let b = bytes[i];
            let ghost prev = self.seen@;
            self.seen.set(b as usize, true);
            codes.push(b as i32);
            let ghost n = i as int;
            i = i + 1;
            proof {
                assert forall|c: int|
                    #![trigger self.seen@[c]]
                    0 <= c < 256 implies self.seen@[c] == (old_seen[c] || occurs_before(
                        bytes@,
                        i as int,
                        c,
                    )) by {
                    assert(prev[c] == (old_seen[c] || occurs_before(bytes@, n, c)));
                    if c == b as int {
                        assert(bytes@[n] == c);
                    } else if occurs_before(bytes@, i as int, c) {
                        let j = choose|j: int| 0 <= j < i && bytes@[j] == c;
                        assert(0 <= j < n && bytes@[j] == c);
                    } else if occurs_before(bytes@, n, c) {
                        let j = choose|j: int| 0 <= j < n && bytes@[j] == c;
                        assert(0 <= j < i && bytes@[j] == c);
                    }
                }
            }
            assert(codes@ =~= byte_codes(bytes@.subrange(0, i as int)));
        }
        proof {
            assert(bytes@.subrange(0, i as int) =~= bytes@);
            assert forall|b: int|
                #![trigger self.seen@[b]]
                0 <= b < 256 implies self.seen@[b] == (old_seen[b] || bytes@.contains(
                    b as u8,
                )) by {
                if bytes@.contains(b as u8) {
                    let j = choose|j: int| 0 <= j < bytes@.len() && bytes@[j] == b as u8;
                    assert(bytes@[j] == b);
                    assert(occurs_before(bytes@, i as int, b));
                }
                if occurs_before(bytes@, i as int, b) {
                    let j = choose|j: int| 0 <= j < i && bytes@[j] == b;
                    assert(bytes@[j] == b as u8);
                }
            }
            assert forall|j: int| 0 <= j < codes.len() implies code_valid(
                self.seen@,
                self.merges.len() as int,
                #[trigger] codes@[j],
            ) by {
                assert(codes@[j] == bytes@[j] as i32);
                assert(occurs_before(bytes@, i as int, bytes@[j] as int));
                assert(self.seen@[bytes@[j] as int]);
            }
        }
        let ghost s0 = codes@;
        let ghost m0 = self.merges@;
        loop
            invariant
                self.seen@.len() == 256,
                vocab_wf(self.seen@, self.merges@),
                forall|j: int| 0 <= j < codes.len() ==> code_valid(self.seen@, self.merges.len() as int, #[trigger] codes@[j]),
                trained(s0, m0) == trained(codes@, self.merges@),
                self.merges.len() + codes.len() == m0.len() + s0.len(),
                CODE_POINT_START + m0.len() + s0.len() <= MAX_CODE,
                forall|b: int|
                    #![trigger self.seen@[b]]
                    0 <= b < 256 ==> self.seen@[b] == (old(self).seen@[b]
                        || text.spec_bytes().contains(b as u8)),
            ensures
                trained(codes@, self.merges@) == (codes@, self.merges@),
            decreases codes.len(),
        {
            if codes.len() < 2 {
                break;
            }
            proof {
                assert forall|j: int| 0 <= j < codes.len() implies #[trigger] codes@[j] >= 0 by {
                    assert(code_valid(self.seen@, self.merges.len() as int, codes@[j]));
                }
            }
            let (p, count) = find_best_pair(&codes);
            proof {
                lemma_best_pair_is(codes@, p);
            }
            if count < 2 {
                break;
            }
            proof {
                lemma_count_occurs(codes@, p, codes.len() - 1);
                let j = choose|j: int| 0 <= j < codes.len() - 1 && pair_at(codes@, j, p);
                assert(code_valid(self.seen@, self.merges.len() as int, codes@[j]));
                assert(code_valid(self.seen@, self.merges.len() as int, codes@[j + 1]));
            }
            let code = CODE_POINT_START + self.merges.len() as i32;
            let next = rebuild_seq(&codes, p, code);
            let ghost m_old = self.merges@;
            self.merges.push(p);
            codes = next;
            proof {
                assert(code == merge_code(m_old.len() as int));
                assert forall|k: int|
                    #![trigger self.merges@[k]]
                    0 <= k < self.merges@.len() implies code_valid(self.seen@, k, self.merges@[k].b1)
                        && code_valid(self.seen@, k, self.merges@[k].b2) by {
                    if k < m_old.len() {
                        assert(self.merges@[k] == m_old[k]);
                    }
                }
            }
        }
        codes
    }

    /// Trains on `text`: the vocabulary gains the text's bytes and the merges
    /// that `train_reduced` learns.
    pub fn train(&mut self, text: &str)
        requires
            old(self).wf(),
            CODE_POINT_START + old(self).merge_list().len() + text.spec_bytes().len() <= MAX_CODE,
        ensures
            final(self).wf(),
            forall|b: int|
                0 <= b < 256 ==> final(self).seen_table()[b] == (old(self).seen_table()[b]
                    || text.spec_bytes().contains(b as u8)),
            final(self).merge_list() == trained(
                byte_codes(text.spec_bytes()),
                old(self).merge_list(),
            ).1,
            final(self).merge_list().len() <= old(self).merge_list().len()
                + text.spec_bytes().len(),
            final(self).merge_list().subrange(0, old(self).merge_list().len() as int)
                == old(self).merge_list(),
    {
        let _ = self.train_reduced(text);
        proof {
            lemma_train_rounds(byte_codes(text.spec_bytes()), old(self).merge_list());
            lemma_train_extends(byte_codes(text.spec_bytes()), old(self).merge_list());
        }
    }

    /// Number of learned merges.
    pub fn merge_count(&self) -> (r: usize)
        ensures
            r == self.merge_list().len(),
    {
        self.merges.len()
    }

    /// Number of vocabulary entries: the bytes seen plus the learned merges.
    pub fn vocab_size(&self) -> (r: usize)
        requires
            self.wf(),
        ensures
            r == seen_count(self.seen_table(), 256) + self.merge_list().len(),
    {
        let mut c: usize = 0;
        let mut b: usize = 0;
        while b < 256
            invariant
                self.wf(),
                b <= 256,
                c == seen_count(self.seen@, b as int),
                c <= b,
            decreases 256 - b,
        {
            if self.seen[b] {
                c = c + 1;
            }
            b = b + 1;
        }
        c + self.merges.len()
    }

    /// The vocabulary entry of `code`, if it has one.
    pub fn entry(&self, code: i32) -> (r: Option<VocabEntry>)
        requires
            self.wf(),
        ensures
            r == (if self.vocab().contains_key(code as int) {
                Some(self.vocab()[code as int])
            } else {
                None
            }),
    {
        if 0 <= code && code < CODE_POINT_START {
            if self.seen[code as usize] {
                Some(VocabEntry::Byte(code))
            } else {
                None
            }
        } else if code >= CODE_POINT_START && ((code - CODE_POINT_START) as usize) < self.merges.len() {
            Some(VocabEntry::Pair(self.merges[(code - CODE_POINT_START) as usize]))
        } else {
            None
        }
    }

    /// Index of the first merge equal to `p`.
    fn find_merge(&self, p: Pair) -> (r: Option<usize>)
        requires
            self.wf(),
        ensures
            r.is_some() ==> r.unwrap() < self.merge_list().len() && first_merge(self.merge_list(), p)
                == Some(r.unwrap() as int),
            r.is_none() ==> first_merge(self.merge_list(), p) == None::<int>,
    {
        let mut k: usize = 0;
        while k < self.merges.len()
            invariant
                k <= self.merges.len(),
                first_merge(self.merges@, p) == first_merge_from(self.merges@, p, k as int),
            decreases self.merges.len() - k,
        {
            if self.merges[k] == p {
                return Some(k);
            }
            k = k + 1;
        }
        None
    }

    /// One encoding pass over `s`.
    fn merge_pass_exec(&self, s: &Vec<i32>) -> (r: Vec<i32>)
        requires
            self.wf(),
        ensures
            r@ == merge_pass(self.merge_list(), s@),
    {
        if s.len() == 0 {
            return Vec::new();
        }
        let ghost m = self.merges@;
        let mut out: Vec<i32> = Vec::new();
        let mut cur: i32 = s[0];
        let mut i: usize = 1;
        while i < s.len()
            invariant
                self.wf(),
                m == self.merges@,
                1 <= i <= s.len(),
                out@ + merge_pass_from(m, s@, i as int, cur) == merge_pass(m, s@),
            decreases s.len() - i,
        {
            match self.find_merge(Pair { b1: cur, b2: s[i] }) {
                Some(k) => {
                    cur = CODE_POINT_START + k as i32;
                    assert(cur == merge_code(k as int));
                },
                None => {
                    out.push(cur);
                    cur = s[i];
                    assert(out@ + merge_pass_from(m, s@, i + 1, cur) =~= merge_pass(m, s@));
                },
            }
            i = i + 1;
        }
        out.push(cur);
        assert(out@ =~= merge_pass(m, s@));
        out
    }

    /// Encodes a code sequence: passes repeat until one merges nothing.
    pub fn encode_seq(&self, codes: Vec<i32>) -> (r: Vec<i32>)
        requires
            self.wf(),
        ensures
            r@ == encode_codes(self.merge_list(), codes@),
    {
        let mut s = codes;
        loop
            invariant
                self.wf(),
                encode_codes(self.merge_list(), codes@) == encode_codes(self.merge_list(), s@),
            decreases s.len(),
        {
            let t = self.merge_pass_exec(&s);
            if t.len() < s.len() {
                s = t;
            } else {
                return s;
            }
        }
    }

    /// Encodes `text`: its bytes are the initial codes, then adjacent pairs
    /// that form a merge are replaced by the merge's code, pass after pass.
    pub fn encode(&self, text: &str) -> (r: Vec<i32>)
        requires
            self.wf(),
        ensures
            r@ == encode_codes(self.merge_list(), byte_codes(text.spec_bytes())),
    {
        let bytes = text.as_bytes();
        let mut codes: Vec<i32> = Vec::new();
        let mut i: usize = 0;
        while i < bytes.len()
            invariant
                bytes@ == text.spec_bytes(),
                i <= bytes.len(),
                codes@ == byte_codes(bytes@.subrange(0, i as int)),
            decreases bytes.len() - i,
        {
            codes.push(bytes[i] as i32);
            i = i + 1;
            assert(codes@ =~= byte_codes(bytes@.subrange(0, i as int)));
        }
        assert(bytes@.subrange(0, i as int) =~= bytes@);
        self.encode_seq(codes)
    }

    /// One decoding pass: each merge code becomes its two parts. Returns the
    /// new sequence and whether any code was expanded.
    fn expand_pass(&self, s: &Vec<i32>) -> (r: (Vec<i32>, bool))
        requires
            self.wf(),
        ensures
            flat(self.merge_list(), r.0@) == flat(self.merge_list(), s@),
            r.0.len() >= s.len(),
            r.1 ==> r.0.len() > s.len(),
            !r.1 ==> forall|i: int|
                0 <= i < s.len() ==> is_terminal(self.merge_list(), #[trigger] s@[i]),
    {
        let ghost m = self.merges@;
        let mut out: Vec<i32> = Vec::new();
        let mut expanded = false;
        let mut i: usize = 0;
        while i < s.len()
            invariant
                self.wf(),
                m == self.merges@,
                i <= s.len(),
                flat(m, out@) == flat(m, s@.subrange(0, i as int)),
                out.len() >= i,
                expanded ==> out.len() > i,
                !expanded ==> forall|j: int| 0 <= j < i ==> is_terminal(m, #[trigger] s@[j]),
            decreases s.len() - i,
        {
            let c = s[i];
            let ghost prev = out@;
            proof {
                assert(s@.subrange(0, i + 1) =~= s@.subrange(0, i as int).push(c));
                lemma_flat_push(m, s@.subrange(0, i as int), c);
            }
            if c >= CODE_POINT_START && ((c - CODE_POINT_START) as usize) < self.merges.len() {
                let k = (c - CODE_POINT_START) as usize;
                let p = self.merges[k];
                out.push(p.b1);
                out.push(p.b2);
                expanded = true;
                proof {
                    lemma_expansion_merge(self.seen@, m, k as int);
                    assert(c == merge_code(k as int));
                    lemma_flat_push(m, prev, p.b1);
                    lemma_flat_push(m, prev.push(p.b1), p.b2);
                    assert(out@ == prev.push(p.b1).push(p.b2));
                }
            } else {
                out.push(c);
                proof {
                    lemma_flat_push(m, prev, c);
                }
            }
            i = i + 1;
        }
        assert(s@.subrange(0, i as int) =~= s@);
        (out, expanded)
    }

    /// Decodes to codes: passes expand merge codes until none is left. The
    /// result is the full expansion of `tokens`.
    pub fn decode_codes(&self, tokens: &[i32]) -> (r: Vec<i32>)
        requires
            self.wf(),
        ensures
            r@ == flat(self.merge_list(), tokens@),
    {
        let ghost m = self.merges@;
        let mut s: Vec<i32> = Vec::new();
        let mut i: usize = 0;
        while i < tokens.len()
            invariant
                i <= tokens.len(),
                s@ == tokens@.subrange(0, i as int),
            decreases tokens.len() - i,
        {
            s.push(tokens[i]);
            i = i + 1;
            assert(s@ =~= tokens@.subrange(0, i as int));
        }
        assert(tokens@.subrange(0, i as int) =~= tokens@);
        loop
            invariant
                self.wf(),
                m == self.merges@,
                flat(m, s@) == flat(m, tokens@),
            decreases flat(m, s@).len() - s.len(),
        {
            proof {
                lemma_flat_len(m, s@);
            }
            let (t, expanded) = self.expand_pass(&s);
            if !expanded {
                proof {
                    lemma_flat_terminal(m, s@);
                }
                return s;
            }
            proof {
                lemma_flat_len(m, t@);
            }
            s = t;
        }
    }

    /// Decodes to bytes: the full expansion of `tokens`, each code taken as a
    /// byte (its low eight bits).
    pub fn decode_bytes(&self, tokens: &[i32]) -> (r: Vec<u8>)
        requires
            self.wf(),
        ensures
            r@ == code_bytes(flat(self.merge_list(), tokens@)),
    {
        let codes = self.decode_codes(tokens);
        let mut out: Vec<u8> = Vec::new();
        let mut i: usize = 0;
        while i < codes.len()
            invariant
                i <= codes.len(),
                out@ == code_bytes(codes@.subrange(0, i as int)),
            decreases codes.len() - i,
        {
            out.push(low_byte(codes[i]));
            i = i + 1;
            assert(out@ =~= code_bytes(codes@.subrange(0, i as int)));
        }
        assert(codes@.subrange(0, i as int) =~= codes@);
        out
    }

    /// Decodes `tokens` to text: the bytes of `decode_bytes` read as UTF-8,
    /// or `None` when they are not valid UTF-8.
    pub fn decode(&self, tokens: &[i32]) -> (r: Option<String>)
        requires
            self.wf(),
        ensures
            r is None <==> !vstd::utf8::valid_utf8(code_bytes(flat(self.merge_list(), tokens@))),
            r matches Some(s) ==> s@ == vstd::utf8::decode_utf8(
                code_bytes(flat(self.merge_list(), tokens@)),
            ),
    {
        utf8_string(self.decode_bytes(tokens))
    }
}

/// The low eight bits of a code.
#[verifier::truncate]
fn low_byte(c: i32) -> (r: u8)
    ensures
        r == code_byte(c),
{
    c as u8
}

/// Relies on `String::from_utf8`: it succeeds exactly when the bytes are valid
/// UTF-8, and the string then holds the characters that the bytes encode.
#[verifier::external_body]
fn utf8_string(b: Vec<u8>) -> (r: Option<String>)
    ensures
        r.is_some() == vstd::utf8::valid_utf8(b@),
        r.is_some() ==> r.unwrap()@ == vstd::utf8::decode_utf8(b@),
{
    String::from_utf8(b).ok()
}

} // verus!
