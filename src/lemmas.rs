//! Supporting facts about the model.

use vstd::prelude::*;
use crate::model::{
    Pair, pair_at, pair_count, pair_count_upto, is_best_pair, best_pair, CODE_POINT_START,
    expand_below, expansion, flat, vocab_wf, code_valid, merge_code,
};

verus! {

/// A pair that is counted occurs at some position, and one that occurs is counted.
pub proof fn lemma_count_occurs(s: Seq<i32>, p: Pair, n: int)
    requires
        n <= s.len() - 1,
    ensures
        pair_count_upto(s, p, n) >= 1 <==> exists|i: int| 0 <= i < n && pair_at(s, i, p),
    decreases n,
{
    if n > 0 {
        lemma_count_occurs(s, p, n - 1);
        if pair_at(s, n - 1, p) {
            assert(0 <= n - 1 < n && pair_at(s, n - 1, p));
        } else {
            if exists|i: int| 0 <= i < n && pair_at(s, i, p) {
                let i = choose|i: int| 0 <= i < n && pair_at(s, i, p);
                assert(0 <= i < n - 1 && pair_at(s, i, p));
            }
        }
    }
}

/// The count of pairs below `n` is at most `n`.
pub proof fn lemma_count_bound(s: Seq<i32>, p: Pair, n: int)
    requires
        n >= 0,
    ensures
        pair_count_upto(s, p, n) <= n,
    decreases n,
{
    if n > 0 {
        lemma_count_bound(s, p, n - 1);
    }
}

/// Two best pairs of one sequence are equal.
pub proof fn lemma_best_unique(s: Seq<i32>, p: Pair, q: Pair)
    requires
        is_best_pair(s, p),
        is_best_pair(s, q),
    ensures
        p == q,
{
    assert(pair_count(s, q) <= pair_count(s, p));
    assert(pair_count(s, p) <= pair_count(s, q));
}

/// The chosen best pair is the one that `p` is, once `p` is best.
pub proof fn lemma_best_pair_is(s: Seq<i32>, p: Pair)
    requires
        is_best_pair(s, p),
    ensures
        best_pair(s) == p,
{
    lemma_best_unique(s, p, best_pair(s));
}

/// `c` is left as it is by decoding: it is no merge code.
pub open spec fn is_terminal(m: Seq<Pair>, c: i32) -> bool {
    !(CODE_POINT_START <= c < CODE_POINT_START + m.len())
}

/// Every expansion holds at least one code.
pub proof fn lemma_expand_nonempty(m: Seq<Pair>, c: i32, n: nat)
    ensures
        expand_below(m, c, n).len() >= 1,
    decreases n,
{
    if CODE_POINT_START <= c && c - CODE_POINT_START < n && n <= m.len() {
        let k = (c - CODE_POINT_START) as nat;
        lemma_expand_nonempty(m, m[k as int].b1, k);
        lemma_expand_nonempty(m, m[k as int].b2, k);
    }
}

/// The full expansion of a sequence is at least as long as the sequence.
pub proof fn lemma_flat_len(m: Seq<Pair>, s: Seq<i32>)
    ensures
        flat(m, s).len() >= s.len(),
    decreases s.len(),
{
    if s.len() > 0 {
        lemma_flat_len(m, s.drop_last());
        lemma_expand_nonempty(m, s.last(), m.len());
    }
}

/// Expanding one more code appends its expansion.
pub proof fn lemma_flat_push(m: Seq<Pair>, s: Seq<i32>, c: i32)
    ensures
        flat(m, s.push(c)) == flat(m, s) + expansion(m, c),
{
    assert(s.push(c).drop_last() =~= s);
}

/// The full expansion of a concatenation is the concatenation of the expansions.
pub proof fn lemma_flat_concat(m: Seq<Pair>, a: Seq<i32>, b: Seq<i32>)
    ensures
        flat(m, a + b) == flat(m, a) + flat(m, b),
    decreases b.len(),
{
    if b.len() == 0 {
        assert(a + b =~= a);
        assert(flat(m, a) + flat(m, b) =~= flat(m, a));
    } else {
        lemma_flat_concat(m, a, b.drop_last());
        assert((a + b).drop_last() =~= a + b.drop_last());
        assert(flat(m, a + b) =~= flat(m, a) + flat(m, b));
    }
}

/// The expansion of a single code.
pub proof fn lemma_flat_single(m: Seq<Pair>, c: i32)
    ensures
        flat(m, seq![c]) == expansion(m, c),
{
    let e = Seq::<i32>::empty();
    assert(seq![c] =~= e.push(c));
    lemma_flat_push(m, e, c);
    assert(flat(m, e) =~= e);
    assert(e + expansion(m, c) =~= expansion(m, c));
}

/// A sequence of terminal codes is its own expansion.
pub proof fn lemma_flat_terminal(m: Seq<Pair>, s: Seq<i32>)
    requires
        forall|i: int| 0 <= i < s.len() ==> is_terminal(m, #[trigger] s[i]),
    ensures
        flat(m, s) == s,
    decreases s.len(),
{
    if s.len() > 0 {
        lemma_flat_terminal(m, s.drop_last());
        assert(is_terminal(m, s[s.len() - 1]));
        assert(flat(m, s) =~= s);
    }
}

/// Under a well-formed vocabulary, a merge code expands to the expansions of
/// its two parts.
pub proof fn lemma_expansion_merge(seen: Seq<bool>, m: Seq<Pair>, k: int)
    requires
        vocab_wf(seen, m),
        0 <= k < m.len(),
    ensures
        expansion(m, merge_code(k)) == expansion(m, m[k].b1) + expansion(m, m[k].b2),
{
    assert(code_valid(seen, k, m[k].b1) && code_valid(seen, k, m[k].b2));
    assert(merge_code(k) == CODE_POINT_START + k);
    assert(expand_below(m, m[k].b1, k as nat) == expand_below(m, m[k].b1, m.len()));
    assert(expand_below(m, m[k].b2, k as nat) == expand_below(m, m[k].b2, m.len()));
}

} // verus!
