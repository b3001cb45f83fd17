//! The mathematical model of codes, pairs, and the three operations.

use vstd::prelude::*;

verus! {

/// First code assigned to a learned merge; codes below it are raw bytes.
pub const CODE_POINT_START: i32 = 256;

/// Largest code that a merge may receive.
pub const MAX_CODE: i32 = 0x7fff_ffff;

/// An ordered pair of adjacent codes.
#[derive(Clone, Copy, Debug, PartialEq, Eq, Structural, Hash)]
pub struct Pair {
    pub b1: i32,
    pub b2: i32,
}

/// What a vocabulary code stands for.
#[derive(Clone, Copy, Debug, PartialEq, Eq, Structural)]
pub enum VocabEntry {
    /// A raw byte, whose code is its own value.
    Byte(i32),
    /// A merge of two earlier codes.
    Pair(Pair),
}

/// `p` stands at positions `i` and `i + 1` of `s`.
pub open spec fn pair_at(s: Seq<i32>, i: int, p: Pair) -> bool {
    0 <= i && i + 1 < s.len() && s[i] == p.b1 && s[i + 1] == p.b2
}

/// The pair that starts at position `i` of `s`.
pub open spec fn pair_of(s: Seq<i32>, i: int) -> Pair {
    Pair { b1: s[i], b2: s[i + 1] }
}

/// Number of positions below `n` at which `p` stands in `s`.
pub open spec fn pair_count_upto(s: Seq<i32>, p: Pair, n: int) -> nat
    decreases n,
{
    if n <= 0 {
        0
    } else {
        pair_count_upto(s, p, n - 1) + if pair_at(s, n - 1, p) {
            1nat
        } else {
            0nat
        }
    }
}

/// Number of adjacent occurrences of `p` in `s` (overlapping ones included).
pub open spec fn pair_count(s: Seq<i32>, p: Pair) -> nat {
    pair_count_upto(s, p, s.len() - 1)
}

/// Lexicographic order on pairs: first code, then second code.
pub open spec fn pair_lt(p: Pair, q: Pair) -> bool {
    p.b1 < q.b1 || (p.b1 == q.b1 && p.b2 < q.b2)
}

/// `p` occurs in `s`, no pair occurs more often, and among the pairs that occur
/// as often, `p` is the least in lexicographic order.
pub open spec fn is_best_pair(s: Seq<i32>, p: Pair) -> bool {
    &&& pair_count(s, p) >= 1
    &&& forall|q: Pair|
        #![trigger pair_count(s, q)]
        pair_count(s, q) <= pair_count(s, p) && (pair_count(s, q) == pair_count(s, p)
            ==> !pair_lt(q, p))
}

/// The most frequent adjacent pair of `s`, ties going to the least pair.
pub open spec fn best_pair(s: Seq<i32>) -> Pair {
    choose|p: Pair| is_best_pair(s, p)
}

/// One training rewrite: position `i` (for `i < len - 1`) becomes `code` where
/// `p` starts there and keeps its code otherwise; the last position is not kept.
pub open spec fn rebuild(s: Seq<i32>, p: Pair, code: i32) -> Seq<i32> {
    Seq::new(
        (s.len() - 1) as nat,
        |i: int|
            if pair_at(s, i, p) {
                code
            } else {
                s[i]
            },
    )
}

/// The code given to the merge at index `k` of the merge list.
pub open spec fn merge_code(k: int) -> i32 {
    (CODE_POINT_START + k) as i32
}

/// Training from sequence `s` with merges `m` already learned: returns the
/// final sequence and the full merge list.
pub open spec fn trained(s: Seq<i32>, m: Seq<Pair>) -> (Seq<i32>, Seq<Pair>)
    decreases s.len(),
{
    if s.len() < 2 {
        (s, m)
    } else if pair_count(s, best_pair(s)) < 2 {
        (s, m)
    } else {
        trained(rebuild(s, best_pair(s), merge_code(m.len() as int)), m.push(best_pair(s)))
    }
}

/// `c` is a valid code once the first `k` merges exist: a byte seen in
/// training, or the code of one of those merges.
pub open spec fn code_valid(seen: Seq<bool>, k: int, c: i32) -> bool {
    (0 <= c < CODE_POINT_START && seen[c as int]) || (CODE_POINT_START <= c
        < CODE_POINT_START + k)
}

/// A vocabulary is well formed: one flag per byte value, every merge code fits
/// in an `i32`, and each merge refers only to codes valid before it.
pub open spec fn vocab_wf(seen: Seq<bool>, m: Seq<Pair>) -> bool {
    &&& seen.len() == 256
    &&& CODE_POINT_START + m.len() <= MAX_CODE
    &&& forall|k: int|
        #![trigger m[k]]
        0 <= k < m.len() ==> code_valid(seen, k, m[k].b1) && code_valid(seen, k, m[k].b2)
}

/// The vocabulary as a map from code to entry.
pub open spec fn vocab_map(seen: Seq<bool>, m: Seq<Pair>) -> Map<int, VocabEntry> {
    Map::new(
        |c: int| (0 <= c < 256 && seen[c]) || (256 <= c < 256 + m.len()),
        |c: int|
            if c < 256 {
                VocabEntry::Byte(c as i32)
            } else {
                VocabEntry::Pair(m[c - 256])
            },
    )
}

/// Number of byte values below `n` marked as seen.
pub open spec fn seen_count(seen: Seq<bool>, n: int) -> nat
    decreases n,
{
    if n <= 0 {
        0
    } else {
        seen_count(seen, n - 1) + if seen[n - 1] {
            1nat
        } else {
            0nat
        }
    }
}

/// Number of times `x` occurs in `s`.
pub open spec fn occurrences(s: Seq<i32>, x: i32) -> nat
    decreases s.len(),
{
    if s.len() == 0 {
        0
    } else {
        (if s[0] == x {
            1nat
        } else {
            0nat
        }) + occurrences(s.subrange(1, s.len() as int), x)
    }
}

/// The codes of a byte string: each byte is its own code.
pub open spec fn byte_codes(b: Seq<u8>) -> Seq<i32> {
    b.map_values(|x: u8| x as i32)
}

/// Index of the first merge at or after `k` equal to `p`.
pub open spec fn first_merge_from(m: Seq<Pair>, p: Pair, k: int) -> Option<int>
    decreases m.len() - k,
{
    if k < 0 || k >= m.len() {
        None
    } else if m[k] == p {
        Some(k)
    } else {
        first_merge_from(m, p, k + 1)
    }
}

/// Index of the first merge equal to `p`, if any.
pub open spec fn first_merge(m: Seq<Pair>, p: Pair) -> Option<int> {
    first_merge_from(m, p, 0)
}

/// One encoding pass from position `i` of `s`, where `cur` is the code pending
/// at position `i - 1`: a pending code that forms a merge with the next code is
/// replaced by that merge's code, otherwise it is emitted.
pub open spec fn merge_pass_from(m: Seq<Pair>, s: Seq<i32>, i: int, cur: i32) -> Seq<i32>
    decreases s.len() - i,
{
    if i >= s.len() || i < 0 {
        seq![cur]
    } else {
        match first_merge(m, Pair { b1: cur, b2: s[i] }) {
            Some(k) => merge_pass_from(m, s, i + 1, merge_code(k)),
            None => seq![cur] + merge_pass_from(m, s, i + 1, s[i]),
        }
    }
}

/// One full left-to-right encoding pass over `s`.
pub open spec fn merge_pass(m: Seq<Pair>, s: Seq<i32>) -> Seq<i32> {
    if s.len() == 0 {
        s
    } else {
        merge_pass_from(m, s, 1, s[0])
    }
}

/// Encoding: passes repeat until one leaves the length unchanged.
pub open spec fn encode_codes(m: Seq<Pair>, s: Seq<i32>) -> Seq<i32>
    decreases s.len(),
{
    let t = merge_pass(m, s);
    if t.len() < s.len() {
        encode_codes(m, t)
    } else {
        s
    }
}

/// The expansion of `c` through the first `n` merges.
pub open spec fn expand_below(m: Seq<Pair>, c: i32, n: nat) -> Seq<i32>
    decreases n,
{
    if CODE_POINT_START <= c && c - CODE_POINT_START < n && n <= m.len() {
        let k = (c - CODE_POINT_START) as nat;
        expand_below(m, m[k as int].b1, k) + expand_below(m, m[k as int].b2, k)
    } else {
        seq![c]
    }
}

/// The full expansion of code `c`.
pub open spec fn expansion(m: Seq<Pair>, c: i32) -> Seq<i32> {
    expand_below(m, c, m.len())
}

/// The full expansion of a code sequence: each code's expansion, in order.
pub open spec fn flat(m: Seq<Pair>, s: Seq<i32>) -> Seq<i32>
    decreases s.len(),
{
    if s.len() == 0 {
        seq![]
    } else {
        flat(m, s.drop_last()) + expansion(m, s.last())
    }
}

/// The byte that a code becomes once fully expanded (its low eight bits).
pub open spec fn code_byte(c: i32) -> u8 {
    c as u8
}

/// The bytes of a fully expanded code sequence.
pub open spec fn code_bytes(s: Seq<i32>) -> Seq<u8> {
    s.map_values(|c: i32| code_byte(c))
}

} // verus!
