//! Delimiter scanner: first occurrence of a byte in a byte range.

use vstd::prelude::*;

verus! {

/// Index of the first occurrence of `b` in `s`, or `s.len()` if `b` is absent.
pub open spec fn find_idx(s: Seq<u8>, b: u8) -> int
    decreases s.len(),
{
    if s.len() == 0 {
        0
    } else if s[0] == b {
        0
    } else {
        1 + find_idx(s.skip(1), b)
    }
}

/// `find_idx` points at the first occurrence: everything before it differs
/// from `b`, and it lands on `b` whenever it is inside the sequence.
pub proof fn lemma_find_idx(s: Seq<u8>, b: u8)
    ensures
        0 <= find_idx(s, b) <= s.len(),
        find_idx(s, b) < s.len() ==> s[find_idx(s, b)] == b,
        forall|j: int| 0 <= j < find_idx(s, b) ==> s[j] != b,
    decreases s.len(),
{
    if s.len() == 0 {
    } else if s[0] == b {
    } else {
        lemma_find_idx(s.skip(1), b);
        assert forall|j: int| 0 <= j < find_idx(s, b) implies s[j] != b by {
            if j >= 1 {
                assert(s.skip(1)[j - 1] == s[j]);
            }
        }
    }
}

/// A position that holds `b` with no occurrence before it is `find_idx`.
pub proof fn lemma_find_idx_is_first(s: Seq<u8>, b: u8, i: int)
    requires
        0 <= i < s.len(),
        s[i] == b,
        forall|j: int| 0 <= j < i ==> s[j] != b,
    ensures
        find_idx(s, b) == i,
{
    lemma_find_idx(s, b);
    if find_idx(s, b) < i {
        assert(s[find_idx(s, b)] != b);
    }
}

/// `b` occurs in `a + c` first where it occurs in `a`, and only past `a`
/// where `a` holds no occurrence.
pub proof fn lemma_find_idx_concat(a: Seq<u8>, c: Seq<u8>, b: u8)
    ensures
        find_idx(a + c, b) == if find_idx(a, b) < a.len() {
            find_idx(a, b)
        } else {
            a.len() + find_idx(c, b)
        },
    decreases a.len(),
{
    if a.len() == 0 {
        assert(a + c =~= c);
    } else if a[0] == b {
        assert((a + c)[0] == b);
    } else {
        assert((a + c)[0] == a[0]);
        lemma_find_idx_concat(a.skip(1), c, b);
        assert((a + c).skip(1) =~= a.skip(1) + c);
    }
}

/// In an eight-byte word whose zero-byte detector fired nowhere, no byte
/// equals the needle. The detector is the carry trick: a byte of `x` is
/// zero exactly where `(x - 0x01..01) & !x & 0x80..80` has its high bit.
proof fn lemma_block_no_match(
    b0: u8,
    b1: u8,
    b2: u8,
    b3: u8,
    b4: u8,
    b5: u8,
    b6: u8,
    b7: u8,
    needle: u8,
    mask: u64,
    block: u64,
    x: u64,
    d: u64,
)
    requires
        block == (b0 as u64) | ((b1 as u64) << 8u64) | ((b2 as u64) << 16u64) | ((b3 as u64)
            << 24u64) | ((b4 as u64) << 32u64) | ((b5 as u64) << 40u64) | ((b6 as u64) << 48u64)
            | ((b7 as u64) << 56u64),
        mask == needle as u64 * 0x0101010101010101,
        x == block ^ mask,
        d == x.wrapping_sub(0x0101010101010101),
        d & !x & 0x8080808080808080 == 0,
    ensures
        b0 != needle,
        b1 != needle,
        b2 != needle,
        b3 != needle,
        b4 != needle,
        b5 != needle,
        b6 != needle,
        b7 != needle,
{
    assert(b0 != needle && b1 != needle && b2 != needle && b3 != needle && b4 != needle && b5
        != needle && b6 != needle && b7 != needle) by (bit_vector)
        requires
            block == (b0 as u64) | ((b1 as u64) << 8u64) | ((b2 as u64) << 16u64) | ((b3 as u64)
                << 24u64) | ((b4 as u64) << 32u64) | ((b5 as u64) << 40u64) | ((b6 as u64)
                << 48u64) | ((b7 as u64) << 56u64),
            mask == needle as u64 * 0x0101010101010101,
            x == block ^ mask,
            d == x.wrapping_sub(0x0101010101010101),
            d & !x & 0x8080808080808080 == 0,
    ;
}

/// Offset of the first occurrence of `needle` within `haystack`, or `None`
/// if it is absent; identical to a byte-by-byte scan. Whole words are
/// compared eight bytes at a step, with a byte-wise scan for a word that
/// may hold the needle and for the tail shorter than a word.
pub fn find_next_byte(haystack: &[u8], needle: u8) -> (r: Option<usize>)
    ensures
        match r {
            Some(i) => i == find_idx(haystack@, needle) && i < haystack@.len(),
            None => find_idx(haystack@, needle) == haystack@.len(),
        },
{
    let n = haystack.len();
    let mask: u64 = needle as u64 * 0x0101010101010101;
    let mut idx: usize = 0;
    while n - idx >= 8
        invariant
            n == haystack@.len(),
            0 <= idx <= n,
            mask == needle as u64 * 0x0101010101010101,
            forall|j: int| 0 <= j < idx ==> haystack@[j] != needle,
        ensures
            n == haystack@.len(),
            0 <= idx <= n,
            forall|j: int| 0 <= j < idx ==> haystack@[j] != needle,
        decreases n - idx,
    {
        let block: u64 = (haystack[idx] as u64) | ((haystack[idx + 1] as u64) << 8u64) | ((
        haystack[idx + 2] as u64) << 16u64) | ((haystack[idx + 3] as u64) << 24u64) | ((haystack[idx
            + 4] as u64) << 32u64) | ((haystack[idx + 5] as u64) << 40u64) | ((haystack[idx
            + 6] as u64) << 48u64) | ((haystack[idx + 7] as u64) << 56u64);
        let x = block ^ mask;
        let d = x.wrapping_sub(0x0101010101010101);
        if d & !x & 0x8080808080808080 != 0 {
            // some byte of this word may be the needle: scan it below
            break;
        }
        proof {
            lemma_block_no_match(
                haystack@[idx as int],
                haystack@[idx + 1],
                haystack@[idx + 2],
                haystack@[idx + 3],
                haystack@[idx + 4],
                haystack@[idx + 5],
                haystack@[idx + 6],
                haystack@[idx + 7],
                needle,
                mask,
                block,
                x,
                d,
            );
        }
        idx = idx + 8;
    }
    while idx < n
        invariant
            n == haystack@.len(),
            0 <= idx <= n,
            forall|j: int| 0 <= j < idx ==> haystack@[j] != needle,
        decreases n - idx,
    {
        if haystack[idx] == needle {
            proof {
                lemma_find_idx_is_first(haystack@, needle, idx as int);
            }
            return Some(idx);
        }
        idx = idx + 1;
    }
    proof {
        lemma_find_idx(haystack@, needle);
        if find_idx(haystack@, needle) < haystack@.len() {
            assert(haystack@[find_idx(haystack@, needle)] != needle);
        }
    }
    None
}

/// Offset of the next record separator (newline) in `haystack`.
pub fn find_next_newline(haystack: &[u8]) -> (r: Option<usize>)
    ensures
        match r {
            Some(i) => i == find_idx(haystack@, 10) && i < haystack@.len(),
            None => find_idx(haystack@, 10) == haystack@.len(),
        },
{
    find_next_byte(haystack, 10)
}

/// Offset of the next field separator (semicolon) in `haystack`.
pub fn find_next_semicolon(haystack: &[u8]) -> (r: Option<usize>)
    ensures
        match r {
            Some(i) => i == find_idx(haystack@, 59) && i < haystack@.len(),
            None => find_idx(haystack@, 59) == haystack@.len(),
        },
{
    find_next_byte(haystack, 59)
}

} // verus!
