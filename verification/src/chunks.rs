//! Chunk splitter: divides the buffer into contiguous, record-aligned
//! ranges whose concatenation is exactly the buffer.

use vstd::prelude::*;
use vstd::slice::slice_subrange;
use crate::scan::find_next_newline;

verus! {

/// The ranges partition `[0, s.len())`: they are contiguous, non-empty,
/// start at zero and end at the buffer's end, and every boundary between
/// two ranges falls one past a newline, so no range splits a record.
pub open spec fn chunks_ok(cs: Seq<(usize, usize)>, s: Seq<u8>) -> bool {
    &&& (cs.len() == 0 <==> s.len() == 0)
    &&& (cs.len() > 0 ==> cs[0].0 == 0 && cs.last().1 == s.len())
    &&& forall|i: int| 0 <= i < cs.len() ==> (#[trigger] cs[i]).0 < cs[i].1 <= s.len()
    &&& forall|i: int| 0 <= i < cs.len() - 1 ==> (#[trigger] cs[i]).1 == cs[i + 1].0
    &&& forall|i: int| 0 <= i < cs.len() - 1 ==> s[(#[trigger] cs[i]).1 - 1] == 10
}

/// The bytes of the ranges, concatenated in order.
pub open spec fn concat_chunks(s: Seq<u8>, cs: Seq<(usize, usize)>) -> Seq<u8>
    decreases cs.len(),
{
    if cs.len() == 0 {
        Seq::empty()
    } else {
        concat_chunks(s, cs.drop_last()) + s.subrange(
            cs.last().0 as int,
            cs.last().1 as int,
        )
    }
}

/// Contiguous ranges from zero concatenate to the prefix they cover.
proof fn lemma_concat_chunks_prefix(s: Seq<u8>, cs: Seq<(usize, usize)>)
    requires
        cs.len() > 0 ==> cs[0].0 == 0,
        forall|i: int| 0 <= i < cs.len() ==> (#[trigger] cs[i]).0 <= cs[i].1 <= s.len(),
        forall|i: int| 0 <= i < cs.len() - 1 ==> (#[trigger] cs[i]).1 == cs[i + 1].0,
    ensures
        concat_chunks(s, cs) == s.take(
            if cs.len() == 0 {
                0
            } else {
                cs.last().1 as int
            },
        ),
    decreases cs.len(),
{
    if cs.len() == 0 {
        assert(concat_chunks(s, cs) =~= s.take(0));
    } else {
        let csp = cs.drop_last();
        assert forall|i: int| 0 <= i < csp.len() implies (#[trigger] csp[i]).0 <= csp[i].1
            <= s.len() by {
            assert(csp[i] == cs[i]);
        }
        assert forall|i: int| 0 <= i < csp.len() - 1 implies (#[trigger] csp[i]).1 == csp[i
            + 1].0 by {
            assert(csp[i] == cs[i]);
            assert(csp[i + 1] == cs[i + 1]);
        }
        if csp.len() > 0 {
            assert(csp[0] == cs[0]);
        }
        lemma_concat_chunks_prefix(s, csp);
        let lo = if csp.len() == 0 {
            0
        } else {
            csp.last().1 as int
        };
        assert(lo == cs.last().0 as int);
        assert(s.take(lo) + s.subrange(cs.last().0 as int, cs.last().1 as int) =~= s.take(
            cs.last().1 as int,
        ));
    }
}

/// Re-concatenating the ranges of a chunk partition reproduces the
/// buffer exactly: no bytes lost, duplicated, or reordered.
pub proof fn lemma_chunks_concat(s: Seq<u8>, cs: Seq<(usize, usize)>)
    requires
        chunks_ok(cs, s),
    ensures
        concat_chunks(s, cs) == s,
{
    lemma_concat_chunks_prefix(s, cs);
    if cs.len() == 0 {
        assert(s =~= Seq::empty());
    } else {
        assert(s.take(s.len() as int) =~= s);
    }
}

/// The approximate chunk size for a buffer length and a chunk count.
pub open spec fn split_target(len: int, n: int) -> int {
    if len / n == 0 {
        1
    } else {
        len / n
    }
}

/// Splits the buffer into roughly `n` record-aligned chunks: each
/// approximate boundary advances to one past the next newline, or to the
/// buffer's end. An empty buffer yields no chunks. Every chunk but the
/// last reaches past the approximate split point and ends at the first
/// newline at or after that point.
pub fn split_chunks(buf: &[u8], n: usize) -> (r: Vec<(usize, usize)>)
    requires
        1 <= n,
    ensures
        chunks_ok(r@, buf@),
        forall|i: int|
            0 <= i < r@.len() - 1 ==> (#[trigger] r@[i]).1 - r@[i].0 > split_target(
                buf@.len() as int,
                n as int,
            ),
        forall|i: int, j: int|
            #![trigger r@[i], buf@[j]]
            0 <= i < r@.len() - 1 && r@[i].0 + split_target(buf@.len() as int, n as int) <= j
                < r@[i].1 - 1 ==> buf@[j] != 10,
{
    let len = buf.len();
    let q = len / n;
    let target: usize = if q == 0 {
        1
    } else {
        q
    };
    let mut chunks: Vec<(usize, usize)> = Vec::new();
    let mut pos: usize = 0;
    while pos < len
        invariant
            len == buf@.len(),
            1 <= target,
            0 <= pos <= len,
            chunks@.len() == 0 ==> pos == 0,
            chunks@.len() > 0 ==> chunks@[0].0 == 0 && chunks@.last().1 == pos,
            forall|i: int| 0 <= i < chunks@.len() ==> (#[trigger] chunks@[i]).0 < chunks@[i].1
                <= pos,
            forall|i: int|
                0 <= i < chunks@.len() - 1 ==> (#[trigger] chunks@[i]).1 == chunks@[i + 1].0,
            forall|i: int|
                0 <= i < chunks@.len() ==> ((#[trigger] chunks@[i]).1 < len ==> buf@[chunks@[i].1
                    - 1] == 10),
            target == split_target(len as int, n as int),
            forall|i: int|
                0 <= i < chunks@.len() ==> ((#[trigger] chunks@[i]).1 < len ==> chunks@[i].1
                    - chunks@[i].0 > target),
            forall|i: int, j: int|
                #![trigger chunks@[i], buf@[j]]
                0 <= i < chunks@.len() && chunks@[i].1 < len && chunks@[i].0 + target <= j
                    < chunks@[i].1 - 1 ==> buf@[j] != 10,
        decreases len - pos,
    {
        let boundary: usize = if len - pos <= target {
            len
        } else {
            let approx = pos + target;
            let tail = slice_subrange(buf, approx, len);
            match find_next_newline(tail) {
                Some(k) => {
                    proof {
                        crate::scan::lemma_find_idx(tail@, 10);
                        assert(buf@[approx + k] == tail@[k as int]);
                        assert forall|j: int| approx <= j < approx + k implies buf@[j] != 10 by {
                            assert(tail@[j - approx] == buf@[j]);
                        }
                    }
                    approx + k + 1
                },
                None => len,
            }
        };
        chunks.push((pos, boundary));
        pos = boundary;
    }
    proof {
        if buf@.len() > 0 {
            assert(chunks@.len() > 0);
        }
        assert forall|i: int| 0 <= i < chunks@.len() - 1 implies buf@[(#[trigger] chunks@[i]).1
            - 1] == 10 by {
            assert(chunks@[i].1 == chunks@[i + 1].0);
            assert(chunks@[i + 1].0 < chunks@[i + 1].1 <= len);
        }
        assert forall|i: int|
            0 <= i < chunks@.len() - 1 implies (#[trigger] chunks@[i]).1 - chunks@[i].0
            > split_target(len as int, n as int) by {
            assert(chunks@[i].1 == chunks@[i + 1].0);
            assert(chunks@[i + 1].0 < chunks@[i + 1].1 <= len);
        }
        assert forall|i: int, j: int|
            #![trigger chunks@[i], buf@[j]]
            0 <= i < chunks@.len() - 1 && chunks@[i].0 + split_target(len as int, n as int) <= j
                < chunks@[i].1 - 1 implies buf@[j] != 10 by {
            assert(chunks@[i].1 == chunks@[i + 1].0);
            assert(chunks@[i + 1].0 < chunks@[i + 1].1 <= len);
        }
    }
    chunks
}

} // verus!
