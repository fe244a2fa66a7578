//! Per-worker aggregation of one chunk, and the engine driver that
//! splits, aggregates and merges. The driver's contract does not mention
//! the worker count: the result is independent of the partitioning.

use vstd::prelude::*;
use vstd::pervasive::unreached;
use vstd::slice::slice_subrange;
use crate::chunks::chunks_ok;
use crate::chunks::split_chunks;
use crate::model::line_step;
use crate::model::lines_of;
use crate::model::map_record;
use crate::model::parse_line;
use crate::model::spec_aggregate;
use crate::model::lemma_aggregate_split;
use crate::model::lemma_lines_concat;
use crate::parse::lemma_temp_value_range;
use crate::parse::parse_temp_checked;
use crate::scan::find_idx;
use crate::scan::find_next_newline;
use crate::scan::find_next_semicolon;
use crate::scan::lemma_find_idx;
use crate::scan::lemma_find_idx_is_first;
use crate::table::Table;

verus! {

/// Folds one line into the table: the record before the first separator
/// and after it, skipped when malformed.
fn process_line(t: &mut Table, line: &[u8])
    requires
        old(t).wf(),
        forall|k: Seq<u8>| #[trigger] old(t)@.dom().contains(k) ==> old(t)@[k].count < u64::MAX,
    ensures
        final(t).wf(),
        final(t)@ == line_step(old(t)@, line@),
{
    let n = line.len();
    match find_next_semicolon(line) {
        Some(si) => {
            if si > 0 {
                let value_span = slice_subrange(line, si + 1, n);
                proof {
                    assert(value_span@ =~= line@.skip(si + 1));
                }
                match parse_temp_checked(value_span) {
                    Some(v) => {
                        let key = slice_subrange(line, 0, si);
                        proof {
                            lemma_temp_value_range(line@.skip(si + 1));
                            assert(key@ =~= line@.take(si as int));
                            assert(parse_line(line@) == Some((line@.take(si as int), v as int)));
                        }
                        t.record(key, v);
                    },
                    None => {
                        proof {
                            assert(parse_line(line@) is None);
                        }
                    },
                }
            } else {
                proof {
                    assert(parse_line(line@) is None);
                }
            }
        },
        None => {
            proof {
                assert(parse_line(line@) is None);
            }
        },
    }
}

/// Aggregates every record of the chunk `[start, end)` into a fresh
/// table; the result is exactly the model's fold over that byte range.
/// Each counted record occupies at least five bytes, which bounds every
/// count by the chunk's length.
pub fn aggregate_chunk(buf: &[u8], start: usize, end: usize) -> (t: Table)
    requires
        start <= end <= buf@.len(),
    ensures
        t.wf(),
        t@ == spec_aggregate(buf@.subrange(start as int, end as int)),
        forall|k: Seq<u8>| #[trigger] t@.dom().contains(k) ==> 5 * t@[k].count <= end - start,
{
    let mut t = Table::new();
    let mut pos: usize = start;
    proof {
        assert(buf@.subrange(start as int, start as int) =~= Seq::<u8>::empty());
    }
    while pos < end
        invariant
            start <= pos <= end <= buf@.len(),
            t.wf(),
            t@ == spec_aggregate(buf@.subrange(start as int, pos as int)),
            pos == start || pos == end || buf@[pos - 1] == 10,
            forall|k: Seq<u8>| #[trigger] t@.dom().contains(k) ==> 5 * t@[k].count <= pos - start,
        decreases end - pos,
    {
        let ghost prefix = buf@.subrange(start as int, pos as int);
        let rest = slice_subrange(buf, pos, end);
        let (line_end, next_pos): (usize, usize) = match find_next_newline(rest) {
            Some(i) => (pos + i, pos + i + 1),
            None => (end, end),
        };
        let line = slice_subrange(buf, pos, line_end);
        let ghost lp = buf@.subrange(pos as int, next_pos as int);
        proof {
            // the span up to `next_pos` holds exactly one line
            if next_pos < end || (line_end < next_pos) {
                // a newline was found at `line_end`
                lemma_find_idx(rest@, 10);
                assert(lp[line_end - pos] == rest@[line_end - pos]);
                assert forall|j: int| 0 <= j < line_end - pos implies lp[j] != 10 by {
                    assert(lp[j] == rest@[j]);
                }
                lemma_find_idx_is_first(lp, 10, line_end - pos);
                assert(lp.take(line_end - pos) =~= line@);
                assert(lp.skip(line_end - pos + 1) =~= Seq::<u8>::empty());
                assert(lines_of(Seq::<u8>::empty()) =~= Seq::<Seq<u8>>::empty());
                assert(lines_of(lp) =~= seq![line@]);
            } else {
                // no newline in the rest of the chunk: the tail is one line
                lemma_find_idx(rest@, 10);
                assert(lp =~= rest@);
                assert(line@ =~= rest@);
                assert(lines_of(lp) =~= seq![line@]);
            }
            // forall keys: counts are strictly below the accumulator limit
            assert forall|k: Seq<u8>| #[trigger] t@.dom().contains(k) implies t@[k].count
                < u64::MAX by {
                assert(5 * t@[k].count <= pos - start);
            }
        }
        process_line(&mut t, line);
        proof {
            lemma_lines_concat(prefix, lp);
            assert(prefix + lp =~= buf@.subrange(start as int, next_pos as int));
            assert((lines_of(prefix) + seq![line@]).drop_last() =~= lines_of(prefix));
            assert((lines_of(prefix) + seq![line@]).last() == line@);
            assert(t@ == spec_aggregate(buf@.subrange(start as int, next_pos as int)));
            // a counted record spans at least five bytes
            match parse_line(line@) {
                Some(r) => {
                    let si = find_idx(line@, 59);
                    assert(line@.skip(si + 1).len() >= 3);
                    assert(line@.len() >= 5);
                    assert(next_pos - pos >= 5);
                    assert forall|k: Seq<u8>| #[trigger] t@.dom().contains(k) implies 5
                        * t@[k].count <= next_pos - start by {
                        assert(t@ == map_record(spec_aggregate(prefix), r.0, r.1));
                    }
                },
                None => {
                    assert(t@ == spec_aggregate(prefix));
                },
            }
        }
        pos = next_pos;
    }
    t
}

/// Where the first `c` chunks of a partition end in the buffer.
spec fn chunk_prefix_end(cs: Seq<(usize, usize)>, c: int) -> int {
    if c == 0 {
        0
    } else {
        cs[c - 1].1 as int
    }
}

/// The whole engine, sequentially: split the buffer into `workers`
/// record-aligned chunks, aggregate each, and fold the per-chunk tables
/// with the merge reduction. The resulting table is the model's fold over
/// the whole buffer — for every worker count, so the result is
/// independent of the degree of parallelism.
pub fn run(buf: &[u8], workers: usize) -> (t: Table)
    requires
        1 <= workers,
    ensures
        t.wf(),
        t@ == spec_aggregate(buf@),
{
    let chunks = split_chunks(buf, workers);
    let n = chunks.len();
    let mut acc = Table::new();
    let mut c: usize = 0;
    proof {
        assert(buf@.take(0) =~= Seq::<u8>::empty());
    }
    while c < n
        invariant
            chunks_ok(chunks@, buf@),
            n == chunks@.len(),
            0 <= c <= n,
            acc.wf(),
            acc@ == spec_aggregate(buf@.take(chunk_prefix_end(chunks@, c as int))),
            forall|k: Seq<u8>| #[trigger] acc@.dom().contains(k) ==> 5 * acc@[k].count
                <= chunk_prefix_end(chunks@, c as int),
        decreases n - c,
    {
        let pair = chunks[c];
        let s = pair.0;
        let e = pair.1;
        proof {
            if c > 0 {
                assert(chunks@[c - 1].1 == chunks@[c as int].0);
            }
            assert(chunk_prefix_end(chunks@, c as int) == s as int);
        }
        let tc = aggregate_chunk(buf, s, e);
        let ghost whole = buf@.take(e as int);
        proof {
            assert(whole.take(s as int) =~= buf@.take(s as int));
            assert(whole.skip(s as int) =~= buf@.subrange(s as int, e as int));
            if s > 0 {
                assert(whole[s - 1] == buf@[s - 1]);
            }
            lemma_aggregate_split(whole, s as int);
        }
        let merged = acc.merged(&tc);
        acc = match merged {
            Ok(t2) => t2,
            Err(_) => {
                proof {
                    let k = choose|k: Seq<u8>|
                        acc@.dom().contains(k) && tc@.dom().contains(k) && acc@[k].count
                            + tc@[k].count > u64::MAX;
                    assert(5 * acc@[k].count <= s as int);
                    assert(5 * tc@[k].count <= e - s);
                    assert(e <= usize::MAX);
                    assert(false);
                }
                unreached()
            },
        };
        c = c + 1;
        proof {
            assert(chunk_prefix_end(chunks@, c as int) == e as int);
            assert forall|k: Seq<u8>| #[trigger] acc@.dom().contains(k) implies 5 * acc@[k].count
                <= e as int by {}
        }
    }
    proof {
        if n == 0 {
            assert(buf@.take(0) =~= buf@);
        } else {
            assert(chunk_prefix_end(chunks@, n as int) == buf@.len());
            assert(buf@.take(buf@.len() as int) =~= buf@);
        }
    }
    acc
}

} // verus!
