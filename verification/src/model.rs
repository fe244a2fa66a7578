//! Mathematical model of the aggregation engine.
//!
//! A table is modelled as a map from key bytes to `Stats`. Aggregating a
//! buffer means splitting it into lines, parsing each line into a record,
//! and folding the records into the map; malformed lines fold as the
//! identity. The merge of two maps is the commutative, associative
//! reduction that combines per-key statistics.

use vstd::prelude::*;
use crate::parse::is_valid_temp;
use crate::parse::temp_value;
use crate::parse::lemma_temp_value_range;
use crate::scan::find_idx;
use crate::scan::lemma_find_idx;
use crate::scan::lemma_find_idx_concat;

verus! {

/// Statistics observed for one key: minimum, sum, count and maximum of
/// the scaled values.
pub ghost struct Stats {
    pub min: int,
    pub sum: int,
    pub count: int,
    pub max: int,
}

/// The model of a whole table.
pub type TableModel = Map<Seq<u8>, Stats>;

/// Statistics after the first observation of a value.
pub open spec fn stat_one(v: int) -> Stats {
    Stats { min: v, sum: v, count: 1, max: v }
}

/// Statistics after one more observation of a value.
pub open spec fn stat_add(s: Stats, v: int) -> Stats {
    Stats {
        min: if v < s.min { v } else { s.min },
        sum: s.sum + v,
        count: s.count + 1,
        max: if v > s.max { v } else { s.max },
    }
}

/// Combination of the statistics of two disjoint observation sets.
pub open spec fn stat_merge(a: Stats, b: Stats) -> Stats {
    Stats {
        min: if a.min < b.min { a.min } else { b.min },
        sum: a.sum + b.sum,
        count: a.count + b.count,
        max: if a.max > b.max { a.max } else { b.max },
    }
}

/// One record folded into a table: insert on a new key, combine on a
/// known one.
pub open spec fn map_record(m: TableModel, k: Seq<u8>, v: int) -> TableModel {
    if m.dom().contains(k) {
        m.insert(k, stat_add(m[k], v))
    } else {
        m.insert(k, stat_one(v))
    }
}

/// The merge reduction: keys of either table, statistics combined where a
/// key is in both.
pub open spec fn map_merge(a: TableModel, b: TableModel) -> TableModel {
    Map::new(
        |k: Seq<u8>| a.dom().contains(k) || b.dom().contains(k),
        |k: Seq<u8>|
            if a.dom().contains(k) && b.dom().contains(k) {
                stat_merge(a[k], b[k])
            } else if a.dom().contains(k) {
                a[k]
            } else {
                b[k]
            },
    )
}

/// A line parsed into a record: the key before the first separator, the
/// scaled value after it. `None` on a missing separator, an empty key, or
/// a value outside the grammar.
pub open spec fn parse_line(line: Seq<u8>) -> Option<(Seq<u8>, int)> {
    let i = find_idx(line, 59);
    if 0 < i && i < line.len() && is_valid_temp(line.skip(i + 1)) {
        Some((line.take(i), temp_value(line.skip(i + 1))))
    } else {
        None
    }
}

/// One line folded into a table; a malformed line is skipped.
pub open spec fn line_step(m: TableModel, line: Seq<u8>) -> TableModel {
    match parse_line(line) {
        Some(r) => map_record(m, r.0, r.1),
        None => m,
    }
}

/// The lines of a buffer: split at each newline, the final line possibly
/// unterminated; an empty buffer has no lines.
pub open spec fn lines_of(s: Seq<u8>) -> Seq<Seq<u8>>
    decreases s.len(),
{
    if s.len() == 0 {
        Seq::empty()
    } else {
        let i = find_idx(s, 10);
        if 0 <= i && i < s.len() {
            seq![s.take(i)] + lines_of(s.skip(i + 1))
        } else {
            seq![s]
        }
    }
}

/// A sequence of lines folded into a table, first line first.
pub open spec fn agg_lines(ls: Seq<Seq<u8>>) -> TableModel
    decreases ls.len(),
{
    if ls.len() == 0 {
        Map::empty()
    } else {
        line_step(agg_lines(ls.drop_last()), ls.last())
    }
}

/// The sequential meaning of aggregating a whole buffer.
pub open spec fn spec_aggregate(s: Seq<u8>) -> TableModel {
    agg_lines(lines_of(s))
}

/// Statistics that can arise from observations of in-range values.
pub open spec fn stat_wf(st: Stats) -> bool {
    &&& 1 <= st.count
    &&& -999 <= st.min <= st.max <= 999
    &&& -999 * st.count <= st.sum <= 999 * st.count
}

/// A table model whose every entry is well formed.
pub open spec fn model_wf(m: TableModel) -> bool {
    forall|k: Seq<u8>| #[trigger] m.dom().contains(k) ==> stat_wf(m[k])
}

/// The empty table is the identity of the merge reduction.
pub proof fn lemma_merge_empty(m: TableModel)
    ensures
        map_merge(m, Map::empty()) == m,
        map_merge(Map::empty(), m) == m,
{
    assert(map_merge(m, Map::empty()) =~= m);
    assert(map_merge(Map::empty(), m) =~= m);
}

/// The merge reduction is commutative.
pub proof fn lemma_merge_commutative(a: TableModel, b: TableModel)
    ensures
        map_merge(a, b) == map_merge(b, a),
{
    assert(map_merge(a, b) =~= map_merge(b, a));
}

/// The merge reduction is associative; with commutativity, merging in any
/// order or tree shape yields the table of merging in one fixed order.
pub proof fn lemma_merge_associative(a: TableModel, b: TableModel, c: TableModel)
    ensures
        map_merge(map_merge(a, b), c) == map_merge(a, map_merge(b, c)),
{
    assert(map_merge(map_merge(a, b), c) =~= map_merge(a, map_merge(b, c)));
}

/// Folding a record into a merge folds it into the right operand.
pub proof fn lemma_record_merge(a: TableModel, b: TableModel, k: Seq<u8>, v: int)
    ensures
        map_record(map_merge(a, b), k, v) == map_merge(a, map_record(b, k, v)),
{
    assert(map_record(map_merge(a, b), k, v) =~= map_merge(a, map_record(b, k, v)));
}

/// Inserting a key absent from the right operand commutes with the merge.
pub proof fn lemma_merge_insert_left(a: TableModel, b: TableModel, k: Seq<u8>, st: Stats)
    requires
        !b.dom().contains(k),
    ensures
        map_merge(a.insert(k, st), b) == map_merge(a, b).insert(k, st),
{
    assert(map_merge(a.insert(k, st), b) =~= map_merge(a, b).insert(k, st));
}

/// Inserting a key absent from the left operand commutes with the merge.
pub proof fn lemma_merge_insert_right(a: TableModel, b: TableModel, k: Seq<u8>, st: Stats)
    requires
        !a.dom().contains(k),
    ensures
        map_merge(a, b.insert(k, st)) == map_merge(a, b).insert(k, st),
{
    assert(map_merge(a, b.insert(k, st)) =~= map_merge(a, b).insert(k, st));
}

/// Inserting a fresh key on both sides merges into one combined entry.
pub proof fn lemma_merge_insert_both(
    a: TableModel,
    b: TableModel,
    k: Seq<u8>,
    sa: Stats,
    sb: Stats,
)
    requires
        !a.dom().contains(k),
        !b.dom().contains(k),
    ensures
        map_merge(a.insert(k, sa), b.insert(k, sb)) == map_merge(a, b).insert(
            k,
            stat_merge(sa, sb),
        ),
{
    assert(map_merge(a.insert(k, sa), b.insert(k, sb)) =~= map_merge(a, b).insert(
        k,
        stat_merge(sa, sb),
    ));
}

/// Splitting a buffer just after a newline splits its lines.
pub proof fn lemma_lines_concat(a: Seq<u8>, b: Seq<u8>)
    requires
        a.len() == 0 || a.last() == 10,
    ensures
        lines_of(a + b) == lines_of(a) + lines_of(b),
    decreases a.len(),
{
    if a.len() == 0 {
        assert(a + b =~= b);
        assert(lines_of(a) + lines_of(b) =~= lines_of(b));
    } else {
        let i = find_idx(a, 10);
        lemma_find_idx(a, 10);
        if i == a.len() {
            assert(a[a.len() - 1] != 10);
        }
        lemma_find_idx_concat(a, b, 10);
        assert(find_idx(a + b, 10) == i);
        assert((a + b).take(i) =~= a.take(i));
        assert((a + b).skip(i + 1) =~= a.skip(i + 1) + b);
        let ap = a.skip(i + 1);
        if ap.len() > 0 {
            assert(ap.last() == a.last());
        }
        lemma_lines_concat(ap, b);
        assert(lines_of(a + b) == seq![a.take(i)] + (lines_of(ap) + lines_of(b)));
        assert(lines_of(a) == seq![a.take(i)] + lines_of(ap));
        assert(seq![a.take(i)] + (lines_of(ap) + lines_of(b)) =~= (seq![a.take(i)] + lines_of(ap))
            + lines_of(b));
    }
}

/// Folding concatenated line sequences equals merging their tables.
pub proof fn lemma_agg_lines_concat(l1: Seq<Seq<u8>>, l2: Seq<Seq<u8>>)
    ensures
        agg_lines(l1 + l2) == map_merge(agg_lines(l1), agg_lines(l2)),
    decreases l2.len(),
{
    if l2.len() == 0 {
        assert(l1 + l2 =~= l1);
        lemma_merge_empty(agg_lines(l1));
    } else {
        let l2p = l2.drop_last();
        lemma_agg_lines_concat(l1, l2p);
        assert((l1 + l2).drop_last() =~= l1 + l2p);
        assert((l1 + l2).last() == l2.last());
        assert((l1 + l2).len() > 0);
        match parse_line(l2.last()) {
            Some(r) => {
                lemma_record_merge(agg_lines(l1), agg_lines(l2p), r.0, r.1);
            },
            None => {},
        }
    }
}

/// Aggregation distributes over a record-aligned split of the buffer: the
/// table of the whole is the merge of the tables of the parts. This is
/// why the result is independent of the chunk partitioning.
pub proof fn lemma_aggregate_split(s: Seq<u8>, i: int)
    requires
        0 <= i <= s.len(),
        i == 0 || s[i - 1] == 10,
    ensures
        spec_aggregate(s) == map_merge(spec_aggregate(s.take(i)), spec_aggregate(s.skip(i))),
{
    let a = s.take(i);
    let b = s.skip(i);
    assert(a + b =~= s);
    if i > 0 {
        assert(a.last() == s[i - 1]);
    }
    lemma_lines_concat(a, b);
    lemma_agg_lines_concat(lines_of(a), lines_of(b));
}

/// Folding an in-range record keeps every entry well formed.
pub proof fn lemma_record_wf(m: TableModel, k: Seq<u8>, v: int)
    requires
        model_wf(m),
        -999 <= v <= 999,
    ensures
        model_wf(map_record(m, k, v)),
{
}

/// Merging keeps every entry well formed.
pub proof fn lemma_merge_wf(a: TableModel, b: TableModel)
    requires
        model_wf(a),
        model_wf(b),
    ensures
        model_wf(map_merge(a, b)),
{
    assert forall|k: Seq<u8>| #[trigger] map_merge(a, b).dom().contains(k) implies stat_wf(
        map_merge(a, b)[k],
    ) by {}
}

/// Every table folded from lines is well formed.
pub proof fn lemma_agg_lines_wf(ls: Seq<Seq<u8>>)
    ensures
        model_wf(agg_lines(ls)),
    decreases ls.len(),
{
    if ls.len() == 0 {
    } else {
        lemma_agg_lines_wf(ls.drop_last());
        match parse_line(ls.last()) {
            Some(r) => {
                lemma_temp_value_range(ls.last().skip(find_idx(ls.last(), 59) + 1));
                lemma_record_wf(agg_lines(ls.drop_last()), r.0, r.1);
            },
            None => {},
        }
    }
}

/// The table of any buffer is well formed.
pub proof fn lemma_aggregate_wf(s: Seq<u8>)
    ensures
        model_wf(spec_aggregate(s)),
{
    lemma_agg_lines_wf(lines_of(s));
}

} // verus!
