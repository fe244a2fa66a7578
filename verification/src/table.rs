//! Per-worker aggregation table: a key-sorted vector of entries, viewed as
//! a map from key bytes to statistics.
//!
//! The table replaces a hash map: entries are kept in strictly increasing
//! key order, which makes the view a map with unique keys and hands the
//! formatter its ascending key order for free.

use vstd::prelude::*;
use vstd::slice::slice_to_vec;
use crate::lex::KeyOrder;
use crate::lex::lex_cmp;
use crate::lex::lex_lt;
use crate::lex::lemma_lex_transitive;
use crate::lex::lemma_lex_trichotomy;
use crate::model::Stats;
use crate::model::TableModel;
use crate::model::map_merge;
use crate::model::map_record;
use crate::model::stat_add;
use crate::model::stat_merge;
use crate::model::stat_one;
use crate::model::stat_wf;
use crate::model::lemma_merge_insert_both;
use crate::model::lemma_merge_insert_left;
use crate::model::lemma_merge_insert_right;
use crate::model::lemma_merge_empty;

verus! {

/// One key with its statistics. The sum is widened to `i128` so that it
/// cannot overflow for any count a `u64` can hold.
pub struct Entry {
    pub key: Vec<u8>,
    pub min: i16,
    pub sum: i128,
    pub count: u64,
    pub max: i16,
}

/// The statistics an entry holds, as a model value.
pub open spec fn stats_of(e: Entry) -> Stats {
    Stats { min: e.min as int, sum: e.sum as int, count: e.count as int, max: e.max as int }
}

/// An entry whose statistics could have been observed from in-range
/// values.
pub open spec fn entry_wf(e: Entry) -> bool {
    stat_wf(stats_of(e))
}

/// Keys strictly increase along the entry sequence.
pub open spec fn entries_sorted(s: Seq<Entry>) -> bool {
    forall|i: int, j: int| 0 <= i < j < s.len() ==> lex_lt(#[trigger] s[i].key@, #[trigger] s[j].key@)
}

/// No two entries share a key.
pub open spec fn distinct_keys(s: Seq<Entry>) -> bool {
    forall|i: int, j: int| 0 <= i < j < s.len() ==> (#[trigger] s[i].key@) != (#[trigger] s[j].key@)
}

/// The map an entry sequence stands for.
pub open spec fn entries_map(s: Seq<Entry>) -> TableModel
    decreases s.len(),
{
    if s.len() == 0 {
        Map::empty()
    } else {
        entries_map(s.drop_last()).insert(s.last().key@, stats_of(s.last()))
    }
}

/// Sorted entries have distinct keys.
pub proof fn lemma_sorted_distinct(s: Seq<Entry>)
    requires
        entries_sorted(s),
    ensures
        distinct_keys(s),
{
    assert forall|i: int, j: int| 0 <= i < j < s.len() implies (#[trigger] s[i].key@)
        != (#[trigger] s[j].key@) by {
        lemma_lex_trichotomy(s[i].key@, s[j].key@);
    }
}

/// Every entry's key is in the map's domain.
pub proof fn lemma_entries_map_contains(s: Seq<Entry>, i: int)
    requires
        0 <= i < s.len(),
    ensures
        entries_map(s).dom().contains(s[i].key@),
    decreases s.len(),
{
    if i < s.len() - 1 {
        lemma_entries_map_contains(s.drop_last(), i);
        assert(s.drop_last()[i] == s[i]);
    }
}

/// A key held by no entry is outside the map's domain.
pub proof fn lemma_entries_map_absent(s: Seq<Entry>, k: Seq<u8>)
    requires
        forall|i: int| 0 <= i < s.len() ==> (#[trigger] s[i].key@) != k,
    ensures
        !entries_map(s).dom().contains(k),
    decreases s.len(),
{
    if s.len() > 0 {
        assert forall|i: int| 0 <= i < s.drop_last().len() implies (#[trigger] s.drop_last()[i].key@)
            != k by {
            assert(s.drop_last()[i] == s[i]);
        }
        lemma_entries_map_absent(s.drop_last(), k);
        assert(s[s.len() - 1].key@ != k);
    }
}

/// With distinct keys, the map sends each entry's key to its statistics.
pub proof fn lemma_entries_map_at(s: Seq<Entry>, i: int)
    requires
        distinct_keys(s),
        0 <= i < s.len(),
    ensures
        entries_map(s)[s[i].key@] == stats_of(s[i]),
    decreases s.len(),
{
    if i < s.len() - 1 {
        assert forall|x: int, y: int| 0 <= x < y < s.drop_last().len() implies (#[trigger] s.drop_last()[x].key@)
            != (#[trigger] s.drop_last()[y].key@) by {
            assert(s.drop_last()[x] == s[x]);
            assert(s.drop_last()[y] == s[y]);
        }
        lemma_entries_map_at(s.drop_last(), i);
        assert(s.drop_last()[i] == s[i]);
        assert(s[i].key@ != s[s.len() - 1].key@);
    }
}

/// Every key in the map's domain is some entry's key.
pub proof fn lemma_entries_map_dom(s: Seq<Entry>, k: Seq<u8>)
    requires
        entries_map(s).dom().contains(k),
    ensures
        exists|i: int| 0 <= i < s.len() && (#[trigger] s[i].key@) == k,
    decreases s.len(),
{
    if s.len() == 0 {
        assert(entries_map(s) =~= Map::empty());
    } else if s.last().key@ == k {
        assert(s[s.len() - 1].key@ == k);
    } else {
        lemma_entries_map_dom(s.drop_last(), k);
        let i = choose|i: int| 0 <= i < s.drop_last().len() && (#[trigger] s.drop_last()[i].key@)
            == k;
        assert(s[i].key@ == k);
    }
}

/// Appending an entry inserts its key into the map.
pub proof fn lemma_entries_map_push(s: Seq<Entry>, e: Entry)
    ensures
        entries_map(s.push(e)) == entries_map(s).insert(e.key@, stats_of(e)),
{
    assert(s.push(e).drop_last() =~= s);
    assert(s.push(e).last() == e);
}

/// Replacing an entry by one with the same key updates that key's
/// statistics.
pub proof fn lemma_entries_map_update(s: Seq<Entry>, i: int, e: Entry)
    requires
        distinct_keys(s),
        0 <= i < s.len(),
        e.key@ == s[i].key@,
    ensures
        entries_map(s.update(i, e)) == entries_map(s).insert(e.key@, stats_of(e)),
    decreases s.len(),
{
    if i == s.len() - 1 {
        assert(s.update(i, e).drop_last() =~= s.drop_last());
        assert(s.update(i, e).last() == e);
        assert(entries_map(s.drop_last()).insert(s.last().key@, stats_of(s.last())).insert(
            e.key@,
            stats_of(e),
        ) =~= entries_map(s.drop_last()).insert(e.key@, stats_of(e)));
    } else {
        let sp = s.drop_last();
        assert forall|x: int, y: int| 0 <= x < y < sp.len() implies (#[trigger] sp[x].key@)
            != (#[trigger] sp[y].key@) by {
            assert(sp[x] == s[x]);
            assert(sp[y] == s[y]);
        }
        assert(sp[i] == s[i]);
        lemma_entries_map_update(sp, i, e);
        assert(s.update(i, e).drop_last() =~= sp.update(i, e));
        assert(s.update(i, e).last() == s.last());
        assert(e.key@ != s.last().key@);
        assert(entries_map(sp).insert(e.key@, stats_of(e)).insert(
            s.last().key@,
            stats_of(s.last()),
        ) =~= entries_map(sp).insert(s.last().key@, stats_of(s.last())).insert(
            e.key@,
            stats_of(e),
        ));
    }
}

/// Inserting an entry under a fresh key inserts that key into the map.
pub proof fn lemma_entries_map_insert(s: Seq<Entry>, i: int, e: Entry)
    requires
        0 <= i <= s.len(),
        forall|j: int| 0 <= j < s.len() ==> (#[trigger] s[j].key@) != e.key@,
    ensures
        entries_map(s.insert(i, e)) == entries_map(s).insert(e.key@, stats_of(e)),
    decreases s.len(),
{
    if i == s.len() {
        assert(s.insert(i, e) =~= s.push(e));
        lemma_entries_map_push(s, e);
    } else {
        let sp = s.drop_last();
        assert forall|j: int| 0 <= j < sp.len() implies (#[trigger] sp[j].key@) != e.key@ by {
            assert(sp[j] == s[j]);
        }
        lemma_entries_map_insert(sp, i, e);
        assert(s.insert(i, e).drop_last() =~= sp.insert(i, e));
        assert(s.insert(i, e).last() == s.last());
        assert(s[s.len() - 1].key@ != e.key@);
        assert(entries_map(sp).insert(e.key@, stats_of(e)).insert(
            s.last().key@,
            stats_of(s.last()),
        ) =~= entries_map(sp).insert(s.last().key@, stats_of(s.last())).insert(
            e.key@,
            stats_of(e),
        ));
    }
}

/// A sorted representation is determined by its map: two sorted entry
/// sequences standing for the same map agree position by position on keys
/// and statistics.
pub proof fn lemma_sorted_rep_unique(a: Seq<Entry>, b: Seq<Entry>)
    requires
        entries_sorted(a),
        entries_sorted(b),
        entries_map(a) == entries_map(b),
    ensures
        a.len() == b.len(),
        forall|i: int|
            0 <= i < a.len() ==> (#[trigger] a[i].key@) == b[i].key@ && stats_of(a[i])
                == stats_of(b[i]),
    decreases a.len() + b.len(),
{
    lemma_sorted_distinct(a);
    lemma_sorted_distinct(b);
    if a.len() == 0 {
        assert(entries_map(a) =~= Map::empty());
        if b.len() > 0 {
            lemma_entries_map_contains(b, b.len() - 1);
        }
    } else if b.len() == 0 {
        assert(entries_map(b) =~= Map::empty());
        lemma_entries_map_contains(a, a.len() - 1);
    } else {
        let ka = a.last().key@;
        let kb = b.last().key@;
        // each last key is the largest of the shared domain, so they agree
        lemma_entries_map_contains(a, a.len() - 1);
        lemma_entries_map_contains(b, b.len() - 1);
        lemma_entries_map_dom(b, ka);
        lemma_entries_map_dom(a, kb);
        if ka != kb {
            let ib = choose|i: int| 0 <= i < b.len() && (#[trigger] b[i].key@) == ka;
            let ia = choose|i: int| 0 <= i < a.len() && (#[trigger] a[i].key@) == kb;
            assert(ib < b.len() - 1 && ia < a.len() - 1);
            lemma_lex_trichotomy(ka, kb);
        }
        // same key, same statistics
        lemma_entries_map_at(a, a.len() - 1);
        lemma_entries_map_at(b, b.len() - 1);
        // dropping the last entry drops exactly that key from the map
        let ap = a.drop_last();
        let bp = b.drop_last();
        assert forall|i: int| 0 <= i < ap.len() implies (#[trigger] ap[i].key@) != ka by {
            assert(ap[i] == a[i]);
        }
        lemma_entries_map_absent(ap, ka);
        assert forall|i: int| 0 <= i < bp.len() implies (#[trigger] bp[i].key@) != kb by {
            assert(bp[i] == b[i]);
        }
        lemma_entries_map_absent(bp, kb);
        assert(entries_map(ap) =~= entries_map(a).remove(ka));
        assert(entries_map(bp) =~= entries_map(b).remove(kb));
        assert forall|i: int, j: int| 0 <= i < j < ap.len() implies lex_lt(
            #[trigger] ap[i].key@,
            #[trigger] ap[j].key@,
        ) by {
            assert(ap[i] == a[i]);
            assert(ap[j] == a[j]);
        }
        assert forall|i: int, j: int| 0 <= i < j < bp.len() implies lex_lt(
            #[trigger] bp[i].key@,
            #[trigger] bp[j].key@,
        ) by {
            assert(bp[i] == b[i]);
            assert(bp[j] == b[j]);
        }
        lemma_sorted_rep_unique(ap, bp);
        assert forall|i: int|
            0 <= i < a.len() implies (#[trigger] a[i].key@) == b[i].key@ && stats_of(a[i])
            == stats_of(b[i]) by {
            if i < a.len() - 1 {
                assert(ap[i] == a[i]);
                assert(bp[i] == b[i]);
            }
        }
    }
}

/// Error of the aggregation engine: a per-key record count that would no
/// longer fit its accumulator.
#[derive(Clone, Copy, Debug, PartialEq, Eq, Structural)]
pub enum AggError {
    CountOverflow,
}

/// A key-sorted table of per-key statistics.
pub struct Table {
    entries: Vec<Entry>,
}

impl View for Table {
    type V = TableModel;

    /// The map this table stands for.
    closed spec fn view(&self) -> TableModel {
        entries_map(self.entries@)
    }
}

impl Table {
    /// The entry sequence itself, for contracts that need the key order.
    pub closed spec fn rep(&self) -> Seq<Entry> {
        self.entries@
    }

    /// Entries sorted and well formed.
    pub closed spec fn wf(&self) -> bool {
        &&& entries_sorted(self.entries@)
        &&& forall|i: int| 0 <= i < self.entries@.len() ==> entry_wf(#[trigger] self.entries@[i])
    }

    /// A well-formed table's representation is sorted, has distinct
    /// well-formed entries, and stands for the table's map.
    pub proof fn lemma_rep(&self)
        requires
            self.wf(),
        ensures
            entries_sorted(self.rep()),
            distinct_keys(self.rep()),
            forall|i: int| 0 <= i < self.rep().len() ==> entry_wf(#[trigger] self.rep()[i]),
            entries_map(self.rep()) == self@,
    {
        lemma_sorted_distinct(self.entries@);
    }

    /// The empty table.
    pub fn new() -> (t: Table)
        ensures
            t.wf(),
            t@ == TableModel::empty(),
            t.rep() == Seq::<Entry>::empty(),
    {
        Table { entries: Vec::new() }
    }

    /// Folds one record into the table: first occurrence of a key inserts
    /// `(value, value, 1, value)`, later occurrences combine into the
    /// entry. The count bound is a machine limit on the accumulator.
    pub fn record(&mut self, key: &[u8], value: i16)
        requires
            old(self).wf(),
            -999 <= value <= 999,
            old(self)@.dom().contains(key@) ==> old(self)@[key@].count < u64::MAX,
        ensures
            final(self).wf(),
            final(self)@ == map_record(old(self)@, key@, value as int),
    {
        proof {
            lemma_sorted_distinct(self.entries@);
        }
        let ghost s0 = self.entries@;
        let (idx, eq) = find_slot(&self.entries, key);
        if eq {
            proof {
                lemma_entries_map_contains(s0, idx as int);
                lemma_entries_map_at(s0, idx as int);
            }
            let mut e = self.entries.remove(idx);
            e.min = if value < e.min {
                value
            } else {
                e.min
            };
            e.max = if value > e.max {
                value
            } else {
                e.max
            };
            e.sum = e.sum + value as i128;
            e.count = e.count + 1;
            self.entries.insert(idx, e);
            proof {
                let e1 = self.entries@[idx as int];
                assert(self.entries@ =~= s0.update(idx as int, e1));
                lemma_entries_map_update(s0, idx as int, e1);
                assert(stats_of(e1) == stat_add(stats_of(s0[idx as int]), value as int));
                assert forall|x: int, y: int|
                    0 <= x < y < self.entries@.len() implies lex_lt(
                    #[trigger] self.entries@[x].key@,
                    #[trigger] self.entries@[y].key@,
                ) by {
                    assert(s0[x].key@ == self.entries@[x].key@);
                    assert(s0[y].key@ == self.entries@[y].key@);
                }
            }
        } else {
            proof {
                assert forall|j: int| 0 <= j < s0.len() implies (#[trigger] s0[j].key@)
                    != key@ by {
                    if j < idx {
                        lemma_lex_trichotomy(s0[j].key@, key@);
                    } else {
                        lemma_lex_trichotomy(key@, s0[j].key@);
                    }
                }
                lemma_entries_map_absent(s0, key@);
            }
            let e = Entry {
                key: slice_to_vec(key),
                min: value,
                sum: value as i128,
                count: 1,
                max: value,
            };
            self.entries.insert(idx, e);
            proof {
                let e1 = self.entries@[idx as int];
                assert(self.entries@ =~= s0.insert(idx as int, e1));
                lemma_entries_map_insert(s0, idx as int, e1);
                assert(stats_of(e1) == stat_one(value as int));
                assert forall|x: int, y: int|
                    0 <= x < y < self.entries@.len() implies lex_lt(
                    #[trigger] self.entries@[x].key@,
                    #[trigger] self.entries@[y].key@,
                ) by {
                    if x < idx && y < idx {
                        assert(s0[x] == self.entries@[x]);
                        assert(s0[y] == self.entries@[y]);
                    } else if x < idx && y == idx {
                        assert(s0[x] == self.entries@[x]);
                    } else if x < idx && y > idx {
                        assert(s0[x] == self.entries@[x]);
                        assert(s0[y - 1] == self.entries@[y]);
                    } else if x == idx {
                        assert(s0[y - 1] == self.entries@[y]);
                    } else {
                        assert(s0[x - 1] == self.entries@[x]);
                        assert(s0[y - 1] == self.entries@[y]);
                    }
                }
            }
        }
    }

    /// The merge reduction on tables: a new table over the keys of
    /// either operand, statistics combined where a key is in both; the
    /// operands are read only. Fails exactly where a combined count would
    /// no longer fit its accumulator.
    pub fn merged(&self, other: &Table) -> (r: Result<Table, AggError>)
        requires
            self.wf(),
            other.wf(),
        ensures
            match r {
                Ok(t) => t.wf() && t@ == map_merge(self@, other@),
                Err(_) => exists|k: Seq<u8>|
                    self@.dom().contains(k) && other@.dom().contains(k) && self@[k].count
                        + other@[k].count > u64::MAX,
            },
    {
        let na = self.entries.len();
        let nb = other.entries.len();
        let mut out: Vec<Entry> = Vec::new();
        let mut i: usize = 0;
        let mut j: usize = 0;
        proof {
            assert(self.entries@.take(0) =~= Seq::<Entry>::empty());
            assert(other.entries@.take(0) =~= Seq::<Entry>::empty());
            lemma_merge_empty(Map::empty());
        }
        while i < na || j < nb
            invariant
                self.wf(),
                other.wf(),
                na == self.entries@.len(),
                nb == other.entries@.len(),
                0 <= i <= na,
                0 <= j <= nb,
                entries_sorted(out@),
                forall|t: int| 0 <= t < out@.len() ==> entry_wf(#[trigger] out@[t]),
                entries_map(out@) == map_merge(
                    entries_map(self.entries@.take(i as int)),
                    entries_map(other.entries@.take(j as int)),
                ),
                i < na ==> forall|t: int|
                    0 <= t < out@.len() ==> lex_lt(
                        #[trigger] out@[t].key@,
                        self.entries@[i as int].key@,
                    ),
                j < nb ==> forall|t: int|
                    0 <= t < out@.len() ==> lex_lt(
                        #[trigger] out@[t].key@,
                        other.entries@[j as int].key@,
                    ),
            decreases na + nb - i - j,
        {
            let ghost sa = self.entries@;
            let ghost sb = other.entries@;
            let ghost out0 = out@;
            let cmp: KeyOrder = if i < na && j < nb {
                lex_cmp(self.entries[i].key.as_slice(), other.entries[j].key.as_slice())
            } else if i < na {
                KeyOrder::Less
            } else {
                KeyOrder::Greater
            };
            if matches!(cmp, KeyOrder::Less) {
                // the next key comes from the left operand alone
                let ghost ka = sa[i as int].key@;
                proof {
                    if entries_map(sb.take(j as int)).dom().contains(ka) {
                        lemma_entries_map_dom(out0, ka);
                        let t = choose|t: int|
                            0 <= t < out0.len() && (#[trigger] out0[t].key@) == ka;
                        lemma_lex_trichotomy(out0[t].key@, ka);
                    }
                }
                let ae = &self.entries[i];
                let e = Entry {
                    key: slice_to_vec(ae.key.as_slice()),
                    min: ae.min,
                    sum: ae.sum,
                    count: ae.count,
                    max: ae.max,
                };
                out.push(e);
                i = i + 1;
                proof {
                    let e1 = out@.last();
                    lemma_entries_map_push(out0, e1);
                    assert(sa.take(i as int) =~= sa.take(i - 1).push(sa[i - 1]));
                    lemma_entries_map_push(sa.take(i - 1), sa[i - 1]);
                    lemma_merge_insert_left(
                        entries_map(sa.take(i - 1)),
                        entries_map(sb.take(j as int)),
                        ka,
                        stats_of(e1),
                    );
                    assert forall|x: int, y: int|
                        0 <= x < y < out@.len() implies lex_lt(
                        #[trigger] out@[x].key@,
                        #[trigger] out@[y].key@,
                    ) by {
                        if y == out@.len() - 1 {
                            assert(out0[x] == out@[x]);
                        } else {
                            assert(out0[x] == out@[x]);
                            assert(out0[y] == out@[y]);
                        }
                    }
                    if i < na {
                        assert forall|t: int| 0 <= t < out@.len() implies lex_lt(
                            #[trigger] out@[t].key@,
                            sa[i as int].key@,
                        ) by {
                            if t < out@.len() - 1 {
                                assert(out0[t] == out@[t]);
                                lemma_lex_transitive(out@[t].key@, ka, sa[i as int].key@);
                            }
                        }
                    }
                    if j < nb {
                        assert forall|t: int| 0 <= t < out@.len() implies lex_lt(
                            #[trigger] out@[t].key@,
                            sb[j as int].key@,
                        ) by {
                            if t < out@.len() - 1 {
                                assert(out0[t] == out@[t]);
                            }
                        }
                    }
                }
            } else if matches!(cmp, KeyOrder::Greater) {
                // the next key comes from the right operand alone
                let ghost kb = sb[j as int].key@;
                proof {
                    if entries_map(sa.take(i as int)).dom().contains(kb) {
                        lemma_entries_map_dom(out0, kb);
                        let t = choose|t: int|
                            0 <= t < out0.len() && (#[trigger] out0[t].key@) == kb;
                        lemma_lex_trichotomy(out0[t].key@, kb);
                    }
                }
                let be = &other.entries[j];
                let e = Entry {
                    key: slice_to_vec(be.key.as_slice()),
                    min: be.min,
                    sum: be.sum,
                    count: be.count,
                    max: be.max,
                };
                out.push(e);
                j = j + 1;
                proof {
                    let e1 = out@.last();
                    lemma_entries_map_push(out0, e1);
                    assert(sb.take(j as int) =~= sb.take(j - 1).push(sb[j - 1]));
                    lemma_entries_map_push(sb.take(j - 1), sb[j - 1]);
                    lemma_merge_insert_right(
                        entries_map(sa.take(i as int)),
                        entries_map(sb.take(j - 1)),
                        kb,
                        stats_of(e1),
                    );
                    assert forall|x: int, y: int|
                        0 <= x < y < out@.len() implies lex_lt(
                        #[trigger] out@[x].key@,
                        #[trigger] out@[y].key@,
                    ) by {
                        if y == out@.len() - 1 {
                            assert(out0[x] == out@[x]);
                        } else {
                            assert(out0[x] == out@[x]);
                            assert(out0[y] == out@[y]);
                        }
                    }
                    if j < nb {
                        assert forall|t: int| 0 <= t < out@.len() implies lex_lt(
                            #[trigger] out@[t].key@,
                            sb[j as int].key@,
                        ) by {
                            if t < out@.len() - 1 {
                                assert(out0[t] == out@[t]);
                                lemma_lex_transitive(out@[t].key@, kb, sb[j as int].key@);
                            }
                        }
                    }
                    if i < na {
                        assert forall|t: int| 0 <= t < out@.len() implies lex_lt(
                            #[trigger] out@[t].key@,
                            sa[i as int].key@,
                        ) by {
                            if t < out@.len() - 1 {
                                assert(out0[t] == out@[t]);
                            }
                        }
                    }
                }
            } else {
                // both operands hold the key: combine their statistics
                let ghost ka = sa[i as int].key@;
                proof {
                    assert(sb[j as int].key@ == ka);
                    lemma_sorted_distinct(sa);
                    lemma_sorted_distinct(sb);
                    assert forall|t: int| 0 <= t < sa.take(i as int).len() implies (#[trigger] sa.take(
                        i as int,
                    )[t].key@) != ka by {
                        assert(sa.take(i as int)[t] == sa[t]);
                        lemma_lex_trichotomy(sa[t].key@, ka);
                    }
                    lemma_entries_map_absent(sa.take(i as int), ka);
                    assert forall|t: int| 0 <= t < sb.take(j as int).len() implies (#[trigger] sb.take(
                        j as int,
                    )[t].key@) != ka by {
                        assert(sb.take(j as int)[t] == sb[t]);
                        lemma_lex_trichotomy(sb[t].key@, ka);
                    }
                    lemma_entries_map_absent(sb.take(j as int), ka);
                }
                let ae = &self.entries[i];
                let be = &other.entries[j];
                if ae.count > u64::MAX - be.count {
                    proof {
                        lemma_entries_map_contains(sa, i as int);
                        lemma_entries_map_at(sa, i as int);
                        lemma_entries_map_contains(sb, j as int);
                        lemma_entries_map_at(sb, j as int);
                        assert(self@.dom().contains(ka) && other@.dom().contains(ka)
                            && self@[ka].count + other@[ka].count > u64::MAX);
                    }
                    return Err(AggError::CountOverflow);
                }
                let e = Entry {
                    key: slice_to_vec(ae.key.as_slice()),
                    min: if ae.min < be.min {
                        ae.min
                    } else {
                        be.min
                    },
                    sum: ae.sum + be.sum,
                    count: ae.count + be.count,
                    max: if ae.max > be.max {
                        ae.max
                    } else {
                        be.max
                    },
                };
                out.push(e);
                i = i + 1;
                j = j + 1;
                proof {
                    let e1 = out@.last();
                    assert(stats_of(e1) == stat_merge(stats_of(sa[i - 1]), stats_of(sb[j - 1])));
                    lemma_entries_map_push(out0, e1);
                    assert(sa.take(i as int) =~= sa.take(i - 1).push(sa[i - 1]));
                    lemma_entries_map_push(sa.take(i - 1), sa[i - 1]);
                    assert(sb.take(j as int) =~= sb.take(j - 1).push(sb[j - 1]));
                    lemma_entries_map_push(sb.take(j - 1), sb[j - 1]);
                    lemma_merge_insert_both(
                        entries_map(sa.take(i - 1)),
                        entries_map(sb.take(j - 1)),
                        ka,
                        stats_of(sa[i - 1]),
                        stats_of(sb[j - 1]),
                    );
                    assert forall|x: int, y: int|
                        0 <= x < y < out@.len() implies lex_lt(
                        #[trigger] out@[x].key@,
                        #[trigger] out@[y].key@,
                    ) by {
                        if y == out@.len() - 1 {
                            assert(out0[x] == out@[x]);
                        } else {
                            assert(out0[x] == out@[x]);
                            assert(out0[y] == out@[y]);
                        }
                    }
                    if i < na {
                        assert forall|t: int| 0 <= t < out@.len() implies lex_lt(
                            #[trigger] out@[t].key@,
                            sa[i as int].key@,
                        ) by {
                            if t < out@.len() - 1 {
                                assert(out0[t] == out@[t]);
                                lemma_lex_transitive(out@[t].key@, ka, sa[i as int].key@);
                            }
                        }
                    }
                    if j < nb {
                        assert forall|t: int| 0 <= t < out@.len() implies lex_lt(
                            #[trigger] out@[t].key@,
                            sb[j as int].key@,
                        ) by {
                            if t < out@.len() - 1 {
                                assert(out0[t] == out@[t]);
                                lemma_lex_transitive(out@[t].key@, ka, sb[j as int].key@);
                            }
                        }
                    }
                }
            }
        }
        proof {
            assert(self.entries@.take(na as int) =~= self.entries@);
            assert(other.entries@.take(nb as int) =~= other.entries@);
        }
        Ok(Table { entries: out })
    }

    /// How many distinct keys the table holds.
    pub fn entry_count(&self) -> (n: usize)
        ensures
            n == self.rep().len(),
    {
        self.entries.len()
    }

    /// The entry at one position of the key-sorted representation.
    pub fn entry_at(&self, i: usize) -> (e: &Entry)
        requires
            i < self.rep().len(),
        ensures
            *e == self.rep()[i as int],
    {
        &self.entries[i]
    }

    /// Looks a key up: its `(min, sum, count, max)` exactly when the key
    /// has been observed.
    pub fn get(&self, key: &[u8]) -> (r: Option<(i16, i128, u64, i16)>)
        requires
            self.wf(),
        ensures
            match r {
                Some(t) => self@.dom().contains(key@) && self@[key@] == (Stats {
                    min: t.0 as int,
                    sum: t.1 as int,
                    count: t.2 as int,
                    max: t.3 as int,
                }),
                None => !self@.dom().contains(key@),
            },
    {
        proof {
            lemma_sorted_distinct(self.entries@);
        }
        let n = self.entries.len();
        let mut i: usize = 0;
        while i < n
            invariant
                self.wf(),
                n == self.entries@.len(),
                0 <= i <= n,
                forall|j: int| 0 <= j < i ==> (#[trigger] self.entries@[j].key@) != key@,
            decreases n - i,
        {
            match lex_cmp(self.entries[i].key.as_slice(), key) {
                KeyOrder::Equal => {
                    proof {
                        lemma_sorted_distinct(self.entries@);
                        lemma_entries_map_contains(self.entries@, i as int);
                        lemma_entries_map_at(self.entries@, i as int);
                    }
                    let e = &self.entries[i];
                    return Some((e.min, e.sum, e.count, e.max));
                },
                KeyOrder::Less => {
                    proof {
                        lemma_lex_trichotomy(self.entries@[i as int].key@, key@);
                    }
                },
                KeyOrder::Greater => {
                    proof {
                        lemma_lex_trichotomy(key@, self.entries@[i as int].key@);
                    }
                },
            }
            i = i + 1;
        }
        proof {
            lemma_entries_map_absent(self.entries@, key@);
        }
        None
    }
}

/// Position of `key` in a sorted entry vector: the index of its entry, or
/// of the first larger key.
fn find_slot(entries: &Vec<Entry>, key: &[u8]) -> (r: (usize, bool))
    requires
        entries_sorted(entries@),
    ensures
        ({
            let (idx, eq) = r;
            &&& 0 <= idx <= entries@.len()
            &&& forall|j: int| 0 <= j < idx ==> lex_lt(#[trigger] entries@[j].key@, key@)
            &&& (eq ==> idx < entries@.len() && entries@[idx as int].key@ == key@)
            &&& (!eq ==> forall|j: int|
                idx <= j < entries@.len() ==> lex_lt(key@, #[trigger] entries@[j].key@))
        }),
{
    let n = entries.len();
    let mut idx: usize = 0;
    while idx < n
        invariant
            entries_sorted(entries@),
            n == entries@.len(),
            0 <= idx <= n,
            forall|j: int| 0 <= j < idx ==> lex_lt(#[trigger] entries@[j].key@, key@),
        decreases n - idx,
    {
        match lex_cmp(entries[idx].key.as_slice(), key) {
            KeyOrder::Less => {
                idx = idx + 1;
            },
            KeyOrder::Equal => {
                return (idx, true);
            },
            KeyOrder::Greater => {
                proof {
                    assert forall|j: int| idx <= j < entries@.len() implies lex_lt(
                        key@,
                        #[trigger] entries@[j].key@,
                    ) by {
                        if j > idx {
                            lemma_lex_transitive(
                                key@,
                                entries@[idx as int].key@,
                                entries@[j].key@,
                            );
                        }
                    }
                }
                return (idx, false);
            },
        }
    }
    (idx, false)
}

} // verus!
