//! Result formatter: renders a table as one line, keys in ascending
//! lexicographic order, each statistic with exactly one fractional digit.

use vstd::prelude::*;
use crate::render::mean_scaled;
use crate::render::render_mean;
use crate::render::render_spec;
use crate::render::render_temp;
use crate::table::Entry;
use crate::table::Table;
use crate::table::entry_wf;
use crate::table::stats_of;

verus! {

/// `key=min/mean/max` for one entry.
pub open spec fn format_entry(e: Entry) -> Seq<u8> {
    e.key@ + seq![61u8] + render_spec(e.min as int) + seq![47u8] + render_spec(
        mean_scaled(e.sum as int, e.count as int),
    ) + seq![47u8] + render_spec(e.max as int)
}

/// Entries joined with a comma and a space.
pub open spec fn format_entries(s: Seq<Entry>) -> Seq<u8>
    decreases s.len(),
{
    if s.len() == 0 {
        Seq::empty()
    } else if s.len() == 1 {
        format_entry(s[0])
    } else {
        format_entries(s.drop_last()) + seq![44u8, 32u8] + format_entry(s.last())
    }
}

/// A whole table rendered: the joined entries between braces.
pub open spec fn format_spec(s: Seq<Entry>) -> Seq<u8> {
    seq![123u8] + format_entries(s) + seq![125u8]
}

/// One more entry extends the joined text by a separator and that entry.
proof fn lemma_format_entries_push(s: Seq<Entry>, e: Entry)
    ensures
        format_entries(s.push(e)) == if s.len() == 0 {
            format_entry(e)
        } else {
            format_entries(s) + seq![44u8, 32u8] + format_entry(e)
        },
{
    assert(s.push(e).drop_last() =~= s);
    assert(s.push(e).last() == e);
    if s.len() == 0 {
        assert(s.push(e)[0] == e);
    }
}

/// Entry sequences that agree on keys and statistics render identically.
proof fn lemma_format_entries_congruent(a: Seq<Entry>, b: Seq<Entry>)
    requires
        a.len() == b.len(),
        forall|i: int|
            0 <= i < a.len() ==> (#[trigger] a[i].key@) == b[i].key@ && stats_of(a[i])
                == stats_of(b[i]),
    ensures
        format_entries(a) == format_entries(b),
    decreases a.len(),
{
    if a.len() > 0 {
        let ap = a.drop_last();
        let bp = b.drop_last();
        assert forall|i: int|
            0 <= i < ap.len() implies (#[trigger] ap[i].key@) == bp[i].key@ && stats_of(ap[i])
            == stats_of(bp[i]) by {
            assert(ap[i] == a[i]);
            assert(bp[i] == b[i]);
        }
        lemma_format_entries_congruent(ap, bp);
        assert(format_entry(a.last()) == format_entry(b.last()));
        if a.len() == 1 {
            assert(a[0] == a.last());
            assert(b[0] == b.last());
        }
    }
}

/// Two well-formed tables that stand for the same map render to the same
/// text: the printed summary is a function of the aggregated statistics
/// alone, whatever partitioning or merge order produced the table.
pub proof fn lemma_format_deterministic(a: &Table, b: &Table)
    requires
        a.wf(),
        b.wf(),
        a@ == b@,
    ensures
        format_spec(a.rep()) == format_spec(b.rep()),
{
    a.lemma_rep();
    b.lemma_rep();
    crate::table::lemma_sorted_rep_unique(a.rep(), b.rep());
    lemma_format_entries_congruent(a.rep(), b.rep());
}

/// Renders the table's entries, which stand in ascending key order, as
/// `{key=min/mean/max, ...}`.
pub fn format_table(t: &Table) -> (r: Vec<u8>)
    requires
        t.wf(),
    ensures
        r@ == format_spec(t.rep()),
{
    proof {
        t.lemma_rep();
        assert(t.rep().take(0) =~= Seq::<Entry>::empty());
    }
    let mut out: Vec<u8> = Vec::new();
    out.push(123);
    let n = t.entry_count();
    let mut i: usize = 0;
    while i < n
        invariant
            t.wf(),
            n == t.rep().len(),
            0 <= i <= n,
            forall|j: int| 0 <= j < n ==> entry_wf(#[trigger] t.rep()[j]),
            out@ == seq![123u8] + format_entries(t.rep().take(i as int)),
        decreases n - i,
    {
        if i > 0 {
            out.push(44);
            out.push(32);
        }
        let e = t.entry_at(i);
        out.extend_from_slice(e.key.as_slice());
        out.push(61);
        let min_text = render_temp(e.min);
        out.extend_from_slice(min_text.as_slice());
        out.push(47);
        let mean_text = render_mean(e.sum, e.count);
        out.extend_from_slice(mean_text.as_slice());
        out.push(47);
        let max_text = render_temp(e.max);
        out.extend_from_slice(max_text.as_slice());
        proof {
            lemma_format_entries_push(t.rep().take(i as int), t.rep()[i as int]);
            assert(t.rep().take(i + 1) =~= t.rep().take(i as int).push(t.rep()[i as int]));
            assert(out@ =~= seq![123u8] + format_entries(t.rep().take(i + 1)));
        }
        i = i + 1;
    }
    out.push(125);
    proof {
        assert(t.rep().take(n as int) =~= t.rep());
        assert(out@ =~= format_spec(t.rep()));
    }
    out
}

} // verus!
