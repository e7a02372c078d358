//! The model of the segment files: the records of a segment in file order,
//! the records of several segments in replay order, and the facts about
//! them that the store's proofs use.
use vstd::prelude::*;

use crate::command::{CommandView, KvsCommand};

verus! {

/// The largest element of `s`, or 0 for an empty sequence.
pub open spec fn seq_max(s: Seq<u64>) -> u64
    decreases s.len(),
{
    if s.len() == 0 {
        0
    } else {
        let m = seq_max(s.drop_last());
        if s.last() > m {
            s.last()
        } else {
            m
        }
    }
}

/// The generation that a store opened over the segments `found` writes to.
pub open spec fn first_active_gen(found: Seq<u64>) -> int {
    if found.len() == 0 {
        0
    } else {
        seq_max(found) + 1
    }
}

/// The total of the lengths in `s`.
pub open spec fn sum(s: Seq<u64>) -> nat
    decreases s.len(),
{
    if s.len() == 0 {
        0
    } else {
        sum(s.drop_last()) + s.last() as nat
    }
}

/// The records of a segment as they are replayed, lengths dropped.
pub open spec fn record_views(records: Seq<(KvsCommand, u64)>) -> Seq<CommandView> {
    records.map_values(|r: (KvsCommand, u64)| r.0@)
}

/// The records of a segment that is `end` bytes long, in file order.
pub open spec fn seg_records(seg: Map<u64, CommandView>, end: nat) -> Seq<CommandView>
    decreases end,
{
    if end == 0 {
        Seq::empty()
    } else {
        let before = seg_records(seg, (end - 1) as nat);
        if seg.contains_key((end - 1) as u64) {
            before.push(seg[(end - 1) as u64])
        } else {
            before
        }
    }
}

/// The records of the segments `order`, one segment after the other.
pub open spec fn log_records(
    log: Map<u64, Map<u64, CommandView>>,
    ends: Map<u64, nat>,
    order: Seq<u64>,
) -> Seq<CommandView>
    decreases order.len(),
{
    if order.len() == 0 {
        Seq::empty()
    } else {
        log_records(log, ends, order.drop_last()) + seg_records(log[order.last()], ends[order.last()])
    }
}

/// Adding a record at offset `e` or later leaves the first `q` bytes of a
/// segment as they were, for `q <= e`.
pub proof fn lemma_seg_records_below(seg: Map<u64, CommandView>, e: nat, c: CommandView, q: nat)
    requires
        q <= e <= u64::MAX,
    ensures
        seg_records(seg.insert(e as u64, c), q) == seg_records(seg, q),
    decreases q,
{
    if q > 0 {
        lemma_seg_records_below(seg, e, c, (q - 1) as nat);
    }
}

/// Appending a record of `len` bytes at the end `e` of a segment appends it
/// to the segment's records.
pub proof fn lemma_seg_records_append(seg: Map<u64, CommandView>, e: nat, c: CommandView, len: nat)
    requires
        forall|p: u64| #[trigger] seg.contains_key(p) ==> p < e,
        0 < len,
        e + len <= u64::MAX + 1,
    ensures
        seg_records(seg.insert(e as u64, c), e + len) == seg_records(seg, e).push(c),
    decreases len,
{
    if len == 1 {
        lemma_seg_records_below(seg, e, c, e);
    } else {
        lemma_seg_records_append(seg, e, c, (len - 1) as nat);
        let q = (e + len - 1) as nat;
        assert(!seg.insert(e as u64, c).contains_key(q as u64));
    }
}

/// The records of `order` depend on the segments named in `order` alone.
pub proof fn lemma_log_records_frame(
    log1: Map<u64, Map<u64, CommandView>>,
    ends1: Map<u64, nat>,
    log2: Map<u64, Map<u64, CommandView>>,
    ends2: Map<u64, nat>,
    order: Seq<u64>,
)
    requires
        forall|i: int| 0 <= i < order.len() ==> log1[#[trigger] order[i]] == log2[order[i]] && ends1[order[i]]
            == ends2[order[i]],
    ensures
        log_records(log1, ends1, order) == log_records(log2, ends2, order),
    decreases order.len(),
{
    if order.len() > 0 {
        let init = order.drop_last();
        assert forall|i: int| 0 <= i < init.len() implies log1[#[trigger] init[i]] == log2[init[i]]
            && ends1[init[i]] == ends2[init[i]] by {
            assert(init[i] == order[i]);
        }
        lemma_log_records_frame(log1, ends1, log2, ends2, init);
        assert(order[order.len() - 1] == order.last());
    }
}

/// Appending a record to the last segment of `order` appends it to the
/// records of `order`.
pub proof fn lemma_log_records_append(
    log: Map<u64, Map<u64, CommandView>>,
    ends: Map<u64, nat>,
    order: Seq<u64>,
    c: CommandView,
    len: nat,
)
    requires
        order.len() > 0,
        forall|i: int| 0 <= i < order.len() - 1 ==> order[i] != order.last(),
        forall|p: u64| #[trigger] log[order.last()].contains_key(p) ==> p < ends[order.last()],
        0 < len,
        ends[order.last()] + len <= u64::MAX + 1,
    ensures
        log_records(
            log.insert(order.last(), log[order.last()].insert(ends[order.last()] as u64, c)),
            ends.insert(order.last(), ends[order.last()] + len),
            order,
        ) == log_records(log, ends, order).push(c),
{
    let g = order.last();
    let e = ends[g];
    let log2 = log.insert(g, log[g].insert(e as u64, c));
    let ends2 = ends.insert(g, e + len);
    let init = order.drop_last();
    assert forall|i: int| 0 <= i < init.len() implies log2[#[trigger] init[i]] == log[init[i]]
        && ends2[init[i]] == ends[init[i]] by {
        assert(init[i] == order[i]);
    }
    lemma_log_records_frame(log2, ends2, log, ends, init);
    lemma_seg_records_append(log[g], e, c, len);
    assert(log_records(log2, ends2, order) =~= log_records(log, ends, order).push(c));
}

/// An empty segment at the end of `order` adds no record.
pub proof fn lemma_log_records_empty_tail(
    log: Map<u64, Map<u64, CommandView>>,
    ends: Map<u64, nat>,
    order: Seq<u64>,
    a: u64,
)
    requires
        ends[a] == 0,
    ensures
        log_records(log, ends, order.push(a)) == log_records(log, ends, order),
{
    assert(order.push(a).drop_last() =~= order);
    assert(log_records(log, ends, order.push(a)) =~= log_records(log, ends, order));
}

/// The maximum of a sequence is one of its elements and bounds all of them.
pub proof fn lemma_seq_max_bound(s: Seq<u64>)
    requires
        s.len() > 0,
    ensures
        exists|i: int| 0 <= i < s.len() && s[i] == seq_max(s),
        forall|i: int| 0 <= i < s.len() ==> s[i] <= seq_max(s),
    decreases s.len(),
{
    let t = s.drop_last();
    if s.len() > 1 {
        lemma_seq_max_bound(t);
        let i = choose|i: int| 0 <= i < t.len() && t[i] == seq_max(t);
        if s.last() <= seq_max(t) {
            assert(s[i] == seq_max(s));
        } else {
            assert(s[s.len() - 1] == seq_max(s));
        }
        assert forall|j: int| 0 <= j < s.len() implies s[j] <= seq_max(s) by {
            if j < s.len() - 1 {
                assert(s[j] == t[j]);
            }
        }
    } else {
        assert(seq_max(t) == 0);
        assert(s[0] == seq_max(s));
    }
}

/// A prefix of a sequence of lengths sums to no more than a longer prefix.
pub proof fn lemma_sum_prefix(s: Seq<u64>, i: int, j: int)
    requires
        0 <= i <= j <= s.len(),
    ensures
        sum(s.take(i)) <= sum(s.take(j)),
    decreases j - i,
{
    if i < j {
        lemma_sum_prefix(s, i, j - 1);
        assert(s.take(j).drop_last() =~= s.take(j - 1));
    }
}

} // verus!
