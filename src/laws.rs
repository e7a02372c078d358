use vstd::prelude::*;

use crate::command::{apply, apply_all, lemma_apply_all_concat, CommandView};
use crate::segment::{decimal, digit_char, digits_value, file_name, gen_of_name, is_digit, log_suffix};
use crate::log::{log_records, seg_records, sum};
use crate::store::{compacted, KvStore};

verus! {

/// The value of the latest `Put` of `k` in `ops` that no later `Remove` of
/// `k` follows, if there is one.
pub open spec fn latest(ops: Seq<CommandView>, k: Seq<char>) -> Option<Seq<char>>
    decreases ops.len(),
{
    if ops.len() == 0 {
        None
    } else {
        match ops.last() {
            CommandView::Put(k2, v) => if k2 == k {
                Some(v)
            } else {
                latest(ops.drop_last(), k)
            },
            CommandView::Remove(k2) => if k2 == k {
                None
            } else {
                latest(ops.drop_last(), k)
            },
        }
    }
}

/// Last writer wins: after any sequence of `Put` and `Remove` records,
/// applied to an empty store, a key holds the value of its latest `Put`
/// that no `Remove` of it follows, and is absent when there is none.
pub proof fn lemma_latest_write_wins(ops: Seq<CommandView>, k: Seq<char>)
    ensures
        apply_all(Map::empty(), ops).contains_key(k) <==> latest(ops, k) is Some,
        latest(ops, k) matches Some(v) ==> apply_all(Map::empty(), ops)[k] == v,
    decreases ops.len(),
{
    if ops.len() > 0 {
        lemma_latest_write_wins(ops.drop_last(), k);
    }
}

/// A read finds the current value: where `get` leads for a key that the
/// store holds, the segments hold a `Put` of that key and of its value.
pub proof fn lemma_read_finds_value(s: &KvStore, k: Seq<char>)
    requires
        s.wf(),
        s@.contains_key(k),
    ensures
        s.log().contains_key(s.locations()[k].gen),
        s.log()[s.locations()[k].gen].contains_key(s.locations()[k].pos),
        s.log()[s.locations()[k].gen][s.locations()[k].pos] == CommandView::Put(k, s@[k]),
{
    s.lemma_locations();
}

/// The index references only `Put` records: no key leads to a `Remove`.
pub proof fn lemma_index_never_references_remove(s: &KvStore, k: Seq<char>)
    requires
        s.wf(),
        s.locations().contains_key(k),
    ensures
        !(s.log()[s.locations()[k].gen][s.locations()[k].pos] is Remove),
{
    s.lemma_locations();
}

proof fn lemma_decimal_digits(n: nat)
    ensures
        decimal(n).len() > 0,
        forall|i: int| 0 <= i < decimal(n).len() ==> is_digit(#[trigger] decimal(n)[i]),
        digits_value(decimal(n)) == n,
    decreases n,
{
    let d = decimal(n);
    let r = n % 10;
    assert(digit_char(r) as nat == r + '0' as nat);
    if n >= 10 {
        lemma_decimal_digits(n / 10);
        assert(d.drop_last() =~= decimal(n / 10));
        assert(d.last() == digit_char(r));
        assert(n == (n / 10) * 10 + n % 10);
    } else {
        assert(d.drop_last() =~= Seq::<char>::empty());
        assert(digits_value(d.drop_last()) == 0);
        assert(r == n);
    }
}

/// Segment file names round-trip: the name of a generation's file is read
/// back as that generation.
pub proof fn lemma_file_name_round_trip(gen: u64)
    ensures
        gen_of_name(file_name(gen as nat)) == Some(gen),
{
    lemma_decimal_digits(gen as nat);
    let s = file_name(gen as nat);
    let d = decimal(gen as nat);
    assert(s.take(s.len() - 4) =~= d);
    assert(s.skip(s.len() - 4) =~= log_suffix());
}

/// The records that rewriting `keys` of `m` produces: a `Put` of each key
/// and of its value, in the order of `keys`.
pub open spec fn rewrite(m: Map<Seq<char>, Seq<char>>, keys: Seq<Seq<char>>) -> Seq<CommandView> {
    keys.map_values(|k: Seq<char>| CommandView::Put(k, m[k]))
}

/// Replaying a rewrite of every key of a mapping, in any order, from an
/// empty store, gives back the mapping: a compacted segment reproduces the
/// store's contents when it is reopened.
pub proof fn lemma_rewrite_replays(m: Map<Seq<char>, Seq<char>>, keys: Seq<Seq<char>>)
    requires
        keys.to_set() == m.dom(),
    ensures
        apply_all(Map::empty(), rewrite(m, keys)) == m,
{
    lemma_rewrite_prefix(m, keys);
    assert(m.restrict(keys.to_set()) =~= m);
}

proof fn lemma_rewrite_prefix(m: Map<Seq<char>, Seq<char>>, keys: Seq<Seq<char>>)
    requires
        keys.to_set().subset_of(m.dom()),
    ensures
        apply_all(Map::empty(), rewrite(m, keys)) == m.restrict(keys.to_set()),
    decreases keys.len(),
{
    if keys.len() == 0 {
        assert(m.restrict(keys.to_set()) =~= Map::empty());
    } else {
        let init = keys.drop_last();
        assert(keys.to_set().contains(keys[keys.len() - 1]));
        assert forall|k: Seq<char>| init.to_set().contains(k) implies m.dom().contains(k) by {
            let i = choose|i: int| 0 <= i < init.len() && init[i] == k;
            assert(keys[i] == k);
            assert(keys.to_set().contains(k));
        }
        lemma_rewrite_prefix(m, init);
        assert(rewrite(m, keys).last() == CommandView::Put(keys.last(), m[keys.last()]));
        assert(rewrite(m, keys).drop_last() =~= rewrite(m, init));
        assert(keys.to_set() =~= init.to_set().insert(keys.last())) by {
            assert forall|k: Seq<char>| keys.to_set().contains(k) implies init.to_set().insert(keys.last()).contains(k) by {
                let i = choose|i: int| 0 <= i < keys.len() && keys[i] == k;
                if i < init.len() {
                    assert(init[i] == k);
                }
            }
            assert forall|k: Seq<char>| init.to_set().contains(k) implies keys.to_set().contains(k) by {
                let i = choose|i: int| 0 <= i < init.len() && init[i] == k;
                assert(keys[i] == k);
            }
            assert(keys[keys.len() - 1] == keys.last());
        }
        assert(apply_all(Map::empty(), rewrite(m, keys)) =~= m.restrict(keys.to_set()));
    }
}

/// Compaction is idempotent: compacting a store that was just compacted
/// changes no key's value, leaves again exactly two segments, and puts
/// the same record at each key's new location as the first compaction did.
pub proof fn lemma_compaction_idempotent(
    s0: KvStore,
    s1: KvStore,
    s2: KvStore,
    lens1: Seq<u64>,
    lens2: Seq<u64>,
    on_disk1: Seq<u64>,
    on_disk2: Seq<u64>,
    doomed1: Seq<u64>,
    doomed2: Seq<u64>,
)
    requires
        s0.wf(),
        s1.wf(),
        compacted(s0, s1, lens1, on_disk1, doomed1),
        compacted(s1, s2, lens2, on_disk2, doomed2),
    ensures
        s2@ == s1@,
        s1@ == s0@,
        s1.segments() == set![(s0.active_gen() + 1) as u64, s1.active_gen()],
        s2.segments() == set![(s1.active_gen() + 1) as u64, s2.active_gen()],
        s0.active_gen() < s0.active_gen() + 1 < s1.active_gen() < s1.active_gen() + 1 < s2.active_gen(),
        forall|k: Seq<char>|
            #[trigger] s2@.contains_key(k) ==> s2.log()[s2.locations()[k].gen][s2.locations()[k].pos]
                == s1.log()[s1.locations()[k].gen][s1.locations()[k].pos],
        seg_records(s2.log()[(s1.active_gen() + 1) as u64], sum(lens2)) == seg_records(
            s1.log()[(s0.active_gen() + 1) as u64],
            sum(lens1),
        ),
{
    s1.lemma_sources();
    let a1 = (s0.active_gen() + 1) as u64;
    let r1 = seg_records(s1.log()[a1], sum(lens1));
    let r2 = seg_records(s2.log()[(s1.active_gen() + 1) as u64], sum(lens2));
    assert forall|i: int| 0 <= i < lens1.len() implies #[trigger] r2[i] == r1[i] by {
        let k = s0.sources()[i].0@;
        assert(s1.sources()[i].0@ == k);
        assert(s1.locations()[s1.sources()[i].0@] == s1.sources()[i].1);
    }
    assert(r2 =~= r1);
    assert forall|k: Seq<char>| #[trigger] s2@.contains_key(k) implies s2.log()[s2.locations()[k].gen][s2.locations()[k].pos]
        == s1.log()[s1.locations()[k].gen][s1.locations()[k].pos] by {
        let i = choose|i: int| 0 <= i < s1.sources().len() && s1.sources()[i].0@ == k;
        assert(s1.sources()[i].0@ == k);
    }
}

/// Reopening reproduces the contents. The store's segments, taken in
/// ascending generation order and each in file order, hold records whose
/// replay from an empty store gives back exactly the store's contents.
pub proof fn lemma_reopen_reproduces(s: &KvStore)
    requires
        s.wf(),
    ensures
        apply_all(Map::empty(), log_records(s.log(), s.ends(), s.segment_order())) == s@,
        forall|i: int, j: int|
            0 <= i < j < s.segment_order().len() ==> s.segment_order()[i] < s.segment_order()[j],
        forall|g: u64| #[trigger] s.segments().contains(g) <==> s.segment_order().contains(g),
{
    s.lemma_history();
}

/// Replaying segments one at a time, as `replay` does, is replaying all of
/// their records in one run.
pub proof fn lemma_replay_segmentwise(
    m: Map<Seq<char>, Seq<char>>,
    log: Map<u64, Map<u64, CommandView>>,
    ends: Map<u64, nat>,
    order: Seq<u64>,
)
    requires
        order.len() > 0,
    ensures
        apply_all(m, log_records(log, ends, order)) == apply_all(
            apply_all(m, log_records(log, ends, order.drop_last())),
            seg_records(log[order.last()], ends[order.last()]),
        ),
{
    lemma_apply_all_concat(
        m,
        log_records(log, ends, order.drop_last()),
        seg_records(log[order.last()], ends[order.last()]),
    );
}

/// The store's contents after a run of calls: each call applies one record.
/// `set` applies a `Put`; `remove` applies a `Remove`, and so does a
/// `remove` refused with `KeyNotFound`, since removing an absent key changes
/// nothing; `compact` and `replay` of nothing are left out of the run, as
/// they keep the contents.
proof fn lemma_run_contents(states: Seq<KvStore>, ops: Seq<CommandView>)
    requires
        states.len() == ops.len() + 1,
        states[0]@ == Map::<Seq<char>, Seq<char>>::empty(),
        forall|i: int| 0 <= i < ops.len() ==> #[trigger] states[i + 1]@ == apply(states[i]@, ops[i]),
    ensures
        states.last()@ == apply_all(Map::empty(), ops),
    decreases ops.len(),
{
    if ops.len() > 0 {
        let n = ops.len() as int;
        assert forall|i: int| 0 <= i < ops.drop_last().len() implies #[trigger] states.drop_last()[i + 1]@
            == apply(states.drop_last()[i]@, ops.drop_last()[i]) by {
            assert(states[i + 1]@ == apply(states[i]@, ops[i]));
        }
        lemma_run_contents(states.drop_last(), ops.drop_last());
        assert(states[n]@ == apply(states[n - 1]@, ops[n - 1]));
    }
}

/// Last writer wins over a run of store calls: starting from an opened
/// empty store, where each call applies one record to the contents (see
/// `lemma_run_contents`), reading a key at the end finds the value of its
/// latest `Put` that no `Remove` of it follows, and finds nothing where
/// there is none.
pub proof fn lemma_run_reads_latest(states: Seq<KvStore>, ops: Seq<CommandView>, k: Seq<char>)
    requires
        states.len() == ops.len() + 1,
        states[0]@ == Map::<Seq<char>, Seq<char>>::empty(),
        forall|i: int| 0 <= i < ops.len() ==> #[trigger] states[i + 1]@ == apply(states[i]@, ops[i]),
        states.last().wf(),
    ensures
        states.last()@.contains_key(k) <==> latest(ops, k) is Some,
        latest(ops, k) matches Some(v) ==> {
            let s = states.last();
            let m = s.locations()[k];
            &&& s@[k] == v
            &&& s.log()[m.gen][m.pos] == CommandView::Put(k, v)
        },
{
    lemma_run_contents(states, ops);
    lemma_latest_write_wins(ops, k);
    if states.last()@.contains_key(k) {
        states.last().lemma_locations();
    }
}

} // verus!
