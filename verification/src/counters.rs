//! Replicated counters: the grow-only counter and the
//! positive-negative counter, with a plain operation counter as a
//! non-replicated baseline.
//!
//! The replicated counters keep one entry per replica identity and
//! converge by taking the entry-wise maximum, so their state is modeled
//! as a map from abstract replica identity to count.

use vstd::prelude::*;

verus! {

use crate::traits::{Payload, Replicated, StateRDT, OperationRDT, MapValue};
use crate::model::{
    join_maps, gsum, assoc_map, distinct_keys,
    lemma_join_maps_idem, lemma_join_maps_comm, lemma_join_maps_assoc,
    lemma_join_maps_empty, lemma_join_maps_insert_fresh,
    lemma_gsum_insert, lemma_gsum_nonneg,
    lemma_assoc_map_dom, lemma_assoc_map_finite, lemma_assoc_map_index,
    lemma_assoc_map_update, lemma_assoc_map_push, lemma_assoc_map_take_fresh, find_entry,
};

/// The abstraction of a stored count to its mathematical value.
pub open spec fn int_of_i64() -> spec_fn(i64) -> int {
    |v: i64| v as int
}

/// The map of abstract replica identities to counts that an entry vector
/// stands for.
pub open spec fn counts_of<H: Payload>(s: Seq<(H, i64)>) -> Map<H::Abs, int> {
    assoc_map(s, int_of_i64())
}

/// Every stored count is non-negative.
pub open spec fn nonneg_entries<H>(s: Seq<(H, i64)>) -> bool {
    forall|i: int| 0 <= i < s.len() ==> (#[trigger] s[i]).1 >= 0
}

/// The join of two counts: the larger one.
pub open spec fn join_max() -> spec_fn(int, int) -> int {
    |x: int, y: int|
        if x >= y {
            x
        } else {
            y
        }
}

/// The count recorded for a key, or zero where none is.
pub open spec fn or0<A>(m: Map<A, int>, k: A) -> int {
    if m.dom().contains(k) {
        m[k]
    } else {
        0
    }
}

/// Raising one entry of a count map to at least `v`: what applying a
/// counter operation does.
pub open spec fn raise<A>(m: Map<A, int>, k: A, v: int) -> Map<A, int> {
    m.insert(
        k,
        if or0(m, k) >= v {
            or0(m, k)
        } else {
            v
        },
    )
}

/// Raising the same entry to the same count twice changes nothing more
/// than doing it once.
pub proof fn lemma_raise_idem<A>(m: Map<A, int>, k: A, v: int)
    ensures
        raise(raise(m, k, v), k, v) == raise(m, k, v),
{
    assert(raise(raise(m, k, v), k, v) =~= raise(m, k, v));
}

/// Raises of two entries commute, whether or not they share a key.
pub proof fn lemma_raise_comm<A>(m: Map<A, int>, k1: A, v1: int, k2: A, v2: int)
    ensures
        raise(raise(m, k1, v1), k2, v2) == raise(raise(m, k2, v2), k1, v1),
{
    assert(raise(raise(m, k1, v1), k2, v2) =~= raise(raise(m, k2, v2), k1, v1));
}

/// Counter state is monotone: neither applying an operation (a `raise`)
/// nor merging another state ever lowers an entry, and a `raise` never
/// lowers the total.
pub proof fn lemma_counts_monotone<A>(m: Map<A, int>, other: Map<A, int>, k: A, v: int)
    requires
        m.dom().finite(),
        forall|a: A| #[trigger] other.dom().contains(a) ==> other[a] >= 0,
    ensures
        forall|a: A| #[trigger] or0(raise(m, k, v), a) >= or0(m, a),
        gsum(raise(m, k, v)) >= gsum(m),
        forall|a: A| #[trigger] or0(join_maps(m, other, join_max()), a) >= or0(m, a),
{
    lemma_gsum_insert(
        m,
        k,
        if or0(m, k) >= v {
            or0(m, k)
        } else {
            v
        },
    );
}

/// A distinct, non-negative entry vector abstracts to a finite map of
/// non-negative counts.
proof fn lemma_counts_wf<H: Payload>(s: Seq<(H, i64)>)
    requires
        distinct_keys(s),
        nonneg_entries(s),
    ensures
        counts_of(s).dom().finite(),
        forall|k: H::Abs| #[trigger] counts_of(s).dom().contains(k) ==> counts_of(s)[k] >= 0,
{
    lemma_assoc_map_finite(s, int_of_i64());
    assert forall|k: H::Abs| #[trigger] counts_of(s).dom().contains(k) implies counts_of(s)[k]
        >= 0 by {
        lemma_assoc_map_dom(s, int_of_i64(), k);
        let i = choose|i: int| 0 <= i < s.len() && s[i].0.abs() == k;
        lemma_assoc_map_index(s, int_of_i64(), i);
    }
}

/// The count recorded for a replica identity, or zero.
fn get_entry<H: Payload>(entries: &Vec<(H, i64)>, id: &H) -> (r: i64)
    requires
        distinct_keys(entries@),
    ensures
        r as int == or0(counts_of(entries@), id.abs()),
{
    match find_entry(entries, id) {
        Some(i) => {
            proof {
                lemma_assoc_map_index(entries@, int_of_i64(), i as int);
            }
            entries[i].1
        },
        None => {
            proof {
                lemma_assoc_map_dom(entries@, int_of_i64(), id.abs());
            }
            0
        },
    }
}

/// Raise the entry for `id` to at least `v`, creating it if absent; a
/// negative `v` never lowers anything, so non-negativity survives.
fn raise_entry<H: Payload>(entries: &mut Vec<(H, i64)>, id: &H, v: i64)
    ensures
        distinct_keys(old(entries)@) ==> distinct_keys(final(entries)@),
        distinct_keys(old(entries)@) && nonneg_entries(old(entries)@) ==> nonneg_entries(
            final(entries)@,
        ),
        distinct_keys(old(entries)@) ==> counts_of(final(entries)@) == raise(
            counts_of(old(entries)@),
            id.abs(),
            v as int,
        ),
{
    let ghost s0 = entries@;
    match find_entry(entries, id) {
        Some(i) => {
            proof {
                if distinct_keys(s0) {
                    lemma_assoc_map_index(s0, int_of_i64(), i as int);
                }
            }
            let cur = entries[i].1;
            if v > cur {
                entries[i].1 = v;
                proof {
                    if distinct_keys(s0) {
                        assert(entries@ =~= s0.update(i as int, (s0[i as int].0, v)));
                        lemma_assoc_map_update(s0, int_of_i64(), i as int, (s0[i as int].0, v));
                    }
                }
            } else {
                proof {
                    if distinct_keys(s0) {
                        let m = counts_of(s0);
                        assert(raise(m, id.abs(), v as int) =~= m);
                    }
                }
            }
        },
        None => {
            let kv = (id.clone_abs(), if v >= 0 {
                v
            } else {
                0
            });
            entries.push(kv);
            proof {
                assert(entries@ =~= s0.push(kv));
                lemma_assoc_map_push(s0, int_of_i64(), kv);
                if distinct_keys(s0) {
                    lemma_assoc_map_dom(s0, int_of_i64(), id.abs());
                    assert forall|i: int, j: int| 0 <= i < j < entries@.len() implies (
                    #[trigger] entries@[i].0.abs()) != (#[trigger] entries@[j].0.abs()) by {
                        if j < entries@.len() - 1 {
                            assert(entries@[i] == s0[i] && entries@[j] == s0[j]);
                        } else {
                            assert(entries@[i] == s0[i]);
                        }
                    }
                }
            }
        },
    }
}

/// Fold every entry of `src` into `dst`, leaving the entry-wise maximum.
fn merge_entries<H: Payload>(dst: &mut Vec<(H, i64)>, src: &Vec<(H, i64)>)
    requires
        distinct_keys(old(dst)@),
        nonneg_entries(old(dst)@),
        distinct_keys(src@),
        nonneg_entries(src@),
    ensures
        distinct_keys(final(dst)@),
        nonneg_entries(final(dst)@),
        counts_of(final(dst)@) == join_maps(counts_of(old(dst)@), counts_of(src@), join_max()),
{
    let ghost a = counts_of(old(dst)@);
    let n = src.len();
    let mut i: usize = 0;
    proof {
        lemma_join_maps_empty(a, join_max());
        assert(counts_of(src@.take(0)) =~= Map::<H::Abs, int>::empty());
    }
    while i < n
        invariant
            n == src@.len(),
            0 <= i <= n,
            distinct_keys(src@),
            nonneg_entries(src@),
            distinct_keys(dst@),
            nonneg_entries(dst@),
            counts_of(dst@) == join_maps(a, counts_of(src@.take(i as int)), join_max()),
        decreases n - i,
    {
        let ghost pre = counts_of(src@.take(i as int));
        let ghost kv = src@[i as int];
        raise_entry(dst, &src[i].0, src[i].1);
        proof {
            assert(src@.take(i + 1) =~= src@.take(i as int).push(kv));
            lemma_assoc_map_push(src@.take(i as int), int_of_i64(), kv);
            lemma_assoc_map_take_fresh(src@, int_of_i64(), i as int);
            assert(!pre.dom().contains(kv.0.abs()));
            lemma_join_maps_insert_fresh(a, pre, join_max(), kv.0.abs(), kv.1 as int);
            lemma_counts_wf(src@);
            assert(counts_of(dst@) =~= join_maps(a, counts_of(src@.take(i + 1)), join_max()));
        }
        i = i + 1;
    }
    proof {
        assert(src@.take(n as int) =~= src@);
    }
}

/// The sum of the counts of an entry vector.
fn sum_entries<H: Payload>(entries: &Vec<(H, i64)>) -> (r: i128)
    requires
        distinct_keys(entries@),
        nonneg_entries(entries@),
    ensures
        r as int == gsum(counts_of(entries@)),
        0 <= r as int <= entries@.len() * (i64::MAX as int),
{
    let n = entries.len();
    let mut acc: i128 = 0;
    let mut i: usize = 0;
    proof {
        assert(counts_of(entries@.take(0)) =~= Map::<H::Abs, int>::empty());
    }
    while i < n
        invariant
            n == entries@.len(),
            0 <= i <= n,
            distinct_keys(entries@),
            nonneg_entries(entries@),
            acc as int == gsum(counts_of(entries@.take(i as int))),
            0 <= acc as int <= i * (i64::MAX as int),
        decreases n - i,
    {
        let ghost pre = counts_of(entries@.take(i as int));
        let ghost kv = entries@[i as int];
        proof {
            assert(entries@.take(i + 1) =~= entries@.take(i as int).push(kv));
            lemma_assoc_map_push(entries@.take(i as int), int_of_i64(), kv);
            lemma_assoc_map_take_fresh(entries@, int_of_i64(), i as int);
            assert(!pre.dom().contains(kv.0.abs()));
            lemma_assoc_map_finite(entries@.take(i as int), int_of_i64());
            lemma_gsum_insert(pre, kv.0.abs(), kv.1 as int);
        }
        acc = acc + entries[i].1 as i128;
        i = i + 1;
    }
    proof {
        assert(entries@.take(n as int) =~= entries@);
    }
    acc
}

/// A grow-only counter: one non-negative count per replica identity, its
/// logical value their sum.
pub struct GCounter<H> {
    /// The identity of the replica this instance lives on.
    pub my_id: H,
    /// One count per replica identity, keys distinct.
    pub counters: Vec<(H, i64)>,
}

/// The operation a grow-only counter ships: raise the entry for `id` to
/// the recorded total.
pub struct SetGCounterOperation<H> {
    /// The replica whose entry is raised.
    pub id: H,
    /// The total the entry is raised to.
    pub value: i64,
}

impl<H: Payload> Replicated for GCounter<H> {
    type Model = Map<H::Abs, int>;

    open spec fn inv(&self) -> bool {
        distinct_keys(self.counters@) && nonneg_entries(self.counters@)
    }

    open spec fn model(&self) -> Map<H::Abs, int> {
        counts_of(self.counters@)
    }
}

impl<H: Payload> GCounter<H> {
    /// An empty counter owned by the replica `my_id`.
    pub fn new(my_id: H) -> (r: Self)
        ensures
            r.inv(),
            r.model() == Map::<H::Abs, int>::empty(),
            r.my_id == my_id,
    {
        GCounter { my_id, counters: Vec::new() }
    }

    /// The logical value: the sum of every replica's count.
    pub fn value(&self) -> (r: i128)
        requires
            self.inv(),
        ensures
            r as int == gsum(self.model()),
            r >= 0,
    {
        proof {
            lemma_counts_wf(self.counters@);
            lemma_gsum_nonneg(counts_of(self.counters@));
        }
        sum_entries(&self.counters)
    }

    /// Add a non-negative amount, returning the operation to ship; a
    /// negative amount is rejected and nothing changes.
    pub fn add(&mut self, value: i64) -> (r: Option<SetGCounterOperation<H>>)
        requires
            old(self).inv(),
            value >= 0 ==> gsum(old(self).model()) + value <= i64::MAX as int,
        ensures
            final(self).inv(),
            final(self).my_id == old(self).my_id,
            value < 0 ==> r is None && *final(self) == *old(self),
            value >= 0 ==> (match r {
                Some(op) => {
                    &&& op.id.abs() == old(self).my_id.abs()
                    &&& op.value as int == gsum(old(self).model()) + value
                    &&& final(self).model() == raise(
                        old(self).model(),
                        op.id.abs(),
                        op.value as int,
                    )
                },
                None => false,
            }),
    {
        if value < 0 {
            return None;
        }
        let total = self.value();
        let op = SetGCounterOperation { id: self.my_id.clone_abs(), value: (total + value as i128) as i64 };
        raise_entry(&mut self.counters, &op.id, op.value);
        Some(op)
    }
}

impl<H: Payload> OperationRDT for GCounter<H> {
    type Operation = SetGCounterOperation<H>;

    open spec fn apply_spec(m: Map<H::Abs, int>, op: SetGCounterOperation<H>) -> Map<
        H::Abs,
        int,
    > {
        raise(m, op.id.abs(), op.value as int)
    }

    open spec fn op_compatible(a: SetGCounterOperation<H>, b: SetGCounterOperation<H>) -> bool {
        true
    }

    fn apply(&mut self, op: &SetGCounterOperation<H>) {
        raise_entry(&mut self.counters, &op.id, op.value);
    }

    proof fn lemma_apply_idem(m: Map<H::Abs, int>, op: SetGCounterOperation<H>) {
        lemma_raise_idem(m, op.id.abs(), op.value as int);
    }

    proof fn lemma_apply_comm(
        m: Map<H::Abs, int>,
        a: SetGCounterOperation<H>,
        b: SetGCounterOperation<H>,
    ) {
        lemma_raise_comm(m, a.id.abs(), a.value as int, b.id.abs(), b.value as int);
    }
}

impl<H: Payload> StateRDT for GCounter<H> {
    open spec fn join(a: Map<H::Abs, int>, b: Map<H::Abs, int>) -> Map<H::Abs, int> {
        join_maps(a, b, join_max())
    }

    open spec fn compatible(a: Map<H::Abs, int>, b: Map<H::Abs, int>) -> bool {
        true
    }

    fn merge(&mut self, other: &Self) {
        merge_entries(&mut self.counters, &other.counters);
    }

    proof fn lemma_join_idem(a: Map<H::Abs, int>) {
        lemma_join_maps_idem(a, join_max());
    }

    proof fn lemma_join_comm(a: Map<H::Abs, int>, b: Map<H::Abs, int>) {
        lemma_join_maps_comm(a, b, join_max());
    }

    proof fn lemma_join_assoc(a: Map<H::Abs, int>, b: Map<H::Abs, int>, c: Map<H::Abs, int>) {
        lemma_join_maps_assoc(a, b, c, join_max());
    }
}

/// A positive-negative counter: one grow-only map of additions and one of
/// removals, its logical value their difference.
pub struct PNCounter<H> {
    /// The identity of the replica this instance lives on.
    pub my_id: H,
    /// The per-replica totals of everything added, keys distinct.
    pub pos_counters: Vec<(H, i64)>,
    /// The per-replica totals of everything subtracted, keys distinct.
    pub neg_counters: Vec<(H, i64)>,
}

/// The operation a positive-negative counter ships: raise both of the
/// entries for `id` to the recorded per-replica totals.
pub struct SetPNCounterOperation<H> {
    /// The replica whose entries are raised.
    pub id: H,
    /// The total of everything this replica added.
    pub pos_value: i64,
    /// The total of everything this replica subtracted.
    pub neg_value: i64,
}

impl<H: Payload> Replicated for PNCounter<H> {
    type Model = (Map<H::Abs, int>, Map<H::Abs, int>);

    open spec fn inv(&self) -> bool {
        &&& distinct_keys(self.pos_counters@)
        &&& nonneg_entries(self.pos_counters@)
        &&& distinct_keys(self.neg_counters@)
        &&& nonneg_entries(self.neg_counters@)
    }

    open spec fn model(&self) -> (Map<H::Abs, int>, Map<H::Abs, int>) {
        (counts_of(self.pos_counters@), counts_of(self.neg_counters@))
    }
}

impl<H: Payload> PNCounter<H> {
    /// An empty counter owned by the replica `my_id`.
    pub fn new(my_id: H) -> (r: Self)
        ensures
            r.inv(),
            r.model() == (Map::<H::Abs, int>::empty(), Map::<H::Abs, int>::empty()),
            r.my_id == my_id,
    {
        PNCounter { my_id, pos_counters: Vec::new(), neg_counters: Vec::new() }
    }

    /// The logical value: everything added less everything subtracted.
    pub fn value(&self) -> (r: i128)
        requires
            self.inv(),
        ensures
            r as int == gsum(self.model().0) - gsum(self.model().1),
    {
        let pos = sum_entries(&self.pos_counters);
        let neg = sum_entries(&self.neg_counters);
        pos - neg
    }

    /// Add a signed amount, returning the operation to ship; the
    /// operation carries this replica's updated cumulative totals, so
    /// delivering it twice is harmless.
    pub fn add(&mut self, value: i64) -> (r: Option<SetPNCounterOperation<H>>)
        requires
            old(self).inv(),
            value >= 0 ==> or0(old(self).model().0, old(self).my_id.abs()) + value
                <= i64::MAX as int,
            value < 0 ==> or0(old(self).model().1, old(self).my_id.abs()) - value
                <= i64::MAX as int,
        ensures
            final(self).inv(),
            final(self).my_id == old(self).my_id,
            match r {
                Some(op) => {
                    &&& op.id.abs() == old(self).my_id.abs()
                    &&& op.pos_value as int == or0(old(self).model().0, op.id.abs()) + (
                    if value >= 0 {
                        value as int
                    } else {
                        0
                    })
                    &&& op.neg_value as int == or0(old(self).model().1, op.id.abs()) + (
                    if value < 0 {
                        -(value as int)
                    } else {
                        0
                    })
                    &&& final(self).model() == Self::apply_spec(old(self).model(), op)
                },
                None => false,
            },
    {
        let cur_pos = get_entry(&self.pos_counters, &self.my_id);
        let cur_neg = get_entry(&self.neg_counters, &self.my_id);
        let op = if value >= 0 {
            SetPNCounterOperation {
                id: self.my_id.clone_abs(),
                pos_value: cur_pos + value,
                neg_value: cur_neg,
            }
        } else {
            SetPNCounterOperation {
                id: self.my_id.clone_abs(),
                pos_value: cur_pos,
                neg_value: (cur_neg as i128 - value as i128) as i64,
            }
        };
        raise_entry(&mut self.pos_counters, &op.id, op.pos_value);
        raise_entry(&mut self.neg_counters, &op.id, op.neg_value);
        Some(op)
    }
}

impl<H: Payload> OperationRDT for PNCounter<H> {
    type Operation = SetPNCounterOperation<H>;

    open spec fn apply_spec(
        m: (Map<H::Abs, int>, Map<H::Abs, int>),
        op: SetPNCounterOperation<H>,
    ) -> (Map<H::Abs, int>, Map<H::Abs, int>) {
        (raise(m.0, op.id.abs(), op.pos_value as int), raise(m.1, op.id.abs(), op.neg_value as int))
    }

    open spec fn op_compatible(
        a: SetPNCounterOperation<H>,
        b: SetPNCounterOperation<H>,
    ) -> bool {
        true
    }

    fn apply(&mut self, op: &SetPNCounterOperation<H>) {
        raise_entry(&mut self.pos_counters, &op.id, op.pos_value);
        raise_entry(&mut self.neg_counters, &op.id, op.neg_value);
    }

    proof fn lemma_apply_idem(
        m: (Map<H::Abs, int>, Map<H::Abs, int>),
        op: SetPNCounterOperation<H>,
    ) {
        lemma_raise_idem(m.0, op.id.abs(), op.pos_value as int);
        lemma_raise_idem(m.1, op.id.abs(), op.neg_value as int);
    }

    proof fn lemma_apply_comm(
        m: (Map<H::Abs, int>, Map<H::Abs, int>),
        a: SetPNCounterOperation<H>,
        b: SetPNCounterOperation<H>,
    ) {
        lemma_raise_comm(m.0, a.id.abs(), a.pos_value as int, b.id.abs(), b.pos_value as int);
        lemma_raise_comm(m.1, a.id.abs(), a.neg_value as int, b.id.abs(), b.neg_value as int);
    }
}

impl<H: Payload> StateRDT for PNCounter<H> {
    open spec fn join(
        a: (Map<H::Abs, int>, Map<H::Abs, int>),
        b: (Map<H::Abs, int>, Map<H::Abs, int>),
    ) -> (Map<H::Abs, int>, Map<H::Abs, int>) {
        (join_maps(a.0, b.0, join_max()), join_maps(a.1, b.1, join_max()))
    }

    open spec fn compatible(
        a: (Map<H::Abs, int>, Map<H::Abs, int>),
        b: (Map<H::Abs, int>, Map<H::Abs, int>),
    ) -> bool {
        true
    }

    fn merge(&mut self, other: &Self) {
        merge_entries(&mut self.pos_counters, &other.pos_counters);
        merge_entries(&mut self.neg_counters, &other.neg_counters);
    }

    proof fn lemma_join_idem(a: (Map<H::Abs, int>, Map<H::Abs, int>)) {
        lemma_join_maps_idem(a.0, join_max());
        lemma_join_maps_idem(a.1, join_max());
    }

    proof fn lemma_join_comm(
        a: (Map<H::Abs, int>, Map<H::Abs, int>),
        b: (Map<H::Abs, int>, Map<H::Abs, int>),
    ) {
        lemma_join_maps_comm(a.0, b.0, join_max());
        lemma_join_maps_comm(a.1, b.1, join_max());
    }

    proof fn lemma_join_assoc(
        a: (Map<H::Abs, int>, Map<H::Abs, int>),
        b: (Map<H::Abs, int>, Map<H::Abs, int>),
        c: (Map<H::Abs, int>, Map<H::Abs, int>),
    ) {
        lemma_join_maps_assoc(a.0, b.0, c.0, join_max());
        lemma_join_maps_assoc(a.1, b.1, c.1, join_max());
    }
}

/// A plain operation counter: a single signed accumulator and an
/// increment operation, kept as a non-replicated baseline.  Applying the
/// same increment twice counts it twice, so it suits only carriers that
/// already deliver exactly once.  Folding an increment in needs room in
/// the accumulator, which the unconditional contracts of the replication
/// traits cannot demand, so its methods stand on their own.
pub struct OpCounter {
    /// The accumulated total.
    pub count: i64,
}

/// The operation a plain counter ships: add the carried amount.
pub struct IncrementOperation(pub i64);

impl Replicated for OpCounter {
    type Model = int;

    open spec fn inv(&self) -> bool {
        true
    }

    open spec fn model(&self) -> int {
        self.count as int
    }
}

impl OpCounter {
    /// A counter at zero.
    pub fn new() -> (r: Self)
        ensures
            r.count == 0,
    {
        OpCounter { count: 0 }
    }

    /// The accumulated total.
    pub fn value(&self) -> (r: i64)
        ensures
            r == self.count,
    {
        self.count
    }

    /// Add a signed amount and return the operation to ship.
    pub fn add(&mut self, value: i64) -> (r: IncrementOperation)
        requires
            i64::MIN <= old(self).count + value <= i64::MAX,
        ensures
            final(self).count == old(self).count + value,
            r.0 == value,
    {
        let op = IncrementOperation(value);
        self.apply(&op);
        op
    }

    /// Fold one increment into the total.
    pub fn apply(&mut self, op: &IncrementOperation)
        requires
            i64::MIN <= old(self).count + op.0 <= i64::MAX,
        ensures
            final(self).count == old(self).count + op.0,
    {
        self.count = self.count + op.0;
    }
}

impl<H: Payload> MapValue for PNCounter<H> {
    type Id = H;

    open spec fn bottom() -> (Map<H::Abs, int>, Map<H::Abs, int>) {
        (Map::<H::Abs, int>::empty(), Map::<H::Abs, int>::empty())
    }

    fn fresh(id: &H) -> (r: Self) {
        PNCounter::new(id.clone_abs())
    }

    proof fn lemma_bottom_join(m: (Map<H::Abs, int>, Map<H::Abs, int>)) {
        lemma_join_maps_empty(m.0, join_max());
        lemma_join_maps_empty(m.1, join_max());
    }
}

} // verus!
