//! Regret and average-strategy storage for information sets.
//!
//! An `Infoset` holds, per action, a cumulative regret and a cumulative
//! strategy weight, both `i32` counters that saturate instead of
//! wrapping. An `InfosetRow` holds the infosets of one action node, one
//! slot per card bucket, allocated on first write; an `InfosetTable`
//! holds the rows of a game tree.
use vstd::prelude::*;
use crate::nodes::GameTreeNode;
use crate::tree::{Node, NodeId, Tree};

verus! {

broadcast use vstd::layout::layout_of_primitives;

/// `cur + delta`, clamped to the range of `i32`.
pub open spec fn clamped_add(cur: i32, delta: i32) -> i32 {
    let s = cur as int + delta as int;
    if s > i32::MAX {
        i32::MAX
    } else if s < i32::MIN {
        i32::MIN
    } else {
        s as i32
    }
}

/// `a + b`, saturated at `usize::MAX`.
pub open spec fn sat_add(a: int, b: int) -> int {
    if a + b > usize::MAX {
        usize::MAX as int
    } else {
        a + b
    }
}

/// A sequence of `n` zeros.
pub open spec fn zeros(n: nat) -> Seq<i32> {
    Seq::new(n, |i: int| 0i32)
}

/// Capacity of `v`: at least its length, and never more than
/// `isize::MAX` bytes of elements.
#[verifier::external_body]
fn vec_capacity<T>(v: &Vec<T>) -> (c: usize)
    ensures
        c >= v@.len(),
        c * vstd::layout::size_of::<T>() <= isize::MAX,
{
    v.capacity()
}

/// `a * b`, saturated at `usize::MAX`.
fn mul_saturating(a: usize, b: usize) -> (r: usize)
    ensures
        r == (if a * b > usize::MAX {
            usize::MAX as int
        } else {
            a * b
        }),
{
    match a.checked_mul(b) {
        Some(p) => p,
        None => usize::MAX,
    }
}

/// `cur + delta`, clamped to the range of `i32`.
fn add_clamped(cur: i32, delta: i32) -> (r: i32)
    ensures
        r == clamped_add(cur, delta),
{
    let s = cur as i64 + delta as i64;
    if s > i32::MAX as i64 {
        i32::MAX
    } else if s < i32::MIN as i64 {
        i32::MIN
    } else {
        s as i32
    }
}

/// Cumulative regrets and strategy weights of one information set, one
/// entry per action.
#[derive(Debug)]
pub struct Infoset {
    pub regrets: Vec<i32>,
    pub strategy_sum: Vec<i32>,
}

impl Infoset {
    /// An infoset of `n_actions` actions with every counter at zero.
    pub fn init(n_actions: usize) -> (r: Infoset)
        ensures
            r.regrets@ == zeros(n_actions as nat),
            r.strategy_sum@ == zeros(n_actions as nat),
    {
        let mut regrets: Vec<i32> = Vec::new();
        let mut strategy_sum: Vec<i32> = Vec::new();
        let mut i: usize = 0;
        while i < n_actions
            invariant
                i <= n_actions,
                regrets@ == zeros(i as nat),
                strategy_sum@ == zeros(i as nat),
            decreases n_actions - i,
        {
            regrets.push(0);
            strategy_sum.push(0);
            i = i + 1;
            assert(regrets@ =~= zeros(i as nat));
            assert(strategy_sum@ =~= zeros(i as nat));
        }
        Infoset { regrets, strategy_sum }
    }

    /// Bytes held by this infoset: four per counter, plus the struct
    /// itself. Saturates at `usize::MAX`.
    pub fn allocated_bytes(&self) -> (b: usize)
        ensures
            b == sat_add(
                4 * (self.regrets@.len() + self.strategy_sum@.len()) as int,
                vstd::layout::size_of::<Infoset>() as int,
            ),
    {
        let counter = core::mem::size_of::<i32>();
        let a = mul_saturating(self.regrets.len(), counter);
        let s = mul_saturating(self.strategy_sum.len(), counter);
        let header = core::mem::size_of::<Infoset>();
        a.saturating_add(s).saturating_add(header)
    }

    /// Number of actions.
    pub fn n_actions(&self) -> (n: usize)
        ensures
            n == self.regrets@.len(),
    {
        self.regrets.len()
    }

    /// Cumulative regret of action `i`.
    pub fn regret(&self, i: usize) -> (r: i32)
        requires
            i < self.regrets@.len(),
        ensures
            r == self.regrets@[i as int],
    {
        self.regrets[i]
    }

    /// Cumulative strategy weight of action `i`.
    pub fn strategy_sum_at(&self, i: usize) -> (r: i32)
        requires
            i < self.strategy_sum@.len(),
        ensures
            r == self.strategy_sum@[i as int],
    {
        self.strategy_sum[i]
    }

    /// A copy of the regrets.
    pub fn regrets_snapshot(&self) -> (r: Vec<i32>)
        ensures
            r@ == self.regrets@,
    {
        self.regrets.clone()
    }

    /// A copy of the strategy weights.
    pub fn strategy_sum_snapshot(&self) -> (r: Vec<i32>)
        ensures
            r@ == self.strategy_sum@,
    {
        self.strategy_sum.clone()
    }

    /// Adds `delta` to the regret of action `i`, clamping at the bounds
    /// of `i32`.
    pub fn add_regret(&mut self, i: usize, delta: i32)
        requires
            i < old(self).regrets@.len(),
        ensures
            final(self).regrets@ == old(self).regrets@.update(
                i as int,
                clamped_add(old(self).regrets@[i as int], delta),
            ),
            final(self).strategy_sum@ == old(self).strategy_sum@,
    {
        let next = add_clamped(self.regrets[i], delta);
        self.regrets.set(i, next);
    }

    /// Adds `delta` to the strategy weight of action `i`, clamping at the
    /// bounds of `i32`.
    pub fn add_strategy_sum(&mut self, i: usize, delta: i32)
        requires
            i < old(self).strategy_sum@.len(),
        ensures
            final(self).strategy_sum@ == old(self).strategy_sum@.update(
                i as int,
                clamped_add(old(self).strategy_sum@[i as int], delta),
            ),
            final(self).regrets@ == old(self).regrets@,
    {
        let next = add_clamped(self.strategy_sum[i], delta);
        self.strategy_sum.set(i, next);
    }

    /// Raises every negative regret to zero (CFR+).
    pub fn floor_regrets_at_zero(&mut self)
        ensures
            final(self).regrets@.len() == old(self).regrets@.len(),
            forall|i: int|
                0 <= i < old(self).regrets@.len() ==> #[trigger] final(self).regrets@[i] == if old(
                    self,
                ).regrets@[i] < 0 {
                    0
                } else {
                    old(self).regrets@[i]
                },
            final(self).strategy_sum@ == old(self).strategy_sum@,
    {
        let mut i: usize = 0;
        while i < self.regrets.len()
            invariant
                i <= self.regrets@.len(),
                self.regrets@.len() == old(self).regrets@.len(),
                self.strategy_sum@ == old(self).strategy_sum@,
                forall|k: int|
                    0 <= k < i ==> #[trigger] self.regrets@[k] == if old(self).regrets@[k] < 0 {
                        0
                    } else {
                        old(self).regrets@[k]
                    },
                forall|k: int| i <= k < self.regrets@.len() ==> #[trigger] self.regrets@[k] == old(self).regrets@[k],
            decreases self.regrets@.len() - i,
        {
            if self.regrets[i] < 0 {
                self.regrets.set(i, 0);
            }
            i = i + 1;
        }
    }
}

/// Number of allocated slots.
pub open spec fn count_allocated(slots: Seq<Option<Infoset>>) -> nat
    decreases slots.len(),
{
    if slots.len() == 0 {
        0
    } else {
        count_allocated(slots.drop_last()) + if slots.last() is Some {
            1nat
        } else {
            0nat
        }
    }
}

/// The infosets of the allocated slots, in slot order.
pub open spec fn allocated_infosets(slots: Seq<Option<Infoset>>) -> Seq<Infoset>
    decreases slots.len(),
{
    if slots.len() == 0 {
        Seq::empty()
    } else {
        match slots.last() {
            Some(inf) => allocated_infosets(slots.drop_last()).push(inf),
            None => allocated_infosets(slots.drop_last()),
        }
    }
}

/// Bytes held by the allocated infosets, saturated at `usize::MAX`.
pub open spec fn infoset_bytes(slots: Seq<Option<Infoset>>) -> int
    decreases slots.len(),
{
    if slots.len() == 0 {
        0
    } else {
        sat_add(
            infoset_bytes(slots.drop_last()),
            match slots.last() {
                Some(inf) => sat_add(
                    4 * (inf.regrets@.len() + inf.strategy_sum@.len()) as int,
                    vstd::layout::size_of::<Infoset>() as int,
                ),
                None => 0,
            },
        )
    }
}

/// Bytes of a row whose slot storage has capacity `cap`: the slots
/// (each saturated at `usize::MAX`) plus the allocated infosets.
pub open spec fn row_bytes(cap: int, slots: Seq<Option<Infoset>>) -> int {
    let slot_bytes = cap * vstd::layout::size_of::<Option<Infoset>>();
    sat_add(
        if slot_bytes > usize::MAX {
            usize::MAX as int
        } else {
            slot_bytes
        },
        infoset_bytes(slots),
    )
}

/// The infosets of one action node, one slot per card bucket. A slot is
/// empty until the first write to it.
#[derive(Debug)]
pub struct InfosetRow {
    n_actions: usize,
    slots: Vec<Option<Infoset>>,
}

impl InfosetRow {
    /// The slots, by bucket.
    pub closed spec fn slots_view(&self) -> Seq<Option<Infoset>> {
        self.slots@
    }

    /// Number of actions of the row's node.
    pub closed spec fn spec_n_actions(&self) -> nat {
        self.n_actions as nat
    }

    /// A row with no slots and no actions.
    pub fn new() -> (r: InfosetRow)
        ensures
            r.slots_view() == Seq::<Option<Infoset>>::empty(),
            r.spec_n_actions() == 0,
    {
        InfosetRow { n_actions: 0, slots: Vec::new() }
    }

    /// Sets the number of actions and grows the row to at least
    /// `cluster_size` slots; new slots are empty and existing slots keep
    /// their contents.
    pub fn ensure_capacity(&mut self, cluster_size: usize, n_actions: usize)
        ensures
            final(self).spec_n_actions() == n_actions,
            final(self).slots_view() == if old(self).slots_view().len() < cluster_size {
                old(self).slots_view() + Seq::new(
                    (cluster_size - old(self).slots_view().len()) as nat,
                    |i: int| None::<Infoset>,
                )
            } else {
                old(self).slots_view()
            },
    {
        self.n_actions = n_actions;
        let ghost start = self.slots@;
        if self.slots.len() < cluster_size {
            while self.slots.len() < cluster_size
                invariant
                    self.n_actions == n_actions,
                    start.len() <= self.slots@.len() <= cluster_size,
                    self.slots@ == start + Seq::new(
                        (self.slots@.len() - start.len()) as nat,
                        |i: int| None::<Infoset>,
                    ),
                decreases cluster_size - self.slots@.len(),
            {
                self.slots.push(None);
                assert(self.slots@ =~= start + Seq::new(
                    (self.slots@.len() - start.len()) as nat,
                    |i: int| None::<Infoset>,
                ));
            }
        }
    }

    /// Number of slots.
    pub fn len(&self) -> (n: usize)
        ensures
            n == self.slots_view().len(),
    {
        self.slots.len()
    }

    /// Number of actions of the row's node.
    pub fn n_actions(&self) -> (n: usize)
        ensures
            n == self.spec_n_actions(),
    {
        self.n_actions
    }

    /// The infoset of bucket `cluster`, allocated with zero counters for
    /// the row's action count on first use.
    pub fn get_or_init(&mut self, cluster: usize) -> (r: &mut Infoset)
        requires
            cluster < old(self).slots_view().len(),
        ensures
            old(self).slots_view()[cluster as int] matches Some(inf) ==> *r == inf,
            old(self).slots_view()[cluster as int] is None ==> r.regrets@ == zeros(
                old(self).spec_n_actions(),
            ) && r.strategy_sum@ == zeros(old(self).spec_n_actions()),
            final(self).slots_view() == old(self).slots_view().update(
                cluster as int,
                Some(*final(r)),
            ),
            final(self).spec_n_actions() == old(self).spec_n_actions(),
    {
        if self.slots[cluster].is_none() {
            let fresh = Infoset::init(self.n_actions);
            self.slots.set(cluster, Some(fresh));
        }
        let slot = &mut self.slots[cluster];
        slot.as_mut().unwrap()
    }

    /// The infoset of bucket `cluster`, if it has been written to.
    pub fn get(&self, cluster: usize) -> (r: Option<&Infoset>)
        requires
            cluster < self.slots_view().len(),
        ensures
            r == match self.slots_view()[cluster as int] {
                Some(inf) => Some(&inf),
                None => None::<&Infoset>,
            },
    {
        match &self.slots[cluster] {
            Some(inf) => Some(inf),
            None => None,
        }
    }

    /// The allocated infosets, in bucket order.
    pub fn initialized_infosets(&self) -> (r: Vec<&Infoset>)
        ensures
            r@.len() == count_allocated(self.slots_view()),
            r@.map_values(|x: &Infoset| *x) == allocated_infosets(self.slots_view()),
    {
        let mut out: Vec<&Infoset> = Vec::new();
        let mut i: usize = 0;
        while i < self.slots.len()
            invariant
                i <= self.slots@.len(),
                out@.len() == count_allocated(self.slots@.take(i as int)),
                out@.map_values(|x: &Infoset| *x) == allocated_infosets(self.slots@.take(i as int)),
            decreases self.slots@.len() - i,
        {
            assert(self.slots@.take(i as int + 1).drop_last() =~= self.slots@.take(i as int));
            let ghost before = out@;
            match &self.slots[i] {
                Some(inf) => {
                    out.push(inf);
                    assert(out@.map_values(|x: &Infoset| *x) =~= before.map_values(|x: &Infoset| *x).push(*inf));
                },
                None => {},
            }
            i = i + 1;
        }
        assert(self.slots@.take(i as int) =~= self.slots@);
        out
    }

    /// Number of slots that have been written to.
    pub fn allocated_count(&self) -> (n: usize)
        ensures
            n == count_allocated(self.slots_view()),
    {
        let mut n: usize = 0;
        let mut i: usize = 0;
        while i < self.slots.len()
            invariant
                i <= self.slots@.len(),
                n == count_allocated(self.slots@.take(i as int)),
                n <= i,
            decreases self.slots@.len() - i,
        {
            assert(self.slots@.take(i as int + 1).drop_last() =~= self.slots@.take(i as int));
            if self.slots[i].is_some() {
                n = n + 1;
            }
            i = i + 1;
        }
        assert(self.slots@.take(i as int) =~= self.slots@);
        n
    }

    /// Bytes held by the row: its slot storage, whatever capacity the
    /// allocator gave it, plus every allocated infoset. Saturates at
    /// `usize::MAX`.
    pub fn total_bytes(&self) -> (b: usize)
        ensures
            exists|cap: int|
                cap >= self.slots_view().len() && b == #[trigger] row_bytes(cap, self.slots_view()),
    {
        let cap = vec_capacity(&self.slots);
        let slot_bytes = mul_saturating(cap, core::mem::size_of::<Option<Infoset>>());
        let mut bytes: usize = 0;
        let mut i: usize = 0;
        while i < self.slots.len()
            invariant
                i <= self.slots@.len(),
                bytes == infoset_bytes(self.slots@.take(i as int)),
            decreases self.slots@.len() - i,
        {
            assert(self.slots@.take(i as int + 1).drop_last() =~= self.slots@.take(i as int));
            match &self.slots[i] {
                Some(inf) => {
                    bytes = bytes.saturating_add(inf.allocated_bytes());
                },
                None => {},
            }
            i = i + 1;
        }
        assert(self.slots@.take(i as int) =~= self.slots@);
        let b = slot_bytes.saturating_add(bytes);
        assert(b == row_bytes(cap as int, self.slots_view()));
        b
    }
}


/// Filling one slot raises the allocated count by one when the slot was
/// empty and leaves it unchanged otherwise: a row allocates an infoset on
/// the first write to a bucket and never again for that bucket.
pub proof fn law_first_write_allocates_one(slots: Seq<Option<Infoset>>, cluster: int, inf: Infoset)
    requires
        0 <= cluster < slots.len(),
    ensures
        count_allocated(slots.update(cluster, Some(inf))) == count_allocated(slots) + if slots[cluster] is None {
            1int
        } else {
            0int
        },
    decreases slots.len(),
{
    let t = slots.update(cluster, Some(inf));
    if cluster == slots.len() - 1 {
        assert(t.drop_last() =~= slots.drop_last());
    } else {
        assert(t.drop_last() =~= slots.drop_last().update(cluster, Some(inf)));
        law_first_write_allocates_one(slots.drop_last(), cluster, inf);
    }
}

/// A call that changes a row's slots.
pub enum RowCall {
    /// `ensure_capacity` with this cluster size.
    EnsureCapacity(usize),
    /// `get_or_init` on this bucket.
    GetOrInit(usize),
}

/// `after` is what the row's slots may be once `call` has run on slots
/// `before`, as the two methods' contracts state it.
pub open spec fn call_step(before: Seq<Option<Infoset>>, call: RowCall, after: Seq<Option<Infoset>>) -> bool {
    match call {
        RowCall::EnsureCapacity(n) => after == if before.len() < n {
            before + Seq::new((n - before.len()) as nat, |i: int| None::<Infoset>)
        } else {
            before
        },
        RowCall::GetOrInit(c) => c < before.len() && exists|inf: Infoset| after == before.update(c as int, Some(inf)),
    }
}

/// `call` is `get_or_init` on bucket `c`.
pub open spec fn inits(call: RowCall, c: int) -> bool {
    match call {
        RowCall::GetOrInit(b) => b == c,
        RowCall::EnsureCapacity(_) => false,
    }
}

/// Some call of `calls` is `get_or_init` on bucket `c`.
pub open spec fn touched(calls: Seq<RowCall>, c: int) -> bool {
    exists|i: int| 0 <= i < calls.len() && #[trigger] inits(calls[i], c)
}

/// Starting from a new row, after any sequence of `ensure_capacity` and
/// `get_or_init` calls, a bucket's slot holds an infoset exactly when
/// `get_or_init` was called on that bucket: `views[i]` is the row's slots
/// before call `i`, and the last entry the slots after all calls.
pub proof fn law_filled_iff_initialized(calls: Seq<RowCall>, views: Seq<Seq<Option<Infoset>>>)
    requires
        views.len() == calls.len() + 1,
        views[0] == Seq::<Option<Infoset>>::empty(),
        forall|i: int| 0 <= i < calls.len() ==> #[trigger] call_step(views[i], calls[i], views[i + 1]),
    ensures
        forall|c: int|
            0 <= c < views.last().len() ==> (#[trigger] views.last()[c] is Some <==> touched(calls, c)),
    decreases calls.len(),
{
    if calls.len() > 0 {
        let k = calls.len() - 1;
        let pc = calls.drop_last();
        let pv = views.drop_last();
        assert forall|i: int| 0 <= i < pc.len() implies #[trigger] call_step(pv[i], pc[i], pv[i + 1]) by {
            assert(call_step(views[i], calls[i], views[i + 1]));
        }
        law_filled_iff_initialized(pc, pv);
        let before = views[k];
        let after = views.last();
        assert(pv.last() == before);
        assert(call_step(views[k], calls[k], views[k + 1]));
        assert forall|c: int| 0 <= c < after.len() implies (#[trigger] after[c] is Some <==> touched(calls, c)) by {
            match calls[k] {
                RowCall::EnsureCapacity(n) => {
                    if touched(calls, c) {
                        let i = choose|i: int| 0 <= i < calls.len() && #[trigger] inits(calls[i], c);
                        assert(i < k);
                        assert(pc[i] == calls[i]);
                    }
                    if c < before.len() {
                        assert(after[c] == before[c]);
                        if touched(pc, c) {
                            let i = choose|i: int| 0 <= i < pc.len() && #[trigger] inits(pc[i], c);
                            assert(calls[i] == pc[i]);
                        }
                    } else {
                        assert(after[c] is None);
                        if touched(pc, c) {
                            let i = choose|i: int| 0 <= i < pc.len() && #[trigger] inits(pc[i], c);
                            lemma_touched_in_range(pc, pv, i, c);
                        }
                    }
                },
                RowCall::GetOrInit(b) => {
                    let inf = choose|inf: Infoset| after == before.update(b as int, Some(inf));
                    if c == b {
                        assert(inits(calls[k], c));
                    } else {
                        assert(after[c] == before[c]);
                        if touched(calls, c) {
                            let i = choose|i: int| 0 <= i < calls.len() && #[trigger] inits(calls[i], c);
                            assert(i < k);
                            assert(pc[i] == calls[i]);
                        }
                        if touched(pc, c) {
                            let i = choose|i: int| 0 <= i < pc.len() && #[trigger] inits(pc[i], c);
                            assert(calls[i] == pc[i]);
                        }
                    }
                },
            }
        }
    }
}

/// A bucket that `get_or_init` was called on lies inside the last view
/// of the row: rows never shrink.
proof fn lemma_touched_in_range(calls: Seq<RowCall>, views: Seq<Seq<Option<Infoset>>>, i: int, c: int)
    requires
        views.len() == calls.len() + 1,
        0 <= i < calls.len(),
        0 <= c,
        forall|j: int| 0 <= j < calls.len() ==> #[trigger] call_step(views[j], calls[j], views[j + 1]),
        inits(calls[i], c),
    ensures
        c < views.last().len(),
    decreases calls.len(),
{
    let k = calls.len() - 1;
    assert(call_step(views[k], calls[k], views[k + 1]));
    if i == k {
        assert(call_step(views[i], calls[i], views[i + 1]));
    } else {
        let pc = calls.drop_last();
        let pv = views.drop_last();
        assert forall|j: int| 0 <= j < pc.len() implies #[trigger] call_step(pv[j], pc[j], pv[j + 1]) by {
            assert(call_step(views[j], calls[j], views[j + 1]));
        }
        assert(pc[i] == calls[i]);
        lemma_touched_in_range(pc, pv, i, c);
        assert(pv.last() == views[k]);
        match calls[k] {
            RowCall::EnsureCapacity(n) => {},
            RowCall::GetOrInit(b) => {
                let inf = choose|inf: Infoset| views[k + 1] == views[k].update(b as int, Some(inf));
            },
        }
    }
}

/// The infoset rows of a game tree, one per action node.
#[derive(Debug)]
pub struct InfosetTable {
    rows: Vec<InfosetRow>,
}

/// Allocated slots over all rows.
pub open spec fn table_allocated(rows: Seq<InfosetRow>) -> nat
    decreases rows.len(),
{
    if rows.len() == 0 {
        0
    } else {
        table_allocated(rows.drop_last()) + count_allocated(rows.last().slots_view())
    }
}

/// `caps` gives each row a capacity of at least its number of slots.
pub open spec fn caps_fit(caps: Seq<int>, rows: Seq<InfosetRow>) -> bool {
    &&& caps.len() == rows.len()
    &&& forall|i: int| 0 <= i < rows.len() ==> #[trigger] caps[i] >= rows[i].slots_view().len()
}

/// Bytes of the rows when each has the slot capacity given by `caps`,
/// saturated at `usize::MAX`.
pub open spec fn table_bytes(caps: Seq<int>, rows: Seq<InfosetRow>) -> int
    decreases rows.len(),
{
    if rows.len() == 0 || caps.len() != rows.len() {
        0
    } else {
        sat_add(table_bytes(caps.drop_last(), rows.drop_last()), row_bytes(caps.last(), rows.last().slots_view()))
    }
}

impl InfosetTable {
    /// The rows, by action-node index.
    pub closed spec fn rows_view(&self) -> Seq<InfosetRow> {
        self.rows@
    }

    /// A table of `n_rows` empty rows.
    pub fn with_rows(n_rows: usize) -> (t: InfosetTable)
        ensures
            t.rows_view().len() == n_rows,
            forall|i: int|
                0 <= i < n_rows ==> (#[trigger] t.rows_view()[i]).slots_view().len() == 0
                    && t.rows_view()[i].spec_n_actions() == 0,
    {
        let mut rows: Vec<InfosetRow> = Vec::new();
        let mut i: usize = 0;
        while i < n_rows
            invariant
                i <= n_rows,
                rows@.len() == i,
                forall|k: int|
                    0 <= k < i ==> (#[trigger] rows@[k]).slots_view().len() == 0
                        && rows@[k].spec_n_actions() == 0,
            decreases n_rows - i,
        {
            rows.push(InfosetRow::new());
            i = i + 1;
        }
        InfosetTable { rows }
    }

    /// Number of rows.
    pub fn len(&self) -> (n: usize)
        ensures
            n == self.rows_view().len(),
    {
        self.rows.len()
    }

    /// The rows, in order.
    pub fn iter(&self) -> (r: &Vec<InfosetRow>)
        ensures
            r@ == self.rows_view(),
    {
        &self.rows
    }

    /// Row `index`.
    pub fn row(&self, index: usize) -> (r: &InfosetRow)
        requires
            index < self.rows_view().len(),
        ensures
            *r == self.rows_view()[index as int],
    {
        &self.rows[index]
    }

    /// Row `index`, for writing.
    pub fn row_mut(&mut self, index: usize) -> (r: &mut InfosetRow)
        requires
            index < old(self).rows_view().len(),
        ensures
            *r == old(self).rows_view()[index as int],
            final(self).rows_view() == old(self).rows_view().update(index as int, *final(r)),
    {
        &mut self.rows[index]
    }

    /// Bytes held by all rows, saturated at `usize::MAX`: the sum of each
    /// row's bytes for the capacity its allocator gave it.
    pub fn total_bytes(&self) -> (b: usize)
        ensures
            exists|caps: Seq<int>| #[trigger] caps_fit(caps, self.rows_view()) && b == table_bytes(
                caps,
                self.rows_view(),
            ),
    {
        let mut bytes: usize = 0;
        let mut i: usize = 0;
        let ghost mut caps: Seq<int> = Seq::empty();
        while i < self.rows.len()
            invariant
                i <= self.rows@.len(),
                caps_fit(caps, self.rows@.take(i as int)),
                bytes == table_bytes(caps, self.rows@.take(i as int)),
            decreases self.rows@.len() - i,
        {
            let rb = self.rows[i].total_bytes();
            let ghost cap = choose|cap: int|
                cap >= self.rows@[i as int].slots_view().len() && rb == #[trigger] row_bytes(
                    cap,
                    self.rows@[i as int].slots_view(),
                );
            let ghost old_caps = caps;
            proof {
                caps = caps.push(cap);
                let t = self.rows@.take(i as int + 1);
                assert(t.drop_last() =~= self.rows@.take(i as int));
                assert(caps.drop_last() =~= old_caps);
            }
            bytes = bytes.saturating_add(rb);
            i = i + 1;
        }
        assert(self.rows@.take(i as int) =~= self.rows@);
        assert(caps_fit(caps, self.rows_view()));
        bytes
    }

    /// Allocated slots over all rows, saturated at `usize::MAX`.
    pub fn allocated_count(&self) -> (n: usize)
        ensures
            n == if table_allocated(self.rows_view()) > usize::MAX {
                usize::MAX as int
            } else {
                table_allocated(self.rows_view()) as int
            },
    {
        let mut n: usize = 0;
        let mut i: usize = 0;
        while i < self.rows.len()
            invariant
                i <= self.rows@.len(),
                n == if table_allocated(self.rows@.take(i as int)) > usize::MAX {
                    usize::MAX as int
                } else {
                    table_allocated(self.rows@.take(i as int)) as int
                },
            decreases self.rows@.len() - i,
        {
            assert(self.rows@.take(i as int + 1).drop_last() =~= self.rows@.take(i as int));
            n = n.saturating_add(self.rows[i].allocated_count());
            i = i + 1;
        }
        assert(self.rows@.take(i as int) =~= self.rows@);
        n
    }
}


/// The `ensure_capacity` calls that building the table makes for the
/// subtree at `n`, in order, each as (row, cluster size, action count):
/// an action node's own call, then its children's; a chance node's first
/// child's; none for a terminal node. `sizes[r][p]` is the number of
/// buckets of player `p` in round `r`; the walk goes at most `d` levels
/// deep.
pub open spec fn capacity_calls(nodes: Seq<Node<GameTreeNode>>, sizes: Seq<Vec<usize>>, n: int, d: nat) -> Seq<
    (int, int, int),
>
    decreases d, nodes[n].kids().len() + 1,
{
    if d > 0 && 0 <= n < nodes.len() {
        match nodes[n].value() {
            GameTreeNode::Action(an) => seq![
                (
                    an.index as int,
                    sizes[an.round_idx as int]@[an.player as int] as int,
                    nodes[n].kids().len() as int,
                ),
            ] + children_calls(nodes, sizes, n, 0, d),
            GameTreeNode::Terminal(_) => Seq::empty(),
            _ => if nodes[n].kids().len() > 0 {
                capacity_calls(nodes, sizes, nodes[n].kids()[0] as int, (d - 1) as nat)
            } else {
                Seq::empty()
            },
        }
    } else {
        Seq::empty()
    }
}

/// The calls for the subtrees of the children of `n` from the `j`-th on.
pub open spec fn children_calls(nodes: Seq<Node<GameTreeNode>>, sizes: Seq<Vec<usize>>, n: int, j: int, d: nat) -> Seq<
    (int, int, int),
>
    decreases d, nodes[n].kids().len() - j,
{
    if d > 0 && 0 <= n < nodes.len() && 0 <= j < nodes[n].kids().len() {
        capacity_calls(nodes, sizes, nodes[n].kids()[j] as int, (d - 1) as nat) + children_calls(
            nodes,
            sizes,
            n,
            j + 1,
            d,
        )
    } else {
        Seq::empty()
    }
}

/// The walk from `n` stays within `d` levels, finds a row and a size for
/// every action node, and a first child under every chance node.
pub open spec fn walk_ok(nodes: Seq<Node<GameTreeNode>>, sizes: Seq<Vec<usize>>, n_rows: int, n: int, d: nat) -> bool
    decreases d, nodes[n].kids().len() + 1,
{
    &&& d > 0
    &&& 0 <= n < nodes.len()
    &&& match nodes[n].value() {
        GameTreeNode::Action(an) => {
            &&& an.index < n_rows
            &&& an.round_idx < sizes.len()
            &&& an.player < sizes[an.round_idx as int].len()
            &&& children_ok(nodes, sizes, n_rows, n, 0, d)
        },
        GameTreeNode::Terminal(_) => true,
        _ => nodes[n].kids().len() > 0 && walk_ok(
            nodes,
            sizes,
            n_rows,
            nodes[n].kids()[0] as int,
            (d - 1) as nat,
        ),
    }
}

/// The walks from the children of `n` from the `j`-th on are fine.
pub open spec fn children_ok(
    nodes: Seq<Node<GameTreeNode>>,
    sizes: Seq<Vec<usize>>,
    n_rows: int,
    n: int,
    j: int,
    d: nat,
) -> bool
    decreases d, nodes[n].kids().len() - j,
{
    d > 0 && 0 <= n < nodes.len() && 0 <= j <= nodes[n].kids().len() && (j < nodes[n].kids().len() ==> (
    walk_ok(nodes, sizes, n_rows, nodes[n].kids()[j] as int, (d - 1) as nat) && children_ok(
        nodes,
        sizes,
        n_rows,
        n,
        j + 1,
        d,
    )))
}

/// Slot count of row `i` after `calls`, from `len0`: the largest size
/// asked for the row, or `len0` if larger.
pub open spec fn grown_len(len0: int, calls: Seq<(int, int, int)>, i: int) -> int
    decreases calls.len(),
{
    if calls.len() == 0 {
        len0
    } else {
        let prev = grown_len(len0, calls.drop_last(), i);
        if calls.last().0 == i && prev < calls.last().1 {
            calls.last().1
        } else {
            prev
        }
    }
}

/// Action count of row `i` after `calls`, from `a0`: that of the last
/// call on the row.
pub open spec fn last_actions(a0: int, calls: Seq<(int, int, int)>, i: int) -> int
    decreases calls.len(),
{
    if calls.len() == 0 {
        a0
    } else if calls.last().0 == i {
        calls.last().2
    } else {
        last_actions(a0, calls.drop_last(), i)
    }
}

proof fn lemma_calls_concat(a: Seq<(int, int, int)>, b: Seq<(int, int, int)>, len0: int, a0: int, i: int)
    ensures
        grown_len(len0, a + b, i) == grown_len(grown_len(len0, a, i), b, i),
        last_actions(a0, a + b, i) == last_actions(last_actions(a0, a, i), b, i),
    decreases b.len(),
{
    if b.len() == 0 {
        assert(a + b =~= a);
    } else {
        assert((a + b).drop_last() =~= a + b.drop_last());
        lemma_calls_concat(a, b.drop_last(), len0, a0, i);
    }
}

/// Node `m` is reached from node `n` by the table-building walk within
/// `d` levels: `m` is `n`, or lies under some child of an action node,
/// or under the first child of a chance node. Terminal nodes lead
/// nowhere.
pub open spec fn reaches(nodes: Seq<Node<GameTreeNode>>, n: int, m: int, d: nat) -> bool
    decreases d, nodes[n].kids().len() + 1,
{
    if d > 0 && 0 <= n < nodes.len() {
        m == n || match nodes[n].value() {
            GameTreeNode::Action(_) => reaches_under(nodes, n, 0, m, d),
            GameTreeNode::Terminal(_) => false,
            _ => nodes[n].kids().len() > 0 && reaches(nodes, nodes[n].kids()[0] as int, m, (d - 1) as nat),
        }
    } else {
        false
    }
}

/// Node `m` lies under one of the children of `n` from the `j`-th on.
pub open spec fn reaches_under(nodes: Seq<Node<GameTreeNode>>, n: int, j: int, m: int, d: nat) -> bool
    decreases d, nodes[n].kids().len() - j,
{
    if d > 0 && 0 <= n < nodes.len() && 0 <= j < nodes[n].kids().len() {
        reaches(nodes, nodes[n].kids()[j] as int, m, (d - 1) as nat) || reaches_under(nodes, n, j + 1, m, d)
    } else {
        false
    }
}

/// For an action node `m`: its row, its player's bucket count in its
/// round, and its number of children.
pub open spec fn action_row(nodes: Seq<Node<GameTreeNode>>, sizes: Seq<Vec<usize>>, m: int) -> Option<(int, int, int)> {
    match nodes[m].value() {
        GameTreeNode::Action(an) => Some(
            (
                an.index as int,
                sizes[an.round_idx as int]@[an.player as int] as int,
                nodes[m].kids().len() as int,
            ),
        ),
        _ => None,
    }
}

proof fn lemma_reached_in_calls(
    nodes: Seq<Node<GameTreeNode>>,
    sizes: Seq<Vec<usize>>,
    n_rows: int,
    n: int,
    m: int,
    d: nat,
)
    requires
        walk_ok(nodes, sizes, n_rows, n, d),
        reaches(nodes, n, m, d),
        action_row(nodes, sizes, m) is Some,
    ensures
        capacity_calls(nodes, sizes, n, d).contains(action_row(nodes, sizes, m)->0),
    decreases d, nodes[n].kids().len() + 1,
{
    let calls = capacity_calls(nodes, sizes, n, d);
    if m == n {
        assert(calls[0] == action_row(nodes, sizes, m)->0);
    } else {
        match nodes[n].value() {
            GameTreeNode::Action(_) => {
                lemma_reached_in_children(nodes, sizes, n_rows, n, 0, m, d);
                let rest = children_calls(nodes, sizes, n, 0, d);
                let k = choose|k: int| 0 <= k < rest.len() && rest[k] == action_row(nodes, sizes, m)->0;
                assert(calls[k + 1] == rest[k]);
            },
            GameTreeNode::Terminal(_) => {},
            _ => {
                lemma_reached_in_calls(nodes, sizes, n_rows, nodes[n].kids()[0] as int, m, (d - 1) as nat);
            },
        }
    }
}

proof fn lemma_reached_in_children(
    nodes: Seq<Node<GameTreeNode>>,
    sizes: Seq<Vec<usize>>,
    n_rows: int,
    n: int,
    j: int,
    m: int,
    d: nat,
)
    requires
        children_ok(nodes, sizes, n_rows, n, j, d),
        reaches_under(nodes, n, j, m, d),
        action_row(nodes, sizes, m) is Some,
    ensures
        children_calls(nodes, sizes, n, j, d).contains(action_row(nodes, sizes, m)->0),
    decreases d, nodes[n].kids().len() - j,
{
    let a = capacity_calls(nodes, sizes, nodes[n].kids()[j] as int, (d - 1) as nat);
    let b = children_calls(nodes, sizes, n, j + 1, d);
    let x = action_row(nodes, sizes, m)->0;
    assert(children_calls(nodes, sizes, n, j, d) == a + b);
    if reaches(nodes, nodes[n].kids()[j] as int, m, (d - 1) as nat) {
        lemma_reached_in_calls(nodes, sizes, n_rows, nodes[n].kids()[j] as int, m, (d - 1) as nat);
        let k = choose|k: int| 0 <= k < a.len() && a[k] == x;
        assert((a + b)[k] == x);
    } else {
        lemma_reached_in_children(nodes, sizes, n_rows, n, j + 1, m, d);
        let k = choose|k: int| 0 <= k < b.len() && b[k] == x;
        assert((a + b)[a.len() + k] == x);
    }
}

proof fn lemma_calls_reached(
    nodes: Seq<Node<GameTreeNode>>,
    sizes: Seq<Vec<usize>>,
    n_rows: int,
    n: int,
    d: nat,
    k: int,
)
    requires
        walk_ok(nodes, sizes, n_rows, n, d),
        0 <= k < capacity_calls(nodes, sizes, n, d).len(),
    ensures
        exists|m: int|
            #[trigger] reaches(nodes, n, m, d) && action_row(nodes, sizes, m) == Some(
                capacity_calls(nodes, sizes, n, d)[k],
            ),
    decreases d, nodes[n].kids().len() + 1,
{
    let calls = capacity_calls(nodes, sizes, n, d);
    match nodes[n].value() {
        GameTreeNode::Action(_) => {
            if k == 0 {
                assert(reaches(nodes, n, n, d));
            } else {
                let rest = children_calls(nodes, sizes, n, 0, d);
                assert(calls[k] == rest[k - 1]);
                lemma_children_reached(nodes, sizes, n_rows, n, 0, d, k - 1);
                let m = choose|m: int|
                    #[trigger] reaches_under(nodes, n, 0, m, d) && action_row(nodes, sizes, m) == Some(rest[k - 1]);
                assert(reaches(nodes, n, m, d));
            }
        },
        GameTreeNode::Terminal(_) => {},
        _ => {
            let c = nodes[n].kids()[0] as int;
            lemma_calls_reached(nodes, sizes, n_rows, c, (d - 1) as nat, k);
            let m = choose|m: int|
                #[trigger] reaches(nodes, c, m, (d - 1) as nat) && action_row(nodes, sizes, m) == Some(
                    capacity_calls(nodes, sizes, c, (d - 1) as nat)[k],
                );
            assert(reaches(nodes, n, m, d));
        },
    }
}

proof fn lemma_children_reached(
    nodes: Seq<Node<GameTreeNode>>,
    sizes: Seq<Vec<usize>>,
    n_rows: int,
    n: int,
    j: int,
    d: nat,
    k: int,
)
    requires
        children_ok(nodes, sizes, n_rows, n, j, d),
        0 <= k < children_calls(nodes, sizes, n, j, d).len(),
    ensures
        exists|m: int|
            #[trigger] reaches_under(nodes, n, j, m, d) && action_row(nodes, sizes, m) == Some(
                children_calls(nodes, sizes, n, j, d)[k],
            ),
    decreases d, nodes[n].kids().len() - j,
{
    let c = nodes[n].kids()[j] as int;
    let a = capacity_calls(nodes, sizes, c, (d - 1) as nat);
    let b = children_calls(nodes, sizes, n, j + 1, d);
    assert(children_calls(nodes, sizes, n, j, d) == a + b);
    if k < a.len() {
        lemma_calls_reached(nodes, sizes, n_rows, c, (d - 1) as nat, k);
        let m = choose|m: int| #[trigger] reaches(nodes, c, m, (d - 1) as nat) && action_row(nodes, sizes, m) == Some(a[k]);
        assert((a + b)[k] == a[k]);
        assert(reaches_under(nodes, n, j, m, d));
    } else {
        lemma_children_reached(nodes, sizes, n_rows, n, j + 1, d, k - a.len());
        assert((a + b)[k] == b[k - a.len()]);
        let m = choose|m: int|
            #[trigger] reaches_under(nodes, n, j + 1, m, d) && action_row(nodes, sizes, m) == Some(b[k - a.len()]);
        assert(reaches_under(nodes, n, j, m, d));
    }
}

proof fn lemma_call_rows_in_range(nodes: Seq<Node<GameTreeNode>>, sizes: Seq<Vec<usize>>, n_rows: int, n: int, d: nat)
    requires
        walk_ok(nodes, sizes, n_rows, n, d),
    ensures
        forall|k: int|
            0 <= k < capacity_calls(nodes, sizes, n, d).len() ==> 0 <= (#[trigger] capacity_calls(
                nodes,
                sizes,
                n,
                d,
            )[k]).0 < n_rows,
    decreases d, nodes[n].kids().len() + 1,
{
    match nodes[n].value() {
        GameTreeNode::Action(an) => {
            lemma_child_rows_in_range(nodes, sizes, n_rows, n, 0, d);
            let calls = capacity_calls(nodes, sizes, n, d);
            let rest = children_calls(nodes, sizes, n, 0, d);
            assert(an.index < n_rows);
            assert(calls[0].0 == an.index);
            assert forall|k: int| 0 <= k < calls.len() implies 0 <= (#[trigger] calls[k]).0 < n_rows by {
                if k > 0 {
                    assert(calls[k] == rest[k - 1]);
                }
            }
        },
        GameTreeNode::Terminal(_) => {},
        _ => {
            let c = nodes[n].kids()[0] as int;
            lemma_call_rows_in_range(nodes, sizes, n_rows, c, (d - 1) as nat);
            assert(capacity_calls(nodes, sizes, n, d) == capacity_calls(nodes, sizes, c, (d - 1) as nat));
        },
    }
}

proof fn lemma_child_rows_in_range(
    nodes: Seq<Node<GameTreeNode>>,
    sizes: Seq<Vec<usize>>,
    n_rows: int,
    n: int,
    j: int,
    d: nat,
)
    requires
        children_ok(nodes, sizes, n_rows, n, j, d),
    ensures
        forall|k: int|
            0 <= k < children_calls(nodes, sizes, n, j, d).len() ==> 0 <= (#[trigger] children_calls(
                nodes,
                sizes,
                n,
                j,
                d,
            )[k]).0 < n_rows,
    decreases d, nodes[n].kids().len() - j,
{
    if j < nodes[n].kids().len() {
        let c = nodes[n].kids()[j] as int;
        let a = capacity_calls(nodes, sizes, c, (d - 1) as nat);
        let b = children_calls(nodes, sizes, n, j + 1, d);
        lemma_call_rows_in_range(nodes, sizes, n_rows, c, (d - 1) as nat);
        lemma_child_rows_in_range(nodes, sizes, n_rows, n, j + 1, d);
        assert(children_calls(nodes, sizes, n, j, d) == a + b);
        assert forall|k: int| 0 <= k < a.len() + b.len() implies 0 <= (#[trigger] (a + b)[k]).0 < n_rows by {
            if k < a.len() {
                assert((a + b)[k] == a[k]);
            } else {
                assert((a + b)[k] == b[k - a.len()]);
            }
        }
    }
}

proof fn lemma_grown_len(len0: int, calls: Seq<(int, int, int)>, i: int)
    ensures
        grown_len(len0, calls, i) >= len0,
        forall|k: int| 0 <= k < calls.len() && calls[k].0 == i ==> grown_len(len0, calls, i) >= #[trigger] calls[k].1,
        grown_len(len0, calls, i) == len0 || exists|k: int|
            0 <= k < calls.len() && #[trigger] calls[k].0 == i && grown_len(len0, calls, i) == calls[k].1,
        (exists|k: int| 0 <= k < calls.len() && #[trigger] calls[k].0 == i) ==> exists|k: int|
            0 <= k < calls.len() && #[trigger] calls[k].0 == i && last_actions(len0, calls, i) == calls[k].2,
        (forall|k: int| 0 <= k < calls.len() ==> #[trigger] calls[k].0 != i) ==> last_actions(len0, calls, i)
            == len0,
    decreases calls.len(),
{
    if calls.len() > 0 {
        let p = calls.drop_last();
        lemma_grown_len(len0, p, i);
        let n = calls.len() - 1;
        assert forall|k: int| 0 <= k < calls.len() && calls[k].0 == i implies grown_len(len0, calls, i)
            >= #[trigger] calls[k].1 by {
            if k < n {
                assert(p[k] == calls[k]);
            }
        }
        if grown_len(len0, calls, i) != len0 {
            if calls.last().0 == i && grown_len(len0, p, i) < calls.last().1 {
                assert(calls[n].0 == i);
            } else {
                let k = choose|k: int| 0 <= k < p.len() && #[trigger] p[k].0 == i && grown_len(len0, p, i) == p[k].1;
                assert(calls[k] == p[k]);
            }
        }
        if exists|k: int| 0 <= k < calls.len() && #[trigger] calls[k].0 == i {
            if calls.last().0 == i {
                assert(calls[n].0 == i);
            } else {
                let k0 = choose|k: int| 0 <= k < calls.len() && #[trigger] calls[k].0 == i;
                assert(k0 < n);
                assert(p[k0] == calls[k0]);
                let k = choose|k: int| 0 <= k < p.len() && #[trigger] p[k].0 == i && last_actions(len0, p, i) == p[k].2;
                assert(calls[k] == p[k]);
            }
        }
        if forall|k: int| 0 <= k < calls.len() ==> #[trigger] calls[k].0 != i {
            assert(calls[n].0 != i);
            assert forall|k: int| 0 <= k < p.len() implies #[trigger] p[k].0 != i by {
                assert(p[k] == calls[k]);
            }
        }
    }
}

/// Every action node the walk from the root reaches gets its row grown
/// to at least its player's bucket count in its round, and the row's
/// action count is the child count of a reached action node of that row
/// (its own when no other reached node shares the row). A row no reached
/// action node uses keeps no slots and no actions; a row's slot count is
/// that of a reached node of the row.
pub proof fn law_walk_sizes_every_reached_action_node(nodes: Seq<Node<GameTreeNode>>, sizes: Seq<Vec<usize>>, n_rows: int)
    requires
        walk_ok(nodes, sizes, n_rows, 0, nodes.len()),
    ensures
        ({
            let d = nodes.len();
            let calls = capacity_calls(nodes, sizes, 0, d);
            &&& forall|m: int|
                #[trigger] reaches(nodes, 0, m, d) && action_row(nodes, sizes, m) is Some ==> {
                    let x = action_row(nodes, sizes, m)->0;
                    &&& grown_len(0, calls, x.0) >= x.1
                    &&& exists|m2: int|
                        #[trigger] reaches(nodes, 0, m2, d) && action_row(nodes, sizes, m2) is Some
                            && (action_row(nodes, sizes, m2)->0).0 == x.0 && last_actions(0, calls, x.0)
                            == (action_row(nodes, sizes, m2)->0).2
                }
            &&& forall|i: int|
                #![trigger grown_len(0, calls, i)]
                grown_len(0, calls, i) == 0 || exists|m: int|
                    #[trigger] reaches(nodes, 0, m, d) && action_row(nodes, sizes, m) is Some && (action_row(
                        nodes,
                        sizes,
                        m,
                    )->0).0 == i && grown_len(0, calls, i) == (action_row(nodes, sizes, m)->0).1
            &&& forall|i: int|
                #![trigger last_actions(0, calls, i)]
                (forall|m: int|
                    #[trigger] reaches(nodes, 0, m, d) && action_row(nodes, sizes, m) is Some
                        ==> (action_row(nodes, sizes, m)->0).0 != i) ==> last_actions(0, calls, i) == 0
        }),
{
    let d = nodes.len();
    let calls = capacity_calls(nodes, sizes, 0, d);
    assert forall|m: int| #[trigger] reaches(nodes, 0, m, d) && action_row(nodes, sizes, m) is Some implies {
        let x = action_row(nodes, sizes, m)->0;
        &&& grown_len(0, calls, x.0) >= x.1
        &&& exists|m2: int|
            #[trigger] reaches(nodes, 0, m2, d) && action_row(nodes, sizes, m2) is Some && (action_row(
                nodes,
                sizes,
                m2,
            )->0).0 == x.0 && last_actions(0, calls, x.0) == (action_row(nodes, sizes, m2)->0).2
    } by {
        let x = action_row(nodes, sizes, m)->0;
        lemma_reached_in_calls(nodes, sizes, n_rows, 0, m, d);
        let k = choose|k: int| 0 <= k < calls.len() && calls[k] == x;
        lemma_grown_len(0, calls, x.0);
        assert(calls[k].0 == x.0);
        let k2 = choose|k: int| 0 <= k < calls.len() && #[trigger] calls[k].0 == x.0 && last_actions(0, calls, x.0) == calls[k].2;
        lemma_calls_reached(nodes, sizes, n_rows, 0, d, k2);
    }
    assert forall|i: int|
        grown_len(0, calls, i) == 0 || exists|m: int|
            #[trigger] reaches(nodes, 0, m, d) && action_row(nodes, sizes, m) is Some && (action_row(
                nodes,
                sizes,
                m,
            )->0).0 == i && grown_len(0, calls, i) == (action_row(nodes, sizes, m)->0).1 by {
        lemma_grown_len(0, calls, i);
        if grown_len(0, calls, i) != 0 {
            let k = choose|k: int| 0 <= k < calls.len() && #[trigger] calls[k].0 == i && grown_len(0, calls, i) == calls[k].1;
            lemma_calls_reached(nodes, sizes, n_rows, 0, d, k);
        }
    }
    assert forall|i: int|
        (forall|m: int|
            #[trigger] reaches(nodes, 0, m, d) && action_row(nodes, sizes, m) is Some ==> (action_row(
                nodes,
                sizes,
                m,
            )->0).0 != i) implies last_actions(0, calls, i) == 0 by {
        lemma_grown_len(0, calls, i);
        assert forall|k: int| 0 <= k < calls.len() implies #[trigger] calls[k].0 != i by {
            lemma_calls_reached(nodes, sizes, n_rows, 0, d, k);
        }
    }
}

/// Every slot of every row is empty.
pub open spec fn rows_empty(rows: Seq<InfosetRow>) -> bool {
    forall|i: int|
        0 <= i < rows.len() ==> (#[trigger] rows[i]).slots_view() == Seq::new(
            rows[i].slots_view().len(),
            |k: int| None::<Infoset>,
        )
}

fn create_infosets_rec(
    sizes: &Vec<Vec<usize>>,
    tree: &Tree<GameTreeNode>,
    infosets: &mut InfosetTable,
    node: NodeId,
    Ghost(d): Ghost<nat>,
)
    requires
        walk_ok(tree.nodes_view(), sizes@, old(infosets).rows_view().len() as int, node as int, d),
        rows_empty(old(infosets).rows_view()),
    ensures
        final(infosets).rows_view().len() == old(infosets).rows_view().len(),
        rows_empty(final(infosets).rows_view()),
        forall|i: int|
            0 <= i < old(infosets).rows_view().len() ==> {
                let calls = capacity_calls(tree.nodes_view(), sizes@, node as int, d);
                &&& (#[trigger] final(infosets).rows_view()[i]).slots_view().len() == grown_len(
                    old(infosets).rows_view()[i].slots_view().len() as int,
                    calls,
                    i,
                )
                &&& final(infosets).rows_view()[i].spec_n_actions() == last_actions(
                    old(infosets).rows_view()[i].spec_n_actions() as int,
                    calls,
                    i,
                )
            },
    decreases d,
{
    let ghost nodes = tree.nodes_view();
    let ghost rows0 = infosets.rows_view();
    let ghost calls = capacity_calls(nodes, sizes@, node as int, d);
    let n = tree.get_node(node);
    match n.data_ref() {
        GameTreeNode::Action(an) => {
            let size = sizes[an.round_idx as usize][an.player as usize];
            let na = n.children_ref().len();
            let ghost call = (an.index as int, size as int, na as int);
            let ghost rest = children_calls(nodes, sizes@, node as int, 0, d);
            assert(calls == seq![call] + rest);
            let row = infosets.row_mut(an.index);
            let ghost old_row = *row;
            row.ensure_capacity(size, na);
            proof {
                let r = infosets.rows_view()[an.index as int];
                assert(old_row == rows0[an.index as int]);
                assert(old_row.slots_view() == Seq::new(old_row.slots_view().len(), |k: int| None::<Infoset>));
                assert(r.slots_view() =~= Seq::new(r.slots_view().len(), |k: int| None::<Infoset>));
                assert forall|i: int| 0 <= i < rows0.len() implies {
                    &&& (#[trigger] infosets.rows_view()[i]).slots_view().len() == grown_len(
                        rows0[i].slots_view().len() as int,
                        seq![call],
                        i,
                    )
                    &&& infosets.rows_view()[i].spec_n_actions() == last_actions(
                        rows0[i].spec_n_actions() as int,
                        seq![call],
                        i,
                    )
                } by {
                    assert(seq![call].drop_last() =~= Seq::<(int, int, int)>::empty());
                    assert(seq![call].last() == call);
                    reveal_with_fuel(grown_len, 2);
                    reveal_with_fuel(last_actions, 2);
                    let l = rows0[i].slots_view().len() as int;
                    assert(grown_len(l, seq![call], i) == if call.0 == i && l < call.1 {
                        call.1
                    } else {
                        l
                    });
                    assert(last_actions(rows0[i].spec_n_actions() as int, seq![call], i) == if call.0 == i {
                        call.2
                    } else {
                        rows0[i].spec_n_actions() as int
                    });
                    if i != an.index as int {
                        assert(infosets.rows_view()[i] == rows0[i]);
                    } else {
                        assert(infosets.rows_view()[i] == r);
                        assert(r.slots_view().len() == if l < size { size as int } else { l });
                        assert(r.spec_n_actions() == na);
                    }
                }
            }
            let ghost rows1 = infosets.rows_view();
            let mut j: usize = 0;
            while j < n.children_ref().len()
                invariant
                    j <= n.kids().len(),
                    *n == nodes[node as int],
                    nodes == tree.nodes_view(),
                    n.value() == GameTreeNode::Action(*an),
                    children_ok(nodes, sizes@, rows0.len() as int, node as int, j as int, d),
                    infosets.rows_view().len() == rows0.len(),
                    rows_empty(infosets.rows_view()),
                    forall|i: int|
                        0 <= i < rows0.len() ==> {
                            &&& grown_len(
                                (#[trigger] infosets.rows_view()[i]).slots_view().len() as int,
                                children_calls(nodes, sizes@, node as int, j as int, d),
                                i,
                            ) == grown_len(rows1[i].slots_view().len() as int, rest, i)
                            &&& last_actions(
                                infosets.rows_view()[i].spec_n_actions() as int,
                                children_calls(nodes, sizes@, node as int, j as int, d),
                                i,
                            ) == last_actions(rows1[i].spec_n_actions() as int, rest, i)
                        },
                decreases n.kids().len() - j,
            {
                let child = n.children_ref()[j];
                let ghost before = infosets.rows_view();
                let ghost sub = capacity_calls(nodes, sizes@, child as int, (d - 1) as nat);
                let ghost tail = children_calls(nodes, sizes@, node as int, j + 1, d);
                assert(children_calls(nodes, sizes@, node as int, j as int, d) == sub + tail);
                create_infosets_rec(sizes, tree, infosets, child, Ghost((d - 1) as nat));
                proof {
                    assert forall|i: int| 0 <= i < rows0.len() implies {
                        &&& grown_len(
                            (#[trigger] infosets.rows_view()[i]).slots_view().len() as int,
                            tail,
                            i,
                        ) == grown_len(rows1[i].slots_view().len() as int, rest, i)
                        &&& last_actions(infosets.rows_view()[i].spec_n_actions() as int, tail, i)
                            == last_actions(rows1[i].spec_n_actions() as int, rest, i)
                    } by {
                        lemma_calls_concat(
                            sub,
                            tail,
                            before[i].slots_view().len() as int,
                            before[i].spec_n_actions() as int,
                            i,
                        );
                        assert(grown_len(
                            before[i].slots_view().len() as int,
                            children_calls(nodes, sizes@, node as int, j as int, d),
                            i,
                        ) == grown_len(rows1[i].slots_view().len() as int, rest, i));
                    }
                }
                j = j + 1;
            }
            proof {
                assert(children_calls(nodes, sizes@, node as int, j as int, d) =~= Seq::<(int, int, int)>::empty());
                assert forall|i: int| 0 <= i < rows0.len() implies {
                    &&& (#[trigger] infosets.rows_view()[i]).slots_view().len() == grown_len(
                        rows0[i].slots_view().len() as int,
                        calls,
                        i,
                    )
                    &&& infosets.rows_view()[i].spec_n_actions() == last_actions(
                        rows0[i].spec_n_actions() as int,
                        calls,
                        i,
                    )
                } by {
                    lemma_calls_concat(
                        seq![call],
                        rest,
                        rows0[i].slots_view().len() as int,
                        rows0[i].spec_n_actions() as int,
                        i,
                    );
                    assert(grown_len(
                        infosets.rows_view()[i].slots_view().len() as int,
                        children_calls(nodes, sizes@, node as int, j as int, d),
                        i,
                    ) == grown_len(rows1[i].slots_view().len() as int, rest, i));
                    assert(last_actions(
                        infosets.rows_view()[i].spec_n_actions() as int,
                        children_calls(nodes, sizes@, node as int, j as int, d),
                        i,
                    ) == last_actions(rows1[i].spec_n_actions() as int, rest, i));
                }
            }
        },
        GameTreeNode::Terminal(_) => {},
        _ => {
            create_infosets_rec(sizes, tree, infosets, n.children_ref()[0], Ghost((d - 1) as nat));
        },
    }
}

/// The rows that the calls of the walk leave hold, for every reached
/// action node, at least its bucket count and the child count of a
/// reached node of its row; rows of no reached node stay empty.
proof fn lemma_rows_from_calls(nodes: Seq<Node<GameTreeNode>>, sizes: Seq<Vec<usize>>, n_rows: int, rows: Seq<InfosetRow>)
    requires
        walk_ok(nodes, sizes, n_rows, 0, nodes.len()),
        rows.len() == n_rows,
        forall|i: int|
            0 <= i < n_rows ==> {
                let calls = capacity_calls(nodes, sizes, 0, nodes.len());
                &&& (#[trigger] rows[i]).slots_view().len() == grown_len(0, calls, i)
                &&& rows[i].spec_n_actions() == last_actions(0, calls, i)
            },
    ensures
        forall|m: int|
            #[trigger] reaches(nodes, 0, m, nodes.len()) && action_row(nodes, sizes, m) is Some ==> {
                let x = action_row(nodes, sizes, m)->0;
                &&& 0 <= x.0 < n_rows
                &&& rows[x.0].slots_view().len() >= x.1
                &&& exists|m2: int|
                    #[trigger] reaches(nodes, 0, m2, nodes.len()) && action_row(nodes, sizes, m2) is Some && (
                    action_row(nodes, sizes, m2)->0).0 == x.0 && rows[x.0].spec_n_actions() == (action_row(
                        nodes,
                        sizes,
                        m2,
                    )->0).2
            },
        forall|i: int|
            0 <= i < n_rows && (forall|m: int|
                #[trigger] reaches(nodes, 0, m, nodes.len()) && action_row(nodes, sizes, m) is Some ==> (
                action_row(nodes, sizes, m)->0).0 != i) ==> {
                &&& (#[trigger] rows[i]).slots_view().len() == 0
                &&& rows[i].spec_n_actions() == 0
            },
{
    let d = nodes.len();
    let calls = capacity_calls(nodes, sizes, 0, d);
    law_walk_sizes_every_reached_action_node(nodes, sizes, n_rows);
    lemma_call_rows_in_range(nodes, sizes, n_rows, 0, d);
    assert forall|m: int|
        #[trigger] reaches(nodes, 0, m, d) && action_row(nodes, sizes, m) is Some implies {
            let x = action_row(nodes, sizes, m)->0;
            &&& 0 <= x.0 < n_rows
            &&& rows[x.0].slots_view().len() >= x.1
            &&& exists|m2: int|
                #[trigger] reaches(nodes, 0, m2, d) && action_row(nodes, sizes, m2) is Some && (
                action_row(nodes, sizes, m2)->0).0 == x.0 && rows[x.0].spec_n_actions()
                    == (action_row(nodes, sizes, m2)->0).2
        } by {
        let x = action_row(nodes, sizes, m)->0;
        lemma_reached_in_calls(nodes, sizes, n_rows, 0, m, d);
        let k = choose|k: int| 0 <= k < calls.len() && calls[k] == x;
        assert(0 <= calls[k].0 < n_rows);
        assert(rows[x.0].slots_view().len() == grown_len(0, calls, x.0));
        assert(rows[x.0].spec_n_actions() == last_actions(0, calls, x.0));
    }
    assert forall|i: int|
        0 <= i < n_rows && (forall|m: int|
            #[trigger] reaches(nodes, 0, m, d) && action_row(nodes, sizes, m) is Some ==> (
            action_row(nodes, sizes, m)->0).0 != i) implies {
            &&& (#[trigger] rows[i]).slots_view().len() == 0
            &&& rows[i].spec_n_actions() == 0
        } by {
        assert(rows[i].slots_view().len() == grown_len(0, calls, i));
        assert(rows[i].spec_n_actions() == last_actions(0, calls, i));
        assert(grown_len(0, calls, i) == 0 || exists|m: int|
            #[trigger] reaches(nodes, 0, m, d) && action_row(nodes, sizes, m) is Some && (action_row(
                nodes,
                sizes,
                m,
            )->0).0 == i && grown_len(0, calls, i) == (action_row(nodes, sizes, m)->0).1);
    }
}

/// Builds the infoset table of a game tree: one row per action node
/// index (`n_actions` rows), and for each action node reached from the
/// root, its row grown to the number of buckets its player has in its
/// round, `cluster_sizes[round][player]`, with the node's action count.
/// A chance node's walk goes on through its first child.
pub fn create_infosets(n_actions: usize, tree: &Tree<GameTreeNode>, cluster_sizes: &Vec<Vec<usize>>) -> (t:
    InfosetTable)
    requires
        walk_ok(tree.nodes_view(), cluster_sizes@, n_actions as int, 0, tree.nodes_view().len()),
    ensures
        t.rows_view().len() == n_actions,
        forall|i: int|
            0 <= i < n_actions ==> {
                let calls = capacity_calls(tree.nodes_view(), cluster_sizes@, 0, tree.nodes_view().len());
                &&& (#[trigger] t.rows_view()[i]).slots_view() == Seq::new(
                    grown_len(0, calls, i) as nat,
                    |k: int| None::<Infoset>,
                )
                &&& t.rows_view()[i].spec_n_actions() == last_actions(0, calls, i)
            },
        forall|m: int|
            #[trigger] reaches(tree.nodes_view(), 0, m, tree.nodes_view().len()) && action_row(
                tree.nodes_view(),
                cluster_sizes@,
                m,
            ) is Some ==> {
                let x = action_row(tree.nodes_view(), cluster_sizes@, m)->0;
                &&& 0 <= x.0 < n_actions
                &&& t.rows_view()[x.0].slots_view().len() >= x.1
                &&& exists|m2: int|
                    #[trigger] reaches(tree.nodes_view(), 0, m2, tree.nodes_view().len()) && action_row(
                        tree.nodes_view(),
                        cluster_sizes@,
                        m2,
                    ) is Some && (action_row(tree.nodes_view(), cluster_sizes@, m2)->0).0 == x.0
                        && t.rows_view()[x.0].spec_n_actions() == (action_row(
                        tree.nodes_view(),
                        cluster_sizes@,
                        m2,
                    )->0).2
            },
        forall|i: int|
            0 <= i < n_actions && (forall|m: int|
                #[trigger] reaches(tree.nodes_view(), 0, m, tree.nodes_view().len()) && action_row(
                    tree.nodes_view(),
                    cluster_sizes@,
                    m,
                ) is Some ==> (action_row(tree.nodes_view(), cluster_sizes@, m)->0).0 != i) ==> {
                &&& (#[trigger] t.rows_view()[i]).slots_view().len() == 0
                &&& t.rows_view()[i].spec_n_actions() == 0
            },
{
    let mut infosets = InfosetTable::with_rows(n_actions);
    proof {
        assert forall|i: int| 0 <= i < n_actions implies (#[trigger] infosets.rows_view()[i]).slots_view()
            == Seq::new(infosets.rows_view()[i].slots_view().len(), |k: int| None::<Infoset>) by {
            assert(infosets.rows_view()[i].slots_view() =~= Seq::new(0, |k: int| None::<Infoset>));
        }
    }
    create_infosets_rec(cluster_sizes, tree, &mut infosets, 0, Ghost(tree.nodes_view().len()));
    proof {
        let calls = capacity_calls(tree.nodes_view(), cluster_sizes@, 0, tree.nodes_view().len());
        assert forall|i: int| 0 <= i < n_actions implies {
            &&& (#[trigger] infosets.rows_view()[i]).slots_view() == Seq::new(
                grown_len(0, calls, i) as nat,
                |k: int| None::<Infoset>,
            )
            &&& infosets.rows_view()[i].spec_n_actions() == last_actions(0, calls, i)
        } by {
            assert(infosets.rows_view()[i].slots_view().len() == grown_len(0, calls, i));
        }
        lemma_rows_from_calls(tree.nodes_view(), cluster_sizes@, n_actions as int, infosets.rows_view());
    }
    infosets
}

} // verus!
