//! Quantized probability tables.
//!
//! A table divides the sample space `0..=255` into consecutive intervals and
//! gives each interval an outcome. It is held as entries `(key, outcome)` with
//! strictly increasing keys; an entry covers the points above the previous key
//! up to and including its own key, and the last key of a non-empty table is
//! 255. Drawing an outcome is then a search for the first key that is not below
//! a uniformly drawn point.
//!
//! The width of an interval is the distance of its key from the key before it,
//! and from 0 for the first interval. The widths of a non-empty table add up to
//! 255; the first interval holds one point more than its width says, the point 0.
//!
//! Tables are built from weighted outcomes by [`from_aggregate`]: the outcomes
//! are put in ascending order of weight (equal weights keep the order in which
//! they were given), and each is entered under the key that its cumulative
//! weight reaches on the scale `0..=255`. When two outcomes reach the same key,
//! the later one replaces the earlier one and so takes over its interval.

use vstd::arithmetic::div_mod::lemma_div_is_ordered;
use vstd::prelude::*;

verus! {

/// The largest point of the sample space, and the last key of every non-empty table.
pub const SAMPLE_MAX: u8 = 255;

/// The weights of `items` as natural numbers.
pub open spec fn weighted<T>(items: Seq<(T, u64)>) -> Seq<(T, nat)> {
    items.map_values(|item: (T, u64)| (item.0, item.1 as nat))
}

/// The sum of all weights.
pub open spec fn mass<T>(items: Seq<(T, nat)>) -> nat
    decreases items.len(),
{
    if items.len() == 0 {
        0
    } else {
        mass(items.drop_last()) + items.last().1
    }
}

/// The position of the first item that is heavier than `weight`, or the length
/// of `items` if there is none.
pub open spec fn heavier_from<T>(items: Seq<(T, nat)>, weight: nat) -> int
    decreases items.len(),
{
    if items.len() == 0 || items[0].1 > weight {
        0
    } else {
        1 + heavier_from(items.drop_first(), weight)
    }
}

/// `sorted` with `item` put in front of the first heavier item.
pub open spec fn place<T>(sorted: Seq<(T, nat)>, item: (T, nat)) -> Seq<(T, nat)> {
    sorted.insert(heavier_from(sorted, item.1), item)
}

/// The items in ascending order of weight; items of equal weight keep their order.
pub open spec fn ascending<T>(items: Seq<(T, nat)>) -> Seq<(T, nat)>
    decreases items.len(),
{
    if items.len() == 0 {
        items
    } else {
        place(ascending(items.drop_last()), items.last())
    }
}

/// Whether the weights never decrease along `items`.
pub open spec fn is_ascending<T>(items: Seq<(T, nat)>) -> bool {
    forall|i: int, j: int| 0 <= i < j < items.len() ==> items[i].1 <= items[j].1
}

/// The key that a cumulative weight `cdf` reaches when `total` is scaled to 255.
pub open spec fn key_for(cdf: nat, total: nat) -> u8
    recommends
        0 < total,
        cdf <= total,
{
    (cdf * 255 / total) as u8
}

/// The position of the first entry whose key is not below `point`, or the
/// length of `table` if there is none.
pub open spec fn slot<T>(table: Seq<(u8, T)>, point: u8) -> int
    decreases table.len(),
{
    if table.len() == 0 || table[0].0 >= point {
        0
    } else {
        1 + slot(table.drop_first(), point)
    }
}

/// `table` with `outcome` entered under `key`: an entry that has this key
/// already is replaced, otherwise the new entry goes where the key order puts it.
pub open spec fn record<T>(table: Seq<(u8, T)>, key: u8, outcome: T) -> Seq<(u8, T)> {
    let i = slot(table, key);
    if i < table.len() && table[i].0 == key {
        table.update(i, (key, outcome))
    } else {
        table.insert(i, (key, outcome))
    }
}

/// The entries that arise when the items of `sorted` are entered one after the
/// other, each under the key of the weight accumulated up to and including it.
pub open spec fn fill<T>(sorted: Seq<(T, nat)>, total: nat) -> Seq<(u8, T)>
    decreases sorted.len(),
{
    if sorted.len() == 0 {
        Seq::empty()
    } else {
        record(fill(sorted.drop_last(), total), key_for(mass(sorted), total), sorted.last().0)
    }
}

/// The entries of the table that stands for the weighted outcomes `items`.
pub open spec fn quantize<T>(items: Seq<(T, nat)>) -> Seq<(u8, T)> {
    fill(ascending(items), mass(items))
}

/// Whether the keys strictly increase along `table`.
pub open spec fn increasing<T>(table: Seq<(u8, T)>) -> bool {
    forall|i: int, j: int| 0 <= i < j < table.len() ==> table[i].0 < table[j].0
}

/// Whether `table` is a valid sequence of entries: strictly increasing keys
/// that, unless there is no entry, end with 255.
pub open spec fn is_table<T>(table: Seq<(u8, T)>) -> bool {
    &&& increasing(table)
    &&& table.len() > 0 ==> table.last().0 == SAMPLE_MAX
}

/// The width of the interval of entry `i`: the distance of its key from the
/// previous key, or from 0 for the first entry.
pub open spec fn width<T>(table: Seq<(u8, T)>, i: int) -> int
    recommends
        0 <= i < table.len(),
{
    if i == 0 {
        table[0].0 as int
    } else {
        table[i].0 - table[i - 1].0
    }
}

/// The entries with each outcome replaced by its image under `f`.
pub open spec fn relabel<A, B>(table: Seq<(u8, A)>, f: spec_fn(A) -> B) -> Seq<(u8, B)> {
    table.map_values(|entry: (u8, A)| (entry.0, f(entry.1)))
}

/// The items with each outcome replaced by its image under `f`.
pub open spec fn rename<A, B>(items: Seq<(A, nat)>, f: spec_fn(A) -> B) -> Seq<(B, nat)> {
    items.map_values(|item: (A, nat)| (f(item.0), item.1))
}

/// The sum of the widths of the first `n` intervals.
pub open spec fn span<T>(table: Seq<(u8, T)>, n: int) -> int
    decreases n,
{
    if n <= 0 {
        0
    } else {
        span(table, n - 1) + width(table, n - 1)
    }
}

/// The key that item `m` of `sorted` is entered under: that of the weight
/// accumulated up to and including it.
pub open spec fn reached<T>(sorted: Seq<(T, nat)>, total: nat, m: int) -> u8 {
    key_for(mass(sorted.take(m + 1)), total)
}

/// A quantized probability table over outcomes of type `T`.
#[derive(Debug, PartialEq, Eq)]
pub struct QuantizedTable<T> {
    entries: Vec<(u8, T)>,
}

impl<T> View for QuantizedTable<T> {
    type V = Seq<(u8, T)>;

    /// The entries `(key, outcome)` in key order.
    closed spec fn view(&self) -> Seq<(u8, T)> {
        self.entries@
    }
}

impl<T> QuantizedTable<T> {
    /// What holds of every table: its entries are valid.
    #[verifier::type_invariant]
    pub open spec fn valid(&self) -> bool {
        is_table(self@)
    }

    /// The table without entries: no outcome can be drawn from it.
    pub fn new() -> (table: Self)
        ensures
            table@ == Seq::<(u8, T)>::empty(),
    {
        QuantizedTable { entries: Vec::new() }
    }

    /// The table that gives the whole sample space to one outcome.
    pub fn certain(outcome: T) -> (table: Self)
        ensures
            table@ == seq![(SAMPLE_MAX, outcome)],
    {
        let mut entries: Vec<(u8, T)> = Vec::new();
        entries.push((SAMPLE_MAX, outcome));
        assert(entries@ =~= seq![(SAMPLE_MAX, outcome)]);
        QuantizedTable { entries }
    }

    /// The table with the given entries, if they are valid: keys strictly
    /// increasing and, unless there is none, ending with 255.
    pub fn from_entries(entries: Vec<(u8, T)>) -> (table: Option<Self>)
        ensures
            table is Some <==> is_table(entries@),
            table matches Some(t) ==> t@ == entries@,
    {
        let n = entries.len();
        if n == 0 {
            return Some(QuantizedTable { entries });
        }
        if entries[n - 1].0 != SAMPLE_MAX {
            return None;
        }
        let mut i: usize = 1;
        while i < n
            invariant
                1 <= i <= n,
                n == entries.len(),
                forall|a: int, b: int| 0 <= a < b < i ==> entries[a].0 < entries[b].0,
            decreases n - i,
        {
            if entries[i - 1].0 >= entries[i].0 {
                return None;
            }
            assert forall|a: int, b: int| 0 <= a < b < i + 1 implies entries[a].0
                < entries[b].0 by {
                if b == i && a < i - 1 {
                    assert(entries[a].0 < entries[i - 1].0);
                }
            }
            i += 1;
        }
        Some(QuantizedTable { entries })
    }

    /// The entries `(key, outcome)` in key order.
    pub fn entries(&self) -> (entries: &Vec<(u8, T)>)
        ensures
            entries@ == self@,
            is_table(self@),
    {
        proof {
            use_type_invariant(self);
        }
        &self.entries
    }

    /// The number of entries.
    pub fn len(&self) -> (n: usize)
        ensures
            n == self@.len(),
            is_table(self@),
    {
        proof {
            use_type_invariant(self);
        }
        self.entries.len()
    }

    /// Whether nothing can be drawn from the table.
    pub fn is_empty(&self) -> (empty: bool)
        ensures
            empty == (self@.len() == 0),
            is_table(self@),
    {
        proof {
            use_type_invariant(self);
        }
        self.entries.len() == 0
    }

    /// The key of entry `i`.
    pub fn key(&self, i: usize) -> (key: u8)
        requires
            i < self@.len(),
        ensures
            key == self@[i as int].0,
    {
        self.entries[i].0
    }

    /// The outcome of entry `i`.
    pub fn outcome(&self, i: usize) -> (outcome: &T)
        requires
            i < self@.len(),
        ensures
            *outcome == self@[i as int].1,
    {
        &self.entries[i].1
    }

    /// The width of the interval of entry `i`.
    pub fn width(&self, i: usize) -> (w: u8)
        requires
            i < self@.len(),
        ensures
            w == width(self@, i as int),
    {
        proof {
            use_type_invariant(self);
        }
        if i == 0 {
            self.entries[0].0
        } else {
            self.entries[i].0 - self.entries[i - 1].0
        }
    }

    /// The widths of all intervals, in key order.
    pub fn widths(&self) -> (all: Vec<u8>)
        ensures
            all@.len() == self@.len(),
            forall|i: int| 0 <= i < all@.len() ==> all@[i] == width(self@, i),
    {
        let mut all: Vec<u8> = Vec::new();
        let n = self.entries.len();
        let mut i: usize = 0;
        while i < n
            invariant
                i <= n,
                n == self@.len(),
                all@.len() == i,
                forall|j: int| 0 <= j < i ==> all@[j] == width(self@, j),
            decreases n - i,
        {
            all.push(self.width(i));
            i += 1;
        }
        all
    }

    /// The outcome whose interval holds `point`: that of the first entry whose
    /// key is not below `point`.
    pub fn lookup(&self, point: u8) -> (outcome: &T)
        requires
            self@.len() > 0,
        ensures
            *outcome == self@[slot(self@, point)].1,
            0 <= slot(self@, point) < self@.len(),
    {
        proof {
            use_type_invariant(self);
        }
        let mut lo: usize = 0;
        let mut hi: usize = self.entries.len() - 1;
        while lo < hi
            invariant
                lo <= hi < self.entries.len(),
                increasing(self.entries@),
                forall|i: int| 0 <= i < lo ==> self.entries[i].0 < point,
                self.entries[hi as int].0 >= point,
            decreases hi - lo,
        {
            let mid = lo + (hi - lo) / 2;
            if self.entries[mid].0 >= point {
                hi = mid;
            } else {
                proof {
                    assert forall|i: int| 0 <= i < mid + 1 implies self.entries[i].0 < point by {
                        if i < mid {
                            assert(self.entries[i].0 < self.entries[mid as int].0);
                        }
                    }
                }
                lo = mid + 1;
            }
        }
        proof {
            lemma_slot(self.entries@, point, lo as int);
        }
        &self.entries[lo].1
    }
}

/// The sum of the counts.
fn total_count<T>(items: &Vec<(T, u64)>) -> (total: u64)
    requires
        mass(weighted(items@)) <= u64::MAX,
    ensures
        total == mass(weighted(items@)),
{
    let ghost all = weighted(items@);
    let mut total: u64 = 0;
    let mut i: usize = 0;
    while i < items.len()
        invariant
            i <= items.len(),
            all == weighted(items@),
            mass(all) <= u64::MAX,
            total == mass(all.take(i as int)),
        decreases items.len() - i,
    {
        proof {
            lemma_mass_take(all, i as int);
            lemma_mass_take(all, i as int + 1);
        }
        total += items[i].1;
        i += 1;
    }
    proof {
        assert(all.take(i as int) =~= all);
    }
    total
}

/// Puts the items in ascending order of count; items of equal count keep
/// their order.
fn sort_by_count<T>(items: Vec<(T, u64)>) -> (sorted: Vec<(T, u64)>)
    ensures
        weighted(sorted@) == ascending(weighted(items@)),
{
    let ghost all = weighted(items@);
    let mut sorted: Vec<(T, u64)> = Vec::new();
    for item in it: items.into_iter()
        invariant
            it.seq() == items@,
            all == weighted(items@),
            weighted(sorted@) == ascending(all.take(it.index() as int)),
    {
        let ghost done = it.index() as int;
        let mut k: usize = 0;
        while k < sorted.len() && sorted[k].1 <= item.1
            invariant
                k <= sorted.len(),
                forall|i: int| 0 <= i < k ==> sorted[i].1 <= item.1,
            decreases sorted.len() - k,
        {
            k += 1;
        }
        proof {
            let before = weighted(sorted@);
            let lifted = (item.0, item.1 as nat);
            lemma_heavier_from(before, lifted.1, k as int);
            assert(all.take(done + 1).drop_last() =~= all.take(done));
            assert(all.take(done + 1).last() == lifted);
            assert(weighted(sorted@.insert(k as int, item)) =~= before.insert(k as int, lifted));
        }
        sorted.insert(k, item);
    }
    proof {
        assert(all.take(items@.len() as int) =~= all);
    }
    sorted
}

/// Builds the table for outcomes with their counts.
///
/// The outcomes are ordered by ascending count, outcomes of equal count in
/// the order given. Each is entered under the key `cdf * 255 / total`, rounded
/// down, where `cdf` is the sum of the counts up to and including its own and
/// `total` the sum of all counts. An outcome that reaches the key of the one
/// before it replaces that one. No outcomes give the empty table.
///
/// The counts must add up to more than zero, unless there are none, and their
/// sum must fit in a `u64`.
pub fn from_aggregate<T>(transitions: Vec<(T, u64)>) -> (table: QuantizedTable<T>)
    requires
        mass(weighted(transitions@)) <= u64::MAX,
        transitions@.len() > 0 ==> mass(weighted(transitions@)) > 0,
    ensures
        table@ == quantize(weighted(transitions@)),
        is_table(table@),
        table@.len() > 0 <==> transitions@.len() > 0,
{
    let ghost given = weighted(transitions@);
    proof {
        lemma_quantize_is_table(given);
    }
    if transitions.len() == 0 {
        return QuantizedTable::new();
    }
    let total = total_count(&transitions);
    let sorted = sort_by_count(transitions);
    let ghost order = weighted(sorted@);
    proof {
        lemma_ascending(given);
    }
    let mut entries: Vec<(u8, T)> = Vec::new();
    let mut cdf: u64 = 0;
    for item in it: sorted.into_iter()
        invariant
            it.seq() == sorted@,
            order == weighted(sorted@),
            mass(order) == total,
            0 < total,
            cdf == mass(order.take(it.index() as int)),
            entries@ == fill(order.take(it.index() as int), total as nat),
    {
        let ghost done = it.index() as int;
        let ghost before = order.take(done);
        let ghost now = order.take(done + 1);
        proof {
            lemma_mass_take(order, done);
            lemma_mass_take(order, done + 1);
            assert(now.drop_last() =~= before);
            assert(now.last() == (item.0, item.1 as nat));
            lemma_fill(before, total as nat);
            lemma_key_for(mass(before), mass(now), total as nat);
            lemma_key_for(mass(now), mass(now), total as nat);
            lemma_record_at_end(entries@, key_for(mass(now), total as nat), item.0);
        }
        cdf += item.1;
        let key = ((cdf as u128 * 255) / (total as u128)) as u8;
        let n = entries.len();
        if n > 0 && entries[n - 1].0 == key {
            entries[n - 1].1 = item.0;
            proof {
                assert(entries@ =~= fill(before, total as nat).drop_last().push((key, item.0)));
            }
        } else {
            entries.push((key, item.0));
        }
    }
    proof {
        assert(order.take(sorted@.len() as int) =~= order);
    }
    QuantizedTable { entries }
}

/// `heavier_from` is the one position that has only items up to `weight`
/// before it and a heavier item, or the end, at it.
pub proof fn lemma_heavier_from<T>(items: Seq<(T, nat)>, weight: nat, k: int)
    requires
        0 <= k <= items.len(),
        forall|i: int| 0 <= i < k ==> items[i].1 <= weight,
        k < items.len() ==> items[k].1 > weight,
    ensures
        heavier_from(items, weight) == k,
    decreases items.len(),
{
    if k > 0 {
        let rest = items.drop_first();
        assert forall|i: int| 0 <= i < k - 1 implies rest[i].1 <= weight by {
            assert(rest[i] == items[i + 1]);
        }
        lemma_heavier_from(rest, weight, k - 1);
    }
}

/// Where `heavier_from` points: everything before is at most `weight`, and
/// what stands there, if anything, is heavier.
pub proof fn lemma_heavier_from_bounds<T>(items: Seq<(T, nat)>, weight: nat)
    ensures
        0 <= heavier_from(items, weight) <= items.len(),
        forall|i: int| 0 <= i < heavier_from(items, weight) ==> items[i].1 <= weight,
        heavier_from(items, weight) < items.len() ==> items[heavier_from(items, weight)].1
            > weight,
    decreases items.len(),
{
    if !(items.len() == 0 || items[0].1 > weight) {
        let rest = items.drop_first();
        lemma_heavier_from_bounds(rest, weight);
        let k = heavier_from(rest, weight);
        assert forall|i: int| 0 <= i < k + 1 implies items[i].1 <= weight by {
            if i > 0 {
                assert(rest[i - 1] == items[i]);
            }
        }
        if k + 1 < items.len() {
            assert(rest[k] == items[k + 1]);
        }
    }
}

/// `slot` is the one position that has only smaller keys before it and a key
/// that is not below `point`, or the end, at it.
pub proof fn lemma_slot<T>(table: Seq<(u8, T)>, point: u8, k: int)
    requires
        0 <= k <= table.len(),
        forall|i: int| 0 <= i < k ==> table[i].0 < point,
        k < table.len() ==> table[k].0 >= point,
    ensures
        slot(table, point) == k,
    decreases table.len(),
{
    if k > 0 {
        let rest = table.drop_first();
        assert forall|i: int| 0 <= i < k - 1 implies rest[i].0 < point by {
            assert(rest[i] == table[i + 1]);
        }
        lemma_slot(rest, point, k - 1);
    }
}

/// Where `slot` points: every key before is below `point`, and the key there,
/// if any, is not.
pub proof fn lemma_slot_bounds<T>(table: Seq<(u8, T)>, point: u8)
    ensures
        0 <= slot(table, point) <= table.len(),
        forall|i: int| 0 <= i < slot(table, point) ==> table[i].0 < point,
        slot(table, point) < table.len() ==> table[slot(table, point)].0 >= point,
    decreases table.len(),
{
    if !(table.len() == 0 || table[0].0 >= point) {
        let rest = table.drop_first();
        lemma_slot_bounds(rest, point);
        let k = slot(rest, point);
        assert forall|i: int| 0 <= i < k + 1 implies table[i].0 < point by {
            if i > 0 {
                assert(rest[i - 1] == table[i]);
            }
        }
        if k + 1 < table.len() {
            assert(rest[k] == table[k + 1]);
        }
    }
}

/// Inserting an item adds its weight to the mass.
pub proof fn lemma_mass_insert<T>(items: Seq<(T, nat)>, k: int, item: (T, nat))
    requires
        0 <= k <= items.len(),
    ensures
        mass(items.insert(k, item)) == mass(items) + item.1,
    decreases items.len(),
{
    let longer = items.insert(k, item);
    if k == items.len() {
        assert(longer.drop_last() =~= items);
    } else {
        assert(longer.drop_last() =~= items.drop_last().insert(k, item));
        lemma_mass_insert(items.drop_last(), k, item);
    }
}

/// The mass of a prefix grows with the prefix, by the weight of each item taken in.
pub proof fn lemma_mass_take<T>(items: Seq<(T, nat)>, n: int)
    requires
        0 <= n <= items.len(),
    ensures
        mass(items.take(n)) <= mass(items),
        n < items.len() ==> mass(items.take(n + 1)) == mass(items.take(n)) + items[n].1,
    decreases items.len() - n,
{
    if n < items.len() {
        assert(items.take(n + 1).drop_last() =~= items.take(n));
        lemma_mass_take(items, n + 1);
    } else {
        assert(items.take(n) =~= items);
    }
}

/// Ordering keeps every item: the result is a rearrangement of `items`, of
/// the same mass, in which the weights never decrease.
pub proof fn lemma_ascending<T>(items: Seq<(T, nat)>)
    ensures
        ascending(items).len() == items.len(),
        ascending(items).to_multiset() == items.to_multiset(),
        mass(ascending(items)) == mass(items),
        is_ascending(ascending(items)),
    decreases items.len(),
{
    broadcast use vstd::seq_lib::group_to_multiset_ensures;

    if items.len() > 0 {
        let front = items.drop_last();
        let item = items.last();
        lemma_ascending(front);
        let sorted = ascending(front);
        lemma_heavier_from_bounds(sorted, item.1);
        lemma_mass_insert(sorted, heavier_from(sorted, item.1), item);
        assert(front.push(item) =~= items);
        let k = heavier_from(sorted, item.1);
        let placed = sorted.insert(k, item);
        assert forall|i: int, j: int| 0 <= i < j < placed.len() implies placed[i].1
            <= placed[j].1 by {
            if i < k && j > k {
                assert(placed[i] == sorted[i]);
                assert(placed[j] == sorted[j - 1]);
            } else if i > k {
                assert(placed[i] == sorted[i - 1]);
                assert(placed[j] == sorted[j - 1]);
            }
        }
    }
}

/// Items of equal weight stay in the order in which they were given: of two
/// such items the one given first also comes first after ordering.
pub proof fn lemma_ascending_stable<T>(items: Seq<(T, nat)>) -> (origin: Seq<int>)
    ensures
        origin.len() == items.len(),
        forall|i: int|
            0 <= i < items.len() ==> 0 <= #[trigger] origin[i] < items.len() && ascending(
                items,
            )[i] == items[origin[i]],
        forall|i: int, j: int|
            0 <= i < j < items.len() ==> #[trigger] origin[i] != #[trigger] origin[j],
        forall|i: int, j: int|
            0 <= i < j < items.len() && ascending(items)[i].1 == ascending(items)[j].1
                ==> #[trigger] origin[i] < #[trigger] origin[j],
    decreases items.len(),
{
    if items.len() == 0 {
        Seq::empty()
    } else {
        let front = items.drop_last();
        let item = items.last();
        let before = lemma_ascending_stable(front);
        lemma_ascending(front);
        let sorted = ascending(front);
        lemma_heavier_from_bounds(sorted, item.1);
        let k = heavier_from(sorted, item.1);
        let origin = before.insert(k, items.len() - 1);
        let placed = ascending(items);
        assert forall|i: int| 0 <= i < items.len() implies 0 <= #[trigger] origin[i] < items.len()
            && placed[i] == items[origin[i]] by {
            if i < k {
                assert(placed[i] == sorted[i]);
                assert(origin[i] == before[i]);
                assert(front[before[i]] == items[before[i]]);
            } else if i > k {
                assert(placed[i] == sorted[i - 1]);
                assert(origin[i] == before[i - 1]);
                assert(front[before[i - 1]] == items[before[i - 1]]);
            }
        }
        assert forall|i: int, j: int| 0 <= i < j < items.len() implies #[trigger] origin[i]
            != #[trigger] origin[j] by {
            if i != k {
                assert(origin[i] == before[if i < k { i } else { i - 1 }]);
            }
            if j != k {
                assert(origin[j] == before[if j < k { j } else { j - 1 }]);
            }
        }
        assert forall|i: int, j: int|
            0 <= i < j < items.len() && placed[i].1 == placed[j].1 implies #[trigger] origin[i]
            < #[trigger] origin[j] by {
            if i != k {
                assert(origin[i] == before[if i < k { i } else { i - 1 }]);
                assert(placed[i] == sorted[if i < k { i } else { i - 1 }]);
            }
            if j != k {
                assert(origin[j] == before[if j < k { j } else { j - 1 }]);
                assert(placed[j] == sorted[if j < k { j } else { j - 1 }]);
            }
        }
        origin
    }
}

/// Keys grow with the cumulative weight, and the whole weight reaches 255.
pub proof fn lemma_key_for(cdf: nat, more: nat, total: nat)
    requires
        cdf <= more <= total,
        0 < total,
    ensures
        key_for(cdf, total) <= key_for(more, total),
        key_for(cdf, total) as int == cdf * 255 / total,
        key_for(total, total) == SAMPLE_MAX,
{
    assert(cdf * 255 <= more * 255 <= total * 255) by (nonlinear_arith)
        requires
            cdf <= more <= total,
    ;
    lemma_div_is_ordered(cdf as int * 255, more as int * 255, total as int);
    lemma_div_is_ordered(more as int * 255, total as int * 255, total as int);
    assert(total as int * 255 / total as int == 255) by (nonlinear_arith)
        requires
            total > 0,
    ;
    assert(0 <= cdf as int * 255 / total as int) by (nonlinear_arith)
        requires
            total > 0,
    ;
}

/// Entering a key that is not below any key of the table replaces the last
/// entry if the key is the same and appends a new entry otherwise.
pub proof fn lemma_record_at_end<T>(table: Seq<(u8, T)>, key: u8, outcome: T)
    requires
        increasing(table),
        table.len() > 0 ==> table.last().0 <= key,
    ensures
        table.len() > 0 && table.last().0 == key ==> record(table, key, outcome)
            == table.drop_last().push((key, outcome)),
        !(table.len() > 0 && table.last().0 == key) ==> record(table, key, outcome) == table.push(
            (key, outcome),
        ),
        increasing(record(table, key, outcome)),
        record(table, key, outcome).last() == (key, outcome),
{
    if table.len() > 0 && table.last().0 == key {
        lemma_slot(table, key, table.len() - 1);
        assert(table.update(table.len() - 1, (key, outcome)) =~= table.drop_last().push(
            (key, outcome),
        ));
    } else {
        lemma_slot(table, key, table.len() as int);
        assert(table.insert(table.len() as int, (key, outcome)) =~= table.push((key, outcome)));
    }
}

/// What filling gives: strictly increasing keys, an entry whenever there is an
/// item, and the last item under the key of the accumulated weight.
pub proof fn lemma_fill<T>(sorted: Seq<(T, nat)>, total: nat)
    requires
        mass(sorted) <= total,
        0 < total,
    ensures
        increasing(fill(sorted, total)),
        fill(sorted, total).len() <= sorted.len(),
        sorted.len() > 0 ==> fill(sorted, total).len() > 0 && fill(sorted, total).last() == (
            key_for(mass(sorted), total),
            sorted.last().0,
        ),
    decreases sorted.len(),
{
    if sorted.len() > 0 {
        let front = sorted.drop_last();
        lemma_fill(front, total);
        if front.len() > 0 {
            lemma_key_for(mass(front), mass(sorted), total);
        }
        lemma_record_at_end(
            fill(front, total),
            key_for(mass(sorted), total),
            sorted.last().0,
        );
    }
}

/// The entries for weighted outcomes form a table, which is empty only if
/// there are no outcomes.
pub proof fn lemma_quantize_is_table<T>(items: Seq<(T, nat)>)
    requires
        items.len() > 0 ==> mass(items) > 0,
    ensures
        is_table(quantize(items)),
        quantize(items).len() <= items.len(),
        quantize(items).len() > 0 <==> items.len() > 0,
{
    lemma_ascending(items);
    if items.len() > 0 {
        lemma_fill(ascending(items), mass(items));
        lemma_key_for(mass(items), mass(items), mass(items));
    }
}

/// Renaming the outcomes changes neither the mass nor where a weight is placed.
pub proof fn lemma_rename_weights<A, B>(items: Seq<(A, nat)>, f: spec_fn(A) -> B, weight: nat)
    ensures
        mass(rename(items, f)) == mass(items),
        heavier_from(rename(items, f), weight) == heavier_from(items, weight),
    decreases items.len(),
{
    if items.len() > 0 {
        assert(rename(items, f).drop_last() =~= rename(items.drop_last(), f));
        assert(rename(items, f).drop_first() =~= rename(items.drop_first(), f));
        lemma_rename_weights(items.drop_last(), f, weight);
        lemma_rename_weights(items.drop_first(), f, weight);
    }
}

/// Ordering renamed items is renaming the ordered items.
pub proof fn lemma_rename_ascending<A, B>(items: Seq<(A, nat)>, f: spec_fn(A) -> B)
    ensures
        ascending(rename(items, f)) == rename(ascending(items), f),
    decreases items.len(),
{
    if items.len() == 0 {
        assert(rename(items, f) =~= rename(ascending(items), f));
    } else {
        let front = items.drop_last();
        let item = items.last();
        assert(rename(items, f).drop_last() =~= rename(front, f));
        lemma_rename_ascending(front, f);
        lemma_ascending(front);
        let sorted = ascending(front);
        lemma_rename_weights(sorted, f, item.1);
        lemma_heavier_from_bounds(sorted, item.1);
        let k = heavier_from(sorted, item.1);
        assert(rename(sorted, f).insert(k, (f(item.0), item.1)) =~= rename(
            sorted.insert(k, item),
            f,
        ));
    }
}

/// Relabelling the outcomes of a table moves no key.
pub proof fn lemma_relabel_slot<A, B>(table: Seq<(u8, A)>, f: spec_fn(A) -> B, point: u8)
    ensures
        slot(relabel(table, f), point) == slot(table, point),
    decreases table.len(),
{
    if table.len() > 0 {
        assert(relabel(table, f).drop_first() =~= relabel(table.drop_first(), f));
        lemma_relabel_slot(table.drop_first(), f, point);
    }
}

/// Filling from renamed items is relabelling what the items fill.
pub proof fn lemma_rename_fill<A, B>(sorted: Seq<(A, nat)>, total: nat, f: spec_fn(A) -> B)
    ensures
        fill(rename(sorted, f), total) == relabel(fill(sorted, total), f),
    decreases sorted.len(),
{
    if sorted.len() == 0 {
        assert(fill(rename(sorted, f), total) =~= relabel(fill(sorted, total), f));
    } else {
        let front = sorted.drop_last();
        assert(rename(sorted, f).drop_last() =~= rename(front, f));
        lemma_rename_fill(front, total, f);
        lemma_rename_weights(sorted, f, 0);
        let table = fill(front, total);
        let key = key_for(mass(sorted), total);
        let outcome = sorted.last().0;
        lemma_relabel_slot(table, f, key);
        lemma_slot_bounds(table, key);
        let i = slot(table, key);
        if i < table.len() && table[i].0 == key {
            assert(relabel(table, f).update(i, (key, f(outcome))) =~= relabel(
                table.update(i, (key, outcome)),
                f,
            ));
        } else {
            assert(relabel(table, f).insert(i, (key, f(outcome))) =~= relabel(
                table.insert(i, (key, outcome)),
                f,
            ));
        }
    }
}

/// The table of renamed outcomes is the table of the outcomes, relabelled:
/// which outcome gets which interval depends on the weights and the order alone.
pub proof fn lemma_rename_quantize<A, B>(items: Seq<(A, nat)>, f: spec_fn(A) -> B)
    ensures
        quantize(rename(items, f)) == relabel(quantize(items), f),
{
    lemma_rename_weights(items, f, 0);
    lemma_rename_ascending(items, f);
    lemma_rename_fill(ascending(items), mass(items), f);
}

/// The first `n` intervals reach from 0 to the key of the last of them; the
/// intervals of a non-empty table together have width 255.
pub proof fn lemma_span<T>(table: Seq<(u8, T)>, n: int)
    requires
        increasing(table),
        0 <= n <= table.len(),
    ensures
        n > 0 ==> span(table, n) == table[n - 1].0,
        n == 0 ==> span(table, n) == 0,
        forall|i: int| 0 <= i < table.len() ==> 0 <= #[trigger] width(table, i) <= 255,
    decreases n,
{
    if n > 0 {
        lemma_span(table, n - 1);
    }
    assert forall|i: int| 0 <= i < table.len() implies 0 <= #[trigger] width(table, i) <= 255 by {
        if i > 0 {
            assert(table[i - 1].0 < table[i].0);
        }
    }
}

/// A point draws entry `i` exactly if it lies above the previous key, if
/// there is one, and not above the key of the entry.
pub proof fn lemma_slot_interval<T>(table: Seq<(u8, T)>, point: u8, i: int)
    requires
        increasing(table),
        0 <= i < table.len(),
    ensures
        slot(table, point) == i <==> (i == 0 || table[i - 1].0 < point) && point <= table[i].0,
{
    lemma_slot_bounds(table, point);
    if (i == 0 || table[i - 1].0 < point) && point <= table[i].0 {
        assert forall|j: int| 0 <= j < i implies table[j].0 < point by {
            if j < i - 1 {
                assert(table[j].0 < table[i - 1].0);
            }
        }
        lemma_slot(table, point, i);
    } else {
        let k = slot(table, point);
        if k == i {
            if i > 0 {
                assert(table[i - 1].0 < point);
            }
        }
    }
}

/// A key is the cumulative weight on the scale of 255, rounded down: it is
/// off by less than one point of the sample space.
pub proof fn lemma_key_accuracy(cdf: nat, total: nat)
    requires
        cdf <= total,
        0 < total,
    ensures
        key_for(cdf, total) * total <= cdf * 255 < (key_for(cdf, total) + 1) * total,
{
    lemma_key_for(cdf, total, total);
    let x = cdf as int * 255;
    let d = total as int;
    vstd::arithmetic::div_mod::lemma_fundamental_div_mod(x, d);
    vstd::arithmetic::div_mod::lemma_mod_bound(x, d);
    assert((x / d + 1) * d == d * (x / d) + d) by (nonlinear_arith);
    assert((x / d) * d == d * (x / d)) by (nonlinear_arith);
}

/// Which entry each item ends up in.
///
/// The result gives, for each item of `sorted`, the position of the entry
/// with its key. Items that reach the same key share an entry, and such items
/// stand next to each other; the entry holds the outcome of the last of them.
/// Every entry is the entry of some item, so the table has one entry for each
/// key that is reached and no other.
pub proof fn lemma_fill_entries<T>(sorted: Seq<(T, nat)>, total: nat) -> (at: Seq<int>)
    requires
        mass(sorted) <= total,
        0 < total,
    ensures
        at.len() == sorted.len(),
        forall|m: int|
            0 <= m < sorted.len() ==> 0 <= #[trigger] at[m] < fill(sorted, total).len() && fill(
                sorted,
                total,
            )[at[m]].0 == reached(sorted, total, m),
        forall|m: int, n: int|
            0 <= m && n == m + 1 && n < sorted.len() ==> #[trigger] at[m] <= #[trigger] at[n]
                <= at[m] + 1,
        forall|m: int, n: int|
            0 <= m && n == m + 1 && n < sorted.len() && #[trigger] at[m] != #[trigger] at[n]
                ==> fill(sorted, total)[at[m]].1 == sorted[m].0,
        sorted.len() > 0 ==> at[0] == 0 && at[sorted.len() - 1] == fill(sorted, total).len() - 1
            && fill(sorted, total).last().1 == sorted.last().0,
    decreases sorted.len(),
{
    if sorted.len() == 0 {
        Seq::empty()
    } else {
        let len = sorted.len() as int;
        let front = sorted.drop_last();
        let before = lemma_fill_entries(front, total);
        let old_table = fill(front, total);
        let table = fill(sorted, total);
        let key = key_for(mass(sorted), total);
        assert(sorted.take(len) =~= sorted);
        assert(reached(sorted, total, len - 1) == key);
        lemma_fill(front, total);
        if front.len() > 0 {
            lemma_key_for(mass(front), mass(sorted), total);
        }
        lemma_record_at_end(old_table, key, sorted.last().0);
        assert forall|m: int| 0 <= m < len - 1 implies reached(front, total, m) == reached(
            sorted,
            total,
            m,
        ) by {
            assert(front.take(m + 1) =~= sorted.take(m + 1));
        }
        let merged = old_table.len() > 0 && old_table.last().0 == key;
        let place = if merged {
            old_table.len() - 1
        } else {
            old_table.len() as int
        };
        let at = before.push(place);
        assert forall|m: int| 0 <= m < len implies 0 <= #[trigger] at[m] < table.len()
            && table[at[m]].0 == reached(sorted, total, m) by {
            if m < len - 1 {
                assert(at[m] == before[m]);
                assert(old_table[before[m]].0 == reached(front, total, m));
            }
        }
        assert forall|m: int, n: int| 0 <= m && n == m + 1 && n < len implies #[trigger] at[m]
            <= #[trigger] at[n] <= at[m] + 1 by {
            assert(at[m] == before[m]);
            if n < len - 1 {
                assert(at[n] == before[n]);
            }
        }
        assert forall|m: int, n: int|
            0 <= m && n == m + 1 && n < len && #[trigger] at[m] != #[trigger] at[n] implies table[at[m]].1
            == sorted[m].0 by {
            assert(at[m] == before[m]);
            assert(front[m] == sorted[m]);
            if n < len - 1 {
                assert(at[n] == before[n]);
            }
        }
        if len > 1 {
            assert(at[0] == before[0]);
        }
        at
    }
}

/// Changing one weight changes the mass by the difference.
pub proof fn lemma_mass_update<K>(items: Seq<(K, nat)>, i: int, item: (K, nat))
    requires
        0 <= i < items.len(),
    ensures
        mass(items.update(i, item)) + items[i].1 == mass(items) + item.1,
    decreases items.len(),
{
    let changed = items.update(i, item);
    if i == items.len() - 1 {
        assert(changed.drop_last() =~= items.drop_last());
    } else {
        assert(changed.drop_last() =~= items.drop_last().update(i, item));
        lemma_mass_update(items.drop_last(), i, item);
    }
}

/// The mass of two lists together is the sum of their masses.
pub proof fn lemma_mass_add<K>(left: Seq<(K, nat)>, right: Seq<(K, nat)>)
    ensures
        mass(left + right) == mass(left) + mass(right),
    decreases right.len(),
{
    if right.len() == 0 {
        assert(left + right =~= left);
    } else {
        assert((left + right).drop_last() =~= left + right.drop_last());
        lemma_mass_add(left, right.drop_last());
    }
}

/// Relabelling keeps the keys, so a table stays a table.
pub proof fn lemma_relabel_is_table<A, B>(table: Seq<(u8, A)>, f: spec_fn(A) -> B)
    ensures
        is_table(relabel(table, f)) <==> is_table(table),
        relabel(table, f).len() == table.len(),
{
    if is_table(table) {
        assert(is_table(relabel(table, f)));
    }
    if is_table(relabel(table, f)) {
        assert forall|i: int, j: int| 0 <= i < j < table.len() implies table[i].0
            < table[j].0 by {
            assert(relabel(table, f)[i].0 < relabel(table, f)[j].0);
        }
        if table.len() > 0 {
            assert(relabel(table, f).last().0 == table.last().0);
        }
    }
}

/// The share of an outcome that has a key of its own.
///
/// An item that stands between items of other keys has an entry to itself:
/// the result is its position. The width of that entry is the distance to the
/// key before, and it is the weight of the item on the scale of 255, off by
/// less than one point. So such an outcome is drawn as often as its weight
/// says, up to the coarseness of the sample space.
pub proof fn lemma_share<T>(sorted: Seq<(T, nat)>, total: nat, m: int) -> (e: int)
    requires
        mass(sorted) <= total,
        0 < total,
        0 < m < sorted.len(),
        reached(sorted, total, m - 1) < reached(sorted, total, m),
        m < sorted.len() - 1 ==> reached(sorted, total, m) < reached(sorted, total, m + 1),
    ensures
        0 < e < fill(sorted, total).len(),
        fill(sorted, total)[e] == (reached(sorted, total, m), sorted[m].0),
        width(fill(sorted, total), e) == reached(sorted, total, m) - reached(sorted, total, m - 1),
        sorted[m].1 * 255 - total < width(fill(sorted, total), e) * total < sorted[m].1 * 255
            + total,
{
    let table = fill(sorted, total);
    let at = lemma_fill_entries(sorted, total);
    let e = at[m];
    let d = at[m - 1];
    assert(table[d].0 == reached(sorted, total, m - 1));
    assert(d <= e <= d + 1);
    if m < sorted.len() - 1 {
        let f = at[m + 1];
        assert(table[f].0 == reached(sorted, total, m + 1));
        assert(e != f);
    }
    lemma_share_width(sorted, total, m);
    e
}

/// The distance between the keys of two items that follow each other is the
/// weight of the second on the scale of 255, off by less than one point.
pub proof fn lemma_share_width<T>(sorted: Seq<(T, nat)>, total: nat, m: int)
    requires
        mass(sorted) <= total,
        0 < total,
        0 < m < sorted.len(),
    ensures
        sorted[m].1 * 255 - total < (reached(sorted, total, m) - reached(sorted, total, m - 1))
            * total < sorted[m].1 * 255 + total,
{
    let before = mass(sorted.take(m));
    let upto = mass(sorted.take(m + 1));
    lemma_mass_take(sorted, m);
    lemma_mass_take(sorted, m + 1);
    lemma_key_accuracy(before, total);
    lemma_key_accuracy(upto, total);
    let low = reached(sorted, total, m - 1) as int;
    let high = reached(sorted, total, m) as int;
    let weight = sorted[m].1 as int;
    assert(weight * 255 - total < (high - low) * total < weight * 255 + total) by (nonlinear_arith)
        requires
            low * total <= before * 255 < (low + 1) * total,
            high * total <= upto * 255 < (high + 1) * total,
            upto == before + weight,
    ;
}

} // verus!
