//! The keyed cuckoo table: two PRF-derived bucket choices per item, bucketed
//! slots, and bounded random-eviction chains.
//!
//! Every operation is pinned to a mathematical model (`TableModel`), and
//! `insert` is proved equal to a deterministic model function of the old
//! state and the item — the ground for replica convergence.

use vstd::prelude::*;

use crate::bytes::be_bytes_of;
use crate::bytes::be_val;
use crate::bytes::overwrite;
use crate::bytes::subrange_vec;
use crate::bytes::u64_to_be_bytes;
use crate::bytes::write_bytes_at;
use crate::bytes::zero_bytes;
use crate::bytes::zero_vec;
use crate::crypto::hmac_sha256;
use crate::crypto::hmac_sha256_of;
use crate::rng::rng_coin;
use crate::rng::rng_next;
use crate::rng::rng_pick;
use crate::rng::seed_state;
use crate::rng::EvictionRng;

verus! {

/// Bound on the length of an eviction chain.
pub const MAX_EVICTIONS: usize = 500;

/// What the placement PRF yields: the first eight bytes of the HMAC-SHA256
/// tag over the big-endian sequence number, read as a big-endian integer.
pub open spec fn prf_spec(key: Seq<u8>, seq_no: u64) -> int {
    be_val(hmac_sha256_of(key, be_bytes_of(seq_no)).subrange(0, 8))
}

/// The PRF value reduced to a bucket index.
pub open spec fn prf_mod(key: Seq<u8>, seq_no: u64, n: int) -> int {
    prf_spec(key, seq_no) % n
}

/// Errors of the table.
#[derive(Debug, Clone, PartialEq)]
pub enum Error {
    InvalidInput,
    NoSpaceAfterEviction,
    HmacError(String),
}

/// The placement PRF: HMAC-SHA256 over the 8-byte big-endian encoding of
/// `seq_no`, truncated to its first 8 bytes, read big-endian. Any key is
/// accepted, so the error variant is never produced.
pub fn prf(key: &[u8], seq_no: u64) -> (r: Result<u64, Error>)
    ensures
        r matches Ok(v) && v as int == prf_spec(key@, seq_no),
{
    let msg = u64_to_be_bytes(seq_no);
    let tag = hmac_sha256(key, &msg);
    proof {
        crate::bytes::lemma_be_val_bound(tag@.subrange(0, 8));
        assert(crate::bytes::pow256(8) == 0x10000000000000000) by {
            reveal_with_fuel(crate::bytes::pow256, 9);
        }
    }
    let v = crate::bytes::be_u64_of_prefix(&tag);
    Ok(v)
}

/// A stored record: an opaque payload and the two bucket indices it may
/// occupy.
#[derive(Debug, Clone)]
pub struct Item {
    pub id: u64,
    pub data: Vec<u8>,
    pub seq_no: u64,
    pub bucket1: usize,
    pub bucket2: usize,
}

/// Mathematical image of an `Item`.
#[verifier::ext_equal]
pub ghost struct ItemModel {
    pub id: u64,
    pub data: Seq<u8>,
    pub seq_no: u64,
    pub bucket1: int,
    pub bucket2: int,
}

impl View for Item {
    type V = ItemModel;

    open spec fn view(&self) -> ItemModel {
        ItemModel {
            id: self.id,
            data: self.data@,
            seq_no: self.seq_no,
            bucket1: self.bucket1 as int,
            bucket2: self.bucket2 as int,
        }
    }
}

impl Item {
    pub fn new(id: u64, data: Vec<u8>, seq_no: u64, bucket1: usize, bucket2: usize) -> (r: Item)
        ensures
            r.id == id && r.data == data && r.seq_no == seq_no && r.bucket1 == bucket1
                && r.bucket2 == bucket2,
    {
        Item { id, data, seq_no, bucket1, bucket2 }
    }
}

impl PartialEq for Item {
    /// Equality goes by identifier and bucket pair; the payload does not
    /// take part.
    fn eq(&self, other: &Item) -> (r: bool) {
        self.id == other.id && self.bucket1 == other.bucket1 && self.bucket2 == other.bucket2
    }
}

impl vstd::std_specs::cmp::PartialEqSpecImpl for Item {
    open spec fn obeys_eq_spec() -> bool {
        true
    }

    open spec fn eq_spec(&self, other: &Item) -> bool {
        self.id == other.id && self.bucket1 == other.bucket1 && self.bucket2 == other.bucket2
    }
}

/// One slot descriptor of the table's index.
#[derive(Debug, Clone, Copy)]
pub struct ItemLocation {
    pub id: u64,
    pub filled: bool,
    pub bucket1: usize,
    pub bucket2: usize,
    pub seq_no: u64,
}

/// Mathematical image of an `ItemLocation`.
pub ghost struct LocModel {
    pub id: u64,
    pub filled: bool,
    pub bucket1: int,
    pub bucket2: int,
    pub seq_no: u64,
}

impl View for ItemLocation {
    type V = LocModel;

    open spec fn view(&self) -> LocModel {
        LocModel {
            id: self.id,
            filled: self.filled,
            bucket1: self.bucket1 as int,
            bucket2: self.bucket2 as int,
            seq_no: self.seq_no,
        }
    }
}

/// The empty slot descriptor.
pub open spec fn empty_loc() -> LocModel {
    LocModel { id: 0, filled: false, bucket1: 0, bucket2: 0, seq_no: 0 }
}

impl Default for ItemLocation {
    fn default() -> (r: ItemLocation)
        ensures
            r@ == empty_loc(),
    {
        ItemLocation { id: 0, filled: false, bucket1: 0, bucket2: 0, seq_no: 0 }
    }
}

/// Mathematical image of a whole table.
#[verifier::ext_equal]
pub ghost struct TableModel {
    pub num_buckets: int,
    pub bucket_depth: int,
    pub item_size: int,
    pub data: Seq<u8>,
    pub rng: u64,
    pub index: Seq<LocModel>,
    pub key1: Seq<u8>,
    pub key2: Seq<u8>,
}

/// The keyed cuckoo table.
#[derive(Debug)]
pub struct Table {
    pub num_buckets: usize,
    pub bucket_depth: usize,
    pub item_size: usize,
    pub data: Vec<u8>,
    pub rng: EvictionRng,
    pub index: Vec<ItemLocation>,
    pub key1: Vec<u8>,
    pub key2: Vec<u8>,
}

impl View for Table {
    type V = TableModel;

    open spec fn view(&self) -> TableModel {
        TableModel {
            num_buckets: self.num_buckets as int,
            bucket_depth: self.bucket_depth as int,
            item_size: self.item_size as int,
            data: self.data@,
            rng: self.rng.state,
            index: Seq::new(self.index@.len(), |i: int| self.index@[i]@),
            key1: self.key1@,
            key2: self.key2@,
        }
    }
}

/// A filled slot's descriptor is placement-correct: its buckets are the
/// PRF-derived ones for its sequence number, and the bucket the slot lies in
/// is one of them.
pub open spec fn loc_ok(t: TableModel, i: int) -> bool {
    let loc = t.index[i];
    let b = i / t.bucket_depth;
    &&& loc.bucket1 == prf_mod(t.key1, loc.seq_no, t.num_buckets)
    &&& loc.bucket2 == prf_mod(t.key2, loc.seq_no, t.num_buckets)
    &&& (b == loc.bucket1 || b == loc.bucket2)
}

/// Well-formedness of a table model: consistent dimensions, and every
/// filled slot placement-correct.
pub open spec fn t_wf(t: TableModel) -> bool {
    &&& t.num_buckets >= 0
    &&& t.bucket_depth >= 0
    &&& t.item_size >= 0
    &&& t.index.len() == t.num_buckets * t.bucket_depth
    &&& t.data.len() == t.index.len() * t.item_size
    &&& forall|i: int| 0 <= i < t.index.len() && t.index[i].filled ==> #[trigger] loc_ok(t, i)
}

/// An item the table accepts: payload of the slot width, and bucket indices
/// that agree with the table's own PRF computation.
pub open spec fn item_ok(t: TableModel, item: ItemModel) -> bool {
    &&& item.data.len() == t.item_size
    &&& item.bucket1 == prf_mod(t.key1, item.seq_no, t.num_buckets)
    &&& item.bucket2 == prf_mod(t.key2, item.seq_no, t.num_buckets)
}

/// The item stored at slot `i`.
pub open spec fn item_at(t: TableModel, i: int) -> ItemModel {
    ItemModel {
        id: t.index[i].id,
        data: t.data.subrange(i * t.item_size, (i + 1) * t.item_size),
        seq_no: t.index[i].seq_no,
        bucket1: t.index[i].bucket1,
        bucket2: t.index[i].bucket2,
    }
}

/// The slot descriptor an item fills.
pub open spec fn loc_of(item: ItemModel) -> LocModel {
    LocModel {
        id: item.id,
        filled: true,
        bucket1: item.bucket1,
        bucket2: item.bucket2,
        seq_no: item.seq_no,
    }
}

/// The table with `item` written into slot `i`.
pub open spec fn place_at(t: TableModel, i: int, item: ItemModel) -> TableModel {
    TableModel {
        index: t.index.update(i, loc_of(item)),
        data: overwrite(t.data, i * t.item_size, item.data),
        ..t
    }
}

/// The first non-filled position in `[start, end)`, or `end` if every one is
/// filled.
pub open spec fn first_empty_in(index: Seq<LocModel>, start: int, end: int) -> int
    decreases end - start,
{
    if start >= end {
        end
    } else if !index[start].filled {
        start
    } else {
        first_empty_in(index, start + 1, end)
    }
}

pub proof fn lemma_first_empty_in(index: Seq<LocModel>, start: int, end: int, i: int)
    requires
        start <= i <= end,
        forall|j: int| start <= j < i ==> index[j].filled,
        i < end ==> !index[i].filled,
    ensures
        first_empty_in(index, start, end) == i,
    decreases i - start,
{
    if start < i {
        lemma_first_empty_in(index, start + 1, end, i);
    }
}

pub proof fn lemma_first_empty_in_bounds(index: Seq<LocModel>, start: int, end: int)
    requires
        start <= end,
    ensures
        start <= first_empty_in(index, start, end) <= end,
        first_empty_in(index, start, end) < end ==> !index[first_empty_in(index, start, end)].filled,
        forall|j: int| start <= j < first_empty_in(index, start, end) ==> index[j].filled,
    decreases end - start,
{
    if start < end && index[start].filled {
        lemma_first_empty_in_bounds(index, start + 1, end);
    }
}

/// Placing `item` into bucket `b`: into its first empty slot if it has one,
/// nowhere otherwise.
pub open spec fn try_insert_spec(t: TableModel, b: int, item: ItemModel) -> Option<TableModel> {
    let start = b * t.bucket_depth;
    let end = start + t.bucket_depth;
    let i = first_empty_in(t.index, start, end);
    if i < end {
        Some(place_at(t, i, item))
    } else {
        None
    }
}

/// The first slot in `[start, end)` filled with the bucket pair
/// `(p1, p2)`, or `end` if there is none.
pub open spec fn find_match_in(index: Seq<LocModel>, start: int, end: int, p1: int, p2: int) -> int
    decreases end - start,
{
    if start >= end {
        end
    } else if index[start].filled && index[start].bucket1 == p1 && index[start].bucket2 == p2 {
        start
    } else {
        find_match_in(index, start + 1, end, p1, p2)
    }
}

/// What `get` yields: the first matching slot of bucket `p1`, else the
/// first matching slot of bucket `p2`, else nothing.
pub open spec fn get_spec(t: TableModel, p1: int, p2: int) -> Option<ItemModel> {
    let d = t.bucket_depth;
    let i1 = find_match_in(t.index, p1 * d, p1 * d + d, p1, p2);
    let i2 = find_match_in(t.index, p2 * d, p2 * d + d, p1, p2);
    if i1 < p1 * d + d {
        Some(item_at(t, i1))
    } else if i2 < p2 * d + d {
        Some(item_at(t, i2))
    } else {
        None
    }
}

/// How many slots of an index are filled.
pub open spec fn count_filled(index: Seq<LocModel>) -> int
    decreases index.len(),
{
    if index.len() == 0 {
        0
    } else {
        count_filled(index.drop_last()) + if index.last().filled {
            1int
        } else {
            0int
        }
    }
}

impl Table {
    /// Well-formedness of the table.
    pub open spec fn wf(&self) -> bool {
        t_wf(self@)
    }

    /// Builds a table of `num_buckets` buckets of `bucket_depth` slots of
    /// `item_size` bytes, over the given arena (which must have exactly the
    /// expected size) or over a zeroed one, with the eviction stream seeded
    /// from `rand_seed` and the two placement keys. Construction fails
    /// exactly when a supplied arena has the wrong size.
    pub fn new(
        num_buckets: usize,
        bucket_depth: usize,
        item_size: usize,
        data: Option<Vec<u8>>,
        rand_seed: u64,
        key1: Vec<u8>,
        key2: Vec<u8>,
    ) -> (r: Option<Table>)
        requires
            num_buckets * bucket_depth <= usize::MAX,
            num_buckets * bucket_depth * item_size <= usize::MAX,
        ensures
            match r {
                Some(t) => {
                    &&& (match data {
                        Some(d) => t@.data == d@ && d@.len() == num_buckets * bucket_depth
                            * item_size,
                        None => t@.data == zero_bytes((num_buckets * bucket_depth * item_size) as nat),
                    })
                    &&& t@.num_buckets == num_buckets
                    &&& t@.bucket_depth == bucket_depth
                    &&& t@.item_size == item_size
                    &&& t@.rng == seed_state(rand_seed)
                    &&& t@.index == Seq::new((num_buckets * bucket_depth) as nat, |i: int| empty_loc())
                    &&& t@.key1 == key1@
                    &&& t@.key2 == key2@
                    &&& t.wf()
                },
                None => (data matches Some(d) && d@.len() != num_buckets * bucket_depth * item_size),
            },
    {
        let slots = num_buckets * bucket_depth;
        let expected_size = slots * item_size;
        let arena = match data {
            Some(d) => {
                if d.len() != expected_size {
                    return None;
                }
                d
            },
            None => zero_vec(expected_size),
        };

        let mut index: Vec<ItemLocation> = Vec::new();
        let mut i: usize = 0;
        while i < slots
            invariant
                0 <= i <= slots,
                index@.len() == i,
                forall|j: int| 0 <= j < i ==> index@[j]@ == empty_loc(),
            decreases slots - i,
        {
            index.push(ItemLocation::default());
            i = i + 1;
        }

        let t = Table {
            num_buckets,
            bucket_depth,
            item_size,
            data: arena,
            rng: EvictionRng::seed_from_u64(rand_seed),
            index,
            key1,
            key2,
        };
        proof {
            assert(t@.index =~= Seq::new((num_buckets * bucket_depth) as nat, |i: int| empty_loc()));
            assert(t@.data.len() == t@.index.len() * t@.item_size) by (nonlinear_arith)
                requires
                    t@.data.len() == (num_buckets * bucket_depth) as int * item_size as int,
                    t@.index.len() == (num_buckets * bucket_depth) as int,
                    t@.item_size == item_size as int,
            ;
            assert(t@.index.len() == t@.num_buckets * t@.bucket_depth);
        }
        Some(t)
    }

    /// A copy of the item stored at `item_index`, or nothing for an empty
    /// slot.
    fn get_item(&self, item_index: usize) -> (r: Option<Item>)
        requires
            item_index < self@.index.len(),
            self@.data.len() == self@.index.len() * self@.item_size,
            self@.item_size >= 0,
        ensures
            match r {
                Some(it) => self@.index[item_index as int].filled && it@ == item_at(
                    self@,
                    item_index as int,
                ),
                None => !self@.index[item_index as int].filled,
            },
    {
        if !self.index[item_index].filled {
            return None;
        }
        let dlen = self.data.len();
        proof {
            assert((item_index + 1) as int * self@.item_size <= self@.index.len() * self@.item_size
                && item_index as int * self@.item_size >= 0 && item_index as int * self@.item_size
                + self@.item_size == (item_index + 1) as int * self@.item_size)
                by (nonlinear_arith)
                requires
                    0 <= (item_index as int) && (item_index as int) < self@.index.len(),
                    self@.item_size >= 0,
            ;
            assert(self@.index.len() * self@.item_size == dlen);
        }
        let data_start = item_index * self.item_size;
        let chunk = subrange_vec(&self.data, data_start, data_start + self.item_size);
        Some(
            Item {
                id: self.index[item_index].id,
                data: chunk,
                seq_no: self.index[item_index].seq_no,
                bucket1: self.index[item_index].bucket1,
                bucket2: self.index[item_index].bucket2,
            },
        )
    }

    /// Scans one bucket for a filled slot carrying the pair `(p1, p2)`.
    fn search_bucket(&self, bucket: usize, p1: usize, p2: usize) -> (r: Option<Item>)
        requires
            (bucket + 1) as int * self@.bucket_depth <= self@.index.len(),
            self@.data.len() == self@.index.len() * self@.item_size,
            self@.item_size >= 0,
            self@.bucket_depth >= 0,
        ensures
            ({
                let start = bucket as int * self@.bucket_depth;
                let end = start + self@.bucket_depth;
                let m = find_match_in(self@.index, start, end, p1 as int, p2 as int);
                match r {
                    Some(it) => m < end && it@ == item_at(self@, m),
                    None => m == end,
                }
            }),
    {
        let ilen = self.index.len();
        proof {
            assert(bucket as int * self@.bucket_depth >= 0 && bucket as int * self@.bucket_depth
                + self@.bucket_depth == (bucket + 1) as int * self@.bucket_depth)
                by (nonlinear_arith)
                requires
                    self@.bucket_depth >= 0,
                    bucket as int >= 0,
            ;
            assert((bucket + 1) as int * self@.bucket_depth <= ilen);
        }
        let start_index = bucket * self.bucket_depth;
        let end_index = start_index + self.bucket_depth;
        let mut i: usize = start_index;
        while i < end_index
            invariant
                start_index <= i <= end_index,
                start_index == bucket as int * self@.bucket_depth,
                end_index == start_index + self@.bucket_depth,
                end_index <= self@.index.len(),
                self@.data.len() == self@.index.len() * self@.item_size,
                self@.item_size >= 0,
                find_match_in(self@.index, start_index as int, end_index as int, p1 as int, p2 as int)
                    == find_match_in(self@.index, i as int, end_index as int, p1 as int, p2 as int),
                forall|j: int| start_index <= j < i ==> !(self@.index[j].filled
                    && self@.index[j].bucket1 == p1 && self@.index[j].bucket2 == p2),
            decreases end_index - i,
        {
            let slot = &self.index[i];
            if slot.filled && slot.bucket1 == p1 && slot.bucket2 == p2 {
                return self.get_item(i);
            }
            i = i + 1;
        }
        None
    }

    /// Looks an item up by its two distinct bucket indices: bucket `prf1`
    /// is scanned first, then bucket `prf2`; the first filled slot whose
    /// stored pair matches is returned as a copy.
    pub fn get(&self, prf1: usize, prf2: usize) -> (r: Option<Item>)
        requires
            prf1 != prf2,
            (prf1 as int) < self@.num_buckets,
            (prf2 as int) < self@.num_buckets,
            self.wf(),
        ensures
            match r {
                Some(it) => get_spec(self@, prf1 as int, prf2 as int) matches Some(m) && it@ == m,
                None => get_spec(self@, prf1 as int, prf2 as int) is None,
            },
    {
        proof {
            assert((prf1 + 1) as int * self@.bucket_depth <= self@.num_buckets * self@.bucket_depth
                && (prf2 + 1) as int * self@.bucket_depth <= self@.num_buckets * self@.bucket_depth)
                by (nonlinear_arith)
                requires
                    (prf1 as int) < self@.num_buckets,
                    (prf2 as int) < self@.num_buckets,
                    self@.bucket_depth >= 0,
            ;
        }
        match self.search_bucket(prf1, prf1, prf2) {
            Some(it) => Some(it),
            None => self.search_bucket(prf2, prf1, prf2),
        }
    }
}


/// One step of the insertion discipline at bucket `b`: hand the item back
/// when `b` is not one of its buckets; otherwise place it into the first
/// empty slot, or displace a uniformly drawn occupant. The result is the new
/// table, whether the item was placed, and the displaced occupant if any.
pub open spec fn evict_step(t: TableModel, b: int, item: ItemModel) -> (
    TableModel,
    bool,
    Option<ItemModel>,
) {
    if b != item.bucket1 && b != item.bucket2 {
        (t, false, Some(item))
    } else {
        match try_insert_spec(t, b, item) {
            Some(t2) => (t2, true, None),
            None => {
                let pick = rng_pick(t.rng, t.bucket_depth);
                let slot = b * t.bucket_depth + pick;
                let evicted = item_at(t, slot);
                let t2 = place_at(TableModel { rng: rng_next(t.rng), ..t }, slot, item);
                (t2, true, Some(evicted))
            },
        }
    }
}

/// The eviction chain starting at bucket `b` with at most `fuel` steps:
/// it ends placed (nothing displaced), or with the last carried item handed
/// back.
pub open spec fn chain(t: TableModel, b: int, item: ItemModel, fuel: nat) -> (
    TableModel,
    Option<ItemModel>,
)
    decreases fuel,
{
    if fuel == 0 {
        (t, Some(item))
    } else {
        let step = evict_step(t, b, item);
        if !step.1 {
            (t, Some(item))
        } else {
            match step.2 {
                None => (step.0, None),
                Some(ev) => {
                    let next = if ev.bucket1 == b {
                        ev.bucket2
                    } else {
                        ev.bucket1
                    };
                    chain(step.0, next, ev, (fuel - 1) as nat)
                },
            }
        }
    }
}

/// What `insert` does to a valid item: draw the coin that orders the two
/// candidate buckets, try the primary, then run the eviction chain from the
/// secondary.
pub open spec fn insert_spec(t: TableModel, item: ItemModel) -> (TableModel, Option<ItemModel>) {
    let t1 = TableModel { rng: rng_next(t.rng), ..t };
    let coin = rng_coin(t.rng);
    let first = if coin {
        item.bucket1
    } else {
        item.bucket2
    };
    let other = if coin {
        item.bucket2
    } else {
        item.bucket1
    };
    match try_insert_spec(t1, first, item) {
        Some(t2) => (t2, None),
        None => chain(t1, other, item, MAX_EVICTIONS as nat),
    }
}

pub proof fn lemma_count_filled_update(index: Seq<LocModel>, i: int, loc: LocModel)
    requires
        0 <= i < index.len(),
    ensures
        count_filled(index.update(i, loc)) == count_filled(index) - (if index[i].filled {
            1int
        } else {
            0int
        }) + (if loc.filled {
            1int
        } else {
            0int
        }),
    decreases index.len(),
{
    let u = index.update(i, loc);
    if i == index.len() - 1 {
        assert(u.drop_last() =~= index.drop_last());
    } else {
        lemma_count_filled_update(index.drop_last(), i, loc);
        assert(u.drop_last() =~= index.drop_last().update(i, loc));
    }
}

/// Placing a valid item into a slot of one of its buckets keeps the table
/// well-formed and moves the filled count by exactly the slot's change.
pub proof fn lemma_place_at_props(t: TableModel, b: int, i: int, item: ItemModel)
    requires
        t_wf(t),
        t.bucket_depth > 0,
        0 <= b < t.num_buckets,
        b * t.bucket_depth <= i < b * t.bucket_depth + t.bucket_depth,
        b == item.bucket1 || b == item.bucket2,
        item_ok(t, item),
    ensures
        ({
            let t2 = place_at(t, i, item);
            &&& t_wf(t2)
            &&& t2.num_buckets == t.num_buckets
            &&& t2.bucket_depth == t.bucket_depth
            &&& t2.item_size == t.item_size
            &&& t2.key1 == t.key1
            &&& t2.key2 == t.key2
            &&& t2.rng == t.rng
            &&& t2.index.len() == t.index.len()
            &&& t2.data.len() == t.data.len()
            &&& count_filled(t2.index) == count_filled(t.index) + (if t.index[i].filled {
                0int
            } else {
                1int
            })
        }),
{
    let t2 = place_at(t, i, item);
    let d = t.bucket_depth;
    let w = t.item_size;
    assert((b + 1) * d <= t.num_buckets * d && 0 <= i && i < t.index.len() && 0 <= i * w && (i + 1)
        * w <= t.index.len() * w && i * w + w == (i + 1) * w) by (nonlinear_arith)
        requires
            0 <= b < t.num_buckets,
            d > 0,
            w >= 0,
            b * d <= i < b * d + d,
            t.index.len() == t.num_buckets * d,
    ;
    assert(t2.data.len() == t.data.len());
    vstd::arithmetic::div_mod::lemma_fundamental_div_mod_converse(i, d, b, i - b * d);
    assert(i / d == b);
    assert forall|j: int| 0 <= j < t2.index.len() && t2.index[j].filled implies #[trigger] loc_ok(
        t2,
        j,
    ) by {
        if j == i {
            assert(t2.index[i] == loc_of(item));
        } else {
            assert(t.index[j].filled);
            assert(loc_ok(t, j));
        }
    }
    lemma_count_filled_update(t.index, i, loc_of(item));
}

/// One eviction step keeps the table well-formed; a placement into an empty
/// slot raises the filled count by one, a displacement keeps it, and a
/// displaced occupant is itself a valid item of the table.
pub proof fn lemma_evict_step_props(t: TableModel, b: int, item: ItemModel)
    requires
        t_wf(t),
        t.num_buckets > 0,
        t.bucket_depth > 0,
        item_ok(t, item),
        0 <= b < t.num_buckets,
    ensures
        ({
            let step = evict_step(t, b, item);
            &&& t_wf(step.0)
            &&& step.0.num_buckets == t.num_buckets
            &&& step.0.bucket_depth == t.bucket_depth
            &&& step.0.item_size == t.item_size
            &&& step.0.key1 == t.key1
            &&& step.0.key2 == t.key2
            &&& step.0.index.len() == t.index.len()
            &&& step.0.data.len() == t.data.len()
            &&& (!step.1 ==> step.0 == t && step.2 == Some(item))
            &&& (step.1 && step.2 is None ==> count_filled(step.0.index) == count_filled(t.index)
                + 1)
            &&& (step.1 && step.2 is Some ==> (step.2 matches Some(ev) && count_filled(
                step.0.index,
            ) == count_filled(t.index) && item_ok(step.0, ev) && 0 <= ev.bucket1 < t.num_buckets
                && 0 <= ev.bucket2 < t.num_buckets && ev.data.len() == t.item_size))
        }),
{
    let d = t.bucket_depth;
    let w = t.item_size;
    let start = b * d;
    let end = start + d;
    if b != item.bucket1 && b != item.bucket2 {
    } else {
        lemma_first_empty_in_bounds(t.index, start, end);
        let fe = first_empty_in(t.index, start, end);
        assert(end <= t.index.len()) by (nonlinear_arith)
            requires
                0 <= b < t.num_buckets,
                d > 0,
                start == b * d,
                end == start + d,
                t.index.len() == t.num_buckets * d,
        ;
        if fe < end {
            lemma_place_at_props(t, b, fe, item);
        } else {
            let pick = rng_pick(t.rng, d);
            assert(0 <= pick < d);
            let slot = start + pick;
            let t1 = TableModel { rng: rng_next(t.rng), ..t };
            assert(t_wf(t1)) by {
                assert(forall|j: int|
                    0 <= j < t1.index.len() && t1.index[j].filled ==> #[trigger] loc_ok(t1, j)
                        == loc_ok(t, j));
            }
            assert(t.index[slot].filled);
            lemma_place_at_props(t1, b, slot, item);
            let ev = item_at(t, slot);
            assert(loc_ok(t, slot));
            assert((slot + 1) * w <= t.index.len() * w && 0 <= slot * w && slot * w + w == (slot
                + 1) * w) by (nonlinear_arith)
                requires
                    0 <= slot < t.index.len(),
                    w >= 0,
            ;
            assert(ev.data.len() == w);
            assert(slot / d == b) by {
                vstd::arithmetic::div_mod::lemma_fundamental_div_mod_converse(slot, d, b, pick);
            }
        }
    }
}

/// The eviction chain keeps the table well-formed and accounts exactly for
/// the filled count: one more slot when it ends placed, the same count when
/// it hands an item back.
pub proof fn lemma_chain_props(t: TableModel, b: int, item: ItemModel, fuel: nat)
    requires
        t_wf(t),
        t.num_buckets > 0,
        t.bucket_depth > 0,
        item_ok(t, item),
        0 <= b < t.num_buckets,
    ensures
        ({
            let c = chain(t, b, item, fuel);
            &&& t_wf(c.0)
            &&& c.0.num_buckets == t.num_buckets
            &&& c.0.bucket_depth == t.bucket_depth
            &&& c.0.item_size == t.item_size
            &&& c.0.key1 == t.key1
            &&& c.0.key2 == t.key2
            &&& c.0.index.len() == t.index.len()
            &&& c.0.data.len() == t.data.len()
            &&& count_filled(c.0.index) == count_filled(t.index) + (if c.1 is None {
                1int
            } else {
                0int
            })
        }),
    decreases fuel,
{
    if fuel == 0 {
    } else {
        let step = evict_step(t, b, item);
        lemma_evict_step_props(t, b, item);
        if !step.1 {
        } else {
            match step.2 {
                None => {},
                Some(ev) => {
                    let next = if ev.bucket1 == b {
                        ev.bucket2
                    } else {
                        ev.bucket1
                    };
                    lemma_chain_props(step.0, next, ev, (fuel - 1) as nat);
                },
            }
        }
    }
}

/// A fresh copy of an item, payload included.
fn clone_item(item: &Item) -> (r: Item)
    ensures
        r@ == item@,
{
    let r = Item {
        id: item.id,
        data: crate::bytes::copy_bytes(&item.data),
        seq_no: item.seq_no,
        bucket1: item.bucket1,
        bucket2: item.bucket2,
    };
    proof {
        assert(r@ =~= item@);
    }
    r
}

impl Table {
    /// Writes `item` into the first empty slot of the given bucket, if any.
    fn try_insert_to_bucket(&mut self, bucket_index: usize, item: &Item) -> (r: bool)
        requires
            (bucket_index + 1) as int * old(self)@.bucket_depth <= old(self)@.index.len(),
            old(self)@.data.len() == old(self)@.index.len() * old(self)@.item_size,
            item@.data.len() == old(self)@.item_size,
        ensures
            match try_insert_spec(old(self)@, bucket_index as int, item@) {
                Some(t2) => r == true && final(self)@ == t2,
                None => r == false && final(self)@ == old(self)@,
            },
    {
        let ilen = self.index.len();
        proof {
            assert(bucket_index as int * self@.bucket_depth >= 0 && bucket_index as int
                * self@.bucket_depth + self@.bucket_depth == (bucket_index + 1) as int
                * self@.bucket_depth) by (nonlinear_arith)
                requires
                    self@.bucket_depth >= 0,
                    bucket_index as int >= 0,
            ;
        }
        let start = bucket_index * self.bucket_depth;
        let end = start + self.bucket_depth;
        let mut i: usize = start;
        while i < end
            invariant
                start <= i <= end,
                end <= ilen,
                ilen == self@.index.len(),
                start == bucket_index as int * self@.bucket_depth,
                end == start + self@.bucket_depth,
                *self == *old(self),
                item@.data.len() == self@.item_size,
                self@.data.len() == self@.index.len() * self@.item_size,
                forall|j: int| start <= j < i ==> self@.index[j].filled,
            decreases end - i,
        {
            if !self.index[i].filled {
                proof {
                    lemma_first_empty_in(self@.index, start as int, end as int, i as int);
                    assert((i + 1) as int * self@.item_size <= self@.index.len() * self@.item_size
                        && 0 <= i as int * self@.item_size && i as int * self@.item_size
                        + self@.item_size == (i + 1) as int * self@.item_size)
                        by (nonlinear_arith)
                        requires
                            0 <= (i as int) && (i as int) < self@.index.len(),
                            self@.item_size >= 0,
                    ;
                }
                let dlen = self.data.len();
                let data_start = i * self.item_size;
                write_bytes_at(&mut self.data, data_start, &item.data);
                self.index.set(
                    i,
                    ItemLocation {
                        id: item.id,
                        filled: true,
                        bucket1: item.bucket1,
                        bucket2: item.bucket2,
                        seq_no: item.seq_no,
                    },
                );
                proof {
                    assert(self@.index =~= old(self)@.index.update(i as int, loc_of(item@)));
                    assert(self@ =~= place_at(old(self)@, i as int, item@));
                }
                return true;
            }
            i = i + 1;
        }
        proof {
            lemma_first_empty_in(self@.index, start as int, end as int, end as int);
        }
        false
    }

    /// Places `item` in the given bucket, displacing a uniformly drawn
    /// occupant when the bucket is full; hands the item straight back when
    /// the bucket is not one of its two.
    fn insert_and_evict(&mut self, bucket_index: usize, item: &Item) -> (r: Result<
        (bool, Option<Item>),
        Error,
    >)
        requires
            (bucket_index + 1) as int * old(self)@.bucket_depth <= old(self)@.index.len(),
            old(self)@.data.len() == old(self)@.index.len() * old(self)@.item_size,
            item@.data.len() == old(self)@.item_size,
            old(self)@.bucket_depth > 0,
        ensures
            ({
                let step = evict_step(old(self)@, bucket_index as int, item@);
                &&& final(self)@ == step.0
                &&& r matches Ok(p) && p.0 == step.1 && (match p.1 {
                    Some(it) => step.2 matches Some(d) && it@ == d,
                    None => step.2 is None,
                })
            }),
    {
        if item.bucket1 != bucket_index && item.bucket2 != bucket_index {
            return Ok((false, Some(clone_item(item))));
        }
        if self.try_insert_to_bucket(bucket_index, item) {
            return Ok((true, None));
        }
        let ghost t0 = self@;
        let ilen = self.index.len();
        proof {
            assert(bucket_index as int * t0.bucket_depth >= 0 && bucket_index as int
                * t0.bucket_depth + t0.bucket_depth == (bucket_index + 1) as int * t0.bucket_depth)
                by (nonlinear_arith)
                requires
                    t0.bucket_depth >= 0,
                    bucket_index as int >= 0,
            ;
            lemma_first_empty_in_bounds(
                t0.index,
                bucket_index as int * t0.bucket_depth,
                bucket_index as int * t0.bucket_depth + t0.bucket_depth,
            );
        }
        let pick = self.rng.gen_range(self.bucket_depth);
        let evict_idx = bucket_index * self.bucket_depth + pick;
        let evicted_item = match self.get_item(evict_idx) {
            Some(x) => x,
            None => {
                return Err(Error::NoSpaceAfterEviction);
            },
        };
        let mut loc = self.index[evict_idx];
        loc.filled = false;
        self.index.set(evict_idx, loc);
        let ghost t_cleared = self@;
        proof {
            assert((evict_idx as int) < t0.index.len());
            assert forall|j: int|
                bucket_index as int * t0.bucket_depth <= j < evict_idx as int implies
                t_cleared.index[j].filled by {
                assert(t0.index[j].filled);
            }
            lemma_first_empty_in(
                t_cleared.index,
                bucket_index as int * t0.bucket_depth,
                bucket_index as int * t0.bucket_depth + t0.bucket_depth,
                evict_idx as int,
            );
        }
        if !self.try_insert_to_bucket(bucket_index, item) {
            return Err(Error::NoSpaceAfterEviction);
        }
        proof {
            let step = evict_step(t0, bucket_index as int, item@);
            let t1 = TableModel { rng: rng_next(t0.rng), ..t0 };
            let slot = bucket_index as int * t0.bucket_depth + rng_pick(t0.rng, t0.bucket_depth);
            assert(slot == evict_idx as int);
            assert(evicted_item@ =~= item_at(t0, slot));
            assert(self@ =~= place_at(t1, slot, item@));
            assert(self@ == step.0);
        }
        Ok((true, Some(evicted_item)))
    }
}


/// Well-formedness does not depend on the random-stream state: two models
/// equal in everything but `rng` are equally well-formed.
pub proof fn lemma_wf_same_but_rng(t: TableModel, t2: TableModel)
    requires
        t_wf(t),
        t2.num_buckets == t.num_buckets,
        t2.bucket_depth == t.bucket_depth,
        t2.item_size == t.item_size,
        t2.data == t.data,
        t2.index == t.index,
        t2.key1 == t.key1,
        t2.key2 == t.key2,
    ensures
        t_wf(t2),
{
    assert forall|j: int| 0 <= j < t2.index.len() && t2.index[j].filled implies #[trigger] loc_ok(
        t2,
        j,
    ) by {
        assert(loc_ok(t, j));
    }
}

impl Table {
    /// Inserts an item. It is rejected (`InvalidInput`) unless its payload
    /// has the slot width and its bucket pair agrees with the table's own
    /// PRF computation. A valid item is placed by one coin toss between its
    /// two buckets and, if the primary is full, an eviction chain of at most
    /// `MAX_EVICTIONS` steps from the secondary: `Ok(None)` means placed,
    /// `Ok(Some(d))` hands back the item the chain could not keep. The new
    /// state and the outcome are exactly `insert_spec` of the old state and
    /// the item, so equal replicas fed equal items stay equal.
    pub fn insert(&mut self, item: &Item) -> (r: Result<Option<Item>, Error>)
        requires
            old(self).wf(),
            old(self)@.num_buckets > 0,
            old(self)@.bucket_depth > 0,
        ensures
            final(self).wf(),
            final(self)@.num_buckets == old(self)@.num_buckets,
            final(self)@.bucket_depth == old(self)@.bucket_depth,
            final(self)@.item_size == old(self)@.item_size,
            final(self)@.key1 == old(self)@.key1,
            final(self)@.key2 == old(self)@.key2,
            !item_ok(old(self)@, item@) ==> r == Err::<Option<Item>, Error>(Error::InvalidInput)
                && final(self)@ == old(self)@,
            item_ok(old(self)@, item@) ==> ({
                let outcome = insert_spec(old(self)@, item@);
                &&& r matches Ok(opt)
                &&& final(self)@ == outcome.0
                &&& (match opt {
                    None => outcome.1 is None,
                    Some(d) => outcome.1 matches Some(dm) && d@ == dm,
                })
            }),
            r is Err ==> count_filled(final(self)@.index) == count_filled(old(self)@.index),
            r matches Ok(opt) ==> count_filled(final(self)@.index) == count_filled(
                old(self)@.index,
            ) + (if opt is None {
                1int
            } else {
                0int
            }),
    {
        if item.data.len() != self.item_size {
            return Err(Error::InvalidInput);
        }
        let v1 = match prf(self.key1.as_slice(), item.seq_no) {
            Ok(v) => v,
            Err(e) => {
                return Err(e);
            },
        };
        let v2 = match prf(self.key2.as_slice(), item.seq_no) {
            Ok(v) => v,
            Err(e) => {
                return Err(e);
            },
        };
        let bucket1 = (v1 % (self.num_buckets as u64)) as usize;
        let bucket2 = (v2 % (self.num_buckets as u64)) as usize;
        proof {
            assert(bucket1 as int == prf_mod(self@.key1, item.seq_no, self@.num_buckets));
            assert(bucket2 as int == prf_mod(self@.key2, item.seq_no, self@.num_buckets));
        }
        if bucket1 != item.bucket1 || bucket2 != item.bucket2 {
            return Err(Error::InvalidInput);
        }
        let ghost t_start = self@;
        let coin = self.rng.gen_bool();
        let (first_bucket, other_bucket) = if coin {
            (bucket1, bucket2)
        } else {
            (bucket2, bucket1)
        };
        let ghost t1 = self@;
        proof {
            assert(t1 =~= (TableModel { rng: rng_next(t_start.rng), ..t_start }));
            lemma_wf_same_but_rng(t_start, t1);
            assert((first_bucket + 1) as int * t1.bucket_depth <= t1.index.len() && (other_bucket
                + 1) as int * t1.bucket_depth <= t1.index.len()) by (nonlinear_arith)
                requires
                    0 <= (first_bucket as int) < t1.num_buckets,
                    0 <= (other_bucket as int) < t1.num_buckets,
                    t1.bucket_depth > 0,
                    t1.index.len() == t1.num_buckets * t1.bucket_depth,
            ;
        }
        if self.try_insert_to_bucket(first_bucket, item) {
            proof {
                let start = first_bucket as int * t1.bucket_depth;
                let end = start + t1.bucket_depth;
                lemma_first_empty_in_bounds(t1.index, start, end);
                let fe = first_empty_in(t1.index, start, end);
                lemma_place_at_props(t1, first_bucket as int, fe, item@);
            }
            return Ok(None);
        }
        let ghost target = chain(t1, other_bucket as int, item@, MAX_EVICTIONS as nat);
        proof {
            assert(insert_spec(t_start, item@) == target);
        }
        let mut next_bucket = other_bucket;
        let mut current_item = clone_item(item);
        let mut k: usize = 0;
        while k < MAX_EVICTIONS
            invariant
                0 <= k <= MAX_EVICTIONS,
                t_wf(self@),
                self@.num_buckets == old(self)@.num_buckets,
                self@.bucket_depth == old(self)@.bucket_depth,
                self@.item_size == old(self)@.item_size,
                self@.key1 == old(self)@.key1,
                self@.key2 == old(self)@.key2,
                self@.num_buckets > 0,
                self@.bucket_depth > 0,
                self@.index.len() == self@.num_buckets * self@.bucket_depth,
                item_ok(self@, current_item@),
                0 <= (next_bucket as int) < self@.num_buckets,
                count_filled(self@.index) == count_filled(old(self)@.index),
                item_ok(old(self)@, item@),
                insert_spec(old(self)@, item@) == target,
                chain(self@, next_bucket as int, current_item@, (MAX_EVICTIONS - k) as nat)
                    == target,
            decreases MAX_EVICTIONS - k,
        {
            let ghost pre = self@;
            let ghost fuel = (MAX_EVICTIONS - k) as nat;
            proof {
                assert((next_bucket + 1) as int * pre.bucket_depth <= pre.index.len())
                    by (nonlinear_arith)
                    requires
                        0 <= (next_bucket as int) < pre.num_buckets,
                        pre.bucket_depth > 0,
                        pre.index.len() == pre.num_buckets * pre.bucket_depth,
                ;
                lemma_evict_step_props(pre, next_bucket as int, current_item@);
            }
            let res = match self.insert_and_evict(next_bucket, &current_item) {
                Ok(p) => p,
                Err(e) => {
                    return Err(e);
                },
            };
            proof {
                assert(chain(pre, next_bucket as int, current_item@, fuel) == ({
                    let step = evict_step(pre, next_bucket as int, current_item@);
                    if !step.1 {
                        (pre, Some(current_item@))
                    } else {
                        match step.2 {
                            None => (step.0, None::<ItemModel>),
                            Some(ev) => {
                                let next = if ev.bucket1 == next_bucket as int {
                                    ev.bucket2
                                } else {
                                    ev.bucket1
                                };
                                chain(step.0, next, ev, (fuel - 1) as nat)
                            },
                        }
                    }
                }));
            }
            match res {
                (true, None) => {
                    return Ok(None);
                },
                (true, Some(evicted)) => {
                    next_bucket = if evicted.bucket1 == next_bucket {
                        evicted.bucket2
                    } else {
                        evicted.bucket1
                    };
                    current_item = evicted;
                    k = k + 1;
                },
                (false, Some(it)) => {
                    return Ok(Some(it));
                },
                (false, None) => {
                    proof {
                        assert(false);
                    }
                    return Err(Error::NoSpaceAfterEviction);
                },
            }
        }
        Ok(Some(current_item))
    }
}


/// Law: placement correctness. In a well-formed table every filled slot
/// lies in a bucket that is one of the two PRF-derived buckets of the item
/// it holds.
pub proof fn lemma_placement_correctness(t: TableModel, i: int)
    requires
        t_wf(t),
        0 <= i < t.index.len(),
        t.index[i].filled,
    ensures
        i / t.bucket_depth == prf_mod(t.key1, t.index[i].seq_no, t.num_buckets) || i
            / t.bucket_depth == prf_mod(t.key2, t.index[i].seq_no, t.num_buckets),
{
    assert(loc_ok(t, i));
}

/// What `insert` does to the table, rejection included: a model of one
/// write applied to a replica.
pub open spec fn insert_outcome(t: TableModel, item: ItemModel) -> (TableModel, Option<ItemModel>) {
    if item_ok(t, item) {
        insert_spec(t, item)
    } else {
        (t, Some(item))
    }
}

/// The table after a whole sequence of inserts, applied in order.
pub open spec fn table_after_inserts(t: TableModel, items: Seq<ItemModel>) -> TableModel
    decreases items.len(),
{
    if items.len() == 0 {
        t
    } else {
        table_after_inserts(insert_outcome(t, items[0]).0, items.drop_first())
    }
}

/// How many of a sequence of inserts are placed without displacing
/// anything.
pub open spec fn placed_count(t: TableModel, items: Seq<ItemModel>) -> int
    decreases items.len(),
{
    if items.len() == 0 {
        0
    } else {
        let step = insert_outcome(t, items[0]);
        (if step.1 is None {
            1int
        } else {
            0int
        }) + placed_count(step.0, items.drop_first())
    }
}

/// One modelled insert of a valid item keeps the table well-formed and
/// moves the filled count by one exactly when nothing is displaced.
pub proof fn lemma_insert_spec_props(t: TableModel, item: ItemModel)
    requires
        t_wf(t),
        t.num_buckets > 0,
        t.bucket_depth > 0,
        item_ok(t, item),
    ensures
        ({
            let outcome = insert_spec(t, item);
            &&& t_wf(outcome.0)
            &&& outcome.0.num_buckets == t.num_buckets
            &&& outcome.0.bucket_depth == t.bucket_depth
            &&& outcome.0.item_size == t.item_size
            &&& outcome.0.key1 == t.key1
            &&& outcome.0.key2 == t.key2
            &&& count_filled(outcome.0.index) == count_filled(t.index) + (if outcome.1 is None {
                1int
            } else {
                0int
            })
        }),
{
    let t1 = TableModel { rng: rng_next(t.rng), ..t };
    lemma_wf_same_but_rng(t, t1);
    let coin = rng_coin(t.rng);
    let first = if coin {
        item.bucket1
    } else {
        item.bucket2
    };
    let other = if coin {
        item.bucket2
    } else {
        item.bucket1
    };
    let start = first * t1.bucket_depth;
    let end = start + t1.bucket_depth;
    match try_insert_spec(t1, first, item) {
        Some(t2) => {
            lemma_first_empty_in_bounds(t1.index, start, end);
            lemma_place_at_props(t1, first, first_empty_in(t1.index, start, end), item);
        },
        None => {
            lemma_chain_props(t1, other, item, MAX_EVICTIONS as nat);
        },
    }
}

/// Law: count consistency. Starting from a well-formed table, after any
/// sequence of inserts the number of filled slots has grown by exactly the
/// number of inserts that were placed without displacing anything: rejected
/// items, displaced items and eviction moves never change it otherwise.
pub proof fn lemma_count_after_inserts(t: TableModel, items: Seq<ItemModel>)
    requires
        t_wf(t),
        t.num_buckets > 0,
        t.bucket_depth > 0,
    ensures
        t_wf(table_after_inserts(t, items)),
        count_filled(table_after_inserts(t, items).index) == count_filled(t.index) + placed_count(
            t,
            items,
        ),
    decreases items.len(),
{
    if items.len() > 0 {
        let step = insert_outcome(t, items[0]);
        if item_ok(t, items[0]) {
            lemma_insert_spec_props(t, items[0]);
        }
        lemma_count_after_inserts(step.0, items.drop_first());
    }
}

/// Law: replica determinism. The modelled insert sequence is a function of
/// the starting state and the items alone — no hidden input — so two
/// replicas that start equal (same dimensions, arena, seed state and keys)
/// and are fed the identical sequence of inserts end byte-identical.
/// `Table::insert` is pinned to this model by its contract.
pub proof fn lemma_replica_determinism(t1: TableModel, t2: TableModel, items: Seq<ItemModel>)
    requires
        t1 == t2,
    ensures
        table_after_inserts(t1, items) == table_after_inserts(t2, items),
{
}

} // verus!
