//! The server side: a record store answering point-function requests
//! (`PirServer`), and the full replica (`Server`) that keeps a cuckoo table
//! and mirrors its buckets into the store after every write.

use vstd::prelude::*;

use crate::bytes::subrange_vec;
use crate::bytes::zero_vec;
use crate::constants::BUCKET_DEPTH;
use crate::constants::RANDOM_SEED;
use crate::crypto::random_bytes;
use crate::cuckoo::insert_spec;
use crate::cuckoo::ItemModel;
use crate::cuckoo::item_ok;
use crate::cuckoo::t_wf;
use crate::cuckoo::Item;
use crate::cuckoo::Table;
use crate::cuckoo::TableModel;
use crate::dpf::answer_keys;
use crate::dpf::handle_request;
use crate::dpf::recs_wf;
use crate::error::PirError;

verus! {

/// The records seen by the point-function layer: one per bucket, the
/// concatenation of that bucket's slot payloads.
pub open spec fn bucket_records(t: TableModel) -> Seq<Seq<u8>> {
    Seq::new(
        t.num_buckets as nat,
        |b: int|
            t.data.subrange(
                b * (t.bucket_depth * t.item_size),
                (b + 1) * (t.bucket_depth * t.item_size),
            ),
    )
}

/// The models of a list of items, in order.
pub open spec fn items_view(s: Seq<Item>) -> Seq<ItemModel> {
    Seq::new(s.len(), |i: int| s[i]@)
}

/// A batch of writes applied to a table model in order, stopping at the
/// first item the table rejects: the resulting model, and whether every
/// item was accepted.
pub open spec fn apply_batch(t: TableModel, items: Seq<ItemModel>) -> (TableModel, bool)
    decreases items.len(),
{
    if items.len() == 0 {
        (t, true)
    } else if !item_ok(t, items[0]) {
        (t, false)
    } else {
        apply_batch(insert_spec(t, items[0]).0, items.drop_first())
    }
}

/// Updates applied to a record array in order: each pair overwrites the
/// record at its index.
pub open spec fn apply_updates(recs: Seq<Seq<u8>>, ups: Seq<(usize, Vec<u8>)>) -> Seq<Seq<u8>>
    decreases ups.len(),
{
    if ups.len() == 0 {
        recs
    } else {
        apply_updates(recs.update(ups[0].0 as int, ups[0].1@), ups.drop_first())
    }
}

proof fn lemma_apply_updates_snoc(recs: Seq<Seq<u8>>, ups: Seq<(usize, Vec<u8>)>, u: (usize, Vec<u8>))
    ensures
        apply_updates(recs, ups.push(u)) == apply_updates(recs, ups).update(u.0 as int, u.1@),
    decreases ups.len(),
{
    if ups.len() == 0 {
        assert(ups.push(u)[0] == u);
        assert(ups.push(u).drop_first() =~= Seq::<(usize, Vec<u8>)>::empty());
        assert(apply_updates(recs, ups.push(u)) == apply_updates(
            recs.update(u.0 as int, u.1@),
            ups.push(u).drop_first(),
        ));
        assert(apply_updates(recs.update(u.0 as int, u.1@), ups.push(u).drop_first())
            == recs.update(u.0 as int, u.1@));
        assert(apply_updates(recs, ups) == recs);
    } else {
        assert(ups.push(u)[0] == ups[0]);
        assert(ups.push(u).drop_first() =~= ups.drop_first().push(u));
        let recs2 = recs.update(ups[0].0 as int, ups[0].1@);
        lemma_apply_updates_snoc(recs2, ups.drop_first(), u);
        assert(apply_updates(recs, ups.push(u)) == apply_updates(recs2, ups.drop_first().push(u)));
        assert(apply_updates(recs, ups) == apply_updates(recs2, ups.drop_first()));
    }
}

/// A store of fixed-width byte records that answers point-function
/// requests over them.
#[derive(Debug)]
pub struct PirServer {
    elements: Vec<Vec<u8>>,
    capacity: usize,
    record_size: usize,
}

impl PirServer {
    /// The stored records.
    pub closed spec fn records(&self) -> Seq<Seq<u8>> {
        self.elements.deep_view()
    }

    /// How many records the store holds.
    pub closed spec fn cap(&self) -> int {
        self.capacity as int
    }

    /// The width of every record.
    pub closed spec fn rec_size(&self) -> int {
        self.record_size as int
    }

    /// Well-formedness: a positive number of records, all of the stated
    /// width.
    pub open spec fn wf(&self) -> bool {
        &&& self.records().len() == self.cap()
        &&& self.cap() > 0
        &&& recs_wf(self.records(), self.rec_size())
    }

    /// A store of `capacity` records of `item_size` bytes, filled with
    /// pseudorandom cover bytes so that untouched records are not
    /// distinguishable from overwritten ones. A capacity of zero is
    /// rejected.
    pub fn new(capacity: usize, item_size: usize) -> (r: Result<PirServer, PirError>)
        ensures
            capacity == 0 ==> r == Err::<PirServer, PirError>(PirError::InvalidArgument),
            capacity > 0 ==> (r matches Ok(s) && s.wf() && s.cap() == capacity && s.rec_size()
                == item_size),
    {
        if capacity == 0 {
            return Err(PirError::InvalidArgument);
        }
        let mut elements: Vec<Vec<u8>> = Vec::new();
        let mut i: usize = 0;
        while i < capacity
            invariant
                0 <= i <= capacity,
                elements@.len() == i,
                forall|j: int| 0 <= j < i ==> (#[trigger] elements@[j])@.len() == item_size,
            decreases capacity - i,
        {
            elements.push(random_bytes(item_size));
            i = i + 1;
        }
        let s = PirServer { elements, capacity, record_size: item_size };
        proof {
            assert(forall|j: int|
                0 <= j < s.records().len() ==> #[trigger] s.records()[j].len() == item_size);
        }
        Ok(s)
    }

    /// Overwrites the record at `index`.
    pub fn write(&mut self, index: usize, element: Vec<u8>) -> (r: Result<(), PirError>)
        requires
            old(self).wf(),
        ensures
            final(self).wf(),
            final(self).cap() == old(self).cap(),
            final(self).rec_size() == old(self).rec_size(),
            (index as int) >= old(self).cap() ==> r == Err::<(), PirError>(PirError::IndexOutOfBounds)
                && final(self).records() == old(self).records(),
            (index as int) < old(self).cap() && element@.len() != old(self).rec_size() ==> r == Err::<
                (),
                PirError,
            >(PirError::InvalidArgument) && final(self).records() == old(self).records(),
            (index as int) < old(self).cap() && element@.len() == old(self).rec_size() ==> r is Ok
                && final(self).records() == old(self).records().update(index as int, element@),
    {
        let mut updates: Vec<(usize, Vec<u8>)> = Vec::new();
        updates.push((index, element));
        let r = self.batch_write(&updates);
        proof {
            if (index as int) < old(self).cap() && updates@[0].1@.len() == old(self).rec_size() {
                assert(apply_updates(old(self).records(), updates@) == apply_updates(
                    old(self).records().update(index as int, updates@[0].1@),
                    updates@.drop_first(),
                ));
            }
        }
        r
    }

    /// Applies a batch of record overwrites in order, after validating
    /// every index and every record width; a failed validation leaves the
    /// store unchanged.
    pub fn batch_write(&mut self, updates: &Vec<(usize, Vec<u8>)>) -> (r: Result<(), PirError>)
        requires
            old(self).wf(),
        ensures
            final(self).wf(),
            final(self).cap() == old(self).cap(),
            final(self).rec_size() == old(self).rec_size(),
            (exists|j: int|
                0 <= j < updates@.len() && ((#[trigger] updates@[j]).0 as int) >= old(self).cap())
                ==> r == Err::<(), PirError>(PirError::IndexOutOfBounds) && final(self).records()
                == old(self).records(),
            ({
                let idx_ok = forall|j: int|
                    0 <= j < updates@.len() ==> ((#[trigger] updates@[j]).0 as int) < old(
                        self,
                    ).cap();
                let len_bad = exists|j: int|
                    0 <= j < updates@.len() && (#[trigger] updates@[j]).1@.len() != old(
                        self,
                    ).rec_size();
                &&& (idx_ok && len_bad ==> r == Err::<(), PirError>(PirError::InvalidArgument)
                    && final(self).records() == old(self).records())
                &&& (idx_ok && !len_bad ==> r is Ok && final(self).records() == apply_updates(
                    old(self).records(),
                    updates@,
                ))
            }),
    {
        let mut i: usize = 0;
        while i < updates.len()
            invariant
                old(self).wf(),
                0 <= i <= updates@.len(),
                *self == *old(self),
                forall|j: int| 0 <= j < i ==> ((#[trigger] updates@[j]).0 as int) < self.cap(),
            decreases updates@.len() - i,
        {
            if updates[i].0 >= self.capacity {
                return Err(PirError::IndexOutOfBounds);
            }
            i = i + 1;
        }
        let mut i2: usize = 0;
        while i2 < updates.len()
            invariant
                old(self).wf(),
                0 <= i2 <= updates@.len(),
                *self == *old(self),
                forall|j: int| 0 <= j < updates@.len() ==> ((#[trigger] updates@[j]).0 as int)
                    < self.cap(),
                forall|j: int| 0 <= j < i2 ==> (#[trigger] updates@[j]).1@.len()
                    == self.rec_size(),
            decreases updates@.len() - i2,
        {
            if updates[i2].1.len() != self.record_size {
                return Err(PirError::InvalidArgument);
            }
            i2 = i2 + 1;
        }
        let mut i3: usize = 0;
        while i3 < updates.len()
            invariant
                0 <= i3 <= updates@.len(),
                self.cap() == old(self).cap(),
                self.capacity == old(self).capacity,
                self.record_size == old(self).record_size,
                self.wf(),
                forall|j: int| 0 <= j < updates@.len() ==> ((#[trigger] updates@[j]).0 as int)
                    < self.cap() && updates@[j].1@.len() == self.rec_size(),
                self.records() == apply_updates(old(self).records(), updates@.subrange(0, i3 as int)),
            decreases updates@.len() - i3,
        {
            let ghost pre = self.records();
            let idx = updates[i3].0;
            let val = crate::bytes::copy_bytes(&updates[i3].1);
            self.elements.set(idx, val);
            proof {
                assert(self.records() =~~= pre.update(idx as int, updates@[i3 as int].1@));
                lemma_apply_updates_snoc(
                    old(self).records(),
                    updates@.subrange(0, i3 as int),
                    updates@[i3 as int],
                );
                assert(updates@.subrange(0, (i3 + 1) as int) =~= updates@.subrange(
                    0,
                    i3 as int,
                ).push(updates@[i3 as int]));
                assert(forall|j: int|
                    0 <= j < self.records().len() ==> #[trigger] self.records()[j].len()
                        == self.rec_size());
            }
            i3 = i3 + 1;
        }
        proof {
            assert(updates@.subrange(0, updates@.len() as int) =~= updates@);
        }
        Ok(())
    }

    /// Answers a packed point-function request over the current records:
    /// the request splits into one mask per query, and the concatenated XOR
    /// answers come back. A request that does not split evenly, or whose
    /// answer would not fit in memory, is rejected.
    pub fn process_request(&self, request: &Vec<u8>) -> (r: Result<Vec<u8>, PirError>)
        requires
            self.wf(),
        ensures
            ({
                let n = self.cap();
                let kcount = (request@.len() as int) / n;
                if (request@.len() as int) % n != 0 || kcount * self.rec_size() > usize::MAX {
                    r == Err::<Vec<u8>, PirError>(PirError::Processing)
                } else {
                    r matches Ok(v) && v@ == answer_keys(
                        request@,
                        self.records(),
                        self.rec_size(),
                        kcount,
                    )
                }
            }),
    {
        let n = self.capacity;
        if request.len() % n != 0 {
            return Err(PirError::Processing);
        }
        let kcount = request.len() / n;
        let rs = self.record_size;
        let over = rs > 0 && kcount > usize::MAX / rs;
        proof {
            let ki = kcount as int;
            let ri = rs as int;
            let mx = usize::MAX as int;
            if ri > 0 {
                vstd::arithmetic::div_mod::lemma_fundamental_div_mod(mx, ri);
                assert(ri * (mx / ri) == (mx / ri) * ri) by (nonlinear_arith);
                if ki <= mx / ri {
                    assert(ki * ri <= (mx / ri) * ri) by (nonlinear_arith)
                        requires
                            0 <= ki <= mx / ri,
                            ri > 0,
                    ;
                } else {
                    assert(ki * ri >= (mx / ri + 1) * ri && (mx / ri + 1) * ri == (mx / ri) * ri
                        + ri) by (nonlinear_arith)
                        requires
                            ki >= mx / ri + 1,
                            ri > 0,
                    ;
                }
            } else {
                assert(ki * ri == 0) by (nonlinear_arith)
                    requires
                        ri == 0,
                ;
            }
            assert(over <==> ki * self.rec_size() > mx);
        }
        if over {
            return Err(PirError::Processing);
        }
        proof {
            assert forall|i: int|
                0 <= i < self.elements@.len() implies (#[trigger] self.elements@[i])@.len()
                == self.record_size by {
                assert(self.records()[i].len() == self.rec_size());
            }
            vstd::arithmetic::div_mod::lemma_fundamental_div_mod(request@.len() as int, n as int);
        }
        match handle_request(request, &self.elements, self.record_size) {
            Ok(v) => Ok(v),
            Err(_) => Err(PirError::Processing),
        }
    }

    /// The stored records, borrowed.
    pub fn get_elements(&self) -> (r: &Vec<Vec<u8>>)
        ensures
            r.deep_view() == self.records(),
    {
        &self.elements
    }

    /// How many records the store holds.
    pub fn capacity(&self) -> (r: usize)
        ensures
            r == self.cap(),
    {
        self.capacity
    }
}

/// One replica of the message board: the keyed cuckoo table and the record
/// store that answers private reads over its buckets.
#[derive(Debug)]
pub struct Server {
    pir: PirServer,
    table: Table,
}

impl Server {
    /// The model of the replica's table.
    pub closed spec fn table_model(&self) -> TableModel {
        self.table@
    }

    /// The records the read path answers over.
    pub closed spec fn records(&self) -> Seq<Seq<u8>> {
        self.pir.records()
    }

    /// The store's internal consistency with the table's dimensions.
    pub closed spec fn store_ok(&self) -> bool {
        &&& self.pir.wf()
        &&& self.pir.cap() == self.table@.num_buckets
        &&& self.pir.rec_size() == self.table@.bucket_depth * self.table@.item_size
    }

    /// Well-formedness of the replica.
    pub open spec fn wf(&self) -> bool {
        &&& t_wf(self.table_model())
        &&& self.table_model().num_buckets > 0
        &&& self.table_model().bucket_depth == BUCKET_DEPTH
        &&& self.store_ok()
    }

    /// A replica over `capacity` buckets of `item_size`-byte slots whose
    /// placement keys are the two given byte strings; the table arena
    /// starts zeroed, the eviction stream from the fixed seed, and the
    /// record store with cover bytes. A capacity of zero is rejected.
    pub fn new_with_keys(capacity: usize, item_size: usize, key1: Vec<u8>, key2: Vec<u8>) -> (r:
        Result<Server, PirError>)
        requires
            capacity * BUCKET_DEPTH <= usize::MAX,
            capacity * BUCKET_DEPTH * item_size <= usize::MAX,
            BUCKET_DEPTH * item_size <= usize::MAX,
        ensures
            capacity == 0 ==> r == Err::<Server, PirError>(PirError::InvalidArgument),
            capacity > 0 ==> (r matches Ok(s) && s.wf() && s.table_model() == TableModel {
                num_buckets: capacity as int,
                bucket_depth: BUCKET_DEPTH as int,
                item_size: item_size as int,
                data: crate::bytes::zero_bytes((capacity * BUCKET_DEPTH * item_size) as nat),
                rng: crate::rng::seed_state(RANDOM_SEED),
                index: Seq::new(
                    (capacity * BUCKET_DEPTH) as nat,
                    |i: int| crate::cuckoo::empty_loc(),
                ),
                key1: key1@,
                key2: key2@,
            } && s.records().len() == capacity),
    {
        if capacity == 0 {
            return Err(PirError::InvalidArgument);
        }
        let arena = zero_vec(capacity * BUCKET_DEPTH * item_size);
        let table = match Table::new(
            capacity,
            BUCKET_DEPTH,
            item_size,
            Some(arena),
            RANDOM_SEED,
            key1,
            key2,
        ) {
            Some(t) => t,
            None => {
                return Err(PirError::InvalidArgument);
            },
        };
        let pir = match PirServer::new(capacity, BUCKET_DEPTH * item_size) {
            Ok(p) => p,
            Err(e) => {
                return Err(e);
            },
        };
        Ok(Server { pir, table })
    }

    /// A replica with the fixed placement keys.
    pub fn new(capacity: usize, item_size: usize) -> (r: Result<Server, PirError>)
        requires
            capacity * BUCKET_DEPTH <= usize::MAX,
            capacity * BUCKET_DEPTH * item_size <= usize::MAX,
            BUCKET_DEPTH * item_size <= usize::MAX,
        ensures
            capacity == 0 ==> r == Err::<Server, PirError>(PirError::InvalidArgument),
            capacity > 0 ==> (r matches Ok(s) && s.wf() && s.table_model().num_buckets == capacity
                && s.table_model().item_size == item_size && s.table_model().key1 == Seq::new(
                32,
                |i: int| 1u8,
            ) && s.table_model().key2 == Seq::new(32, |i: int| 2u8)),
    {
        let key1 = default_key(1);
        let key2 = default_key(2);
        Server::new_with_keys(capacity, item_size, key1, key2)
    }

    /// Accepts one item into the table and refreshes the read path's view
    /// of every bucket. An item the table rejects surfaces as
    /// `InvalidArgument`; a displaced item that could not be kept is handed
    /// back for the caller to handle.
    pub fn write(&mut self, item: &Item) -> (r: Result<Option<Item>, PirError>)
        requires
            old(self).wf(),
        ensures
            final(self).wf(),
            final(self).table_model().num_buckets == old(self).table_model().num_buckets,
            final(self).table_model().bucket_depth == old(self).table_model().bucket_depth,
            final(self).table_model().item_size == old(self).table_model().item_size,
            final(self).table_model().key1 == old(self).table_model().key1,
            final(self).table_model().key2 == old(self).table_model().key2,
            !item_ok(old(self).table_model(), item@) ==> r == Err::<Option<Item>, PirError>(
                PirError::InvalidArgument,
            ) && final(self).table_model() == old(self).table_model() && final(self).records()
                == old(self).records(),
            item_ok(old(self).table_model(), item@) ==> ({
                let outcome = insert_spec(old(self).table_model(), item@);
                &&& r matches Ok(opt)
                &&& final(self).table_model() == outcome.0
                &&& (match opt {
                    None => outcome.1 is None,
                    Some(d) => outcome.1 matches Some(dm) && d@ == dm,
                })
                &&& final(self).records() == bucket_records(final(self).table_model())
            }),
    {
        let displaced = match self.table.insert(item) {
            Ok(d) => d,
            Err(crate::cuckoo::Error::InvalidInput) => {
                return Err(PirError::InvalidArgument);
            },
            Err(_) => {
                return Err(PirError::TableFull);
            },
        };
        match self.update_pir_data() {
            Ok(()) => Ok(displaced),
            Err(e) => Err(e),
        }
    }

    /// Accepts a batch of items in order, then refreshes the read path's
    /// view of every bucket once. The first item the table rejects stops
    /// the batch with `InvalidArgument`, leaving the earlier inserts in the
    /// table and the read path's view as it was.
    pub fn batch_write(&mut self, items: &Vec<Item>) -> (r: Result<(), PirError>)
        requires
            old(self).wf(),
        ensures
            final(self).wf(),
            final(self).table_model().num_buckets == old(self).table_model().num_buckets,
            final(self).table_model().bucket_depth == old(self).table_model().bucket_depth,
            final(self).table_model().item_size == old(self).table_model().item_size,
            final(self).table_model().key1 == old(self).table_model().key1,
            final(self).table_model().key2 == old(self).table_model().key2,
            ({
                let out = apply_batch(old(self).table_model(), items_view(items@));
                &&& final(self).table_model() == out.0
                &&& (out.1 ==> r is Ok && final(self).records() == bucket_records(out.0))
                &&& (!out.1 ==> r == Err::<(), PirError>(PirError::InvalidArgument)
                    && final(self).records() == old(self).records())
            }),
    {
        let ghost t0 = self.table@;
        let ghost all = items_view(items@);
        proof {
            assert(all.skip(0) =~= all);
        }
        let mut k: usize = 0;
        while k < items.len()
            invariant
                old(self).wf(),
                0 <= k <= items@.len(),
                all == items_view(items@),
                t_wf(self.table@),
                self.table@.num_buckets == old(self).table_model().num_buckets,
                self.table@.bucket_depth == old(self).table_model().bucket_depth,
                self.table@.item_size == old(self).table_model().item_size,
                self.table@.key1 == old(self).table_model().key1,
                self.table@.key2 == old(self).table_model().key2,
                self.table@.num_buckets > 0,
                self.table@.bucket_depth > 0,
                self.pir == old(self).pir,
                old(self).store_ok(),
                apply_batch(old(self).table_model(), all) == apply_batch(
                    self.table@,
                    all.skip(k as int),
                ),
            decreases items@.len() - k,
        {
            let ghost pre = self.table@;
            match self.table.insert(&items[k]) {
                Ok(_) => {},
                Err(crate::cuckoo::Error::InvalidInput) => {
                    proof {
                        assert(all.skip(k as int)[0] == items@[k as int]@);
                        assert(!item_ok(pre, all.skip(k as int)[0]));
                    }
                    return Err(PirError::InvalidArgument);
                },
                Err(_) => {
                    return Err(PirError::TableFull);
                },
            }
            proof {
                assert(all.skip(k as int)[0] == items@[k as int]@);
                assert(all.skip(k as int).drop_first() =~= all.skip(k as int + 1));
            }
            k = k + 1;
        }
        proof {
            assert(all.skip(items@.len() as int) =~= Seq::<ItemModel>::empty());
        }
        match self.update_pir_data() {
            Ok(()) => Ok(()),
            Err(e) => Err(e),
        }
    }

    /// Rebuilds the record store from the table arena, bucket by bucket.
    fn update_pir_data(&mut self) -> (r: Result<(), PirError>)
        requires
            t_wf(old(self).table_model()),
            old(self).table_model().num_buckets > 0,
            old(self).store_ok(),
        ensures
            r is Ok,
            final(self).table_model() == old(self).table_model(),
            final(self).store_ok(),
            final(self).records() == bucket_records(old(self).table_model()),
    {
        let num_buckets = self.table.num_buckets;
        let dlen = self.table.data.len();
        proof {
            assert(self.table@.bucket_depth * self.table@.item_size >= 0 && self.table@.num_buckets
                * self.table@.bucket_depth * self.table@.item_size == (self.table@.num_buckets
                * self.table@.bucket_depth) * self.table@.item_size) by (nonlinear_arith);
            assert((self.table@.num_buckets * self.table@.bucket_depth) * self.table@.item_size
                == dlen) by (nonlinear_arith)
                requires
                    self.table@.index.len() == self.table@.num_buckets * self.table@.bucket_depth,
                    self.table@.data.len() == self.table@.index.len() * self.table@.item_size,
                    dlen == self.table@.data.len(),
            ;
        }
        let bucket_size = self.table.bucket_depth * self.table.item_size;
        proof {
            assert(self.table@.num_buckets * (self.table@.bucket_depth * self.table@.item_size)
                == dlen) by (nonlinear_arith)
                requires
                    (self.table@.num_buckets * self.table@.bucket_depth) * self.table@.item_size
                        == dlen,
            ;
        }
        let mut updates: Vec<(usize, Vec<u8>)> = Vec::new();
        let mut b: usize = 0;
        while b < num_buckets
            invariant
                0 <= b <= num_buckets,
                *self == *old(self),
                num_buckets == self.table@.num_buckets,
                bucket_size == self.table@.bucket_depth * self.table@.item_size,
                num_buckets as int * bucket_size as int == dlen,
                dlen == self.table@.data.len(),
                updates@.len() == b,
                forall|j: int| 0 <= j < b ==> (#[trigger] updates@[j]).0 as int == j
                    && updates@[j].1@ == bucket_records(self.table@)[j] && updates@[j].1@.len()
                    == bucket_size,
            decreases num_buckets - b,
        {
            proof {
                assert(b as int * bucket_size as int >= 0 && b as int * bucket_size as int
                    + bucket_size as int == (b + 1) as int * bucket_size as int && (b + 1) as int
                    * bucket_size as int <= num_buckets as int * bucket_size as int)
                    by (nonlinear_arith)
                    requires
                        0 <= (b as int) && (b as int) < num_buckets as int,
                        bucket_size as int >= 0,
                ;
            }
            let start = b * bucket_size;
            let chunk = subrange_vec(&self.table.data, start, start + bucket_size);
            updates.push((b, chunk));
            b = b + 1;
        }
        match self.pir.batch_write(&updates) {
            Ok(()) => {
                proof {
                    lemma_apply_all_buckets(old(self).records(), updates@, self.table@);
                }
                Ok(())
            },
            Err(e) => {
                proof {
                    assert(forall|j: int|
                        0 <= j < updates@.len() ==> ((#[trigger] updates@[j]).0 as int)
                            < old(self).pir.cap() && updates@[j].1@.len()
                            == old(self).pir.rec_size());
                    assert(false);
                }
                Err(e)
            },
        }
    }

    /// Answers one point-function request over the current bucket records.
    pub fn get(&self, request: &Vec<u8>) -> (r: Result<Vec<u8>, PirError>)
        requires
            self.wf(),
        ensures
            ({
                let n = self.table_model().num_buckets;
                let rlen = self.table_model().bucket_depth * self.table_model().item_size;
                let kcount = (request@.len() as int) / n;
                if (request@.len() as int) % n != 0 || kcount * rlen > usize::MAX {
                    r == Err::<Vec<u8>, PirError>(PirError::Processing)
                } else {
                    r matches Ok(v) && v@ == answer_keys(request@, self.records(), rlen, kcount)
                }
            }),
    {
        self.pir.process_request(request)
    }

    /// The current bucket records, borrowed.
    pub fn get_elements(&self) -> (r: &Vec<Vec<u8>>)
        ensures
            r.deep_view() == self.records(),
    {
        self.pir.get_elements()
    }

    /// The number of buckets.
    pub fn capacity(&self) -> (r: usize)
        requires
            self.wf(),
        ensures
            r == self.table_model().num_buckets,
    {
        self.pir.capacity()
    }

    /// The first placement key.
    pub fn key1(&self) -> (r: &Vec<u8>)
        ensures
            r@ == self.table_model().key1,
    {
        &self.table.key1
    }

    /// The second placement key.
    pub fn key2(&self) -> (r: &Vec<u8>)
        ensures
            r@ == self.table_model().key2,
    {
        &self.table.key2
    }
}

/// A 32-byte key of one repeated byte.
fn default_key(b: u8) -> (r: Vec<u8>)
    ensures
        r@ == Seq::new(32, |i: int| b),
{
    let mut v: Vec<u8> = Vec::new();
    let mut i: usize = 0;
    while i < 32
        invariant
            0 <= i <= 32,
            v@.len() == i,
            forall|j: int| 0 <= j < i ==> v@[j] == b,
        decreases 32 - i,
    {
        v.push(b);
        i = i + 1;
    }
    proof {
        assert(v@ =~= Seq::new(32, |i: int| b));
    }
    v
}

/// Applying, in order, one update per bucket index carrying that bucket's
/// bytes yields exactly the bucket-record view of the table.
proof fn lemma_apply_all_buckets(recs: Seq<Seq<u8>>, ups: Seq<(usize, Vec<u8>)>, t: TableModel)
    requires
        recs.len() == t.num_buckets,
        ups.len() == t.num_buckets,
        forall|j: int| 0 <= j < ups.len() ==> (#[trigger] ups[j]).0 as int == j && ups[j].1@
            == bucket_records(t)[j],
    ensures
        apply_updates(recs, ups) == bucket_records(t),
{
    lemma_apply_prefix(recs, ups, t, 0);
    assert(ups.subrange(0, ups.len() as int) =~= ups);
    assert(apply_updates(recs, ups) =~= bucket_records(t));
}

/// After applying the updates from position `from` on, records from `from`
/// on are the buckets and the earlier ones are untouched.
proof fn lemma_apply_prefix(recs: Seq<Seq<u8>>, ups: Seq<(usize, Vec<u8>)>, t: TableModel, from: int)
    requires
        recs.len() == t.num_buckets,
        0 <= from <= ups.len(),
        ups.len() == t.num_buckets,
        forall|j: int| 0 <= j < ups.len() ==> (#[trigger] ups[j]).0 as int == j && ups[j].1@
            == bucket_records(t)[j],
    ensures
        ({
            let out = apply_updates(recs, ups.subrange(from, ups.len() as int));
            &&& out.len() == recs.len()
            &&& forall|j: int| 0 <= j < from ==> #[trigger] out[j] == recs[j]
            &&& forall|j: int| from <= j < out.len() ==> #[trigger] out[j] == bucket_records(t)[j]
        }),
    decreases ups.len() - from,
{
    let tail = ups.subrange(from, ups.len() as int);
    if from < ups.len() {
        let recs2 = recs.update(from, ups[from].1@);
        assert(tail[0] == ups[from]);
        assert(tail.drop_first() =~= ups.subrange(from + 1, ups.len() as int));
        lemma_apply_prefix(recs2, ups, t, from + 1);
        let out2 = apply_updates(recs2, ups.subrange(from + 1, ups.len() as int));
        assert(apply_updates(recs, tail) == out2);
        assert(forall|j: int| 0 <= j < from ==> #[trigger] out2[j] == recs2[j]);
    }
}

} // verus!
