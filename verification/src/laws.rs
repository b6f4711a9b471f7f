//! Laws that tie the components together: the placement PRF is a function
//! of its inputs, and a written item travels intact through bucket
//! snapshots, the two servers' point-function answers and the client's
//! recombination, down to a chunk that trial decryption will find.

use vstd::prelude::*;

use crate::bytes::xor_bytes;
use crate::client::first_open;
use crate::client::first_open_in_record;
use crate::cuckoo::prf_spec;
use crate::cuckoo::t_wf;
use crate::cuckoo::TableModel;
use crate::dpf::answer_keys;
use crate::dpf::lemma_answers_recombine;
use crate::dpf::recs_wf;
use crate::dpf::seg;
use crate::dpf::share_pair;
use crate::server::bucket_records;
use crate::utils::open_blob;

verus! {

/// Law: the placement PRF is a function. Equal keys and equal sequence
/// numbers give equal values, in every process and on every machine; the
/// bucket pair of an item is therefore determined by its sequence number
/// and the two placement keys alone.
pub proof fn lemma_prf_deterministic(key1: Seq<u8>, key2: Seq<u8>, s1: u64, s2: u64)
    requires
        key1 == key2,
        s1 == s2,
    ensures
        prf_spec(key1, s1) == prf_spec(key2, s2),
{
}

/// When the scan of one record of four exact chunks comes up empty, each
/// of the four chunks fails to open.
proof fn lemma_record_four_chunks(k: Seq<u8>, b: Seq<u8>, jj: int)
    requires
        b.len() as int / 4 >= 1,
        b.len() == 4 * (b.len() as int / 4),
        first_open_in_record(k, b, 0) is None,
        0 <= jj < 4,
    ensures
        ({
            let cs = b.len() as int / 4;
            open_blob(k, b.subrange(jj * cs, (jj + 1) * cs)) is None
        }),
{
    let cs = b.len() as int / 4;
    assert(first_open_in_record(k, b, 0) is None);
    assert(first_open_in_record(k, b, cs) is None);
    assert(first_open_in_record(k, b, 2 * cs) is None);
    assert(first_open_in_record(k, b, 3 * cs) is None);
    assert(open_blob(k, b.subrange(0, cs)) is None);
    assert(open_blob(k, b.subrange(cs, 2 * cs)) is None);
    assert(open_blob(k, b.subrange(2 * cs, 3 * cs)) is None);
    assert(open_blob(k, b.subrange(3 * cs, 4 * cs)) is None);
    if jj == 0 {
        assert(jj * cs == 0 && (jj + 1) * cs == cs) by (nonlinear_arith)
            requires
                jj == 0,
        ;
    } else if jj == 1 {
        assert(jj * cs == cs && (jj + 1) * cs == 2 * cs) by (nonlinear_arith)
            requires
                jj == 1,
        ;
    } else if jj == 2 {
        assert(jj * cs == 2 * cs && (jj + 1) * cs == 3 * cs) by (nonlinear_arith)
            requires
                jj == 2,
        ;
    } else {
        assert(jj * cs == 3 * cs && (jj + 1) * cs == 4 * cs) by (nonlinear_arith)
            requires
                jj == 3,
        ;
    }
}

/// A chunk that opens at one of the four chunk positions of a record
/// forces the whole scan to return something.
proof fn lemma_scan_hit(k: Seq<u8>, resp: Seq<Seq<u8>>, j: int, jj: int)
    requires
        0 <= j < resp.len(),
        resp[j].len() as int / 4 >= 1,
        resp[j].len() == 4 * (resp[j].len() as int / 4),
        0 <= jj < 4,
        ({
            let cs = resp[j].len() as int / 4;
            open_blob(k, resp[j].subrange(jj * cs, (jj + 1) * cs)) is Some
        }),
    ensures
        first_open(k, resp, 0) is Some,
{
    if first_open(k, resp, 0) is None {
        lemma_first_open_none(k, resp, 0, j);
        lemma_record_four_chunks(k, resp[j], jj);
        assert(false);
    }
}

/// Chunk `idx` of a record, at a quarter of the record's width.
pub open spec fn chunk_at(b: Seq<u8>, idx: int) -> Seq<u8> {
    let cs = b.len() as int / 4;
    b.subrange(idx * cs, (idx + 1) * cs)
}

/// When every chunk before position `jj` fails and chunk `jj` opens to
/// `m`, the scan of that record yields exactly `m`.
proof fn lemma_record_scan_exact(k: Seq<u8>, b: Seq<u8>, jj: int, m: Seq<u8>)
    requires
        b.len() as int / 4 >= 1,
        b.len() == 4 * (b.len() as int / 4),
        0 <= jj < 4,
        open_blob(k, chunk_at(b, jj)) == Some(m),
        forall|b2: int| 0 <= b2 < jj ==> open_blob(k, #[trigger] chunk_at(b, b2)) is None,
    ensures
        first_open_in_record(k, b, 0) == Some(m),
{
    let cs = b.len() as int / 4;
    assert(chunk_at(b, 0) == b.subrange(0, cs)) by {
        assert(0 * cs == 0 && 1 * cs == cs) by (nonlinear_arith);
    }
    assert(chunk_at(b, 1) == b.subrange(cs, 2 * cs)) by {
        assert(1 * cs == cs && 2 * cs == 2 * cs) by (nonlinear_arith);
    }
    assert(chunk_at(b, 2) == b.subrange(2 * cs, 3 * cs)) by {
        assert(3 * cs == 3 * cs) by (nonlinear_arith);
    }
    assert(chunk_at(b, 3) == b.subrange(3 * cs, 4 * cs)) by {
        assert(4 * cs == 4 * cs) by (nonlinear_arith);
    }
    if jj == 0 {
        assert(first_open_in_record(k, b, 0) == Some(m));
    } else if jj == 1 {
        assert(open_blob(k, chunk_at(b, 0)) is None);
        assert(first_open_in_record(k, b, 0) == first_open_in_record(k, b, cs));
        assert(first_open_in_record(k, b, cs) == Some(m));
    } else if jj == 2 {
        assert(open_blob(k, chunk_at(b, 0)) is None);
        assert(open_blob(k, chunk_at(b, 1)) is None);
        assert(first_open_in_record(k, b, 0) == first_open_in_record(k, b, cs));
        assert(first_open_in_record(k, b, cs) == first_open_in_record(k, b, 2 * cs));
        assert(first_open_in_record(k, b, 2 * cs) == Some(m));
    } else {
        assert(open_blob(k, chunk_at(b, 0)) is None);
        assert(open_blob(k, chunk_at(b, 1)) is None);
        assert(open_blob(k, chunk_at(b, 2)) is None);
        assert(first_open_in_record(k, b, 0) == first_open_in_record(k, b, cs));
        assert(first_open_in_record(k, b, cs) == first_open_in_record(k, b, 2 * cs));
        assert(first_open_in_record(k, b, 2 * cs) == first_open_in_record(k, b, 3 * cs));
        assert(first_open_in_record(k, b, 3 * cs) == Some(m));
    }
}

/// When all four chunks fail, the scan of that record yields nothing.
proof fn lemma_record_scan_misses(k: Seq<u8>, b: Seq<u8>)
    requires
        b.len() as int / 4 >= 1,
        b.len() == 4 * (b.len() as int / 4),
        forall|b2: int| 0 <= b2 < 4 ==> open_blob(k, #[trigger] chunk_at(b, b2)) is None,
    ensures
        first_open_in_record(k, b, 0) is None,
{
    let cs = b.len() as int / 4;
    assert(chunk_at(b, 0) == b.subrange(0, cs)) by {
        assert(0 * cs == 0 && 1 * cs == cs) by (nonlinear_arith);
    }
    assert(chunk_at(b, 1) == b.subrange(cs, 2 * cs)) by {
        assert(1 * cs == cs) by (nonlinear_arith);
    }
    assert(chunk_at(b, 2) == b.subrange(2 * cs, 3 * cs)) by {
        assert(3 * cs == 3 * cs) by (nonlinear_arith);
    }
    assert(chunk_at(b, 3) == b.subrange(3 * cs, 4 * cs)) by {
        assert(4 * cs == 4 * cs) by (nonlinear_arith);
    }
    assert(open_blob(k, chunk_at(b, 0)) is None);
    assert(open_blob(k, chunk_at(b, 1)) is None);
    assert(open_blob(k, chunk_at(b, 2)) is None);
    assert(open_blob(k, chunk_at(b, 3)) is None);
    assert(first_open_in_record(k, b, 4 * cs) is None);
    assert(first_open_in_record(k, b, 3 * cs) is None);
    assert(first_open_in_record(k, b, 2 * cs) is None);
    assert(first_open_in_record(k, b, cs) is None);
    assert(first_open_in_record(k, b, 0) is None);
}

/// Over a pair of records, a scan that meets only failures before the
/// target chunk returns exactly what the target opens to.
proof fn lemma_scan_exact_pair(k: Seq<u8>, resp: Seq<Seq<u8>>, j: int, jj: int, m: Seq<u8>)
    requires
        resp.len() == 2,
        forall|a: int| 0 <= a < 2 ==> (#[trigger] resp[a]).len() as int / 4 >= 1 && resp[a].len()
            == 4 * (resp[a].len() as int / 4),
        0 <= j < 2,
        0 <= jj < 4,
        open_blob(k, chunk_at(resp[j], jj)) == Some(m),
        forall|a: int, b2: int|
            0 <= a < 2 && 0 <= b2 < 4 && (a < j || (a == j && b2 < jj)) ==> open_blob(
                k,
                #[trigger] chunk_at(resp[a], b2),
            ) is None,
    ensures
        first_open(k, resp, 0) == Some(m),
{
    if j == 0 {
        lemma_record_scan_exact(k, resp[0], jj, m);
    } else {
        lemma_record_scan_misses(k, resp[0]);
        lemma_record_scan_exact(k, resp[1], jj, m);
        assert(first_open(k, resp, 1) == Some(m));
    }
}

/// If the whole scan is empty, so is every record's scan from the start.
proof fn lemma_first_open_none(k: Seq<u8>, resp: Seq<Seq<u8>>, from: int, j: int)
    requires
        first_open(k, resp, from) is None,
        0 <= from <= j < resp.len(),
    ensures
        first_open_in_record(k, resp[j], 0) is None,
    decreases j - from,
{
    if from < j {
        lemma_first_open_none(k, resp, from + 1, j);
    }
}

/// Law: write-to-read round trip. Take a well-formed table whose bucket
/// records are what both servers answer over, a slot holding a stored
/// payload, and an honest share pair for two bucket indices, one of which
/// is the slot's bucket. Then the client's recombination of the two
/// answers yields exactly the two queried bucket records; the stored
/// payload sits, chunk-aligned, inside the reconstructed record of its
/// bucket; and if that payload opens to a message under the reader's key,
/// the trial-decryption scan over the reconstructed records returns a
/// message. The scan yields that message itself as soon as no
/// earlier-visited chunk authenticates, which, under the reader's key,
/// fails for anything but the peer's own ciphertexts except with
/// negligible probability.
pub proof fn lemma_write_read_round_trip(
    t: TableModel,
    req1: Seq<u8>,
    req2: Seq<u8>,
    b1: int,
    b2: int,
    si: int,
    k: Seq<u8>,
    m: Seq<u8>,
)
    requires
        t_wf(t),
        t.num_buckets > 0,
        t.bucket_depth == 4,
        t.item_size > 0,
        0 <= b1 < t.num_buckets,
        0 <= b2 < t.num_buckets,
        share_pair(req1, req2, seq![b1, b2], t.num_buckets),
        0 <= si < t.index.len(),
        si / t.bucket_depth == b1 || si / t.bucket_depth == b2,
        open_blob(k, t.data.subrange(si * t.item_size, (si + 1) * t.item_size)) == Some(m),
    ensures
        ({
            let rlen = t.bucket_depth * t.item_size;
            let recs = bucket_records(t);
            let resp1 = answer_keys(req1, recs, rlen, 2);
            let resp2 = answer_keys(req2, recs, rlen, 2);
            let combined = seq![
                xor_bytes(seg(resp1, 0, rlen), seg(resp2, 0, rlen)),
                xor_bytes(seg(resp1, 1, rlen), seg(resp2, 1, rlen)),
            ];
            &&& combined[0] == recs[b1]
            &&& combined[1] == recs[b2]
            &&& recs[si / t.bucket_depth].subrange(
                (si % t.bucket_depth) * t.item_size,
                (si % t.bucket_depth + 1) * t.item_size,
            ) == t.data.subrange(si * t.item_size, (si + 1) * t.item_size)
            &&& first_open(k, combined, 0) is Some
            &&& ({
                let ji = if si / t.bucket_depth == b1 {
                    0int
                } else {
                    1int
                };
                let off = si % t.bucket_depth;
                (forall|a: int, b2: int|
                    0 <= a < 2 && 0 <= b2 < 4 && !(a == ji && b2 == off) ==> open_blob(
                        k,
                        #[trigger] chunk_at(combined[a], b2),
                    ) is None) ==> first_open(k, combined, 0) == Some(m)
            })
        }),
{
    let d = t.bucket_depth;
    let w = t.item_size;
    let rlen = d * w;
    let n = t.num_buckets;
    let recs = bucket_records(t);
    let resp1 = answer_keys(req1, recs, rlen, 2);
    let resp2 = answer_keys(req2, recs, rlen, 2);
    let combined = seq![
        xor_bytes(seg(resp1, 0, rlen), seg(resp2, 0, rlen)),
        xor_bytes(seg(resp1, 1, rlen), seg(resp2, 1, rlen)),
    ];
    let bstar = si / d;
    let off = si % d;

    // The bucket records are uniform and the recombination yields the two
    // queried buckets.
    assert(rlen >= 0) by (nonlinear_arith)
        requires
            rlen == d * w,
            d > 0,
            w > 0,
    ;
    assert(recs.len() == n);
    assert forall|i: int| 0 <= i < recs.len() implies (#[trigger] recs[i]).len() == rlen by {
        assert(0 <= i * rlen && i * rlen + rlen == (i + 1) * rlen && (i + 1) * rlen <= n * rlen)
            by (nonlinear_arith)
            requires
                0 <= i < n,
                rlen >= 0,
        ;
        assert(t.data.len() == n * rlen) by (nonlinear_arith)
            requires
                t.index.len() == t.num_buckets * t.bucket_depth,
                t.data.len() == t.index.len() * t.item_size,
                rlen == t.bucket_depth * t.item_size,
                n == t.num_buckets,
                d == t.bucket_depth,
                w == t.item_size,
        ;
    }
    assert(recs_wf(recs, rlen));
    let indices = seq![b1, b2];
    lemma_answers_recombine(req1, req2, indices, recs, rlen);
    assert(combined[0] == recs[b1]) by {
        assert(indices[0] == b1);
        assert(xor_bytes(seg(resp1, 0, rlen), seg(resp2, 0, rlen)) == recs[indices[0]]);
    }
    assert(combined[1] == recs[b2]) by {
        assert(indices[1] == b2);
        assert(xor_bytes(seg(resp1, 1, rlen), seg(resp2, 1, rlen)) == recs[indices[1]]);
    }

    // The stored slot sits chunk-aligned inside its bucket's record.
    vstd::arithmetic::div_mod::lemma_fundamental_div_mod(si, d);
    assert(si == d * bstar + off);
    assert(0 <= off < d);
    assert(0 <= bstar < n) by (nonlinear_arith)
        requires
            si == d * bstar + off,
            0 <= off < d,
            0 <= si < n * d,
            d > 0,
            t.index.len() == n * d,
    ;
    assert(bstar * rlen + off * w == si * w && bstar * rlen + off * w + w == si * w + w && (off
        + 1) * w == off * w + w && (si + 1) * w == si * w + w && 0 <= off * w && off * w + w
        <= rlen && 0 <= bstar * rlen && (bstar + 1) * rlen == bstar * rlen + rlen && (bstar + 1)
        * rlen <= n * rlen) by (nonlinear_arith)
        requires
            si == d * bstar + off,
            rlen == d * w,
            0 <= off < d,
            0 <= bstar < n,
            w >= 0,
            d > 0,
    ;
    assert(t.data.len() == n * rlen) by (nonlinear_arith)
        requires
            t.index.len() == n * d,
            t.data.len() == t.index.len() * w,
            rlen == d * w,
    ;
    assert(recs[bstar] == t.data.subrange(bstar * rlen, (bstar + 1) * rlen));
    assert(recs[bstar].subrange(off * w, (off + 1) * w) =~= t.data.subrange(si * w, (si + 1) * w));

    // The chunk at the slot's offset opens, so the scan finds something.
    let ji = if bstar == b1 {
        0int
    } else {
        1int
    };
    assert(combined[ji] == recs[bstar]);
    assert(combined[ji].len() == rlen);
    assert(combined[ji].len() as int / 4 == w) by {
        assert(rlen == 4 * w) by (nonlinear_arith)
            requires
                rlen == d * w,
                d == 4,
        ;
        assert((4 * w) / 4 == w) by {
            vstd::arithmetic::div_mod::lemma_fundamental_div_mod_converse(4 * w, 4, w, 0);
        }
    }
    assert(combined[ji].len() == 4 * (combined[ji].len() as int / 4)) by {
        assert(rlen == 4 * w) by (nonlinear_arith)
            requires
                rlen == d * w,
                d == 4,
        ;
    }
    assert(({
        let cs = combined[ji].len() as int / 4;
        open_blob(k, combined[ji].subrange(off * cs, (off + 1) * cs)) is Some
    })) by {
        assert(combined[ji].subrange(off * w, (off + 1) * w) == t.data.subrange(
            si * w,
            (si + 1) * w,
        ));
    }
    lemma_scan_hit(k, combined, ji, off);
    assert(chunk_at(combined[ji], off) == t.data.subrange(si * w, (si + 1) * w)) by {
        assert(combined[ji].len() as int / 4 == w);
        assert(combined[ji].subrange(off * w, (off + 1) * w) == t.data.subrange(
            si * w,
            (si + 1) * w,
        ));
    }
    if forall|a: int, b2: int|
        0 <= a < 2 && 0 <= b2 < 4 && !(a == ji && b2 == off) ==> open_blob(
            k,
            #[trigger] chunk_at(combined[a], b2),
        ) is None {
        assert(combined[0].len() == rlen && combined[1].len() == rlen);
        assert(rlen == 4 * (rlen / 4)) by {
            assert(rlen == 4 * w) by (nonlinear_arith)
                requires
                    rlen == d * w,
                    d == 4,
            ;
            assert((4 * w) / 4 == w) by {
                vstd::arithmetic::div_mod::lemma_fundamental_div_mod_converse(4 * w, 4, w, 0);
            }
        }
        lemma_scan_exact_pair(k, combined, ji, off, m);
    }
}

} // verus!
