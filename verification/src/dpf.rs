//! Two-server distributed point function over byte records.
//!
//! A query for index `i` of a domain of size `n` is a pair of length-`n`
//! mask arrays that agree everywhere except at position `i`, where their low
//! bits differ; each array alone is a uniformly random mask. A server
//! answers with the XOR of the records its mask selects, and the XOR of the
//! two answers is exactly the record at `i` — proved below as the
//! correctness law of the scheme.

use vstd::prelude::*;

use crate::bytes::copy_bytes;
use crate::bytes::subrange_vec;
use crate::bytes::xor_bytes;
use crate::bytes::xor_vecs;
use crate::bytes::zero_bytes;
use crate::bytes::zero_vec;
use crate::crypto::random_bytes;
use std::borrow::ToOwned;

verus! {

/// Configuration of a point-function endpoint.
#[derive(Debug, Clone, Copy, PartialEq, Eq, Structural)]
pub struct DpfPirConfig {
    pub database_size: u64,
}

/// Status codes of the point-function layer.
#[derive(Debug, Clone, Copy, PartialEq, Eq, Structural)]
pub enum DpfPirStatus {
    Success,
    InvalidArgument,
    FailedPrecondition,
    OutOfMemory,
    InternalError,
}

/// An error of the point-function layer, carrying a description.
#[derive(Debug, Clone, PartialEq)]
pub struct DpfError {
    message: String,
}

impl View for DpfError {
    type V = Seq<char>;

    closed spec fn view(&self) -> Seq<char> {
        self.message@
    }
}

impl DpfError {
    pub fn new(message: String) -> (r: DpfError)
        ensures
            r@ == message@,
    {
        DpfError { message }
    }

    /// The error's description.
    pub fn message(&self) -> (r: String)
        ensures
            r@ == self@,
    {
        self.message.clone()
    }
}

/// Whether a mask byte selects its record: its low bit.
pub open spec fn mask_on(b: u8) -> bool {
    b & 1 == 1
}

/// XOR-fold of the first `k` records that the key's mask selects.
pub open spec fn eval_prefix(key: Seq<u8>, recs: Seq<Seq<u8>>, k: int, rlen: int) -> Seq<u8>
    decreases k,
{
    if k <= 0 {
        zero_bytes(rlen as nat)
    } else {
        let prev = eval_prefix(key, recs, k - 1, rlen);
        if mask_on(key[k - 1]) {
            xor_bytes(prev, recs[k - 1])
        } else {
            prev
        }
    }
}

/// A server's whole answer for one mask key: the XOR of the records the
/// mask selects.
pub open spec fn eval_key(key: Seq<u8>, recs: Seq<Seq<u8>>, rlen: int) -> Seq<u8> {
    eval_prefix(key, recs, recs.len() as int, rlen)
}

/// Every record has the given length.
pub open spec fn recs_wf(recs: Seq<Seq<u8>>, rlen: int) -> bool {
    forall|i: int| 0 <= i < recs.len() ==> #[trigger] recs[i].len() == rlen
}

/// Segment `j` of width `n` of a flat byte string.
pub open spec fn seg(s: Seq<u8>, j: int, n: int) -> Seq<u8> {
    s.subrange(j * n, (j + 1) * n)
}

/// The two request blobs form an honest share pair for the queried
/// indices: segment by segment, the helper's mask is the leader's with the
/// low bit flipped exactly at the queried index.
pub open spec fn share_pair(req_l: Seq<u8>, req_h: Seq<u8>, indices: Seq<int>, n: int) -> bool {
    &&& req_l.len() == indices.len() * n
    &&& req_h.len() == req_l.len()
    &&& forall|j: int| 0 <= j < indices.len() ==> #[trigger] seg(req_h, j, n) == seg(
        req_l,
        j,
        n,
    ).update(indices[j], (seg(req_l, j, n)[indices[j]] ^ 1) as u8)
}

/// The concatenated answers for the first `kcount` mask keys packed in
/// `req`, each of width `n == recs.len()`.
pub open spec fn answer_keys(req: Seq<u8>, recs: Seq<Seq<u8>>, rlen: int, kcount: int) -> Seq<u8>
    decreases kcount,
{
    if kcount <= 0 {
        Seq::empty()
    } else {
        answer_keys(req, recs, rlen, kcount - 1) + eval_key(
            seg(req, kcount - 1, recs.len() as int),
            recs,
            rlen,
        )
    }
}

proof fn lemma_subrange_unchanged_after_update(s: Seq<u8>, pos: int, v: u8, a: int, b: int)
    requires
        0 <= a <= b <= s.len(),
        0 <= pos < s.len(),
        pos < a || b <= pos,
    ensures
        s.update(pos, v).subrange(a, b) == s.subrange(a, b),
{
    assert(s.update(pos, v).subrange(a, b) =~= s.subrange(a, b));
}

pub proof fn lemma_eval_prefix_len(key: Seq<u8>, recs: Seq<Seq<u8>>, k: int, rlen: int)
    requires
        rlen >= 0,
    ensures
        eval_prefix(key, recs, k, rlen).len() == rlen,
    decreases k,
{
    if k > 0 {
        lemma_eval_prefix_len(key, recs, k - 1, rlen);
    }
}

proof fn lemma_xor_absorb(f: Seq<u8>, r: Seq<u8>)
    requires
        f.len() == r.len(),
    ensures
        xor_bytes(xor_bytes(f, r), f) == r,
        xor_bytes(f, xor_bytes(f, r)) == r,
    decreases f.len(),
{
    assert forall|i: int| 0 <= i < f.len() implies (((f[i] ^ r[i]) as u8) ^ f[i]) == r[i] && (f[i]
        ^ ((f[i] ^ r[i]) as u8)) == r[i] by {
        let x = f[i];
        let y = r[i];
        assert(((x ^ y) ^ x) == y && (x ^ (x ^ y)) == y) by (bit_vector);
    }
    assert(xor_bytes(xor_bytes(f, r), f) =~= r);
    assert(xor_bytes(f, xor_bytes(f, r)) =~= r);
}

proof fn lemma_xor_cancel_common(a: Seq<u8>, b: Seq<u8>, c: Seq<u8>)
    requires
        a.len() == b.len() == c.len(),
    ensures
        xor_bytes(xor_bytes(a, c), xor_bytes(b, c)) == xor_bytes(a, b),
{
    assert forall|i: int| 0 <= i < a.len() implies (((a[i] ^ c[i]) as u8) ^ ((b[i] ^ c[i]) as u8))
        == (a[i] ^ b[i]) by {
        let x = a[i];
        let y = b[i];
        let z = c[i];
        assert(((x ^ z) ^ (y ^ z)) == (x ^ y)) by (bit_vector);
    }
    assert(xor_bytes(xor_bytes(a, c), xor_bytes(b, c)) =~= xor_bytes(a, b));
}

proof fn lemma_flip_changes_mask(b: u8)
    ensures
        mask_on((b ^ 1) as u8) == !mask_on(b),
{
    assert(((b ^ 1) & 1 == 1) == !(b & 1 == 1)) by (bit_vector);
}

proof fn lemma_dpf_eval_prefix(key1: Seq<u8>, key2: Seq<u8>, recs: Seq<Seq<u8>>, i: int, rlen: int, k: int)
    requires
        recs_wf(recs, rlen),
        rlen >= 0,
        key1.len() == recs.len(),
        0 <= i < recs.len(),
        key2 == key1.update(i, (key1[i] ^ 1) as u8),
        0 <= k <= recs.len(),
    ensures
        k <= i ==> eval_prefix(key2, recs, k, rlen) == eval_prefix(key1, recs, k, rlen),
        k > i ==> xor_bytes(eval_prefix(key1, recs, k, rlen), eval_prefix(key2, recs, k, rlen))
            == recs[i],
    decreases k,
{
    if k > 0 {
        lemma_dpf_eval_prefix(key1, key2, recs, i, rlen, k - 1);
        let p1 = eval_prefix(key1, recs, k - 1, rlen);
        let p2 = eval_prefix(key2, recs, k - 1, rlen);
        lemma_eval_prefix_len(key1, recs, k - 1, rlen);
        lemma_eval_prefix_len(key2, recs, k - 1, rlen);
        if k - 1 == i {
            lemma_flip_changes_mask(key1[i]);
            if mask_on(key1[i]) {
                lemma_xor_absorb(p1, recs[i]);
                assert(xor_bytes(xor_bytes(p1, recs[i]), p2) == recs[i]);
            } else {
                lemma_xor_absorb(p1, recs[i]);
            }
        } else if k - 1 < i {
        } else {
            if mask_on(key1[k - 1]) {
                lemma_xor_cancel_common(p1, p2, recs[k - 1]);
            }
        }
    }
}

/// Law: point-function correctness. For an honest key pair for index `i`
/// (equal masks except the flipped low bit at `i`) over any record array of
/// uniform width, the XOR of the two servers' answers is exactly the record
/// at `i`.
pub proof fn lemma_dpf_correctness(key1: Seq<u8>, key2: Seq<u8>, recs: Seq<Seq<u8>>, i: int, rlen: int)
    requires
        recs_wf(recs, rlen),
        rlen >= 0,
        key1.len() == recs.len(),
        0 <= i < recs.len(),
        key2 == key1.update(i, (key1[i] ^ 1) as u8),
    ensures
        xor_bytes(eval_key(key1, recs, rlen), eval_key(key2, recs, rlen)) == recs[i],
{
    lemma_dpf_eval_prefix(key1, key2, recs, i, rlen, recs.len() as int);
}

/// The XOR of the records selected by the mask key.
pub fn eval_mask(key: &Vec<u8>, records: &Vec<Vec<u8>>, record_len: usize) -> (r: Vec<u8>)
    requires
        key@.len() == records@.len(),
        forall|i: int| 0 <= i < records@.len() ==> #[trigger] records@[i]@.len() == record_len,
    ensures
        r@ == eval_key(key@, records.deep_view(), record_len as int),
{
    let mut acc = zero_vec(record_len);
    let mut i: usize = 0;
    proof {
        lemma_eval_prefix_len(key@, records.deep_view(), 0, record_len as int);
    }
    while i < key.len()
        invariant
            0 <= i <= key@.len(),
            key@.len() == records@.len(),
            forall|j: int| 0 <= j < records@.len() ==> #[trigger] records@[j]@.len() == record_len,
            acc@ == eval_prefix(key@, records.deep_view(), i as int, record_len as int),
            acc@.len() == record_len,
        decreases key@.len() - i,
    {
        if key[i] & 1 == 1 {
            acc = xor_vecs(&acc, &records[i]);
        }
        proof {
            lemma_eval_prefix_len(key@, records.deep_view(), (i + 1) as int, record_len as int);
            assert(records.deep_view()[i as int] == records@[i as int]@);
        }
        i = i + 1;
    }
    acc
}

/// One private query: the two request blobs for the servers and the state
/// the client keeps to recombine their answers.
pub struct DpfPirRequest {
    pub leader_request: Vec<u8>,
    pub helper_request: Vec<u8>,
    pub client_state: Vec<u8>,
}

/// Client endpoint of the point-function scheme, bound to a domain size.
pub struct DpfPirClient {
    database_size: usize,
}

impl DpfPirClient {
    /// The domain size the client was built for.
    pub closed spec fn size(&self) -> int {
        self.database_size as int
    }

    /// A client for a domain of `database_size` records; a size of zero is
    /// rejected.
    pub fn new(database_size: usize) -> (r: Result<DpfPirClient, DpfError>)
        ensures
            database_size > 0 ==> (r matches Ok(c) && c.size() == database_size),
            database_size == 0 ==> r is Err,
    {
        if database_size == 0 {
            return Err(DpfError::new("database size must be positive".to_owned()));
        }
        Ok(DpfPirClient { database_size })
    }

    /// Builds the share pair for the queried indices: a fresh random mask
    /// array for the leader, and the helper's copy with the low bit flipped
    /// at each queried index. Fails exactly when an index is outside the
    /// domain.
    pub fn create_request(&self, indices: &Vec<usize>) -> (r: Result<DpfPirRequest, DpfError>)
        requires
            indices@.len() * self.size() <= usize::MAX,
        ensures
            (forall|j: int| 0 <= j < indices@.len() ==> (#[trigger] indices@[j]) < self.size())
                <==> r is Ok,
            r matches Ok(req) ==> share_pair(
                req.leader_request@,
                req.helper_request@,
                indices@.map_values(|v: usize| v as int),
                self.size(),
            ) && req.client_state@.len() == indices@.len(),
    {
        let n = self.database_size;
        let kcount = indices.len();
        let mut j: usize = 0;
        while j < kcount
            invariant
                0 <= j <= kcount,
                kcount == indices@.len(),
                n == self.size(),
                forall|jj: int| 0 <= jj < j ==> (#[trigger] indices@[jj]) < n,
            decreases kcount - j,
        {
            if indices[j] >= n {
                return Err(DpfError::new("index outside the domain".to_owned()));
            }
            j = j + 1;
        }
        proof {
            assert(kcount as int * n as int >= 0) by (nonlinear_arith)
                requires
                    kcount as int >= 0,
                    n as int >= 0,
            ;
        }
        let total = kcount * n;
        let leader = random_bytes(total);
        let mut helper = copy_bytes(&leader);
        let ghost gidx = indices@.map_values(|v: usize| v as int);
        let mut j2: usize = 0;
        while j2 < kcount
            invariant
                0 <= j2 <= kcount,
                kcount == indices@.len(),
                gidx == indices@.map_values(|v: usize| v as int),
                n == self.size(),
                n > 0 || kcount == 0 || j2 == 0,
                forall|jj: int| 0 <= jj < kcount ==> (#[trigger] indices@[jj]) < n,
                leader@.len() == kcount as int * n as int,
                total == kcount as int * n as int,
                helper@.len() == leader@.len(),
                forall|jj: int| 0 <= jj < j2 ==> #[trigger] seg(helper@, jj, n as int) == seg(
                    leader@,
                    jj,
                    n as int,
                ).update(gidx[jj], (seg(leader@, jj, n as int)[gidx[jj]] ^ 1) as u8),
                forall|p: int| j2 as int * n as int <= p < leader@.len() ==> #[trigger] helper@[p]
                    == leader@[p],
            decreases kcount - j2,
        {
            proof {
                assert(j2 as int * n as int >= 0 && j2 as int * n as int + n as int == (j2 + 1) as int
                    * n as int && (j2 + 1) as int * n as int <= kcount as int * n as int)
                    by (nonlinear_arith)
                    requires
                        0 <= (j2 as int) && (j2 as int) < kcount as int,
                        n as int >= 0,
                ;
            }
            let pos = j2 * n + indices[j2];
            let ghost pre = helper@;
            proof {
                assert(j2 as int * n as int <= pos as int && (pos as int) < (j2 + 1) as int * n as int);
                assert((pos as int) < helper@.len());
            }
            let flipped = helper[pos] ^ 1;
            helper.set(pos, flipped);
            proof {
                let ni = n as int;
                let p0 = j2 as int * ni;
                assert forall|jj: int| 0 <= jj < j2 as int implies #[trigger] seg(helper@, jj, ni)
                    == seg(leader@, jj, ni).update(
                    gidx[jj],
                    (seg(leader@, jj, ni)[gidx[jj]] ^ 1) as u8,
                ) by {
                    assert(0 <= jj * ni && jj * ni + ni == (jj + 1) * ni && (jj + 1) * ni
                        <= j2 as int * ni) by (nonlinear_arith)
                        requires
                            0 <= jj < j2 as int,
                            ni >= 0,
                    ;
                    assert((jj + 1) * ni <= pos as int);
                    assert(pre.len() == kcount as int * ni);
                    assert((jj + 1) * ni <= j2 as int * ni + ni);
                    assert(j2 as int * ni + ni == (j2 + 1) as int * ni);
                    assert((jj + 1) * ni <= kcount as int * ni);
                    assert(helper@ == pre.update(pos as int, flipped));
                    lemma_subrange_unchanged_after_update(
                        pre,
                        pos as int,
                        flipped,
                        jj * ni,
                        (jj + 1) * ni,
                    );
                    assert(seg(helper@, jj, ni) == seg(pre, jj, ni));
                    assert(seg(pre, jj, ni) == seg(leader@, jj, ni).update(
                        gidx[jj],
                        (seg(leader@, jj, ni)[gidx[jj]] ^ 1) as u8,
                    ));
                }
                assert(seg(helper@, j2 as int, ni) =~= seg(leader@, j2 as int, ni).update(
                    gidx[j2 as int],
                    (seg(leader@, j2 as int, ni)[gidx[j2 as int]] ^ 1) as u8,
                ));
                assert forall|p: int| (j2 + 1) as int * ni <= p < leader@.len() implies #[trigger]
                    helper@[p] == leader@[p] by {
                    assert(helper@[p] == pre[p]);
                }
            }
            j2 = j2 + 1;
        }
        let mut state: Vec<u8> = Vec::new();
        let mut j3: usize = 0;
        while j3 < kcount
            invariant
                state@.len() == j3,
                0 <= j3 <= kcount,
            decreases kcount - j3,
        {
            state.push(1u8);
            j3 = j3 + 1;
        }
        Ok(DpfPirRequest { leader_request: leader, helper_request: helper, client_state: state })
    }

    /// Recombines the two servers' answers: pairwise XOR, split into one
    /// record per queried index. Fails exactly when the two answers differ
    /// in length or their length does not divide evenly among the queries.
    pub fn handle_response(
        &self,
        response1: &Vec<u8>,
        response2: &Vec<u8>,
        client_state: &Vec<u8>,
    ) -> (r: Result<Vec<Vec<u8>>, DpfError>)
        ensures
            ({
                let k = client_state@.len() as int;
                let len = response1@.len() as int;
                if response1@.len() != response2@.len() {
                    r is Err
                } else if k == 0 {
                    if len == 0 {
                        r matches Ok(v) && v@.len() == 0
                    } else {
                        r is Err
                    }
                } else if len % k != 0 {
                    r is Err
                } else {
                    r matches Ok(v) && v@.len() == k && (forall|j: int|
                        0 <= j < k ==> (#[trigger] v@[j])@ == xor_bytes(
                            seg(response1@, j, len / k),
                            seg(response2@, j, len / k),
                        ))
                }
            }),
    {
        if response1.len() != response2.len() {
            return Err(DpfError::new("mismatched response lengths".to_owned()));
        }
        let k = client_state.len();
        if k == 0 {
            if response1.len() == 0 {
                return Ok(Vec::new());
            }
            return Err(DpfError::new("answers for no queries".to_owned()));
        }
        if response1.len() % k != 0 {
            return Err(DpfError::new("response length does not divide".to_owned()));
        }
        let m = response1.len() / k;
        proof {
            vstd::arithmetic::div_mod::lemma_fundamental_div_mod(
                response1@.len() as int,
                k as int,
            );
            assert(response1@.len() as int == (k as int) * (m as int));
            assert((k as int) * (m as int) == (m as int) * (k as int)) by (nonlinear_arith);
        }
        let mut out: Vec<Vec<u8>> = Vec::new();
        let mut j: usize = 0;
        while j < k
            invariant
                0 <= j <= k,
                k == client_state@.len(),
                response1@.len() == response2@.len(),
                k as int * m as int == response1@.len(),
                m == response1@.len() as int / k as int,
                response1@.len() <= usize::MAX,
                out@.len() == j,
                forall|jj: int| 0 <= jj < j ==> (#[trigger] out@[jj])@ == xor_bytes(
                    seg(response1@, jj, m as int),
                    seg(response2@, jj, m as int),
                ),
            decreases k - j,
        {
            proof {
                assert(j as int * m as int >= 0 && j as int * m as int + m as int == (j + 1) as int
                    * m as int && (j + 1) as int * m as int <= k as int * m as int)
                    by (nonlinear_arith)
                    requires
                        0 <= (j as int) && (j as int) < k as int,
                        m as int >= 0,
                ;
            }
            let a = subrange_vec(response1, j * m, j * m + m);
            let b = subrange_vec(response2, j * m, j * m + m);
            let c = xor_vecs(&a, &b);
            out.push(c);
            j = j + 1;
        }
        Ok(out)
    }
}

/// A server's handling of a packed request: the request is split into mask
/// keys of the domain width, and the concatenated XOR answers come back.
/// Fails exactly when the request does not split evenly.
pub fn handle_request(request: &Vec<u8>, records: &Vec<Vec<u8>>, record_len: usize) -> (r: Result<
    Vec<u8>,
    DpfError,
>)
    requires
        records@.len() > 0,
        forall|i: int| 0 <= i < records@.len() ==> #[trigger] records@[i]@.len() == record_len,
        ((request@.len() as int) / (records@.len() as int)) * (record_len as int) <= usize::MAX,
    ensures
        ({
            let n = records@.len() as int;
            if (request@.len() as int) % n != 0 {
                r is Err
            } else {
                r matches Ok(v) && v@ == answer_keys(
                    request@,
                    records.deep_view(),
                    record_len as int,
                    (request@.len() as int) / n,
                )
            }
        }),
{
    let n = records.len();
    if request.len() % n != 0 {
        return Err(DpfError::new("request length does not divide the domain".to_owned()));
    }
    let kcount = request.len() / n;
    proof {
        vstd::arithmetic::div_mod::lemma_fundamental_div_mod(request@.len() as int, n as int);
        assert(request@.len() as int == (n as int) * (kcount as int));
        assert((kcount as int) * (n as int) == (n as int) * (kcount as int)) by (nonlinear_arith);
    }
    let mut out: Vec<u8> = Vec::new();
    let mut j: usize = 0;
    while j < kcount
        invariant
            0 <= j <= kcount,
            n == records@.len(),
            n > 0,
            forall|i: int| 0 <= i < records@.len() ==> #[trigger] records@[i]@.len() == record_len,
            kcount as int * n as int == request@.len(),
            kcount == request@.len() as int / n as int,
            request@.len() <= usize::MAX,
            j as int * record_len as int <= kcount as int * record_len as int,
            kcount as int * record_len as int <= usize::MAX,
            out@.len() == j as int * record_len as int,
            out@ == answer_keys(request@, records.deep_view(), record_len as int, j as int),
        decreases kcount - j,
    {
        proof {
            assert(j as int * n as int >= 0 && j as int * n as int + n as int == (j + 1) as int
                * n as int && (j + 1) as int * n as int <= kcount as int * n as int && (j + 1) as int
                * record_len as int == j as int * record_len as int + record_len as int && (j
                + 1) as int * record_len as int <= kcount as int * record_len as int)
                by (nonlinear_arith)
                requires
                    0 <= (j as int) && (j as int) < kcount as int,
                    n as int >= 0,
                    record_len as int >= 0,
            ;
        }
        let key = subrange_vec(request, j * n, j * n + n);
        let mut part = eval_mask(&key, records, record_len);
        proof {
            lemma_eval_prefix_len(key@, records.deep_view(), records@.len() as int, record_len as int);
            assert(key@ == seg(request@, j as int, n as int));
        }
        out.append(&mut part);
        j = j + 1;
    }
    Ok(out)
}

/// Law: recombination round trip. For an honest share pair over in-range
/// indices and a uniform record array, the XOR of the two servers' answers,
/// segment by segment, is exactly the records at the queried indices.
pub proof fn lemma_answers_recombine(
    req_l: Seq<u8>,
    req_h: Seq<u8>,
    indices: Seq<int>,
    recs: Seq<Seq<u8>>,
    rlen: int,
)
    requires
        recs_wf(recs, rlen),
        rlen >= 0,
        recs.len() > 0,
        share_pair(req_l, req_h, indices, recs.len() as int),
        forall|j: int| 0 <= j < indices.len() ==> 0 <= #[trigger] indices[j] < recs.len(),
    ensures
        ({
            let ans_l = answer_keys(req_l, recs, rlen, indices.len() as int);
            let ans_h = answer_keys(req_h, recs, rlen, indices.len() as int);
            &&& ans_l.len() == indices.len() * rlen
            &&& ans_h.len() == indices.len() * rlen
            &&& forall|j: int| 0 <= j < indices.len() ==> xor_bytes(
                #[trigger] seg(ans_l, j, rlen),
                seg(ans_h, j, rlen),
            ) == recs[indices[j]]
        }),
{
    let n = recs.len() as int;
    let kc = indices.len() as int;
    lemma_answer_keys_len(req_l, recs, rlen, kc);
    lemma_answer_keys_len(req_h, recs, rlen, kc);
    assert forall|j: int| 0 <= j < kc implies xor_bytes(
        #[trigger] seg(answer_keys(req_l, recs, rlen, kc), j, rlen),
        seg(answer_keys(req_h, recs, rlen, kc), j, rlen),
    ) == recs[indices[j]] by {
        lemma_answer_keys_seg(req_l, recs, rlen, kc, j);
        lemma_answer_keys_seg(req_h, recs, rlen, kc, j);
        let kl = seg(req_l, j, n);
        let kh = seg(req_h, j, n);
        assert(0 <= j * n && (j + 1) * n == j * n + n && (j + 1) * n <= kc * n) by (nonlinear_arith)
            requires
                0 <= j < kc,
                n >= 0,
        ;
        assert(kl.len() == n);
        assert(kh == kl.update(indices[j], (kl[indices[j]] ^ 1) as u8));
        lemma_dpf_correctness(kl, kh, recs, indices[j], rlen);
    }
}

#[verifier::spinoff_prover]
pub proof fn lemma_answer_keys_len(req: Seq<u8>, recs: Seq<Seq<u8>>, rlen: int, kcount: int)
    requires
        rlen >= 0,
        kcount >= 0,
    ensures
        answer_keys(req, recs, rlen, kcount).len() == kcount * rlen,
    decreases kcount,
{
    if kcount == 0 {
        assert(answer_keys(req, recs, rlen, 0).len() == 0);
    } else {
        lemma_answer_keys_len(req, recs, rlen, kcount - 1);
        lemma_eval_prefix_len(seg(req, kcount - 1, recs.len() as int), recs, recs.len() as int, rlen);
        assert(answer_keys(req, recs, rlen, kcount).len() == (kcount - 1) * rlen + rlen);
        assert((kcount - 1) * rlen + rlen == kcount * rlen) by (nonlinear_arith);
        assert(answer_keys(req, recs, rlen, kcount).len() == kcount * rlen);
    }
}

/// Segment `j` of a packed answer is the answer for mask key `j`.
pub proof fn lemma_answer_keys_seg(req: Seq<u8>, recs: Seq<Seq<u8>>, rlen: int, kcount: int, j: int)
    requires
        rlen >= 0,
        0 <= j < kcount,
    ensures
        seg(answer_keys(req, recs, rlen, kcount), j, rlen) == eval_key(
            seg(req, j, recs.len() as int),
            recs,
            rlen,
        ),
    decreases kcount,
{
    let n = recs.len() as int;
    lemma_answer_keys_len(req, recs, rlen, kcount - 1);
    lemma_eval_prefix_len(seg(req, kcount - 1, n), recs, n, rlen);
    assert(0 <= j * rlen && (j + 1) * rlen == j * rlen + rlen && (j + 1) * rlen <= kcount * rlen
        && (kcount - 1) * rlen + rlen == kcount * rlen && (j < kcount - 1 ==> (j + 1) * rlen <= (
    kcount - 1) * rlen)) by (nonlinear_arith)
        requires
            0 <= j < kcount,
            rlen >= 0,
    ;
    if j == kcount - 1 {
        assert(seg(answer_keys(req, recs, rlen, kcount), j, rlen) =~= eval_key(
            seg(req, j, n),
            recs,
            rlen,
        ));
    } else {
        lemma_answer_keys_seg(req, recs, rlen, kcount - 1, j);
        lemma_answer_keys_len(req, recs, rlen, kcount);
        assert(seg(answer_keys(req, recs, rlen, kcount), j, rlen) =~= seg(
            answer_keys(req, recs, rlen, kcount - 1),
            j,
            rlen,
        ));
    }
}

} // verus!
