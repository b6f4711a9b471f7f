//! The client side: per-peer key derivation, encrypt-and-place writes, and
//! the request/recombine/trial-decrypt read path.

use vstd::prelude::*;

use crate::bytes::xor_bytes;
use crate::constants::PADDING_SIZE;
use crate::crypto::random_u64;
use crate::cuckoo::prf;
use crate::cuckoo::prf_mod;
use crate::cuckoo::Item;
use crate::dpf::seg;
use crate::dpf::share_pair;
use crate::dpf::DpfPirClient;
use crate::error::CryptoError;
use crate::error::PirError;
use crate::types::Request;
use crate::types::Response;
use crate::utils::kdf;
use crate::utils::kdf_spec;
use crate::utils::open_blob;
use crate::utils::pad_spec;
use crate::utils::Key;
use vstd::string::StringSliceAdditionalSpecFns;
use vstd::utf8::is_ascii_chars;
use vstd::utf8::is_ascii_chars_encode_utf8;

verus! {

/// The three subkeys a peer relationship runs on: two placement keys and
/// one encryption key, each derived from the shared 16-byte secret.
pub open spec fn derived_triple(k: Seq<u8>) -> (Seq<u8>, Seq<u8>, Seq<u8>) {
    (
        kdf_spec(k, "key1".spec_bytes()),
        kdf_spec(k, "key2".spec_bytes()),
        kdf_spec(k, "k_enc".spec_bytes()),
    )
}

/// The association list of peer keys as a map.
pub open spec fn entries_map(s: Seq<(String, (Key, Key, Key))>) -> Map<
    Seq<char>,
    (Seq<u8>, Seq<u8>, Seq<u8>),
>
    decreases s.len(),
{
    if s.len() == 0 {
        Map::empty()
    } else {
        entries_map(s.drop_last()).insert(
            s.last().0@,
            (s.last().1.0@, s.last().1.1@, s.last().1.2@),
        )
    }
}

/// No two entries name the same peer.
pub open spec fn entries_unique(s: Seq<(String, (Key, Key, Key))>) -> bool {
    forall|i: int, j: int| 0 <= i < j < s.len() ==> (#[trigger] s[i]).0@ != (#[trigger] s[j]).0@
}

/// Every stored subkey has the derived length.
pub open spec fn entries_sized(s: Seq<(String, (Key, Key, Key))>) -> bool {
    forall|i: int|
        0 <= i < s.len() ==> (#[trigger] s[i]).1.0@.len() == 16 && s[i].1.1@.len() == 16
            && s[i].1.2@.len() == 16
}

proof fn lemma_entries_lookup(s: Seq<(String, (Key, Key, Key))>, i: int)
    requires
        entries_unique(s),
        0 <= i < s.len(),
    ensures
        entries_map(s).contains_key(s[i].0@),
        entries_map(s)[s[i].0@] == (s[i].1.0@, s[i].1.1@, s[i].1.2@),
    decreases s.len(),
{
    if i == s.len() - 1 {
    } else {
        lemma_entries_lookup(s.drop_last(), i);
        assert(s.drop_last()[i] == s[i]);
        assert(s[i].0@ != s.last().0@);
    }
}

proof fn lemma_entries_absent(s: Seq<(String, (Key, Key, Key))>, k: Seq<char>)
    requires
        forall|i: int| 0 <= i < s.len() ==> (#[trigger] s[i]).0@ != k,
    ensures
        !entries_map(s).contains_key(k),
    decreases s.len(),
{
    if s.len() > 0 {
        lemma_entries_absent(s.drop_last(), k);
    }
}

/// What trial decryption of one record yields: the first chunk, among the
/// chunks of width a quarter of the record (the last chunk keeping any
/// remainder), that opens under the key.
pub open spec fn first_open_in_record(k: Seq<u8>, b: Seq<u8>, from: int) -> Option<Seq<u8>>
    decreases (if from < b.len() { b.len() - from } else { 0 }),
{
    let cs = b.len() as int / 4;
    if cs <= 0 || from < 0 || from >= b.len() {
        None
    } else {
        let end = if from + cs <= b.len() {
            from + cs
        } else {
            b.len() as int
        };
        match open_blob(k, b.subrange(from, end)) {
            Some(v) => Some(v),
            None => first_open_in_record(k, b, from + cs),
        }
    }
}

/// What trial decryption of a list of records yields: the first chunk of
/// the first record, in order, that opens under the key.
pub open spec fn first_open(k: Seq<u8>, resp: Seq<Seq<u8>>, from: int) -> Option<Seq<u8>>
    decreases (if from < resp.len() { resp.len() - from } else { 0 }),
{
    if from < 0 || from >= resp.len() {
        None
    } else {
        match first_open_in_record(k, resp[from], 0) {
            Some(v) => Some(v),
            None => first_open(k, resp, from + 1),
        }
    }
}

/// A client endpoint: its identifier, the table size it expects the
/// servers to run, its per-peer subkeys, and its point-function state.
pub struct Client {
    id: String,
    database_size: i32,
    keys: Vec<(String, (Key, Key, Key))>,
    dpf: DpfPirClient,
}

impl Client {
    /// The table size this client queries over.
    pub closed spec fn size(&self) -> int {
        self.database_size as int
    }

    /// The per-peer derived key triples.
    pub closed spec fn keys_map(&self) -> Map<Seq<char>, (Seq<u8>, Seq<u8>, Seq<u8>)> {
        entries_map(self.keys@)
    }

    /// Internal consistency of the key list and the point-function state.
    pub closed spec fn state_ok(&self) -> bool {
        &&& entries_unique(self.keys@)
        &&& entries_sized(self.keys@)
        &&& self.dpf.size() == self.database_size as int
    }

    /// Well-formedness of the client.
    pub open spec fn wf(&self) -> bool {
        &&& self.size() > 0
        &&& self.state_ok()
    }

    /// A client for tables of `database_size` buckets; a size that is not
    /// positive is rejected.
    pub fn new(id: String, database_size: i32) -> (r: Result<Client, PirError>)
        ensures
            database_size <= 0 ==> r == Err::<Client, PirError>(PirError::InvalidArgument),
            database_size > 0 ==> (r matches Ok(c) && c.wf() && c.size() == database_size
                && c.keys_map() == Map::<Seq<char>, (Seq<u8>, Seq<u8>, Seq<u8>)>::empty()),
    {
        if database_size <= 0 {
            return Err(PirError::InvalidArgument);
        }
        let dpf = match DpfPirClient::new(database_size as usize) {
            Ok(d) => d,
            Err(_) => {
                return Err(PirError::InvalidArgument);
            },
        };
        Ok(Client { id, database_size, keys: Vec::new(), dpf })
    }

    /// Replaces the point-function state for a new table size, keeping the
    /// key map; a size that is not positive is rejected and changes
    /// nothing.
    pub fn update_size(&mut self, new_size: i32) -> (r: Result<(), PirError>)
        requires
            old(self).wf(),
        ensures
            final(self).wf(),
            final(self).keys_map() == old(self).keys_map(),
            new_size <= 0 ==> r == Err::<(), PirError>(PirError::InvalidArgument)
                && final(self).size() == old(self).size(),
            new_size > 0 ==> r is Ok && final(self).size() == new_size,
    {
        if new_size <= 0 {
            return Err(PirError::InvalidArgument);
        }
        let dpf = match DpfPirClient::new(new_size as usize) {
            Ok(d) => d,
            Err(_) => {
                return Err(PirError::InvalidArgument);
            },
        };
        self.dpf = dpf;
        self.database_size = new_size;
        Ok(())
    }

    /// Derives and stores the three subkeys for a peer from the shared
    /// 16-byte secret; a second registration for the same peer replaces the
    /// triple.
    pub fn add_key(&mut self, to: String, key: Key) -> (r: Result<(), PirError>)
        requires
            old(self).wf(),
            key@.len() == 16,
        ensures
            final(self).wf(),
            final(self).size() == old(self).size(),
            r is Ok,
            final(self).keys_map() == old(self).keys_map().insert(to@, derived_triple(key@)),
    {
        proof {
            reveal_strlit("key1");
            reveal_strlit("key2");
            reveal_strlit("k_enc");
            assert(is_ascii_chars(("key1")@));
            assert(is_ascii_chars(("key2")@));
            assert(is_ascii_chars(("k_enc")@));
            is_ascii_chars_encode_utf8(("key1")@);
            is_ascii_chars_encode_utf8(("key2")@);
            is_ascii_chars_encode_utf8(("k_enc")@);
        }
        let key1 = match kdf(&key, "key1") {
            Ok(k) => k,
            Err(_) => {
                return Err(PirError::InvalidArgument);
            },
        };
        let key2 = match kdf(&key, "key2") {
            Ok(k) => k,
            Err(_) => {
                return Err(PirError::InvalidArgument);
            },
        };
        let k_enc = match kdf(&key, "k_enc") {
            Ok(k) => k,
            Err(_) => {
                return Err(PirError::InvalidArgument);
            },
        };
        let mut i: usize = 0;
        let klen = self.keys.len();
        while i < klen
            invariant
                old(self).wf(),
                0 <= i <= klen,
                klen == self.keys@.len(),
                *self == *old(self),
                forall|j: int| 0 <= j < i ==> (#[trigger] self.keys@[j]).0@ != to@,
                key1@ == derived_triple(key@).0 && key1@.len() == 16,
                key2@ == derived_triple(key@).1 && key2@.len() == 16,
                k_enc@ == derived_triple(key@).2 && k_enc@.len() == 16,
            decreases klen - i,
        {
            if self.keys[i].0 == to {
                let ghost pre = self.keys@;
                self.keys.set(i, (to, (key1, key2, k_enc)));
                proof {
                    lemma_entries_replace(pre, i as int, self.keys@[i as int]);
                    assert(entries_map(self.keys@) =~= entries_map(pre).insert(
                        to@,
                        derived_triple(key@),
                    ));
                    assert(entries_unique(self.keys@)) by {
                        assert(forall|j: int|
                            0 <= j < pre.len() && j != i as int ==> (#[trigger] self.keys@[j])
                                == pre[j]);
                    }
                    assert(entries_sized(self.keys@));
                }
                return Ok(());
            }
            i = i + 1;
        }
        let ghost pre = self.keys@;
        self.keys.push((to, (key1, key2, k_enc)));
        proof {
            assert(self.keys@.drop_last() =~= pre);
            assert(forall|j: int| 0 <= j < pre.len() ==> (#[trigger] pre[j]).0@ != self.keys@.last().0@);
        }
        Ok(())
    }

    /// The derived triple stored for a peer, borrowed. The peer must be
    /// registered.
    fn lookup(&self, to: &String) -> (r: &(Key, Key, Key))
        requires
            self.wf(),
            self.keys_map().contains_key(to@),
        ensures
            (r.0@, r.1@, r.2@) == self.keys_map()[to@],
            r.0@.len() == 16 && r.1@.len() == 16 && r.2@.len() == 16,
    {
        let mut i: usize = 0;
        let klen = self.keys.len();
        while i < klen
            invariant
                0 <= i <= klen,
                klen == self.keys@.len(),
                self.wf(),
                self.keys_map().contains_key(to@),
                forall|j: int| 0 <= j < i ==> (#[trigger] self.keys@[j]).0@ != to@,
            decreases klen - i,
        {
            if self.keys[i].0 == *to {
                proof {
                    lemma_entries_lookup(self.keys@, i as int);
                }
                return &self.keys[i].1;
            }
            i = i + 1;
        }
        proof {
            lemma_entries_absent(self.keys@, to@);
            assert(false);
        }
        &self.keys[0].1
    }

    /// Encrypts a message for a peer: zero-padded to the fixed width, then
    /// sealed under the peer's encryption subkey with a fresh nonce. The
    /// result opens back to the padded message under the same subkey.
    pub fn encrypt(&self, to: String, element: Vec<u8>) -> (r: Result<Vec<u8>, PirError>)
        requires
            self.wf(),
            self.keys_map().contains_key(to@),
            element@.len() < crate::utils::max_aead_input(),
        ensures
            r matches Ok(c) && c@.len() == pad_spec(element@, PADDING_SIZE as int).len() + 28
                && crate::crypto::aead_open(self.keys_map()[to@].2, c@) == Some(
                pad_spec(element@, PADDING_SIZE as int),
            ),
    {
        let triple = self.lookup(&to);
        match crate::utils::encrypt(&triple.2, element.as_slice(), PADDING_SIZE) {
            Ok(c) => Ok(c),
            Err(_) => {
                proof {
                    assert(false);
                }
                Err(PirError::Crypto(CryptoError::EncryptionFailed))
            },
        }
    }

    /// Trial-decrypts reconstructed records for a peer: each record is cut
    /// into four chunks (the last keeping any remainder) and the first
    /// chunk that authenticates under the peer's encryption subkey is the
    /// message. When nothing authenticates the read found no message.
    pub fn decrypt(&self, to: String, response: Vec<Vec<u8>>) -> (r: Result<Vec<u8>, PirError>)
        requires
            self.wf(),
            self.keys_map().contains_key(to@),
            forall|i: int| 0 <= i < response@.len() ==> (#[trigger] response@[i])@.len() >= 4,
        ensures
            ({
                let k = self.keys_map()[to@].2;
                match r {
                    Ok(v) => first_open(k, response.deep_view(), 0) == Some(v@),
                    Err(e) => e == PirError::Crypto(CryptoError::DecryptionFailed) && first_open(
                        k,
                        response.deep_view(),
                        0,
                    ) is None,
                }
            }),
    {
        let triple = self.lookup(&to);
        let k_enc = &triple.2;
        let ghost deep = response.deep_view();
        let mut bi: usize = 0;
        while bi < response.len()
            invariant
                0 <= bi <= response@.len(),
                deep == response.deep_view(),
                forall|i: int| 0 <= i < response@.len() ==> (#[trigger] response@[i])@.len() >= 4,
                k_enc@ == self.keys_map()[to@].2,
                k_enc@.len() == 16,
                first_open(k_enc@, deep, 0) == first_open(k_enc@, deep, bi as int),
            decreases response@.len() - bi,
        {
            let bucket = &response[bi];
            let blen = bucket.len();
            let cs = blen / 4;
            proof {
                assert(deep[bi as int] == response@[bi as int]@);
                assert(cs >= 1);
            }
            let mut start: usize = 0;
            while start < blen
                invariant
                    0 <= start <= blen,
                    blen == bucket@.len(),
                    cs == blen as int / 4,
                    cs >= 1,
                    deep == response.deep_view(),
                    0 <= bi < response@.len(),
                    deep[bi as int] == bucket@,
                    k_enc@ == self.keys_map()[to@].2,
                    k_enc@.len() == 16,
                    first_open(k_enc@, deep, 0) == first_open(k_enc@, deep, bi as int),
                    first_open_in_record(k_enc@, bucket@, 0) == first_open_in_record(
                        k_enc@,
                        bucket@,
                        start as int,
                    ),
                decreases blen - start,
            {
                let end = if cs <= blen - start {
                    start + cs
                } else {
                    blen
                };
                let chunk = crate::bytes::subrange_vec(bucket, start, end);
                match crate::utils::decrypt(k_enc, chunk.as_slice()) {
                    Ok(v) => {
                        proof {
                            assert(first_open_in_record(k_enc@, bucket@, start as int) == Some(
                                v@,
                            ));
                            assert(first_open(k_enc@, deep, bi as int) == Some(v@));
                        }
                        return Ok(v);
                    },
                    Err(_) => {},
                }
                proof {
                    if cs <= blen - start {
                        assert(first_open_in_record(k_enc@, bucket@, start as int)
                            == first_open_in_record(k_enc@, bucket@, start as int + cs as int));
                    } else {
                        assert(first_open_in_record(k_enc@, bucket@, start as int)
                            == first_open_in_record(k_enc@, bucket@, start as int + cs as int));
                        assert(first_open_in_record(k_enc@, bucket@, start as int + cs as int)
                            is None);
                        assert(first_open_in_record(k_enc@, bucket@, blen as int) is None);
                    }
                }
                start = end;
            }
            proof {
                assert(first_open_in_record(k_enc@, bucket@, blen as int) is None);
                assert(first_open(k_enc@, deep, bi as int) == first_open(
                    k_enc@,
                    deep,
                    bi as int + 1,
                ));
            }
            bi = bi + 1;
        }
        Err(PirError::Crypto(CryptoError::DecryptionFailed))
    }

    /// Builds one write-and-read unit for a peer at a sequence number: the
    /// item carrying the already-encrypted element and its two PRF-derived
    /// bucket indices, and the share-pair request for those two buckets.
    pub fn generate_requests(&self, to: String, element: Vec<u8>, seq_no: u64) -> (r: Result<
        (Item, Request),
        PirError,
    >)
        requires
            self.wf(),
            self.keys_map().contains_key(to@),
            2 * self.size() <= usize::MAX,
        ensures
            ({
                let k1 = self.keys_map()[to@].0;
                let k2 = self.keys_map()[to@].1;
                let b1 = prf_mod(k1, seq_no, self.size());
                let b2 = prf_mod(k2, seq_no, self.size());
                r matches Ok(p) && p.0@.data == element@ && p.0@.seq_no == seq_no && p.0@.bucket1
                    == b1 && p.0@.bucket2 == b2 && share_pair(
                    p.1.request1@,
                    p.1.request2@,
                    seq![b1, b2],
                    self.size(),
                )
            }),
    {
        let id = random_u64();
        let triple = self.lookup(&to);
        let n64 = self.database_size as u64;
        let v1 = match prf(triple.0.as_slice(), seq_no) {
            Ok(v) => v,
            Err(_) => {
                return Err(PirError::Processing);
            },
        };
        let v2 = match prf(triple.1.as_slice(), seq_no) {
            Ok(v) => v,
            Err(_) => {
                return Err(PirError::Processing);
            },
        };
        let bucket1 = (v1 % n64) as usize;
        let bucket2 = (v2 % n64) as usize;
        let item = Item::new(id, element, seq_no, bucket1, bucket2);
        let mut indices: Vec<usize> = Vec::new();
        indices.push(bucket1);
        indices.push(bucket2);
        let req = match self.dpf.create_request(&indices) {
            Ok(q) => q,
            Err(_) => {
                proof {
                    assert(false);
                }
                return Err(PirError::Processing);
            },
        };
        proof {
            assert(indices@.map_values(|v: usize| v as int) =~= seq![
                bucket1 as int,
                bucket2 as int,
            ]);
        }
        Ok((item, Request { request1: req.leader_request, request2: req.helper_request }))
    }

    /// Recombines the two servers' answers to one two-bucket request: the
    /// responses are XORed pairwise and split into the two reconstructed
    /// bucket records. Mismatched or odd-length responses are rejected.
    pub fn process_responses(&self, response: Response) -> (r: Result<Vec<Vec<u8>>, PirError>)
        ensures
            ({
                let len = response.response1@.len() as int;
                if response.response1@.len() != response.response2@.len() || len % 2 != 0 {
                    r == Err::<Vec<Vec<u8>>, PirError>(PirError::Processing)
                } else {
                    r matches Ok(v) && v@.len() == 2 && (forall|j: int|
                        0 <= j < 2 ==> (#[trigger] v@[j])@ == xor_bytes(
                            seg(response.response1@, j, len / 2),
                            seg(response.response2@, j, len / 2),
                        ))
                }
            }),
    {
        let mut state: Vec<u8> = Vec::new();
        state.push(1u8);
        state.push(1u8);
        match self.dpf.handle_response(&response.response1, &response.response2, &state) {
            Ok(v) => Ok(v),
            Err(_) => Err(PirError::Processing),
        }
    }
}

/// Replacing the entry at `i` with one carrying the same peer name updates
/// exactly that peer in the map.
proof fn lemma_entries_replace(
    s: Seq<(String, (Key, Key, Key))>,
    i: int,
    e: (String, (Key, Key, Key)),
)
    requires
        entries_unique(s),
        0 <= i < s.len(),
        e.0@ == s[i].0@,
    ensures
        entries_map(s.update(i, e)) == entries_map(s).insert(e.0@, (e.1.0@, e.1.1@, e.1.2@)),
    decreases s.len(),
{
    let u = s.update(i, e);
    if i == s.len() - 1 {
        assert(u.drop_last() =~= s.drop_last());
        assert(entries_map(u) =~= entries_map(s).insert(e.0@, (e.1.0@, e.1.1@, e.1.2@)));
    } else {
        assert(u.drop_last() =~= s.drop_last().update(i, e));
        lemma_entries_replace(s.drop_last(), i, e);
        assert(u.last() == s.last());
        assert(s[i].0@ != s.last().0@);
        assert(entries_map(u) =~= entries_map(s).insert(e.0@, (e.1.0@, e.1.1@, e.1.2@)));
    }
}

} // verus!
