//! End-to-end scenarios over the whole data plane, with a table of depth
//! four, the fixed seed, and 76-byte slots (nonce, 48 padded bytes, tag).

use talek::client::Client;
use talek::constants::{ITEM_SIZE, PADDING_SIZE};
use talek::cuckoo::{prf, Item, Table};
use talek::error::{CryptoError, PirError};
use talek::server::Server;
use talek::types::Response;
use talek::utils::{kdf, Key};

const N: usize = 10;

fn shared_key() -> Key {
    Key::from_bytes(vec![0x01u8; 16])
}

fn paired_servers(key: &Key, n: usize) -> (Server, Server) {
    let k1 = kdf(key, "key1").unwrap();
    let k2 = kdf(key, "key2").unwrap();
    let server1 = Server::new_with_keys(n, ITEM_SIZE, k1.to_vec(), k2.to_vec()).unwrap();
    let k1 = kdf(key, "key1").unwrap();
    let k2 = kdf(key, "key2").unwrap();
    let server2 = Server::new_with_keys(n, ITEM_SIZE, k1.to_vec(), k2.to_vec()).unwrap();
    (server1, server2)
}

fn write_message(
    writer: &Client,
    peer: &str,
    servers: &mut (Server, Server),
    msg: &[u8],
    seq_no: u64,
) {
    let ciphertext = writer.encrypt(peer.to_string(), msg.to_vec()).unwrap();
    let (item, _request) = writer
        .generate_requests(peer.to_string(), ciphertext, seq_no)
        .unwrap();
    servers.0.write(&item).unwrap();
    servers.1.write(&item).unwrap();
}

fn read_message(
    reader: &Client,
    peer: &str,
    servers: &(Server, Server),
    seq_no: u64,
) -> Result<Vec<u8>, PirError> {
    let (_item, request) = reader
        .generate_requests(peer.to_string(), Vec::new(), seq_no)
        .unwrap();
    let response1 = servers.0.get(&request.request1)?;
    let response2 = servers.1.get(&request.request2)?;
    let records = reader.process_responses(Response { response1, response2 })?;
    reader.decrypt(peer.to_string(), records)
}

fn expect_padded(found: &[u8], msg: &[u8]) {
    assert_eq!(found.len(), PADDING_SIZE);
    assert_eq!(&found[..msg.len()], msg);
    assert!(found[msg.len()..].iter().all(|&b| b == 0));
}

#[test]
fn test_single_write_single_read() {
    let key = shared_key();
    let mut alice = Client::new("alice".to_string(), N as i32).unwrap();
    let mut bob = Client::new("bob".to_string(), N as i32).unwrap();
    alice.add_key("bob".to_string(), key.clone()).unwrap();
    bob.add_key("alice".to_string(), key.clone()).unwrap();
    let mut servers = paired_servers(&key, N);

    write_message(&alice, "bob", &mut servers, b"hello", 0);
    let found = read_message(&bob, "alice", &servers, 0).unwrap();
    expect_padded(&found, b"hello");
}

#[test]
fn test_sequence_separation() {
    let key = shared_key();
    let mut alice = Client::new("alice".to_string(), N as i32).unwrap();
    let mut bob = Client::new("bob".to_string(), N as i32).unwrap();
    alice.add_key("bob".to_string(), key.clone()).unwrap();
    bob.add_key("alice".to_string(), key.clone()).unwrap();
    let mut servers = paired_servers(&key, N);

    write_message(&alice, "bob", &mut servers, b"one", 0);
    write_message(&alice, "bob", &mut servers, b"two", 1);

    let found = read_message(&bob, "alice", &servers, 1).unwrap();
    expect_padded(&found, b"two");

    // No message was written at this sequence number.
    let missing = read_message(&bob, "alice", &servers, 2);
    assert!(matches!(
        missing,
        Err(PirError::Crypto(CryptoError::DecryptionFailed))
    ));
}

#[test]
fn test_two_way_symmetry() {
    let key = shared_key();
    let mut alice = Client::new("alice".to_string(), N as i32).unwrap();
    let mut bob = Client::new("bob".to_string(), N as i32).unwrap();
    alice.add_key("bob".to_string(), key.clone()).unwrap();
    bob.add_key("alice".to_string(), key.clone()).unwrap();
    let mut servers = paired_servers(&key, N);

    write_message(&alice, "bob", &mut servers, b"ping", 0);
    let found = read_message(&bob, "alice", &servers, 0).unwrap();
    expect_padded(&found, b"ping");

    write_message(&bob, "alice", &mut servers, b"pong", 1);
    let found = read_message(&alice, "bob", &servers, 1).unwrap();
    expect_padded(&found, b"pong");
}

#[test]
fn test_placement_rejection() {
    let key1 = b"rejection_test_key_1".to_vec();
    let key2 = b"rejection_test_key_2".to_vec();
    let mut table = Table::new(N, 4, 8, None, 12345, key1.clone(), key2.clone()).unwrap();
    let arena_before = table.data.clone();

    // Declared buckets that disagree with the table's own PRF computation.
    let b1 = (prf(&key1, 7).unwrap() % (N as u64)) as usize;
    let b2 = (prf(&key2, 7).unwrap() % (N as u64)) as usize;
    let wrong = Item::new(1, vec![0u8; 8], 7, (b1 + 1) % N, (b2 + 1) % N);
    let result = table.insert(&wrong);
    assert!(matches!(result, Err(talek::cuckoo::Error::InvalidInput)));

    // The table is unchanged.
    assert_eq!(table.data, arena_before);
    assert_eq!(0, table.index.iter().filter(|loc| loc.filled).count());
}

#[test]
fn test_replica_convergence() {
    let key1 = b"convergence_key_1".to_vec();
    let key2 = b"convergence_key_2".to_vec();
    let mk_table = || Table::new(100, 4, 8, None, 12345, key1.clone(), key2.clone()).unwrap();
    let mut t1 = mk_table();
    let mut t2 = mk_table();

    for seq_no in 0..50u64 {
        let b1 = (prf(&key1, seq_no).unwrap() % 100) as usize;
        let b2 = (prf(&key2, seq_no).unwrap() % 100) as usize;
        let data = vec![(seq_no % 251) as u8; 8];
        let item = Item::new(seq_no, data, seq_no, b1, b2);
        let r1 = t1.insert(&item);
        let r2 = t2.insert(&item);
        assert_eq!(r1.is_ok(), r2.is_ok());
    }

    // Byte-identical arenas and identical slot descriptors.
    assert_eq!(t1.data, t2.data);
    for (l1, l2) in t1.index.iter().zip(t2.index.iter()) {
        assert_eq!(l1.filled, l2.filled);
        assert_eq!(l1.id, l2.id);
        assert_eq!(l1.seq_no, l2.seq_no);
        assert_eq!(l1.bucket1, l2.bucket1);
        assert_eq!(l1.bucket2, l2.bucket2);
    }
}
