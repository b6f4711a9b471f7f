//! Concrete checks of the stated laws: point-function recombination,
//! key-derivation determinism, sealed-and-opened round trips, and the
//! error paths of the public surface.

use talek::client::Client;
use talek::dpf::{eval_mask, DpfPirClient};
use talek::error::{CryptoError, PirError};
use talek::types::Response;
use talek::utils::{decrypt, encrypt, kdf, pad_message, Key};

fn xor(a: &[u8], b: &[u8]) -> Vec<u8> {
    a.iter().zip(b.iter()).map(|(x, y)| x ^ y).collect()
}

#[test]
fn test_dpf_recombination() {
    // Eight records of four bytes; query index three.
    let records: Vec<Vec<u8>> = (0..8u8).map(|i| vec![i, i + 1, i + 2, i + 3]).collect();
    let client = DpfPirClient::new(8).unwrap();
    let request = client.create_request(&vec![3usize]).unwrap();
    assert_eq!(request.leader_request.len(), 8);
    assert_eq!(request.helper_request.len(), 8);

    let answer1 = eval_mask(&request.leader_request, &records, 4);
    let answer2 = eval_mask(&request.helper_request, &records, 4);
    assert_eq!(xor(&answer1, &answer2), records[3]);

    // The client-side recombination reproduces the same record.
    let combined = client
        .handle_response(&answer1, &answer2, &request.client_state)
        .unwrap();
    assert_eq!(combined.len(), 1);
    assert_eq!(combined[0], records[3]);
}

#[test]
fn test_dpf_out_of_range_index() {
    let client = DpfPirClient::new(8).unwrap();
    assert!(client.create_request(&vec![8usize]).is_err());
    assert!(DpfPirClient::new(0).is_err());
}

#[test]
fn test_kdf_determinism_and_separation() {
    let key = Key::from_bytes(vec![7u8; 16]);
    let a = kdf(&key, "key1").unwrap();
    let b = kdf(&key, "key1").unwrap();
    let c = kdf(&key, "key2").unwrap();
    assert_eq!(a.to_vec(), b.to_vec());
    assert_ne!(a.to_vec(), c.to_vec());
    assert_eq!(a.to_vec().len(), 16);
    // Derivation does not hand the input key back.
    assert_ne!(a.to_vec(), key.to_vec());

    let short = Key::from_bytes(vec![7u8; 5]);
    assert!(matches!(
        kdf(&short, "key1"),
        Err(CryptoError::InvalidKeyLength)
    ));
}

#[test]
fn test_seal_open_round_trip() {
    let key = Key::from_bytes(vec![9u8; 16]);
    let ciphertext = encrypt(&key, b"attack at dawn", 48).unwrap();
    assert_eq!(ciphertext.len(), 12 + 48 + 16);
    // Sealing is not the identity on the padded message.
    assert_ne!(&ciphertext[12..60], pad_message(b"attack at dawn", 48).as_slice());

    let opened = decrypt(&key, &ciphertext).unwrap();
    assert_eq!(opened, pad_message(b"attack at dawn", 48));

    // A wrong key fails to open.
    let wrong = Key::from_bytes(vec![8u8; 16]);
    assert!(matches!(
        decrypt(&wrong, &ciphertext),
        Err(CryptoError::DecryptionFailed)
    ));

    // Any flipped bit fails to open.
    for i in 0..ciphertext.len() {
        let mut damaged = ciphertext.clone();
        damaged[i] ^= 1;
        assert!(matches!(
            decrypt(&key, &damaged),
            Err(CryptoError::DecryptionFailed)
        ));
    }

    // A key of the wrong length cannot seal.
    let bad = Key::from_bytes(vec![9u8; 3]);
    assert!(matches!(
        encrypt(&bad, b"x", 48),
        Err(CryptoError::EncryptionFailed)
    ));
}

#[test]
fn test_pad_message_shapes() {
    assert_eq!(pad_message(b"abc", 8), b"abc\0\0\0\0\0".to_vec());
    assert_eq!(pad_message(b"", 4), vec![0u8; 4]);
    // A message already long enough comes back unchanged.
    assert_eq!(pad_message(b"abcdefgh", 4), b"abcdefgh".to_vec());
}

#[test]
fn test_client_argument_errors() {
    assert!(matches!(
        Client::new("x".to_string(), 0),
        Err(PirError::InvalidArgument)
    ));
    assert!(matches!(
        Client::new("x".to_string(), -5),
        Err(PirError::InvalidArgument)
    ));

    let mut client = Client::new("x".to_string(), 4).unwrap();
    assert!(matches!(
        client.update_size(0),
        Err(PirError::InvalidArgument)
    ));
    assert!(client.update_size(9).is_ok());

    // Mismatched response lengths are rejected.
    let bad = client.process_responses(Response {
        response1: vec![0u8; 4],
        response2: vec![0u8; 6],
    });
    assert!(matches!(bad, Err(PirError::Processing)));
}

#[test]
fn test_key_accessors() {
    let key = Key::from_bytes(vec![3u8, 4u8, 5u8]);
    assert_eq!(key.to_vec(), vec![3u8, 4u8, 5u8]);
    assert_eq!(key.as_slice(), &[3u8, 4u8, 5u8]);
    let fresh = Key::new_random();
    assert_eq!(fresh.to_vec().len(), 16);
}
