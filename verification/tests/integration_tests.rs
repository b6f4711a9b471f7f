use rand::{thread_rng, RngCore};
use talek::client::Client;
use talek::error::PirError;
use talek::server::Server;
use talek::types::{Request, Response};
use talek::utils::{kdf, Key};

const ELEMENT_SIZE: usize = 64;
// A 64-byte element is longer than the padding floor, so its sealed form is
// nonce + element + tag bytes long; the table's slots have that width.
const ITEM_SIZE: usize = 12 + ELEMENT_SIZE + 16;
const TABLE_SIZE: usize = 16;

fn generate_random_data() -> Vec<u8> {
    let mut rng = thread_rng();
    let mut data = vec![0u8; ELEMENT_SIZE];
    rng.fill_bytes(&mut data);
    data
}

fn paired_servers(key: &Key) -> (Server, Server) {
    let k1 = kdf(key, "key1").unwrap();
    let k2 = kdf(key, "key2").unwrap();
    let server1 = Server::new_with_keys(TABLE_SIZE, ITEM_SIZE, k1.to_vec(), k2.to_vec()).unwrap();
    let k1 = kdf(key, "key1").unwrap();
    let k2 = kdf(key, "key2").unwrap();
    let server2 = Server::new_with_keys(TABLE_SIZE, ITEM_SIZE, k1.to_vec(), k2.to_vec()).unwrap();
    (server1, server2)
}

#[test]
fn test_server_write_and_read() -> Result<(), PirError> {
    let key = Key::new_random();

    let mut client1 = Client::new("client1".to_string(), TABLE_SIZE as i32)?;
    let mut client2 = Client::new("client2".to_string(), TABLE_SIZE as i32)?;

    // Create two servers whose placement keys match the clients' derived ones
    let (mut server1, mut server2) = paired_servers(&key);

    client1.add_key("client2".to_string(), key.clone())?;
    client2.add_key("client1".to_string(), key.clone())?;

    let new_element = generate_random_data();

    // Encrypt, place, and write to both servers
    let encrypted_element = client1.encrypt("client2".to_string(), new_element.clone())?;
    let (_item, Request { request1: _r1, request2: _r2 }) =
        client1.generate_requests("client2".to_string(), encrypted_element.clone(), 0)?;
    let (item, Request { request1, request2 }) =
        client2.generate_requests("client1".to_string(), encrypted_element, 0)?;

    server1.write(&item)?;
    server2.write(&item)?;

    let response1 = server1.get(&request1)?;
    let response2 = server2.get(&request2)?;

    // Process responses
    let client1_response = client1.process_responses(Response {
        response1: response1.clone(),
        response2: response2.clone(),
    })?;

    let client2_response = client2.process_responses(Response { response1, response2 })?;

    let decrypted_element1 = client1.decrypt("client2".to_string(), client1_response)?;
    let decrypted_element2 = client2.decrypt("client1".to_string(), client2_response)?;

    assert_eq!(decrypted_element1, new_element);
    assert_eq!(decrypted_element2, new_element);

    Ok(())
}

#[test]
fn test_multiple_elements() -> Result<(), PirError> {
    let key = Key::new_random();

    let mut client1 = Client::new("client1".to_string(), TABLE_SIZE as i32)?;
    let mut client2 = Client::new("client2".to_string(), TABLE_SIZE as i32)?;

    client1.add_key("client2".to_string(), key.clone())?;
    client2.add_key("client1".to_string(), key.clone())?;

    let (mut server1, mut server2) = paired_servers(&key);

    const NUM_ELEMENTS: usize = 16;

    for i in 0..NUM_ELEMENTS {
        let new_element = generate_random_data();
        let encrypted_element = client1.encrypt("client2".to_string(), new_element.clone())?;
        let (item, Request { request1, request2 }) =
            client1.generate_requests("client2".to_string(), encrypted_element.clone(), i as u64)?;

        server1.write(&item)?;
        server2.write(&item)?;

        let response1 = server1.get(&request1)?;
        let response2 = server2.get(&request2)?;

        let client1_response = client1.process_responses(Response {
            response1: response1.clone(),
            response2: response2.clone(),
        })?;

        let client2_response = client2.process_responses(Response { response1, response2 })?;

        let decrypted_element1 = client1.decrypt("client2".to_string(), client1_response)?;
        let decrypted_element2 = client2.decrypt("client1".to_string(), client2_response)?;

        assert_eq!(decrypted_element1, decrypted_element2);
    }

    Ok(())
}
