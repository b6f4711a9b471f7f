use rand::{thread_rng, RngCore};
use talek::cuckoo::{prf, Item};
use talek::error::PirError;
use talek::server::{PirServer, Server};

const TEST_ITEM_SIZE: usize = 64;
const TEST_CAPACITY: usize = 4;

fn create_test_data(size: usize) -> Vec<u8> {
    let mut data = vec![0u8; size];
    thread_rng().fill_bytes(&mut data);
    data
}

fn make_item(server: &Server, data: Vec<u8>, seq_no: u64) -> Item {
    let n = server.capacity() as u64;
    let bucket1 = (prf(server.key1(), seq_no).unwrap() % n) as usize;
    let bucket2 = (prf(server.key2(), seq_no).unwrap() % n) as usize;
    Item::new(seq_no, data, seq_no, bucket1, bucket2)
}

#[test]
fn test_pir_server_creation() {
    let capacity = 3;
    let server = PirServer::new(capacity, TEST_ITEM_SIZE);
    assert!(server.is_ok());
    if let Ok(server) = server {
        assert_eq!(server.capacity(), capacity);
        assert_eq!(server.get_elements().len(), capacity);
    }
    let server = PirServer::new(0, TEST_ITEM_SIZE);
    assert!(matches!(server, Err(PirError::InvalidArgument)));
}

#[test]
fn test_server_creation() {
    // Test valid creation
    let server = Server::new(TEST_CAPACITY, TEST_ITEM_SIZE);
    assert!(server.is_ok());
    if let Ok(server) = server {
        assert_eq!(server.capacity(), TEST_CAPACITY);
    }

    // Test creation with zero capacity
    let server = Server::new(0, TEST_ITEM_SIZE);
    assert!(matches!(server, Err(PirError::InvalidArgument)));
}

#[test]
fn test_server_write() {
    let mut server = Server::new(TEST_CAPACITY, TEST_ITEM_SIZE).unwrap();

    // Test writing valid element at valid index
    let new_element = create_test_data(TEST_ITEM_SIZE);
    let item = make_item(&server, new_element, 1);
    assert!(server.write(&item).is_ok());
}

#[test]
fn test_byte_data_preservation() {
    let mut server = Server::new(TEST_CAPACITY, TEST_ITEM_SIZE).unwrap();

    // Test with specific byte patterns
    let test_patterns = vec![
        vec![0u8; TEST_ITEM_SIZE],           // All zeros
        vec![255u8; TEST_ITEM_SIZE],         // All max bytes
        (0..TEST_ITEM_SIZE as u8).collect(), // Sequential bytes
        create_test_data(TEST_ITEM_SIZE),    // Random bytes
    ];

    for (i, pattern) in test_patterns.iter().enumerate() {
        let item = make_item(&server, pattern.clone(), i as u64);
        assert!(server.write(&item).is_ok());
    }
}

#[test]
fn test_null_byte_handling() {
    let mut server = Server::new(TEST_CAPACITY, TEST_ITEM_SIZE).unwrap();

    // Create test data with explicit null bytes
    let mut data = vec![1u8; TEST_ITEM_SIZE];
    data[0] = 0; // First byte null
    data[TEST_ITEM_SIZE / 2] = 0; // Middle byte null
    data[TEST_ITEM_SIZE - 1] = 0; // Last byte null

    let item = make_item(&server, data, 1);
    assert!(server.write(&item).is_ok());
}

#[test]
fn test_pir_server_write_bounds() {
    let mut server = PirServer::new(3, 8).unwrap();
    // An index beyond the capacity is rejected.
    assert!(matches!(
        server.write(5, vec![0u8; 8]),
        Err(PirError::IndexOutOfBounds)
    ));
    // A record of the wrong width is rejected.
    assert!(matches!(
        server.write(1, vec![0u8; 7]),
        Err(PirError::InvalidArgument)
    ));
    // A well-formed overwrite lands at its index.
    assert!(server.write(1, vec![9u8; 8]).is_ok());
    assert_eq!(server.get_elements()[1], vec![9u8; 8]);
}

#[test]
fn test_server_batch_write() {
    let mut server = Server::new(8, TEST_ITEM_SIZE).unwrap();
    let items: Vec<Item> = (0..3u64)
        .map(|i| make_item(&server, create_test_data(TEST_ITEM_SIZE), i))
        .collect();
    assert!(server.batch_write(&items).is_ok());

    // A batch holding an item whose buckets disagree with the table's own
    // computation stops with an argument error.
    let bad = Item::new(9, create_test_data(TEST_ITEM_SIZE), 9, 0, 0);
    let mixed = vec![make_item(&server, create_test_data(TEST_ITEM_SIZE), 3), bad];
    assert!(matches!(
        server.batch_write(&mixed),
        Err(PirError::InvalidArgument)
    ));
}
