use rand::rngs::StdRng;
use rand::Rng;
use rand::SeedableRng;
use talek::constants::RANDOM_SEED;
use talek::cuckoo::{prf, Item, Table};

const TEST_ITEM_SIZE: usize = 64;
const TEST_KEY1: &[u8] = b"test_key_1_for_prf_computation";
const TEST_KEY2: &[u8] = b"test_key_2_for_prf_computation";

fn get_bytes(val: &str) -> Vec<u8> {
    let mut buf = vec![0; TEST_ITEM_SIZE];
    buf[..val.len()].copy_from_slice(val.as_bytes());
    buf
}

fn create_test_table(num_buckets: usize, bucket_depth: usize) -> Table {
    Table::new(
        num_buckets,
        bucket_depth,
        TEST_ITEM_SIZE,
        None,
        RANDOM_SEED,
        TEST_KEY1.to_vec(),
        TEST_KEY2.to_vec(),
    )
    .unwrap()
}

fn create_test_item(table: &Table, id: u64, data: Vec<u8>, seq_no: u64) -> Item {
    let bucket1 = (prf(TEST_KEY1, seq_no).unwrap() % (table.num_buckets as u64)) as usize;
    let bucket2 = (prf(TEST_KEY2, seq_no).unwrap() % (table.num_buckets as u64)) as usize;
    Item::new(id, data, seq_no, bucket1, bucket2)
}

#[test]
fn test_get_capacity() {
    let table = create_test_table(10, 2);
    assert_eq!(10 * 2, table.index.len());

    let table = create_test_table(1, 1);
    assert_eq!(1, table.index.len());

    let table = create_test_table(0, 0);
    assert_eq!(0, table.index.len());
}

#[test]
fn test_invalid_construction() {
    let data = vec![0; 7];
    let table = Table::new(2, 3, 4, Some(data), 0, TEST_KEY1.to_vec(), TEST_KEY2.to_vec());
    assert!(table.is_none());
}

#[test]
fn test_basic() {
    let mut table = create_test_table(10, 2);
    assert_eq!(0, table.index.iter().filter(|loc| loc.filled).count());

    // Test with invalid data size
    let item = create_test_item(&table, 1, vec![0, 0], 0);
    let result = table.insert(&item);
    assert!(result.is_err());

    // Test with valid data
    let item = create_test_item(&table, 1, get_bytes("value1"), 0);
    let result = table.insert(&item);
    assert!(result.is_ok());
    assert!(result.unwrap().is_none());

    assert!(table.index.iter().any(|loc| loc.filled && loc.id == 1));
    assert_eq!(1, table.index.iter().filter(|loc| loc.filled).count());
}

#[test]
fn test_out_of_bounds() {
    let mut table = create_test_table(10, 2);

    // Create item with invalid buckets (not matching PRF)
    let item = Item::new(1, get_bytes("value1"), 0, 100, 100);
    let result = table.insert(&item);
    assert!(result.is_err());
}

#[test]
fn test_full_table() {
    let num_buckets = 100;
    let depth = 4;
    let capacity = num_buckets * depth;
    let mut table = create_test_table(num_buckets, depth);
    let mut rng = StdRng::seed_from_u64(RANDOM_SEED);

    let mut count = 0;
    let mut entries = Vec::with_capacity(capacity);
    let mut evicted = None;
    let mut seq_no = 0u64;

    loop {
        let id = rng.gen::<u64>();
        let val = get_bytes(&rng.gen::<u64>().to_string());

        let item = create_test_item(&table, id, val, seq_no);
        let empty_item = create_test_item(&table, id, vec![], seq_no);
        entries.push(empty_item);
        seq_no += 1;

        match table.insert(&item) {
            Ok(None) => {
                count += 1;
                let found = table.index.iter().any(|loc| {
                    loc.filled
                        && loc.id == id
                        && loc.bucket1 == item.bucket1
                        && loc.bucket2 == item.bucket2
                });
                assert!(found, "Insert() succeeded, but item not found in table");

                let actual_count = table.index.iter().filter(|loc| loc.filled).count();
                assert_eq!(
                    count, actual_count,
                    "Number of successful inserts ({}) does not match actual elements ({})",
                    count, actual_count
                );
            }
            Ok(Some(e)) => {
                evicted = Some(e);
                break;
            }
            Err(_) => break,
        }
    }

    let actual_count = table.index.iter().filter(|loc| loc.filled).count();
    assert_eq!(
        count, actual_count,
        "Number of successful inserts ({}) does not match actual elements ({})",
        count, actual_count
    );
    let max_count = count;

    for entry in entries {
        if Some(&entry) != evicted.as_ref() {
            let found = table.index.iter().any(|loc| {
                loc.filled
                    && loc.bucket1 == entry.bucket1
                    && loc.bucket2 == entry.bucket2
                    && loc.id == entry.id
            });
            assert!(
                found,
                "Cannot find element believed to be in table. item {} of {}",
                count, max_count
            );

            for loc in table.index.iter_mut() {
                if loc.filled && loc.id == entry.id {
                    loc.filled = false;
                    count -= 1;
                    break;
                }
            }

            let actual_count = table.index.iter().filter(|loc| loc.filled).count();
            assert_eq!(
                count, actual_count,
                "GetNumElements()={} returned value that didn't match expected={}",
                actual_count, count
            );
        }
    }

    let final_count = table.index.iter().filter(|loc| loc.filled).count();
    assert_eq!(
        0, final_count,
        "GetNumElements() returns {} when table should be empty",
        final_count
    );
}

#[test]
fn test_duplicate_values() {
    let mut table = create_test_table(10, 2);

    let item1 = create_test_item(&table, 1, get_bytes("v"), 0);
    let result = table.insert(&item1);
    assert!(result.is_ok());
    assert!(result.unwrap().is_none());

    let item2 = create_test_item(&table, 2, get_bytes("v"), 1);
    let result = table.insert(&item2);
    assert!(result.is_ok());
    assert!(result.unwrap().is_none());

    let item3 = create_test_item(&table, 3, get_bytes("v"), 2);
    let result = table.insert(&item3);
    assert!(result.is_ok());
    assert!(result.unwrap().is_none());
}

#[test]
fn test_prf_consistency() {
    let table = create_test_table(10, 2);

    // Same seq_no should produce same buckets
    let bucket1_a = prf(TEST_KEY1, 0).unwrap() % (table.num_buckets as u64);
    let bucket1_b = prf(TEST_KEY1, 0).unwrap() % (table.num_buckets as u64);
    assert_eq!(bucket1_a, bucket1_b);

    let bucket2_a = prf(TEST_KEY2, 0).unwrap() % (table.num_buckets as u64);
    let bucket2_b = prf(TEST_KEY2, 0).unwrap() % (table.num_buckets as u64);
    assert_eq!(bucket2_a, bucket2_b);

    // Different seq_no should produce different buckets
    let bucket1_c = prf(TEST_KEY1, 1).unwrap() % (table.num_buckets as u64);
    assert_ne!(bucket1_a, bucket1_c);
}

#[test]
fn test_get_item() {
    let mut table = create_test_table(10, 2);
    let seq_no = 42;
    let id = 100;
    let data = get_bytes("test_value");
    let item = create_test_item(&table, id, data, seq_no);

    // Insert the item.
    let result = table.insert(&item);
    assert!(result.is_ok());
    assert!(result.unwrap().is_none());

    // Now, retrieve the item using its two distinct PRF bucket indices.
    let retrieved = table.get(item.bucket1, item.bucket2);
    assert!(retrieved.is_some(), "Expected to retrieve the inserted item");
    let retrieved_item = retrieved.unwrap();
    assert_eq!(retrieved_item.id, item.id, "The retrieved item id does not match");
    assert_eq!(retrieved_item.data, item.data, "The retrieved item data does not match");
    assert_eq!(retrieved_item.bucket1, item.bucket1, "Bucket1 does not match");
    assert_eq!(retrieved_item.bucket2, item.bucket2, "Bucket2 does not match");
}
