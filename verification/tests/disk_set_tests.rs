use continue_sync::disk_set::DiskSet;
use continue_sync::hashing::ObjectHash;

fn item(b: u8) -> ObjectHash {
    ObjectHash::from_bytes(vec![b; 20])
}

#[test]
fn test_disk_set() {
    let mut disk_set = DiskSet::new();

    let item1 = item(1);
    let item2 = item(20);
    let item3 = item(30);

    // Test add and contains
    disk_set.add(&item1);
    disk_set.add(&item2);
    assert!(disk_set.contains(&item(1)));
    assert!(disk_set.contains(&item(20)));

    // Test the exact contents of the file image
    let bytes = disk_set.to_bytes();
    assert_eq!(bytes.len(), 40);
    for i in 0..20 {
        assert_eq!(bytes[i], 1);
        assert_eq!(bytes[20 + i], 20);
    }

    // Test remove
    disk_set.remove(&item1);
    assert!(!disk_set.contains(&item(1)));
    assert!(disk_set.contains(&item(20)));

    // Test one more add
    disk_set.add(&item3);
    assert!(disk_set.contains(&item(30)));

    // Test the length of the file image
    let count = disk_set.to_bytes().len() / 20;
    assert_eq!(count, 2);
}

#[test]
fn test_disk_set_add_twice_keeps_size() {
    let mut ds = DiskSet::new();
    ds.add(&item(7));
    ds.add(&item(7));
    assert_eq!(ds.len(), 1);
    assert_eq!(ds.to_bytes().len(), 20);
}

#[test]
fn test_disk_set_remove_keeps_others() {
    let mut ds = DiskSet::new();
    ds.add(&item(1));
    ds.add(&item(2));
    ds.add(&item(3));
    ds.remove(&item(1));
    assert!(!ds.contains(&item(1)));
    assert!(ds.contains(&item(2)));
    assert!(ds.contains(&item(3)));
    assert_eq!(ds.len(), 2);
    // Removing an absent item changes nothing.
    ds.remove(&item(9));
    assert_eq!(ds.len(), 2);
}

#[test]
fn test_disk_set_file_round_trip() {
    let mut ds = DiskSet::new();
    ds.add(&item(5));
    ds.add(&item(6));
    let bytes = ds.to_bytes();
    let back = match DiskSet::from_bytes(&bytes) {
        Some(b) => b,
        None => panic!("image should load"),
    };
    assert_eq!(back.len(), 2);
    assert!(back.contains(&item(5)));
    assert!(back.contains(&item(6)));
    // A truncated image is rejected.
    let mut bad = bytes.clone();
    bad.pop();
    assert!(DiskSet::from_bytes(&bad).is_none());
}
