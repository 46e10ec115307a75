use lethe::catalog::{StorageDetails, StorageRef, StorageRepo};

fn device(id: &str, size: u64, children: Vec<StorageRef>) -> StorageRef {
    StorageRef {
        id: id.to_string(),
        details: StorageDetails {
            size,
            storage_type: "disk".to_string(),
            label: None,
            mount_point: None,
        },
        children,
    }
}

fn sample() -> StorageRepo {
    StorageRepo::new(vec![
        device(
            "/dev/disk2",
            2048,
            vec![device("/dev/disk2s1", 1024, vec![]), device("/dev/disk2s2", 1024, vec![])],
        ),
        device("/dev/disk3", 4096, vec![]),
    ])
}

#[test]
fn short_ids_are_shortest_unique_endings() {
    let repo = sample();
    assert_eq!(repo.get_short_id("/dev/disk2").unwrap(), "k2");
    assert_eq!(repo.get_short_id("/dev/disk2s1").unwrap(), "1");
    assert_eq!(repo.get_short_id("/dev/disk2s2").unwrap(), "s2");
    assert_eq!(repo.get_short_id("/dev/disk3").unwrap(), "3");
    assert!(repo.get_short_id("/dev/disk4").is_none());
}

#[test]
fn find_by_long_or_short_id() {
    let repo = sample();
    assert_eq!(repo.find_by_id("/dev/disk3").unwrap().details.size, 4096);
    assert_eq!(repo.find_by_id("k2").unwrap().id, "/dev/disk2");
    assert_eq!(repo.find_by_id("1").unwrap().id, "/dev/disk2s1");
    assert_eq!(repo.find_by_id("s2").unwrap().id, "/dev/disk2s2");
    assert!(repo.find_by_id("2").is_none());
    assert!(repo.find_by_id("").is_none());
}

#[test]
fn duplicate_ids_are_ambiguous() {
    let repo = StorageRepo::new(vec![
        device("/dev/sda", 1, vec![]),
        device("/dev/sda", 2, vec![]),
    ]);
    assert_eq!(repo.get_short_id("/dev/sda").unwrap(), "/dev/sda");
    assert!(repo.find_by_id("/dev/sda").is_none());
}

#[test]
fn devices_keep_their_order() {
    let repo = sample();
    let ids: Vec<&str> = repo.devices().iter().map(|d| d.id.as_str()).collect();
    assert_eq!(ids, vec!["/dev/disk2", "/dev/disk3"]);
    assert_eq!(repo.devices()[0].children.len(), 2);
    assert!(StorageRepo::new(vec![]).devices().is_empty());
}
