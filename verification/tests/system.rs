use himqtt::system::{pick_root_disk, DiskSpace};

fn disk(mount: &str, total: u64, avail: u64) -> DiskSpace {
    DiskSpace { mount_point: mount.to_string(), total_space: total, available_space: avail }
}

#[test]
fn root_disk_wins() {
    let disks = vec![disk("/data", 1000, 100), disk("/", 500, 200), disk("/", 900, 0)];
    assert_eq!(pick_root_disk(&disks), (500, 300));
}

#[test]
fn largest_disk_without_root() {
    let disks = vec![disk("/a", 100, 10), disk("/b", 300, 400), disk("/c", 300, 0)];
    assert_eq!(pick_root_disk(&disks), (300, 0));
}

#[test]
fn no_disks() {
    assert_eq!(pick_root_disk(&vec![]), (0, 0));
    assert_eq!(pick_root_disk(&vec![disk("/x", 0, 0)]), (0, 0));
}
