use sdestimator::mounts::{
    candidate_files, find_mount_points, is_mapper_holder, mount_labels, Holder,
};

fn owned(v: &[&str]) -> Vec<String> {
    v.iter().map(|s| s.to_string()).collect()
}

fn holder(name: &str, mapper_name: Option<&str>) -> Holder {
    Holder { name: name.to_string(), mapper_name: mapper_name.map(|s| s.to_string()) }
}

fn pairs(v: &[(&str, &str)]) -> Vec<(String, String)> {
    v.iter().map(|(a, b)| (a.to_string(), b.to_string())).collect()
}

const TABLE: &str = "\
sysfs /sys sysfs rw,nosuid 0 0
/dev/mmcblk0p2 / ext4 rw,noatime 0 0
/dev/mmcblk0p1 /boot vfat rw 0 0
/dev/mmcblk1p1 /other vfat rw 0 0
/dev/mapper/enc /mnt/enc ext4 rw 0 0
/dev/sda /mnt/data ext4 rw 0 0
broken
";

#[test]
fn partitions_are_found() {
    let entries = owned(&["alignment_offset", "mmcblk0p1", "mmcblk0p2", "queue"]);
    let found = find_mount_points("mmcblk0", &entries, &vec![], Some(TABLE));
    assert_eq!(found, pairs(&[("/dev/mmcblk0p2", "/"), ("/dev/mmcblk0p1", "/boot")]));
}

#[test]
fn device_without_partitions_is_found() {
    let found = find_mount_points("sda", &vec![], &vec![], Some(TABLE));
    assert_eq!(found, pairs(&[("/dev/sda", "/mnt/data")]));
}

#[test]
fn encrypted_volumes_are_found() {
    let holders = vec![holder("dm-0", Some("enc\n"))];
    let found = find_mount_points("sdb", &vec![], &holders, Some(TABLE));
    assert_eq!(found, pairs(&[("/dev/mapper/enc", "/mnt/enc")]));
}

#[test]
fn other_holders_are_passed_over() {
    let holders = vec![
        holder("md0", Some("enc")),
        holder("dm-1", Some(" \n")),
        holder("dm-2", None),
    ];
    assert_eq!(
        candidate_files("sdb", &owned(&["sdb1", "size", "sdb2"]), &holders),
        owned(&["/dev/sdb", "/dev/sdb1", "/dev/sdb2"])
    );
    assert!(find_mount_points("sdb", &vec![], &holders, Some(TABLE)).is_empty());
}

#[test]
fn unreadable_mount_table_gives_no_mounts() {
    assert!(find_mount_points("sda", &owned(&["sda1"]), &vec![], None).is_empty());
}

#[test]
fn lines_without_a_mount_point_are_passed_over() {
    let table = "/dev/sda\n\n   \n/dev/sda\t/mnt";
    let found = find_mount_points("sda", &vec![], &vec![], Some(table));
    assert_eq!(found, pairs(&[("/dev/sda", "/mnt")]));
}

#[test]
fn a_device_mounted_twice_is_found_twice() {
    let table = "/dev/sda /a ext4\r\n/dev/sda /b ext4\r\n";
    let found = find_mount_points("sda", &vec![], &vec![], Some(table));
    assert_eq!(found, pairs(&[("/dev/sda", "/a"), ("/dev/sda", "/b")]));
}

#[test]
fn mapper_holders_are_told_by_their_names() {
    assert!(is_mapper_holder("dm-0"));
    assert!(is_mapper_holder("dm-"));
    assert!(!is_mapper_holder("dm"));
    assert!(!is_mapper_holder("md-0"));
}

#[test]
fn mounts_are_labelled() {
    assert_eq!(
        mount_labels(&pairs(&[("/dev/sda1", "/mnt"), ("", "")])),
        owned(&["/dev/sda1 -> /mnt", " -> "])
    );
}
