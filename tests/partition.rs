use mkdisk::disk::RamDisk;
use mkdisk::partition::{get_partition, set_pinfo, Format, Partition, PartitionError, PartitionInfo};

fn info(start: u32, size: u32) -> PartitionInfo {
    PartitionInfo { format: Format::Fat32, start, size, bootable: true }
}

#[test]
fn descriptor_round_trip() {
    let mut d = RamDisk::new(200);
    set_pinfo(&mut d, 2, &info(70, 100)).unwrap();
    assert_eq!(get_partition(&d, 2), Ok(Partition { start: 70, size: 100 }));
    let s = d.read_sector(0).unwrap();
    let base = 446 + 32;
    assert_eq!(s[base], 0x80);
    assert_eq!(s[base + 4], 0x0c);
    assert_eq!(&s[base + 8..base + 12], &[70, 0, 0, 0]);
    assert_eq!(&s[base + 12..base + 16], &[100, 0, 0, 0]);
}

#[test]
fn descriptor_not_bootable() {
    let mut d = RamDisk::new(200);
    let i = PartitionInfo { format: Format::Fat32, start: 1, size: 2, bootable: false };
    set_pinfo(&mut d, 0, &i).unwrap();
    assert_eq!(d.read_sector(0).unwrap()[446], 0);
}

#[test]
fn descriptor_errors() {
    let mut d = RamDisk::new(100);
    assert_eq!(set_pinfo(&mut d, 4, &info(0, 1)), Err(PartitionError::BadSlot));
    assert_eq!(set_pinfo(&mut d, 0, &info(64, 37)), Err(PartitionError::OutOfBounds));
    assert_eq!(d.read_sector(0).unwrap(), [0u8; 512]);
    assert_eq!(get_partition(&d, 1), Err(PartitionError::Empty));
    assert_eq!(get_partition(&d, 5), Err(PartitionError::BadSlot));
    let mut empty = RamDisk::new(0);
    assert_eq!(set_pinfo(&mut empty, 0, &info(0, 0)), Err(PartitionError::OutOfBounds));
}

#[test]
fn decoded_bounds_beyond_disk() {
    let mut d = RamDisk::new(100);
    let mut s = [0u8; 512];
    s[446 + 4] = 0x0c;
    s[446 + 8] = 90;
    s[446 + 12] = 20;
    d.write_sector(0, &s).unwrap();
    assert_eq!(get_partition(&d, 0), Err(PartitionError::OutOfBounds));
}
