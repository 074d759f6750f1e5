use mkdisk::disk::{DiskError, RamDisk};

#[test]
fn new_disk_is_zeroed() {
    let d = RamDisk::new(3);
    assert_eq!(d.sector_count(), 3);
    for i in 0..3 {
        assert_eq!(d.read_sector(i).unwrap(), [0u8; 512]);
    }
}

#[test]
fn write_then_read_sector() {
    let mut d = RamDisk::new(4);
    let mut b = [0u8; 512];
    b[0] = 7;
    b[511] = 9;
    assert_eq!(d.write_sector(3, &b), Ok(()));
    assert_eq!(d.read_sector(3), Ok(b));
    assert_eq!(d.read_sector(2), Ok([0u8; 512]));
}

#[test]
fn write_past_end_fails() {
    let mut d = RamDisk::new(4);
    let b = [1u8; 512];
    assert_eq!(d.write_sector(4, &b), Err(DiskError::OutOfRange));
    assert_eq!(d.read_sector(4), Err(DiskError::OutOfRange));
    assert_eq!(d.to_bytes(), vec![0u8; 4 * 512]);
}

#[test]
fn to_bytes_concatenates_sectors() {
    let mut d = RamDisk::new(2);
    let b = [5u8; 512];
    d.write_sector(1, &b).unwrap();
    let out = d.to_bytes();
    assert_eq!(out.len(), 1024);
    assert_eq!(out[511], 0);
    assert_eq!(out[512], 5);
    assert_eq!(out[1023], 5);
}
