use byteorder::{ByteOrder, LittleEndian};
use mkdisk::disk::RamDisk;
use mkdisk::fat::{mount, FormatError, MountError};
use mkdisk::image::{build_image, HostEntry, ImageError};
use mkdisk::partition::{get_partition, set_pinfo, Format, Partition, PartitionInfo};
use mkdisk::writer::FsError;

/// A disk of `n` sectors with a FAT32 partition from sector 64 to the end.
fn formatted(n: usize) -> RamDisk {
    let mut d = RamDisk::new(n);
    let i = PartitionInfo { format: Format::Fat32, start: 64, size: (n - 64) as u32, bootable: true };
    set_pinfo(&mut d, 0, &i).unwrap();
    let p = get_partition(&d, 0).unwrap();
    mkdisk::fat::format(&mut d, &p).unwrap();
    d
}

/// Reads volumes from raw bytes, knowing only the on-disk format.
struct Walker {
    img: Vec<u8>,
    start: usize,
    spc: usize,
    fat: usize,
    data: usize,
}

impl Walker {
    fn new(d: &RamDisk, start: usize) -> Walker {
        let img = d.to_bytes();
        let b = &img[start * 512..start * 512 + 512];
        assert_eq!(&b[510..512], &[0x55, 0xaa]);
        assert_eq!(LittleEndian::read_u16(&b[11..13]), 512);
        let spc = b[13] as usize;
        let reserved = LittleEndian::read_u16(&b[14..16]) as usize;
        let fats = b[16] as usize;
        let fat_sectors = LittleEndian::read_u32(&b[36..40]) as usize;
        assert_eq!(LittleEndian::read_u32(&b[44..48]), 2);
        Walker { img, start, spc, fat: start + reserved, data: start + reserved + fats * fat_sectors }
    }

    fn fat_entry(&self, c: u32) -> u32 {
        let at = self.fat * 512 + 4 * c as usize;
        LittleEndian::read_u32(&self.img[at..at + 4])
    }

    fn chain(&self, first: u32) -> Vec<u32> {
        let mut out = Vec::new();
        let mut c = first;
        while c >= 2 && c < 0xffff_fff8 {
            out.push(c);
            c = self.fat_entry(c);
            assert!(out.len() < 1_000_000);
        }
        out
    }

    fn cluster_bytes(&self, c: u32) -> &[u8] {
        let s = (self.data + (c as usize - 2) * self.spc) * 512;
        &self.img[s..s + self.spc * 512]
    }

    /// The entries of a directory: (name, attribute, first cluster, size).
    fn entries(&self, dir: u32) -> Vec<([u8; 11], u8, u32, u32)> {
        let mut out = Vec::new();
        for c in self.chain(dir) {
            for e in self.cluster_bytes(c).chunks(32) {
                if e[0] == 0 || e[0] == 0xe5 {
                    continue;
                }
                let mut name = [0u8; 11];
                name.copy_from_slice(&e[0..11]);
                let hi = LittleEndian::read_u16(&e[20..22]) as u32;
                let lo = LittleEndian::read_u16(&e[26..28]) as u32;
                out.push((name, e[11], (hi << 16) | lo, LittleEndian::read_u32(&e[28..32])));
            }
        }
        out
    }

    fn find(&self, dir: u32, name: &[u8; 11]) -> Option<(u8, u32, u32)> {
        self.entries(dir).into_iter().find(|e| &e.0 == name).map(|e| (e.1, e.2, e.3))
    }

    fn read_file(&self, first: u32, size: u32) -> Vec<u8> {
        let mut out = Vec::new();
        for c in self.chain(first) {
            out.extend_from_slice(self.cluster_bytes(c));
        }
        out.truncate(size as usize);
        out
    }
}

fn short(s: &str) -> [u8; 11] {
    let mut n = [b' '; 11];
    if s == "." || s == ".." {
        n[..s.len()].copy_from_slice(s.as_bytes());
        return n;
    }
    let (base, ext) = match s.find('.') {
        Some(i) => (&s[..i], &s[i + 1..]),
        None => (s, ""),
    };
    for (i, b) in base.bytes().enumerate() {
        n[i] = b.to_ascii_uppercase();
    }
    for (i, b) in ext.bytes().enumerate() {
        n[8 + i] = b.to_ascii_uppercase();
    }
    n
}

#[test]
fn format_too_small() {
    let mut d = RamDisk::new(100);
    let p = Partition { start: 64, size: 34 };
    assert_eq!(mkdisk::fat::format(&mut d, &p), Err(FormatError::TooSmall));
    assert_eq!(d.to_bytes(), vec![0u8; 100 * 512]);
    let p = Partition { start: 64, size: 35 };
    assert_eq!(mkdisk::fat::format(&mut d, &p), Ok(()));
}

#[test]
fn format_writes_boot_sector_and_fat() {
    let d = formatted(128);
    let w = Walker::new(&d, 64);
    assert_eq!(w.spc, 1);
    assert_eq!(w.data, 64 + 32 + 2);
    assert_eq!(w.fat_entry(0), 0xffff_fff8);
    assert_eq!(w.fat_entry(1), 0xffff_ffff);
    assert_eq!(w.fat_entry(2), 0xffff_ffff);
    assert_eq!(w.fat_entry(3), 0);
    assert!(w.entries(2).is_empty());
    let fsinfo = d.read_sector(65).unwrap();
    assert_eq!(LittleEndian::read_u32(&fsinfo[0..4]), 0x4161_5252);
    assert_eq!(d.read_sector(70).unwrap(), d.read_sector(64).unwrap());
}

#[test]
fn cluster_size_grows_with_partition() {
    let d = formatted(600_000);
    assert_eq!(mount(&d, 0).unwrap().spc, 8);
}

#[test]
fn mount_after_format() {
    let d = formatted(128);
    let fs = mount(&d, 0).unwrap();
    assert_eq!(fs.part, Partition { start: 64, size: 64 });
    assert_eq!(fs.spc, 1);
    assert_eq!(fs.clusters, 30);
    assert_eq!(fs.cursor, 2);
}

#[test]
fn mount_rejects_unformatted() {
    let mut d = RamDisk::new(128);
    assert_eq!(mount(&d, 0), Err(MountError::NoPartition));
    let i = PartitionInfo { format: Format::Fat32, start: 64, size: 64, bootable: true };
    set_pinfo(&mut d, 0, &i).unwrap();
    assert_eq!(mount(&d, 0), Err(MountError::NotFat32));
}

#[test]
fn nested_file_round_trip() {
    let mut d = formatted(256);
    let mut fs = mount(&d, 0).unwrap();
    fs.make_dir(&mut d, "a/b/c").unwrap();
    fs.write_file(&mut d, "a/b/c/hello.txt", b"hi").unwrap();
    let w = Walker::new(&d, 64);
    let (attr, a, _) = w.find(2, &short("a")).unwrap();
    assert_eq!(attr, 0x10);
    let (_, b, _) = w.find(a, &short("b")).unwrap();
    let (_, c, _) = w.find(b, &short("c")).unwrap();
    let (attr, first, size) = w.find(c, &short("hello.txt")).unwrap();
    assert_eq!(attr, 0x20);
    assert_eq!(size, 2);
    assert_eq!(w.read_file(first, size), b"hi".to_vec());
    assert_eq!(w.find(c, &short(".")).unwrap().1, c);
    assert_eq!(w.find(c, &short("..")).unwrap().1, b);
    assert_eq!(w.find(a, &short("..")).unwrap().1, 0);
}

#[test]
fn file_spanning_clusters() {
    let mut d = formatted(256);
    let mut fs = mount(&d, 0).unwrap();
    let data: Vec<u8> = (0..1300u32).map(|i| (i % 251) as u8).collect();
    fs.write_file(&mut d, "big.bin", &data).unwrap();
    fs.write_file(&mut d, "empty", b"").unwrap();
    let w = Walker::new(&d, 64);
    let (_, first, size) = w.find(2, &short("big.bin")).unwrap();
    assert_eq!(w.chain(first), vec![3, 4, 5]);
    assert_eq!(w.read_file(first, size), data);
    assert_eq!(w.cluster_bytes(5)[1300 - 1024], 0);
    assert_eq!(w.find(2, &short("empty")).unwrap(), (0x20, 0, 0));
}

#[test]
fn disk_full_keeps_earlier_files() {
    let mut d = formatted(128);
    let mut fs = mount(&d, 0).unwrap();
    let mut written = Vec::new();
    let mut i = 0;
    let err = loop {
        let name = format!("f{}.bin", i);
        let data = vec![i as u8 + 1; 1000];
        match fs.write_file(&mut d, &name, &data) {
            Ok(()) => written.push((name, data)),
            Err(e) => break e,
        }
        i += 1;
    };
    assert_eq!(err, FsError::DiskFull);
    assert_eq!(written.len(), 14);
    let before = d.to_bytes();
    assert_eq!(fs.write_file(&mut d, "x.bin", &[1u8; 600]), Err(FsError::DiskFull));
    assert_eq!(d.to_bytes(), before);
    let w = Walker::new(&d, 64);
    for (name, data) in &written {
        let (_, first, size) = w.find(2, &short(name)).unwrap();
        assert_eq!(&w.read_file(first, size), data);
    }
}

#[test]
fn make_dir_twice_collides() {
    let mut d = formatted(128);
    let mut fs = mount(&d, 0).unwrap();
    fs.make_dir(&mut d, "a").unwrap();
    let w = Walker::new(&d, 64);
    let first = w.find(2, &short("a")).unwrap();
    let before = d.to_bytes();
    assert_eq!(fs.make_dir(&mut d, "a"), Err(FsError::Collision));
    assert_eq!(d.to_bytes(), before);
    let w = Walker::new(&d, 64);
    assert_eq!(w.find(2, &short("a")).unwrap(), first);
}

#[test]
fn write_file_errors() {
    let mut d = formatted(128);
    let mut fs = mount(&d, 0).unwrap();
    fs.write_file(&mut d, "f.txt", b"x").unwrap();
    assert_eq!(fs.write_file(&mut d, "f.txt", b"y"), Err(FsError::Collision));
    assert_eq!(fs.write_file(&mut d, "nodir/g.txt", b"y"), Err(FsError::NotFound));
    assert_eq!(fs.write_file(&mut d, "f.txt/g.txt", b"y"), Err(FsError::NotADirectory));
    assert_eq!(fs.write_file(&mut d, "toolongname.txt", b"y"), Err(FsError::InvalidName));
    assert_eq!(fs.write_file(&mut d, "", b"y"), Err(FsError::InvalidName));
    assert_eq!(fs.make_dir(&mut d, "f.txt"), Err(FsError::Collision));
}

#[test]
fn directory_full() {
    let mut d = formatted(128);
    let mut fs = mount(&d, 0).unwrap();
    for i in 0..16 {
        fs.write_file(&mut d, &format!("e{}", i), b"").unwrap();
    }
    assert_eq!(fs.write_file(&mut d, "e16", b""), Err(FsError::DirectoryFull));
}

#[test]
fn end_to_end_image() {
    let tree = vec![
        HostEntry { path: "dir1".to_string(), is_dir: true, data: Vec::new() },
        HostEntry { path: "dir1/file1.bin".to_string(), is_dir: false, data: vec![1, 2, 3] },
        HostEntry { path: "dir2".to_string(), is_dir: true, data: Vec::new() },
    ];
    let boot = vec![0xabu8; 512];
    let d = build_image(64 * 1024, &boot, &tree).unwrap();
    assert_eq!(d.sector_count(), 128);
    let s0 = d.read_sector(0).unwrap();
    assert_eq!(s0[0], 0xab);
    assert_eq!(s0[446], 0x80);
    assert_eq!(s0[446 + 4], 0x0c);
    assert_eq!(LittleEndian::read_u32(&s0[446 + 8..446 + 12]), 64);
    assert_eq!(LittleEndian::read_u32(&s0[446 + 12..446 + 16]), 64);
    assert_eq!(get_partition(&d, 0), Ok(Partition { start: 64, size: 64 }));
    assert!(mount(&d, 0).is_ok());
    let w = Walker::new(&d, 64);
    let (attr, dir1, _) = w.find(2, &short("dir1")).unwrap();
    assert_eq!(attr, 0x10);
    let (_, first, size) = w.find(dir1, &short("file1.bin")).unwrap();
    assert_eq!(w.read_file(first, size), vec![1, 2, 3]);
    let (attr, dir2, _) = w.find(2, &short("dir2")).unwrap();
    assert_eq!(attr, 0x10);
    assert_eq!(w.entries(dir2).len(), 2);
}

#[test]
fn image_errors() {
    let tree = Vec::new();
    assert!(matches!(build_image(127 * 512, &[], &tree), Err(ImageError::TooSmall)));
    assert!(matches!(build_image(128 * 512, &vec![1u8; 64 * 512 + 1], &tree), Err(ImageError::BootloaderTooLarge)));
    let bad = vec![HostEntry { path: "a/b".to_string(), is_dir: false, data: Vec::new() }];
    assert!(matches!(build_image(128 * 512, &[], &bad), Err(ImageError::FileSystem(FsError::NotFound))));
}

#[test]
fn free_parent_cluster_is_corrupt() {
    let mut d = formatted(128);
    let mut fs = mount(&d, 0).unwrap();
    let mut fat = d.read_sector(64 + 32).unwrap();
    fat[8..12].copy_from_slice(&[0, 0, 0, 0]);
    d.write_sector(64 + 32, &fat).unwrap();
    let before = d.to_bytes();
    assert_eq!(fs.write_file(&mut d, "a.txt", b"x"), Err(FsError::Corrupt));
    assert_eq!(d.to_bytes(), before);
}
