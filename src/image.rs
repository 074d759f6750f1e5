//! Assembles a bootable disk image: bootloader, partition table, and a
//! FAT32 volume mirroring a host directory tree.
use vstd::prelude::*;
use crate::disk::{RamDisk, zero_sector};
use crate::partition::{Format, Partition, PartitionInfo, PartitionError, set_pinfo, get_partition, decode_slot, encode_slot};
use crate::fat::{FormatError, MountError, mount, mount_ok};
use crate::writer::{FsError, dir_made, dir_has_sized, dir_has_file, first_of, stores_file, lemma_entries_kept, lemma_entry_same_volume};
use crate::fat::{volume_of, ROOT_CLUSTER, FREE};
use crate::name::plain_name;
use vstd::utf8::encode_utf8;
use vstd::string::StringSliceAdditionalSpecFns;

verus! {

/// First sector of the partition; the sectors before it hold the bootloader.
pub const PARTITION_START: u32 = 64;

/// The smallest disk, in sectors.
pub const MIN_SECTORS: usize = 128;

#[derive(Debug, Clone, Copy, PartialEq, Eq, Structural)]
pub enum ImageError {
    /// The disk would have fewer than the minimum number of sectors.
    TooSmall,
    /// The disk would have more sectors than the partition table can record.
    TooLarge,
    /// The bootloader does not fit before the partition.
    BootloaderTooLarge,
    Partition(PartitionError),
    Format(FormatError),
    Mount(MountError),
    FileSystem(FsError),
}

/// One item of the host tree, by its path relative to the tree's root.
/// Directories come before what they contain.
pub struct HostEntry {
    pub path: String,
    pub is_dir: bool,
    pub data: Vec<u8>,
}

/// Sector `i` of the bootloader `b`, zero-padded.
pub open spec fn boot_chunk(b: Seq<u8>, i: int) -> Seq<u8> {
    Seq::new(512, |j: int| if i * 512 + j < b.len() { b[i * 512 + j] } else { 0u8 })
}

/// Sectors that the bootloader `b` fills.
pub open spec fn boot_sectors(b: Seq<u8>) -> int {
    (b.len() + 511) as int / 512
}

/// The descriptor of the single bootable partition of a disk of `n` sectors.
pub open spec fn main_partition(n: int) -> PartitionInfo {
    PartitionInfo { format: Format::Fat32, start: PARTITION_START, size: (n - 64) as u32, bootable: true }
}

/// Whether the root directory of volume `fs` on `d` holds the tree item
/// `item` under the stored name `n`: a directory whose cluster ends its
/// chain and holds `.` and `..`, or a file of the item's length.
pub open spec fn holds_item(d: Seq<[u8; 512]>, fs: crate::fat::FatFs, item: HostEntry, n: Seq<u8>) -> bool {
    if item.is_dir {
        dir_made(d, fs, ROOT_CLUSTER as int, n, 0)
    } else {
        dir_has_sized(d, fs, ROOT_CLUSTER as int, n, item.data@.len() as u32)
    }
}

/// Builds the image of a disk of `size` bytes (rounded down to whole
/// sectors): the bootloader in the leading sectors, a bootable FAT32
/// partition from sector 64 to the end recorded in slot 0 of the table in
/// sector 0, and in it the directories and files of `tree`, in order.
pub fn build_image(size: usize, bootloader: &[u8], tree: &Vec<HostEntry>) -> (r: Result<RamDisk, ImageError>)
    ensures
        size / 512 < MIN_SECTORS ==> r == Err::<RamDisk, ImageError>(ImageError::TooSmall),
        size / 512 >= MIN_SECTORS && size / 512 > u32::MAX ==> r == Err::<RamDisk, ImageError>(ImageError::TooLarge),
        size / 512 >= MIN_SECTORS && size / 512 <= u32::MAX && boot_sectors(bootloader@) > 64
            ==> r == Err::<RamDisk, ImageError>(ImageError::BootloaderTooLarge),
        size / 512 >= MIN_SECTORS && size / 512 <= u32::MAX && boot_sectors(bootloader@) <= 64
            ==> (r is Ok || r matches Err(ImageError::FileSystem(_))),
        size / 512 >= MIN_SECTORS && size / 512 <= u32::MAX && boot_sectors(bootloader@) <= 64
            && tree@.len() == 0 ==> r is Ok,
        r matches Ok(d) ==> {
            &&& d@.len() == size / 512
            &&& forall|i: int| 1 <= i < 64 && boot_sectors(bootloader@) <= i ==> (#[trigger] d@[i])@ == zero_sector()
            &&& d@[0]@ == encode_slot(boot_chunk(bootloader@, 0), 0, main_partition((size / 512) as int))
            &&& forall|i: int| 1 <= i < boot_sectors(bootloader@) ==> (#[trigger] d@[i])@ == boot_chunk(bootloader@, i)
            &&& decode_slot(d@, 0) == Ok::<Partition, PartitionError>(Partition { start: PARTITION_START, size: (size / 512 - 64) as u32 })
            &&& mount_ok(d@, 0)
            &&& forall|t: int, n: Seq<u8>|
                0 <= t < tree@.len() && #[trigger] plain_name(encode_utf8(tree@[t].path@), n)
                    ==> holds_item(
                    d@,
                    volume_of(d@, Partition { start: PARTITION_START, size: (size / 512 - 64) as u32 }),
                    tree@[t],
                    n,
                )
        },
{
    let n = size / 512;
    if n < MIN_SECTORS {
        return Err(ImageError::TooSmall);
    }
    if n as u64 > 0xffff_ffff {
        return Err(ImageError::TooLarge);
    }
    let blen = bootloader.len();
    let k = blen / 512 + if blen % 512 != 0 { 1 } else { 0 };
    if k > PARTITION_START as usize {
        return Err(ImageError::BootloaderTooLarge);
    }
    let mut disk = RamDisk::new(n);
    let mut i: usize = 0;
    while i < k
        invariant
            k <= 64,
            k == boot_sectors(bootloader@),
            n >= 128,
            disk@.len() == n,
            blen == bootloader@.len(),
            i <= k,
            forall|q: int| 0 <= q < i ==> (#[trigger] disk@[q])@ == boot_chunk(bootloader@, q),
            forall|q: int| i <= q < n ==> (#[trigger] disk@[q])@ == zero_sector(),
        decreases k - i,
    {
        let mut sec: [u8; 512] = [0u8; 512];
        let mut b: usize = 0;
        while b < 512
            invariant
                i < k <= 64,
                blen == bootloader@.len(),
                b <= 512,
                forall|j: int| 0 <= j < b ==> sec@[j] == boot_chunk(bootloader@, i as int)[j],
                forall|j: int| b <= j < 512 ==> sec@[j] == 0u8,
            decreases 512 - b,
        {
            if i * 512 + b < blen {
                sec[b] = bootloader[i * 512 + b];
            }
            b = b + 1;
        }
        assert(sec@ =~= boot_chunk(bootloader@, i as int));
        disk.put(i, &sec);
        i = i + 1;
    }
    let info = PartitionInfo { format: Format::Fat32, start: PARTITION_START, size: (n - 64) as u32, bootable: true };
    let ghost d1 = disk@;
    match set_pinfo(&mut disk, 0, &info) {
        Ok(()) => {},
        Err(e) => {
            return Err(ImageError::Partition(e));
        },
    }
    proof {
        crate::partition::lemma_descriptor_round_trip(d1, disk@, 0, info);
        crate::fat::lemma_formattable((n - 64) as int);
    }
    let part = match get_partition(&disk, 0) {
        Ok(p) => p,
        Err(e) => {
            return Err(ImageError::Partition(e));
        },
    };
    let ghost d2 = disk@;
    assert(k == 0 ==> d1[0]@ == boot_chunk(bootloader@, 0)) by {
        if k == 0 {
            assert(boot_chunk(bootloader@, 0) =~= zero_sector());
        }
    }
    match crate::fat::format(&mut disk, &part) {
        Ok(()) => {},
        Err(e) => {
            return Err(ImageError::Format(e));
        },
    }
    assert(disk@[0] == d2[0]);
    proof {
        crate::fat::lemma_format_then_mount(d2, disk@, 0);
    }
    let mut fs = match mount(&disk, 0) {
        Ok(f) => f,
        Err(e) => {
            return Err(ImageError::Mount(e));
        },
    };
    let ghost d3 = disk@;
    let ghost vol = fs;
    proof {
        assert(vol.fat_entry(d3, ROOT_CLUSTER as int) != FREE);
        assert forall|q: int| 1 <= q < k implies (#[trigger] d3[q])@ == boot_chunk(bootloader@, q) by {
            assert(d3[q] == d2[q]);
            assert(d2[q] == d1[q]);
        }
        assert forall|q: int| 1 <= q < 64 && k <= q implies (#[trigger] d3[q])@ == zero_sector() by {
            assert(d3[q] == d2[q]);
            assert(d2[q] == d1[q]);
        }
    }
    let mut t: usize = 0;
    while t < tree.len()
        invariant
            fs.wf(),
            fs.part == part,
            part.start == PARTITION_START,
            part.within(disk@.len()),
            fs.reserved >= 1,
            fs.same_metadata(disk@, d3),
            t <= tree@.len(),
            n == size / 512,
            n >= 128,
            n <= u32::MAX,
            k == boot_sectors(bootloader@),
            k <= 64,
            d3.len() == n,
            forall|q: int| 1 <= q < k ==> (#[trigger] d3[q])@ == boot_chunk(bootloader@, q),
            d3[0]@ == encode_slot(boot_chunk(bootloader@, 0), 0, main_partition(n as int)),
            decode_slot(d3, 0) == Ok::<Partition, PartitionError>(Partition { start: PARTITION_START, size: (n - 64) as u32 }),
            mount_ok(d3, 0),
            forall|q: int| 1 <= q < 64 && k <= q ==> (#[trigger] d3[q])@ == zero_sector(),
            vol == volume_of(d3, part),
            vol.same_volume(fs),
            vol.wf(),
            vol.fat_entry(disk@, ROOT_CLUSTER as int) != FREE,
            forall|t2: int, n: Seq<u8>|
                0 <= t2 < t && #[trigger] plain_name(encode_utf8(tree@[t2].path@), n) ==> holds_item(
                    disk@,
                    vol,
                    tree@[t2],
                    n,
                ),
        decreases tree@.len() - t,
    {
        let item = &tree[t];
        let ghost before = disk@;
        let ghost fsb = fs;
        let path = item.path.as_str();
        assert(path.spec_bytes() == encode_utf8(tree@[t as int].path@));
        let res = if item.is_dir {
            fs.make_dir(&mut disk, path)
        } else {
            fs.write_file(&mut disk, path, item.data.as_slice())
        };
        match res {
            Ok(()) => {},
            Err(e) => {
                return Err(ImageError::FileSystem(e));
            },
        }
        proof {
            assert(fsb.fat_entry(before, ROOT_CLUSTER as int) == vol.fat_entry(before, ROOT_CLUSTER as int));
            assert(fsb.fat_entry(disk@, ROOT_CLUSTER as int) == vol.fat_entry(disk@, ROOT_CLUSTER as int));
            assert forall|t2: int, n: Seq<u8>|
                0 <= t2 < t + 1 && #[trigger] plain_name(encode_utf8(tree@[t2].path@), n) implies holds_item(
                    disk@,
                    vol,
                    tree@[t2],
                    n,
                ) by {
                if t2 < t {
                    assert(holds_item(before, vol, tree@[t2], n));
                    lemma_entries_kept(before, disk@, vol, fsb, n, tree@[t2].data@.len() as u32);
                } else if item.is_dir {
                    assert(plain_name(path.spec_bytes(), n));
                    assert(dir_made(disk@, fsb, ROOT_CLUSTER as int, n, 0));
                    lemma_entry_same_volume(disk@, vol, fsb, n, 0, 0);
                } else {
                    assert(plain_name(path.spec_bytes(), n));
                    let v = choose|v: Seq<u32>| {
                        &&& stores_file(disk@, fsb, v, item.data@)
                        &&& forall|n2: Seq<u8>| #[trigger]
                            plain_name(path.spec_bytes(), n2) ==> dir_has_file(
                                disk@,
                                fsb,
                                ROOT_CLUSTER as int,
                                n2,
                                item.data@.len() as u32,
                                first_of(v),
                            )
                    };
                    lemma_entry_same_volume(disk@, vol, fsb, n, item.data@.len() as u32, first_of(v));
                }
            }
        }
        t = t + 1;
    }
    proof {
        assert(!fs.in_fats(0) && !fs.in_data(0));
        assert(!fs.in_fats(PARTITION_START as int) && !fs.in_data(PARTITION_START as int));
        assert(disk@[0] == d3[0]);
        assert(disk@[PARTITION_START as int] == d3[PARTITION_START as int]);
        assert forall|q: int| 1 <= q < boot_sectors(bootloader@) implies (#[trigger] disk@[q])@ == boot_chunk(bootloader@, q) by {
            assert(!fs.in_fats(q) && !fs.in_data(q));
            assert(disk@[q] == d3[q]);
        }
        assert forall|q: int| 1 <= q < 64 && k <= q implies (#[trigger] disk@[q])@ == zero_sector() by {
            assert(!fs.in_fats(q) && !fs.in_data(q));
            assert(disk@[q] == d3[q]);
        }
        assert(volume_of(disk@, part) == volume_of(d3, part));
    }
    Ok(disk)
}

} // verus!
