//! FAT32 volumes: geometry, the formatter, and mounting.
use vstd::prelude::*;
use crate::bytes::{le16, le32, get_u16, get_u32, set_u16, set_u32, lemma_le16_bytes, lemma_le32_bytes};
use crate::disk::{RamDisk, zero_sector};
use crate::partition::{Partition, get_partition, decode_slot};
use vstd::arithmetic::div_mod::{lemma_div_is_ordered, lemma_fundamental_div_mod, lemma_mod_pos_bound};

verus! {

/// Sectors before the first FAT.
pub const RESERVED_SECTORS: u32 = 32;

/// Copies of the FAT that the formatter writes.
pub const FAT_COUNT: u32 = 2;

/// Cluster of the root directory.
pub const ROOT_CLUSTER: u32 = 2;

/// FAT entry of a free cluster.
pub const FREE: u32 = 0;

/// FAT entry that ends a cluster chain.
pub const END_OF_CHAIN: u32 = 0xffff_ffff;

/// FAT entry 0: the media descriptor in the low byte.
pub const MEDIA_ENTRY: u32 = 0xffff_fff8;

/// Partition-relative sector of the FSInfo structure.
pub const FSINFO_SECTOR: u32 = 1;

/// Partition-relative sector of the backup boot sector.
pub const BACKUP_BOOT_SECTOR: u32 = 6;

/// FAT entries per sector.
pub const ENTRIES_PER_SECTOR: u32 = 128;

#[derive(Debug, Clone, Copy, PartialEq, Eq, Structural)]
pub enum FormatError {
    /// The partition cannot hold the reserved sectors, the FATs and a root directory.
    TooSmall,
}

#[derive(Debug, Clone, Copy, PartialEq, Eq, Structural)]
pub enum MountError {
    /// The slot holds no usable partition.
    NoPartition,
    /// The partition's first sector is not a FAT32 boot sector that this library can use.
    NotFat32,
}

/// Sectors per cluster for a partition of `size` sectors: larger
/// partitions get larger clusters.
pub open spec fn cluster_sectors_for(size: int) -> int {
    if size <= 532480 {
        1
    } else if size <= 16777216 {
        8
    } else if size <= 33554432 {
        16
    } else if size <= 67108864 {
        32
    } else {
        64
    }
}

/// Sectors of one FAT: enough for an entry per cluster of the partition,
/// plus the two reserved entries.
pub open spec fn fat_sectors_for(size: int) -> int {
    let spc = cluster_sectors_for(size);
    (((size + spc - 1) / spc + 2) * 4 + 511) / 512
}

/// First data sector of a volume of `size` sectors.
pub open spec fn data_start_for(size: int) -> int {
    RESERVED_SECTORS + FAT_COUNT * fat_sectors_for(size)
}

/// Whether a partition of `size` sectors can hold a FAT32 volume.
pub open spec fn formattable(size: int) -> bool {
    data_start_for(size) + cluster_sectors_for(size) <= size
}

/// The geometry that a boot sector records, for a partition of `size` sectors.
pub open spec fn boot_sector_ok(sec: Seq<u8>, size: int) -> bool {
    let spc = sec[13] as int;
    let reserved = le16(sec, 14) as int;
    let fats = sec[16] as int;
    let fat_sectors = le32(sec, 36) as int;
    let data_start = if fats == 1 {
        reserved + fat_sectors
    } else {
        reserved + 2 * fat_sectors
    };
    &&& sec[510] == 0x55u8
    &&& sec[511] == 0xaau8
    &&& le16(sec, 11) == 512
    &&& 1 <= spc <= 128
    &&& 1 <= reserved
    &&& 1 <= fats <= 2
    &&& 1 <= fat_sectors
    &&& le32(sec, 44) == ROOT_CLUSTER
    &&& le32(sec, 32) as int == size
    &&& data_start + spc <= size
    &&& (size - data_start) / spc + 2 <= fat_sectors * 128
}

/// A mounted FAT32 volume: the geometry read from its boot sector and the
/// cluster where the search for free clusters resumes.
#[derive(Debug, Clone, Copy, PartialEq, Eq, Structural)]
pub struct FatFs {
    pub part: Partition,
    pub spc: u32,
    pub reserved: u32,
    pub fats: u32,
    pub fat_sectors: u32,
    pub data_start: u32,
    pub clusters: u32,
    pub cursor: u32,
}

impl FatFs {
    pub open spec fn wf(&self) -> bool {
        &&& 1 <= self.spc <= 128
        &&& 1 <= self.reserved
        &&& 1 <= self.fat_sectors
        &&& (self.fats == 1 && self.data_start == self.reserved + self.fat_sectors) || (
        self.fats == 2 && self.data_start == self.reserved + 2 * self.fat_sectors)
        &&& 1 <= self.clusters
        &&& self.data_start + self.clusters * self.spc <= self.part.size
        &&& self.data_start + self.clusters <= self.part.size
        &&& self.clusters + 2 <= self.fat_sectors * 128
        &&& 2 <= self.cursor < self.clusters + 2
    }

    /// Whether `c` names a data cluster of the volume.
    pub open spec fn is_cluster(&self, c: int) -> bool {
        2 <= c < self.clusters + 2
    }

    /// Partition-relative first sector of cluster `c`.
    pub open spec fn cluster_sector(&self, c: int) -> int {
        self.data_start + (c - 2) * self.spc
    }

    /// Absolute sector of the primary FAT that holds entry `c`.
    pub open spec fn fat_sector_of(&self, c: int) -> int {
        self.part.start + self.reserved + c / 128
    }

    /// Entry `c` of the primary FAT on disk `d`.
    pub open spec fn fat_entry(&self, d: Seq<[u8; 512]>, c: int) -> u32 {
        le32(d[self.fat_sector_of(c)]@, (c % 128) * 4)
    }

    /// Whether absolute sector `i` lies in the partition's data region.
    pub open spec fn in_data(&self, i: int) -> bool {
        self.part.start + self.data_start <= i < self.part.start + self.part.size
    }

    /// Whether absolute sector `i` lies in the partition's FAT region.
    pub open spec fn in_fats(&self, i: int) -> bool {
        self.part.start + self.reserved <= i < self.part.start + self.data_start
    }

    /// Whether `d` and `e` differ at most in the FAT and data regions.
    pub open spec fn same_metadata(&self, d: Seq<[u8; 512]>, e: Seq<[u8; 512]>) -> bool {
        &&& d.len() == e.len()
        &&& forall|i: int|
            0 <= i < d.len() && !self.in_fats(i) && !self.in_data(i) ==> #[trigger] d[i] == e[i]
    }

    /// Free clusters among clusters `lo` to `hi - 1`, by the primary FAT of `d`.
    pub open spec fn free_in(&self, d: Seq<[u8; 512]>, lo: int, hi: int) -> nat
        decreases hi - lo,
    {
        if lo >= hi {
            0
        } else {
            self.free_in(d, lo, hi - 1) + if self.fat_entry(d, hi - 1) == FREE {
                1nat
            } else {
                0nat
            }
        }
    }

    /// Free data clusters of the volume on disk `d`.
    pub open spec fn free_clusters(&self, d: Seq<[u8; 512]>) -> nat {
        self.free_in(d, 2, self.clusters + 2)
    }

    /// Clusters that a file of `len` bytes occupies.
    pub open spec fn clusters_needed(&self, len: int) -> int {
        len / (self.spc * 512) + if len % (self.spc * 512) != 0 {
            1int
        } else {
            0
        }
    }

    pub proof fn lemma_free_split(&self, d: Seq<[u8; 512]>, a: int, b: int, c: int)
        requires
            a <= b <= c,
        ensures
            self.free_in(d, a, c) == self.free_in(d, a, b) + self.free_in(d, b, c),
            self.free_in(d, a, c) <= c - a,
        decreases c - b,
    {
        if b < c {
            self.lemma_free_split(d, a, b, c - 1);
        } else {
            self.lemma_free_bound(d, a, c);
        }
    }

    pub proof fn lemma_free_bound(&self, d: Seq<[u8; 512]>, a: int, c: int)
        ensures
            a <= c ==> self.free_in(d, a, c) <= c - a,
        decreases c - a,
    {
        if a < c {
            self.lemma_free_bound(d, a, c - 1);
        }
    }

    pub proof fn lemma_cluster_in_data(&self, c: int, j: int)
        requires
            self.wf(),
            self.is_cluster(c),
            0 <= j < self.spc,
        ensures
            self.data_start <= self.cluster_sector(c) + j < self.part.size,
    {
        let k = c - 2;
        let spc = self.spc as int;
        assert(k * spc + j < self.clusters * spc) by (nonlinear_arith)
            requires
                0 <= k < self.clusters,
                0 <= j < spc,
        {
            assert(k * spc + j < k * spc + spc);
            assert(k * spc + spc == (k + 1) * spc);
            assert((k + 1) * spc <= self.clusters * spc);
        }
        assert(0 <= k * spc) by (nonlinear_arith)
            requires
                0 <= k,
                0 <= spc,
        ;
    }

    /// Partition-relative first sector of cluster `c`.
    pub fn first_sector(&self, c: u32) -> (r: u32)
        requires
            self.wf(),
            self.is_cluster(c as int),
        ensures
            r == self.cluster_sector(c as int),
            self.data_start <= r,
            r + self.spc <= self.part.size,
    {
        proof {
            self.lemma_cluster_in_data(c as int, 0);
            self.lemma_cluster_in_data(c as int, self.spc - 1);
        }
        self.data_start + (c - 2) * self.spc
    }

    /// Absolute index of sector `s` of cluster `c`.
    pub open spec fn cluster_abs(&self, c: int, s: int) -> int {
        self.part.start + self.cluster_sector(c) + s
    }

    /// Sectors of distinct clusters are distinct.
    pub proof fn lemma_clusters_disjoint(&self, c1: int, s1: int, c2: int, s2: int)
        requires
            self.wf(),
            self.is_cluster(c1),
            self.is_cluster(c2),
            c1 != c2,
            0 <= s1 < self.spc,
            0 <= s2 < self.spc,
        ensures
            self.cluster_abs(c1, s1) != self.cluster_abs(c2, s2),
    {
        let spc = self.spc as int;
        let a = c1 - 2;
        let b = c2 - 2;
        if a < b {
            assert(a * spc + s1 < b * spc) by (nonlinear_arith)
                requires
                    0 <= a < b,
                    0 <= s1 < spc,
            {
                assert(a * spc + spc <= b * spc);
            }
        } else {
            assert(b * spc + s2 < a * spc) by (nonlinear_arith)
                requires
                    0 <= b < a,
                    0 <= s2 < spc,
            {
                assert(b * spc + spc <= a * spc);
            }
        }
    }

    /// Entry `c` of the primary FAT.
    pub fn get_fat(&self, disk: &RamDisk, c: u32) -> (r: u32)
        requires
            self.wf(),
            self.part.within(disk@.len()),
            self.is_cluster(c as int),
        ensures
            r == self.fat_entry(disk@, c as int),
    {
        let sec = self.part.read(disk, self.reserved + c / ENTRIES_PER_SECTOR);
        get_u32(&sec, ((c % ENTRIES_PER_SECTOR) * 4) as usize)
    }

    /// Sets entry `c` in every copy of the FAT to `v`.
    pub fn set_fat(&self, disk: &mut RamDisk, c: u32, v: u32)
        requires
            self.wf(),
            self.part.within(old(disk)@.len()),
            c < self.clusters + 2,
        ensures
            final(disk)@.len() == old(disk)@.len(),
            self.fat_entry(final(disk)@, c as int) == v,
            forall|i: int|
                0 <= i < old(disk)@.len() && !self.in_fats(i) ==> #[trigger] final(disk)@[i]
                    == old(disk)@[i],
            forall|q: int|
                0 <= q < self.clusters + 2 && q != c ==> #[trigger] self.fat_entry(final(disk)@, q)
                    == self.fat_entry(old(disk)@, q),
    {
        let ghost d0 = disk@;
        let idx = c / ENTRIES_PER_SECTOR;
        let off = ((c % ENTRIES_PER_SECTOR) * 4) as usize;
        let mut k: u32 = 0;
        while k < self.fats
            invariant
                self.wf(),
                self.part.within(disk@.len()),
                disk@.len() == d0.len(),
                idx == c / 128,
                off == (c % 128) * 4,
                c < self.clusters + 2,
                k <= self.fats,
                k >= 1 ==> self.fat_entry(disk@, c as int) == v,
                forall|i: int|
                    0 <= i < d0.len() && !self.in_fats(i) ==> #[trigger] disk@[i] == d0[i],
                forall|q: int|
                    0 <= q < self.clusters + 2 && q != c ==> #[trigger] self.fat_entry(disk@, q)
                        == self.fat_entry(d0, q),
            decreases self.fats - k,
        {
            proof {
                assert(self.clusters * self.spc >= 0) by (nonlinear_arith)
                    requires
                        self.clusters >= 0,
                        self.spc >= 0,
                ;
                assert(idx < self.fat_sectors);
            }
            let rel = if k == 0 {
                self.reserved + idx
            } else {
                self.reserved + self.fat_sectors + idx
            };
            assert(self.in_fats(self.part.start + rel));
            let mut sec = self.part.read(disk, rel);
            let ghost before = disk@;
            set_u32(&mut sec, off, v);
            proof {
                lemma_le32_bytes(v);
            }
            self.part.write(disk, rel, &sec);
            proof {
                assert forall|q: int|
                    0 <= q < self.clusters + 2 && q != c implies #[trigger] self.fat_entry(disk@, q)
                        == self.fat_entry(d0, q) by {
                    if self.fat_sector_of(q) == self.part.start + rel {
                        assert(q / 128 == c / 128);
                        assert(q % 128 != c % 128);
                    }
                    assert(self.fat_entry(disk@, q) == self.fat_entry(before, q));
                }
            }
            k = k + 1;
        }
    }
}


/// Sectors per cluster for a partition of `size` sectors.
fn cluster_sectors(size: u32) -> (r: u32)
    ensures
        r == cluster_sectors_for(size as int),
{
    if size <= 532480 {
        1
    } else if size <= 16777216 {
        8
    } else if size <= 33554432 {
        16
    } else if size <= 67108864 {
        32
    } else {
        64
    }
}

proof fn lemma_cluster_count_fits(size: int, data_start: int, spc: int, fat_sectors: int)
    requires
        spc >= 1,
        0 <= data_start <= size,
        fat_sectors == (((size + spc - 1) / spc + 2) * 4 + 511) / 512,
    ensures
        (size - data_start) / spc + 2 <= fat_sectors * 128,
{
    lemma_div_is_ordered(size - data_start, size + spc - 1, spc);
}

proof fn lemma_whole_clusters(x: int, spc: int)
    requires
        x >= 0,
        spc >= 1,
    ensures
        (x / spc) * spc <= x,
        x / spc >= 0,
{
    lemma_fundamental_div_mod(x, spc);
    lemma_mod_pos_bound(x, spc);
    assert(x / spc >= 0) by (nonlinear_arith)
        requires
            x >= 0,
            spc >= 1,
    ;
    assert((x / spc) * spc == spc * (x / spc)) by (nonlinear_arith);
}

/// The boot sector of a volume over `part` with the given geometry.
fn boot_sector(part: &Partition, spc: u32, fat_sectors: u32) -> (r: [u8; 512])
    requires
        1 <= spc <= 128,
    ensures
        r@[510] == 0x55u8,
        r@[511] == 0xaau8,
        le16(r@, 11) == 512,
        r@[13] as int == spc,
        le16(r@, 14) == RESERVED_SECTORS,
        r@[16] as int == FAT_COUNT,
        le32(r@, 32) == part.size,
        le32(r@, 36) == fat_sectors,
        le32(r@, 44) == ROOT_CLUSTER,
{
    let mut s: [u8; 512] = [0u8; 512];
    s[0] = 0xeb;
    s[1] = 0x58;
    s[2] = 0x90;
    let oem: [u8; 8] = [0x4d, 0x4b, 0x44, 0x49, 0x53, 0x4b, 0x20, 0x20];
    let label: [u8; 11] = [0x4e, 0x4f, 0x20, 0x4e, 0x41, 0x4d, 0x45, 0x20, 0x20, 0x20, 0x20];
    let kind: [u8; 8] = [0x46, 0x41, 0x54, 0x33, 0x32, 0x20, 0x20, 0x20];
    let mut k: usize = 0;
    while k < 8
        invariant
            k <= 8,
            s@[510] == 0u8 && s@[511] == 0u8,
            forall|j: int| 11 <= j < 67 ==> s@[j] == 0u8,
        decreases 8 - k,
    {
        s[3 + k] = oem[k];
        s[82 + k] = kind[k];
        k = k + 1;
    }
    k = 0;
    while k < 11
        invariant
            k <= 11,
            s@[510] == 0u8 && s@[511] == 0u8,
            forall|j: int| 11 <= j < 67 ==> s@[j] == 0u8,
        decreases 11 - k,
    {
        s[71 + k] = label[k];
        k = k + 1;
    }
    set_u16(&mut s, 11, 512);
    s[13] = spc as u8;
    set_u16(&mut s, 14, RESERVED_SECTORS as u16);
    s[16] = FAT_COUNT as u8;
    s[21] = 0xf8;
    set_u16(&mut s, 24, 32);
    set_u16(&mut s, 26, 64);
    set_u32(&mut s, 28, part.start);
    set_u32(&mut s, 32, part.size);
    set_u32(&mut s, 36, fat_sectors);
    set_u32(&mut s, 44, ROOT_CLUSTER);
    set_u16(&mut s, 48, FSINFO_SECTOR as u16);
    set_u16(&mut s, 50, BACKUP_BOOT_SECTOR as u16);
    s[64] = 0x80;
    s[66] = 0x29;
    set_u32(&mut s, 67, 0x4d4b_4453);
    s[510] = 0x55;
    s[511] = 0xaa;
    proof {
        lemma_le16_bytes(512);
        lemma_le16_bytes(32);
        lemma_le32_bytes(part.size);
        lemma_le32_bytes(fat_sectors);
        lemma_le32_bytes(2);
    }
    s
}

/// The FSInfo sector: free-cluster count and next free cluster left unknown.
fn fsinfo_sector() -> (r: [u8; 512])
    ensures
        le32(r@, 0) == 0x4161_5252,
        le32(r@, 484) == 0x6141_7272,
        le32(r@, 488) == 0xffff_ffff,
        le32(r@, 492) == 0xffff_ffff,
        le32(r@, 508) == 0xaa55_0000,
{
    let mut s: [u8; 512] = [0u8; 512];
    set_u32(&mut s, 0, 0x4161_5252);
    set_u32(&mut s, 484, 0x6141_7272);
    set_u32(&mut s, 488, 0xffff_ffff);
    set_u32(&mut s, 492, 0xffff_ffff);
    set_u32(&mut s, 508, 0xaa55_0000);
    proof {
        lemma_le32_bytes(0x4161_5252);
        lemma_le32_bytes(0x6141_7272);
        lemma_le32_bytes(0xffff_ffff);
        lemma_le32_bytes(0xaa55_0000);
    }
    s
}

/// Lays down a FAT32 volume over `part`: zeroed FATs whose first entries
/// mark clusters 0 and 1 reserved and end the root directory's chain at
/// cluster 2, an empty root directory, the FSInfo sector, and the primary
/// and backup boot sectors. Fails, leaving the disk as it was, when the
/// partition cannot hold those regions. Sectors outside the partition are
/// never touched.
pub fn format(disk: &mut RamDisk, part: &Partition) -> (r: Result<(), FormatError>)
    requires
        part.within(old(disk)@.len()),
    ensures
        r is Ok <==> formattable(part.size as int),
        r is Err ==> r == Err::<(), FormatError>(FormatError::TooSmall) && final(disk)@ == old(
            disk,
        )@,
        final(disk)@.len() == old(disk)@.len(),
        forall|i: int|
            0 <= i < old(disk)@.len() && !(part.start <= i < part.start + part.size)
                ==> #[trigger] final(disk)@[i] == old(disk)@[i],
        r is Ok ==> boot_sector_ok(final(disk)@[part.start as int]@, part.size as int),
        r is Ok ==> le32(final(disk)@[part.start + RESERVED_SECTORS]@, 8) == END_OF_CHAIN,
        r is Ok ==> le16(final(disk)@[part.start as int]@, 14) == RESERVED_SECTORS,
        r is Ok ==> final(disk)@[part.start as int]@[13] as int == cluster_sectors_for(part.size as int),
        r is Ok ==> le32(final(disk)@[part.start as int]@, 36) as int == fat_sectors_for(part.size as int),
        r is Ok ==> final(disk)@[part.start + BACKUP_BOOT_SECTOR] == final(disk)@[part.start as int],
        r is Ok ==> le32(final(disk)@[part.start + RESERVED_SECTORS]@, 0) == MEDIA_ENTRY,
        r is Ok ==> le32(final(disk)@[part.start + RESERVED_SECTORS]@, 4) == END_OF_CHAIN,
        r is Ok ==> final(disk)@[part.start + RESERVED_SECTORS + fat_sectors_for(part.size as int)]
            == final(disk)@[part.start + RESERVED_SECTORS],
        r is Ok ==> {
            let info = final(disk)@[part.start + FSINFO_SECTOR]@;
            &&& le32(info, 0) == 0x4161_5252
            &&& le32(info, 484) == 0x6141_7272
            &&& le32(info, 488) == 0xffff_ffff
            &&& le32(info, 492) == 0xffff_ffff
            &&& le32(info, 508) == 0xaa55_0000
        },
        r is Ok ==> forall|b: int|
            12 <= b < 512 ==> #[trigger] final(disk)@[part.start + RESERVED_SECTORS]@[b] == 0u8,
        r is Ok ==> forall|j: int|
            RESERVED_SECTORS < j < data_start_for(part.size as int) + cluster_sectors_for(
                part.size as int,
            ) && j != RESERVED_SECTORS + fat_sectors_for(part.size as int) ==> (
            #[trigger] final(disk)@[part.start + j])@ == zero_sector(),
{
    let size = part.size;
    let spc = cluster_sectors(size);
    proof {
        let x = size as int + spc as int - 1;
        assert(x / (spc as int) <= x) by (nonlinear_arith)
            requires
                x >= 0,
                spc >= 1,
        ;
    }
    let q: u64 = (size as u64 + spc as u64 - 1) / spc as u64;
    assert(q <= size as int + spc as int - 1);
    let fat_sectors_w: u64 = ((q + 2) * 4 + 511) / 512;
    assert(fat_sectors_w <= q + 2);
    let data_start_w: u64 = RESERVED_SECTORS as u64 + 2 * fat_sectors_w;
    if data_start_w + spc as u64 > size as u64 {
        return Err(FormatError::TooSmall);
    }
    let fat_sectors = fat_sectors_w as u32;
    let data_start = data_start_w as u32;
    let ghost d0 = disk@;
    let zero: [u8; 512] = [0u8; 512];
    assert(zero@ =~= zero_sector());
    // Both FATs and the root directory's cluster, zeroed.
    let mut i: u32 = RESERVED_SECTORS;
    while i < data_start + spc
        invariant
            part.within(disk@.len()),
            zero@ == zero_sector(),
            RESERVED_SECTORS <= i <= data_start + spc,
            forall|j: int| RESERVED_SECTORS <= j < i ==> (#[trigger] disk@[part.start + j])@ == zero_sector(),
            data_start + spc <= size,
            size == part.size,
            disk@.len() == d0.len(),
            forall|j: int|
                0 <= j < d0.len() && !(part.start <= j < part.start + part.size)
                    ==> #[trigger] disk@[j] == d0[j],
        decreases data_start + spc - i,
    {
        part.write(disk, i, &zero);
        i = i + 1;
    }
    let mut first: [u8; 512] = [0u8; 512];
    set_u32(&mut first, 0, MEDIA_ENTRY);
    set_u32(&mut first, 4, END_OF_CHAIN);
    set_u32(&mut first, 8, END_OF_CHAIN);
    proof {
        lemma_le32_bytes(END_OF_CHAIN);
        lemma_le32_bytes(MEDIA_ENTRY);
    }
    let ghost dz = disk@;
    part.write(disk, RESERVED_SECTORS, &first);
    part.write(disk, RESERVED_SECTORS + fat_sectors, &first);
    let info = fsinfo_sector();
    part.write(disk, FSINFO_SECTOR, &info);
    let boot = boot_sector(part, spc, fat_sectors);
    part.write(disk, BACKUP_BOOT_SECTOR, &boot);
    part.write(disk, 0, &boot);
    proof {
        lemma_cluster_count_fits(size as int, data_start as int, spc as int, fat_sectors as int);
        assert(disk@[part.start as int] == boot);
        assert(disk@[part.start + RESERVED_SECTORS] == first);
        assert(disk@[part.start + RESERVED_SECTORS + fat_sectors] == first);
        assert(disk@[part.start + FSINFO_SECTOR] == info);
        assert(disk@[part.start + BACKUP_BOOT_SECTOR] == boot);
        assert forall|j: int|
            RESERVED_SECTORS < j < data_start + spc && j != RESERVED_SECTORS + fat_sectors implies (
            #[trigger] disk@[part.start + j])@ == zero_sector() by {
            assert(disk@[part.start + j] == dz[part.start + j]);
        }
    }
    Ok(())
}

/// Whether mounting the partition in `slot` of disk `d` succeeds.
pub open spec fn mount_ok(d: Seq<[u8; 512]>, slot: int) -> bool {
    &&& decode_slot(d, slot) is Ok
    &&& decode_slot(d, slot)->Ok_0.size >= 1
    &&& boot_sector_ok(
        d[decode_slot(d, slot)->Ok_0.start as int]@,
        decode_slot(d, slot)->Ok_0.size as int,
    )
}

/// The volume that mounting partition `p` of disk `d` gives, as its boot
/// sector records it.
pub open spec fn volume_of(d: Seq<[u8; 512]>, p: Partition) -> FatFs {
    let sec = d[p.start as int]@;
    let data_start = le16(sec, 14) as int + sec[16] as int * le32(sec, 36) as int;
    FatFs {
        part: p,
        spc: sec[13] as u32,
        reserved: le16(sec, 14) as u32,
        fats: sec[16] as u32,
        fat_sectors: le32(sec, 36),
        data_start: data_start as u32,
        clusters: ((p.size - data_start) / (sec[13] as int)) as u32,
        cursor: ROOT_CLUSTER,
    }
}

/// Mounts the FAT32 volume in partition `slot`: reads the partition table,
/// then checks the boot sector's signature and geometry. The search for
/// free clusters starts at the root directory's cluster.
pub fn mount(disk: &RamDisk, slot: usize) -> (r: Result<FatFs, MountError>)
    ensures
        r is Ok <==> mount_ok(disk@, slot as int),
        !(decode_slot(disk@, slot as int) is Ok) ==> r == Err::<FatFs, MountError>(
            MountError::NoPartition,
        ),
        r matches Ok(fs) ==> {
            &&& fs.wf()
            &&& fs.part == decode_slot(disk@, slot as int)->Ok_0
            &&& fs.part.within(disk@.len())
            &&& fs.cursor == ROOT_CLUSTER
            &&& fs == volume_of(disk@, fs.part)
            &&& fs.spc == disk@[fs.part.start as int]@[13]
            &&& fs.reserved == le16(disk@[fs.part.start as int]@, 14)
            &&& fs.fats == disk@[fs.part.start as int]@[16]
            &&& fs.fat_sectors == le32(disk@[fs.part.start as int]@, 36)
        },
{
    let part = match get_partition(disk, slot) {
        Ok(p) => p,
        Err(_) => {
            return Err(MountError::NoPartition);
        },
    };
    if part.size == 0 {
        return Err(MountError::NotFat32);
    }
    let sec = part.read(disk, 0);
    let size = part.size as u64;
    let spc = sec[13] as u64;
    let reserved = get_u16(&sec, 14) as u64;
    let fats = sec[16] as u64;
    let fat_sectors = get_u32(&sec, 36) as u64;
    if sec[510] != 0x55 || sec[511] != 0xaa || get_u16(&sec, 11) != 512 || spc < 1 || spc > 128
        || reserved < 1 || fats < 1 || fats > 2 || fat_sectors < 1 || get_u32(&sec, 44)
        != ROOT_CLUSTER || get_u32(&sec, 32) as u64 != size {
        return Err(MountError::NotFat32);
    }
    let data_start = if fats == 1 {
        reserved + fat_sectors
    } else {
        reserved + 2 * fat_sectors
    };
    if data_start + spc > size {
        return Err(MountError::NotFat32);
    }
    let clusters = (size - data_start) / spc;
    if clusters + 2 > fat_sectors * 128 {
        return Err(MountError::NotFat32);
    }
    proof {
        lemma_whole_clusters(size - data_start, spc as int);
        assert(clusters * spc >= clusters) by (nonlinear_arith)
            requires
                clusters >= 0,
                spc >= 1,
        ;
        assert(clusters >= 1) by {
            lemma_div_is_ordered(spc as int, (size - data_start) as int, spc as int);
            vstd::arithmetic::div_mod::lemma_div_basics(spc as int);
        }
    }
    Ok(
        FatFs {
            part,
            spc: spc as u32,
            reserved: reserved as u32,
            fats: fats as u32,
            fat_sectors: fat_sectors as u32,
            data_start: data_start as u32,
            clusters: clusters as u32,
            cursor: ROOT_CLUSTER,
        },
    )
}

/// Formatting the partition of a slot and then mounting that slot
/// succeeds, as long as the partition does not cover the table's sector:
/// the conditions are what `format` ensures of the disk `e` it leaves.
pub proof fn lemma_format_then_mount(d: Seq<[u8; 512]>, e: Seq<[u8; 512]>, slot: int)
    requires
        decode_slot(d, slot) is Ok,
        decode_slot(d, slot)->Ok_0.start >= 1,
        formattable(decode_slot(d, slot)->Ok_0.size as int),
        e.len() == d.len(),
        forall|i: int|
            0 <= i < d.len() && !(decode_slot(d, slot)->Ok_0.start <= i
                < decode_slot(d, slot)->Ok_0.start + decode_slot(d, slot)->Ok_0.size)
                ==> #[trigger] e[i] == d[i],
        boot_sector_ok(
            e[decode_slot(d, slot)->Ok_0.start as int]@,
            decode_slot(d, slot)->Ok_0.size as int,
        ),
    ensures
        mount_ok(e, slot),
{
    assert(e[0] == d[0]);
    assert(decode_slot(e, slot) == decode_slot(d, slot));
}

/// Every partition of at least 64 sectors can hold a FAT32 volume.
pub proof fn lemma_formattable(size: int)
    requires
        64 <= size <= u32::MAX,
    ensures
        formattable(size),
{
    let spc = cluster_sectors_for(size);
    let q = (size + spc - 1) / spc;
    let f = fat_sectors_for(size);
    assert(f == ((q + 2) * 4 + 511) / 512);
    if size <= 532480 {
        assert(q == size);
    } else if size <= 16777216 {
        assert(q <= size / 8 + 1);
    } else if size <= 33554432 {
        assert(q <= size / 16 + 1);
    } else if size <= 67108864 {
        assert(q <= size / 32 + 1);
    } else {
        assert(q <= size / 64 + 1);
    }
    assert(f <= (q + 2) / 128 + 1);
}

} // verus!
