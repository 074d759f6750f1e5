//! The MBR-style partition table held in sector 0, and partition views.
use vstd::prelude::*;
use crate::bytes::{le32, put32, set_u32, get_u32, lemma_put32_le32};
use crate::disk::RamDisk;

verus! {

/// Offset of the first descriptor slot within sector 0.
pub const TABLE_OFFSET: usize = 446;

/// Bytes in one descriptor slot.
pub const SLOT_SIZE: usize = 16;

/// Number of descriptor slots.
pub const SLOT_COUNT: usize = 4;

/// On-disk type code of a FAT32 (LBA) partition.
pub const FAT32_CODE: u8 = 0x0c;

/// Flag byte of an active (bootable) partition.
pub const ACTIVE_FLAG: u8 = 0x80;

#[derive(Debug, Clone, Copy, PartialEq, Eq, Structural)]
pub enum Format {
    Fat32,
}

/// One partition descriptor: where the partition lies, in sectors.
#[derive(Debug, Clone, Copy, PartialEq, Eq, Structural)]
pub struct PartitionInfo {
    pub format: Format,
    pub start: u32,
    pub size: u32,
    pub bootable: bool,
}

#[derive(Debug, Clone, Copy, PartialEq, Eq, Structural)]
pub enum PartitionError {
    /// The slot is not one of 0 to 3.
    BadSlot,
    /// The partition does not lie within the disk, or the disk has no table sector.
    OutOfBounds,
    /// The slot holds no recognised partition.
    Empty,
}

/// A window `[start, start + size)` over a disk's sectors.
#[derive(Debug, Clone, Copy, PartialEq, Eq, Structural)]
pub struct Partition {
    pub start: u32,
    pub size: u32,
}

pub open spec fn type_code(f: Format) -> u8 {
    match f {
        Format::Fat32 => FAT32_CODE,
    }
}

pub open spec fn slot_base(slot: int) -> int {
    TABLE_OFFSET + SLOT_SIZE * slot
}

/// The 16 bytes of a descriptor slot: flag, type code, first sector, sector
/// count; the cylinder/head/sector fields stay zero.
pub open spec fn slot_byte(info: PartitionInfo, k: int) -> u8 {
    if k == 0 {
        if info.bootable { ACTIVE_FLAG } else { 0u8 }
    } else if k == 4 {
        type_code(info.format)
    } else if 8 <= k < 12 {
        put32(Seq::new(4, |j: int| 0u8), 0, info.start)[k - 8]
    } else if 12 <= k < 16 {
        put32(Seq::new(4, |j: int| 0u8), 0, info.size)[k - 12]
    } else {
        0u8
    }
}

/// Sector 0 after `info` is stored in `slot`.
pub open spec fn encode_slot(sec: Seq<u8>, slot: int, info: PartitionInfo) -> Seq<u8> {
    Seq::new(
        sec.len(),
        |k: int|
            if slot_base(slot) <= k < slot_base(slot) + 16 {
                slot_byte(info, k - slot_base(slot))
            } else {
                sec[k]
            },
    )
}

/// Whether `info` describes a partition inside a disk of `n` sectors.
pub open spec fn fits(info: PartitionInfo, n: nat) -> bool {
    0 < n && info.start + info.size <= n
}

/// What reading `slot` of the table of disk `d` yields.
pub open spec fn decode_slot(d: Seq<[u8; 512]>, slot: int) -> Result<Partition, PartitionError> {
    if !(0 <= slot < 4) {
        Err(PartitionError::BadSlot)
    } else if d.len() == 0 {
        Err(PartitionError::OutOfBounds)
    } else if d[0]@[slot_base(slot) + 4] != FAT32_CODE {
        Err(PartitionError::Empty)
    } else if le32(d[0]@, slot_base(slot) + 8) + le32(d[0]@, slot_base(slot) + 12) > d.len() {
        Err(PartitionError::OutOfBounds)
    } else {
        Ok(
            Partition {
                start: le32(d[0]@, slot_base(slot) + 8),
                size: le32(d[0]@, slot_base(slot) + 12),
            },
        )
    }
}

impl Partition {
    /// Whether the window lies inside a disk of `n` sectors.
    pub open spec fn within(&self, n: nat) -> bool {
        self.start + self.size <= n
    }

    /// The absolute index of partition-relative sector `i`.
    pub open spec fn abs(&self, i: int) -> int {
        self.start + i
    }

    /// Partition-relative sector `i`, which must lie in the window.
    pub fn read(&self, disk: &RamDisk, i: u32) -> (r: [u8; 512])
        requires
            self.within(disk@.len()),
            i < self.size,
        ensures
            r == disk@[self.abs(i as int)],
    {
        let _n = disk.sector_count();
        disk.sector(self.start as usize + i as usize)
    }

    /// Overwrites partition-relative sector `i`, which must lie in the window.
    pub fn write(&self, disk: &mut RamDisk, i: u32, bytes: &[u8; 512])
        requires
            self.within(old(disk)@.len()),
            i < self.size,
        ensures
            final(disk)@ == old(disk)@.update(self.abs(i as int), *bytes),
    {
        let _n = disk.sector_count();
        disk.put(self.start as usize + i as usize, bytes);
    }
}

/// Stores `info` in `slot` of the table in sector 0; fails, leaving the disk
/// as it was, when the slot is not 0 to 3 or the partition does not fit.
pub fn set_pinfo(disk: &mut RamDisk, slot: usize, info: &PartitionInfo) -> (r: Result<
    (),
    PartitionError,
>)
    ensures
        slot >= 4 ==> r == Err::<(), PartitionError>(PartitionError::BadSlot),
        slot < 4 && !fits(*info, old(disk)@.len()) ==> r == Err::<(), PartitionError>(
            PartitionError::OutOfBounds,
        ),
        r is Err ==> final(disk)@ == old(disk)@,
        r is Ok <==> slot < 4 && fits(*info, old(disk)@.len()),
        r is Ok ==> final(disk)@ == old(disk)@.update(
            0,
            final(disk)@[0],
        ) && final(disk)@[0]@ == encode_slot(old(disk)@[0]@, slot as int, *info),
{
    if slot >= SLOT_COUNT {
        return Err(PartitionError::BadSlot);
    }
    let n = disk.sector_count();
    if n == 0 || info.start as u64 + info.size as u64 > n as u64 {
        return Err(PartitionError::OutOfBounds);
    }
    let mut sec = disk.sector(0);
    let ghost orig = sec@;
    let base = TABLE_OFFSET + SLOT_SIZE * slot;
    let mut k: usize = 0;
    while k < 16
        invariant
            base == slot_base(slot as int),
            slot < 4,
            k <= 16,
            sec@.len() == 512,
            orig.len() == 512,
            forall|j: int| 0 <= j < 512 && !(base <= j < base + k) ==> sec@[j] == orig[j],
            forall|j: int| base <= j < base + k ==> sec@[j] == 0u8,
        decreases 16 - k,
    {
        sec[base + k] = 0;
        k = k + 1;
    }
    sec[base] = if info.bootable { ACTIVE_FLAG } else { 0u8 };
    sec[base + 4] = match info.format {
        Format::Fat32 => FAT32_CODE,
    };
    set_u32(&mut sec, base + 8, info.start);
    set_u32(&mut sec, base + 12, info.size);
    proof {
        let e = encode_slot(orig, slot as int, *info);
        assert forall|j: int| 0 <= j < 512 implies sec@[j] == e[j] by {
            if base <= j < base + 16 {
                let z = Seq::new(4, |q: int| 0u8);
                if 8 <= j - base < 12 {
                    assert(put32(z, 0, info.start)[j - base - 8] == sec@[j]);
                } else if 12 <= j - base < 16 {
                    assert(put32(z, 0, info.size)[j - base - 12] == sec@[j]);
                }
            }
        }
        assert(sec@ =~= e);
    }
    disk.put(0, &sec);
    Ok(())
}

/// The partition described in `slot`; fails when the slot is not 0 to 3,
/// holds no FAT32 descriptor, or describes sectors beyond the disk.
pub fn get_partition(disk: &RamDisk, slot: usize) -> (r: Result<Partition, PartitionError>)
    ensures
        r == decode_slot(disk@, slot as int),
        r matches Ok(p) ==> p.within(disk@.len()),
{
    if slot >= SLOT_COUNT {
        return Err(PartitionError::BadSlot);
    }
    let n = disk.sector_count();
    if n == 0 {
        return Err(PartitionError::OutOfBounds);
    }
    let sec = disk.sector(0);
    let base = TABLE_OFFSET + SLOT_SIZE * slot;
    if sec[base + 4] != FAT32_CODE {
        return Err(PartitionError::Empty);
    }
    let start = get_u32(&sec, base + 8);
    let size = get_u32(&sec, base + 12);
    if start as u64 + size as u64 > n as u64 {
        return Err(PartitionError::OutOfBounds);
    }
    Ok(Partition { start, size })
}

/// Storing a descriptor that fits and reading the same slot back gives a
/// window that starts at the descriptor's first sector and has its length.
pub proof fn lemma_descriptor_round_trip(d: Seq<[u8; 512]>, e: Seq<[u8; 512]>, slot: int, info: PartitionInfo)
    requires
        0 <= slot < 4,
        fits(info, d.len()),
        e.len() == d.len(),
        e[0]@ == encode_slot(d[0]@, slot, info),
    ensures
        decode_slot(e, slot) == Ok::<Partition, PartitionError>(
            Partition { start: info.start, size: info.size },
        ),
{
    let b = slot_base(slot);
    let z = Seq::new(4, |j: int| 0u8);
    lemma_put32_le32(z, 0, info.start);
    lemma_put32_le32(z, 0, info.size);
    let ps = put32(z, 0, info.start);
    let pz = put32(z, 0, info.size);
    assert(e[0]@[b + 4] == FAT32_CODE);
    assert(e[0]@.subrange(b + 8, b + 12) =~= ps);
    assert(e[0]@.subrange(b + 12, b + 16) =~= pz);
    assert(le32(e[0]@, b + 8) == le32(ps, 0));
    assert(le32(e[0]@, b + 12) == le32(pz, 0));
}

} // verus!
