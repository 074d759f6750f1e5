//! A fixed-capacity, memory-backed store of 512-byte sectors.
use vstd::prelude::*;

verus! {

/// Bytes in one sector.
pub const SECTOR_SIZE: usize = 512;

/// A sector whose bytes are all zero.
pub open spec fn zero_sector() -> Seq<u8> {
    Seq::new(512, |k: int| 0u8)
}

#[derive(Debug, Clone, Copy, PartialEq, Eq, Structural)]
pub enum DiskError {
    /// The sector index is not below the sector count.
    OutOfRange,
}

/// An ordered sequence of sectors, zero-filled at creation; its length
/// never changes.
pub struct RamDisk {
    sectors: Vec<[u8; 512]>,
}

impl View for RamDisk {
    type V = Seq<[u8; 512]>;

    closed spec fn view(&self) -> Seq<[u8; 512]> {
        self.sectors@
    }
}

impl RamDisk {
    /// A disk of `count` zero-filled sectors.
    pub fn new(count: usize) -> (r: RamDisk)
        ensures
            r@.len() == count,
            forall|i: int| 0 <= i < count ==> (#[trigger] r@[i])@ == zero_sector(),
    {
        let mut sectors: Vec<[u8; 512]> = Vec::new();
        let mut i: usize = 0;
        while i < count
            invariant
                i <= count,
                sectors@.len() == i,
                forall|k: int| 0 <= k < i ==> (#[trigger] sectors@[k])@ == zero_sector(),
            decreases count - i,
        {
            let z: [u8; 512] = [0u8; 512];
            assert(z@ =~= zero_sector());
            sectors.push(z);
            i = i + 1;
        }
        RamDisk { sectors }
    }

    pub fn sector_count(&self) -> (n: usize)
        ensures
            n == self@.len(),
    {
        self.sectors.len()
    }

    /// The sector at `index`.
    pub fn read_sector(&self, index: usize) -> (r: Result<[u8; 512], DiskError>)
        ensures
            index < self@.len() ==> r == Ok::<[u8; 512], DiskError>(self@[index as int]),
            index >= self@.len() ==> r == Err::<[u8; 512], DiskError>(DiskError::OutOfRange),
    {
        if index < self.sectors.len() {
            Ok(self.sectors[index])
        } else {
            Err(DiskError::OutOfRange)
        }
    }

    /// The sector at `index`, which must exist.
    pub fn sector(&self, index: usize) -> (r: [u8; 512])
        requires
            index < self@.len(),
        ensures
            r == self@[index as int],
    {
        self.sectors[index]
    }

    /// Overwrites the sector at `index`; fails, leaving the disk as it
    /// was, when `index` is not below the sector count.
    pub fn write_sector(&mut self, index: usize, bytes: &[u8; 512]) -> (r: Result<(), DiskError>)
        ensures
            index < old(self)@.len() ==> r is Ok && final(self)@ == old(self)@.update(
                index as int,
                *bytes,
            ),
            index >= old(self)@.len() ==> r == Err::<(), DiskError>(DiskError::OutOfRange)
                && final(self)@ == old(self)@,
    {
        if index < self.sectors.len() {
            self.put(index, bytes);
            Ok(())
        } else {
            Err(DiskError::OutOfRange)
        }
    }

    /// Overwrites the sector at `index`, which must exist.
    pub fn put(&mut self, index: usize, bytes: &[u8; 512])
        requires
            index < old(self)@.len(),
        ensures
            final(self)@ == old(self)@.update(index as int, *bytes),
    {
        self.sectors.set(index, *bytes);
    }

    /// All sectors in order, concatenated.
    pub fn to_bytes(&self) -> (r: Vec<u8>)
        requires
            self@.len() * 512 <= usize::MAX,
        ensures
            r@.len() == self@.len() * 512,
            forall|i: int, j: int|
                0 <= i < self@.len() && 0 <= j < 512 ==> r@[i * 512 + j] == #[trigger] self@[i]@[j],
    {
        let mut out: Vec<u8> = Vec::new();
        let n = self.sectors.len();
        let mut i: usize = 0;
        while i < n
            invariant
                n == self@.len(),
                i <= n,
                out@.len() == i * 512,
                forall|a: int, j: int|
                    0 <= a < i && 0 <= j < 512 ==> out@[a * 512 + j] == #[trigger] self@[a]@[j],
            decreases n - i,
        {
            let s: &[u8; 512] = &self.sectors[i];
            let mut j: usize = 0;
            while j < 512
                invariant
                    n == self@.len(),
                    i < n,
                    *s == self@[i as int],
                    j <= 512,
                    out@.len() == i * 512 + j,
                    forall|a: int, b: int|
                        0 <= a < i && 0 <= b < 512 ==> out@[a * 512 + b] == #[trigger] self@[a]@[b],
                    forall|b: int| 0 <= b < j ==> out@[i * 512 + b] == s@[b],
                decreases 512 - j,
            {
                out.push(s[j]);
                j = j + 1;
            }
            proof {
                assert forall|a: int, b: int|
                    0 <= a < i + 1 && 0 <= b < 512 implies out@[a * 512 + b] == #[trigger] self@[a]@[b] by {
                    if a == i {
                    }
                }
            }
            i = i + 1;
        }
        out
    }
}

/// A sector written and then read back gives the bytes written, and every
/// other sector keeps its bytes.
pub proof fn lemma_write_then_read(d: Seq<[u8; 512]>, i: int, bytes: [u8; 512])
    requires
        0 <= i < d.len(),
    ensures
        d.update(i, bytes).len() == d.len(),
        d.update(i, bytes)[i] == bytes,
        forall|j: int| 0 <= j < d.len() && j != i ==> #[trigger] d.update(i, bytes)[j] == d[j],
{
}

} // verus!
