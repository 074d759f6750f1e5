//! Directory creation and file writing on a mounted FAT32 volume.
//!
//! Every directory occupies one cluster. Each operation checks everything
//! that can fail before its first write, so a failed call leaves the disk
//! and the handle as they were.
use vstd::prelude::*;
use crate::bytes::{le16, le32, get_u16, set_u16, set_u32, lemma_le16_bytes, lemma_le32_bytes, lemma_halves};
use vstd::string::StringSliceAdditionalSpecFns;
use crate::disk::RamDisk;
use crate::fat::{FatFs, END_OF_CHAIN, FREE, ROOT_CLUSTER};
use vstd::arithmetic::div_mod::{lemma_fundamental_div_mod, lemma_mod_pos_bound};
use crate::name::{components, short_name, plain_name, name_split, encoded, SPACE, DOT};

verus! {

/// Bytes in one directory entry.
pub const ENTRY_SIZE: usize = 32;

/// Attribute byte of a directory.
pub const ATTR_DIRECTORY: u8 = 0x10;

/// Attribute byte of a file.
pub const ATTR_ARCHIVE: u8 = 0x20;

/// First byte of a deleted entry.
pub const DELETED: u8 = 0xe5;

#[derive(Debug, Clone, Copy, PartialEq, Eq, Structural)]
pub enum FsError {
    /// A path component is not a short (8.3) name, or the path is empty.
    InvalidName,
    /// A parent directory of the path does not exist.
    NotFound,
    /// A path component that must be a directory is a file.
    NotADirectory,
    /// An entry of that name already exists.
    Collision,
    /// The parent directory has no free entry.
    DirectoryFull,
    /// Too few free clusters remain.
    DiskFull,
    /// The file is longer than a directory entry can record.
    FileTooLarge,
    /// A directory entry points outside the volume.
    Corrupt,
}

/// Absolute sector holding entry `k` of the directory at cluster `c`.
pub open spec fn entry_sector(fs: FatFs, c: int, k: int) -> int {
    fs.part.start + fs.cluster_sector(c) + k / 16
}

/// The 32 bytes of entry `k` of the directory at cluster `c`.
pub open spec fn entry_at(d: Seq<[u8; 512]>, fs: FatFs, c: int, k: int) -> Seq<u8> {
    d[entry_sector(fs, c, k)]@.subrange((k % 16) * 32, (k % 16) * 32 + 32)
}

/// Entries in one directory.
pub open spec fn entry_count(fs: FatFs) -> int {
    fs.spc * 16
}

pub open spec fn is_free_entry(e: Seq<u8>) -> bool {
    e[0] == 0u8 || e[0] == DELETED
}

/// Whether entry `e` is in use under the stored name `name`.
pub open spec fn entry_named(e: Seq<u8>, name: Seq<u8>) -> bool {
    !is_free_entry(e) && e.subrange(0, 11) == name
}

/// Whether the directory at cluster `dir` has an entry named `n` with the
/// attribute byte `attr`.
pub open spec fn dir_has(d: Seq<[u8; 512]>, fs: FatFs, dir: int, n: Seq<u8>, attr: u8) -> bool {
    exists|k: int|
        0 <= k < entry_count(fs) && entry_named(#[trigger] entry_at(d, fs, dir, k), n) && entry_at(
            d,
            fs,
            dir,
            k,
        )[11] == attr
}

/// Whether the directory at cluster `dir` has a file entry named `n` that
/// records `size` bytes from cluster `first` on.
pub open spec fn dir_has_file(
    d: Seq<[u8; 512]>,
    fs: FatFs,
    dir: int,
    n: Seq<u8>,
    size: u32,
    first: u32,
) -> bool {
    exists|k: int|
        0 <= k < entry_count(fs) && entry_named(#[trigger] entry_at(d, fs, dir, k), n) && entry_at(
            d,
            fs,
            dir,
            k,
        )[11] == ATTR_ARCHIVE && le32(entry_at(d, fs, dir, k), 28) == size && entry_first(
            entry_at(d, fs, dir, k),
        ) == first
}

/// The first cluster that entry `e` records, from its high and low halves.
pub open spec fn entry_first(e: Seq<u8>) -> u32 {
    ((le16(e, 20) as u32) << 16u32) | (le16(e, 26) as u32)
}

/// Sector `i` of a file holding `data`, zero-padded past its end.
pub open spec fn file_sector(data: Seq<u8>, i: int) -> Seq<u8> {
    Seq::new(512, |b: int| if i * 512 + b < data.len() { data[i * 512 + b] } else { 0u8 })
}

/// The FAT entry of the `j`-th cluster of the chain `v`.
pub open spec fn chain_next(v: Seq<u32>, j: int) -> u32 {
    if j + 1 < v.len() {
        v[j + 1]
    } else {
        END_OF_CHAIN
    }
}

/// The first cluster of the chain `v`; 0 for an empty chain.
pub open spec fn first_of(v: Seq<u32>) -> u32 {
    if v.len() == 0 {
        0
    } else {
        v[0]
    }
}

/// Whether the distinct clusters `v` are chained in the FAT of `d`, in
/// order and ending the chain, and hold `data` sector by sector.
pub open spec fn stores_file(d: Seq<[u8; 512]>, fs: FatFs, v: Seq<u32>, data: Seq<u8>) -> bool {
    &&& v.len() == fs.clusters_needed(data.len() as int)
    &&& forall|j: int| 0 <= j < v.len() ==> fs.is_cluster(#[trigger] v[j] as int)
    &&& forall|j: int| 0 <= j < v.len() ==> fs.fat_entry(d, #[trigger] v[j] as int) == chain_next(v, j)
    &&& forall|i: int, j: int| 0 <= i < j < v.len() ==> #[trigger] v[i] != #[trigger] v[j]
    &&& forall|j: int, t: int|
        0 <= j < v.len() && 0 <= t < fs.spc ==> (#[trigger] d[fs.cluster_abs(v[j] as int, t)])@
            == file_sector(data, j * fs.spc + t)
}

/// Whether `e` keeps, of the volume on `d`, every FAT entry of a cluster
/// in use and every directory entry in use in such a cluster.
pub open spec fn keeps_used(fs: FatFs, d: Seq<[u8; 512]>, e: Seq<[u8; 512]>) -> bool {
    &&& forall|c: int|
        fs.is_cluster(c) && fs.fat_entry(d, c) != FREE ==> #[trigger] fs.fat_entry(e, c)
            == fs.fat_entry(d, c)
    &&& forall|c: int, k: int|
        fs.is_cluster(c) && fs.fat_entry(d, c) != FREE && 0 <= k < entry_count(fs) && !is_free_entry(
            entry_at(d, fs, c, k),
        ) ==> #[trigger] entry_at(e, fs, c, k) == entry_at(d, fs, c, k)
}

/// Whether the directory at cluster `dir` has a file entry named `n` that
/// records `size` bytes.
pub open spec fn dir_has_sized(d: Seq<[u8; 512]>, fs: FatFs, dir: int, n: Seq<u8>, size: u32) -> bool {
    exists|k: int|
        0 <= k < entry_count(fs) && entry_named(#[trigger] entry_at(d, fs, dir, k), n) && entry_at(
            d,
            fs,
            dir,
            k,
        )[11] == ATTR_ARCHIVE && le32(entry_at(d, fs, dir, k), 28) == size
}

/// The stored name of `.`, or of `..` when `twice`.
pub open spec fn dot_entry(twice: bool) -> Seq<u8> {
    Seq::new(11, |i: int| if i == 0 || (twice && i == 1) { DOT } else { SPACE })
}

/// Whether the directory at cluster `dir` has a directory entry named `n`
/// whose cluster ends its chain in the FAT and starts with `.` (itself) and
/// `..` (`up`).
pub open spec fn dir_made(d: Seq<[u8; 512]>, fs: FatFs, dir: int, n: Seq<u8>, up: u32) -> bool {
    exists|k: int|
        0 <= k < entry_count(fs) && entry_named(#[trigger] entry_at(d, fs, dir, k), n) && ({
            let e = entry_at(d, fs, dir, k);
            let c = entry_first(e);
            &&& e[11] == ATTR_DIRECTORY
            &&& fs.is_cluster(c as int)
            &&& fs.fat_entry(d, c as int) == END_OF_CHAIN
            &&& entry_at(d, fs, c as int, 0).subrange(0, 11) == dot_entry(false)
            &&& entry_first(entry_at(d, fs, c as int, 0)) == c
            &&& entry_at(d, fs, c as int, 1).subrange(0, 11) == dot_entry(true)
            &&& entry_first(entry_at(d, fs, c as int, 1)) == up
        })
}

/// Whether the directory at cluster `dir` has no free entry.
pub open spec fn dir_full(d: Seq<[u8; 512]>, fs: FatFs, dir: int) -> bool {
    forall|k: int| 0 <= k < entry_count(fs) ==> !is_free_entry(#[trigger] entry_at(d, fs, dir, k))
}

/// Whether the directory at cluster `dir` has an entry in use named `n`.
pub open spec fn dir_names(d: Seq<[u8; 512]>, fs: FatFs, dir: int, n: Seq<u8>) -> bool {
    exists|k: int| 0 <= k < entry_count(fs) && entry_named(#[trigger] entry_at(d, fs, dir, k), n)
}

fn names_equal(sec: &[u8; 512], off: usize, name: &[u8; 11]) -> (r: bool)
    requires
        off + 11 <= 512,
    ensures
        r == (sec@.subrange(off as int, off + 11) == name@),
{
    let mut i: usize = 0;
    while i < 11
        invariant
            off + 11 <= 512,
            i <= 11,
            forall|k: int| 0 <= k < i ==> sec@[off + k] == name@[k],
        decreases 11 - i,
    {
        if sec[off + i] != name[i] {
            assert(sec@.subrange(off as int, off + 11)[i as int] != name@[i as int]);
            return false;
        }
        i = i + 1;
    }
    assert(sec@.subrange(off as int, off + 11) =~= name@);
    true
}

/// `sec` with a directory entry written at `off`.
fn put_entry(sec: &mut [u8; 512], off: usize, name: &[u8; 11], attr: u8, cluster: u32, size: u32)
    requires
        off + 32 <= 512,
    ensures
        final(sec)@.subrange(off as int, off + 11) == name@,
        final(sec)@[off + 11] == attr,
        le32(final(sec)@, off + 28) == size,
        ((le16(final(sec)@, off + 20) as u32) << 16u32) | (le16(final(sec)@, off + 26) as u32)
            == cluster,
        forall|j: int|
            0 <= j < 512 && !(off <= j < off + 32) ==> #[trigger] final(sec)@[j] == old(sec)@[j],
{
    let ghost s0 = sec@;
    let mut i: usize = 0;
    while i < 32
        invariant
            off + 32 <= 512,
            i <= 32,
            forall|j: int| 0 <= j < i && j < 11 ==> sec@[off + j] == name@[j],
            forall|j: int|
                0 <= j < 512 && !(off <= j < off + 32) ==> #[trigger] sec@[j] == s0[j],
        decreases 32 - i,
    {
        sec[off + i] = if i < 11 {
            name[i]
        } else {
            0u8
        };
        i = i + 1;
    }
    sec[off + 11] = attr;
    set_u16(sec, off + 20, (cluster >> 16u32) as u16);
    set_u16(sec, off + 26, (cluster & 0xffff) as u16);
    set_u32(sec, off + 28, size);
    proof {
        lemma_le32_bytes(size);
        lemma_le16_bytes((cluster >> 16u32) as u16);
        lemma_le16_bytes((cluster & 0xffff) as u16);
        lemma_halves(cluster);
        assert(sec@.subrange(off as int, off + 11) =~= name@);
    }
}

/// The stored name of `.` or `..`.
fn dot_name(twice: bool) -> (r: [u8; 11])
    ensures
        r@ == dot_entry(twice),
{
    let mut n: [u8; 11] = [SPACE; 11];
    n[0] = DOT;
    if twice {
        n[1] = DOT;
    }
    assert(n@ =~= dot_entry(twice));
    n
}

/// What a search of one directory found.
pub struct Lookup {
    /// Index of the entry with the name searched for.
    pub found: Option<u32>,
    /// Index of the first free entry, when no entry has the name.
    pub free: Option<u32>,
}

impl FatFs {
    /// Searches the directory at cluster `dir` for an entry named `name`
    /// and, failing that, for a free entry.
    pub fn lookup(&self, disk: &RamDisk, dir: u32, name: &[u8; 11]) -> (r: Lookup)
        requires
            self.wf(),
            self.part.within(disk@.len()),
            self.is_cluster(dir as int),
        ensures
            r.found matches Some(k) ==> k < entry_count(*self) && entry_named(
                entry_at(disk@, *self, dir as int, k as int),
                name@,
            ),
            r.found is None ==> forall|k: int|
                0 <= k < entry_count(*self) ==> !entry_named(
                    #[trigger] entry_at(disk@, *self, dir as int, k),
                    name@,
                ),
            r.found is None ==> (r.free matches Some(k) ==> k < entry_count(*self) && is_free_entry(
                entry_at(disk@, *self, dir as int, k as int),
            )),
            r.found is None && r.free is None ==> forall|k: int|
                0 <= k < entry_count(*self) ==> !is_free_entry(
                    #[trigger] entry_at(disk@, *self, dir as int, k),
                ),
    {
        let base = self.first_sector(dir);
        let mut free: Option<u32> = None;
        let mut s: u32 = 0;
        while s < self.spc
            invariant
                self.wf(),
                self.part.within(disk@.len()),
                self.is_cluster(dir as int),
                base == self.cluster_sector(dir as int),
                s <= self.spc,
                forall|k: int|
                    0 <= k < s * 16 ==> !entry_named(
                        #[trigger] entry_at(disk@, *self, dir as int, k),
                        name@,
                    ),
                free matches Some(f) ==> f < s * 16 && is_free_entry(
                    entry_at(disk@, *self, dir as int, f as int),
                ),
                free is None ==> forall|k: int|
                    0 <= k < s * 16 ==> !is_free_entry(
                        #[trigger] entry_at(disk@, *self, dir as int, k),
                    ),
            decreases self.spc - s,
        {
            proof {
                self.lemma_cluster_in_data(dir as int, s as int);
            }
            let sec = self.part.read(disk, base + s);
            let mut e: u32 = 0;
            while e < 16
                invariant
                    self.wf(),
                    self.part.within(disk@.len()),
                    self.is_cluster(dir as int),
                    base == self.cluster_sector(dir as int),
                    s < self.spc,
                    e <= 16,
                    sec == disk@[self.part.start + base + s],
                    forall|k: int|
                        0 <= k < s * 16 + e ==> !entry_named(
                            #[trigger] entry_at(disk@, *self, dir as int, k),
                            name@,
                        ),
                    free matches Some(f) ==> f < s * 16 + e && is_free_entry(
                        entry_at(disk@, *self, dir as int, f as int),
                    ),
                    free is None ==> forall|k: int|
                        0 <= k < s * 16 + e ==> !is_free_entry(
                            #[trigger] entry_at(disk@, *self, dir as int, k),
                        ),
                decreases 16 - e,
            {
                let off = (e * 32) as usize;
                let k = s * 16 + e;
                let ghost ent = entry_at(disk@, *self, dir as int, k as int);
                assert(ent =~= sec@.subrange(off as int, off + 32));
                let used = sec[off] != 0 && sec[off] != DELETED;
                if used && names_equal(&sec, off, name) {
                    assert(ent.subrange(0, 11) =~= sec@.subrange(off as int, off + 11));
                    return Lookup { found: Some(k), free: None };
                }
                if used {
                    assert(ent.subrange(0, 11) =~= sec@.subrange(off as int, off + 11));
                }
                if !used && free.is_none() {
                    free = Some(k);
                }
                e = e + 1;
            }
            s = s + 1;
        }
        Lookup { found: None, free }
    }

    /// Follows `names[..limit]` from the root directory. Returns the
    /// directory reached and how many names were followed; a name that is
    /// missing stops the walk.
    fn walk(&self, disk: &RamDisk, names: &Vec<[u8; 11]>, limit: usize) -> (r: Result<
        (u32, usize),
        FsError,
    >)
        requires
            self.wf(),
            self.part.within(disk@.len()),
            limit <= names@.len(),
        ensures
            r matches Ok((c, i)) ==> self.is_cluster(c as int) && i <= limit && (i < limit
                ==> forall|k: int|
                0 <= k < entry_count(*self) ==> !entry_named(
                    #[trigger] entry_at(disk@, *self, c as int, k),
                    names@[i as int]@,
                )),
            r matches Err(e) ==> e == FsError::NotADirectory || e == FsError::Corrupt,
            limit == 0 ==> r == Ok::<(u32, usize), FsError>((ROOT_CLUSTER, 0)),
    {
        let mut cur: u32 = ROOT_CLUSTER;
        let mut i: usize = 0;
        while i < limit
            invariant
                self.wf(),
                self.part.within(disk@.len()),
                limit <= names@.len(),
                i <= limit,
                self.is_cluster(cur as int),
                i == 0 ==> cur == ROOT_CLUSTER,
            decreases limit - i,
        {
            let l = self.lookup(disk, cur, &names[i]);
            match l.found {
                None => {
                    return Ok((cur, i));
                },
                Some(k) => {
                    let base = self.first_sector(cur);
                    proof {
                        self.lemma_cluster_in_data(cur as int, (k / 16) as int);
                    }
                    let sec = self.part.read(disk, base + k / 16);
                    let off = ((k % 16) * 32) as usize;
                    if sec[off + 11] & ATTR_DIRECTORY == 0 {
                        return Err(FsError::NotADirectory);
                    }
                    let c = (get_u16(&sec, off + 20) as u32) * 65536 + get_u16(&sec, off + 26) as u32;
                    if c < 2 || c >= self.clusters + 2 {
                        return Err(FsError::Corrupt);
                    }
                    cur = c;
                },
            }
            i = i + 1;
        }
        Ok((cur, limit))
    }

    /// The first `n` free clusters met by a scan that starts at the cursor,
    /// runs to the end of the FAT and resumes at cluster 2; `None` when the
    /// FAT has fewer.
    fn collect_free(&self, disk: &RamDisk, n: u32) -> (r: Option<Vec<u32>>)
        requires
            self.wf(),
            self.part.within(disk@.len()),
        ensures
            r matches Some(v) ==> {
                &&& v@.len() == n
                &&& forall|i: int|
                    0 <= i < n ==> self.is_cluster(#[trigger] v@[i] as int) && self.fat_entry(
                        disk@,
                        v@[i] as int,
                    ) == FREE
                &&& forall|i: int, j: int| 0 <= i < j < n ==> #[trigger] v@[i] != #[trigger] v@[j]
            },
            r is None <==> self.free_clusters(disk@) < n,
    {
        let end: u32 = self.clusters + 2;
        let mut v: Vec<u32> = Vec::new();
        let mut c: u32 = self.cursor;
        while c < end && v.len() < n as usize
            invariant
                self.wf(),
                self.part.within(disk@.len()),
                end == self.clusters + 2,
                self.cursor <= c <= end,
                v@.len() <= n,
                v@.len() == self.free_in(disk@, self.cursor as int, c as int),
                forall|i: int|
                    0 <= i < v@.len() ==> self.cursor <= #[trigger] v@[i] < c && self.fat_entry(
                        disk@,
                        v@[i] as int,
                    ) == FREE,
                forall|i: int, j: int|
                    0 <= i < j < v@.len() ==> #[trigger] v@[i] != #[trigger] v@[j],
            decreases end - c,
        {
            if self.get_fat(disk, c) == FREE {
                v.push(c);
            }
            c = c + 1;
        }
        proof {
            self.lemma_free_split(disk@, self.cursor as int, c as int, end as int);
        }
        let mut c: u32 = 2;
        while c < self.cursor && v.len() < n as usize
            invariant
                self.wf(),
                self.part.within(disk@.len()),
                end == self.clusters + 2,
                2 <= c <= self.cursor,
                v@.len() <= n,
                v@.len() < n ==> v@.len() == self.free_in(disk@, self.cursor as int, end as int)
                    + self.free_in(disk@, 2, c as int),
                v@.len() <= self.free_in(disk@, self.cursor as int, end as int) + self.free_in(
                    disk@,
                    2,
                    c as int,
                ),
                forall|i: int|
                    0 <= i < v@.len() ==> ((self.cursor <= #[trigger] v@[i] < end) || (2 <= v@[i]
                        < c)) && self.fat_entry(disk@, v@[i] as int) == FREE,
                forall|i: int, j: int|
                    0 <= i < j < v@.len() ==> #[trigger] v@[i] != #[trigger] v@[j],
            decreases self.cursor - c,
        {
            if self.get_fat(disk, c) == FREE {
                v.push(c);
            }
            c = c + 1;
        }
        proof {
            self.lemma_free_split(disk@, 2, self.cursor as int, end as int);
            self.lemma_free_split(disk@, 2, c as int, self.cursor as int);
        }
        if v.len() == n as usize {
            Some(v)
        } else {
            None
        }
    }

    /// Writes a directory entry as entry `k` of the directory at `dir`.
    fn write_entry(
        &self,
        disk: &mut RamDisk,
        dir: u32,
        k: u32,
        name: &[u8; 11],
        attr: u8,
        cluster: u32,
        size: u32,
    )
        requires
            self.wf(),
            self.part.within(old(disk)@.len()),
            self.is_cluster(dir as int),
            k < entry_count(*self),
        ensures
            final(disk)@.len() == old(disk)@.len(),
            forall|i: int|
                0 <= i < old(disk)@.len() && !self.in_data(i) ==> #[trigger] final(disk)@[i]
                    == old(disk)@[i],
            entry_at(final(disk)@, *self, dir as int, k as int).subrange(0, 11) == name@,
            entry_at(final(disk)@, *self, dir as int, k as int)[11] == attr,
            le32(entry_at(final(disk)@, *self, dir as int, k as int), 28) == size,
            entry_first(entry_at(final(disk)@, *self, dir as int, k as int)) == cluster,
            self.in_data(entry_sector(*self, dir as int, k as int)),
            entry_sector(*self, dir as int, k as int) == self.cluster_abs(dir as int, (k / 16) as int),
            final(disk)@ == old(disk)@.update(
                entry_sector(*self, dir as int, k as int),
                final(disk)@[entry_sector(*self, dir as int, k as int)],
            ),
            forall|c2: int, k2: int|
                self.is_cluster(c2) && 0 <= k2 < entry_count(*self) && (c2 != dir || k2 != k)
                    ==> #[trigger] entry_at(final(disk)@, *self, c2, k2) == entry_at(
                    old(disk)@,
                    *self,
                    c2,
                    k2,
                ),
    {
        let ghost d0 = disk@;
        let base = self.first_sector(dir);
        proof {
            self.lemma_cluster_in_data(dir as int, (k / 16) as int);
        }
        let mut sec = self.part.read(disk, base + k / 16);
        let off = ((k % 16) * 32) as usize;
        put_entry(&mut sec, off, name, attr, cluster, size);
        self.part.write(disk, base + k / 16, &sec);
        proof {
            let e = entry_at(disk@, *self, dir as int, k as int);
            assert(e =~= sec@.subrange(off as int, off + 32));
            assert(e.subrange(0, 11) =~= sec@.subrange(off as int, off + 11));
            assert(le16(e, 20) == le16(sec@, off + 20));
            assert(le16(e, 26) == le16(sec@, off + 26));
            assert(le32(e, 28) == le32(sec@, off + 28));
            assert forall|c2: int, k2: int|
                self.is_cluster(c2) && 0 <= k2 < entry_count(*self) && (c2 != dir || k2 != k)
                    implies #[trigger] entry_at(disk@, *self, c2, k2) == entry_at(d0, *self, c2, k2) by {
                let es = entry_sector(*self, dir as int, k as int);
                let es2 = entry_sector(*self, c2, k2);
                self.lemma_cluster_in_data(c2, k2 / 16);
                if c2 != dir {
                    self.lemma_clusters_disjoint(c2, k2 / 16, dir as int, (k / 16) as int);
                    assert(es2 != es);
                } else if k2 / 16 != k / 16 {
                    assert(es2 != es);
                } else {
                    let o2 = (k2 % 16) * 32;
                    assert(o2 != off);
                    assert(entry_at(disk@, *self, c2, k2) =~= entry_at(d0, *self, c2, k2));
                }
            }
        }
    }

    /// Gives cluster `c` the contents of an empty directory whose parent
    /// is at cluster `parent`.
    fn init_dir(&self, disk: &mut RamDisk, c: u32, parent: u32)
        requires
            self.wf(),
            self.part.within(old(disk)@.len()),
            self.is_cluster(c as int),
        ensures
            final(disk)@.len() == old(disk)@.len(),
            forall|i: int|
                0 <= i < old(disk)@.len() && !self.in_data(i) ==> #[trigger] final(disk)@[i]
                    == old(disk)@[i],
            forall|c2: int, t: int|
                self.is_cluster(c2) && c2 != c && 0 <= t < self.spc ==> #[trigger] final(disk)@[self.cluster_abs(c2, t)]
                    == old(disk)@[self.cluster_abs(c2, t)],
            entry_at(final(disk)@, *self, c as int, 0).subrange(0, 11) == dot_entry(false),
            entry_first(entry_at(final(disk)@, *self, c as int, 0)) == c,
            entry_at(final(disk)@, *self, c as int, 1).subrange(0, 11) == dot_entry(true),
            entry_first(entry_at(final(disk)@, *self, c as int, 1)) == (if parent == ROOT_CLUSTER {
                0
            } else {
                parent
            }),
    {
        let base = self.first_sector(c);
        let ghost d0 = disk@;
        let zero: [u8; 512] = [0u8; 512];
        let mut s: u32 = 1;
        while s < self.spc
            invariant
                self.wf(),
                self.part.within(disk@.len()),
                self.is_cluster(c as int),
                base == self.cluster_sector(c as int),
                base + self.spc <= self.part.size,
                self.data_start <= base,
                disk@.len() == d0.len(),
                forall|i: int|
                    0 <= i < d0.len() && !self.in_data(i) ==> #[trigger] disk@[i] == d0[i],
                forall|c2: int, t: int|
                    self.is_cluster(c2) && c2 != c && 0 <= t < self.spc ==> #[trigger] disk@[self.cluster_abs(
                        c2,
                        t,
                    )] == d0[self.cluster_abs(c2, t)],
            decreases self.spc - s,
        {
            proof {
                assert forall|c2: int, t: int|
                    self.is_cluster(c2) && c2 != c && 0 <= t < self.spc implies self.cluster_abs(c2, t)
                        != self.part.start + base + s by {
                    self.lemma_clusters_disjoint(c2, t, c as int, s as int);
                    self.lemma_cluster_in_data(c2, t);
                }
            }
            let ghost before = disk@;
            self.part.write(disk, base + s, &zero);
            proof {
                assert forall|c2: int, t: int|
                    self.is_cluster(c2) && c2 != c && 0 <= t < self.spc implies #[trigger] disk@[self.cluster_abs(
                        c2,
                        t,
                    )] == d0[self.cluster_abs(c2, t)] by {
                    self.lemma_clusters_disjoint(c2, t, c as int, s as int);
                    self.lemma_cluster_in_data(c2, t);
                    assert(disk@[self.cluster_abs(c2, t)] == before[self.cluster_abs(c2, t)]);
                }
            }
            s = s + 1;
        }
        let mut first: [u8; 512] = [0u8; 512];
        let up = if parent == ROOT_CLUSTER {
            0
        } else {
            parent
        };
        put_entry(&mut first, 0, &dot_name(false), ATTR_DIRECTORY, c, 0);
        let ghost f0 = first@;
        put_entry(&mut first, ENTRY_SIZE, &dot_name(true), ATTR_DIRECTORY, up, 0);
        proof {
            assert(first@.subrange(0, 11) =~= f0.subrange(0, 11));
            assert(le16(first@, 20) == le16(f0, 20));
            assert(le16(first@, 26) == le16(f0, 26));
        }
        proof {
            assert forall|c2: int, t: int|
                self.is_cluster(c2) && c2 != c && 0 <= t < self.spc implies self.cluster_abs(c2, t)
                    != self.part.start + base by {
                self.lemma_clusters_disjoint(c2, t, c as int, 0);
                self.lemma_cluster_in_data(c2, t);
            }
        }
        let ghost before = disk@;
        self.part.write(disk, base, &first);
        proof {
            assert forall|c2: int, t: int|
                self.is_cluster(c2) && c2 != c && 0 <= t < self.spc implies #[trigger] disk@[self.cluster_abs(
                    c2,
                    t,
                )] == d0[self.cluster_abs(c2, t)] by {
                self.lemma_clusters_disjoint(c2, t, c as int, 0);
                self.lemma_cluster_in_data(c2, t);
                assert(disk@[self.cluster_abs(c2, t)] == before[self.cluster_abs(c2, t)]);
            }
            let e0 = entry_at(disk@, *self, c as int, 0);
            let e1 = entry_at(disk@, *self, c as int, 1);
            assert(e0 =~= first@.subrange(0, 32));
            assert(e1 =~= first@.subrange(32, 64));
            assert(e0.subrange(0, 11) =~= first@.subrange(0, 11));
            assert(e1.subrange(0, 11) =~= first@.subrange(32, 43));
            assert(le16(e0, 20) == le16(first@, 20));
            assert(le16(e0, 26) == le16(first@, 26));
            assert(le16(e1, 20) == le16(first@, 52));
            assert(le16(e1, 26) == le16(first@, 58));
        }
    }
}

impl FatFs {
    /// Whether `other` is this volume, with possibly another cursor.
    pub open spec fn same_volume(&self, other: FatFs) -> bool {
        other == FatFs { cursor: other.cursor, ..*self }
    }

    /// Creates the directory `path` and any of its missing parents, each
    /// in a fresh cluster holding `.` and `..`. Fails when a component is
    /// not a short name, when a parent is a file, when `path` already
    /// exists, when the directory that receives the first new entry is
    /// full or its cluster is marked free in the FAT, or when too few
    /// clusters are free; a failed call changes nothing.
    pub fn make_dir(&mut self, disk: &mut RamDisk, path: &str) -> (r: Result<(), FsError>)
        requires
            old(self).wf(),
            old(self).part.within(old(disk)@.len()),
        ensures
            final(self).wf(),
            old(self).same_volume(*final(self)),
            old(self).same_metadata(final(disk)@, old(disk)@),
            r is Err ==> *final(self) == *old(self) && final(disk)@ == old(disk)@,
            r is Ok ==> keeps_used(*old(self), old(disk)@, final(disk)@),
            forall|n: Seq<u8>| #[trigger] plain_name(path.spec_bytes(), n) ==> {
                &&& dir_names(old(disk)@, *old(self), ROOT_CLUSTER as int, n) ==> r == Err::<
                    (),
                    FsError,
                >(FsError::Collision)
                &&& !dir_names(old(disk)@, *old(self), ROOT_CLUSTER as int, n) && dir_full(
                    old(disk)@,
                    *old(self),
                    ROOT_CLUSTER as int,
                ) ==> r == Err::<(), FsError>(FsError::DirectoryFull)
                &&& !dir_names(old(disk)@, *old(self), ROOT_CLUSTER as int, n) && !dir_full(
                    old(disk)@,
                    *old(self),
                    ROOT_CLUSTER as int,
                ) && old(self).fat_entry(old(disk)@, ROOT_CLUSTER as int) == FREE ==> r == Err::<
                    (),
                    FsError,
                >(FsError::Corrupt)
                &&& !dir_names(old(disk)@, *old(self), ROOT_CLUSTER as int, n) && !dir_full(
                    old(disk)@,
                    *old(self),
                    ROOT_CLUSTER as int,
                ) && old(self).fat_entry(old(disk)@, ROOT_CLUSTER as int) != FREE ==> (r is Ok
                    <==> old(self).free_clusters(old(disk)@) >= 1) && (r is Err ==> r
                    == Err::<(), FsError>(FsError::DiskFull))
                &&& r is Ok ==> dir_has(
                    final(disk)@,
                    *old(self),
                    ROOT_CLUSTER as int,
                    n,
                    ATTR_DIRECTORY,
                )
                &&& r is Ok ==> dir_made(final(disk)@, *old(self), ROOT_CLUSTER as int, n, 0)
            },
    {
        let names = match parse_path(path) {
            Ok(n) => n,
            Err(e) => {
                return Err(e);
            },
        };
        let last = names.len() - 1;
        let (parent, i) = match self.walk(disk, &names, last) {
            Ok(w) => w,
            Err(e) => {
                return Err(e);
            },
        };
        let l = self.lookup(disk, parent, &names[i]);
        let ghost fs0 = *self;
        if l.found.is_some() {
            return Err(FsError::Collision);
        }
        let slot = match l.free {
            Some(f) => f,
            None => {
                return Err(FsError::DirectoryFull);
            },
        };
        if self.get_fat(disk, parent) == FREE {
            return Err(FsError::Corrupt);
        }
        let count = names.len() - i;
        if count as u64 > self.clusters as u64 {
            return Err(FsError::DiskFull);
        }
        let v = match self.collect_free(disk, count as u32) {
            Some(v) => v,
            None => {
                return Err(FsError::DiskFull);
            },
        };
        let ghost d0 = disk@;
        let mut j: usize = 0;
        while j < count
            invariant
                self.wf(),
                self.part.within(disk@.len()),
                self.is_cluster(parent as int),
                slot < entry_count(*self),
                v@.len() == count,
                i + count == names@.len(),
                names@.len() <= usize::MAX,
                j <= count,
                forall|q: int| 0 <= q < count ==> self.is_cluster(#[trigger] v@[q] as int),
                self.same_metadata(disk@, d0),
                *self == fs0,
                disk@.len() == d0.len(),
                forall|q: int| 0 <= q < count ==> self.fat_entry(d0, #[trigger] v@[q] as int) == FREE,
                is_free_entry(entry_at(d0, *self, parent as int, slot as int)),
                keeps_used(*self, d0, disk@),
                forall|q: int|
                    0 <= q < names@.len() ==> (#[trigger] names@[q])@[0] != 0u8 && names@[q]@[0]
                        != DELETED,
                names@.len() == 1 ==> parent == ROOT_CLUSTER && i == 0 && count == 1,
                self.fat_entry(d0, parent as int) != FREE,
                names@.len() == 1 && j == 1 ==> dir_made(disk@, fs0, ROOT_CLUSTER as int, names@[0]@, 0),
                names@.len() == 1 && j == 1 ==> dir_has(
                    disk@,
                    fs0,
                    ROOT_CLUSTER as int,
                    names@[0]@,
                    ATTR_DIRECTORY,
                ),
            decreases count - j,
        {
            let c = v[j];
            let (up, at) = if j == 0 {
                (parent, slot)
            } else {
                (v[j - 1], 2u32)
            };
            let ghost b0 = disk@;
            self.init_dir(disk, c, up);
            let ghost b1 = disk@;
            self.set_fat(disk, c, END_OF_CHAIN);
            let ghost b2 = disk@;
            self.write_entry(disk, up, at, &names[i + j], ATTR_DIRECTORY, c, 0);
            proof {
                assert forall|c2: int|
                    self.is_cluster(c2) && self.fat_entry(d0, c2) != FREE implies #[trigger] self.fat_entry(
                        disk@,
                        c2,
                    ) == self.fat_entry(d0, c2) by {
                    let fsec = self.fat_sector_of(c2);
                    assert(c2 != c);
                    assert(c2 / 128 < self.fat_sectors);
                    assert(self.in_fats(fsec));
                    assert(!self.in_data(fsec));
                    assert(self.fat_entry(b0, c2) == self.fat_entry(d0, c2));
                    assert(disk@[fsec] == b2[fsec]);
                    assert(b1[fsec] == b0[fsec]);
                    assert(self.fat_entry(b2, c2) == self.fat_entry(b1, c2));
                }
                assert forall|c2: int, k2: int|
                    self.is_cluster(c2) && self.fat_entry(d0, c2) != FREE && 0 <= k2 < entry_count(
                        *self,
                    ) && !is_free_entry(entry_at(d0, *self, c2, k2)) implies #[trigger] entry_at(
                    disk@,
                    *self,
                    c2,
                    k2,
                ) == entry_at(d0, *self, c2, k2) by {
                    assert(c2 != c);
                    assert(entry_at(b0, *self, c2, k2) == entry_at(d0, *self, c2, k2));
                    assert(c2 != up || k2 != at);
                    assert(entry_at(disk@, *self, c2, k2) == entry_at(b2, *self, c2, k2));
                    let q = self.cluster_abs(c2, k2 / 16);
                    self.lemma_cluster_in_data(c2, k2 / 16);
                    assert(b2[q] == b1[q]);
                    assert(b1[q] == b0[q]);
                }
                if names@.len() == 1 {
                    let e = entry_at(disk@, *self, up as int, at as int);
                    assert(c != parent);
                    self.lemma_cluster_in_data(c as int, 0);
                    assert(entry_at(disk@, *self, c as int, 0) == entry_at(b2, *self, c as int, 0));
                    assert(entry_at(disk@, *self, c as int, 1) == entry_at(b2, *self, c as int, 1));
                    assert(b2[self.cluster_abs(c as int, 0)] == b1[self.cluster_abs(c as int, 0)]);
                    assert(entry_at(b2, *self, c as int, 0) == entry_at(b1, *self, c as int, 0));
                    assert(entry_at(b2, *self, c as int, 1) == entry_at(b1, *self, c as int, 1));
                    let fsec = self.fat_sector_of(c as int);
                    assert(c / 128 < self.fat_sectors);
                    assert(self.in_fats(fsec));
                    assert(disk@[fsec] == b2[fsec]);
                    assert(self.fat_entry(disk@, c as int) == END_OF_CHAIN);
                    assert(entry_first(e) == c);
                    assert(entry_named(e, names@[0]@));
                    assert(dir_made(disk@, fs0, ROOT_CLUSTER as int, names@[0]@, 0));
                }
                let e = entry_at(disk@, *self, up as int, at as int);
                assert(e[0] == e.subrange(0, 11)[0]);
                assert(entry_named(e, names@[i + j]@));
            }
            j = j + 1;
        }
        self.cursor = v[count - 1];
        Ok(())
    }

    /// Writes `data` as the file `path`, whose parent directory must exist:
    /// the first free clusters met from the cursor are chained in the FAT
    /// in the order met, hold the bytes with the last one zero-padded, and
    /// a new entry in the parent records the first cluster and the length.
    /// Fails when a component is not a short name, the parent is missing or
    /// a file, the name is taken, the parent is full, the parent's cluster
    /// is marked free in the FAT, the file is too long for an entry, or too
    /// few clusters are free; a failed call changes nothing.
    pub fn write_file(&mut self, disk: &mut RamDisk, path: &str, data: &[u8]) -> (r: Result<
        (),
        FsError,
    >)
        requires
            old(self).wf(),
            old(self).part.within(old(disk)@.len()),
        ensures
            final(self).wf(),
            old(self).same_volume(*final(self)),
            old(self).same_metadata(final(disk)@, old(disk)@),
            r is Err ==> *final(self) == *old(self) && final(disk)@ == old(disk)@,
            r == Err::<(), FsError>(FsError::DiskFull) ==> old(self).free_clusters(old(disk)@)
                < old(self).clusters_needed(data@.len() as int),
            forall|n: Seq<u8>| #[trigger] plain_name(path.spec_bytes(), n) ==> {
                &&& dir_names(old(disk)@, *old(self), ROOT_CLUSTER as int, n) ==> r == Err::<
                    (),
                    FsError,
                >(FsError::Collision)
                &&& !dir_names(old(disk)@, *old(self), ROOT_CLUSTER as int, n) && dir_full(
                    old(disk)@,
                    *old(self),
                    ROOT_CLUSTER as int,
                ) ==> r == Err::<(), FsError>(FsError::DirectoryFull)
                &&& !dir_names(old(disk)@, *old(self), ROOT_CLUSTER as int, n) && !dir_full(
                    old(disk)@,
                    *old(self),
                    ROOT_CLUSTER as int,
                ) && old(self).fat_entry(old(disk)@, ROOT_CLUSTER as int) == FREE ==> r == Err::<
                    (),
                    FsError,
                >(FsError::Corrupt)
                &&& !dir_names(old(disk)@, *old(self), ROOT_CLUSTER as int, n) && !dir_full(
                    old(disk)@,
                    *old(self),
                    ROOT_CLUSTER as int,
                ) && old(self).fat_entry(old(disk)@, ROOT_CLUSTER as int) != FREE && data@.len()
                    > u32::MAX ==> r == Err::<(), FsError>(FsError::FileTooLarge)
                &&& !dir_names(old(disk)@, *old(self), ROOT_CLUSTER as int, n) && !dir_full(
                    old(disk)@,
                    *old(self),
                    ROOT_CLUSTER as int,
                ) && old(self).fat_entry(old(disk)@, ROOT_CLUSTER as int) != FREE && data@.len()
                    <= u32::MAX ==> (r is Ok <==> old(self).free_clusters(old(disk)@)
                    >= old(self).clusters_needed(data@.len() as int)) && (r is Err ==> r == Err::<
                    (),
                    FsError,
                >(FsError::DiskFull))
            },
            r is Ok ==> keeps_used(*old(self), old(disk)@, final(disk)@),
            r is Ok ==> exists|v: Seq<u32>|
                {
                    &&& stores_file(final(disk)@, *old(self), v, data@)
                    &&& forall|n: Seq<u8>| #[trigger]
                        plain_name(path.spec_bytes(), n) ==> dir_has_file(
                            final(disk)@,
                            *old(self),
                            ROOT_CLUSTER as int,
                            n,
                            data@.len() as u32,
                            first_of(v),
                        )
                },
    {
        let names = match parse_path(path) {
            Ok(n) => n,
            Err(e) => {
                return Err(e);
            },
        };
        let last = names.len() - 1;
        let (parent, i) = match self.walk(disk, &names, last) {
            Ok(w) => w,
            Err(e) => {
                return Err(e);
            },
        };
        if i < last {
            return Err(FsError::NotFound);
        }
        let l = self.lookup(disk, parent, &names[last]);
        if l.found.is_some() {
            return Err(FsError::Collision);
        }
        let slot = match l.free {
            Some(f) => f,
            None => {
                return Err(FsError::DirectoryFull);
            },
        };
        if self.get_fat(disk, parent) == FREE {
            return Err(FsError::Corrupt);
        }
        let len = data.len();
        if len as u64 > 0xffff_ffff {
            return Err(FsError::FileTooLarge);
        }
        let cb: u64 = self.spc as u64 * 512;
        let need64: u64 = len as u64 / cb + if len as u64 % cb != 0 {
            1
        } else {
            0
        };
        assert(need64 == self.clusters_needed(len as int));
        if need64 > self.clusters as u64 {
            proof {
                self.lemma_free_bound(disk@, 2, self.clusters + 2);
            }
            return Err(FsError::DiskFull);
        }
        let need = need64 as u32;
        let v = match self.collect_free(disk, need) {
            Some(v) => v,
            None => {
                return Err(FsError::DiskFull);
            },
        };
        let ghost d0 = disk@;
        let ghost fs0 = *self;
        let ghost spc = self.spc as int;
        let mut pos: usize = 0;
        let ghost mut nsec: int = 0;
        let mut j: usize = 0;
        while j < need as usize
            invariant
                self.wf(),
                self.part.within(disk@.len()),
                *self == fs0,
                spc == self.spc,
                v@.len() == need,
                len == data@.len(),
                j <= need,
                forall|q: int|
                    0 <= q < need ==> self.is_cluster(#[trigger] v@[q] as int) && self.fat_entry(
                        d0,
                        v@[q] as int,
                    ) == FREE,
                forall|a: int, b: int| 0 <= a < b < need ==> #[trigger] v@[a] != #[trigger] v@[b],
                nsec == j * spc,
                pos == (if nsec * 512 < len { nsec * 512 } else { len as int }),
                disk@.len() == d0.len(),
                forall|q: int| 0 <= q < d0.len() && !self.in_data(q) ==> #[trigger] disk@[q] == d0[q],
                forall|c2: int, t: int|
                    self.is_cluster(c2) && self.fat_entry(d0, c2) != FREE && 0 <= t < spc
                        ==> #[trigger] disk@[self.cluster_abs(c2, t)] == d0[self.cluster_abs(c2, t)],
                forall|q: int| 0 <= q < need ==> self.fat_entry(d0, #[trigger] v@[q] as int) == FREE,
                forall|a: int, t: int|
                    0 <= a < j && 0 <= t < spc ==> (#[trigger] disk@[self.cluster_abs(
                        v@[a] as int,
                        t,
                    )])@ == file_sector(data@, a * spc + t),
            decreases need - j,
        {
            let c = v[j];
            let base = self.first_sector(c);
            let mut s: u32 = 0;
            while s < self.spc
                invariant
                    self.wf(),
                    self.part.within(disk@.len()),
                    *self == fs0,
                    spc == self.spc,
                    v@.len() == need,
                    len == data@.len(),
                    j < need,
                    c == v@[j as int],
                    self.is_cluster(c as int),
                    base == self.cluster_sector(c as int),
                    forall|q: int| 0 <= q < need ==> self.is_cluster(#[trigger] v@[q] as int),
                    forall|a: int, b: int| 0 <= a < b < need ==> #[trigger] v@[a] != #[trigger] v@[b],
                    s <= spc,
                    nsec == j * spc + s,
                    pos == (if nsec * 512 < len { nsec * 512 } else { len as int }),
                    disk@.len() == d0.len(),
                    forall|q: int| 0 <= q < d0.len() && !self.in_data(q) ==> #[trigger] disk@[q] == d0[q],
                forall|c2: int, t: int|
                    self.is_cluster(c2) && self.fat_entry(d0, c2) != FREE && 0 <= t < spc
                        ==> #[trigger] disk@[self.cluster_abs(c2, t)] == d0[self.cluster_abs(c2, t)],
                forall|q: int| 0 <= q < need ==> self.fat_entry(d0, #[trigger] v@[q] as int) == FREE,
                    forall|a: int, t: int|
                        0 <= a < j && 0 <= t < spc ==> (#[trigger] disk@[self.cluster_abs(
                            v@[a] as int,
                            t,
                        )])@ == file_sector(data@, a * spc + t),
                    forall|t: int|
                        0 <= t < s ==> (#[trigger] disk@[self.cluster_abs(c as int, t)])@
                            == file_sector(data@, j * spc + t),
                decreases spc - s,
            {
                let mut sec: [u8; 512] = [0u8; 512];
                let mut b: usize = 0;
                while b < 512
                    invariant
                        len == data@.len(),
                        pos == (if nsec * 512 < len { nsec * 512 } else { len as int }),
                        nsec >= 0,
                        b <= 512,
                        forall|q: int| 0 <= q < b ==> sec@[q] == file_sector(data@, nsec)[q],
                        forall|q: int| b <= q < 512 ==> sec@[q] == 0u8,
                    decreases 512 - b,
                {
                    if b < len - pos {
                        sec[b] = data[pos + b];
                    }
                    b = b + 1;
                }
                assert(sec@ =~= file_sector(data@, nsec));
                proof {
                    self.lemma_cluster_in_data(c as int, s as int);
                }
                let ghost before = disk@;
                self.part.write(disk, base + s, &sec);
                proof {
                    assert(self.cluster_abs(c as int, s as int) == self.part.start + base + s);
                    assert forall|a: int, t: int|
                        0 <= a < j && 0 <= t < spc implies (#[trigger] disk@[self.cluster_abs(
                            v@[a] as int,
                            t,
                        )])@ == file_sector(data@, a * spc + t) by {
                        self.lemma_clusters_disjoint(v@[a] as int, t, c as int, s as int);
                        self.lemma_cluster_in_data(v@[a] as int, t);
                        assert(disk@[self.cluster_abs(v@[a] as int, t)] == before[self.cluster_abs(
                            v@[a] as int,
                            t,
                        )]);
                    }
                    assert forall|t: int|
                        0 <= t < s + 1 implies (#[trigger] disk@[self.cluster_abs(c as int, t)])@
                            == file_sector(data@, j * spc + t) by {
                        if t < s {
                            self.lemma_cluster_in_data(c as int, t);
                            assert(disk@[self.cluster_abs(c as int, t)] == before[self.cluster_abs(
                                c as int,
                                t,
                            )]);
                        }
                    }
                    assert forall|q: int| 0 <= q < d0.len() && !self.in_data(q) implies #[trigger] disk@[q] == d0[q] by {
                        assert(disk@[q] == before[q]);
                    }
                    assert forall|c2: int, t: int|
                        self.is_cluster(c2) && self.fat_entry(d0, c2) != FREE && 0 <= t < spc
                            implies #[trigger] disk@[self.cluster_abs(c2, t)] == d0[self.cluster_abs(c2, t)] by {
                        self.lemma_clusters_disjoint(c2, t, c as int, s as int);
                        self.lemma_cluster_in_data(c2, t);
                        assert(disk@[self.cluster_abs(c2, t)] == before[self.cluster_abs(c2, t)]);
                    }
                }
                pos = if len - pos <= 512 {
                    len
                } else {
                    pos + 512
                };
                proof {
                    nsec = nsec + 1;
                }
                s = s + 1;
            }
            proof {
                assert((j + 1) * spc == j * spc + spc) by (nonlinear_arith);
            }
            j = j + 1;
        }
        let ghost d1 = disk@;
        let mut j: usize = 0;
        while j < need as usize
            invariant
                self.wf(),
                self.part.within(disk@.len()),
                *self == fs0,
                spc == self.spc,
                v@.len() == need,
                j <= need,
                forall|q: int| 0 <= q < need ==> self.is_cluster(#[trigger] v@[q] as int),
                forall|a: int, b: int| 0 <= a < b < need ==> #[trigger] v@[a] != #[trigger] v@[b],
                disk@.len() == d1.len(),
                forall|q: int| 0 <= q < d1.len() && !self.in_fats(q) ==> #[trigger] disk@[q] == d1[q],
                forall|a: int| 0 <= a < j ==> self.fat_entry(disk@, #[trigger] v@[a] as int) == chain_next(v@, a),
                forall|q: int| 0 <= q < need ==> self.fat_entry(d0, #[trigger] v@[q] as int) == FREE,
                forall|c2: int|
                    self.is_cluster(c2) && self.fat_entry(d0, c2) != FREE ==> #[trigger] self.fat_entry(
                        disk@,
                        c2,
                    ) == self.fat_entry(d1, c2),
            decreases need - j,
        {
            let next = if j + 1 < need as usize {
                v[j + 1]
            } else {
                END_OF_CHAIN
            };
            let ghost before = disk@;
            self.set_fat(disk, v[j], next);
            proof {
                assert forall|a: int| 0 <= a < j + 1 implies self.fat_entry(disk@, #[trigger] v@[a] as int) == chain_next(v@, a) by {
                    if a < j {
                        assert(v@[a] != v@[j as int]);
                    }
                }
                assert forall|q: int| 0 <= q < d1.len() && !self.in_fats(q) implies #[trigger] disk@[q] == d1[q] by {
                    assert(disk@[q] == before[q]);
                }
                assert forall|c2: int|
                    self.is_cluster(c2) && self.fat_entry(d0, c2) != FREE implies #[trigger] self.fat_entry(
                        disk@,
                        c2,
                    ) == self.fat_entry(d1, c2) by {
                    assert(c2 != v@[j as int]);
                    assert(self.fat_entry(before, c2) == self.fat_entry(d1, c2));
                }
            }
            j = j + 1;
        }
        let first = if need == 0 {
            0
        } else {
            v[0]
        };
        let ghost d2 = disk@;
        self.write_entry(disk, parent, slot, &names[last], ATTR_ARCHIVE, first, len as u32);
        proof {
            let e = entry_at(disk@, *self, parent as int, slot as int);
            let es = entry_sector(*self, parent as int, slot as int);
            assert(e[0] == e.subrange(0, 11)[0]);
            assert(entry_named(e, names@[last as int]@));
            assert forall|a: int| 0 <= a < need implies self.fat_entry(disk@, #[trigger] v@[a] as int) == chain_next(v@, a) by {
                assert(self.fat_sector_of(v@[a] as int) != es);
                assert(disk@[self.fat_sector_of(v@[a] as int)] == d2[self.fat_sector_of(v@[a] as int)]);
            }
            assert forall|a: int, t: int|
                0 <= a < need && 0 <= t < spc implies (#[trigger] disk@[self.cluster_abs(
                    v@[a] as int,
                    t,
                )])@ == file_sector(data@, a * spc + t) by {
                let q = self.cluster_abs(v@[a] as int, t);
                self.lemma_cluster_in_data(v@[a] as int, t);
                assert(v@[a] != parent);
                self.lemma_clusters_disjoint(v@[a] as int, t, parent as int, (slot / 16) as int);
                assert(disk@[q] == d2[q]);
                assert(d2[q] == d1[q]);
            }
            assert(stores_file(disk@, fs0, v@, data@));
            assert forall|c2: int|
                self.is_cluster(c2) && self.fat_entry(d0, c2) != FREE implies #[trigger] self.fat_entry(
                    disk@,
                    c2,
                ) == self.fat_entry(d0, c2) by {
                let fsec = self.fat_sector_of(c2);
                assert(fsec != es);
                assert(disk@[fsec] == d2[fsec]);
                assert(self.fat_entry(d2, c2) == self.fat_entry(d1, c2));
                assert(!self.in_data(fsec));
                assert(d1[fsec] == d0[fsec]);
            }
            assert forall|c2: int, k2: int|
                self.is_cluster(c2) && self.fat_entry(d0, c2) != FREE && 0 <= k2 < entry_count(
                    *self,
                ) && !is_free_entry(entry_at(d0, *self, c2, k2)) implies #[trigger] entry_at(
                disk@,
                *self,
                c2,
                k2,
            ) == entry_at(d0, *self, c2, k2) by {
                assert(c2 != parent || k2 != slot);
                assert(entry_at(disk@, *self, c2, k2) == entry_at(d2, *self, c2, k2));
                let q = self.cluster_abs(c2, k2 / 16);
                self.lemma_cluster_in_data(c2, k2 / 16);
                assert(d2[q] == d1[q]);
                assert(d1[q] == d0[q]);
            }
            assert(keeps_used(fs0, d0, disk@));
        }
        if need > 0 {
            self.cursor = v[need as usize - 1];
        }
        Ok(())
    }
}

/// The stored names of the components of `path`; fails when there is none
/// or one is not a short name.
fn parse_path(path: &str) -> (r: Result<Vec<[u8; 11]>, FsError>)
    ensures
        r matches Ok(v) ==> v@.len() >= 1 && forall|i: int|
            0 <= i < v@.len() ==> (#[trigger] v@[i])@[0] != 0u8 && v@[i]@[0] != DELETED,
        r matches Err(e) ==> e == FsError::InvalidName,
        forall|n: Seq<u8>|
            #[trigger] plain_name(path.spec_bytes(), n) ==> (r matches Ok(v) && v@.len() == 1
                && v@[0]@ == n),
{
    let parts = components(path.as_bytes());
    let ghost b = path.spec_bytes();
    proof {
        assert forall|n: Seq<u8>| #[trigger] plain_name(path.spec_bytes(), n) implies path.spec_bytes().len() > 0 by {
            let d = choose|d: int| name_split(path.spec_bytes(), d) && n == encoded(path.spec_bytes(), d);
            assert(d <= path.spec_bytes().len());
        }
    }
    if parts.len() == 0 {
        return Err(FsError::InvalidName);
    }
    let mut out: Vec<[u8; 11]> = Vec::new();
    let mut i: usize = 0;
    while i < parts.len()
        invariant
            i <= parts@.len(),
            out@.len() == i,
            b == path.spec_bytes(),
            forall|n: Seq<u8>| #[trigger] plain_name(b, n) ==> parts@.len() == 1 && parts@[0]@ == b,
            forall|q: int| 0 <= q < i ==> (#[trigger] out@[q])@[0] != 0u8 && out@[q]@[0] != DELETED,
            forall|q: int, d: int|
                0 <= q < i && #[trigger] name_split(parts@[q]@, d) ==> (#[trigger] out@[q])@
                    == encoded(parts@[q]@, d),
        decreases parts@.len() - i,
    {
        match short_name(parts[i].as_slice()) {
            Some(n) => out.push(n),
            None => {
                proof {
                    assert forall|n: Seq<u8>| !(#[trigger] plain_name(b, n)) by {
                        if plain_name(b, n) {
                            let d = choose|d: int| name_split(b, d) && n == encoded(b, d);
                            assert(name_split(parts@[i as int]@, d));
                        }
                    }
                }
                return Err(FsError::InvalidName);
            },
        }
        i = i + 1;
    }
    Ok(out)
}

/// Making the same directory twice collides: once `make_dir` of a single
/// name has succeeded, the root holds an entry of that name, which is the
/// condition under which a second `make_dir` of it, on the handle the first
/// call left, fails with `Collision` and changes nothing.
pub proof fn lemma_make_dir_twice_collides(d: Seq<[u8; 512]>, fs: FatFs, after: FatFs, n: Seq<u8>)
    requires
        dir_has(d, fs, ROOT_CLUSTER as int, n, ATTR_DIRECTORY),
        fs.same_volume(after),
    ensures
        dir_names(d, after, ROOT_CLUSTER as int, n),
{
    let k = choose|k: int|
        0 <= k < entry_count(fs) && entry_named(#[trigger] entry_at(d, fs, ROOT_CLUSTER as int, k), n)
            && entry_at(d, fs, ROOT_CLUSTER as int, k)[11] == ATTR_DIRECTORY;
    assert(entry_at(d, after, ROOT_CLUSTER as int, k) == entry_at(d, fs, ROOT_CLUSTER as int, k));
}

/// The clusters met by following the FAT of `d` from cluster `c`, `n` of them.
pub open spec fn follow(d: Seq<[u8; 512]>, fs: FatFs, c: u32, n: nat) -> Seq<u32>
    decreases n,
{
    if n == 0 {
        Seq::empty()
    } else {
        seq![c] + follow(d, fs, fs.fat_entry(d, c as int), (n - 1) as nat)
    }
}

/// The first `len` bytes held by the clusters `v`, sector after sector.
pub open spec fn read_back(d: Seq<[u8; 512]>, fs: FatFs, v: Seq<u32>, len: nat) -> Seq<u8> {
    Seq::new(
        len,
        |i: int|
            d[fs.cluster_abs(v[(i / 512) / fs.spc as int] as int, (i / 512) % fs.spc as int)]@[i
                % 512],
    )
}

proof fn lemma_follow_suffix(d: Seq<[u8; 512]>, fs: FatFs, v: Seq<u32>, data: Seq<u8>, j: int)
    requires
        stores_file(d, fs, v, data),
        0 <= j < v.len(),
    ensures
        follow(d, fs, v[j], (v.len() - j) as nat) == v.subrange(j, v.len() as int),
    decreases v.len() - j,
{
    let n = (v.len() - j) as nat;
    let rest = follow(d, fs, fs.fat_entry(d, v[j] as int), (n - 1) as nat);
    assert(follow(d, fs, v[j], n) == seq![v[j]] + rest);
    if j + 1 < v.len() {
        lemma_follow_suffix(d, fs, v, data, j + 1);
        assert(fs.fat_entry(d, v[j] as int) == v[j + 1]);
        assert((n - 1) as nat == (v.len() - (j + 1)) as nat);
        assert(rest == v.subrange(j + 1, v.len() as int));
    } else {
        assert(rest == Seq::<u32>::empty());
    }
    assert(seq![v[j]] + rest =~= v.subrange(j, v.len() as int));
}

/// A file written by `write_file` reads back: following the FAT from the
/// first cluster that its entry records meets exactly its clusters, and
/// their sectors, in that order, hold exactly its bytes.
pub proof fn lemma_file_reads_back(d: Seq<[u8; 512]>, fs: FatFs, v: Seq<u32>, data: Seq<u8>)
    requires
        fs.wf(),
        stores_file(d, fs, v, data),
    ensures
        follow(d, fs, first_of(v), v.len()) == v,
        read_back(d, fs, v, data.len()) == data,
{
    if v.len() > 0 {
        lemma_follow_suffix(d, fs, v, data, 0);
        assert(v.subrange(0, v.len() as int) =~= v);
    }
    let spc = fs.spc as int;
    let m = spc * 512;
    assert(m > 0) by (nonlinear_arith)
        requires
            spc >= 1,
            m == spc * 512,
    ;
    assert forall|i: int| 0 <= i < data.len() implies #[trigger] read_back(d, fs, v, data.len())[i]
        == data[i] by {
        let n = i / 512;
        let j = n / spc;
        let t = n % spc;
        lemma_fundamental_div_mod(n, spc);
        lemma_mod_pos_bound(n, spc);
        lemma_fundamental_div_mod(data.len() as int, m);
        lemma_mod_pos_bound(data.len() as int, m);
        assert(0 <= n);
        assert(0 <= j) by (nonlinear_arith)
            requires
                n >= 0,
                spc >= 1,
                j == n / spc,
        ;
        assert(j * spc + t == n) by (nonlinear_arith)
            requires
                n == spc * (n / spc) + n % spc,
                j == n / spc,
                t == n % spc,
        ;
        let q = data.len() as int / m;
        let r = data.len() as int % m;
        assert(j < v.len()) by (nonlinear_arith)
            requires
                j * spc + t == n,
                0 <= t,
                0 <= j,
                n * 512 <= i,
                i < data.len(),
                data.len() == m * q + r,
                0 <= r < m,
                m == spc * 512,
                v.len() == q + (if r != 0 { 1int } else { 0 }),
        {
            assert(j * m <= n * 512);
            if j >= q + 1 {
                assert(j * m >= (q + 1) * m);
            }
            if r == 0 && j >= q {
                assert(j * m >= q * m);
            }
        }
        assert(file_sector(data, n)[i % 512] == data[i]);
    }
    assert(read_back(d, fs, v, data.len()) =~= data);
}

/// Directory entries read the same through two handles on one volume, and
/// entries in use in a used cluster survive a change that keeps them.
pub proof fn lemma_entries_kept(d: Seq<[u8; 512]>, e: Seq<[u8; 512]>, fs: FatFs, g: FatFs, n: Seq<u8>, size: u32)
    requires
        fs.same_volume(g),
        fs.is_cluster(ROOT_CLUSTER as int),
        fs.fat_entry(d, ROOT_CLUSTER as int) != FREE,
        keeps_used(g, d, e),
    ensures
        dir_has(d, fs, ROOT_CLUSTER as int, n, ATTR_DIRECTORY) ==> dir_has(
            e,
            fs,
            ROOT_CLUSTER as int,
            n,
            ATTR_DIRECTORY,
        ),
        dir_has_sized(d, fs, ROOT_CLUSTER as int, n, size) ==> dir_has_sized(
            e,
            fs,
            ROOT_CLUSTER as int,
            n,
            size,
        ),
        dir_made(d, fs, ROOT_CLUSTER as int, n, 0) ==> dir_made(e, fs, ROOT_CLUSTER as int, n, 0),
{
    let r = ROOT_CLUSTER as int;
    if dir_made(d, fs, r, n, 0) {
        let k = choose|k: int|
            0 <= k < entry_count(fs) && entry_named(#[trigger] entry_at(d, fs, r, k), n) && ({
                let e = entry_at(d, fs, r, k);
                let c = entry_first(e);
                &&& e[11] == ATTR_DIRECTORY
                &&& fs.is_cluster(c as int)
                &&& fs.fat_entry(d, c as int) == END_OF_CHAIN
                &&& entry_at(d, fs, c as int, 0).subrange(0, 11) == dot_entry(false)
                &&& entry_first(entry_at(d, fs, c as int, 0)) == c
                &&& entry_at(d, fs, c as int, 1).subrange(0, 11) == dot_entry(true)
                &&& entry_first(entry_at(d, fs, c as int, 1)) == 0
            });
        let c = entry_first(entry_at(d, fs, r, k)) as int;
        assert(entry_at(d, g, r, k) == entry_at(d, fs, r, k));
        assert(entry_at(e, g, r, k) == entry_at(e, fs, r, k));
        assert(g.fat_entry(d, r) == fs.fat_entry(d, r));
        assert(entry_at(e, g, r, k) == entry_at(d, g, r, k));
        assert(g.fat_entry(d, c) == fs.fat_entry(d, c));
        assert(g.fat_entry(e, c) == fs.fat_entry(e, c));
        assert(fs.fat_entry(e, c) == END_OF_CHAIN);
        assert(entry_at(d, fs, c, 0)[0] == dot_entry(false)[0]);
        assert(entry_at(d, fs, c, 1)[0] == dot_entry(true)[0]);
        assert(entry_at(d, g, c, 0) == entry_at(d, fs, c, 0));
        assert(entry_at(e, g, c, 0) == entry_at(e, fs, c, 0));
        assert(entry_at(d, g, c, 1) == entry_at(d, fs, c, 1));
        assert(entry_at(e, g, c, 1) == entry_at(e, fs, c, 1));
        assert(entry_at(e, g, c, 0) == entry_at(d, g, c, 0));
        assert(entry_at(e, g, c, 1) == entry_at(d, g, c, 1));
    }
    if dir_has(d, fs, r, n, ATTR_DIRECTORY) {
        let k = choose|k: int|
            0 <= k < entry_count(fs) && entry_named(#[trigger] entry_at(d, fs, r, k), n)
                && entry_at(d, fs, r, k)[11] == ATTR_DIRECTORY;
        assert(entry_at(d, g, r, k) == entry_at(d, fs, r, k));
        assert(entry_at(e, g, r, k) == entry_at(e, fs, r, k));
        assert(g.fat_entry(d, r) == fs.fat_entry(d, r));
        assert(entry_at(e, g, r, k) == entry_at(d, g, r, k));
    }
    if dir_has_sized(d, fs, r, n, size) {
        let k = choose|k: int|
            0 <= k < entry_count(fs) && entry_named(#[trigger] entry_at(d, fs, r, k), n)
                && entry_at(d, fs, r, k)[11] == ATTR_ARCHIVE && le32(entry_at(d, fs, r, k), 28)
                == size;
        assert(entry_at(d, g, r, k) == entry_at(d, fs, r, k));
        assert(entry_at(e, g, r, k) == entry_at(e, fs, r, k));
        assert(g.fat_entry(d, r) == fs.fat_entry(d, r));
        assert(entry_at(e, g, r, k) == entry_at(d, g, r, k));
    }
}

/// What `make_dir` or `write_file` left for one root-level name, read
/// through another handle on the same volume.
pub proof fn lemma_entry_same_volume(d: Seq<[u8; 512]>, fs: FatFs, g: FatFs, n: Seq<u8>, size: u32, first: u32)
    requires
        fs.same_volume(g),
    ensures
        dir_has(d, g, ROOT_CLUSTER as int, n, ATTR_DIRECTORY) ==> dir_has(
            d,
            fs,
            ROOT_CLUSTER as int,
            n,
            ATTR_DIRECTORY,
        ),
        dir_has_file(d, g, ROOT_CLUSTER as int, n, size, first) ==> dir_has_sized(
            d,
            fs,
            ROOT_CLUSTER as int,
            n,
            size,
        ),
        dir_made(d, g, ROOT_CLUSTER as int, n, 0) ==> dir_made(d, fs, ROOT_CLUSTER as int, n, 0),
{
    let r = ROOT_CLUSTER as int;
    if dir_made(d, g, r, n, 0) {
        let k = choose|k: int|
            0 <= k < entry_count(g) && entry_named(#[trigger] entry_at(d, g, r, k), n) && ({
                let e = entry_at(d, g, r, k);
                let c = entry_first(e);
                &&& e[11] == ATTR_DIRECTORY
                &&& g.is_cluster(c as int)
                &&& g.fat_entry(d, c as int) == END_OF_CHAIN
                &&& entry_at(d, g, c as int, 0).subrange(0, 11) == dot_entry(false)
                &&& entry_first(entry_at(d, g, c as int, 0)) == c
                &&& entry_at(d, g, c as int, 1).subrange(0, 11) == dot_entry(true)
                &&& entry_first(entry_at(d, g, c as int, 1)) == 0
            });
        let c = entry_first(entry_at(d, g, r, k)) as int;
        assert(entry_at(d, g, r, k) == entry_at(d, fs, r, k));
        assert(entry_at(d, g, c, 0) == entry_at(d, fs, c, 0));
        assert(entry_at(d, g, c, 1) == entry_at(d, fs, c, 1));
        assert(g.fat_entry(d, c) == fs.fat_entry(d, c));
    }
    if dir_has(d, g, r, n, ATTR_DIRECTORY) {
        let k = choose|k: int|
            0 <= k < entry_count(g) && entry_named(#[trigger] entry_at(d, g, r, k), n)
                && entry_at(d, g, r, k)[11] == ATTR_DIRECTORY;
        assert(entry_at(d, g, r, k) == entry_at(d, fs, r, k));
    }
    if dir_has_file(d, g, r, n, size, first) {
        let k = choose|k: int|
            0 <= k < entry_count(g) && entry_named(#[trigger] entry_at(d, g, r, k), n)
                && entry_at(d, g, r, k)[11] == ATTR_ARCHIVE && le32(entry_at(d, g, r, k), 28)
                == size && entry_first(entry_at(d, g, r, k)) == first;
        assert(entry_at(d, g, r, k) == entry_at(d, fs, r, k));
    }
}

} // verus!
