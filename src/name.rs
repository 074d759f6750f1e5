//! Short (8.3) directory-entry names and path components.
use vstd::prelude::*;

verus! {

/// Byte that separates path components.
pub const SEPARATOR: u8 = 0x2f;

/// Byte that separates a name from its extension.
pub const DOT: u8 = 0x2e;

/// Padding byte of short names.
pub const SPACE: u8 = 0x20;

/// Bytes that a short name may hold, besides the dot: letters, digits and
/// `_ - ~ ! # $ % & ' ( ) @ ^ { }`.
pub open spec fn legal_byte(b: u8) -> bool {
    (0x30 <= b <= 0x39) || (0x41 <= b <= 0x5a) || (0x61 <= b <= 0x7a) || b == 0x5f || b == 0x2d
        || b == 0x7e || b == 0x21 || b == 0x23 || b == 0x24 || b == 0x25 || b == 0x26 || b
        == 0x27 || b == 0x28 || b == 0x29 || b == 0x40 || b == 0x5e || b == 0x7b || b == 0x7d
}

pub open spec fn upper(b: u8) -> u8 {
    if 0x61 <= b <= 0x7a {
        (b - 32) as u8
    } else {
        b
    }
}

/// `n` is a short name whose base ends at `d`: one to eight bytes of base,
/// then either nothing or a dot and one to three bytes of extension.
pub open spec fn name_split(n: Seq<u8>, d: int) -> bool {
    &&& 1 <= d <= 8
    &&& d == n.len() || (d < n.len() && n[d] == DOT && 1 <= n.len() - d - 1 <= 3)
    &&& forall|j: int| 0 <= j < n.len() && j != d ==> legal_byte(#[trigger] n[j])
}

/// The 11 bytes stored for `n` split at `d`: base and extension upper-cased
/// and padded with spaces.
pub open spec fn encoded(n: Seq<u8>, d: int) -> Seq<u8> {
    Seq::new(
        11,
        |i: int|
            if i < 8 {
                if i < d {
                    upper(n[i])
                } else {
                    SPACE
                }
            } else if d + 1 + (i - 8) < n.len() {
                upper(n[d + 1 + (i - 8)])
            } else {
                SPACE
            },
    )
}

fn legal(b: u8) -> (r: bool)
    ensures
        r == legal_byte(b),
{
    (0x30 <= b && b <= 0x39) || (0x41 <= b && b <= 0x5a) || (0x61 <= b && b <= 0x7a) || b == 0x5f
        || b == 0x2d || b == 0x7e || b == 0x21 || b == 0x23 || b == 0x24 || b == 0x25 || b
        == 0x26 || b == 0x27 || b == 0x28 || b == 0x29 || b == 0x40 || b == 0x5e || b == 0x7b
        || b == 0x7d
}

fn to_upper(b: u8) -> (r: u8)
    ensures
        r == upper(b),
{
    if 0x61 <= b && b <= 0x7a {
        b - 32
    } else {
        b
    }
}

/// The stored form of a path component, or `None` when it is not a short
/// name.
pub fn short_name(n: &[u8]) -> (r: Option<[u8; 11]>)
    ensures
        r is Some <==> exists|d: int| name_split(n@, d),
        forall|d: int| #[trigger] name_split(n@, d) ==> (r matches Some(a) && a@ == encoded(n@, d)),
        r matches Some(a) ==> a@[0] != 0u8 && a@[0] != 0xe5u8,
{
    let len = n.len();
    let mut dot: usize = len;
    let mut j: usize = 0;
    while j < len
        invariant
            len == n@.len(),
            j <= len,
            dot == len || (dot < j && n@[dot as int] == DOT),
            forall|k: int| 0 <= k < j && k != dot ==> legal_byte(#[trigger] n@[k]),
        decreases len - j,
    {
        if n[j] == DOT && dot == len {
            dot = j;
        } else if !legal(n[j]) {
            proof {
                assert forall|d: int| !name_split(n@, d) by {
                    if name_split(n@, d) {
                        if d != j {
                            assert(legal_byte(n@[j as int]));
                        } else {
                            assert(dot != len);
                            assert(legal_byte(n@[dot as int]));
                        }
                    }
                }
            }
            return None;
        }
        j = j + 1;
    }
    let ext = if dot == len {
        0
    } else {
        len - dot - 1
    };
    if dot < 1 || dot > 8 || (dot < len && (ext < 1 || ext > 3)) {
        proof {
            assert forall|d: int| !name_split(n@, d) by {
                if name_split(n@, d) {
                    if d != dot {
                        if d == len {
                            assert(legal_byte(n@[dot as int]));
                        } else {
                            assert(legal_byte(n@[d]));
                        }
                    }
                }
            }
        }
        return None;
    }
    let mut out: [u8; 11] = [SPACE; 11];
    let mut i: usize = 0;
    while i < 11
        invariant
            len == n@.len(),
            1 <= dot <= 8,
            dot <= len,
            i <= 11,
            forall|k: int| 0 <= k < i ==> out@[k] == encoded(n@, dot as int)[k],
        decreases 11 - i,
    {
        if i < 8 {
            out[i] = if i < dot {
                to_upper(n[i])
            } else {
                SPACE
            };
        } else {
            out[i] = if dot + 1 + (i - 8) < len {
                to_upper(n[dot + 1 + (i - 8)])
            } else {
                SPACE
            };
        }
        i = i + 1;
    }
    proof {
        assert(out@ =~= encoded(n@, dot as int));
        assert(name_split(n@, dot as int));
        assert(legal_byte(n@[0]));
        assert forall|d: int| #[trigger] name_split(n@, d) implies d == dot by {
            if d != dot {
                if d == len {
                    assert(legal_byte(n@[dot as int]));
                } else {
                    assert(legal_byte(n@[d]));
                }
            }
        }
    }
    Some(out)
}

/// The parts of `p` closed so far and the part being read, after reading
/// `p` from the left: a separator closes a non-empty part, any other byte
/// extends the current one.
pub open spec fn scan(p: Seq<u8>) -> (Seq<Seq<u8>>, Seq<u8>)
    decreases p.len(),
{
    if p.len() == 0 {
        (Seq::empty(), Seq::empty())
    } else {
        let (done, cur) = scan(p.drop_last());
        if p.last() == SEPARATOR {
            if cur.len() > 0 {
                (done.push(cur), Seq::empty())
            } else {
                (done, Seq::empty())
            }
        } else {
            (done, cur.push(p.last()))
        }
    }
}

/// The non-empty pieces of `p` between separators, in order.
pub open spec fn parts_of(p: Seq<u8>) -> Seq<Seq<u8>> {
    if scan(p).1.len() > 0 {
        scan(p).0.push(scan(p).1)
    } else {
        scan(p).0
    }
}

/// The non-empty parts of `path` between separators, in order.
pub fn components(path: &[u8]) -> (r: Vec<Vec<u8>>)
    ensures
        forall|i: int|
            0 <= i < r@.len() ==> (#[trigger] r@[i])@.len() > 0 && !r@[i]@.contains(SEPARATOR),
        path@.len() > 0 && !path@.contains(SEPARATOR) ==> r@.len() == 1 && r@[0]@ == path@,
        r@.len() == parts_of(path@).len(),
        forall|i: int| 0 <= i < r@.len() ==> (#[trigger] r@[i])@ == parts_of(path@)[i],
{
    let mut parts: Vec<Vec<u8>> = Vec::new();
    let mut cur: Vec<u8> = Vec::new();
    let mut j: usize = 0;
    while j < path.len()
        invariant
            j <= path@.len(),
            !cur@.contains(SEPARATOR),
            forall|i: int|
                0 <= i < parts@.len() ==> (#[trigger] parts@[i])@.len() > 0 && !parts@[i]@.contains(
                    SEPARATOR,
                ),
            !path@.contains(SEPARATOR) ==> parts@.len() == 0 && cur@ == path@.subrange(0, j as int),
            parts@.len() == scan(path@.subrange(0, j as int)).0.len(),
            forall|i: int| 0 <= i < parts@.len() ==> (#[trigger] parts@[i])@ == scan(path@.subrange(0, j as int)).0[i],
            cur@ == scan(path@.subrange(0, j as int)).1,
        decreases path@.len() - j,
    {
        let b = path[j];
        assert(path@.subrange(0, j + 1) =~= path@.subrange(0, j as int).push(b));
        assert(path@.subrange(0, j + 1).drop_last() =~= path@.subrange(0, j as int));
        if b == SEPARATOR {
            assert(path@.contains(SEPARATOR));
            if cur.len() > 0 {
                parts.push(cur);
                cur = Vec::new();
                assert(!cur@.contains(SEPARATOR));
            }
        } else {
            cur.push(b);
            assert(!cur@.contains(SEPARATOR)) by {
                if cur@.contains(SEPARATOR) {
                    let k = choose|k: int| 0 <= k < cur@.len() && cur@[k] == SEPARATOR;
                    assert(k < cur@.len() - 1 ==> cur@[k] == cur@.drop_last()[k]);
                }
            }
        }
        j = j + 1;
    }
    assert(path@.subrange(0, path@.len() as int) =~= path@);
    if cur.len() > 0 {
        parts.push(cur);
    }
    parts
}

/// `p` is a single short name, stored as `n`.
pub open spec fn plain_name(p: Seq<u8>, n: Seq<u8>) -> bool {
    &&& !p.contains(SEPARATOR)
    &&& exists|d: int| name_split(p, d) && n == encoded(p, d)
}

} // verus!
