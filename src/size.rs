//! Disk sizes written as a number and a unit: `kb`, `kib`, `mb` or `mib`,
//! in any case.
use vstd::prelude::*;
use vstd::string::StringSliceAdditionalSpecFns;

verus! {

#[derive(Debug, Clone, Copy, PartialEq, Eq, Structural)]
pub enum SizeError {
    /// The text does not start with a digit.
    NoNumber,
    /// What follows the number is not a known unit.
    UnknownUnit,
    /// The size does not fit in `usize`.
    TooLarge,
}

pub open spec fn is_digit(b: u8) -> bool {
    0x30 <= b <= 0x39
}

pub open spec fn lower(b: u8) -> u8 {
    if 0x41 <= b <= 0x5a {
        (b + 32) as u8
    } else {
        b
    }
}

/// The decimal number that the digits `b` spell.
pub open spec fn decimal(b: Seq<u8>) -> nat
    decreases b.len(),
{
    if b.len() == 0 {
        0
    } else {
        decimal(b.drop_last()) * 10 + (b.last() - 0x30) as nat
    }
}

/// Whether `b` is `text` but for the case of its letters.
pub open spec fn same_letters(b: Seq<u8>, text: Seq<u8>) -> bool {
    b.len() == text.len() && forall|i: int| 0 <= i < b.len() ==> lower(#[trigger] b[i]) == text[i]
}

/// Bytes per unit: kb = 10^3, kib = 2^10, mb = 10^6, mib = 2^20.
pub open spec fn unit_factor(u: Seq<u8>) -> Option<nat> {
    if same_letters(u, seq![0x6bu8, 0x62u8]) {
        Some(1000)
    } else if same_letters(u, seq![0x6bu8, 0x69u8, 0x62u8]) {
        Some(1024)
    } else if same_letters(u, seq![0x6du8, 0x62u8]) {
        Some(1000000)
    } else if same_letters(u, seq![0x6du8, 0x69u8, 0x62u8]) {
        Some(1048576)
    } else {
        None
    }
}

/// Whether the first `k` bytes of `b`, and no more, are digits.
pub open spec fn digit_prefix(b: Seq<u8>, k: int) -> bool {
    &&& 0 <= k <= b.len()
    &&& forall|j: int| 0 <= j < k ==> is_digit(#[trigger] b[j])
    &&& k == b.len() || !is_digit(b[k])
}

/// The size that `b` denotes, split after its `k` leading digits.
pub open spec fn size_of(b: Seq<u8>, k: int) -> Result<nat, SizeError> {
    if k == 0 {
        Err(SizeError::NoNumber)
    } else if unit_factor(b.subrange(k, b.len() as int)) is None {
        Err(SizeError::UnknownUnit)
    } else if decimal(b.subrange(0, k)) * unit_factor(b.subrange(k, b.len() as int))->0
        > usize::MAX {
        Err(SizeError::TooLarge)
    } else {
        Ok(decimal(b.subrange(0, k)) * unit_factor(b.subrange(k, b.len() as int))->0)
    }
}

proof fn lemma_decimal_grows(b: Seq<u8>, j: int, k: int)
    requires
        0 <= j <= k <= b.len(),
        forall|i: int| 0 <= i < k ==> is_digit(#[trigger] b[i]),
    ensures
        decimal(b.subrange(0, j)) <= decimal(b.subrange(0, k)),
    decreases k - j,
{
    if j < k {
        lemma_decimal_grows(b, j, k - 1);
        assert(b.subrange(0, k).drop_last() =~= b.subrange(0, k - 1));
    }
}

fn factor_of(u: &[u8]) -> (r: Option<usize>)
    ensures
        r matches Some(f) ==> unit_factor(u@) == Some(f as nat),
        r is None ==> unit_factor(u@) is None,
{
    let n = u.len();
    let mut low: Vec<u8> = Vec::new();
    let mut i: usize = 0;
    while i < n
        invariant
            n == u@.len(),
            i <= n,
            low@.len() == i,
            forall|j: int| 0 <= j < i ==> low@[j] == lower(#[trigger] u@[j]),
        decreases n - i,
    {
        let b = u[i];
        low.push(if 0x41 <= b && b <= 0x5a { b + 32 } else { b });
        i = i + 1;
    }
    let kb = n == 2 && low[0] == 0x6b && low[1] == 0x62;
    let kib = n == 3 && low[0] == 0x6b && low[1] == 0x69 && low[2] == 0x62;
    let mb = n == 2 && low[0] == 0x6d && low[1] == 0x62;
    let mib = n == 3 && low[0] == 0x6d && low[1] == 0x69 && low[2] == 0x62;
    proof {
        let s_kb = seq![0x6bu8, 0x62u8];
        let s_kib = seq![0x6bu8, 0x69u8, 0x62u8];
        let s_mb = seq![0x6du8, 0x62u8];
        let s_mib = seq![0x6du8, 0x69u8, 0x62u8];
        assert(same_letters(u@, s_kb) ==> kb) by {
            if same_letters(u@, s_kb) {
                assert(lower(u@[0]) == s_kb[0] && lower(u@[1]) == s_kb[1]);
            }
        }
        assert(same_letters(u@, s_kib) ==> kib) by {
            if same_letters(u@, s_kib) {
                assert(lower(u@[0]) == s_kib[0] && lower(u@[1]) == s_kib[1] && lower(u@[2]) == s_kib[2]);
            }
        }
        assert(same_letters(u@, s_mb) ==> mb) by {
            if same_letters(u@, s_mb) {
                assert(lower(u@[0]) == s_mb[0] && lower(u@[1]) == s_mb[1]);
            }
        }
        assert(same_letters(u@, s_mib) ==> mib) by {
            if same_letters(u@, s_mib) {
                assert(lower(u@[0]) == s_mib[0] && lower(u@[1]) == s_mib[1] && lower(u@[2]) == s_mib[2]);
            }
        }
    }
    if kb {
        Some(1000)
    } else if kib {
        Some(1024)
    } else if mb {
        Some(1000000)
    } else if mib {
        Some(1048576)
    } else {
        None
    }
}

/// The number of bytes that `s` denotes: leading decimal digits times the
/// unit that follows them.
pub fn parse_size(s: &str) -> (r: Result<usize, SizeError>)
    ensures
        forall|k: int| #[trigger] digit_prefix(s.spec_bytes(), k) ==> (match r {
            Ok(n) => size_of(s.spec_bytes(), k) == Ok::<nat, SizeError>(n as nat),
            Err(e) => size_of(s.spec_bytes(), k) == Err::<nat, SizeError>(e),
        }),
{
    let b = s.as_bytes();
    let n = b.len();
    let mut k: usize = 0;
    while k < n && 0x30 <= b[k] && b[k] <= 0x39
        invariant
            n == b@.len(),
            k <= n,
            forall|j: int| 0 <= j < k ==> is_digit(#[trigger] b@[j]),
        decreases n - k,
    {
        k = k + 1;
    }
    assert(digit_prefix(b@, k as int));
    assert forall|q: int| #[trigger] digit_prefix(b@, q) implies q == k by {
        if q < k {
            assert(is_digit(b@[q]));
        } else if q > k {
            assert(is_digit(b@[k as int]));
        }
    }
    if k == 0 {
        return Err(SizeError::NoNumber);
    }
    let factor = match factor_of(&b[k..n]) {
        Some(f) => f,
        None => {
            assert(b@.subrange(k as int, n as int) =~= b@.subrange(k as int, b@.len() as int));
            return Err(SizeError::UnknownUnit);
        },
    };
    assert(b@.subrange(k as int, n as int) =~= b@.subrange(k as int, b@.len() as int));
    let mut num: usize = 0;
    let mut i: usize = 0;
    while i < k
        invariant
            n == b@.len(),
            i <= k <= n,
            forall|j: int| 0 <= j < k ==> is_digit(#[trigger] b@[j]),
            num == decimal(b@.subrange(0, i as int)),
            b@ == s.spec_bytes(),
            k > 0,
            forall|q: int| #[trigger] digit_prefix(b@, q) ==> q == k,
            factor >= 1,
            unit_factor(b@.subrange(k as int, b@.len() as int)) == Some(factor as nat),
        decreases k - i,
    {
        let d = (b[i] - 0x30) as usize;
        assert(b@.subrange(0, i + 1).drop_last() =~= b@.subrange(0, i as int));
        if num > (usize::MAX - d) / 10 {
            proof {
                assert(num * 10 + d > usize::MAX) by (nonlinear_arith)
                    requires
                        num > (usize::MAX - d) / 10,
                        d <= 9,
                ;
                assert(decimal(b@.subrange(0, i + 1)) == num * 10 + d);
                lemma_decimal_grows(b@, i + 1, k as int);
                let dk = decimal(b@.subrange(0, k as int));
                assert(dk > usize::MAX);
                assert(dk * factor > usize::MAX) by (nonlinear_arith)
                    requires
                        factor >= 1,
                        dk > usize::MAX,
                ;
                assert(size_of(b@, k as int) == Err::<nat, SizeError>(SizeError::TooLarge));
            }
            return Err(SizeError::TooLarge);
        }
        num = num * 10 + d;
        i = i + 1;
    }
    if num > usize::MAX / factor {
        proof {
            assert(num * factor > usize::MAX) by (nonlinear_arith)
                requires
                    num > usize::MAX / factor,
                    factor >= 1,
            ;
        }
        return Err(SizeError::TooLarge);
    }
    proof {
        assert(num * factor <= usize::MAX) by (nonlinear_arith)
            requires
                num <= usize::MAX / factor,
                factor >= 1,
        ;
    }
    Ok(num * factor)
}

} // verus!
