//! Grid-resolution configuration: a positive integer supplied as text by the
//! caller. Text that does not parse as an unsigned 32-bit decimal number
//! falls back to the documented default instead of failing.

use vstd::prelude::*;

use vstd::string::StringSliceAdditionalSpecFns;

verus! {

/// The grid resolution applied when the supplied text does not parse.
pub const DEFAULT_GRID_RESOLUTION: u32 = 8;

/// Whether the byte `b` is an ASCII decimal digit.
pub open spec fn is_digit(b: u8) -> bool {
    48 <= b <= 57
}

/// The number denoted by a digit string, most significant digit first.
pub open spec fn digits_val(s: Seq<u8>) -> int
    decreases s.len(),
{
    if s.len() == 0 {
        0
    } else {
        10 * digits_val(s.drop_last()) + (s.last() - 48)
    }
}

/// The digit part of an unsigned decimal text: what follows an optional
/// leading plus sign.
pub open spec fn digits_of(s: Seq<u8>) -> Seq<u8> {
    if s.len() >= 1 && s[0] == 43 {
        s.subrange(1, s.len() as int)
    } else {
        s
    }
}

/// The texts on which unsigned 32-bit decimal parsing succeeds: a nonempty
/// digit part, digits throughout, and a value that fits.
pub open spec fn parses_as_u32(s: Seq<u8>) -> bool {
    &&& digits_of(s).len() >= 1
    &&& forall|i: int| 0 <= i < digits_of(s).len() ==> is_digit(#[trigger] digits_of(s)[i])
    &&& digits_val(digits_of(s)) <= u32::MAX as int
}

/// The grid resolution a text configures: its numeric value when it parses,
/// the default otherwise.
pub open spec fn grid_resolution_of(s: Seq<u8>) -> u32 {
    if parses_as_u32(s) {
        digits_val(digits_of(s)) as u32
    } else {
        DEFAULT_GRID_RESOLUTION
    }
}

pub proof fn lemma_digits_val_nonneg(s: Seq<u8>)
    requires
        forall|i: int| 0 <= i < s.len() ==> is_digit(#[trigger] s[i]),
    ensures
        digits_val(s) >= 0,
    decreases s.len(),
{
    if s.len() > 0 {
        lemma_digits_val_nonneg(s.drop_last());
    }
}

pub proof fn lemma_digits_val_take_step(s: Seq<u8>, i: int)
    requires
        0 <= i < s.len(),
    ensures
        digits_val(s.take(i + 1)) == 10 * digits_val(s.take(i)) + (s[i] - 48),
{
    assert(s.take(i + 1).drop_last() =~= s.take(i));
    assert(s.take(i + 1).last() == s[i]);
}

/// Reading further digits never shrinks the value.
pub proof fn lemma_digits_val_monotone(s: Seq<u8>, i: int)
    requires
        forall|j: int| 0 <= j < s.len() ==> is_digit(#[trigger] s[j]),
        0 <= i <= s.len(),
    ensures
        digits_val(s) >= digits_val(s.take(i)),
    decreases s.len() - i,
{
    if i == s.len() {
        assert(s.take(i) =~= s);
    } else {
        lemma_digits_val_take_step(s, i);
        assert(forall|j: int| 0 <= j < s.take(i).len() ==> is_digit(#[trigger] s.take(i)[j]));
        lemma_digits_val_nonneg(s.take(i));
        lemma_digits_val_monotone(s, i + 1);
    }
}

/// Parses the requested grid resolution from text, or yields the default
/// when the text is not a decimal number that fits an unsigned 32-bit value.
pub fn parse_grid_resolution(s: &str) -> (g: u32)
    ensures
        g == grid_resolution_of(s.spec_bytes()),
{
    let b: &[u8] = s.as_bytes();
    let ghost bs = b@;
    let n: usize = b.len();
    let start: usize = if n >= 1 && b[0] == 43 {
        1
    } else {
        0
    };
    let ghost d = digits_of(bs);
    proof {
        assert(d =~= bs.subrange(start as int, n as int));
    }
    if n == start {
        return DEFAULT_GRID_RESOLUTION;
    }
    let mut acc: u64 = 0;
    let mut i: usize = start;
    while i < n
        invariant
            b@ == bs,
            bs == s.spec_bytes(),
            n == bs.len(),
            start <= i <= n,
            start < n,
            d == digits_of(bs),
            d =~= bs.subrange(start as int, n as int),
            forall|j: int| 0 <= j < i - start ==> is_digit(#[trigger] d[j]),
            acc as int == digits_val(d.take(i - start)),
            acc <= u32::MAX as u64,
        decreases n - i,
    {
        let c: u8 = b[i];
        proof {
            assert(d[i - start] == bs[i as int]);
        }
        if c < 48 || c > 57 {
            proof {
                assert(!is_digit(d[i - start]));
            }
            return DEFAULT_GRID_RESOLUTION;
        }
        proof {
            lemma_digits_val_take_step(d, i - start);
        }
        acc = acc * 10 + ((c - 48) as u64);
        if acc > u32::MAX as u64 {
            proof {
                if parses_as_u32(bs) {
                    lemma_digits_val_monotone(d, i + 1 - start);
                }
            }
            return DEFAULT_GRID_RESOLUTION;
        }
        i = i + 1;
    }
    proof {
        assert(d.take(n - start) =~= d);
        assert(parses_as_u32(bs));
    }
    acc as u32
}

} // verus!
