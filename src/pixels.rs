//! Pixel-buffer helpers and power-of-two rounding.
use vstd::prelude::*;

verus! {

/// The least power of two that is at least `x` (and 1 for `x <= 1`).
pub open spec fn ceil_pow2(x: nat) -> nat {
    pow2_from(1, x)
}

/// Doubles `p` until it reaches `x`.
pub open spec fn pow2_from(p: nat, x: nat) -> nat
    decreases 2 * x - p,
{
    if p == 0 || p >= x {
        p
    } else {
        pow2_from(2 * p, x)
    }
}

/// Whether `n` is a power of two.
pub open spec fn is_pow2(n: nat) -> bool
    decreases n,
{
    n == 1 || (n >= 2 && n % 2 == 0 && is_pow2(n / 2))
}

/// Doubling from a positive start reaches at least the target.
pub proof fn lemma_pow2_from_ge(p: nat, x: nat)
    requires
        p >= 1,
    ensures
        pow2_from(p, x) >= x,
        pow2_from(p, x) >= 1,
    decreases 2 * x - p,
{
    if p < x {
        lemma_pow2_from_ge(2 * p, x);
    }
}

/// Rounds `x` up to the nearest power of two.
pub fn nearest_pow_2(x: u32) -> (r: u32)
    requires
        1 <= x <= 0x8000_0000,
    ensures
        r == ceil_pow2(x as nat),
        is_pow2(r as nat),
        x <= r,
        r < 2 * x,
{
    let mut p: u32 = 1;
    assert(is_pow2(1)) by {
        reveal_with_fuel(is_pow2, 2);
    }
    while p < x
        invariant
            1 <= x <= 0x8000_0000,
            1 <= p,
            p < 2 * x,
            is_pow2(p as nat),
            pow2_from(p as nat, x as nat) == pow2_from(1, x as nat),
        decreases 2 * x - p,
    {
        assert(is_pow2((2 * p) as nat)) by {
            assert((2 * p) as nat / 2 == p as nat);
        }
        p = p * 2;
    }
    p
}

/// Pixel formats of a texture.
#[derive(Clone, Copy, Debug, PartialEq, Eq, Structural)]
pub enum TexFormat {
    /// Four bytes per pixel.
    RGBA,
    /// One alpha byte per pixel.
    A,
}

/// `p` cut into rows of `width` bytes from the end (the first row is the
/// shorter one when the length is not a multiple of `width`), rows in reverse
/// order.
pub open spec fn flipped(p: Seq<u8>, width: nat) -> Seq<u8>
    decreases p.len(),
{
    if width == 0 || p.len() <= width {
        p
    } else {
        p.subrange(p.len() - width, p.len() as int) + flipped(
            p.subrange(0, p.len() - width),
            width,
        )
    }
}

/// Reverses the order of the `width`-byte rows of `pixels`, turning a
/// top-down image into a bottom-up one.
pub fn flip(pixels: &[u8], width: usize) -> (r: Vec<u8>)
    requires
        width > 0,
    ensures
        r@ == flipped(pixels@, width as nat),
        r@.len() == pixels@.len(),
{
    let p = pixels;
    let mut out: Vec<u8> = Vec::with_capacity(p.len());
    let mut end: usize = p.len();
    assert(p@.subrange(0, end as int) =~= p@);
    while end > 0
        invariant
            end <= p@.len(),
            width > 0,
            flipped(p@, width as nat) == out@ + flipped(p@.subrange(0, end as int), width as nat),
            out@.len() + end == p@.len(),
        decreases end,
    {
        let start = if end >= width {
            end - width
        } else {
            0
        };
        let ghost before = out@;
        let mut j = start;
        while j < end
            invariant
                start <= j <= end,
                end <= p@.len(),
                out@ == before + p@.subrange(start as int, j as int),
            decreases end - j,
        {
            out.push(p[j]);
            j = j + 1;
            assert(out@ =~= before + p@.subrange(start as int, j as int));
        }
        proof {
            let q = p@.subrange(0, end as int);
            if end as nat <= width as nat {
                assert(start == 0);
                assert(p@.subrange(0, 0) =~= Seq::<u8>::empty());
                assert(flipped(p@.subrange(0, 0), width as nat) =~= Seq::<u8>::empty());
                assert(q =~= p@.subrange(start as int, end as int));
            } else {
                assert(q.subrange(q.len() - width, q.len() as int) =~= p@.subrange(
                    start as int,
                    end as int,
                ));
                assert(q.subrange(0, q.len() - width) =~= p@.subrange(0, start as int));
            }
            assert(out@ + flipped(p@.subrange(0, start as int), width as nat) =~= before
                + flipped(q, width as nat));
        }
        end = start;
    }
    assert(flipped(p@.subrange(0, 0), width as nat) =~= Seq::<u8>::empty());
    assert(out@ + Seq::<u8>::empty() =~= out@);
    out
}

} // verus!
