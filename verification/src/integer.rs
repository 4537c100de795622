//! Reading fixed-width big-endian two's-complement integers from bytes.

use vstd::prelude::*;

verus! {

/// 256 to the power `n`: the number of values `n` bytes can hold.
pub open spec fn pow256(n: nat) -> nat
    decreases n,
{
    if n == 0 {
        1
    } else {
        256 * pow256((n - 1) as nat)
    }
}

/// The unsigned big-endian value of a byte sequence.
pub open spec fn be_unsigned(s: Seq<u8>) -> nat
    decreases s.len(),
{
    if s.len() == 0 {
        0
    } else {
        (be_unsigned(s.drop_last()) * 256 + s.last()) as nat
    }
}

/// The signed (two's-complement) big-endian value of a byte sequence.
pub open spec fn be_signed(s: Seq<u8>) -> int {
    if 2 * be_unsigned(s) < pow256(s.len()) {
        be_unsigned(s) as int
    } else {
        be_unsigned(s) - pow256(s.len())
    }
}

pub proof fn lemma_be_unsigned_push(s: Seq<u8>, b: u8)
    ensures
        be_unsigned(s.push(b)) == be_unsigned(s) * 256 + b,
{
    assert(s.push(b).drop_last() =~= s);
    assert(s.push(b).last() == b);
}

pub proof fn lemma_be_unsigned_bound(s: Seq<u8>)
    ensures
        be_unsigned(s) < pow256(s.len()),
    decreases s.len(),
{
    if s.len() > 0 {
        lemma_be_unsigned_bound(s.drop_last());
    }
}

pub proof fn lemma_pow256_mono(a: nat, b: nat)
    requires
        a <= b,
    ensures
        pow256(a) <= pow256(b),
    decreases b,
{
    if a < b && b > 0 {
        lemma_pow256_mono(a, (b - 1) as nat);
    }
}

/// Reads a slice of at most eight bytes as an unsigned big-endian integer.
pub fn be_unsigned_of(array: &[u8]) -> (r: u64)
    requires
        array@.len() <= 8,
    ensures
        r == be_unsigned(array@),
{
    proof {
        reveal_with_fuel(pow256, 9);
    }
    let mut acc: u64 = 0;
    let mut i: usize = 0;
    while i < array.len()
        invariant
            array@.len() <= 8,
            i <= array@.len(),
            acc == be_unsigned(array@.subrange(0, i as int)),
        decreases array@.len() - i,
    {
        proof {
            reveal_with_fuel(pow256, 9);
            lemma_be_unsigned_bound(array@.subrange(0, i as int));
            lemma_pow256_mono(i as nat, 7);
            lemma_be_unsigned_push(array@.subrange(0, i as int), array@[i as int]);
            assert(array@.subrange(0, i as int).push(array@[i as int]) =~= array@.subrange(
                0,
                i as int + 1,
            ));
        }
        acc = acc * 256 + array[i] as u64;
        i = i + 1;
    }
    proof {
        assert(array@.subrange(0, array@.len() as int) =~= array@);
    }
    acc
}

/// The `width` big-endian bytes encoding an unsigned value.
pub open spec fn be_bytes(u: nat, width: nat) -> Seq<u8>
    decreases width,
{
    if width == 0 {
        Seq::empty()
    } else {
        be_bytes(u / 256, (width - 1) as nat).push((u % 256) as u8)
    }
}

/// The unsigned value that encodes a signed one in `width` bytes of
/// two's complement.
pub open spec fn to_unsigned(v: int, width: nat) -> nat {
    if v >= 0 {
        v as nat
    } else {
        (v + pow256(width)) as nat
    }
}

pub proof fn lemma_be_bytes_len(u: nat, width: nat)
    ensures
        be_bytes(u, width).len() == width,
    decreases width,
{
    if width > 0 {
        lemma_be_bytes_len(u / 256, (width - 1) as nat);
    }
}

/// Reading back the big-endian bytes of an unsigned value in range
/// yields the value.
pub proof fn lemma_be_bytes_round_trip(u: nat, width: nat)
    requires
        u < pow256(width),
    ensures
        be_unsigned(be_bytes(u, width)) == u,
    decreases width,
{
    if width > 0 {
        assert(u / 256 < pow256((width - 1) as nat));
        lemma_be_bytes_round_trip(u / 256, (width - 1) as nat);
        lemma_be_unsigned_push(be_bytes(u / 256, (width - 1) as nat), (u % 256) as u8);
    }
}

/// Reading back the two's-complement big-endian bytes of a signed
/// value in range yields the value.
pub proof fn lemma_signed_round_trip(v: int, width: nat)
    requires
        -(pow256(width) as int) <= 2 * v < pow256(width),
    ensures
        be_signed(be_bytes(to_unsigned(v, width), width)) == v,
{
    let u = to_unsigned(v, width);
    assert(u < pow256(width));
    lemma_be_bytes_round_trip(u, width);
    lemma_be_bytes_len(u, width);
}

/// A fixed-width signed integer that can be read from big-endian bytes.
pub trait Integer: Sized {
    /// The number of bytes one value occupies on the wire.
    spec fn width() -> usize;

    /// The mathematical value of this integer.
    spec fn as_int(self) -> int;

    /// The wire width, as executable code.
    fn byte_width() -> (w: usize)
        ensures
            w == Self::width(),
    ;

    /// Reads one value from exactly `width` big-endian bytes.
    fn from_bytes(array: &[u8]) -> (r: Self)
        requires
            array@.len() == Self::width(),
        ensures
            r.as_int() == be_signed(array@),
    ;
}

impl Integer for i8 {
    open spec fn width() -> usize {
        1
    }

    open spec fn as_int(self) -> int {
        self as int
    }

    fn byte_width() -> usize {
        1
    }

    fn from_bytes(array: &[u8]) -> (r: Self) {
        proof {
            reveal_with_fuel(pow256, 2);
            lemma_be_unsigned_bound(array@);
        }
        let u = be_unsigned_of(array);
        if u < 128 {
            u as i8
        } else {
            let t: i8 = (255 - u as u8) as i8;
            -t - 1
        }
    }
}

impl Integer for i16 {
    open spec fn width() -> usize {
        2
    }

    open spec fn as_int(self) -> int {
        self as int
    }

    fn byte_width() -> usize {
        2
    }

    fn from_bytes(array: &[u8]) -> (r: Self) {
        proof {
            reveal_with_fuel(pow256, 3);
            lemma_be_unsigned_bound(array@);
        }
        let u = be_unsigned_of(array);
        if u < 0x8000 {
            u as i16
        } else {
            let t: i16 = (0xffff - u as u16) as i16;
            -t - 1
        }
    }
}

impl Integer for i32 {
    open spec fn width() -> usize {
        4
    }

    open spec fn as_int(self) -> int {
        self as int
    }

    fn byte_width() -> usize {
        4
    }

    fn from_bytes(array: &[u8]) -> (r: Self) {
        proof {
            reveal_with_fuel(pow256, 5);
            lemma_be_unsigned_bound(array@);
        }
        let u = be_unsigned_of(array);
        if u < 0x8000_0000 {
            u as i32
        } else {
            let t: i32 = (0xffff_ffff - u as u32) as i32;
            -t - 1
        }
    }
}

impl Integer for i64 {
    open spec fn width() -> usize {
        8
    }

    open spec fn as_int(self) -> int {
        self as int
    }

    fn byte_width() -> usize {
        8
    }

    fn from_bytes(array: &[u8]) -> (r: Self) {
        proof {
            reveal_with_fuel(pow256, 9);
            lemma_be_unsigned_bound(array@);
        }
        let u = be_unsigned_of(array);
        if u < 0x8000_0000_0000_0000 {
            u as i64
        } else {
            let t: i64 = (0xffff_ffff_ffff_ffff - u) as i64;
            -t - 1
        }
    }
}

} // verus!
