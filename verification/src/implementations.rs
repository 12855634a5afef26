//! Decompositions for the supported value types.
//!
//! Text decomposes into its characters in order; fixed-width integers into
//! the bytes of their big-endian encoding, signed ones through the unsigned
//! reinterpretation of their bit pattern.

use vstd::prelude::*;

use crate::Decomposable;

verus! {

/// The `width` big-endian bytes of `v` (that is, of `v` modulo
/// `256^width`), most significant first.
pub open spec fn be_bytes(v: int, width: nat) -> Seq<u8>
    decreases width,
{
    if width == 0 {
        Seq::empty()
    } else {
        be_bytes(v / 256, (width - 1) as nat).push((v % 256) as u8)
    }
}

/// Produce the `width` big-endian bytes of `v`, least significant last.
fn be_bytes_vec(v: u128, width: usize) -> (r: Vec<u8>)
    ensures
        r@ == be_bytes(v as int, width as nat),
{
    let mut r: Vec<u8> = Vec::new();
    let mut rest: u128 = v;
    let mut cnt: usize = 0;
    while cnt < width
        invariant
            cnt <= width,
            r@.len() == cnt,
            be_bytes(v as int, width as nat) == be_bytes(
                rest as int,
                (width - cnt) as nat,
            ) + r@,
        decreases width - cnt,
    {
        let ghost rest0 = rest as int;
        let ghost r0 = r@;
        let b: u8 = (rest % 256) as u8;
        r.insert(0, b);
        rest = rest / 256;
        cnt += 1;
        proof {
            assert(be_bytes(rest0, (width - cnt + 1) as nat) == be_bytes(
                rest0 / 256,
                (width - cnt) as nat,
            ).push((rest0 % 256) as u8));
            assert(be_bytes(rest0 / 256, (width - cnt) as nat).push((rest0 % 256) as u8) + r0
                =~= be_bytes(rest0 / 256, (width - cnt) as nat) + r@);
        }
    }
    proof {
        assert(be_bytes(rest as int, 0) + r@ =~= r@);
    }
    r
}

impl<TParts> Decomposable<TParts> for Vec<TParts> {
    /// A ready-made part sequence is its own decomposition. This is the
    /// door for keys whose decomposition must be computed elsewhere, such
    /// as the bit patterns of floating-point numbers.
    open spec fn parts(self) -> Seq<TParts> {
        self@
    }

    fn decompose(self) -> (r: Vec<TParts>) {
        self
    }
}

impl Decomposable<char> for String {
    /// A string's parts are its characters, in order.
    open spec fn parts(self) -> Seq<char> {
        self@
    }

    fn decompose(self) -> (r: Vec<char>) {
        let s = self.as_str();
        let n = s.unicode_len();
        let mut r: Vec<char> = Vec::new();
        let mut i: usize = 0;
        while i < n
            invariant
                i <= n,
                n == s@.len(),
                s@ == self@,
                r@ == self@.take(i as int),
            decreases n - i,
        {
            r.push(s.get_char(i));
            proof {
                assert(r@ =~= self@.take(i + 1));
            }
            i += 1;
        }
        proof {
            assert(r@ =~= self@);
        }
        r
    }
}

impl Decomposable<u8> for u16 {
    /// Big-endian bytes of the value.
    open spec fn parts(self) -> Seq<u8> {
        be_bytes(self as int, 2)
    }

    fn decompose(self) -> (r: Vec<u8>) {
        be_bytes_vec(self as u128, 2)
    }
}

impl Decomposable<u8> for u32 {
    /// Big-endian bytes of the value.
    open spec fn parts(self) -> Seq<u8> {
        be_bytes(self as int, 4)
    }

    fn decompose(self) -> (r: Vec<u8>) {
        be_bytes_vec(self as u128, 4)
    }
}

impl Decomposable<u8> for u64 {
    /// Big-endian bytes of the value.
    open spec fn parts(self) -> Seq<u8> {
        be_bytes(self as int, 8)
    }

    fn decompose(self) -> (r: Vec<u8>) {
        be_bytes_vec(self as u128, 8)
    }
}

impl Decomposable<u8> for u128 {
    /// Big-endian bytes of the value.
    open spec fn parts(self) -> Seq<u8> {
        be_bytes(self as int, 16)
    }

    fn decompose(self) -> (r: Vec<u8>) {
        be_bytes_vec(self, 16)
    }
}

impl Decomposable<u8> for i16 {
    /// Big-endian bytes of the value's two's-complement bit pattern.
    open spec fn parts(self) -> Seq<u8> {
        be_bytes((self as u16) as int, 2)
    }

    fn decompose(self) -> (r: Vec<u8>) {
        be_bytes_vec((self as u16) as u128, 2)
    }
}

impl Decomposable<u8> for i32 {
    /// Big-endian bytes of the value's two's-complement bit pattern.
    open spec fn parts(self) -> Seq<u8> {
        be_bytes((self as u32) as int, 4)
    }

    fn decompose(self) -> (r: Vec<u8>) {
        be_bytes_vec((self as u32) as u128, 4)
    }
}

impl Decomposable<u8> for i64 {
    /// Big-endian bytes of the value's two's-complement bit pattern.
    open spec fn parts(self) -> Seq<u8> {
        be_bytes((self as u64) as int, 8)
    }

    fn decompose(self) -> (r: Vec<u8>) {
        be_bytes_vec((self as u64) as u128, 8)
    }
}

impl Decomposable<u8> for i128 {
    /// Big-endian bytes of the value's two's-complement bit pattern.
    open spec fn parts(self) -> Seq<u8> {
        be_bytes((self as u128) as int, 16)
    }

    fn decompose(self) -> (r: Vec<u8>) {
        be_bytes_vec(self as u128, 16)
    }
}

} // verus!
