//! Volume sampling: every output voxel is inverse-mapped into the input volume, plane by plane.

use vstd::prelude::*;
use vstd::slice::slice_subrange;
use crate::binary32::{sum32, unity, Single};
use crate::error::{Error, Fault};
use crate::text::{chars_of, lower, same, to_lower, trim, trimmed};

verus! {

/// How a sample between voxels is made.
#[derive(Clone, Copy, Debug, PartialEq, Eq, Structural)]
pub enum Interp {
    Nearest,
    Trilinear,
}

/// The interpolation that a text stands for.
pub open spec fn named_interp(s: Seq<char>) -> Option<Interp> {
    let t = lower(trim(s));
    if t == "nearest"@ || t == "nn"@ || t == "point"@ {
        Some(Interp::Nearest)
    } else if t == "trilinear"@ || t == "linear"@ {
        Some(Interp::Trilinear)
    } else {
        None
    }
}

/// Reads the interpolation.
pub fn parse_interp(s: &str) -> (r: Result<Interp, Error>)
    ensures
        match r {
            Ok(i) => named_interp(s@) == Some(i),
            Err(e) => named_interp(s@) is None && e.says(Fault::BadInterp, "ROT_INTERP"@, s@),
        },
{
    let text = chars_of(s);
    let t = to_lower(trimmed(&text));
    if same(&t, "nearest") || same(&t, "nn") || same(&t, "point") {
        Ok(Interp::Nearest)
    } else if same(&t, "trilinear") || same(&t, "linear") {
        Ok(Interp::Trilinear)
    } else {
        Err(Error::new(Fault::BadInterp, "ROT_INTERP", s))
    }
}

/// How one sample is stored.
pub trait Sample {
    /// The bytes of a sample.
    spec fn size() -> nat;

    /// The largest sample.
    spec fn top() -> nat;

    /// The sample at the front of some bytes.
    spec fn loaded(b: Seq<u8>) -> nat;

    /// The bytes of a sample.
    spec fn stored(v: nat) -> Seq<u8>;

    /// The bytes of a sample.
    fn bytes() -> (r: usize)
        ensures
            r == Self::size(),
            1 <= r <= 2,
    ;

    /// Reads the sample at the front of some bytes.
    fn load(b: &[u8]) -> (r: Single)
        requires
            b@.len() >= Self::size(),
        ensures
            r.wf(),
            r.value() == Self::loaded(b@) * unity(),
            r.e <= 103,
    ;

    /// Appends the sample nearest to a number, halves up.
    fn store(v: Single, out: &mut Vec<u8>)
        requires
            v.wf(),
            v.e <= 0x1000_0000,
        ensures
            final(out)@ == old(out)@ + Self::stored(nearest_sample(v.value(), Self::top())),
            Self::stored(nearest_sample(v.value(), Self::top())).len() == Self::size(),
    ;
}

/// One half, counted in binary32 units.
pub open spec fn half32() -> nat {
    vstd::arithmetic::power2::pow2(148)
}

/// The whole part of a number and a half, at most `top`.
pub open spec fn nearest_sample(v: nat, top: nat) -> nat {
    let n = sum32(v, half32()) / unity();
    if n > top {
        top
    } else {
        n
    }
}

fn rounded_sample(v: Single, top: u32) -> (r: u32)
    requires
        v.wf(),
        v.e <= 0x1000_0000,
    ensures
        r == nearest_sample(v.value(), top as nat),
{
    let half = Single { m: 0x80_0000, e: -24 };
    proof {
        vstd::arithmetic::power2::lemma2_to64();
        vstd::arithmetic::power2::lemma_pow2_adds(23, 125);
    }
    v.plus(half).floor_upto(top)
}

/// Samples of one byte.
#[derive(Clone, Copy, Debug)]
pub struct U8;

/// Samples of two bytes, the lower one first.
#[derive(Clone, Copy, Debug)]
pub struct U16Le;

impl Sample for U8 {
    open spec fn size() -> nat {
        1
    }

    open spec fn top() -> nat {
        255
    }

    open spec fn loaded(b: Seq<u8>) -> nat {
        b[0] as nat
    }

    open spec fn stored(v: nat) -> Seq<u8> {
        seq![v as u8]
    }

    fn bytes() -> (r: usize) {
        1
    }

    fn load(b: &[u8]) -> (r: Single) {
        Single::from_int(b[0] as u32)
    }

    fn store(v: Single, out: &mut Vec<u8>) {
        let ghost before = out@;
        let n = rounded_sample(v, 255);
        out.push(n as u8);
        assert(out@ =~= before + Self::stored(n as nat));
    }
}

impl Sample for U16Le {
    open spec fn size() -> nat {
        2
    }

    open spec fn top() -> nat {
        65535
    }

    open spec fn loaded(b: Seq<u8>) -> nat {
        b[0] as nat + 256 * b[1] as nat
    }

    open spec fn stored(v: nat) -> Seq<u8> {
        seq![(v % 256) as u8, (v / 256) as u8]
    }

    fn bytes() -> (r: usize) {
        2
    }

    fn load(b: &[u8]) -> (r: Single) {
        Single::from_int(b[0] as u32 + 256 * b[1] as u32)
    }

    fn store(v: Single, out: &mut Vec<u8>) {
        let ghost before = out@;
        let n = rounded_sample(v, 65535);
        out.push((n % 256) as u8);
        out.push((n / 256) as u8);
        assert(out@ =~= before + Self::stored(n as nat));
    }
}

/// Random access to the raw input frames.
pub trait Frames {
    /// The frames.
    spec fn frames(&self) -> Seq<Seq<u8>>;

    /// Frame `z`.
    fn frame(&self, z: usize) -> (r: &[u8])
        requires
            z < self.frames().len(),
        ensures
            r@ == self.frames()[z as int],
    ;
}

/// Tightly packed consecutive frames (a file in memory, a copy, or a single frame).
pub struct Flat<'a> {
    pub data: &'a [u8],
    pub frame_bytes: usize,
}

impl<'a> Frames for Flat<'a> {
    open spec fn frames(&self) -> Seq<Seq<u8>> {
        let n = self.frame_bytes as int;
        if n == 0 {
            Seq::empty()
        } else {
            Seq::new(
                (self.data@.len() / n as nat),
                |z: int| self.data@.subrange(z * n, (z + 1) * n),
            )
        }
    }

    fn frame(&self, z: usize) -> (r: &[u8]) {
        let n = self.frame_bytes;
        let total = self.data.len();
        proof {
            let len = total as int;
            vstd::arithmetic::div_mod::lemma_fundamental_div_mod(len, n as int);
            let q = len / n as int;
            assert((z + 1) * n <= n * q) by (nonlinear_arith)
                requires
                    z + 1 <= q,
                    n >= 0,
            ;
            assert(0 <= z * n <= (z + 1) * n) by (nonlinear_arith)
                requires
                    z >= 0,
                    n >= 0,
            ;
            assert(q <= len) by (nonlinear_arith)
                requires
                    n * q <= len,
                    n >= 1,
                    q >= 0,
            ;
        }
        slice_subrange(self.data, z * n, (z + 1) * n)
    }
}

impl Frames for Vec<Vec<u8>> {
    open spec fn frames(&self) -> Seq<Seq<u8>> {
        self@.map_values(|f: Vec<u8>| f@)
    }

    fn frame(&self, z: usize) -> (r: &[u8]) {
        self[z].as_slice()
    }
}

} // verus!
