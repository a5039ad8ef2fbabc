//! Raw intermediate pixel formats: packed (one interleaved plane) or planar YUV/gray, 8-16 bit.

use vstd::prelude::*;
use vstd::arithmetic::div_mod::{lemma_fundamental_div_mod, lemma_fundamental_div_mod_converse};
use vstd::arithmetic::power2::{lemma2_to64, lemma_pow2_strictly_increases, pow2};
use vstd::slice::slice_subrange;
use crate::colour::{
    alpha_level, blue_difference, channel, difference_level, luma_level, parsed_colour,
    red_difference, top, Colour, Samples,
};
use crate::error::{Error, Fault};
use crate::number::{
    decimal, decimal_reads_back, digit, lemma_decimal_digits, number, parse_number, put_decimal,
};
use crate::rounding::power;
use crate::text::{
    chars_of, ends, ends_with, lemma_trim_ends, lemma_trimmed_already, lower, lower_char, same,
    starts, string_of, strip_prefix, to_lower, trim, trimmed, white,
};

verus! {

/// What a plane holds.
#[derive(Clone, Copy, Debug, PartialEq, Eq)]
pub enum PlaneKind {
    /// One char per channel: r g b a y (gray) x (padding).
    Packed(&'static str),
    Y,
    Cb,
    Cr,
    A,
}

/// One plane of a frame.
#[derive(Clone, Copy, Debug, PartialEq, Eq)]
pub struct Plane {
    pub kind: PlaneKind,
    pub channels: usize,
    /// log2 horizontal / vertical subsampling.
    pub sx: u8,
    pub sy: u8,
}

/// A raw pixel format: its planes, and the bytes and bits of one sample.
#[derive(Clone, Debug, PartialEq, Eq)]
pub struct PixelFormat {
    pub name: String,
    pub bytes: usize,
    pub depth: u32,
    pub planes: Vec<Plane>,
}

/// Where a plane lies in a frame.
#[derive(Clone, Copy, Debug, PartialEq, Eq, Structural)]
pub struct Region {
    pub offset: usize,
    pub w: usize,
    pub h: usize,
    pub bytes: usize,
}

/// What a plane holds, as a value.
pub enum KindView {
    Packed(Seq<char>),
    Y,
    Cb,
    Cr,
    A,
}

/// A plane as a value.
pub struct PlaneView {
    pub kind: KindView,
    pub channels: nat,
    pub sx: nat,
    pub sy: nat,
}

/// A pixel format as a value.
pub struct FormatView {
    pub name: Seq<char>,
    pub bytes: nat,
    pub depth: nat,
    pub planes: Seq<PlaneView>,
}

impl View for PlaneKind {
    type V = KindView;

    open spec fn view(&self) -> KindView {
        match *self {
            PlaneKind::Packed(layout) => KindView::Packed(layout@),
            PlaneKind::Y => KindView::Y,
            PlaneKind::Cb => KindView::Cb,
            PlaneKind::Cr => KindView::Cr,
            PlaneKind::A => KindView::A,
        }
    }
}

impl View for Plane {
    type V = PlaneView;

    open spec fn view(&self) -> PlaneView {
        PlaneView {
            kind: self.kind@,
            channels: self.channels as nat,
            sx: self.sx as nat,
            sy: self.sy as nat,
        }
    }
}

/// The planes as values.
pub open spec fn plane_views(planes: Seq<Plane>) -> Seq<PlaneView> {
    planes.map_values(|p: Plane| p@)
}

impl View for PixelFormat {
    type V = FormatView;

    open spec fn view(&self) -> FormatView {
        FormatView {
            name: self.name@,
            bytes: self.bytes as nat,
            depth: self.depth as nat,
            planes: plane_views(self.planes@),
        }
    }
}

/// A plane of one sample per pixel.
pub open spec fn single_plane(kind: KindView, sx: nat, sy: nat) -> PlaneView {
    PlaneView { kind, channels: 1, sx, sy }
}

/// The channel letters and the bytes per sample of a packed format.
pub open spec fn packed_format(n: Seq<char>) -> Option<(Seq<char>, nat)> {
    if n == "rgb24"@ {
        Some(("rgb"@, 1))
    } else if n == "bgr24"@ {
        Some(("bgr"@, 1))
    } else if n == "rgba"@ {
        Some(("rgba"@, 1))
    } else if n == "bgra"@ {
        Some(("bgra"@, 1))
    } else if n == "argb"@ {
        Some(("argb"@, 1))
    } else if n == "abgr"@ {
        Some(("abgr"@, 1))
    } else if n == "rgb0"@ {
        Some(("rgbx"@, 1))
    } else if n == "bgr0"@ {
        Some(("bgrx"@, 1))
    } else if n == "0rgb"@ {
        Some(("xrgb"@, 1))
    } else if n == "0bgr"@ {
        Some(("xbgr"@, 1))
    } else if n == "ya8"@ {
        Some(("ya"@, 1))
    } else if n == "rgb48le"@ {
        Some(("rgb"@, 2))
    } else if n == "bgr48le"@ {
        Some(("bgr"@, 2))
    } else if n == "rgba64le"@ {
        Some(("rgba"@, 2))
    } else if n == "bgra64le"@ {
        Some(("bgra"@, 2))
    } else if n == "ya16le"@ {
        Some(("ya"@, 2))
    } else {
        None
    }
}

/// The bits and bytes per sample that the end of a format's name stands for: none for 8 bits, a
/// number from 9 to 16, as it is written in decimal, and `le` for more.
pub open spec fn suffix_depth(s: Seq<char>) -> Option<(nat, nat)> {
    if s.len() == 0 {
        Some((8, 1))
    } else if !ends(s, "le"@) {
        None
    } else {
        match number(s.take(s.len() - 2), u32::MAX as nat) {
            Ok(d) => if 9 <= d <= 16 && s.take(s.len() - 2) == decimal(d) {
                Some((d, 2))
            } else {
                None
            },
            Err(_) => None,
        }
    }
}

/// The chroma subsampling, as powers of two, that three digits stand for.
pub open spec fn subsampling(s: Seq<char>) -> Option<(nat, nat)> {
    if s == "444"@ {
        Some((0, 0))
    } else if s == "422"@ {
        Some((1, 0))
    } else if s == "420"@ {
        Some((1, 1))
    } else if s == "440"@ {
        Some((0, 1))
    } else if s == "411"@ {
        Some((2, 0))
    } else if s == "410"@ {
        Some((2, 1))
    } else {
        None
    }
}

/// The part of a planar format's name behind `yuva`, `yuvj` or `yuv`, and whether it has alpha.
pub open spec fn yuv_rest(n: Seq<char>) -> Option<(Seq<char>, bool)> {
    if starts(n, "yuva"@) {
        Some((n.skip(4), true))
    } else if starts(n, "yuvj"@) {
        Some((n.skip(4), false))
    } else if starts(n, "yuv"@) {
        Some((n.skip(3), false))
    } else {
        None
    }
}

/// The planar YUV format of a name.
pub open spec fn yuv_format(n: Seq<char>) -> Option<FormatView> {
    match yuv_rest(n) {
        None => None,
        Some((rest, alpha)) => if rest.len() < 4 || rest[3] != 'p' {
            None
        } else {
            match (subsampling(rest.take(3)), suffix_depth(rest.skip(4))) {
                (Some((sx, sy)), Some((depth, bytes))) => {
                    let colour = seq![
                        single_plane(KindView::Y, 0, 0),
                        single_plane(KindView::Cb, sx, sy),
                        single_plane(KindView::Cr, sx, sy),
                    ];
                    let planes = if alpha {
                        colour.push(single_plane(KindView::A, 0, 0))
                    } else {
                        colour
                    };
                    Some(FormatView { name: n, bytes, depth, planes })
                },
                _ => None,
            }
        },
    }
}

/// The format of a lower-case name.
pub open spec fn format_of(n: Seq<char>) -> Option<FormatView> {
    match packed_format(n) {
        Some((layout, bytes)) => Some(
            FormatView {
                name: n,
                bytes,
                depth: 8 * bytes,
                planes: seq![
                    PlaneView {
                        kind: KindView::Packed(layout),
                        channels: layout.len(),
                        sx: 0,
                        sy: 0,
                    },
                ],
            },
        ),
        None => {
            let gray = if starts(n, "gray"@) {
                suffix_depth(n.skip(4))
            } else {
                None
            };
            match gray {
                Some((depth, bytes)) => Some(
                    FormatView {
                        name: n,
                        bytes,
                        depth,
                        planes: seq![single_plane(KindView::Y, 0, 0)],
                    },
                ),
                None => yuv_format(n),
            }
        },
    }
}

/// The format that a text names: surrounding white space and the case of letters do not matter.
pub open spec fn named_format(s: Seq<char>) -> Option<FormatView> {
    format_of(lower(trim(s)))
}

fn single(kind: PlaneKind, sx: u8, sy: u8) -> (r: Plane)
    ensures
        r@ == single_plane(kind@, sx as nat, sy as nat),
{
    Plane { kind, channels: 1, sx, sy }
}

fn is_decimal(s: &[char], n: u64) -> (r: bool)
    ensures
        r == (s@ == decimal(n as nat)),
{
    let mut t = String::new();
    put_decimal(&mut t, n);
    assert(t@ =~= decimal(n as nat));
    same(s, t.as_str())
}

/// The bits and bytes per sample that the end of a format's name stands for.
pub fn depth_suffix(s: &[char]) -> (r: Option<(u32, usize)>)
    ensures
        match r {
            Some((depth, bytes)) => suffix_depth(s@) == Some((depth as nat, bytes as nat)),
            None => suffix_depth(s@) is None,
        },
{
    if s.len() == 0 {
        return Some((8, 1));
    }
    if !ends_with(s, "le") {
        return None;
    }
    proof {
        reveal_strlit("le");
    }
    let digits = slice_subrange(s, 0, s.len() - 2);
    assert(digits@ =~= s@.take(s@.len() - 2));
    match parse_number(digits, u32::MAX as u64) {
        Ok(d) => {
            if 9 <= d && d <= 16 && is_decimal(digits, d) {
                Some((d as u32, 2))
            } else {
                None
            }
        },
        Err(_) => None,
    }
}

/// A packed layout and its bytes per sample.
fn packed_layout(n: &[char]) -> (r: Option<(&'static str, usize)>)
    ensures
        match r {
            Some((layout, bytes)) => packed_format(n@) == Some((layout@, bytes as nat)),
            None => packed_format(n@) is None,
        },
{
    if same(n, "rgb24") {
        Some(("rgb", 1))
    } else if same(n, "bgr24") {
        Some(("bgr", 1))
    } else if same(n, "rgba") {
        Some(("rgba", 1))
    } else if same(n, "bgra") {
        Some(("bgra", 1))
    } else if same(n, "argb") {
        Some(("argb", 1))
    } else if same(n, "abgr") {
        Some(("abgr", 1))
    } else if same(n, "rgb0") {
        Some(("rgbx", 1))
    } else if same(n, "bgr0") {
        Some(("bgrx", 1))
    } else if same(n, "0rgb") {
        Some(("xrgb", 1))
    } else if same(n, "0bgr") {
        Some(("xbgr", 1))
    } else if same(n, "ya8") {
        Some(("ya", 1))
    } else if same(n, "rgb48le") {
        Some(("rgb", 2))
    } else if same(n, "bgr48le") {
        Some(("bgr", 2))
    } else if same(n, "rgba64le") {
        Some(("rgba", 2))
    } else if same(n, "bgra64le") {
        Some(("bgra", 2))
    } else if same(n, "ya16le") {
        Some(("ya", 2))
    } else {
        None
    }
}

fn subsampling_of(s: &[char]) -> (r: Option<(u8, u8)>)
    ensures
        match r {
            Some((sx, sy)) => subsampling(s@) == Some((sx as nat, sy as nat)),
            None => subsampling(s@) is None,
        },
{
    if same(s, "444") {
        Some((0, 0))
    } else if same(s, "422") {
        Some((1, 0))
    } else if same(s, "420") {
        Some((1, 1))
    } else if same(s, "440") {
        Some((0, 1))
    } else if same(s, "411") {
        Some((2, 0))
    } else if same(s, "410") {
        Some((2, 1))
    } else {
        None
    }
}

impl FormatView {
    /// What every supported format is: 1-2 byte samples of 8 to 16 bits, in planes of 1 to 4
    /// channels that are subsampled by at most 4 in width and 2 in height, the first not at all.
    pub open spec fn wf(self) -> bool {
        &&& 1 <= self.bytes <= 2
        &&& 8 <= self.depth <= 8 * self.bytes
        &&& self.bytes == 2 ==> self.depth > 8
        &&& 1 <= self.planes.len() <= 4
        &&& self.planes[0].sx == 0 && self.planes[0].sy == 0
        &&& forall|i: int|
            0 <= i < self.planes.len() ==> {
                let p = #[trigger] self.planes[i];
                &&& 1 <= p.channels <= 4
                &&& p.sx <= 2
                &&& p.sy <= 1
                &&& match p.kind {
                    KindView::Packed(layout) => layout.len() == p.channels && (self.depth == 8
                        || self.depth == 16),
                    _ => p.channels == 1,
                }
            }
    }
}

impl PixelFormat {
    /// The format is one that can be rendered.
    pub open spec fn wf(self) -> bool {
        self@.wf()
    }

    /// The format that a name stands for.
    pub fn parse(name: &str) -> (r: Result<PixelFormat, Error>)
        ensures
            match r {
                Ok(f) => named_format(name@) == Some(f@) && f.wf(),
                Err(e) => named_format(name@) is None && e.says(
                    Fault::UnsupportedPixelFormat,
                    ""@,
                    name@,
                ),
            },
    {
        let text = chars_of(name);
        let n = to_lower(trimmed(&text));
        if let Some((layout, bytes)) = packed_layout(&n) {
            let channels = chars_of(layout).len();
            let plane = Plane { kind: PlaneKind::Packed(layout), channels, sx: 0, sy: 0 };
            let mut planes: Vec<Plane> = Vec::new();
            planes.push(plane);
            let f = PixelFormat { name: string_of(&n), bytes, depth: 8 * bytes as u32, planes };
            proof {
                assert(f@.planes =~= format_of(n@)->Some_0.planes);
                lemma_packed_wf(n@);
            }
            return Ok(f);
        }
        if let Some(rest) = strip_prefix(&n, "gray") {
            proof {
                reveal_strlit("gray");
            }
            if let Some((depth, bytes)) = depth_suffix(rest) {
                let mut planes: Vec<Plane> = Vec::new();
                planes.push(single(PlaneKind::Y, 0, 0));
                let f = PixelFormat { name: string_of(&n), bytes, depth, planes };
                assert(f@.planes =~= format_of(n@)->Some_0.planes);
                return Ok(f);
            }
        }
        match Self::parse_yuv(&n) {
            Some(f) => Ok(f),
            None => Err(Error::new(Fault::UnsupportedPixelFormat, "", name)),
        }
    }

    /// The planar YUV format of a lower-case name.
    pub fn parse_yuv(n: &[char]) -> (r: Option<PixelFormat>)
        ensures
            match r {
                Some(f) => yuv_format(n@) == Some(f@) && f.wf(),
                None => yuv_format(n@) is None,
            },
    {
        proof {
            reveal_strlit("yuva");
            reveal_strlit("yuvj");
            reveal_strlit("yuv");
        }
        let (rest, alpha) = match strip_prefix(n, "yuva") {
            Some(rest) => (rest, true),
            None => match strip_prefix(n, "yuvj") {
                Some(rest) => (rest, false),
                None => match strip_prefix(n, "yuv") {
                    Some(rest) => (rest, false),
                    None => {
                        return None;
                    },
                },
            },
        };
        if rest.len() < 4 || rest[3] != 'p' {
            return None;
        }
        let code = slice_subrange(rest, 0, 3);
        assert(code@ =~= rest@.take(3));
        let (sx, sy) = match subsampling_of(code) {
            Some(s) => s,
            None => {
                return None;
            },
        };
        let tail = slice_subrange(rest, 4, rest.len());
        assert(tail@ =~= rest@.skip(4));
        let (depth, bytes) = match depth_suffix(tail) {
            Some(d) => d,
            None => {
                return None;
            },
        };
        let mut planes: Vec<Plane> = Vec::new();
        planes.push(single(PlaneKind::Y, 0, 0));
        planes.push(single(PlaneKind::Cb, sx, sy));
        planes.push(single(PlaneKind::Cr, sx, sy));
        if alpha {
            planes.push(single(PlaneKind::A, 0, 0));
        }
        let f = PixelFormat { name: string_of(n), bytes, depth, planes };
        assert(f@.planes =~= yuv_format(n@)->Some_0.planes);
        Some(f)
    }
}

/// How many samples of a plane cover `n` pixels when one sample stands for `2^s` of them.
pub open spec fn subsampled(n: nat, s: nat) -> nat {
    ((n + pow2(s) - 1) / pow2(s) as int) as nat
}

impl FormatView {
    /// Chroma planes stand beside the luma plane.
    pub open spec fn is_yuv(self) -> bool {
        self.planes.len() > 1 && self.planes[1].kind == KindView::Cb
    }

    /// The luma plane stands alone.
    pub open spec fn is_gray(self) -> bool {
        self.planes.len() == 1 && self.planes[0].kind == KindView::Y
    }

    /// One plane is an alpha plane.
    pub open spec fn has_alpha(self) -> bool {
        exists|i: int| 0 <= i < self.planes.len() && #[trigger] self.planes[i].kind == KindView::A
    }

    /// Bytes per pixel of one plane.
    pub open spec fn bpp(self, p: int) -> nat {
        self.planes[p].channels * self.bytes
    }

    /// Width of one plane of a frame that is `w` wide.
    pub open spec fn plane_w(self, p: int, w: nat) -> nat {
        subsampled(w, self.planes[p].sx)
    }

    /// Height of one plane of a frame that is `h` high.
    pub open spec fn plane_h(self, p: int, h: nat) -> nat {
        subsampled(h, self.planes[p].sy)
    }

    /// Bytes of one plane of a frame.
    pub open spec fn plane_bytes(self, p: int, w: nat, h: nat) -> nat {
        self.plane_w(p, w) * self.plane_h(p, h) * self.bpp(p)
    }

    /// Bytes of the first `p` planes of a frame.
    pub open spec fn offset(self, p: nat, w: nat, h: nat) -> nat
        decreases p,
    {
        if p == 0 {
            0
        } else {
            self.offset((p - 1) as nat, w, h) + self.plane_bytes(p - 1, w, h)
        }
    }

    /// Bytes of a frame.
    pub open spec fn frame_size(self, w: nat, h: nat) -> nat {
        self.offset(self.planes.len(), w, h)
    }
}

impl Region {
    /// The region is that of plane `p` in a frame of that size.
    pub open spec fn is_plane(self, f: FormatView, p: int, w: nat, h: nat) -> bool {
        &&& self.offset == f.offset(p as nat, w, h)
        &&& self.w == f.plane_w(p, w)
        &&& self.h == f.plane_h(p, h)
        &&& self.bytes == f.plane_bytes(p, w, h)
    }
}

/// More planes take no fewer bytes.
pub proof fn lemma_offset_grows(f: FormatView, p: nat, q: nat, w: nat, h: nat)
    requires
        p <= q,
    ensures
        f.offset(p, w, h) <= f.offset(q, w, h),
    decreases q,
{
    if p < q {
        lemma_offset_grows(f, p, (q - 1) as nat, w, h);
    }
}

/// The planes of a frame follow each other without gap or overlap, in order, and fill the frame.
pub proof fn planes_tile_the_frame(f: FormatView, w: nat, h: nat, p: int)
    requires
        0 <= p < f.planes.len(),
    ensures
        f.offset(0, w, h) == 0,
        f.offset((p + 1) as nat, w, h) == f.offset(p as nat, w, h) + f.plane_bytes(p, w, h),
        f.offset((p + 1) as nat, w, h) <= f.frame_size(w, h),
        p + 1 == f.planes.len() ==> f.offset((p + 1) as nat, w, h) == f.frame_size(w, h),
{
    lemma_offset_grows(f, (p + 1) as nat, f.planes.len(), w, h);
}

/// Rounds a size up to whole samples.
pub fn subsample(n: usize, s: u8) -> (r: usize)
    requires
        s <= 31,
    ensures
        r == subsampled(n as nat, s as nat),
        r <= n,
        n > 0 ==> r > 0,
{
    proof {
        lemma2_to64();
        if s < 31 {
            lemma_pow2_strictly_increases(s as nat, 31);
        }
    }
    let step = power(s as u32) as u64;
    let whole: u64 = n as u64 / step;
    let rest: u64 = n as u64 % step;
    proof {
        lemma_fundamental_div_mod(n as int, step as int);
        assert(whole <= n) by (nonlinear_arith)
            requires
                n == step * whole + rest,
                step >= 1,
        ;
        if rest == 0 {
            assert(n + step - 1 == whole * step + (step - 1)) by (nonlinear_arith)
                requires
                    n == step * whole,
            ;
            lemma_fundamental_div_mod_converse(
                n + step - 1,
                step as int,
                whole as int,
                step - 1,
            );
            if whole == 0 {
                assert(step * whole == 0);
            }
        } else {
            assert(n + step - 1 == (whole + 1) * step + (rest - 1)) by (nonlinear_arith)
                requires
                    n == step * whole + rest,
            ;
            lemma_fundamental_div_mod_converse(
                n + step - 1,
                step as int,
                whole + 1,
                rest - 1,
            );
            assert(whole < n) by (nonlinear_arith)
                requires
                    n == step * whole + rest,
                    step >= 1,
                    rest >= 1,
            ;
        }
    }
    if rest == 0 {
        whole as usize
    } else {
        (whole + 1) as usize
    }
}

impl PlaneKind {
    fn is_cb(&self) -> (r: bool)
        ensures
            r == (self@ == KindView::Cb),
    {
        match self {
            PlaneKind::Cb => true,
            _ => false,
        }
    }

    fn is_y(&self) -> (r: bool)
        ensures
            r == (self@ == KindView::Y),
    {
        match self {
            PlaneKind::Y => true,
            _ => false,
        }
    }

    fn is_a(&self) -> (r: bool)
        ensures
            r == (self@ == KindView::A),
    {
        match self {
            PlaneKind::A => true,
            _ => false,
        }
    }

    fn same_kind(&self, other: &PlaneKind) -> (r: bool)
        ensures
            r == (self@ == other@),
    {
        match (self, other) {
            (PlaneKind::Packed(a), PlaneKind::Packed(b)) => same(&chars_of(a), b),
            (PlaneKind::Y, PlaneKind::Y) => true,
            (PlaneKind::Cb, PlaneKind::Cb) => true,
            (PlaneKind::Cr, PlaneKind::Cr) => true,
            (PlaneKind::A, PlaneKind::A) => true,
            _ => false,
        }
    }
}

impl PixelFormat {
    /// Chroma planes stand beside the luma plane.
    pub fn is_yuv(&self) -> (r: bool)
        ensures
            r == self@.is_yuv(),
    {
        self.planes.len() > 1 && self.planes[1].kind.is_cb()
    }

    /// The luma plane stands alone.
    pub fn is_gray(&self) -> (r: bool)
        ensures
            r == self@.is_gray(),
    {
        self.planes.len() == 1 && self.planes[0].kind.is_y()
    }

    /// One plane is an alpha plane.
    pub fn has_alpha(&self) -> (r: bool)
        ensures
            r == self@.has_alpha(),
    {
        for i in 0..self.planes.len()
            invariant
                forall|j: int| 0 <= j < i ==> #[trigger] self@.planes[j].kind != KindView::A,
        {
            if self.planes[i].kind.is_a() {
                assert(self@.planes[i as int].kind == KindView::A);
                return true;
            }
        }
        false
    }

    /// The frames of both formats are laid out alike.
    pub fn same_layout(&self, other: &PixelFormat) -> (r: bool)
        ensures
            r == (self@.bytes == other@.bytes && self@.planes == other@.planes),
    {
        assert(self@.planes.len() == self.planes@.len());
        assert(other@.planes.len() == other.planes@.len());
        if self.bytes != other.bytes || self.planes.len() != other.planes.len() {
            return false;
        }
        for i in 0..self.planes.len()
            invariant
                self.planes@.len() == other.planes@.len(),
                forall|j: int| 0 <= j < i ==> #[trigger] self@.planes[j] == other@.planes[j],
        {
            let a = &self.planes[i];
            let b = &other.planes[i];
            if !a.kind.same_kind(&b.kind) || a.channels != b.channels || a.sx != b.sx || a.sy
                != b.sy {
                assert(self@.planes[i as int] != other@.planes[i as int]);
                return false;
            }
            assert(self@.planes[i as int] == other@.planes[i as int]);
        }
        assert(self@.planes =~= other@.planes);
        true
    }

    /// Bytes per pixel of one plane.
    pub fn bpp(&self, plane: usize) -> (r: usize)
        requires
            self.wf(),
            plane < self.planes@.len(),
        ensures
            r == self@.bpp(plane as int),
            1 <= r <= 8,
    {
        assert(self@.planes[plane as int] == self.planes@[plane as int]@);
        let c = self.planes[plane].channels;
        let b = self.bytes;
        assert(1 <= c * b <= 8) by (nonlinear_arith)
            requires
                1 <= c <= 4,
                1 <= b <= 2,
        ;
        c * b
    }

    /// Width and height of one plane of a frame.
    pub fn plane_dims(&self, plane: usize, w: usize, h: usize) -> (r: (usize, usize))
        requires
            self.wf(),
            plane < self.planes@.len(),
        ensures
            r.0 == self@.plane_w(plane as int, w as nat),
            r.1 == self@.plane_h(plane as int, h as nat),
            w > 0 ==> r.0 > 0,
            h > 0 ==> r.1 > 0,
    {
        assert(self@.planes[plane as int] == self.planes@[plane as int]@);
        let p = &self.planes[plane];
        (subsample(w, p.sx), subsample(h, p.sy))
    }

    /// Where the planes of a frame lie.
    pub fn layout(&self, w: usize, h: usize) -> (r: Vec<Region>)
        requires
            self.wf(),
            self@.frame_size(w as nat, h as nat) <= usize::MAX,
        ensures
            r@.len() == self.planes@.len(),
            forall|p: int|
                0 <= p < r@.len() ==> (#[trigger] r@[p]).is_plane(self@, p, w as nat, h as nat),
    {
        let mut r: Vec<Region> = Vec::new();
        let mut offset: usize = 0;
        for p in 0..self.planes.len()
            invariant
                self.wf(),
                self@.frame_size(w as nat, h as nat) <= usize::MAX,
                r@.len() == p,
                offset == self@.offset(p as nat, w as nat, h as nat),
                forall|q: int|
                    0 <= q < p ==> (#[trigger] r@[q]).is_plane(self@, q, w as nat, h as nat),
        {
            let (pw, ph) = self.plane_dims(p, w, h);
            let bpp = self.bpp(p);
            proof {
                planes_tile_the_frame(self@, w as nat, h as nat, p as int);
                let area = pw * ph;
                assert(area <= area * bpp) by (nonlinear_arith)
                    requires
                        bpp >= 1,
                        area >= 0,
                ;
                assert(pw * ph >= 0) by (nonlinear_arith)
                    requires
                        pw >= 0,
                        ph >= 0,
                ;
            }
            let bytes: usize = pw * ph * bpp;
            r.push(Region { offset, w: pw, h: ph, bytes });
            offset = offset + bytes;
        }
        r
    }

    /// Bytes of one frame.
    pub fn frame_bytes(&self, w: usize, h: usize) -> (r: usize)
        requires
            self.wf(),
            self@.frame_size(w as nat, h as nat) <= usize::MAX,
        ensures
            r == self@.frame_size(w as nat, h as nat),
    {
        let l = self.layout(w, h);
        let mut sum: usize = 0;
        for p in 0..l.len()
            invariant
                l@.len() == self@.planes.len(),
                self@.frame_size(w as nat, h as nat) <= usize::MAX,
                forall|q: int|
                    0 <= q < l@.len() ==> (#[trigger] l@[q]).is_plane(
                        self@,
                        q,
                        w as nat,
                        h as nat,
                    ),
                sum == self@.offset(p as nat, w as nat, h as nat),
        {
            proof {
                planes_tile_the_frame(self@, w as nat, h as nat, p as int);
            }
            sum = sum + l[p].bytes;
        }
        sum
    }

    /// Bytes of one frame, unless they are too many to count.
    pub fn checked_frame_bytes(&self, w: usize, h: usize) -> (r: Option<usize>)
        requires
            self.wf(),
        ensures
            match r {
                Some(n) => n == self@.frame_size(w as nat, h as nat),
                None => self@.frame_size(w as nat, h as nat) > usize::MAX,
            },
    {
        let mut sum: usize = 0;
        for p in 0..self.planes.len()
            invariant
                self.wf(),
                sum == self@.offset(p as nat, w as nat, h as nat),
        {
            let (pw, ph) = self.plane_dims(p, w, h);
            let bpp = self.bpp(p);
            proof {
                lemma_offset_grows(self@, (p + 1) as nat, self@.planes.len(), w as nat, h as nat);
                let area = pw * ph;
                assert(area <= area * bpp) by (nonlinear_arith)
                    requires
                        bpp >= 1,
                        area >= 0,
                ;
                assert(pw * ph >= 0) by (nonlinear_arith)
                    requires
                        pw >= 0,
                        ph >= 0,
                ;
            }
            let area = match pw.checked_mul(ph) {
                Some(a) => a,
                None => {
                    return None;
                },
            };
            let bytes = match area.checked_mul(bpp) {
                Some(b) => b,
                None => {
                    return None;
                },
            };
            sum = match sum.checked_add(bytes) {
                Some(n) => n,
                None => {
                    return None;
                },
            };
        }
        Some(sum)
    }

    /// Encoder pixel format used when none is asked for.
    pub fn encoder_default(&self) -> (r: String)
        ensures
            r@ == if self@.is_yuv() && !self@.has_alpha() {
                self@.name
            } else {
                "yuv420p"@
            },
    {
        if self.is_yuv() && !self.has_alpha() {
            self.name.clone()
        } else {
            "yuv420p".to_owned()
        }
    }
}

/// One sample as bytes, the lower byte first.
pub open spec fn sample_bytes(v: nat, bytes: nat) -> Seq<u8> {
    if bytes == 1 {
        seq![v as u8]
    } else {
        seq![(v % 256) as u8, (v / 256) as u8]
    }
}

/// A colour in the channels of a packed plane.
pub open spec fn packed_voxel(c: Colour, layout: Seq<char>, depth: nat, bytes: nat) -> Seq<u8>
    decreases layout.len(),
{
    if layout.len() == 0 {
        Seq::empty()
    } else {
        packed_voxel(c, layout.drop_last(), depth, bytes) + sample_bytes(
            channel(c, layout.last()) * (top(depth) / 255),
            bytes,
        )
    }
}

impl FormatView {
    /// A colour as one voxel of a plane.
    pub open spec fn voxel(self, p: PlaneView, c: Colour, full_range: bool) -> Seq<u8> {
        match p.kind {
            KindView::Packed(layout) => packed_voxel(c, layout, self.depth, self.bytes),
            KindView::Y => sample_bytes(luma_level(c, self.depth, full_range), self.bytes),
            KindView::Cb => sample_bytes(
                difference_level(blue_difference(c), self.depth, full_range),
                self.bytes,
            ),
            KindView::Cr => sample_bytes(
                difference_level(red_difference(c), self.depth, full_range),
                self.bytes,
            ),
            KindView::A => sample_bytes(alpha_level(c, self.depth), self.bytes),
        }
    }
}

/// Voxels as values.
pub open spec fn voxels(v: Seq<Vec<u8>>) -> Seq<Seq<u8>> {
    v.map_values(|x: Vec<u8>| x@)
}

fn put_sample(out: &mut Vec<u8>, v: u32, bytes: usize)
    requires
        1 <= bytes <= 2,
        v <= 65535,
        bytes == 1 ==> v <= 255,
    ensures
        final(out)@ == old(out)@ + sample_bytes(v as nat, bytes as nat),
        final(out)@.len() == old(out)@.len() + bytes,
{
    let ghost before = out@;
    if bytes == 1 {
        out.push(v as u8);
    } else {
        out.push((v % 256) as u8);
        out.push((v / 256) as u8);
    }
    assert(out@ =~= before + sample_bytes(v as nat, bytes as nat));
}

impl PixelFormat {
    fn packed(&self, c: Colour, layout: &str) -> (r: Vec<u8>)
        requires
            self.wf(),
            c.wf(),
            self.depth == 8 || self.depth == 16,
            layout@.len() <= 4,
        ensures
            r@ == packed_voxel(c, layout@, self@.depth, self@.bytes),
            r@.len() == layout@.len() * self.bytes,
    {
        proof {
            lemma2_to64();
        }
        let scale: u32 = if self.depth == 8 {
            1
        } else {
            257
        };
        let letters = chars_of(layout);
        let mut out: Vec<u8> = Vec::new();
        for i in 0..letters.len()
            invariant
                self.wf(),
                c.wf(),
                letters@.len() <= 4,
                self.bytes == 1 <==> self.depth == 8,
                scale == top(self@.depth) / 255,
                scale == 1 || (scale == 257 && self.bytes == 2),
                out@ == packed_voxel(c, letters@.take(i as int), self@.depth, self@.bytes),
                out@.len() == i * self.bytes,
        {
            let v8 = c.component(letters[i]);
            proof {
                assert(letters@.take(i + 1).drop_last() =~= letters@.take(i as int));
                let b = self.bytes;
                assert(i * b + b == (i + 1) * b) by (nonlinear_arith);
            }
            put_sample(&mut out, v8 * scale, self.bytes);
        }
        assert(letters@.take(letters@.len() as int) =~= letters@);
        out
    }

    /// Per-plane fill voxel from `#RRGGBB[AA]`, `R,G,B[,A]` or a single gray value (8-bit scale).
    pub fn fill(&self, spec_text: &str, full_range: bool) -> (r: Result<Vec<Vec<u8>>, Error>)
        requires
            self.wf(),
        ensures
            match r {
                Ok(v) => {
                    &&& parsed_colour(spec_text@) matches Ok(c) && voxels(v@)
                        == self@.planes.map_values(
                        |p: PlaneView| self@.voxel(p, c, full_range),
                    )
                    &&& forall|p: int|
                        0 <= p < v@.len() ==> (#[trigger] v@[p])@.len() == self@.bpp(p)
                },
                Err(e) => parsed_colour(spec_text@) == Err::<Colour, Fault>(e.fault) && e.says(
                    e.fault,
                    "ROT_FILL"@,
                    spec_text@,
                ),
            },
    {
        let c = match Colour::parse(spec_text) {
            Ok(c) => c,
            Err(e) => {
                return Err(e);
            },
        };
        let s: Samples = c.samples(self.depth, full_range);
        proof {
            lemma2_to64();
            lemma_top(self@.depth);
        }
        let mut r: Vec<Vec<u8>> = Vec::new();
        let ghost want = self@.planes.map_values(|p: PlaneView| self@.voxel(p, c, full_range));
        for i in 0..self.planes.len()
            invariant
                self.wf(),
                c.wf(),
                s.of(c, self@.depth, full_range),
                s.y <= top(self@.depth),
                s.cb <= top(self@.depth),
                s.cr <= top(self@.depth),
                s.a <= top(self@.depth),
                top(self@.depth) <= 65535,
                self.bytes == 1 ==> top(self@.depth) <= 255,
                want == self@.planes.map_values(|p: PlaneView| self@.voxel(p, c, full_range)),
                r@.len() == i,
                forall|j: int| 0 <= j < i ==> (#[trigger] r@[j])@ == want[j],
                forall|j: int| 0 <= j < i ==> (#[trigger] r@[j])@.len() == self@.bpp(j),
        {
            assert(self@.planes[i as int] == self.planes@[i as int]@);
            let mut out: Vec<u8> = Vec::new();
            match self.planes[i].kind {
                PlaneKind::Packed(layout) => {
                    out = self.packed(c, layout);
                },
                PlaneKind::Y => {
                    put_sample(&mut out, s.y, self.bytes);
                },
                PlaneKind::Cb => {
                    put_sample(&mut out, s.cb, self.bytes);
                },
                PlaneKind::Cr => {
                    put_sample(&mut out, s.cr, self.bytes);
                },
                PlaneKind::A => {
                    put_sample(&mut out, s.a, self.bytes);
                },
            }
            assert(out@ =~= want[i as int]);
            r.push(out);
        }
        assert(voxels(r@) =~= want);
        Ok(r)
    }
}

proof fn lemma_top(depth: nat)
    requires
        8 <= depth <= 16,
    ensures
        top(depth) <= 65535,
        depth == 8 ==> top(depth) == 255,
{
    lemma2_to64();
    if depth < 16 {
        lemma_pow2_strictly_increases(depth, 16);
    }
}

/// Packed formats are well formed.
proof fn lemma_packed_wf(n: Seq<char>)
    requires
        packed_format(n) is Some,
    ensures
        format_of(n)->Some_0.wf(),
{
    reveal_strlit("rgb");
    reveal_strlit("bgr");
    reveal_strlit("rgba");
    reveal_strlit("bgra");
    reveal_strlit("argb");
    reveal_strlit("abgr");
    reveal_strlit("rgbx");
    reveal_strlit("bgrx");
    reveal_strlit("xrgb");
    reveal_strlit("xbgr");
    reveal_strlit("ya");
}

/// Every format without subsampling takes one sample for every channel of every pixel: 3 bytes per
/// pixel for 4:4:4 and RGB of 8 bits, twice as many for more bits.
pub proof fn full_planes_take_every_sample(f: FormatView, w: nat, h: nat, n: nat)
    requires
        n <= f.planes.len(),
        forall|p: int| 0 <= p < n ==> (#[trigger] f.planes[p]).sx == 0 && f.planes[p].sy == 0,
    ensures
        f.offset(n, w, h) == w * h * channels_upto(f, n) * f.bytes,
    decreases n,
{
    let a = w * h;
    let b = f.bytes;
    if n == 0 {
        assert(a * 0 == 0);
        assert(0 * b == 0);
    } else {
        let m = (n - 1) as nat;
        full_planes_take_every_sample(f, w, h, m);
        lemma2_to64();
        let c = f.planes[m as int].channels;
        let k = channels_upto(f, m);
        assert(f.planes[m as int].sx == 0);
        assert(a * (k + c) * b == a * k * b + a * (c * b)) by (nonlinear_arith);
    }
}

/// The channels of the first `n` planes.
pub open spec fn channels_upto(f: FormatView, n: nat) -> nat
    decreases n,
{
    if n == 0 {
        0
    } else {
        channels_upto(f, (n - 1) as nat) + f.planes[n - 1].channels
    }
}

/// 4:2:0 takes one and a half samples per pixel, for frames of even width and height.
pub proof fn halved_chroma_takes_half_a_sample(f: FormatView, w: nat, h: nat)
    requires
        f.planes.len() == 3,
        forall|p: int| 0 <= p < 3 ==> (#[trigger] f.planes[p]).channels == 1,
        f.planes[0].sx == 0 && f.planes[0].sy == 0,
        f.planes[1].sx == 1 && f.planes[1].sy == 1,
        f.planes[2].sx == 1 && f.planes[2].sy == 1,
        w % 2 == 0,
        h % 2 == 0,
    ensures
        2 * f.frame_size(w, h) == 3 * (w * h) * f.bytes,
{
    lemma2_to64();
    let (x, y, b) = (w / 2, h / 2, f.bytes);
    assert(f.planes[0].channels == 1 && f.planes[1].channels == 1 && f.planes[2].channels == 1);
    assert((w + 2 - 1) / 2 == x);
    assert((h + 2 - 1) / 2 == y);
    reveal_with_fuel(FormatView::offset, 4);
    assert(f.plane_bytes(0, w, h) == w * h * (1 * b));
    assert(f.plane_bytes(1, w, h) == x * y * (1 * b));
    assert(f.plane_bytes(2, w, h) == x * y * (1 * b));
    assert(w * h == 4 * (x * y)) by (nonlinear_arith)
        requires
            w == 2 * x,
            h == 2 * y,
    ;
    let q = x * y;
    assert(2 * ((4 * q) * (1 * b) + q * (1 * b) + q * (1 * b)) == 3 * (4 * q) * b)
        by (nonlinear_arith);
}

/// Two formats with the same planes differ in size as their samples do.
proof fn lemma_wider_samples(f: FormatView, g: FormatView, w: nat, h: nat, n: nat)
    requires
        n <= f.planes.len(),
        f.planes == g.planes,
        f.bytes == 1,
        g.bytes == 2,
    ensures
        g.offset(n, w, h) == 2 * f.offset(n, w, h),
    decreases n,
{
    if n > 0 {
        let m = (n - 1) as nat;
        lemma_wider_samples(f, g, w, h, m);
        let p = f.planes[m as int];
        let a = subsampled(w, p.sx) * subsampled(h, p.sy);
        let c = p.channels;
        assert(a * (c * 2) == 2 * (a * (c * 1))) by (nonlinear_arith);
    }
}

/// A name that begins like a gray or a planar YUV format is none of the packed ones.
proof fn lemma_not_packed(n: Seq<char>)
    requires
        n.len() >= 3,
        (n[0] == 'g' && n[1] == 'r') || (n[0] == 'y' && n[1] == 'u'),
    ensures
        packed_format(n) is None,
{
    reveal_strlit("rgb24");
    reveal_strlit("bgr24");
    reveal_strlit("rgba");
    reveal_strlit("bgra");
    reveal_strlit("argb");
    reveal_strlit("abgr");
    reveal_strlit("rgb0");
    reveal_strlit("bgr0");
    reveal_strlit("0rgb");
    reveal_strlit("0bgr");
    reveal_strlit("ya8");
    reveal_strlit("rgb48le");
    reveal_strlit("bgr48le");
    reveal_strlit("rgba64le");
    reveal_strlit("bgra64le");
    reveal_strlit("ya16le");
}

/// A depth from 9 to 16, written behind a name, is read back.
proof fn lemma_suffix(d: nat)
    requires
        9 <= d <= 16,
    ensures
        suffix_depth(decimal(d) + "le"@) == Some((d, 2nat)),
        ({
            let t = decimal(d) + "le"@;
            &&& t.len() > 0
            &&& forall|i: int| 0 <= i < t.len() ==> !white(#[trigger] t[i]) && lower_char(t[i]) == t[i]
        }),
{
    reveal_strlit("le");
    lemma_decimal_digits(d);
    decimal_reads_back(d, u32::MAX as nat);
    let t = decimal(d) + "le"@;
    assert(t.take(t.len() - 2) =~= decimal(d));
    assert(t.skip(t.len() - 2) =~= "le"@);
    assert forall|i: int| 0 <= i < t.len() implies !white(#[trigger] t[i]) && lower_char(t[i])
        == t[i] by {
        if i < decimal(d).len() {
            assert(digit(decimal(d)[i]));
        }
    }
}

/// A planar YUV or gray format of 9 to 16 bits takes twice the bytes of the format of 8 bits whose
/// name its name begins with.
pub proof fn deeper_formats_take_twice_the_bytes(n: Seq<char>, d: nat, w: nat, h: nat)
    requires
        lower(trim(n)) == n,
        packed_format(n) is None,
        named_format(n) matches Some(f) && f.bytes == 1,
        9 <= d <= 16,
    ensures
        named_format(n + decimal(d) + "le"@) matches Some(g) && {
            &&& g.depth == d
            &&& g.frame_size(w, h) == 2 * named_format(n)->Some_0.frame_size(w, h)
        },
{
    let t = decimal(d) + "le"@;
    let m = n + t;
    assert(m =~= n + decimal(d) + "le"@);
    lemma_suffix(d);
    reveal_strlit("gray");
    reveal_strlit("yuva");
    reveal_strlit("yuvj");
    reveal_strlit("yuv");
    let f = format_of(lower(trim(n)))->Some_0;
    lemma_trim_ends(n);
    assert(!white(t[t.len() - 1]));
    assert(trim(n).len() == n.len());
    assert(trim(n) =~= n);
    assert(n.len() >= 4);
    assert(!white(m[0]) && !white(m[m.len() - 1]));
    lemma_trimmed_already(m);
    assert(lower(m) =~= m) by {
        assert forall|i: int| 0 <= i < m.len() implies lower_char(#[trigger] m[i]) == m[i] by {
            if i < n.len() {
                assert(lower(trim(n))[i] == lower_char(n[i]));
            } else {
                assert(m[i] == t[i - n.len()]);
            }
        }
    }
    if starts(n, "gray"@) && suffix_depth(n.skip(4)) is Some {
        assert(n.take(4) =~= "gray"@);
        assert(n[0] == n.take(4)[0] && n[1] == n.take(4)[1]);
        assert(n.skip(4).len() == 0);
        assert(m.take(4) =~= n.take(4));
        assert(m.skip(4) =~= t);
        lemma_not_packed(m);
    } else {
        let k: int = if starts(n, "yuva"@) || starts(n, "yuvj"@) {
            4
        } else {
            3
        };
        assert(n.take(3) =~= "yuv"@) by {
            if k == 4 {
                let p = n.take(4);
                assert(p == "yuva"@ || p == "yuvj"@);
                assert(n[0] == p[0] && n[1] == p[1] && n[2] == p[2]);
            } else {
                assert(starts(n, "yuv"@));
            }
        }
        assert(n[0] == n.take(3)[0] && n[1] == n.take(3)[1]);
        assert(n.skip(k).skip(4).len() == 0);
        assert(m.take(4) =~= n.take(4));
        assert(m.take(3) =~= n.take(3));
        assert(m.skip(k).take(3) =~= n.skip(k).take(3));
        assert(m.skip(k).skip(4) =~= t);
        assert(m.skip(k)[3] == n.skip(k)[3]);
        assert(!starts(m, "gray"@)) by {
            assert(m.take(4)[0] == m[0]);
        }
        lemma_not_packed(m);
    }
    let g = format_of(m)->Some_0;
    assert(g.planes =~= f.planes);
    lemma_wider_samples(f, g, w, h, f.planes.len());
}

} // verus!
