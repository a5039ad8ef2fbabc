//! What the names of pixel formats say: the subsampling of the chroma planes, the bits of a sample,
//! the order of packed channels; and which codec the intermediate of a format gets.

use vstd::prelude::*;
use vstd::arithmetic::power2::{lemma2_to64, pow2};
use crate::colour::{channel, top, Colour};
use crate::ffmpeg::temp_codec;
use crate::number::{decimal, decimal_reads_back, digit, lemma_decimal_digits};
use crate::pixfmt::{
    format_of, packed_format, packed_voxel, subsampling, suffix_depth, FormatView, KindView,
};
use crate::text::starts;

verus! {

/// The value of a digit.
pub open spec fn digit_value(c: char) -> int {
    c as int - '0' as int
}

/// The chroma of a planar format is subsampled as three digits say: of every four luma samples of a
/// row there are `a` chroma samples, and the next row has `b` of its own, either as many or none.
pub open spec fn subsampled_as(a: int, b: int, sx: nat, sy: nat) -> bool {
    &&& a * pow2(sx) == 4
    &&& b == a || b == 0
    &&& sy == if b == 0 {
        1nat
    } else {
        0nat
    }
}

/// The bits of a sample that stand at the end of a name: none for 8, else a number from 9 to 16 and
/// `le`.
pub open spec fn tail_of(depth: nat) -> Seq<char> {
    if depth == 8 {
        Seq::empty()
    } else {
        decimal(depth) + seq!['l', 'e']
    }
}

proof fn lemma_tail(depth: nat)
    requires
        8 <= depth <= 16,
    ensures
        suffix_depth(tail_of(depth)) == Some(
            (
                depth,
                if depth == 8 {
                    1nat
                } else {
                    2nat
                },
            ),
        ),
{
    if depth > 8 {
        reveal_strlit("le");
        let s = tail_of(depth);
        let d = decimal(depth);
        lemma_decimal_digits(depth);
        decimal_reads_back(depth, u32::MAX as nat);
        assert(s.take(s.len() - 2) =~= d);
        assert("le"@ =~= seq!['l', 'e']);
        assert(s.skip(s.len() - 2) =~= "le"@);
    }
}

proof fn lemma_codes()
    ensures
        "444"@ == seq!['4', '4', '4'],
        "422"@ == seq!['4', '2', '2'],
        "420"@ == seq!['4', '2', '0'],
        "440"@ == seq!['4', '4', '0'],
        "411"@ == seq!['4', '1', '1'],
        "410"@ == seq!['4', '1', '0'],
{
    reveal_strlit("444");
    reveal_strlit("422");
    reveal_strlit("420");
    reveal_strlit("440");
    reveal_strlit("411");
    reveal_strlit("410");
    assert("444"@ =~= seq!['4', '4', '4']);
    assert("422"@ =~= seq!['4', '2', '2']);
    assert("420"@ =~= seq!['4', '2', '0']);
    assert("440"@ =~= seq!['4', '4', '0']);
    assert("411"@ =~= seq!['4', '1', '1']);
    assert("410"@ =~= seq!['4', '1', '0']);
}

/// The digits of a subsampling that is supported.
proof fn lemma_subsampling(a: char, b: char)
    requires
        a == '4' || a == '2' || a == '1',
        b == a || b == '0',
    ensures
        subsampling(seq!['4', a, b]) matches Some((sx, sy)) && subsampled_as(
            digit_value(a),
            digit_value(b),
            sx,
            sy,
        ),
{
    let s = seq!['4', a, b];
    lemma_codes();
    lemma2_to64();
    assert(s[1] == a && s[2] == b);
    assert("444"@[1] == '4' && "422"@[1] == '2' && "420"@[1] == '2' && "440"@[1] == '4' && "411"@[1]
        == '1' && "410"@[1] == '1');
    assert("444"@[2] == '4' && "422"@[2] == '2' && "420"@[2] == '0' && "440"@[2] == '0' && "411"@[2]
        == '1' && "410"@[2] == '0');
    if a == '4' {
        if b == '4' {
            assert(s =~= "444"@);
        } else {
            assert(s =~= "440"@);
        }
    } else if a == '2' {
        if b == '2' {
            assert(s =~= "422"@);
        } else {
            assert(s =~= "420"@);
        }
    } else {
        if b == '1' {
            assert(s =~= "411"@);
        } else {
            assert(s =~= "410"@);
        }
    }
}

/// Planar YUV formats are what their names say: a luma plane of every pixel, two chroma planes that
/// are subsampled as the three digits say, blue before red, and an alpha plane of every pixel where
/// the name has an `a`; samples of the bits that the end of the name says, in one byte for 8 bits and
/// in two for more.
pub proof fn planar_names_say_the_planes(alpha: bool, a: char, b: char, depth: nat)
    requires
        a == '4' || a == '2' || a == '1',
        b == a || b == '0',
        8 <= depth <= 16,
    ensures
        ({
            let head = if alpha {
                seq!['y', 'u', 'v', 'a']
            } else {
                seq!['y', 'u', 'v']
            };
            let name = head + seq!['4', a, b, 'p'] + tail_of(depth);
            &&& format_of(name) matches Some(f) && {
                &&& f.name == name
                &&& f.depth == depth
                &&& f.bytes == if depth == 8 {
                    1nat
                } else {
                    2nat
                }
                &&& f.planes.len() == if alpha {
                    4nat
                } else {
                    3nat
                }
                &&& f.planes[0].kind is Y && f.planes[0].sx == 0 && f.planes[0].sy == 0
                &&& f.planes[1].kind is Cb && f.planes[2].kind is Cr
                &&& subsampled_as(
                    digit_value(a),
                    digit_value(b),
                    f.planes[1].sx,
                    f.planes[1].sy,
                )
                &&& f.planes[2].sx == f.planes[1].sx && f.planes[2].sy == f.planes[1].sy
                &&& alpha ==> f.planes[3].kind is A && f.planes[3].sx == 0 && f.planes[3].sy == 0
                &&& forall|p: int| 0 <= p < f.planes.len() ==> #[trigger] f.planes[p].channels == 1
            }
        }),
{
    let head = if alpha {
        seq!['y', 'u', 'v', 'a']
    } else {
        seq!['y', 'u', 'v']
    };
    let tail = tail_of(depth);
    let name = head + seq!['4', a, b, 'p'] + tail;
    lemma_tail(depth);
    lemma_subsampling(a, b);
    reveal_strlit("yuva");
    reveal_strlit("yuvj");
    reveal_strlit("yuv");
    assert("yuva"@ =~= seq!['y', 'u', 'v', 'a']);
    assert("yuvj"@ =~= seq!['y', 'u', 'v', 'j']);
    assert("yuv"@ =~= seq!['y', 'u', 'v']);
    assert(name[3] == if alpha {
        'a'
    } else {
        '4'
    });
    assert("yuva"@[3] == 'a' && "yuvj"@[3] == 'j');
    let n = head.len() as int;
    assert(name.take(n) =~= head);
    let rest = name.skip(n);
    if !alpha {
        assert(name.take(4)[3] == '4');
    }
    assert(rest.take(3) =~= seq!['4', a, b]);
    assert(rest.skip(4) =~= tail);
    assert(name[0] == 'y' && name[1] == 'u');
    lemma_not_packed(name);
    reveal_strlit("gray");
    assert("gray"@[0] == 'g');
    assert(!starts(name, "gray"@)) by {
        if starts(name, "gray"@) {
            assert(name.take(4)[0] == 'g');
        }
    }
}

proof fn lemma_not_packed(n: Seq<char>)
    requires
        n.len() > 1,
        n[1] == 'u' || n[2] == 'a',
        n[0] == 'y' || n[0] == 'g',
        n[0] == 'y' ==> n[1] == 'u',
    ensures
        packed_format(n) is None,
{
    lemma_packed_names();
    lemma_long_names();
}

/// Gray formats have one plane of every pixel, of the bits that the end of the name says.
pub proof fn gray_names_say_the_plane(depth: nat)
    requires
        8 <= depth <= 16,
    ensures
        format_of(seq!['g', 'r', 'a', 'y'] + tail_of(depth)) matches Some(f) && {
            &&& f.depth == depth
            &&& f.bytes == if depth == 8 {
                1nat
            } else {
                2nat
            }
            &&& f.planes.len() == 1
            &&& f.planes[0].kind is Y && f.planes[0].channels == 1
            &&& f.planes[0].sx == 0 && f.planes[0].sy == 0
        },
{
    let head = seq!['g', 'r', 'a', 'y'];
    let name = head + tail_of(depth);
    lemma_tail(depth);
    assert(name[0] == 'g' && name[2] == 'a');
    lemma_not_packed(name);
    reveal_strlit("gray");
    assert("gray"@ =~= head);
    assert(name.take(4) =~= head);
    assert(name.skip(4) =~= tail_of(depth));
}

/// Packed formats of four letters hold their channels in the order of the letters, a zero standing for
/// a channel that is not used.
pub proof fn packed_names_say_the_order(n: Seq<char>, i: int)
    requires
        n == "rgba"@ || n == "bgra"@ || n == "argb"@ || n == "abgr"@ || n == "rgb0"@ || n == "bgr0"@
            || n == "0rgb"@ || n == "0bgr"@,
        0 <= i < 4,
    ensures
        packed_format(n) matches Some((layout, bytes)) && layout.len() == 4 && bytes == 1 && layout[i]
            == if n[i] == '0' {
            'x'
        } else {
            n[i]
        },
{
    lemma_packed_names();
    lemma_packed_layouts();
    assert(i == 0 || i == 1 || i == 2 || i == 3);
}

proof fn lemma_packed_names()
    ensures
        "rgb24"@.len() == 5 && "bgr24"@.len() == 5,
        "rgba"@ == seq!['r', 'g', 'b', 'a'],
        "bgra"@ == seq!['b', 'g', 'r', 'a'],
        "argb"@ == seq!['a', 'r', 'g', 'b'],
        "abgr"@ == seq!['a', 'b', 'g', 'r'],
        "rgb0"@ == seq!['r', 'g', 'b', '0'],
        "bgr0"@ == seq!['b', 'g', 'r', '0'],
        "0rgb"@ == seq!['0', 'r', 'g', 'b'],
        "0bgr"@ == seq!['0', 'b', 'g', 'r'],
{
    reveal_strlit("rgb24");
    reveal_strlit("bgr24");
    reveal_strlit("rgba");
    reveal_strlit("bgra");
    reveal_strlit("argb");
    reveal_strlit("abgr");
    reveal_strlit("rgb0");
    reveal_strlit("bgr0");
    reveal_strlit("0rgb");
    reveal_strlit("0bgr");
    assert("rgba"@ =~= seq!['r', 'g', 'b', 'a']);
    assert("bgra"@ =~= seq!['b', 'g', 'r', 'a']);
    assert("argb"@ =~= seq!['a', 'r', 'g', 'b']);
    assert("abgr"@ =~= seq!['a', 'b', 'g', 'r']);
    assert("rgb0"@ =~= seq!['r', 'g', 'b', '0']);
    assert("bgr0"@ =~= seq!['b', 'g', 'r', '0']);
    assert("0rgb"@ =~= seq!['0', 'r', 'g', 'b']);
    assert("0bgr"@ =~= seq!['0', 'b', 'g', 'r']);
}

proof fn lemma_packed_layouts()
    ensures
        "rgbx"@ == seq!['r', 'g', 'b', 'x'],
        "bgrx"@ == seq!['b', 'g', 'r', 'x'],
        "xrgb"@ == seq!['x', 'r', 'g', 'b'],
        "xbgr"@ == seq!['x', 'b', 'g', 'r'],
        "rgb"@ == seq!['r', 'g', 'b'],
        "bgr"@ == seq!['b', 'g', 'r'],
        "ya"@ == seq!['y', 'a'],
{
    reveal_strlit("rgbx");
    reveal_strlit("bgrx");
    reveal_strlit("xrgb");
    reveal_strlit("xbgr");
    reveal_strlit("rgb");
    reveal_strlit("bgr");
    reveal_strlit("ya");
    assert("rgbx"@ =~= seq!['r', 'g', 'b', 'x']);
    assert("bgrx"@ =~= seq!['b', 'g', 'r', 'x']);
    assert("xrgb"@ =~= seq!['x', 'r', 'g', 'b']);
    assert("xbgr"@ =~= seq!['x', 'b', 'g', 'r']);
    assert("rgb"@ =~= seq!['r', 'g', 'b']);
    assert("bgr"@ =~= seq!['b', 'g', 'r']);
    assert("ya"@ =~= seq!['y', 'a']);
}

/// The other packed formats begin with the letters of their channels, and end with the bits of a pixel:
/// three channels of 8 or 16 bits, four of 16, or gray and alpha of 8 or 16.
pub proof fn packed_names_begin_with_their_channels(n: Seq<char>)
    requires
        n == "rgb24"@ || n == "bgr24"@ || n == "rgb48le"@ || n == "bgr48le"@ || n == "rgba64le"@ || n
            == "bgra64le"@ || n == "ya8"@ || n == "ya16le"@,
    ensures
        packed_format(n) matches Some((layout, bytes)) && {
            &&& layout == n.take(layout.len() as int)
            &&& layout.len() == if n[0] == 'y' {
                2nat
            } else if n.len() == 8 {
                4nat
            } else {
                3nat
            }
            &&& bytes == if n.len() >= 6 {
                2nat
            } else {
                1nat
            }
        },
{
    lemma_packed_names();
    lemma_packed_layouts();
    lemma_long_names();
    assert("rgb24"@.take(3) =~= "rgb"@);
    assert("bgr24"@.take(3) =~= "bgr"@);
    assert("rgb48le"@.take(3) =~= "rgb"@);
    assert("bgr48le"@.take(3) =~= "bgr"@);
    assert("rgba64le"@.take(4) =~= "rgba"@);
    assert("bgra64le"@.take(4) =~= "bgra"@);
    assert("ya8"@.take(2) =~= "ya"@);
    assert("ya16le"@.take(2) =~= "ya"@);
}

proof fn lemma_long_names()
    ensures
        "rgb24"@ == seq!['r', 'g', 'b', '2', '4'],
        "bgr24"@ == seq!['b', 'g', 'r', '2', '4'],
        "rgb48le"@ == seq!['r', 'g', 'b', '4', '8', 'l', 'e'],
        "bgr48le"@ == seq!['b', 'g', 'r', '4', '8', 'l', 'e'],
        "rgba64le"@ == seq!['r', 'g', 'b', 'a', '6', '4', 'l', 'e'],
        "bgra64le"@ == seq!['b', 'g', 'r', 'a', '6', '4', 'l', 'e'],
        "ya8"@ == seq!['y', 'a', '8'],
        "ya16le"@ == seq!['y', 'a', '1', '6', 'l', 'e'],
{
    reveal_strlit("rgb24");
    reveal_strlit("bgr24");
    reveal_strlit("rgb48le");
    reveal_strlit("bgr48le");
    reveal_strlit("rgba64le");
    reveal_strlit("bgra64le");
    reveal_strlit("ya8");
    reveal_strlit("ya16le");
    assert("rgb24"@ =~= seq!['r', 'g', 'b', '2', '4']);
    assert("bgr24"@ =~= seq!['b', 'g', 'r', '2', '4']);
    assert("rgb48le"@ =~= seq!['r', 'g', 'b', '4', '8', 'l', 'e']);
    assert("bgr48le"@ =~= seq!['b', 'g', 'r', '4', '8', 'l', 'e']);
    assert("rgba64le"@ =~= seq!['r', 'g', 'b', 'a', '6', '4', 'l', 'e']);
    assert("bgra64le"@ =~= seq!['b', 'g', 'r', 'a', '6', '4', 'l', 'e']);
    assert("ya8"@ =~= seq!['y', 'a', '8']);
    assert("ya16le"@ =~= seq!['y', 'a', '1', '6', 'l', 'e']);
}

/// A colour in a packed voxel: the sample of each channel is the component that its letter names, an
/// unused one is zero, and samples of two bytes repeat the byte, so that the full scale stays full.
pub proof fn packed_voxels_hold_the_components(c: Colour, layout: Seq<char>, depth: nat, i: int)
    requires
        c.wf(),
        depth == 8 || depth == 16,
        0 <= i < layout.len(),
        layout[i] == 'r' || layout[i] == 'g' || layout[i] == 'b' || layout[i] == 'a' || layout[i]
            == 'x',
    ensures
        ({
            let v = packed_voxel(
                c,
                layout,
                depth,
                if depth == 8 {
                    1
                } else {
                    2
                },
            );
            let want = match layout[i] {
                'r' => c.r as u8,
                'g' => c.g as u8,
                'b' => c.b as u8,
                'a' => c.a as u8,
                _ => 0u8,
            };
            if depth == 8 {
                v.len() == layout.len() && v[i] == want
            } else {
                v.len() == 2 * layout.len() && v[2 * i] == want && v[2 * i + 1] == want
            }
        }),
    decreases layout.len(),
{
    lemma2_to64();
    let bytes: nat = if depth == 8 {
        1
    } else {
        2
    };
    assert(top(depth) / 255 == if depth == 8 {
        1nat
    } else {
        257nat
    });
    lemma_packed_len(c, layout, depth, bytes);
    lemma_packed_len(c, layout.drop_last(), depth, bytes);
    if i == layout.len() - 1 {
        assert(layout.last() == layout[i]);
    } else {
        assert(layout.drop_last()[i] == layout[i]);
        packed_voxels_hold_the_components(c, layout.drop_last(), depth, i);
    }
}

proof fn lemma_packed_len(c: Colour, layout: Seq<char>, depth: nat, bytes: nat)
    requires
        bytes == 1 || bytes == 2,
    ensures
        packed_voxel(c, layout, depth, bytes).len() == bytes * layout.len(),
    decreases layout.len(),
{
    if layout.len() > 0 {
        lemma_packed_len(c, layout.drop_last(), depth, bytes);
    }
}

/// The intermediate is made by x264 exactly where that takes the frames as they are: 8 or 10 bits, no
/// alpha, gray or chroma that is whole, halved in width, or halved both ways, of a frame that can be
/// halved so; by its RGB variant for packed RGB of 8 bits; and by ffv1, without loss, for all others.
pub proof fn the_intermediate_keeps_the_format(f: FormatView, w: nat, h: nat)
    requires
        f.wf(),
    ensures
        ({
            let codec = temp_codec(f, w, h).0;
            let alpha = exists|i: int| 0 <= i < f.planes.len() && #[trigger] f.planes[i].kind is A;
            let plain = (f.depth == 8 || f.depth == 10) && !alpha;
            let gray = f.planes.len() == 1 && f.planes[0].kind is Y;
            let chroma = f.planes.len() > 1 && f.planes[1].kind is Cb && ((f.planes[1].sx == 0
                && f.planes[1].sy == 0) || (f.planes[1].sx == 1 && w % 2 == 0 && (f.planes[1].sy == 0
                || (f.planes[1].sy == 1 && h % 2 == 0))));
            let packed = f.bytes == 1 && (f.planes[0].kind matches KindView::Packed(l) && (l
                == seq!['r', 'g', 'b'] || l == seq!['b', 'g', 'r'] || l == seq!['b', 'g', 'r', 'x']));
            &&& codec == if plain && (gray || chroma) {
                "libx264"@
            } else if packed {
                "libx264rgb"@
            } else {
                "ffv1"@
            }
            &&& temp_codec(f, w, h).1 == if codec == "ffv1"@ {
                seq![
                    "-level"@,
                    "3"@,
                    "-coder"@,
                    "1"@,
                    "-context"@,
                    "1"@,
                    "-g"@,
                    "1"@,
                    "-slicecrc"@,
                    "0"@,
                ]
            } else {
                seq!["-crf"@, "10"@, "-preset"@, "veryfast"@]
            }
        }),
{
    lemma2_to64();
    lemma_packed_layouts();
    reveal_strlit("ffv1");
    reveal_strlit("libx264");
    reveal_strlit("libx264rgb");
    assert("ffv1"@.len() == 4 && "libx264"@.len() == 7 && "libx264rgb"@.len() == 10);
    assert(w % 1 == 0 && h % 1 == 0);
    assert(f.has_alpha() == exists|i: int|
        0 <= i < f.planes.len() && #[trigger] f.planes[i].kind is A);
}

} // verus!
