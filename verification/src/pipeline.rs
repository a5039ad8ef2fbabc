//! What the processes around the renderer do to the frames: reading, splitting, ordering, and how
//! runs end.

use vstd::prelude::*;
use vstd::slice::{slice_subrange, slice_to_vec};
use vstd::arithmetic::div_mod::lemma_fundamental_div_mod;
use vstd::seq_lib::{to_multiset_build, to_multiset_insert};
use crate::fixed::{padded, ten};
use crate::number::digit_char;
use crate::text::{chars_of, ends, ends_with, starts, starts_with, texts};

verus! {

/// What one read from a decoder gives.
#[derive(Clone, Copy, Debug, PartialEq, Eq, Structural)]
pub enum Received {
    /// That many bytes; none at the end of the stream.
    Bytes(usize),
    /// The read was interrupted before it began.
    Interrupted,
    /// The read failed.
    Failed,
}

/// How far the reading of a frame has come.
#[derive(Clone, Copy, Debug, PartialEq, Eq, Structural)]
pub enum FrameState {
    /// More bytes are wanted.
    Reading,
    /// The frame is complete.
    Full,
    /// The stream ended cleanly before the frame.
    Ended,
    /// The stream ended within the frame.
    Truncated,
    /// A read failed.
    Failed,
}

/// The reading of one frame of `len` bytes, of which `got` have come.
#[derive(Clone, Copy, Debug, PartialEq, Eq, Structural)]
pub struct FrameReader {
    pub got: usize,
    pub len: usize,
    pub state: FrameState,
}

impl FrameReader {
    /// The state says what the bytes say: a frame is full when all its bytes have come, the stream
    /// ends cleanly only before the first byte, and is truncated only after it.
    pub open spec fn wf(self) -> bool {
        &&& self.got <= self.len
        &&& match self.state {
            FrameState::Reading | FrameState::Failed => self.got < self.len,
            FrameState::Full => self.got == self.len,
            FrameState::Ended => self.got == 0 && self.len > 0,
            FrameState::Truncated => 0 < self.got < self.len,
        }
    }

    /// The reading that begins a frame.
    pub open spec fn start(len: usize) -> FrameReader {
        FrameReader {
            got: 0,
            len,
            state: if len == 0 {
                FrameState::Full
            } else {
                FrameState::Reading
            },
        }
    }

    /// The reading after one more read; a frame that is no longer read stays as it is.
    pub open spec fn next(self, r: Received) -> FrameReader {
        if self.state != FrameState::Reading {
            self
        } else {
            match r {
                Received::Bytes(n) => if n == 0 {
                    FrameReader {
                        state: if self.got == 0 {
                            FrameState::Ended
                        } else {
                            FrameState::Truncated
                        },
                        ..self
                    }
                } else {
                    FrameReader {
                        got: (self.got + n) as usize,
                        state: if self.got + n >= self.len {
                            FrameState::Full
                        } else {
                            FrameState::Reading
                        },
                        ..self
                    }
                },
                Received::Interrupted => self,
                Received::Failed => FrameReader { state: FrameState::Failed, ..self },
            }
        }
    }

    /// A read never gives more than was asked for.
    pub open spec fn gives(self, r: Received) -> bool {
        r matches Received::Bytes(n) ==> n <= self.len - self.got
    }

    /// Begins a frame.
    pub fn new(len: usize) -> (r: FrameReader)
        ensures
            r == FrameReader::start(len),
            r.wf(),
    {
        let state = if len == 0 {
            FrameState::Full
        } else {
            FrameState::Reading
        };
        FrameReader { got: 0, len, state }
    }

    /// Takes what a read gave.
    pub fn receive(&mut self, r: Received)
        requires
            old(self).wf(),
            old(self).gives(r),
        ensures
            *final(self) == old(self).next(r),
            final(self).wf(),
    {
        if self.state != FrameState::Reading {
            return;
        }
        match r {
            Received::Bytes(n) => {
                if n == 0 {
                    self.state = if self.got == 0 {
                        FrameState::Ended
                    } else {
                        FrameState::Truncated
                    };
                } else {
                    self.got = self.got + n;
                    if self.got >= self.len {
                        self.state = FrameState::Full;
                    }
                }
            },
            Received::Interrupted => {},
            Received::Failed => {
                self.state = FrameState::Failed;
            },
        }
    }
}

/// Some frames are no more than the budget, where there is one.
pub open spec fn affordable(frames: nat, frame_bytes: nat, budget: Option<u64>) -> bool {
    match budget {
        Some(b) => frames * frame_bytes <= b,
        None => true,
    }
}

/// True when so many frames fit into the budget.
pub fn fits_budget(frames: usize, frame_bytes: usize, budget: Option<u64>) -> (r: bool)
    ensures
        r == affordable(frames as nat, frame_bytes as nat, budget),
{
    match budget {
        Some(b) => {
            let n: u128 = frames as u128;
            let s: u128 = frame_bytes as u128;
            assert(n * s <= 0xffff_ffff_ffff_ffff * 0xffff_ffff_ffff_ffff) by (nonlinear_arith)
                requires
                    n <= 0xffff_ffff_ffff_ffff,
                    s <= 0xffff_ffff_ffff_ffff,
            ;
            n * s <= b as u128
        },
        None => true,
    }
}

/// What a decoder has given next.
#[derive(Clone, Copy, Debug, PartialEq, Eq, Structural)]
pub enum Decoded {
    /// One more frame.
    Frame,
    /// The end of the stream.
    End,
}

/// What becomes of a volume that is read into memory.
#[derive(Clone, Copy, Debug, PartialEq, Eq, Structural)]
pub enum Holding {
    /// The frame is kept, and reading goes on.
    Keep,
    /// The volume is complete.
    Done,
    /// The frames that were read exceed the budget.
    TooLarge,
}

/// The frames that have been read, of which `held` came before the last.
pub open spec fn frames_read(held: nat, d: Decoded) -> nat {
    match d {
        Decoded::Frame => held + 1,
        Decoded::End => held,
    }
}

/// What becomes of a volume of `held` frames when the decoder gives something more: it is given up
/// exactly when the frames that were read exceed the budget.
pub open spec fn held_on(held: nat, d: Decoded, frame_bytes: nat, budget: Option<u64>) -> Holding {
    if !affordable(frames_read(held, d), frame_bytes, budget) {
        Holding::TooLarge
    } else if d == Decoded::Frame {
        Holding::Keep
    } else {
        Holding::Done
    }
}

/// Decides on what a decoder has given to a volume of `held` frames.
pub fn hold(held: usize, d: Decoded, frame_bytes: usize, budget: Option<u64>) -> (r: Holding)
    requires
        d == Decoded::Frame ==> held < usize::MAX,
    ensures
        r == held_on(held as nat, d, frame_bytes as nat, budget),
{
    match d {
        Decoded::Frame => if fits_budget(held + 1, frame_bytes, budget) {
            Holding::Keep
        } else {
            Holding::TooLarge
        },
        Decoded::End => if fits_budget(held, frame_bytes, budget) {
            Holding::Done
        } else {
            Holding::TooLarge
        },
    }
}

/// What becomes of a whole stream of `left` frames behind `held` ones.
pub open spec fn held_to_the_end(
    held: nat,
    left: nat,
    frame_bytes: nat,
    budget: Option<u64>,
) -> Holding
    decreases left,
{
    if left == 0 {
        held_on(held, Decoded::End, frame_bytes, budget)
    } else if held_on(held, Decoded::Frame, frame_bytes, budget) == Holding::Keep {
        held_to_the_end(held + 1, (left - 1) as nat, frame_bytes, budget)
    } else {
        held_on(held, Decoded::Frame, frame_bytes, budget)
    }
}

/// A stream is held in memory whole exactly when all of it fits into the budget.
pub proof fn what_fits_is_held(held: nat, left: nat, frame_bytes: nat, budget: Option<u64>)
    ensures
        held_to_the_end(held, left, frame_bytes, budget) == if affordable(
            held + left,
            frame_bytes,
            budget,
        ) {
            Holding::Done
        } else {
            Holding::TooLarge
        },
    decreases left,
{
    if left > 0 {
        what_fits_is_held(held + 1, (left - 1) as nat, frame_bytes, budget);
        assert((held + 1) * frame_bytes <= (held + left) * frame_bytes) by (nonlinear_arith)
            requires
                left > 0,
        ;
    }
}

/// The frames of a stream of bytes.
pub open spec fn frames_in(data: Seq<u8>, size: nat) -> Seq<Seq<u8>> {
    Seq::new(data.len() / size, |z: int| data.subrange(z * size, (z + 1) * size))
}

/// The bytes of some frames.
pub open spec fn frame_views(v: Seq<Vec<u8>>) -> Seq<Seq<u8>> {
    v.map_values(|f: Vec<u8>| f@)
}

/// Splits decoded bytes into frames; nothing when they are not a whole number of frames.
pub fn split_frames(data: &[u8], frame_bytes: usize) -> (r: Option<Vec<Vec<u8>>>)
    requires
        frame_bytes > 0,
    ensures
        match r {
            Some(v) => data@.len() % frame_bytes as nat == 0 && frame_views(v@) == frames_in(
                data@,
                frame_bytes as nat,
            ),
            None => data@.len() % frame_bytes as nat != 0,
        },
{
    let total: usize = data.len();
    if total % frame_bytes != 0 {
        return None;
    }
    let n: usize = total / frame_bytes;
    let mut v: Vec<Vec<u8>> = Vec::new();
    let mut at: usize = 0;
    assert(0 * frame_bytes == 0);
    for z in 0..n
        invariant
            frame_bytes > 0,
            total == data@.len(),
            n == data@.len() / frame_bytes as nat,
            at == z * frame_bytes,
            v@.len() == z,
            forall|i: int|
                0 <= i < z ==> (#[trigger] v@[i])@ == data@.subrange(
                    i * frame_bytes,
                    (i + 1) * frame_bytes,
                ),
    {
        proof {
            let (len, s) = (data@.len() as int, frame_bytes as int);
            lemma_fundamental_div_mod(len, s);
            assert((z + 1) * s <= s * n) by (nonlinear_arith)
                requires
                    z + 1 <= n,
                    s > 0,
            ;
            assert((z + 1) * s == z * s + s) by (nonlinear_arith);
        }
        let f = slice_subrange(data, at, at + frame_bytes);
        v.push(slice_to_vec(f));
        at = at + frame_bytes;
    }
    assert(frame_views(v@) =~= frames_in(data@, frame_bytes as nat));
    Some(v)
}

/// The frames of a stream, put together again, are the stream.
pub proof fn frames_make_the_stream(data: Seq<u8>, size: nat)
    requires
        size > 0,
        data.len() % size == 0,
    ensures
        frames_in(data, size).flatten() == data,
{
    let n = data.len() / size;
    lemma_fundamental_div_mod(data.len() as int, size as int);
    assert(n * size == size * n) by (nonlinear_arith);
    lemma_first_frames(data, size, n);
    assert(frames_in(data, size).take(n as int) =~= frames_in(data, size));
    assert(data.take((n * size) as int) =~= data);
}

/// The first frames of a stream are the start of the stream.
proof fn lemma_first_frames(data: Seq<u8>, size: nat, n: nat)
    requires
        size > 0,
        n <= data.len() / size,
    ensures
        n * size <= data.len(),
        frames_in(data, size).take(n as int).flatten() == data.take((n * size) as int),
    decreases n,
{
    lemma_fundamental_div_mod(data.len() as int, size as int);
    let q = data.len() / size;
    assert(n * size <= size * q) by (nonlinear_arith)
        requires
            n <= q,
    ;
    let all = frames_in(data, size);
    if n == 0 {
        assert(0 * size == 0);
        assert(all.take(0) =~= Seq::<Seq<u8>>::empty());
        assert(data.take(0) =~= Seq::<u8>::empty());
    } else {
        let m = (n - 1) as nat;
        lemma_first_frames(data, size, m);
        assert(all.take(n as int) =~= all.take(m as int).push(all[m as int]));
        all.take(m as int).lemma_flatten_push(all[m as int]);
        assert(n * size == m * size + size) by (nonlinear_arith)
            requires
                n == m + 1,
        ;
        assert((m + 1) * size == n * size);
        assert(m * size + size <= data.len());
        assert(data.take((n * size) as int) =~= data.take((m * size) as int) + data.subrange(
            (m * size) as int,
            ((m + 1) * size) as int,
        ));
    }
}

/// One text comes no later than another, character by character.
pub open spec fn no_later(a: Seq<char>, b: Seq<char>) -> bool
    decreases a.len(),
{
    a.len() == 0 || (b.len() > 0 && (a[0] < b[0] || (a[0] == b[0] && no_later(
        a.drop_first(),
        b.drop_first(),
    ))))
}

/// The texts are in order.
pub open spec fn in_order(v: Seq<Seq<char>>) -> bool {
    forall|i: int, j: int| 0 <= i < j < v.len() ==> no_later(#[trigger] v[i], #[trigger] v[j])
}

/// The name of a chunk.
pub open spec fn is_chunk(name: Seq<char>) -> bool {
    starts(name, "chunk-"@) && ends(name, ".mkv"@)
}

/// The names of the chunks among some names.
pub open spec fn chunks_among(names: Seq<Seq<char>>) -> Seq<Seq<char>>
    decreases names.len(),
{
    if names.len() == 0 {
        Seq::empty()
    } else if is_chunk(names.last()) {
        chunks_among(names.drop_last()).push(names.last())
    } else {
        chunks_among(names.drop_last())
    }
}

fn comes_no_later(a: &[char], b: &[char]) -> (r: bool)
    ensures
        r == no_later(a@, b@),
{
    let mut i: usize = 0;
    assert(a@.skip(0) =~= a@);
    assert(b@.skip(0) =~= b@);
    while i < a.len()
        invariant
            i <= a@.len(),
            i <= b@.len(),
            no_later(a@, b@) == no_later(a@.skip(i as int), b@.skip(i as int)),
        decreases a@.len() - i,
    {
        assert(a@.skip(i as int).drop_first() =~= a@.skip(i + 1));
        if i >= b.len() {
            return false;
        }
        assert(b@.skip(i as int).drop_first() =~= b@.skip(i + 1));
        if a[i] != b[i] {
            return a[i] < b[i];
        }
        i = i + 1;
    }
    true
}

/// Of two texts one comes no later than the other.
proof fn lemma_total(a: Seq<char>, b: Seq<char>)
    ensures
        no_later(a, b) || no_later(b, a),
    decreases a.len(),
{
    if a.len() > 0 && b.len() > 0 {
        lemma_total(a.drop_first(), b.drop_first());
    }
}

/// The order is transitive.
proof fn lemma_transitive(a: Seq<char>, b: Seq<char>, c: Seq<char>)
    requires
        no_later(a, b),
        no_later(b, c),
    ensures
        no_later(a, c),
    decreases a.len(),
{
    if a.len() > 0 && a[0] == b[0] && b[0] == c[0] {
        lemma_transitive(a.drop_first(), b.drop_first(), c.drop_first());
    }
}

/// Inserts a name where it belongs.
fn insert_sorted(v: &mut Vec<String>, name: &str)
    requires
        in_order(texts(old(v)@)),
    ensures
        in_order(texts(final(v)@)),
        texts(final(v)@).to_multiset() == texts(old(v)@).to_multiset().insert(name@),
{
    let c = chars_of(name);
    let ghost before = texts(v@);
    let mut at: usize = v.len();
    while at > 0 && !comes_no_later(&chars_of(v[at - 1].as_str()), &c)
        invariant
            at <= v@.len(),
            c@ == name@,
            before == texts(v@),
            forall|i: int| at <= i < v@.len() ==> !no_later(#[trigger] before[i], name@),
        decreases at,
    {
        assert(before[at - 1] == v@[at - 1]@);
        at = at - 1;
    }
    proof {
        if at > 0 {
            assert(before[at - 1] == v@[at - 1]@);
        }
        let after = before.insert(at as int, name@);
        assert forall|i: int, j: int| 0 <= i < j < after.len() implies no_later(
            #[trigger] after[i],
            #[trigger] after[j],
        ) by {
            if i < at && j == at {
                if i < at - 1 {
                    lemma_transitive(before[i], before[at - 1], name@);
                }
            } else if i == at {
                assert(after[j] == before[j - 1]);
                lemma_total(before[j - 1], name@);
            }
        }
        to_multiset_insert(before, at as int, name@);
    }
    v.insert(at, name.to_owned());
    assert(texts(v@) =~= before.insert(at as int, name@));
}

/// The names of the chunks among the names in a directory, in order.
pub fn list_chunks(names: &[String]) -> (r: Vec<String>)
    ensures
        in_order(texts(r@)),
        texts(r@).to_multiset() == chunks_among(texts(names@)).to_multiset(),
{
    let mut v: Vec<String> = Vec::new();
    assert(texts(v@) =~= Seq::<Seq<char>>::empty());
    for i in 0..names.len()
        invariant
            in_order(texts(v@)),
            texts(v@).to_multiset() == chunks_among(texts(names@).take(i as int)).to_multiset(),
    {
        let n = chars_of(names[i].as_str());
        proof {
            let t = texts(names@);
            assert(t.take(i + 1).drop_last() =~= t.take(i as int));
            assert(t.take(i + 1).last() == names@[i as int]@);
            to_multiset_build(chunks_among(t.take(i as int)), names@[i as int]@);
        }
        if starts_with(&n, "chunk-") && ends_with(&n, ".mkv") {
            insert_sorted(&mut v, names[i].as_str());
        }
    }
    assert(texts(names@).take(names@.len() as int) =~= texts(names@));
    v
}

/// The name of chunk `i`.
pub open spec fn chunk_name(i: nat) -> Seq<char> {
    "chunk-"@ + padded(i, 6) + ".mkv"@
}

/// Digits before digits: with the same number of them, the smaller number comes first.
proof fn lemma_padded_order(i: nat, j: nat, width: nat, tail: Seq<char>)
    requires
        i < j < ten(width),
    ensures
        no_later(padded(i, width) + tail, padded(j, width) + tail),
        !no_later(padded(j, width) + tail, padded(i, width) + tail),
    decreases width,
{
    if width > 0 {
        let w = (width - 1) as nat;
        let (a, b) = (i / 10, j / 10);
        let ta = seq![digit_char(i % 10)] + tail;
        let tb = seq![digit_char(j % 10)] + tail;
        assert(padded(i, width) + tail =~= padded(a, w) + ta);
        assert(padded(j, width) + tail =~= padded(b, w) + tb);
        lemma_padded_split(a, b, w, ta, tb);
    }
}

/// Texts that start with numbers of the same number of digits are in the order of the numbers, or,
/// when these are the same, of what follows.
proof fn lemma_padded_split(a: nat, b: nat, width: nat, s: Seq<char>, t: Seq<char>)
    requires
        a < ten(width),
        b < ten(width),
        s.len() > 0,
        t.len() > 0,
        a < b || (a == b && s[0] < t[0]),
    ensures
        no_later(padded(a, width) + s, padded(b, width) + t),
        !no_later(padded(b, width) + t, padded(a, width) + s),
    decreases width,
{
    if width == 0 {
        assert(padded(a, 0) + s =~= s);
        assert(padded(b, 0) + t =~= t);
    } else {
        let w = (width - 1) as nat;
        let x = seq![digit_char(a % 10)] + s;
        let y = seq![digit_char(b % 10)] + t;
        assert(padded(a, width) + s =~= padded(a / 10, w) + x);
        assert(padded(b, width) + t =~= padded(b / 10, w) + y);
        if a == b {
            lemma_same_front(padded(a, width), s, t);
        } else {
            lemma_padded_split(a / 10, b / 10, w, x, y);
        }
    }
}

/// A common front does not matter.
proof fn lemma_same_front(p: Seq<char>, s: Seq<char>, t: Seq<char>)
    ensures
        no_later(p + s, p + t) == no_later(s, t),
        no_later(p + t, p + s) == no_later(t, s),
    decreases p.len(),
{
    if p.len() == 0 {
        assert(p + s =~= s);
        assert(p + t =~= t);
    } else {
        lemma_same_front(p.drop_first(), s, t);
        assert((p + s).drop_first() =~= p.drop_first() + s);
        assert((p + t).drop_first() =~= p.drop_first() + t);
    }
}

/// The chunks are listed in the order of their numbers, as long as six digits are enough.
pub proof fn chunks_are_listed_in_order(i: nat, j: nat)
    requires
        i < j < 1_000_000,
    ensures
        is_chunk(chunk_name(i)),
        no_later(chunk_name(i), chunk_name(j)),
        !no_later(chunk_name(j), chunk_name(i)),
{
    let (a, b) = (chunk_name(i), chunk_name(j));
    assert(ten(6) == 1_000_000) by {
        reveal_with_fuel(ten, 7);
    }
    lemma_padded_order(i, j, 6, ".mkv"@);
    lemma_same_front("chunk-"@, padded(i, 6) + ".mkv"@, padded(j, 6) + ".mkv"@);
    assert(a =~= "chunk-"@ + (padded(i, 6) + ".mkv"@));
    assert(b =~= "chunk-"@ + (padded(j, 6) + ".mkv"@));
    assert(a.take("chunk-"@.len() as int) =~= "chunk-"@);
    assert(a.skip(a.len() - ".mkv"@.len()) =~= ".mkv"@);
}

/// The frames that the finished chunks hold while the chunks are being written: the last one may
/// not be complete.
pub fn chunked_frames(chunks: usize, chunk_frames: usize) -> (r: u64)
    requires
        chunks * chunk_frames <= u64::MAX,
    ensures
        r == (if chunks == 0 {
            0
        } else {
            (chunks - 1) * chunk_frames
        }),
{
    if chunks == 0 {
        return 0;
    }
    proof {
        let (a, b) = (chunks as int, chunk_frames as int);
        assert((a - 1) * b <= a * b) by (nonlinear_arith)
            requires
                b >= 0,
        ;
        assert((a - 1) * b >= 0) by (nonlinear_arith)
            requires
                a >= 1,
                b >= 0,
        ;
    }
    (chunks - 1) as u64 * chunk_frames as u64
}

/// The count that a finished run reports: what was polled last, else what was expected.
pub fn finished_frames(polled: u64, total: Option<u64>) -> (r: u64)
    ensures
        r == (if polled != 0 {
            polled
        } else {
            match total {
                Some(t) => t,
                None => 0,
            }
        }),
{
    if polled == 0 {
        match total {
            Some(t) => t,
            None => 0,
        }
    } else {
        polled
    }
}

/// The indices of `n` items, the last one first.
pub open spec fn descending(n: nat) -> Seq<usize> {
    Seq::new(n, |i: int| (n - 1 - i) as usize)
}

/// Lists the indices of `n` items, the last one first.
pub fn last_to_first(n: usize) -> (r: Vec<usize>)
    ensures
        r@ == descending(n as nat),
{
    let mut r: Vec<usize> = Vec::new();
    for i in 0..n
        invariant
            r@.len() == i,
            forall|j: int| 0 <= j < i ==> r@[j] == (n - 1 - j) as usize,
    {
        r.push(n - 1 - i);
    }
    assert(r@ =~= descending(n as nat));
    r
}

/// The items at some indices.
pub open spec fn picked<A>(s: Seq<A>, at: Seq<usize>) -> Seq<A> {
    at.map_values(|i: usize| s[i as int])
}

/// The chunks last to first, and in each the frames last to first.
pub open spec fn walked_back<A>(chunks: Seq<Seq<A>>) -> Seq<A>
    decreases chunks.len(),
{
    if chunks.len() == 0 {
        Seq::empty()
    } else {
        picked(chunks.last(), descending(chunks.last().len())) + walked_back(chunks.drop_last())
    }
}

/// Walking the chunks last to first, and in each the frames last to first, plays the video
/// backwards.
pub proof fn chunks_walked_back_play_backwards<A>(chunks: Seq<Seq<A>>)
    requires
        forall|i: int| 0 <= i < chunks.len() ==> (#[trigger] chunks[i]).len() <= usize::MAX,
    ensures
        walked_back(chunks) == chunks.flatten().reverse(),
    decreases chunks.len(),
{
    if chunks.len() == 0 {
        assert(walked_back(chunks) =~= chunks.flatten().reverse());
    } else {
        let front = chunks.drop_last();
        let last = chunks.last();
        assert(last == chunks[chunks.len() - 1]);
        chunks_walked_back_play_backwards(front);
        front.lemma_flatten_push(last);
        assert(front.push(last) =~= chunks);
        let (a, b) = (front.flatten(), last);
        let back = picked(b, descending(b.len()));
        assert(back =~= b.reverse());
        assert(b.reverse() + a.reverse() =~= (a + b).reverse());
    }
}

/// How the thread that writes to the encoder, or reads from the decoder, ended.
#[derive(Clone, Copy, Debug, PartialEq, Eq, Structural)]
pub enum Transfer {
    /// All frames went through; that many.
    Done(u64),
    /// A read or a write failed.
    Failed,
    /// The thread panicked.
    Panicked,
}

/// How a process ended.
#[derive(Clone, Copy, Debug, PartialEq, Eq, Structural)]
pub enum Exit {
    Success,
    Failure,
    /// Nothing is known: it could not be waited for.
    Unknown,
}

/// What a run with an encoder or a decoder comes to.
#[derive(Clone, Copy, Debug, PartialEq, Eq, Structural)]
pub enum Ending {
    /// That many frames.
    Frames(u64),
    /// The process failed.
    ProcessFailed,
    /// The process could not be waited for.
    WaitFailed,
    /// Reading or writing failed.
    TransferFailed,
    /// The thread panicked.
    ThreadPanicked,
    /// The process went away without a reason.
    Stopped,
}

/// Why an encoder that no longer takes frames stopped.
pub fn sink_failure(exit: Exit, write_failed: bool) -> (r: Ending)
    ensures
        r == (if exit == Exit::Failure {
            Ending::ProcessFailed
        } else if write_failed {
            Ending::TransferFailed
        } else {
            Ending::Stopped
        }),
{
    match exit {
        Exit::Failure => Ending::ProcessFailed,
        _ => if write_failed {
            Ending::TransferFailed
        } else {
            Ending::Stopped
        },
    }
}

/// What finishing an encoder comes to: the frames count only when it took them all and succeeded. A
/// failed write is put down to the encoder when that failed.
pub fn sink_ending(writer: Transfer, exit: Exit) -> (r: Ending)
    ensures
        r == (match writer {
            Transfer::Done(n) => match exit {
                Exit::Success => Ending::Frames(n),
                Exit::Failure => Ending::ProcessFailed,
                Exit::Unknown => Ending::WaitFailed,
            },
            Transfer::Failed => if exit == Exit::Failure {
                Ending::ProcessFailed
            } else {
                Ending::TransferFailed
            },
            Transfer::Panicked => Ending::ThreadPanicked,
        }),
{
    match writer {
        Transfer::Done(n) => match exit {
            Exit::Success => Ending::Frames(n),
            Exit::Failure => Ending::ProcessFailed,
            Exit::Unknown => Ending::WaitFailed,
        },
        Transfer::Failed => match exit {
            Exit::Failure => Ending::ProcessFailed,
            _ => Ending::TransferFailed,
        },
        Transfer::Panicked => Ending::ThreadPanicked,
    }
}

/// What finishing a decoder comes to: the frames count only when the decoder succeeded. A failed
/// read is one, however the decoder ended.
pub fn source_ending(reader: Transfer, exit: Exit) -> (r: Ending)
    ensures
        r == (match reader {
            Transfer::Done(n) => match exit {
                Exit::Success => Ending::Frames(n),
                Exit::Failure => Ending::ProcessFailed,
                Exit::Unknown => Ending::WaitFailed,
            },
            Transfer::Failed => Ending::TransferFailed,
            Transfer::Panicked => Ending::ThreadPanicked,
        }),
{
    match reader {
        Transfer::Done(n) => match exit {
            Exit::Success => Ending::Frames(n),
            Exit::Failure => Ending::ProcessFailed,
            Exit::Unknown => Ending::WaitFailed,
        },
        Transfer::Failed => Ending::TransferFailed,
        Transfer::Panicked => Ending::ThreadPanicked,
    }
}

} // verus!
