//! Content-defined chunking with a rolling sum over the last 64 bytes.
//!
//! A byte stream is cut wherever the rolling digest of the current window has
//! its low fifteen bits set. After each cut the window starts over from
//! zeros, so a chunk's end depends only on the bytes of that chunk.

use crate::bytes::append_bytes;
use vstd::prelude::*;

verus! {

/// Number of bytes under the rolling window.
pub const WINDOW_SIZE: usize = 64;

/// Mask that wraps a ring position into the window.
pub const WINDOW_MASK: usize = 63;

/// Bits of the digest that must all be set at a cut.
pub const CHUNK_MASK: u32 = 0x7FFF;

/// Amount added to every byte of the window, so that runs of zeros still move the sums.
pub const CHAR_OFFSET: usize = 31;

/// Plain sum of the bytes of `w`.
pub open spec fn plain_sum(w: Seq<u8>) -> int
    decreases w.len(),
{
    if w.len() == 0 {
        0
    } else {
        w[0] + plain_sum(w.drop_first())
    }
}

/// Sum of the bytes of `w`, the last one counted once, the one before it twice, and so
/// on up to the first, which is counted `w.len()` times.
pub open spec fn weighted_sum(w: Seq<u8>) -> int
    decreases w.len(),
{
    if w.len() == 0 {
        0
    } else {
        w.len() * w[0] + weighted_sum(w.drop_first())
    }
}

/// The window a chunk starts with: 64 zero bytes.
pub open spec fn zero_window() -> Seq<u8> {
    Seq::new(64, |i: int| 0u8)
}

/// The window after `bytes` have passed through `w`: the last 64 bytes of `w + bytes`.
pub open spec fn feed(w: Seq<u8>, bytes: Seq<u8>) -> Seq<u8> {
    (w + bytes).subrange(bytes.len() as int, bytes.len() as int + 64)
}

/// The window at the end of a chunk that holds `chunk` so far.
pub open spec fn window_of(chunk: Seq<u8>) -> Seq<u8> {
    feed(zero_window(), chunk)
}

/// First running sum of a window: every byte, offset by 31.
pub open spec fn first_sum(w: Seq<u8>) -> int {
    64 * 31 + plain_sum(w)
}

/// Second running sum of a window. It starts at 64 * 63 * 31 for the zero window and
/// grows by the weighted bytes.
pub open spec fn second_sum(w: Seq<u8>) -> int {
    64 * 63 * 31 + weighted_sum(w)
}

/// The 32-bit digest built from the low halves of the two running sums.
pub open spec fn rolling_digest(s1: usize, s2: usize) -> u32 {
    (((s1 & 0xFFFF) as u32) << 16) | ((s2 & 0xFFFF) as u32)
}

/// Whether the stream is cut once the window holds `w`.
pub open spec fn is_cut(w: Seq<u8>) -> bool {
    rolling_digest(first_sum(w) as usize, second_sum(w) as usize) & CHUNK_MASK == CHUNK_MASK
}

pub proof fn lemma_plain_sum_push(w: Seq<u8>, b: u8)
    ensures
        plain_sum(w.push(b)) == plain_sum(w) + b,
    decreases w.len(),
{
    if w.len() == 0 {
        assert(w.push(b).drop_first() =~= w);
    } else {
        assert(w.push(b).drop_first() =~= w.drop_first().push(b));
        lemma_plain_sum_push(w.drop_first(), b);
    }
}

pub proof fn lemma_weighted_sum_push(w: Seq<u8>, b: u8)
    ensures
        weighted_sum(w.push(b)) == weighted_sum(w) + plain_sum(w) + b,
    decreases w.len(),
{
    if w.len() == 0 {
        assert(w.push(b).drop_first() =~= w);
    } else {
        assert(w.push(b).drop_first() =~= w.drop_first().push(b));
        lemma_weighted_sum_push(w.drop_first(), b);
        let n = w.len() as int;
        assert((n + 1) * w[0] == n * w[0] + w[0]) by (nonlinear_arith);
    }
}

pub proof fn lemma_sum_bounds(w: Seq<u8>)
    ensures
        0 <= plain_sum(w) <= 255 * w.len(),
        0 <= weighted_sum(w) <= 255 * w.len() * w.len(),
        w.len() > 0 ==> plain_sum(w) >= w[0] && weighted_sum(w) >= w.len() * w[0],
    decreases w.len(),
{
    if w.len() > 0 {
        lemma_sum_bounds(w.drop_first());
        let n = w.len() as int;
        assert(n * w[0] <= n * 255) by (nonlinear_arith)
            requires
                0 <= w[0] <= 255,
                n >= 0,
        ;
        assert(n * w[0] >= 0) by (nonlinear_arith)
            requires
                0 <= w[0],
                n >= 0,
        ;
        assert(255 * (n - 1) * (n - 1) + n * 255 <= 255 * n * n) by (nonlinear_arith)
            requires
                n >= 1,
        ;
    }
}

/// The sums of a full window stay far below the range of the machine's integers.
pub proof fn lemma_window_bounds(w: Seq<u8>)
    requires
        w.len() == 64,
    ensures
        w[0] <= plain_sum(w) <= 16320,
        64 * w[0] <= weighted_sum(w) <= 1044480,
{
    lemma_sum_bounds(w);
    assert(255 * w.len() * w.len() == 1044480) by (nonlinear_arith)
        requires
            w.len() == 64,
    ;
}

/// Sliding the window by one byte: the oldest byte leaves, `b` enters.
pub proof fn lemma_slide(w: Seq<u8>, b: u8)
    requires
        w.len() == 64,
    ensures
        plain_sum(w.drop_first().push(b)) == plain_sum(w) + b - w[0],
        weighted_sum(w.drop_first().push(b)) == weighted_sum(w) + plain_sum(
            w.drop_first().push(b),
        ) - 64 * w[0],
{
    let rest = w.drop_first();
    lemma_plain_sum_push(rest, b);
    lemma_weighted_sum_push(rest, b);
}

/// Feeding one more byte slides the window once more.
pub proof fn lemma_feed_push(w: Seq<u8>, bytes: Seq<u8>, b: u8)
    requires
        w.len() == 64,
    ensures
        feed(w, bytes.push(b)) == feed(w, bytes).drop_first().push(b),
        feed(w, bytes).len() == 64,
        feed(w, Seq::<u8>::empty()) == w,
{
    assert(feed(w, bytes.push(b)) =~= feed(w, bytes).drop_first().push(b));
    assert(feed(w, Seq::<u8>::empty()) =~= w);
}

/// Rolling state of the chunker: two running sums over a ring of the last 64 bytes.
pub struct RollingSum {
    s1: usize,
    s2: usize,
    win: [u8; 64],
    pos: usize,
}

impl View for RollingSum {
    type V = Seq<u8>;

    /// The window, oldest byte first.
    closed spec fn view(&self) -> Seq<u8> {
        Seq::new(64, |i: int| self.win@[(self.pos + i) % 64])
    }
}

impl RollingSum {
    /// Where in the ring the oldest byte of the window stands, which is where the next
    /// byte goes.
    pub closed spec fn position(&self) -> nat {
        self.pos as nat
    }

    /// The first running sum.
    pub closed spec fn first(&self) -> nat {
        self.s1 as nat
    }

    /// The second running sum.
    pub closed spec fn second(&self) -> nat {
        self.s2 as nat
    }

    /// The position lies in the ring and the sums agree with the bytes in the window.
    pub open spec fn wf(&self) -> bool {
        &&& self.position() < 64
        &&& self.first() == first_sum(self@)
        &&& self.second() == second_sum(self@)
    }

    pub proof fn lemma_view_len(&self)
        ensures
            self@.len() == 64,
    {
    }

    /// A rolling sum over the zero window.
    pub fn new() -> (r: Self)
        ensures
            r.wf(),
            r@ == zero_window(),
            r.position() == 0,
            r.first() == 1984,
            r.second() == 124992,
    {
        let r = Self { s1: 1984, s2: 124992, win: [0u8;64], pos: 0 };
        proof {
            assert(r@ =~= zero_window());
            lemma_zero_window_sums(64);
            assert(zero_window() =~= Seq::new(64, |i: int| 0u8));
        }
        r
    }

    /// Feeds the bytes of `buf` one by one and stops behind the first byte at which the
    /// stream is cut. Returns how many bytes were taken, or `None` if all of `buf` went
    /// through without a cut. The position in the ring moves on by one for each byte
    /// taken.
    pub fn split(&mut self, buf: &[u8]) -> (r: Option<usize>)
        requires
            old(self).wf(),
        ensures
            final(self).wf(),
            match r {
                Some(n) => {
                    &&& 1 <= n <= buf@.len()
                    &&& final(self).position() == (old(self).position() + n) % 64
                    &&& is_cut(feed(old(self)@, buf@.take(n as int)))
                    &&& forall|m: int| 1 <= m < n ==>
                        !is_cut(feed(old(self)@, #[trigger] buf@.take(m)))
                    &&& final(self)@ == feed(old(self)@, buf@.take(n as int))
                },
                None => {
                    &&& forall|m: int|
                        1 <= m <= buf@.len() ==> !is_cut(feed(old(self)@, #[trigger] buf@.take(m)))
                    &&& final(self)@ == feed(old(self)@, buf@)
                    &&& final(self).position() == (old(self).position() + buf@.len()) % 64
                },
            },
    {
        let ghost start = self@;
        let ghost start_pos = self.position();
        let mut idx: usize = 0;
        proof {
            assert(buf@.take(0) =~= Seq::<u8>::empty());
            lemma_feed_push(start, Seq::empty(), 0);
        }
        while idx < buf.len()
            invariant
                idx <= buf@.len(),
                self.wf(),
                start.len() == 64,
                start == old(self)@,
                start_pos == old(self).position(),
                self.position() == (start_pos + idx) % 64,
                self@ == feed(start, buf@.take(idx as int)),
                forall|m: int| 1 <= m <= idx ==> !is_cut(feed(start, #[trigger] buf@.take(m))),
            decreases buf@.len() - idx,
        {
            let new_val = buf[idx];
            let ghost before = self@;
            proof {
                lemma_window_bounds(before);
                lemma_slide(before, new_val);
                lemma_window_bounds(before.drop_first().push(new_val));
                lemma_feed_push(start, buf@.take(idx as int), new_val);
                assert(buf@.take(idx + 1) =~= buf@.take(idx as int).push(new_val));
                assert(before[0] == self.win@[self.pos as int]);
            }
            let old_val = self.win[self.pos];
            self.win[self.pos] = new_val;
            let ghost old_pos = self.pos;
            let next: usize = self.pos + 1;
            assert(next & 63 == next % 64) by (bit_vector);
            self.pos = next & WINDOW_MASK;

            self.s1 += new_val as usize;
            self.s1 -= old_val as usize;
            self.s2 += self.s1;
            self.s2 -= WINDOW_SIZE * (old_val as usize + CHAR_OFFSET);

            proof {
                assert(self@ =~= before.drop_first().push(new_val)) by {
                    assert forall|i: int| 0 <= i < 64 implies self@[i] == before.drop_first().push(
                        new_val,
                    )[i] by {
                        if i < 63 {
                            assert((self.pos + i) % 64 == (old_pos + (i + 1)) % 64);
                            assert((old_pos + (i + 1)) % 64 != old_pos);
                        } else {
                            assert((self.pos + i) % 64 == old_pos);
                        }
                    }
                }
            }

            let s1: usize = self.s1;
            let s2: usize = self.s2;
            let low1: usize = s1 & 0xFFFF;
            let low2: usize = s2 & 0xFFFF;
            assert(low1 <= 0xFFFF && low2 <= 0xFFFF) by (bit_vector)
                requires
                    low1 == s1 & 0xFFFF,
                    low2 == s2 & 0xFFFF,
            ;
            let digest = ((low1 as u32) << 16) | (low2 as u32);

            idx += 1;
            if digest & CHUNK_MASK == CHUNK_MASK {
                return Some(idx);
            }
        }
        proof {
            assert(buf@.take(buf@.len() as int) =~= buf@);
        }
        None
    }
}

pub proof fn lemma_zero_window_sums(n: nat)
    ensures
        plain_sum(Seq::new(n, |i: int| 0u8)) == 0,
        weighted_sum(Seq::new(n, |i: int| 0u8)) == 0,
    decreases n,
{
    if n > 0 {
        lemma_zero_window_sums((n - 1) as nat);
        let w = Seq::new(n, |i: int| 0u8);
        assert(w.drop_first() =~= Seq::new((n - 1) as nat, |i: int| 0u8));
        assert(w[0] == 0);
        assert(w.len() * w[0] == 0) by (nonlinear_arith)
            requires
                w[0] == 0,
        ;
    }
}

/// Whether a chunk that begins with `data` is cut behind its first `n` bytes.
pub open spec fn cut_at(data: Seq<u8>, n: int) -> bool {
    is_cut(window_of(data.take(n)))
}

/// The first position behind `n` at which a chunk beginning with `data` is cut, or the
/// length of `data` if it is cut nowhere behind `n`.
pub open spec fn scan_cut(data: Seq<u8>, n: nat) -> nat
    decreases data.len() - n,
{
    if n >= data.len() {
        data.len()
    } else if cut_at(data, n as int + 1) {
        n + 1
    } else {
        scan_cut(data, n + 1)
    }
}

/// Length of the first chunk of `data`: up to the first cut, or all of `data`.
pub open spec fn chunk_len(data: Seq<u8>) -> nat {
    scan_cut(data, 0)
}

/// The chunks of `data`, in order.
pub open spec fn chunks(data: Seq<u8>) -> Seq<Seq<u8>>
    decreases data.len(),
    via chunks_terminates
{
    if data.len() == 0 {
        Seq::empty()
    } else {
        let n = chunk_len(data) as int;
        seq![data.take(n)] + chunks(data.skip(n))
    }
}

#[via_fn]
proof fn chunks_terminates(data: Seq<u8>) {
    lemma_scan_cut(data, 0);
}

/// Whether a chunk of `data` ends at position `p`. The end of `data` is such a position
/// whenever `data` is not empty.
pub open spec fn is_boundary(data: Seq<u8>, p: int) -> bool
    decreases data.len(),
    via is_boundary_terminates
{
    if data.len() == 0 {
        false
    } else {
        let n = chunk_len(data) as int;
        p == n || (p > n && is_boundary(data.skip(n), p - n))
    }
}

#[via_fn]
proof fn is_boundary_terminates(data: Seq<u8>, p: int) {
    lemma_scan_cut(data, 0);
}

/// What `scan_cut` finds: no cut strictly between `n` and the result, and a cut at the
/// result unless it is the end of `data`.
pub proof fn lemma_scan_cut(data: Seq<u8>, n: nat)
    requires
        n <= data.len(),
    ensures
        n <= scan_cut(data, n) <= data.len(),
        n < data.len() ==> n < scan_cut(data, n),
        forall|m: int| n < m < scan_cut(data, n) ==> !cut_at(data, m),
        scan_cut(data, n) < data.len() ==> cut_at(data, scan_cut(data, n) as int),
    decreases data.len() - n,
{
    if n < data.len() && !cut_at(data, n as int + 1) {
        lemma_scan_cut(data, n + 1);
    }
}

/// The first chunk is the only prefix that is free of cuts inside and cut at its end.
pub proof fn lemma_chunk_len_unique(data: Seq<u8>, r: int)
    requires
        0 < r <= data.len(),
        forall|m: int| 0 < m < r ==> !cut_at(data, m),
        r < data.len() ==> cut_at(data, r),
    ensures
        chunk_len(data) == r,
{
    lemma_scan_cut(data, 0);
}

/// Concatenation of a sequence of chunks.
pub open spec fn concat(parts: Seq<Seq<u8>>) -> Seq<u8>
    decreases parts.len(),
{
    if parts.len() == 0 {
        Seq::empty()
    } else {
        parts[0] + concat(parts.drop_first())
    }
}

/// The chunks of a stream put together give the stream back, and none of them is empty.
pub proof fn lemma_chunks_complete(data: Seq<u8>)
    ensures
        concat(chunks(data)) == data,
        forall|i: int| 0 <= i < chunks(data).len() ==> (#[trigger] chunks(data)[i]).len() > 0,
    decreases data.len(),
{
    if data.len() == 0 {
        assert(concat(chunks(data)) =~= data);
    } else {
        lemma_scan_cut(data, 0);
        let n = chunk_len(data) as int;
        let rest = chunks(data.skip(n));
        lemma_chunks_complete(data.skip(n));
        let all = seq![data.take(n)] + rest;
        assert(all.drop_first() =~= rest);
        assert(data.take(n) + data.skip(n) =~= data);
        assert forall|i: int| 0 <= i < all.len() implies (#[trigger] all[i]).len() > 0 by {
            if i > 0 {
                assert(all[i] == rest[i - 1]);
            }
        }
    }
}

/// The byte sequences that a vector of buffers holds.
pub open spec fn byte_views(bufs: Seq<Vec<u8>>) -> Seq<Seq<u8>> {
    Seq::new(bufs.len(), |i: int| bufs[i]@)
}

/// Splits `data` into its chunks.
pub fn split(data: &[u8]) -> (out: Vec<Vec<u8>>)
    ensures
        byte_views(out@) == chunks(data@),
        concat(byte_views(out@)) == data@,
        forall|i: int| 0 <= i < out.len() ==> (#[trigger] out[i]).len() > 0,
{
    let mut out: Vec<Vec<u8>> = Vec::new();
    let mut start: usize = 0;
    proof {
        assert(data@.skip(0) =~= data@);
        assert(byte_views(out@) + chunks(data@) =~= chunks(data@));
    }
    while start < data.len()
        invariant
            start <= data@.len(),
            byte_views(out@) + chunks(data@.skip(start as int)) == chunks(data@),
        decreases data@.len() - start,
    {
        let rest = vstd::slice::slice_subrange(data, start, data.len());
        let mut sum = RollingSum::new();
        let found = sum.split(rest);
        let taken: usize = match found {
            Some(n) => n,
            None => rest.len(),
        };
        proof {
            assert(rest@ =~= data@.skip(start as int));
            assert(rest@.take(rest@.len() as int) =~= rest@);
            lemma_chunk_len_unique(rest@, taken as int);
        }
        let chunk = vstd::slice::slice_to_vec(vstd::slice::slice_subrange(rest, 0, taken));
        proof {
            let before = byte_views(out@);
            let tail = chunks(rest@.skip(taken as int));
            assert(chunk@ =~= rest@.take(taken as int));
            assert(rest@.skip(taken as int) =~= data@.skip(start + taken));
            assert(chunks(rest@) == seq![rest@.take(taken as int)] + tail);
            assert(before.push(chunk@) + tail =~= before + chunks(rest@));
        }
        let ghost before = byte_views(out@);
        out.push(chunk);
        proof {
            assert(byte_views(out@) =~= before.push(chunk@));
        }
        start += taken;
    }
    proof {
        assert(data@.skip(data@.len() as int) =~= Seq::<u8>::empty());
        assert(byte_views(out@) =~= chunks(data@));
        lemma_chunks_complete(data@);
        assert forall|i: int| 0 <= i < out.len() implies (#[trigger] out[i]).len() > 0 by {
            assert(byte_views(out@)[i] == out[i]@);
            assert(chunks(data@)[i].len() > 0);
        }
    }
    out
}

/// Every chunk end lies inside the stream, and the end of a non-empty stream is one.
pub proof fn lemma_boundary_bounds(data: Seq<u8>, p: int)
    ensures
        is_boundary(data, p) ==> 0 < p <= data.len(),
        data.len() > 0 ==> is_boundary(data, data.len() as int),
    decreases data.len(),
{
    if data.len() > 0 {
        lemma_scan_cut(data, 0);
        let n = chunk_len(data) as int;
        lemma_boundary_bounds(data.skip(n), p - n);
        lemma_boundary_bounds(data.skip(n), data.len() - n);
    }
}

/// Chunking starts afresh behind every chunk end: the chunk ends of `data` behind `c`
/// are those of `data.skip(c)`, moved by `c`.
pub proof fn lemma_boundary_suffix(data: Seq<u8>, c: int, p: int)
    requires
        c == 0 || is_boundary(data, c),
        p > c,
    ensures
        is_boundary(data, p) == is_boundary(data.skip(c), p - c),
    decreases data.len(),
{
    if c == 0 {
        assert(data.skip(0) =~= data);
    } else {
        lemma_boundary_bounds(data, c);
        lemma_scan_cut(data, 0);
        let n = chunk_len(data) as int;
        if c > n {
            lemma_boundary_suffix(data.skip(n), c - n, p - n);
            assert(data.skip(n).skip(c - n) =~= data.skip(c));
        }
    }
}

/// Once a chunk holds 64 bytes or more, its window is its last 64 bytes.
pub proof fn lemma_window_of_long(chunk: Seq<u8>)
    requires
        chunk.len() >= 64,
    ensures
        window_of(chunk) == chunk.subrange(chunk.len() - 64, chunk.len() as int),
{
    assert(window_of(chunk) =~= chunk.subrange(chunk.len() - 64, chunk.len() as int));
}

/// The start of the chunk that holds the byte before `p`: the stream start or a chunk
/// end `c` before `p` such that the chunk beginning at `c` reaches `p`.
pub proof fn lemma_chunk_containing(data: Seq<u8>, p: int) -> (c: int)
    requires
        0 < p <= data.len(),
    ensures
        0 <= c < p,
        c == 0 || is_boundary(data, c),
        c + chunk_len(data.skip(c)) >= p,
    decreases data.len(),
{
    lemma_scan_cut(data, 0);
    let n = chunk_len(data) as int;
    if p <= n {
        assert(data.skip(0) =~= data);
        0
    } else {
        let inner = lemma_chunk_containing(data.skip(n), p - n);
        assert(data.skip(n).skip(inner) =~= data.skip(n + inner));
        n + inner
    }
}

/// Chunk ends depend only on the bytes before them: two streams with a common prefix
/// of `a` bytes have the same chunk ends up to `a`. The end of a stream is a chunk end
/// of its own kind, so `p` must be the end of both streams or of neither.
pub proof fn lemma_prefix_boundaries(x: Seq<u8>, y: Seq<u8>, a: int, p: int)
    requires
        0 <= a <= x.len(),
        a <= y.len(),
        x.take(a) == y.take(a),
        p <= a,
        (p == x.len()) == (p == y.len()),
    ensures
        is_boundary(x, p) == is_boundary(y, p),
    decreases x.len(),
{
    if x.len() == 0 || y.len() == 0 {
        lemma_boundary_bounds(x, p);
        lemma_boundary_bounds(y, p);
    } else {
        lemma_scan_cut(x, 0);
        lemma_scan_cut(y, 0);
        let nx = chunk_len(x) as int;
        let ny = chunk_len(y) as int;
        assert forall|m: int| 0 < m <= a implies cut_at(x, m) == cut_at(y, m) by {
            assert(x.take(m) =~= x.take(a).take(m));
            assert(y.take(m) =~= y.take(a).take(m));
        }
        if p <= 0 {
            lemma_boundary_bounds(x, p);
            lemma_boundary_bounds(y, p);
        } else if nx < p || ny < p {
            // the first chunk ends before `p` in one stream, hence in both
            assert(nx == ny);
            assert(x.skip(nx).take(a - nx) =~= x.take(a).skip(nx));
            assert(y.skip(nx).take(a - nx) =~= y.take(a).skip(nx));
            lemma_prefix_boundaries(x.skip(nx), y.skip(nx), a - nx, p - nx);
        } else {
            lemma_boundary_bounds(x.skip(nx), p - nx);
            lemma_boundary_bounds(y.skip(ny), p - ny);
            if nx == p && p < x.len() {
                assert(cut_at(y, p));
            }
            if ny == p && p < y.len() {
                assert(cut_at(x, p));
            }
        }
    }
}

/// Two streams that share a chunk end and agree behind it share every later chunk end.
/// The shared end may lie at different positions, as after an insertion.
pub proof fn lemma_sync_after_boundary(x: Seq<u8>, y: Seq<u8>, cx: int, cy: int, q: int)
    requires
        cx == 0 || is_boundary(x, cx),
        cy == 0 || is_boundary(y, cy),
        0 <= cx <= x.len(),
        0 <= cy <= y.len(),
        x.skip(cx) == y.skip(cy),
        q > 0,
    ensures
        is_boundary(x, cx + q) == is_boundary(y, cy + q),
{
    lemma_boundary_suffix(x, cx, cx + q);
    lemma_boundary_suffix(y, cy, cy + q);
}

/// Resynchronisation. Let `x` and `y` agree from 64 bytes before `px` (in `x`) and `py`
/// (in `y`) onwards, and let neither have a chunk end among the 63 positions before.
/// If `px` is a chunk end of `x`, then `py` is one of `y`, and from there on the two
/// streams are cut alike.
pub proof fn lemma_resync(x: Seq<u8>, y: Seq<u8>, px: int, py: int)
    requires
        64 <= px <= x.len(),
        64 <= py <= y.len(),
        x.skip(px - 64) == y.skip(py - 64),
        is_boundary(x, px),
        forall|q: int| px - 64 < q < px ==> !is_boundary(x, q),
        forall|q: int| py - 64 < q < py ==> !is_boundary(y, q),
    ensures
        is_boundary(y, py),
        forall|q: int| q > px ==> #[trigger] is_boundary(x, q) == is_boundary(y, q - px + py),
{
    assert(x.len() - px == y.len() - py) by {
        assert(x.skip(px - 64).len() == y.skip(py - 64).len());
    }
    let cx = lemma_chunk_containing(x, px);
    let cy = lemma_chunk_containing(y, py);
    let xs = x.skip(cx);
    let ys = y.skip(cy);
    lemma_scan_cut(xs, 0);
    lemma_scan_cut(ys, 0);
    lemma_boundary_suffix(x, cx, px);
    lemma_boundary_suffix(y, cy, py);
    let nx = chunk_len(xs) as int;
    let ny = chunk_len(ys) as int;
    lemma_boundary_bounds(xs.skip(nx), px - cx - nx);
    assert(nx == px - cx);
    if py < y.len() {
        assert(cut_at(xs, nx));
        let wx = xs.take(px - cx);
        let wy = ys.take(py - cy);
        lemma_window_of_long(wx);
        lemma_window_of_long(wy);
        assert(wx.subrange(wx.len() - 64, wx.len() as int) =~= x.skip(px - 64).take(64));
        assert(wy.subrange(wy.len() - 64, wy.len() as int) =~= y.skip(py - 64).take(64));
        assert(cut_at(ys, py - cy));
    }
    assert(ny == py - cy);
    assert(x.skip(px) =~= x.skip(px - 64).skip(64));
    assert(y.skip(py) =~= y.skip(py - 64).skip(64));
    assert forall|q: int| q > px implies #[trigger] is_boundary(x, q) == is_boundary(
        y,
        q - px + py,
    ) by {
        lemma_sync_after_boundary(x, y, px, py, q - px);
    }
}

/// Whether `x` and `y` have the same length and differ at most in the `k` bytes from `a`.
pub open spec fn same_outside(x: Seq<u8>, y: Seq<u8>, a: int, k: int) -> bool {
    &&& x.len() == y.len()
    &&& 0 <= a
    &&& 0 <= k
    &&& a + k <= x.len()
    &&& forall|i: int| 0 <= i < a || a + k <= i < x.len() ==> x[i] == y[i]
}

/// Locality of an edit. Let `x` and `y` differ at most in the `k` bytes from `a`. Up to
/// `a` they are cut alike. If they are also cut alike at the 63 positions behind the
/// edit, where a window still holds edited bytes or zeros from a fresh chunk, then they
/// are cut alike everywhere from `a + k + 64` on.
pub proof fn lemma_edit_locality(x: Seq<u8>, y: Seq<u8>, a: int, k: int, p: int)
    requires
        same_outside(x, y, a, k),
        forall|q: int| a + k < q < a + k + 64 ==> is_boundary(x, q) == is_boundary(y, q),
        p <= a || p >= a + k + 64,
    ensures
        is_boundary(x, p) == is_boundary(y, p),
{
    if p <= a {
        assert(x.take(a) =~= y.take(a));
        lemma_prefix_boundaries(x, y, a, p);
    } else {
        lemma_edit_locality_both(x, y, a, k, p);
    }
}

proof fn lemma_edit_locality_one_way(x: Seq<u8>, y: Seq<u8>, a: int, k: int, p: int)
    requires
        same_outside(x, y, a, k),
        forall|q: int| a + k < q < a + k + 64 ==> is_boundary(x, q) == is_boundary(y, q),
        p >= a + k + 64,
        is_boundary(x, p),
    ensures
        is_boundary(y, p),
    decreases p, 0int,
{
    lemma_boundary_bounds(x, p);
    let cx = lemma_chunk_containing(x, p);
    let cy = lemma_chunk_containing(y, p);
    let c = if cx > cy { cx } else { cy };
    if c > p - 64 {
        // a chunk end of one stream lies less than a window before `p`: it is a chunk
        // end of both, and they are in step from there
        if c >= a + k + 64 {
            lemma_edit_locality_both(x, y, a, k, c);
        }
        assert(is_boundary(x, c) && is_boundary(y, c));
        assert(x.skip(c) =~= y.skip(c));
        lemma_sync_after_boundary(x, y, c, c, p - c);
    } else {
        assert(x.skip(p - 64) =~= y.skip(p - 64));
        assert forall|q: int| p - 64 < q < p implies !is_boundary(x, q) by {
            if is_boundary(x, q) {
                lemma_boundary_suffix(x, cx, q);
                lemma_scan_cut(x.skip(cx), 0);
                let n = chunk_len(x.skip(cx)) as int;
                lemma_boundary_bounds(x.skip(cx).skip(n), q - cx - n);
            }
        }
        assert forall|q: int| p - 64 < q < p implies !is_boundary(y, q) by {
            if is_boundary(y, q) {
                lemma_boundary_suffix(y, cy, q);
                lemma_scan_cut(y.skip(cy), 0);
                let n = chunk_len(y.skip(cy)) as int;
                lemma_boundary_bounds(y.skip(cy).skip(n), q - cy - n);
            }
        }
        lemma_resync(x, y, p, p);
    }
}

proof fn lemma_edit_locality_both(x: Seq<u8>, y: Seq<u8>, a: int, k: int, p: int)
    requires
        same_outside(x, y, a, k),
        forall|q: int| a + k < q < a + k + 64 ==> is_boundary(x, q) == is_boundary(y, q),
        p >= a + k + 64,
    ensures
        is_boundary(x, p) == is_boundary(y, p),
    decreases p, 1int,
{
    if is_boundary(x, p) {
        lemma_edit_locality_one_way(x, y, a, k, p);
    }
    if is_boundary(y, p) {
        lemma_edit_locality_one_way(y, x, a, k, p);
    }
}

/// Feeding bytes in two parts is feeding them at once.
pub proof fn lemma_feed_feed(w: Seq<u8>, a: Seq<u8>, b: Seq<u8>)
    requires
        w.len() == 64,
    ensures
        feed(feed(w, a), b) == feed(w, a + b),
{
    assert(feed(feed(w, a), b) =~= feed(w, a + b));
}

/// `c` is a chunk that ends with a cut: it is not empty, it is cut at its end, and
/// nowhere before.
pub open spec fn is_cut_chunk(c: Seq<u8>) -> bool {
    &&& c.len() > 0
    &&& cut_at(c, c.len() as int)
    &&& forall|m: int| 0 < m < c.len() ==> !cut_at(c, m)
}

/// `p` is the beginning of a chunk: it is cut nowhere.
pub open spec fn is_uncut(p: Seq<u8>) -> bool {
    forall|m: int| 0 < m <= p.len() ==> !cut_at(p, m)
}

/// The stream `s` is the chunks `done`, which all end with a cut, and the beginning
/// `pending` of a further chunk.
pub open spec fn splits_as(s: Seq<u8>, done: Seq<Seq<u8>>, pending: Seq<u8>) -> bool {
    &&& s == concat(done) + pending
    &&& forall|i: int| 0 <= i < done.len() ==> is_cut_chunk(#[trigger] done[i])
    &&& is_uncut(pending)
}

/// A chunk that ends with a cut is the first chunk of every stream that begins with it.
pub proof fn lemma_cut_chunk_first(c: Seq<u8>, rest: Seq<u8>)
    requires
        is_cut_chunk(c),
    ensures
        chunks(c + rest) == seq![c] + chunks(rest),
{
    let s = c + rest;
    assert forall|m: int| 0 < m <= c.len() implies cut_at(s, m) == cut_at(c, m) by {
        assert(s.take(m) =~= c.take(m));
    }
    lemma_chunk_len_unique(s, c.len() as int);
    assert(s.take(c.len() as int) =~= c);
    assert(s.skip(c.len() as int) =~= rest);
}

/// The chunks of a stream that was split so far and goes on with `more`: the chunks
/// that are done, then the chunks of what was pending and what follows.
pub proof fn lemma_splits_as(s: Seq<u8>, done: Seq<Seq<u8>>, pending: Seq<u8>, more: Seq<u8>)
    requires
        splits_as(s, done, pending),
    ensures
        chunks(s + more) == done + chunks(pending + more),
    decreases done.len(),
{
    if done.len() == 0 {
        assert(concat(done) =~= Seq::<u8>::empty());
        assert(s + more =~= pending + more);
        assert(done + chunks(pending + more) =~= chunks(pending + more));
    } else {
        let first = done[0];
        let others = done.drop_first();
        let tail = concat(others) + pending;
        assert forall|i: int| 0 <= i < others.len() implies is_cut_chunk(#[trigger] others[i]) by {
            assert(others[i] == done[i + 1]);
        }
        lemma_splits_as(tail, others, pending, more);
        assert(s + more =~= first + (tail + more));
        lemma_cut_chunk_first(first, tail + more);
        assert(seq![first] + (others + chunks(pending + more)) =~= done + chunks(pending + more));
    }
}

/// The beginning of a chunk is the one chunk of the stream that ends with it.
pub proof fn lemma_uncut_chunks(p: Seq<u8>)
    requires
        is_uncut(p),
    ensures
        chunks(p) == if p.len() == 0 {
            Seq::<Seq<u8>>::empty()
        } else {
            seq![p]
        },
{
    if p.len() > 0 {
        lemma_chunk_len_unique(p, p.len() as int);
        assert(p.take(p.len() as int) =~= p);
        assert(p.skip(p.len() as int) =~= Seq::<u8>::empty());
        assert(chunks(Seq::<u8>::empty()) =~= Seq::<Seq<u8>>::empty());
        assert(seq![p] + Seq::<Seq<u8>>::empty() =~= seq![p]);
    }
}

/// One more chunk behind chunks that are put together.
pub proof fn lemma_concat_one_more(parts: Seq<Seq<u8>>, last: Seq<u8>)
    ensures
        concat(parts.push(last)) == concat(parts) + last,
    decreases parts.len(),
{
    if parts.len() == 0 {
        assert(parts.push(last).drop_first() =~= Seq::<Seq<u8>>::empty());
        assert(concat(Seq::<Seq<u8>>::empty()) =~= Seq::<u8>::empty());
        assert(concat(parts.push(last)) =~= last + Seq::<u8>::empty());
        assert(concat(parts.push(last)) =~= concat(parts) + last);
    } else {
        lemma_concat_one_more(parts.drop_first(), last);
        assert(parts.push(last).drop_first() =~= parts.drop_first().push(last));
        assert(parts.push(last)[0] == parts[0]);
        assert(concat(parts.push(last)) =~= parts[0] + (concat(parts.drop_first()) + last));
        assert(concat(parts.push(last)) =~= concat(parts) + last);
    }
}

/// Splits a stream that arrives in pieces. It holds the bytes behind the last cut.
pub struct Splitter {
    pending: Vec<u8>,
    sum: RollingSum,
}

impl View for Splitter {
    type V = Seq<u8>;

    /// The bytes behind the last cut.
    closed spec fn view(&self) -> Seq<u8> {
        self.pending@
    }
}

impl Splitter {
    /// The rolling sum is that of the pending bytes, which are cut nowhere.
    pub closed spec fn wf(&self) -> bool {
        &&& self.sum.wf()
        &&& self.sum@ == window_of(self.pending@)
        &&& is_uncut(self.pending@)
    }

    /// What a well-formed splitter guarantees of the bytes it holds.
    pub proof fn lemma_wf(&self)
        requires
            self.wf(),
        ensures
            is_uncut(self@),
    {
    }

    /// A splitter at the start of a stream.
    pub fn new() -> (r: Splitter)
        ensures
            r.wf(),
            r@ == Seq::<u8>::empty(),
    {
        let r = Splitter { pending: Vec::new(), sum: RollingSum::new() };
        proof {
            r.sum.lemma_view_len();
            lemma_feed_push(zero_window(), Seq::empty(), 0);
        }
        r
    }

    /// Takes the next piece of the stream and returns the chunks that it completes.
    /// The stream so far is the chunks returned so far and the bytes that are pending.
    pub fn push(&mut self, data: &[u8]) -> (out: Vec<Vec<u8>>)
        requires
            old(self).wf(),
        ensures
            final(self).wf(),
            splits_as(old(self)@ + data@, byte_views(out@), final(self)@),
            chunks(old(self)@ + data@) == byte_views(out@) + chunks(final(self)@),
            forall|i: int| 0 <= i < out@.len() ==> (#[trigger] out@[i])@.len() > 0,
    {
        let mut out: Vec<Vec<u8>> = Vec::new();
        let mut start: usize = 0;
        let ghost first = self.pending@;
        proof {
            assert(data@.take(0) =~= Seq::<u8>::empty());
            assert(concat(byte_views(out@)) =~= Seq::<u8>::empty());
            assert(first + data@.take(0) =~= concat(byte_views(out@)) + self.pending@);
        }
        while start < data.len()
            invariant
                start <= data@.len(),
                self.wf(),
                first == old(self)@,
                splits_as(first + data@.take(start as int), byte_views(out@), self.pending@),
            decreases data@.len() - start,
        {
            let rest = vstd::slice::slice_subrange(data, start, data.len());
            let ghost pending = self.pending@;
            let ghost done = byte_views(out@);
            let ghost w0 = self.sum@;
            proof {
                self.sum.lemma_view_len();
                assert(rest@ =~= data@.skip(start as int));
                assert(w0 == window_of(pending));
                assert(first + data@.take(start as int) == concat(done) + pending);
            }
            let found = self.sum.split(rest);
            let taken: usize = match found {
                Some(n) => n,
                None => rest.len(),
            };
            let piece = vstd::slice::slice_subrange(rest, 0, taken);
            append_bytes(&mut self.pending, piece);
            proof {
                let grown = self.pending@;
                assert(piece@ =~= rest@.take(taken as int));
                assert(rest@.take(rest@.len() as int) =~= rest@);
                assert(data@.take(start + taken) =~= data@.take(start as int) + piece@);
                assert forall|m: int| 0 < m <= grown.len() implies cut_at(grown, m) == (
                found is Some && m == grown.len()) by {
                    if m <= pending.len() {
                        assert(grown.take(m) =~= pending.take(m));
                        assert(!cut_at(pending, m));
                    } else {
                        let k = m - pending.len();
                        assert(grown.take(m) =~= pending + rest@.take(k));
                        lemma_feed_feed(zero_window(), pending, rest@.take(k));
                        assert(window_of(grown.take(m)) == feed(w0, rest@.take(k)));
                        if k == taken {
                            assert(rest@.take(k) =~= piece@);
                        }
                    }
                }
                lemma_feed_feed(zero_window(), pending, piece@);
                assert(self.sum@ == feed(w0, piece@));
                assert(grown =~= pending + piece@);
                assert(first + data@.take(start + taken) =~= (first + data@.take(start as int))
                    + piece@);
                assert(first + data@.take(start + taken) =~= concat(done) + grown);
            }
            if found.is_some() {
                let mut chunk: Vec<u8> = Vec::new();
                core::mem::swap(&mut chunk, &mut self.pending);
                self.sum = RollingSum::new();
                out.push(chunk);
                proof {
                    self.sum.lemma_view_len();
                    lemma_feed_push(zero_window(), Seq::empty(), 0);
                    assert(byte_views(out@) =~= done.push(chunk@));
                    lemma_concat_one_more(done, chunk@);
                    assert(first + data@.take(start + taken) =~= concat(byte_views(out@))
                        + self.pending@);
                    assert forall|i: int| 0 <= i < byte_views(out@).len() implies is_cut_chunk(
                        #[trigger] byte_views(out@)[i],
                    ) by {
                        if i < done.len() {
                            assert(byte_views(out@)[i] == done[i]);
                        }
                    }
                }
            }
            start += taken;
        }
        proof {
            assert(data@.take(data@.len() as int) =~= data@);
            lemma_splits_as(first + data@, byte_views(out@), self.pending@, Seq::empty());
            assert(first + data@ + Seq::<u8>::empty() =~= first + data@);
            assert(self.pending@ + Seq::<u8>::empty() =~= self.pending@);
            assert forall|i: int| 0 <= i < out@.len() implies (#[trigger] out@[i])@.len() > 0 by {
                assert(is_cut_chunk(byte_views(out@)[i]));
            }
        }
        out
    }

    /// Ends the stream and returns the bytes behind the last cut as the last chunk, if
    /// there are any.
    pub fn finish(self) -> (r: Option<Vec<u8>>)
        requires
            self.wf(),
        ensures
            r is Some <==> self@.len() > 0,
            r matches Some(c) ==> c@ == self@,
            chunks(self@) == match r {
                Some(c) => seq![c@],
                None => Seq::<Seq<u8>>::empty(),
            },
    {
        proof {
            lemma_uncut_chunks(self.pending@);
        }
        if self.pending.len() > 0 {
            Some(self.pending)
        } else {
            None
        }
    }
}

} // verus!
