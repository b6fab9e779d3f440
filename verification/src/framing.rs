//! Cutting the incoming sample stream into overlapping analysis frames.
//!
//! Samples accumulate in a buffer; whenever it holds a whole frame, the frame
//! at its front is taken and the buffer advances by one hop.  With a hop of
//! half a frame, consecutive frames overlap by half.
use vstd::prelude::*;

verus! {

/// How many frames a buffer of `len` samples yields.
pub open spec fn frame_count(len: int, size: int, hop: int) -> int {
    if len < size {
        0
    } else {
        (len - size) / hop + 1
    }
}

/// The frames that a buffer yields: frame `k` is the window of `size` samples
/// that starts `k` hops into the buffer.
pub open spec fn frames_of<T>(s: Seq<T>, size: int, hop: int) -> Seq<Seq<T>> {
    Seq::new(
        frame_count(s.len() as int, size, hop) as nat,
        |k: int| s.subrange(k * hop, k * hop + size),
    )
}

/// What stays in the buffer once its frames are taken.
pub open spec fn rest_of<T>(s: Seq<T>, size: int, hop: int) -> Seq<T> {
    s.skip(frame_count(s.len() as int, size, hop) * hop)
}

/// `c` frames is the count for a buffer of `len` samples exactly when the
/// last of them fits and one more would not.
pub open spec fn count_fits(len: int, size: int, hop: int, c: int) -> bool {
    ||| c == 0 && len < size
    ||| c > 0 && (c - 1) * hop + size <= len && len < c * hop + size
}

/// The frame count is the only count that fits, and the frames it counts never
/// reach past the buffer's end.
pub proof fn lemma_frame_count(len: int, size: int, hop: int)
    requires
        0 < hop <= size,
        0 <= len,
    ensures
        count_fits(len, size, hop, frame_count(len, size, hop)),
        forall|c: int| #[trigger] count_fits(len, size, hop, c) ==> c == frame_count(len, size, hop),
        0 <= frame_count(len, size, hop),
        frame_count(len, size, hop) * hop <= len,
{
    let c = frame_count(len, size, hop);
    if len >= size {
        let q = (len - size) / hop;
        let r = (len - size) % hop;
        assert(len - size == hop * q + r && 0 <= r < hop) by (nonlinear_arith)
            requires
                q == (len - size) / hop,
                r == (len - size) % hop,
                0 < hop,
        ;
        assert(0 <= q) by (nonlinear_arith)
            requires
                q == (len - size) / hop,
                0 < hop,
                len - size >= 0,
        ;
        assert(c * hop <= len) by (nonlinear_arith)
            requires
                c == q + 1,
                len - size == hop * q + r,
                0 <= r,
                hop <= size,
        ;
        assert(count_fits(len, size, hop, c)) by (nonlinear_arith)
            requires
                c == q + 1,
                len - size == hop * q + r,
                0 <= r < hop,
                0 <= q,
        ;
        assert forall|k: int| #[trigger] count_fits(len, size, hop, k) implies k == c by {
            assert(k == c) by (nonlinear_arith)
                requires
                    c == q + 1,
                    len - size == hop * q + r,
                    0 <= r < hop,
                    0 <= q,
                    len >= size,
                    count_fits(len, size, hop, k),
            ;
        }
    }
}

/// What stays in the buffer is shorter than a frame, and is the buffer's
/// tail from the start of the first frame not yet taken.
pub proof fn lemma_rest_shorter_than_frame<T>(s: Seq<T>, size: int, hop: int)
    requires
        0 < hop <= size,
    ensures
        rest_of(s, size, hop).len() < size,
        rest_of(s, size, hop) == s.subrange(frame_count(s.len() as int, size, hop) * hop, s.len() as int),
{
    lemma_frame_count(s.len() as int, size, hop);
    assert(rest_of(s, size, hop) =~= s.subrange(
        frame_count(s.len() as int, size, hop) * hop,
        s.len() as int,
    ));
}

/// Frame `k` is the `size` samples that start `k * hop` into the buffer; every
/// frame lies inside the buffer, one more would not, and what stays is the
/// buffer from the start of that next frame on.
pub proof fn lemma_frames_are_windows<T>(s: Seq<T>, size: int, hop: int)
    requires
        0 < hop <= size,
    ensures
        forall|k: int|
            0 <= k < frames_of(s, size, hop).len() ==> #[trigger] frames_of(s, size, hop)[k]
                == s.subrange(k * hop, k * hop + size) && k * hop + size <= s.len(),
        frames_of(s, size, hop).len() * hop + size > s.len(),
        frames_of(s, size, hop).len() * hop <= s.len(),
        rest_of(s, size, hop) == s.skip(frames_of(s, size, hop).len() * hop),
{
    let len = s.len() as int;
    lemma_frame_count(len, size, hop);
    let c = frame_count(len, size, hop);
    assert forall|k: int| 0 <= k < frames_of(s, size, hop).len() implies #[trigger] frames_of(
        s,
        size,
        hop,
    )[k] == s.subrange(k * hop, k * hop + size) && k * hop + size <= s.len() by {
        assert(k * hop <= (c - 1) * hop) by (nonlinear_arith)
            requires
                0 <= k < c,
                0 < hop,
        ;
        assert(0 <= k * hop) by (nonlinear_arith)
            requires
                0 <= k,
                0 < hop,
        ;
    }
}

fn copy_range<T: Copy>(src: &Vec<T>, from: usize, to: usize) -> (out: Vec<T>)
    requires
        from <= to <= src@.len(),
    ensures
        out@ == src@.subrange(from as int, to as int),
{
    let mut out: Vec<T> = Vec::with_capacity(to - from);
    let mut i = from;
    while i < to
        invariant
            from <= i <= to <= src@.len(),
            out@ == src@.subrange(from as int, i as int),
        decreases to - i,
    {
        out.push(src[i]);
        i = i + 1;
    }
    out
}

/// Takes every whole frame out of `buf`, front first, advancing the buffer by
/// `hop` samples after each; what is left stays in `buf`.
pub fn take_frames<T: Copy>(buf: &mut Vec<T>, frame_len: usize, hop: usize) -> (frames: Vec<Vec<T>>)
    requires
        0 < hop <= frame_len,
    ensures
        frames@.map_values(|f: Vec<T>| f@) == frames_of(old(buf)@, frame_len as int, hop as int),
        final(buf)@ == rest_of(old(buf)@, frame_len as int, hop as int),
{
    let len = buf.len();
    let ghost old_buf = buf@;
    let mut frames: Vec<Vec<T>> = Vec::new();
    let mut start: usize = 0;
    assert(frames@.len() * hop == 0) by (nonlinear_arith)
        requires
            frames@.len() == 0,
    ;
    while start <= len && len - start >= frame_len
        invariant
            0 < hop <= frame_len,
            len == buf@.len(),
            buf@ == old_buf,
            start <= len,
            start == frames@.len() * hop,
            frames@.len() > 0 ==> (frames@.len() - 1) * hop + frame_len <= len,
            forall|j: int|
                0 <= j < frames@.len() ==> (#[trigger] frames@[j])@ == old_buf.subrange(
                    j * hop,
                    j * hop + frame_len,
                ),
        decreases len - start,
    {
        let frame = copy_range(buf, start, start + frame_len);
        let ghost k = frames@.len();
        frames.push(frame);
        assert(frames@[k as int]@ == old_buf.subrange(k * hop, k * hop + frame_len));
        assert((k + 1) * hop == k * hop + hop) by (nonlinear_arith);
        start = start + hop;
    }
    let ghost k = frames@.len() as int;
    proof {
        lemma_frame_count(len as int, frame_len as int, hop as int);
        assert(k * hop + frame_len > len);
        assert(count_fits(len as int, frame_len as int, hop as int, k));
    }
    let rest = copy_range(buf, start, len);
    *buf = rest;
    assert(frames@.map_values(|f: Vec<T>| f@) =~= frames_of(old_buf, frame_len as int, hop as int));
    assert(rest@ =~= rest_of(old_buf, frame_len as int, hop as int));
    frames
}

/// Feeding the stream in two pieces yields the same frames, and leaves the
/// same samples behind, as feeding it at once: no sample is lost or counted
/// twice between redraws.
pub proof fn lemma_frames_stream<T>(a: Seq<T>, b: Seq<T>, size: int, hop: int)
    requires
        0 < hop <= size,
    ensures
        frames_of(a + b, size, hop) == frames_of(a, size, hop) + frames_of(
            rest_of(a, size, hop) + b,
            size,
            hop,
        ),
        rest_of(a + b, size, hop) == rest_of(rest_of(a, size, hop) + b, size, hop),
{
    let la = a.len() as int;
    let l = (a.len() + b.len()) as int;
    lemma_frame_count(la, size, hop);
    let m = frame_count(la, size, hop);
    let r = rest_of(a, size, hop);
    let rb = r + b;
    assert(rb =~= (a + b).skip(m * hop));
    let lr = l - m * hop;
    assert(rb.len() == lr);
    lemma_frame_count(lr, size, hop);
    lemma_frame_count(l, size, hop);
    let c2 = frame_count(lr, size, hop);
    let k = m + c2;
    assert(count_fits(l, size, hop, k)) by {
        if c2 == 0 {
            if m > 0 {
                assert((m - 1) * hop + size <= l);
            }
        } else {
            assert((k - 1) * hop == m * hop + (c2 - 1) * hop) by (nonlinear_arith)
                requires
                    k == m + c2,
            ;
            assert(k * hop == m * hop + c2 * hop) by (nonlinear_arith)
                requires
                    k == m + c2,
            ;
        }
    }
    assert(frame_count(l, size, hop) == k);
    let lhs = frames_of(a + b, size, hop);
    let rhs = frames_of(a, size, hop) + frames_of(rb, size, hop);
    assert forall|j: int| 0 <= j < k implies #[trigger] lhs[j] == rhs[j] by {
        if j < m {
            assert(j * hop + size <= (m - 1) * hop + size) by (nonlinear_arith)
                requires
                    j < m,
                    0 < hop,
            ;
            assert((a + b).subrange(j * hop, j * hop + size) =~= a.subrange(j * hop, j * hop + size));
        } else {
            let i = j - m;
            assert(j * hop == m * hop + i * hop) by (nonlinear_arith)
                requires
                    i == j - m,
            ;
            assert(0 <= i * hop) by (nonlinear_arith)
                requires
                    0 <= i,
                    0 < hop,
            ;
            assert(i * hop + size <= lr) by (nonlinear_arith)
                requires
                    0 <= i < c2,
                    (c2 - 1) * hop + size <= lr,
                    0 < hop,
            ;
            assert(rb == (a + b).skip(m * hop));
            assert(0 <= m * hop <= la);
            assert((a + b).subrange(j * hop, j * hop + size) =~= rb.subrange(
                i * hop,
                i * hop + size,
            ));
        }
    }
    assert(lhs =~= rhs);
    assert(k * hop == m * hop + c2 * hop) by (nonlinear_arith)
        requires
            k == m + c2,
    ;
    assert(rest_of(a + b, size, hop) =~= rest_of(rb, size, hop));
}

} // verus!
