//! What the capture callback does with each audio buffer it is handed, and how
//! the buffers that piled up between two redraws are gathered.
//!
//! The capture service delivers 32-bit float PCM.  Here a buffer is routed by
//! its size and channel count, its bytes are cut into 32-bit sample words, and
//! interleaved stereo samples are paired up for down-mixing; the float
//! arithmetic on the samples themselves is left to the caller.
use vstd::prelude::*;

verus! {

/// What the capture callback does with one audio buffer.
#[derive(Clone, Copy, Debug, PartialEq, Eq, Structural)]
pub enum BufferRoute {
    /// The buffer is dropped: it is empty, its length is not a whole number of
    /// 32-bit samples, or it has neither one nor two channels.
    Discard,
    /// One channel: the samples are passed on as they are.
    Mono,
    /// Two interleaved channels: each left/right pair is mixed down to one
    /// sample.
    Stereo,
}

/// The route of a buffer of `byte_len` bytes with `channels` channels.
pub open spec fn buffer_route(byte_len: int, channels: int) -> BufferRoute {
    if byte_len == 0 || byte_len % 4 != 0 {
        BufferRoute::Discard
    } else if channels == 2 {
        BufferRoute::Stereo
    } else if channels == 1 {
        BufferRoute::Mono
    } else {
        BufferRoute::Discard
    }
}

/// Decides what becomes of a buffer of `byte_len` bytes with `channels`
/// channels.
pub fn route_buffer(byte_len: usize, channels: u32) -> (r: BufferRoute)
    ensures
        r == buffer_route(byte_len as int, channels as int),
        byte_len > 0 && byte_len % 4 == 0 && channels == 1 ==> r == BufferRoute::Mono,
        byte_len > 0 && byte_len % 4 == 0 && channels == 2 ==> r == BufferRoute::Stereo,
        r == BufferRoute::Discard <==> (byte_len == 0 || byte_len % 4 != 0 || (channels != 1
            && channels != 2)),
{
    proof {
        lemma_route_keeps_whole_buffers(byte_len as int, channels as int);
    }
    if byte_len == 0 || byte_len % 4 != 0 {
        BufferRoute::Discard
    } else if channels == 2 {
        BufferRoute::Stereo
    } else if channels == 1 {
        BufferRoute::Mono
    } else {
        BufferRoute::Discard
    }
}

/// Only empty buffers, buffers that are not a whole number of 32-bit samples
/// and buffers with neither one nor two channels are dropped: every other
/// one-channel buffer is passed on and every other two-channel buffer is
/// mixed down.
pub proof fn lemma_route_keeps_whole_buffers(byte_len: int, channels: int)
    ensures
        byte_len > 0 && byte_len % 4 == 0 && channels == 1 ==> buffer_route(byte_len, channels)
            == BufferRoute::Mono,
        byte_len > 0 && byte_len % 4 == 0 && channels == 2 ==> buffer_route(byte_len, channels)
            == BufferRoute::Stereo,
        buffer_route(byte_len, channels) == BufferRoute::Discard <==> (byte_len == 0 || byte_len % 4
            != 0 || (channels != 1 && channels != 2)),
{
}

/// Byte `k` (0 = least significant) of the 32-bit word `x`.
pub open spec fn byte_field(x: u32, k: int) -> u32 {
    (x >> ((8 * k) as u32)) & 0xffu32
}

/// Each byte of a sample lands in its own 8-bit field of the sample's word,
/// the first byte in the lowest field.
pub proof fn lemma_word_fields(b: Seq<u8>, i: int)
    requires
        0 <= i,
        4 * i + 3 < b.len(),
    ensures
        0 <= le_word(b, i) <= u32::MAX,
        forall|k: int|
            0 <= k < 4 ==> #[trigger] byte_field(le_word(b, i) as u32, k) == b[4 * i + k] as u32,
{
    let b0 = b[4 * i];
    let b1 = b[4 * i + 1];
    let b2 = b[4 * i + 2];
    let b3 = b[4 * i + 3];
    let x = le_word(b, i) as u32;
    assert(le_word(b, i) == b0 + 256 * b1 + 65536 * b2 + 16777216 * b3);
    assert(0 <= le_word(b, i) <= u32::MAX);
    assert(x == b0 + 256 * b1 + 65536 * b2 + 16777216 * b3);
    assert((x >> 0u32) & 0xffu32 == b0 as u32) by (bit_vector)
        requires
            x == b0 + 256 * b1 + 65536 * b2 + 16777216 * b3,
    ;
    assert((x >> 8u32) & 0xffu32 == b1 as u32) by (bit_vector)
        requires
            x == b0 + 256 * b1 + 65536 * b2 + 16777216 * b3,
    ;
    assert((x >> 16u32) & 0xffu32 == b2 as u32) by (bit_vector)
        requires
            x == b0 + 256 * b1 + 65536 * b2 + 16777216 * b3,
    ;
    assert((x >> 24u32) & 0xffu32 == b3 as u32) by (bit_vector)
        requires
            x == b0 + 256 * b1 + 65536 * b2 + 16777216 * b3,
    ;
    assert forall|k: int| 0 <= k < 4 implies #[trigger] byte_field(le_word(b, i) as u32, k)
        == b[4 * i + k] as u32 by {
        if k == 0 {
        } else if k == 1 {
        } else if k == 2 {
        } else {
        }
    }
}

/// The 32-bit word that bytes `4 i .. 4 i + 4` of `b` hold, least significant
/// byte first.
pub open spec fn le_word(b: Seq<u8>, i: int) -> int {
    b[4 * i] + 256 * b[4 * i + 1] + 65536 * b[4 * i + 2] + 16777216 * b[4 * i + 3]
}

/// Cuts a buffer of PCM bytes into its 32-bit sample words (the bit patterns
/// of the float samples), least significant byte first as on the machines
/// the capture service runs on.
pub fn sample_words(bytes: &[u8]) -> (words: Vec<u32>)
    requires
        bytes@.len() % 4 == 0,
    ensures
        words@.len() == bytes@.len() / 4,
        forall|i: int| 0 <= i < words@.len() ==> words@[i] as int == le_word(bytes@, i),
        forall|i: int, k: int|
            0 <= i < words@.len() && 0 <= k < 4 ==> #[trigger] byte_field(words@[i], k)
                == bytes@[4 * i + k] as u32,
{
    let len = bytes.len();
    let n = len / 4;
    let mut words: Vec<u32> = Vec::with_capacity(n);
    let mut i: usize = 0;
    while i < n
        invariant
            len == bytes@.len(),
            n == bytes@.len() / 4,
            bytes@.len() % 4 == 0,
            i <= n,
            words@.len() == i,
            forall|j: int| 0 <= j < i ==> words@[j] as int == le_word(bytes@, j),
        decreases n - i,
    {
        assert(4 * i + 3 < bytes@.len()) by (nonlinear_arith)
            requires
                i < n,
                n == bytes@.len() / 4,
                bytes@.len() % 4 == 0,
        ;
        let base = 4 * i;
        let w = bytes[base] as u32 + 256 * (bytes[base + 1] as u32) + 65536 * (bytes[base + 2] as u32)
            + 16777216 * (bytes[base + 3] as u32);
        words.push(w);
        i = i + 1;
    }
    proof {
        assert forall|i: int, k: int| 0 <= i < words@.len() && 0 <= k < 4 implies #[trigger] byte_field(
            words@[i],
            k,
        ) == bytes@[4 * i + k] as u32 by {
            assert(4 * i + 3 < bytes@.len()) by (nonlinear_arith)
                requires
                    0 <= i < n,
                    n == bytes@.len() / 4,
                    bytes@.len() % 4 == 0,
            ;
            lemma_word_fields(bytes@, i);
            assert(words@[i] == le_word(bytes@, i) as u32);
            assert(byte_field(le_word(bytes@, i) as u32, k) == bytes@[4 * i + k] as u32);
        }
    }
    words
}

/// Pairs up interleaved stereo samples: pair `i` is samples `2 i` (left) and
/// `2 i + 1` (right).
pub fn stereo_pairs<T: Copy>(samples: &[T]) -> (pairs: Vec<(T, T)>)
    requires
        samples@.len() % 2 == 0,
    ensures
        pairs@.len() == samples@.len() / 2,
        forall|i: int|
            0 <= i < pairs@.len() ==> #[trigger] pairs@[i] == (samples@[2 * i], samples@[2 * i + 1]),
{
    let len = samples.len();
    let n = len / 2;
    let mut pairs: Vec<(T, T)> = Vec::with_capacity(n);
    let mut i: usize = 0;
    while i < n
        invariant
            len == samples@.len(),
            n == samples@.len() / 2,
            samples@.len() % 2 == 0,
            i <= n,
            pairs@.len() == i,
            forall|j: int|
                0 <= j < i ==> #[trigger] pairs@[j] == (samples@[2 * j], samples@[2 * j + 1]),
        decreases n - i,
    {
        let left = samples[2 * i];
        let right = samples[2 * i + 1];
        pairs.push((left, right));
        i = i + 1;
    }
    pairs
}

/// The chunks' contents, one after the other.
pub open spec fn joined<T>(chunks: Seq<Vec<T>>) -> Seq<T> {
    chunks.map_values(|c: Vec<T>| c@).flatten()
}

/// No chunk gives no sample, and one more chunk adds its samples after those
/// of the chunks before it.
pub proof fn lemma_joined_appends<T>(chunks: Seq<Vec<T>>, c: Vec<T>)
    ensures
        joined(Seq::<Vec<T>>::empty()) == Seq::<T>::empty(),
        joined(chunks.push(c)) == joined(chunks) + c@,
{
    assert(Seq::<Vec<T>>::empty().map_values(|c: Vec<T>| c@) =~= Seq::<Seq<T>>::empty());
    assert(chunks.push(c).map_values(|c: Vec<T>| c@) =~= chunks.map_values(|c: Vec<T>| c@).push(c@));
    chunks.map_values(|c: Vec<T>| c@).lemma_flatten_push(c@);
}

/// Gathers the chunks that arrived since the last call into one run of
/// samples, in arrival order; `None` when there is no sample at all.
pub fn gather_chunks<T: Copy>(chunks: Vec<Vec<T>>) -> (r: Option<Vec<T>>)
    ensures
        joined(chunks@).len() == 0 ==> r is None,
        joined(chunks@).len() > 0 ==> (r matches Some(v) && v@ == joined(chunks@)),
{
    let ghost views = chunks@.map_values(|c: Vec<T>| c@);
    let mut samples: Vec<T> = Vec::new();
    let mut i: usize = 0;
    while i < chunks.len()
        invariant
            i <= chunks@.len(),
            views == chunks@.map_values(|c: Vec<T>| c@),
            samples@ == views.take(i as int).flatten(),
        decreases chunks@.len() - i,
    {
        let chunk = &chunks[i];
        let ghost before = samples@;
        let mut j: usize = 0;
        while j < chunk.len()
            invariant
                j <= chunk@.len(),
                samples@ == before + chunk@.take(j as int),
            decreases chunk@.len() - j,
        {
            samples.push(chunk[j]);
            j = j + 1;
            assert(samples@ =~= before + chunk@.take(j as int));
        }
        proof {
            assert(chunk@.take(j as int) =~= chunk@);
            assert(views.take(i + 1) =~= views.take(i as int).push(views[i as int]));
            views.take(i as int).lemma_flatten_push(views[i as int]);
        }
        i = i + 1;
    }
    assert(views.take(chunks@.len() as int) =~= views);
    if samples.len() == 0 {
        None
    } else {
        Some(samples)
    }
}

} // verus!
