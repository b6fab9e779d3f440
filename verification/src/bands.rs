//! How the bins of a real FFT are grouped into the bands that the analyzer
//! reports.
//!
//! The analyzer places `num_bands + 1` band edges on a logarithmic frequency
//! scale (a floating-point computation that stays with the caller) and hands
//! the resulting raw bin indices to this module.  Here the edges are clamped to
//! the Nyquist bin, swept so that every band below the last one holds at least
//! one bin, and the last edge is clamped again.
use vstd::prelude::*;

verus! {

/// The raw edge `raw[i]`, clamped to the Nyquist bin.
pub open spec fn clamped_bin(raw: Seq<usize>, nyquist: usize, i: int) -> int {
    if raw[i] <= nyquist {
        raw[i] as int
    } else {
        nyquist as int
    }
}

/// Edge `i` after the sweep: each edge is moved up to one bin past its
/// predecessor when it does not already lie above it.
pub open spec fn swept_edge(raw: Seq<usize>, nyquist: usize, i: int) -> int
    decreases i,
{
    if i <= 0 {
        clamped_bin(raw, nyquist, 0)
    } else {
        let prev = swept_edge(raw, nyquist, i - 1);
        let c = clamped_bin(raw, nyquist, i);
        if c <= prev {
            prev + 1
        } else {
            c
        }
    }
}

/// Final edge `i`: the swept edge, where the last edge is clamped once more to
/// the Nyquist bin.
pub open spec fn band_edge(raw: Seq<usize>, nyquist: usize, i: int) -> int {
    let e = swept_edge(raw, nyquist, i);
    if i == raw.len() - 1 && e > nyquist {
        nyquist as int
    } else {
        e
    }
}

/// All final edges, as a sequence.
pub open spec fn band_edges_spec(raw: Seq<usize>, nyquist: usize) -> Seq<int> {
    Seq::new(raw.len(), |i: int| band_edge(raw, nyquist, i))
}

/// Every swept edge lies between its clamped raw bin and `nyquist + i`.
pub proof fn lemma_swept_edge_bounds(raw: Seq<usize>, nyquist: usize, i: int)
    requires
        0 <= i < raw.len(),
    ensures
        clamped_bin(raw, nyquist, i) <= swept_edge(raw, nyquist, i) <= nyquist + i,
        0 <= swept_edge(raw, nyquist, i),
    decreases i,
{
    if i > 0 {
        lemma_swept_edge_bounds(raw, nyquist, i - 1);
    }
}

/// The swept edges strictly increase.
pub proof fn lemma_swept_edge_increasing(raw: Seq<usize>, nyquist: usize, i: int, j: int)
    requires
        0 <= i < j < raw.len(),
    ensures
        swept_edge(raw, nyquist, i) < swept_edge(raw, nyquist, j),
    decreases j - i,
{
    if i + 1 < j {
        lemma_swept_edge_increasing(raw, nyquist, i, j - 1);
    }
}

/// Computes the band edges from the raw (unclamped) bin index of each edge.
///
/// `raw_bins` holds `num_bands + 1` entries; `nyquist_bins` is `fft_size / 2`.
pub fn band_edges(raw_bins: &[usize], nyquist_bins: usize) -> (edges: Vec<usize>)
    requires
        raw_bins@.len() >= 1,
        nyquist_bins + raw_bins@.len() <= usize::MAX,
    ensures
        edges@.len() == raw_bins@.len(),
        forall|i: int|
            0 <= i < edges@.len() ==> edges@[i] as int == band_edge(raw_bins@, nyquist_bins, i),
{
    let n = raw_bins.len();
    let mut edges: Vec<usize> = Vec::with_capacity(n);
    let mut i: usize = 0;
    while i < n
        invariant
            n == raw_bins@.len(),
            i <= n,
            edges@.len() == i,
            forall|j: int| 0 <= j < i ==> edges@[j] as int == clamped_bin(raw_bins@, nyquist_bins, j),
        decreases n - i,
    {
        let raw = raw_bins[i];
        let bin = if raw <= nyquist_bins {
            raw
        } else {
            nyquist_bins
        };
        edges.push(bin);
        i = i + 1;
    }
    let mut i: usize = 1;
    while i < n
        invariant
            n == raw_bins@.len(),
            n >= 1,
            nyquist_bins + n <= usize::MAX,
            1 <= i <= n,
            edges@.len() == n,
            forall|j: int| 0 <= j < i ==> edges@[j] as int == swept_edge(raw_bins@, nyquist_bins, j),
            forall|j: int|
                i <= j < n ==> edges@[j] as int == clamped_bin(raw_bins@, nyquist_bins, j),
        decreases n - i,
    {
        proof {
            lemma_swept_edge_bounds(raw_bins@, nyquist_bins, i - 1);
        }
        if edges[i] <= edges[i - 1] {
            let raised = edges[i - 1] + 1;
            edges[i] = raised;
        }
        i = i + 1;
    }
    let last = n - 1;
    if edges[last] > nyquist_bins {
        edges[last] = nyquist_bins;
    }
    edges
}


/// The integer plan of a frequency analyzer: its FFT size, the number of bands
/// it reports, and the band edges (`num_bands + 1` bin indices).
pub struct BandPlan {
    fft_size: usize,
    num_bands: usize,
    edges: Vec<usize>,
}

impl BandPlan {
    #[verifier::type_invariant]
    spec fn edge_count_matches(&self) -> bool {
        self.edges@.len() == self.num_bands + 1
    }

    /// The FFT size the plan was made for.
    pub closed spec fn fft_size_spec(&self) -> int {
        self.fft_size as int
    }

    /// The number of bands.
    pub closed spec fn num_bands_spec(&self) -> int {
        self.num_bands as int
    }

    /// The band edges, as integers.
    pub closed spec fn edge_seq(&self) -> Seq<int> {
        self.edges@.map_values(|e: usize| e as int)
    }

    /// Makes the plan from the raw bin index of each of the `num_bands + 1`
    /// edges, as the logarithmic placement computed them.
    pub fn new(fft_size: usize, num_bands: usize, raw_edges: &[usize]) -> (plan: BandPlan)
        requires
            raw_edges@.len() == num_bands + 1,
            fft_size / 2 + num_bands + 1 <= usize::MAX,
        ensures
            plan.fft_size_spec() == fft_size,
            plan.num_bands_spec() == num_bands,
            plan.edge_seq() == band_edges_spec(raw_edges@, (fft_size / 2) as usize),
    {
        let nyquist = fft_size / 2;
        let edges = band_edges(raw_edges, nyquist);
        let plan = BandPlan { fft_size, num_bands, edges };
        assert(plan.edge_seq() =~= band_edges_spec(raw_edges@, nyquist));
        plan
    }

    /// The FFT size.
    pub fn fft_size(&self) -> (r: usize)
        ensures
            r == self.fft_size_spec(),
    {
        self.fft_size
    }

    /// The number of bands.
    pub fn num_bands(&self) -> (r: usize)
        ensures
            r == self.num_bands_spec(),
    {
        self.num_bands
    }

    /// Index of the Nyquist bin: the number of positive-frequency magnitudes
    /// that the bands are averaged over.
    pub fn nyquist_bins(&self) -> (r: usize)
        ensures
            r == self.fft_size_spec() / 2,
    {
        self.fft_size / 2
    }

    /// Length of the complex spectrum that a real FFT of this size produces.
    pub fn spectrum_len(&self) -> (r: usize)
        ensures
            r == self.fft_size_spec() / 2 + 1,
    {
        self.fft_size / 2 + 1
    }

    /// The band edges.
    pub fn edges(&self) -> (r: &[usize])
        ensures
            r@.map_values(|e: usize| e as int) == self.edge_seq(),
            r@.len() == self.num_bands_spec() + 1,
    {
        proof {
            use_type_invariant(self);
        }
        self.edges.as_slice()
    }

    /// The range of bins that band `band` averages over, or `None` when the
    /// band holds no bin (its magnitude is then reported as zero).
    pub fn band_range(&self, band: usize) -> (r: Option<(usize, usize)>)
        requires
            band < self.num_bands_spec(),
        ensures
            ({
                let start = self.edge_seq()[band as int];
                let end = self.edge_seq()[band + 1];
                match r {
                    Some((s, e)) => start < end && s == start && e == end,
                    None => end <= start,
                }
            }),
    {
        proof {
            use_type_invariant(self);
        }
        let start = self.edges[band];
        let end = self.edges[band + 1];
        if end > start {
            Some((start, end))
        } else {
            None
        }
    }
}

/// Every band below the last one holds at least one bin: the edges before the
/// last one strictly increase.
pub proof fn lemma_bands_below_last_nonempty(raw: Seq<usize>, nyquist: usize, i: int, j: int)
    requires
        0 <= i < j < raw.len() - 1,
    ensures
        band_edge(raw, nyquist, i) < band_edge(raw, nyquist, j),
{
    lemma_swept_edge_increasing(raw, nyquist, i, j);
}

/// Every band ends at or below the Nyquist bin (so the analyzer reads only
/// positive-frequency magnitudes) exactly when the edge before the last does.
pub proof fn lemma_bands_within_spectrum(raw: Seq<usize>, nyquist: usize)
    requires
        raw.len() >= 2,
    ensures
        band_edge(raw, nyquist, raw.len() - 2) <= nyquist <==> forall|i: int|
            0 < i < raw.len() ==> #[trigger] band_edge(raw, nyquist, i) <= nyquist,
{
    let last = raw.len() - 1;
    if band_edge(raw, nyquist, last - 1) <= nyquist {
        assert forall|i: int| 0 < i < raw.len() implies #[trigger] band_edge(raw, nyquist, i)
            <= nyquist by {
            if i < last - 1 {
                lemma_swept_edge_increasing(raw, nyquist, i, last - 1);
            }
        }
    } else {
        assert(!(band_edge(raw, nyquist, last - 1) <= nyquist));
        if last - 1 == 0 {
            lemma_swept_edge_bounds(raw, nyquist, 0);
        }
    }
}

/// The first and the last edge lie at or below the Nyquist bin, and no edge
/// lies below its clamped raw bin, save that the last one is clamped to the
/// Nyquist bin.
pub proof fn lemma_edge_bounds(raw: Seq<usize>, nyquist: usize, i: int)
    requires
        0 <= i < raw.len(),
    ensures
        band_edge(raw, nyquist, 0) <= nyquist,
        band_edge(raw, nyquist, raw.len() - 1) <= nyquist,
        0 <= band_edge(raw, nyquist, i) <= nyquist + i,
        clamped_bin(raw, nyquist, i) <= band_edge(raw, nyquist, i),
{
    lemma_swept_edge_bounds(raw, nyquist, i);
    lemma_swept_edge_bounds(raw, nyquist, 0);
}

/// Each edge below the last is the least choice that keeps it at or above its
/// clamped raw bin and every band before it non-empty: any sequence with both
/// properties lies at or above the computed edges.
pub proof fn lemma_edges_are_least(raw: Seq<usize>, nyquist: usize, s: Seq<int>, i: int)
    requires
        s.len() == raw.len(),
        0 <= i < raw.len() - 1,
        forall|j: int| 0 <= j < raw.len() - 1 ==> clamped_bin(raw, nyquist, j) <= #[trigger] s[j],
        forall|j: int| 0 <= j < raw.len() - 2 ==> #[trigger] s[j] < s[j + 1],
    ensures
        band_edge(raw, nyquist, i) <= s[i],
    decreases i,
{
    if i > 0 {
        lemma_edges_are_least(raw, nyquist, s, i - 1);
        assert(s[i - 1] < s[i]);
    }
}

/// Edges that already lie at or below the Nyquist bin and strictly increase are
/// left as they are.
pub proof fn lemma_increasing_bins_kept(raw: Seq<usize>, nyquist: usize, i: int)
    requires
        0 <= i < raw.len(),
        forall|j: int| 0 <= j < raw.len() ==> #[trigger] raw[j] <= nyquist,
        forall|j: int| 0 <= j < raw.len() - 1 ==> #[trigger] raw[j] < raw[j + 1],
    ensures
        band_edge(raw, nyquist, i) == raw[i],
    decreases i,
{
    if i > 0 {
        lemma_increasing_bins_kept(raw, nyquist, i - 1);
        assert(raw[i - 1] < raw[i]);
    }
}

proof fn lemma_swept_step(raw: Seq<usize>, nyquist: usize, i: int)
    requires
        0 < i < raw.len(),
    ensures
        swept_edge(raw, nyquist, i) == clamped_bin(raw, nyquist, i) || swept_edge(raw, nyquist, i)
            == swept_edge(raw, nyquist, i - 1) + 1,
        swept_edge(raw, nyquist, i) >= swept_edge(raw, nyquist, i - 1) + 1,
{
}

/// Sweeping the computed edges a second time changes none of them.
pub proof fn lemma_edges_idempotent(raw: Seq<usize>, nyquist: usize, edges: Seq<usize>, i: int)
    requires
        raw.len() >= 1,
        edges.len() == raw.len(),
        forall|j: int| 0 <= j < raw.len() ==> #[trigger] edges[j] as int == band_edge(raw, nyquist, j),
        0 <= i < raw.len(),
    ensures
        band_edge(edges, nyquist, i) == band_edge(raw, nyquist, i),
{
    let last = raw.len() - 1;
    if i < last {
        lemma_swept_prefix_fixed(raw, nyquist, edges, i);
    } else {
        lemma_swept_edge_bounds(raw, nyquist, i);
        if i > 0 {
            lemma_swept_prefix_fixed(raw, nyquist, edges, i - 1);
            lemma_swept_step(raw, nyquist, i);
            assert(edges[i - 1] as int == swept_edge(raw, nyquist, i - 1));
        }
    }
}

proof fn lemma_swept_prefix_fixed(raw: Seq<usize>, nyquist: usize, edges: Seq<usize>, i: int)
    requires
        raw.len() >= 1,
        edges.len() == raw.len(),
        forall|j: int| 0 <= j < raw.len() ==> #[trigger] edges[j] as int == band_edge(raw, nyquist, j),
        0 <= i < raw.len() - 1,
    ensures
        swept_edge(edges, nyquist, i) == swept_edge(raw, nyquist, i),
    decreases i,
{
    assert(edges[i] as int == band_edge(raw, nyquist, i));
    lemma_swept_edge_bounds(raw, nyquist, i);
    if i > 0 {
        lemma_swept_prefix_fixed(raw, nyquist, edges, i - 1);
        lemma_swept_step(raw, nyquist, i);
        assert(edges[i - 1] as int == band_edge(raw, nyquist, i - 1));
    }
}

} // verus!
