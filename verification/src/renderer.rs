//! The geometry of the spectrum display and the drawing of one frame into an
//! RGBA framebuffer.
//!
//! The display has one vertical bar per band, a "cap" line that floats above
//! each bar, and a grey baseline under the graph.  The smoothing of the
//! magnitudes and the motion of the caps are floating-point state kept by the
//! caller; it hands this module each bar's height and each cap's row in
//! pixels.
use vstd::prelude::*;

verus! {

/// Space left and right of the graph, in pixels.
pub const MARGIN: usize = 30;

/// Space between two bars, and between the graph's edges and the outer bars.
pub const GAP: usize = 4;

/// Space under the graph; the baseline is drawn on the first row of it.
pub const BOTTOM_MARGIN: usize = 10;

/// First row of the graph.
pub const GRAPH_TOP: usize = 10;

/// Narrowest bar, in pixels.
pub const MIN_BAR_WIDTH: usize = 2;

/// The display of `num_bands` bars can be laid out in a window of
/// `width` × `height` pixels.
pub open spec fn layout_fits(num_bands: int, width: int, height: int) -> bool {
    &&& num_bands >= 1
    &&& width >= 2 * MARGIN
    &&& height >= BOTTOM_MARGIN + GRAPH_TOP
    &&& GAP * (num_bands + 1) <= width - 2 * MARGIN
}

/// The width that the graph leaves to each bar once the gaps are taken out.
pub open spec fn natural_bar_width(num_bands: int, width: int) -> int {
    (width - 2 * MARGIN - GAP * (num_bands + 1)) / num_bands
}

/// The width of each bar: the natural width, but at least `MIN_BAR_WIDTH`.
pub open spec fn bar_width_for(num_bands: int, width: int) -> int {
    let q = natural_bar_width(num_bands, width);
    if q < MIN_BAR_WIDTH {
        MIN_BAR_WIDTH as int
    } else {
        q
    }
}

/// The layout of the spectrum display in a window.
pub struct SpectrumLayout {
    num_bands: usize,
    width: usize,
    height: usize,
    bar_width: usize,
}

/// What a pixel is painted with.
#[derive(Clone, Copy, Debug, PartialEq, Eq, Structural)]
pub enum Paint {
    Bar,
    Cap,
    Baseline,
}

/// Pixel `p` of a framebuffer `w` pixels wide lies in row `r` of the
/// rectangle whose rows start at column `x` and are `bw` pixels wide.
pub open spec fn row_span_has(w: int, x: int, bw: int, r: int, p: int) -> bool {
    r * w + x <= p < r * w + x + bw
}

/// Pixel `p` lies in the rectangle of rows `r0 .. r1`, starting at column `x`
/// and `bw` pixels wide (a row that runs past the right edge continues on the
/// next row of the framebuffer).
pub open spec fn in_rect(w: int, x: int, bw: int, r0: int, r1: int, p: int) -> bool {
    exists|r: int| r0 <= r < r1 && #[trigger] row_span_has(w, x, bw, r, p)
}

/// Channel `ch` of the colour `(r, g, b, a)`.
pub open spec fn rgba_byte(rgba: (u8, u8, u8, u8), ch: int) -> u8 {
    if ch == 0 {
        rgba.0
    } else if ch == 1 {
        rgba.1
    } else if ch == 2 {
        rgba.2
    } else {
        rgba.3
    }
}

/// Colour of the bars.
pub open spec fn bar_rgba() -> (u8, u8, u8, u8) {
    (102u8, 255u8, 102u8, 255u8)
}

/// Colour of the caps.
pub open spec fn cap_rgba() -> (u8, u8, u8, u8) {
    (255u8, 255u8, 200u8, 255u8)
}

/// Colour of the baseline.
pub open spec fn baseline_rgba() -> (u8, u8, u8, u8) {
    (68u8, 68u8, 68u8, 255u8)
}

/// Byte `ch` of a pixel painted with `paint` (black where nothing is painted).
pub open spec fn paint_byte(paint: Option<Paint>, ch: int) -> u8 {
    match paint {
        None => 0u8,
        Some(Paint::Bar) => rgba_byte(bar_rgba(), ch),
        Some(Paint::Cap) => rgba_byte(cap_rgba(), ch),
        Some(Paint::Baseline) => rgba_byte(baseline_rgba(), ch),
    }
}

impl SpectrumLayout {
    /// Number of bands.
    pub closed spec fn bands(&self) -> int {
        self.num_bands as int
    }

    /// Window width in pixels.
    pub closed spec fn w(&self) -> int {
        self.width as int
    }

    /// Window height in pixels.
    pub closed spec fn h(&self) -> int {
        self.height as int
    }

    /// Bar width in pixels.
    pub closed spec fn bw(&self) -> int {
        self.bar_width as int
    }

    /// The layout is one that `new` makes.
    pub open spec fn wf(&self) -> bool {
        &&& layout_fits(self.bands(), self.w(), self.h())
        &&& self.bw() == bar_width_for(self.bands(), self.w())
    }

    /// Row under the graph (where the baseline lies).
    pub open spec fn gb(&self) -> int {
        self.h() - BOTTOM_MARGIN
    }

    /// Leftmost column of bar `i`.
    pub open spec fn bar_x(&self, i: int) -> int {
        MARGIN + GAP + i * (self.bw() + GAP)
    }

    /// The row of the cap of band `i`, given its raw row `caps[i]`: never
    /// below the graph's last row.
    pub open spec fn cap_top(&self, caps: Seq<usize>, i: int) -> int {
        if caps[i] < self.gb() - 1 {
            caps[i] as int
        } else {
            self.gb() - 1
        }
    }

    /// One past the last row of the cap of band `i`: two rows, cut at the
    /// graph's bottom.
    pub open spec fn cap_end(&self, caps: Seq<usize>, i: int) -> int {
        if self.cap_top(caps, i) + 2 < self.gb() {
            self.cap_top(caps, i) + 2
        } else {
            self.gb()
        }
    }

    /// Pixel `p` lies in the bar of band `i`.
    pub open spec fn in_bar(&self, bars: Seq<usize>, i: int, p: int) -> bool {
        in_rect(self.w(), self.bar_x(i), self.bw(), self.gb() - bars[i], self.gb(), p)
    }

    /// Pixel `p` lies in the cap of band `i`.
    pub open spec fn in_cap(&self, caps: Seq<usize>, i: int, p: int) -> bool {
        in_rect(self.w(), self.bar_x(i), self.bw(), self.cap_top(caps, i), self.cap_end(caps, i), p)
    }

    /// Pixel `p` lies on the baseline.
    pub open spec fn in_baseline(&self, p: int) -> bool {
        in_rect(self.w(), MARGIN as int, self.w() - 2 * MARGIN, self.gb(), self.gb() + 1, p)
    }

    /// The paint of pixel `p` once bands `0 .. upto` are drawn, each band's cap
    /// over its bar and each band over the ones before it.
    pub open spec fn band_paint(&self, bars: Seq<usize>, caps: Seq<usize>, upto: int, p: int) -> Option<
        Paint,
    >
        decreases upto,
    {
        if upto <= 0 {
            None
        } else if self.in_cap(caps, upto - 1, p) {
            Some(Paint::Cap)
        } else if self.in_bar(bars, upto - 1, p) {
            Some(Paint::Bar)
        } else {
            self.band_paint(bars, caps, upto - 1, p)
        }
    }

    /// The paint of pixel `p` in the finished frame: the baseline over all
    /// bands.
    pub open spec fn pixel_paint(&self, bars: Seq<usize>, caps: Seq<usize>, p: int) -> Option<Paint> {
        if self.in_baseline(p) {
            Some(Paint::Baseline)
        } else {
            self.band_paint(bars, caps, self.bands(), p)
        }
    }

    /// Byte `k` of the finished frame.
    pub open spec fn drawn_byte(&self, bars: Seq<usize>, caps: Seq<usize>, k: int) -> u8 {
        paint_byte(self.pixel_paint(bars, caps, k / 4), k % 4)
    }

    /// Heights and cap rows that `draw` accepts for this layout.
    pub open spec fn accepts(&self, bars: Seq<usize>, caps: Seq<usize>) -> bool {
        &&& bars.len() == self.bands()
        &&& caps.len() == self.bands()
        &&& forall|i: int| 0 <= i < bars.len() ==> #[trigger] bars[i] <= self.gb()
    }

    /// One past the last pixel that a drawing paints: the end of the
    /// baseline.
    pub open spec fn painted_end(&self) -> int {
        self.gb() * self.w() + self.w() - MARGIN
    }

    /// Lays out `num_bands` bars in a window of `width` × `height` pixels;
    /// `None` when they do not fit.
    pub fn new(num_bands: usize, width: usize, height: usize) -> (r: Option<SpectrumLayout>)
        ensures
            r is Some <==> layout_fits(num_bands as int, width as int, height as int),
            r matches Some(l) ==> {
                &&& l.wf()
                &&& l.bands() == num_bands
                &&& l.w() == width
                &&& l.h() == height
            },
    {
        if num_bands == 0 || width < 2 * MARGIN || height < BOTTOM_MARGIN + GRAPH_TOP {
            return None;
        }
        let graph_width = width - 2 * MARGIN;
        if num_bands >= graph_width / GAP {
            return None;
        }
        let gaps = GAP * (num_bands + 1);
        if gaps > graph_width {
            return None;
        }
        let natural = (graph_width - gaps) / num_bands;
        let bar_width = if natural < MIN_BAR_WIDTH {
            MIN_BAR_WIDTH
        } else {
            natural
        };
        Some(SpectrumLayout { num_bands, width, height, bar_width })
    }

    /// Number of bands.
    pub fn num_bands(&self) -> (r: usize)
        ensures
            r == self.bands(),
    {
        self.num_bands
    }

    /// Window width.
    pub fn width(&self) -> (r: usize)
        ensures
            r == self.w(),
    {
        self.width
    }

    /// Window height.
    pub fn height(&self) -> (r: usize)
        ensures
            r == self.h(),
    {
        self.height
    }

    /// Bar width.
    pub fn bar_width(&self) -> (r: usize)
        ensures
            r == self.bw(),
    {
        self.bar_width
    }

    /// Row under the graph: bars end just above it.
    pub fn graph_bottom(&self) -> (r: usize)
        requires
            self.wf(),
        ensures
            r == self.gb(),
    {
        self.height - BOTTOM_MARGIN
    }

    /// Height of the graph: a bar of full magnitude is this tall.
    pub fn graph_height(&self) -> (r: usize)
        requires
            self.wf(),
        ensures
            r == self.h() - BOTTOM_MARGIN - GRAPH_TOP,
    {
        self.height - BOTTOM_MARGIN - GRAPH_TOP
    }

    /// Leftmost column of bar `i`.
    fn bar_left(&self, i: usize) -> (r: usize)
        requires
            self.wf(),
            i < self.bands(),
            2 * self.w() <= usize::MAX,
        ensures
            r == self.bar_x(i as int),
    {
        proof {
            self.lemma_bar_reach(i as int);
        }
        MARGIN + GAP + i * (self.bar_width + GAP)
    }

    /// Every bar starts after the left margin and ends before the column
    /// where the baseline ends on the next row.
    proof fn lemma_bar_reach(&self, i: int)
        requires
            self.wf(),
            0 <= i < self.bands(),
        ensures
            MARGIN + GAP <= self.bar_x(i),
            self.bar_x(i) + self.bw() <= 2 * self.w() - MARGIN,
            self.bw() >= MIN_BAR_WIDTH,
            self.bw() <= self.w(),
    {
        let n = self.bands();
        let w = self.w();
        let bw = self.bw();
        let d = w - 2 * MARGIN - GAP * (n + 1);
        let q = natural_bar_width(n, w);
        assert(q * n <= d && q >= 0) by (nonlinear_arith)
            requires
                q == d / n,
                n >= 1,
                d >= 0,
        ;
        assert(i * (bw + GAP) <= (n - 1) * (bw + GAP)) by (nonlinear_arith)
            requires
                0 <= i < n,
                bw >= 0,
        ;
        assert(0 <= i * (bw + GAP)) by (nonlinear_arith)
            requires
                0 <= i,
                bw >= 0,
        ;
        assert((n - 1) * (bw + GAP) + bw == n * bw + GAP * n - GAP) by (nonlinear_arith);
        if q < MIN_BAR_WIDTH {
            assert(n * bw == 2 * n) by (nonlinear_arith)
                requires
                    bw == 2,
            ;
        } else {
            assert(n * bw == q * n) by (nonlinear_arith)
                requires
                    bw == q,
            ;
        }
        assert(bw <= w) by (nonlinear_arith)
            requires
                q * n <= d,
                n >= 1,
                q >= 0,
                d <= w,
                bw == (if q < 2 { 2 } else { q }),
                w >= 60,
        ;
    }

    /// Draws the frame: clears it to black, draws each band's bar and then its
    /// cap, band by band, and draws the baseline last.
    ///
    /// `frame` is the window's RGBA framebuffer (four bytes per pixel, rows of
    /// `width` pixels); `bars[i]` is the height of bar `i` in pixels and
    /// `caps[i]` the raw row of its cap.
    pub fn draw(&self, frame: &mut [u8], bars: &[usize], caps: &[usize])
        requires
            self.wf(),
            self.accepts(bars@, caps@),
            old(frame)@.len() >= 4 * self.painted_end(),
        ensures
            final(frame)@.len() == old(frame)@.len(),
            forall|k: int|
                0 <= k < final(frame)@.len() ==> #[trigger] final(frame)@[k] == self.drawn_byte(
                    bars@,
                    caps@,
                    k,
                ),
    {
        let len = frame.len();
        let mut k: usize = 0;
        while k < len
            invariant
                len == frame@.len(),
                k <= len,
                forall|j: int| 0 <= j < k ==> #[trigger] frame@[j] == 0u8,
            decreases len - k,
        {
            frame[k] = 0;
            k = k + 1;
        }
        let w = self.width;
        let bw = self.bar_width;
        let gb = self.graph_bottom();
        let n = self.num_bands;
        proof {
            assert forall|j: int| 0 <= j < len implies #[trigger] frame@[j] == paint_byte(
                self.band_paint(bars@, caps@, 0, j / 4),
                j % 4,
            ) by {}
            assert(2 * self.w() <= self.gb() * self.w()) by (nonlinear_arith)
                requires
                    self.gb() >= 10,
                    self.w() >= 0,
            ;
        }
        let mut i: usize = 0;
        while i < n
            invariant
                self.wf(),
                self.accepts(bars@, caps@),
                len == frame@.len(),
                len >= 4 * self.painted_end(),
                2 * self.w() <= usize::MAX,
                n == self.bands(),
                w == self.w(),
                bw == self.bw(),
                gb == self.gb(),
                i <= n,
                forall|j: int|
                    0 <= j < len ==> #[trigger] frame@[j] == paint_byte(
                        self.band_paint(bars@, caps@, i as int, j / 4),
                        j % 4,
                    ),
            decreases n - i,
        {
            proof {
                self.lemma_bar_reach(i as int);
                assert((gb - 1) * w + self.bar_x(i as int) + bw <= gb * w + w - MARGIN) by (nonlinear_arith)
                    requires
                        self.bar_x(i as int) + bw <= 2 * w - MARGIN,
                        gb >= 10,
                        w >= 0,
                ;
            }
            let x = self.bar_left(i);
            let bar_top = gb - bars[i];
            let ghost before = frame@;
            paint_rect(frame, w, x, bw, bar_top, gb, (102u8, 255u8, 102u8, 255u8));
            let cap_top = if caps[i] < gb - 1 {
                caps[i]
            } else {
                gb - 1
            };
            let cap_end = if cap_top + 2 < gb {
                cap_top + 2
            } else {
                gb
            };
            proof {
                assert((cap_end - 1) * w <= (gb - 1) * w) by (nonlinear_arith)
                    requires
                        cap_end <= gb,
                        1 <= cap_end,
                        w >= 0,
                ;
            }
            let ghost middle = frame@;
            paint_rect(frame, w, x, bw, cap_top, cap_end, (255u8, 255u8, 200u8, 255u8));
            proof {
                assert forall|j: int| 0 <= j < len implies #[trigger] frame@[j] == paint_byte(
                    self.band_paint(bars@, caps@, i + 1, j / 4),
                    j % 4,
                ) by {
                    assert(before[j] == paint_byte(self.band_paint(bars@, caps@, i as int, j / 4), j % 4));
                    assert(middle[j] == (if self.in_bar(bars@, i as int, j / 4) {
                        rgba_byte(bar_rgba(), j % 4)
                    } else {
                        before[j]
                    }));
                }
            }
            i = i + 1;
        }
        let ghost before = frame@;
        paint_rect(frame, w, MARGIN, w - 2 * MARGIN, gb, gb + 1, (68u8, 68u8, 68u8, 255u8));
        proof {
            assert forall|j: int| 0 <= j < len implies #[trigger] frame@[j] == self.drawn_byte(
                bars@,
                caps@,
                j,
            ) by {
                assert(before[j] == paint_byte(self.band_paint(bars@, caps@, n as int, j / 4), j % 4));
            }
        }
    }

    /// Draws the frame when `draw` accepts the heights, the cap rows and the
    /// framebuffer's size, and returns whether it did; the frame is left
    /// untouched when it did not.
    pub fn try_draw(&self, frame: &mut [u8], bars: &[usize], caps: &[usize]) -> (drawn: bool)
        requires
            self.wf(),
        ensures
            drawn <==> (self.accepts(bars@, caps@) && old(frame)@.len() >= 4 * self.painted_end()),
            drawn ==> forall|k: int|
                0 <= k < final(frame)@.len() ==> #[trigger] final(frame)@[k] == self.drawn_byte(
                    bars@,
                    caps@,
                    k,
                ),
            !drawn ==> final(frame)@ == old(frame)@,
            final(frame)@.len() == old(frame)@.len(),
    {
        let n = self.num_bands;
        let flen = frame.len();
        if bars.len() != n || caps.len() != n {
            return false;
        }
        let gb = self.graph_bottom();
        let mut i: usize = 0;
        while i < n
            invariant
                self.wf(),
                n == self.bands(),
                gb == self.gb(),
                bars@.len() == n,
                i <= n,
                forall|j: int| 0 <= j < i ==> #[trigger] bars@[j] <= gb,
            decreases n - i,
        {
            if bars[i] > gb {
                return false;
            }
            i = i + 1;
        }
        let rows = match gb.checked_mul(self.width) {
            Some(p) => p,
            None => {
                return false;
            },
        };
        if flen / 4 < rows {
            return false;
        }
        assert(self.w() <= rows) by (nonlinear_arith)
            requires
                rows == self.gb() * self.w(),
                self.gb() >= 10,
                self.w() >= 0,
        ;
        let pixels = rows + (self.width - MARGIN);
        if flen / 4 < pixels {
            return false;
        }
        self.draw(frame, bars, caps);
        true
    }
}

/// Drawing ends with the baseline: no pixel at or past `painted_end` is
/// painted (so every byte from `4 * painted_end` on is left black, and the
/// frame needs no more bytes than that), while the baseline's last pixel,
/// just before it, is painted; and `painted_end` lies inside the window.
pub proof fn lemma_drawing_ends_at_baseline(
    l: SpectrumLayout,
    bars: Seq<usize>,
    caps: Seq<usize>,
    p: int,
)
    requires
        l.wf(),
        l.accepts(bars, caps),
        p >= l.painted_end(),
    ensures
        l.pixel_paint(bars, caps, p) is None,
        l.pixel_paint(bars, caps, l.painted_end() - 1) == Some(Paint::Baseline),
        l.painted_end() <= l.w() * l.h(),
{
    let w = l.w();
    let gb = l.gb();
    assert forall|r: int| r <= gb implies !#[trigger] row_span_has(
        w,
        MARGIN as int,
        w - 2 * MARGIN,
        r,
        p,
    ) by {
        assert(r * w <= gb * w) by (nonlinear_arith)
            requires
                r <= gb,
                w >= 0,
        ;
    }
    assert(row_span_has(w, MARGIN as int, w - 2 * MARGIN, gb, l.painted_end() - 1));
    assert(gb * w + w <= l.w() * l.h()) by (nonlinear_arith)
        requires
            gb + 1 <= l.h(),
            w == l.w(),
            w >= 0,
    ;
    lemma_no_band_paint_outside(l, bars, caps, l.bands(), p);
}

proof fn lemma_no_band_paint_outside(
    l: SpectrumLayout,
    bars: Seq<usize>,
    caps: Seq<usize>,
    upto: int,
    p: int,
)
    requires
        l.wf(),
        l.accepts(bars, caps),
        upto <= l.bands(),
        p >= l.painted_end(),
    ensures
        l.band_paint(bars, caps, upto, p) is None,
    decreases upto,
{
    if upto > 0 {
        let i = upto - 1;
        let w = l.w();
        let gb = l.gb();
        l.lemma_bar_reach(i);
        assert forall|r: int| r < gb implies !#[trigger] row_span_has(w, l.bar_x(i), l.bw(), r, p) by {
            assert(r * w + l.bar_x(i) + l.bw() <= gb * w + w - MARGIN) by (nonlinear_arith)
                requires
                    r < gb,
                    l.bar_x(i) + l.bw() <= 2 * w - MARGIN,
                    w >= 0,
            ;
        }
        lemma_no_band_paint_outside(l, bars, caps, upto - 1, p);
    }
}

/// When the graph leaves each bar its natural width of at least
/// `MIN_BAR_WIDTH` pixels, every bar lies inside the graph, a gap from its
/// edges, and consecutive bars are one gap apart.
pub proof fn lemma_bars_inside_graph(l: SpectrumLayout, i: int)
    requires
        l.wf(),
        natural_bar_width(l.bands(), l.w()) >= MIN_BAR_WIDTH,
        0 <= i < l.bands(),
    ensures
        MARGIN + GAP <= l.bar_x(i),
        l.bar_x(i) + l.bw() + GAP <= l.w() - MARGIN,
        i + 1 < l.bands() ==> l.bar_x(i + 1) == l.bar_x(i) + l.bw() + GAP,
{
    let n = l.bands();
    let w = l.w();
    let bw = l.bw();
    let d = w - 2 * MARGIN - GAP * (n + 1);
    assert(bw * n <= d) by (nonlinear_arith)
        requires
            bw == d / n,
            n >= 1,
            d >= 0,
    ;
    assert(i * (bw + GAP) <= (n - 1) * (bw + GAP)) by (nonlinear_arith)
        requires
            0 <= i < n,
            bw >= 0,
    ;
    assert(0 <= i * (bw + GAP)) by (nonlinear_arith)
        requires
            0 <= i,
            bw >= 0,
    ;
    assert((n - 1) * (bw + GAP) + bw == bw * n + GAP * n - GAP) by (nonlinear_arith);
    assert((i + 1) * (bw + GAP) == i * (bw + GAP) + bw + GAP) by (nonlinear_arith);
}

/// A cap is a line two pixels high inside the graph, cut to one pixel when it
/// rests on the graph's last row.
pub proof fn lemma_cap_shape(l: SpectrumLayout, caps: Seq<usize>, i: int)
    requires
        l.wf(),
        0 <= i < caps.len(),
    ensures
        0 <= l.cap_top(caps, i) < l.cap_end(caps, i) <= l.gb(),
        l.cap_end(caps, i) - l.cap_top(caps, i) == (if l.cap_top(caps, i) + 2 <= l.gb() {
            2int
        } else {
            1int
        }),
        caps[i] < l.gb() ==> l.cap_top(caps, i) == caps[i],
{
}

/// Where a cap lies: its first row is its raw row or, when the raw row lies at
/// or below the graph's last row, that last row; it covers two rows, cut at
/// the graph's bottom.  So a cap at rest (raw row at or past the last row) is
/// exactly the bar's span on the graph's last row.
pub proof fn lemma_cap_rows(l: SpectrumLayout, caps: Seq<usize>, i: int)
    requires
        l.wf(),
        0 <= i < caps.len(),
    ensures
        forall|p: int|
            l.in_cap(caps, i, p) <==> exists|r: int|
                vstd::math::min(caps[i] as int, l.gb() - 1) <= r < vstd::math::min(
                    vstd::math::min(caps[i] as int, l.gb() - 1) + 2,
                    l.gb(),
                ) && #[trigger] row_span_has(l.w(), l.bar_x(i), l.bw(), r, p),
        caps[i] >= l.gb() - 1 ==> forall|p: int|
            l.in_cap(caps, i, p) <==> #[trigger] row_span_has(
                l.w(),
                l.bar_x(i),
                l.bw(),
                l.gb() - 1,
                p,
            ),
{
    let gb = l.gb();
    assert(l.cap_top(caps, i) == vstd::math::min(caps[i] as int, gb - 1));
    assert(l.cap_end(caps, i) == vstd::math::min(l.cap_top(caps, i) + 2, gb));
    if caps[i] >= gb - 1 {
        assert forall|p: int| l.in_cap(caps, i, p) <==> #[trigger] row_span_has(
            l.w(),
            l.bar_x(i),
            l.bw(),
            gb - 1,
            p,
        ) by {
            if row_span_has(l.w(), l.bar_x(i), l.bw(), gb - 1, p) {
                assert(l.cap_top(caps, i) <= gb - 1 < l.cap_end(caps, i));
            }
            if l.in_cap(caps, i, p) {
                let r = choose|r: int|
                    l.cap_top(caps, i) <= r < l.cap_end(caps, i) && #[trigger] row_span_has(
                        l.w(),
                        l.bar_x(i),
                        l.bw(),
                        r,
                        p,
                    );
                assert(r == gb - 1);
            }
        }
    }
}

/// The colours: bars (102, 255, 102), caps (255, 255, 200), the baseline
/// (68, 68, 68), all opaque; unpainted pixels are all zero.
pub proof fn lemma_paint_colours(ch: int)
    requires
        0 <= ch < 4,
    ensures
        paint_byte(None, ch) == 0,
        paint_byte(Some(Paint::Bar), ch) == (if ch == 0 || ch == 2 {
            102u8
        } else {
            255u8
        }),
        paint_byte(Some(Paint::Cap), ch) == (if ch == 2 {
            200u8
        } else {
            255u8
        }),
        paint_byte(Some(Paint::Baseline), ch) == (if ch == 3 {
            255u8
        } else {
            68u8
        }),
{
}

/// The baseline is the row under the graph, from the left margin to the right
/// margin.
pub proof fn lemma_baseline_span(l: SpectrumLayout, p: int)
    requires
        l.wf(),
    ensures
        l.in_baseline(p) <==> (l.h() - 10) * l.w() + 30 <= p < (l.h() - 10) * l.w() + l.w() - 30,
{
    if (l.h() - 10) * l.w() + 30 <= p < (l.h() - 10) * l.w() + l.w() - 30 {
        assert(row_span_has(l.w(), MARGIN as int, l.w() - 2 * MARGIN, l.gb(), p));
    }
}

/// Bar `i` starts at column `34 + i * (bar width + 4)` and covers the
/// `bars[i]` rows just above the graph's bottom row `height - 10`.
pub proof fn lemma_bar_rows(l: SpectrumLayout, bars: Seq<usize>, i: int, p: int)
    requires
        l.wf(),
        0 <= i < bars.len(),
    ensures
        l.bar_x(i) == 34 + i * (l.bw() + 4),
        l.in_bar(bars, i, p) <==> exists|r: int|
            l.h() - 10 - bars[i] <= r < l.h() - 10 && #[trigger] row_span_has(
                l.w(),
                34 + i * (l.bw() + 4),
                l.bw(),
                r,
                p,
            ),
{
}

/// The bar width is the largest width that fits the bars and their gaps in
/// the graph (the window less 30 pixels on each side), but never under 2.
pub proof fn lemma_bar_width_fits(l: SpectrumLayout)
    requires
        l.wf(),
    ensures
        l.bw() >= 2,
        l.bw() > 2 ==> l.bw() * l.bands() + 4 * (l.bands() + 1) <= l.w() - 60,
        (l.bw() + 1) * l.bands() + 4 * (l.bands() + 1) > l.w() - 60,
{
    let n = l.bands();
    let d = l.w() - 60 - 4 * (n + 1);
    let q = natural_bar_width(n, l.w());
    assert(q * n <= d < (q + 1) * n) by (nonlinear_arith)
        requires
            q == d / n,
            n >= 1,
            d >= 0,
    ;
    if q < 2 {
        assert((l.bw() + 1) * n > d) by (nonlinear_arith)
            requires
                l.bw() == 2,
                q < 2,
                d < (q + 1) * n,
                n >= 1,
        ;
    } else {
        assert(l.bw() * n == q * n);
        assert((l.bw() + 1) * n == (q + 1) * n);
    }
}

/// How the layers stack: the baseline is over everything; off the baseline,
/// the last band's cap is over its bar, which is over the bands before it;
/// a pixel in no region stays unpainted.
pub proof fn lemma_paint_layers(l: SpectrumLayout, bars: Seq<usize>, caps: Seq<usize>, p: int)
    requires
        l.wf(),
        l.accepts(bars, caps),
    ensures
        l.in_baseline(p) ==> l.pixel_paint(bars, caps, p) == Some(Paint::Baseline),
        !l.in_baseline(p) && l.in_cap(caps, l.bands() - 1, p) ==> l.pixel_paint(bars, caps, p)
            == Some(Paint::Cap),
        !l.in_baseline(p) && !l.in_cap(caps, l.bands() - 1, p) && l.in_bar(bars, l.bands() - 1, p)
            ==> l.pixel_paint(bars, caps, p) == Some(Paint::Bar),
        (forall|i: int| 0 <= i < l.bands() ==> !l.in_cap(caps, i, p) && !l.in_bar(bars, i, p))
            && !l.in_baseline(p) ==> l.pixel_paint(bars, caps, p) is None,
{
    if (forall|i: int| 0 <= i < l.bands() ==> !l.in_cap(caps, i, p) && !l.in_bar(bars, i, p)) {
        lemma_unpainted_bands(l, bars, caps, l.bands(), p);
    }
}

proof fn lemma_unpainted_bands(
    l: SpectrumLayout,
    bars: Seq<usize>,
    caps: Seq<usize>,
    upto: int,
    p: int,
)
    requires
        upto <= l.bands(),
        forall|i: int| 0 <= i < l.bands() ==> !l.in_cap(caps, i, p) && !l.in_bar(bars, i, p),
    ensures
        l.band_paint(bars, caps, upto, p) is None,
    decreases upto,
{
    if upto > 0 {
        assert(!l.in_cap(caps, upto - 1, p) && !l.in_bar(bars, upto - 1, p));
        lemma_unpainted_bands(l, bars, caps, upto - 1, p);
    }
}

proof fn lemma_rect_empty(w: int, x: int, bw: int, r0: int, p: int)
    ensures
        !in_rect(w, x, bw, r0, r0, p),
{
}

proof fn lemma_rect_grow(w: int, x: int, bw: int, r0: int, r: int, p: int)
    requires
        r0 <= r,
    ensures
        in_rect(w, x, bw, r0, r + 1, p) <==> (in_rect(w, x, bw, r0, r, p) || row_span_has(
            w,
            x,
            bw,
            r,
            p,
        )),
{
    if row_span_has(w, x, bw, r, p) {
        assert(r0 <= r < r + 1 && row_span_has(w, x, bw, r, p));
    }
    if in_rect(w, x, bw, r0, r, p) {
        let rr = choose|rr: int| r0 <= rr < r && #[trigger] row_span_has(w, x, bw, rr, p);
        assert(r0 <= rr < r + 1 && row_span_has(w, x, bw, rr, p));
    }
    if in_rect(w, x, bw, r0, r + 1, p) {
        let rr = choose|rr: int| r0 <= rr < r + 1 && #[trigger] row_span_has(w, x, bw, rr, p);
        if rr < r {
            assert(r0 <= rr < r && row_span_has(w, x, bw, rr, p));
        }
    }
}

proof fn lemma_byte_of_pixel(k: int, p: int)
    requires
        0 <= k,
    ensures
        (4 * p <= k < 4 * p + 4) <==> k / 4 == p,
        (4 * p <= k < 4 * p + 4) ==> k % 4 == k - 4 * p,
{
}

/// Paints the rectangle of rows `r0 .. r1`, `bw` pixels wide from column `x`,
/// with the colour `rgba`.
fn paint_rect(
    frame: &mut [u8],
    w: usize,
    x: usize,
    bw: usize,
    r0: usize,
    r1: usize,
    rgba: (u8, u8, u8, u8),
)
    requires
        r0 < r1 && bw > 0 ==> ((r1 - 1) * w + x + bw) * 4 <= old(frame)@.len(),
    ensures
        final(frame)@.len() == old(frame)@.len(),
        forall|k: int|
            0 <= k < final(frame)@.len() ==> #[trigger] final(frame)@[k] == if in_rect(
                w as int,
                x as int,
                bw as int,
                r0 as int,
                r1 as int,
                k / 4,
            ) {
                rgba_byte(rgba, k % 4)
            } else {
                old(frame)@[k]
            },
{
    let ghost start = frame@;
    let len = frame.len();
    let mut row = r0;
    while row < r1
        invariant
            len == frame@.len(),
            start.len() == len,
            r0 <= row <= r1 || r1 <= r0 == row,
            r0 < r1 && bw > 0 ==> ((r1 - 1) * w + x + bw) * 4 <= len,
            forall|k: int|
                0 <= k < len ==> #[trigger] frame@[k] == if in_rect(
                    w as int,
                    x as int,
                    bw as int,
                    r0 as int,
                    row as int,
                    k / 4,
                ) {
                    rgba_byte(rgba, k % 4)
                } else {
                    start[k]
                },
        decreases r1 - row,
    {
        let mut col: usize = 0;
        while col < bw
            invariant
                len == frame@.len(),
                start.len() == len,
                r0 <= row < r1,
                col <= bw,
                bw > 0 ==> ((r1 - 1) * w + x + bw) * 4 <= len,
                forall|k: int|
                    0 <= k < len ==> #[trigger] frame@[k] == if in_rect(
                        w as int,
                        x as int,
                        bw as int,
                        r0 as int,
                        row as int,
                        k / 4,
                    ) || (row * w + x <= k / 4 < row * w + x + col) {
                        rgba_byte(rgba, k % 4)
                    } else {
                        start[k]
                    },
            decreases bw - col,
        {
            proof {
                assert((row * w + x + col + 1) * 4 <= len) by (nonlinear_arith)
                    requires
                        row <= r1 - 1,
                        col < bw,
                        ((r1 - 1) * w + x + bw) * 4 <= len,
                        w >= 0,
                ;
            }
            let p = row * w + x + col;
            let base = p * 4;
            let ghost prev = frame@;
            frame[base] = rgba.0;
            frame[base + 1] = rgba.1;
            frame[base + 2] = rgba.2;
            frame[base + 3] = rgba.3;
            proof {
                assert forall|k: int| 0 <= k < len implies #[trigger] frame@[k] == if in_rect(
                    w as int,
                    x as int,
                    bw as int,
                    r0 as int,
                    row as int,
                    k / 4,
                ) || (row * w + x <= k / 4 < row * w + x + col + 1) {
                    rgba_byte(rgba, k % 4)
                } else {
                    start[k]
                } by {
                    lemma_byte_of_pixel(k, p as int);
                    if base <= k < base + 4 {
                    } else {
                        assert(frame@[k] == prev[k]);
                    }
                }
            }
            col = col + 1;
        }
        proof {
            assert forall|k: int| 0 <= k < len implies #[trigger] frame@[k] == if in_rect(
                w as int,
                x as int,
                bw as int,
                r0 as int,
                row + 1,
                k / 4,
            ) {
                rgba_byte(rgba, k % 4)
            } else {
                start[k]
            } by {
                lemma_rect_grow(w as int, x as int, bw as int, r0 as int, row as int, k / 4);
            }
        }
        row = row + 1;
    }
    proof {
        assert forall|k: int| 0 <= k < len implies #[trigger] frame@[k] == if in_rect(
            w as int,
            x as int,
            bw as int,
            r0 as int,
            r1 as int,
            k / 4,
        ) {
            rgba_byte(rgba, k % 4)
        } else {
            start[k]
        } by {
            if r1 <= r0 {
                lemma_rect_empty(w as int, x as int, bw as int, r0 as int, k / 4);
                assert forall|r: int| !(r0 <= r < r1 && #[trigger] row_span_has(w as int, x as int, bw as int, r, k / 4)) by {}
            }
        }
    }
}

} // verus!
