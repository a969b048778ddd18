//! The sheet of paper found in a photograph, as the integer measurements read it: a
//! box to cut to, and a mask of which pixels are paper on the shrunk copy the search
//! ran on.

use vstd::prelude::*;
use super::levels::{self, Levels};

verus! {

/// A box inside an image, in pixels from the top left corner: the same four numbers
/// a crop takes, so a found sheet can be handed straight to it.
#[derive(Debug, Clone, Copy, PartialEq, Eq, Structural)]
pub struct Rect {
    pub x: u32,
    pub y: u32,
    pub width: u32,
    pub height: u32,
}

/// Which pixels of a photograph are on the sheet, and the box that holds it.
///
/// The mask is `width` by `height` pixels of the shrunk copy the search ran on; the
/// photograph itself is `image_width` by `image_height`.
pub struct SheetMask {
    /// The smallest box, in the full sized photograph, that holds the whole sheet.
    pub bounds: Rect,
    /// Which pixels of the shrunk copy are paper, row by row.
    pub on_paper: Vec<bool>,
    /// The size of the shrunk copy.
    pub width: u32,
    pub height: u32,
    /// The size of the full sized photograph.
    pub image_width: u32,
    pub image_height: u32,
}

impl SheetMask {
    /// The mask's shape holds together: at least one pixel each way, one entry per
    /// pixel, and every pixel numbered within a `u32`.
    pub open spec fn wf(&self) -> bool {
        &&& 1 <= self.width
        &&& 1 <= self.height
        &&& self.width * self.height <= u32::MAX
        &&& self.on_paper@.len() == self.width * self.height
    }

    /// Whether pixel (`x`, `y`) of the mask is paper.
    pub open spec fn on(&self, x: int, y: int) -> bool {
        self.on_paper@[y * self.width + x]
    }

    /// Whether column `x` of the mask is paper in its top or its bottom row.
    pub open spec fn top_or_bottom(&self, x: int) -> bool {
        self.on(x, 0) || self.on(x, self.height - 1)
    }

    /// Whether row `y` of the mask is paper in its first or its last column.
    pub open spec fn left_or_right(&self, y: int) -> bool {
        self.on(0, y) || self.on(self.width - 1, y)
    }

    /// The column of the mask that column `x` of the photograph falls into.
    pub open spec fn column_of(&self, x: int) -> int {
        let c = x * self.width / (if self.image_width > 1 { self.image_width as int } else { 1 });
        if c < self.width - 1 {
            c
        } else {
            self.width - 1
        }
    }

    /// The row of the mask that row `y` of the photograph falls into.
    pub open spec fn row_of(&self, y: int) -> int {
        let r = y * self.height / (if self.image_height > 1 { self.image_height as int } else { 1 });
        if r < self.height - 1 {
            r
        } else {
            self.height - 1
        }
    }

    /// Builds the mask, or nothing when its shape does not hold together.
    pub fn new(bounds: Rect, on_paper: Vec<bool>, width: u32, height: u32, image_width: u32, image_height: u32) -> (m: Option<SheetMask>)
        ensures
            m matches Some(s) ==> s.wf() && s.bounds == bounds && s.on_paper@ == on_paper@ && s.width
                == width && s.height == height && s.image_width == image_width && s.image_height
                == image_height,
            m is None <==> !(1 <= width && 1 <= height && width * height <= u32::MAX
                && on_paper@.len() == width * height),
    {
        proof {
            assert((width as u64) * (height as u64) <= u64::MAX) by (nonlinear_arith)
                requires
                    width <= u32::MAX,
                    height <= u32::MAX,
            ;
        }
        if width == 0 || height == 0 || (width as u64) * (height as u64) > u32::MAX as u64 {
            return None;
        }
        if on_paper.len() as u64 != (width as u64) * (height as u64) {
            return None;
        }
        Some(SheetMask { bounds, on_paper, width, height, image_width, image_height })
    }

    /// Whether the pixel at these coordinates of the full sized photograph is on the
    /// sheet. The search ran on a shrunk copy, so this answers to within a few pixels
    /// along the edge of the sheet.
    pub fn contains(&self, x: u32, y: u32) -> (b: bool)
        requires
            self.wf(),
            x * self.width <= u32::MAX,
            y * self.height <= u32::MAX,
        ensures
            b == self.on(self.column_of(x as int), self.row_of(y as int)),
            b == self.on_paper@[self.row_of(y as int) * self.width + self.column_of(x as int)],
    {
        let across = if self.image_width > 1 { self.image_width } else { 1 };
        let down = if self.image_height > 1 { self.image_height } else { 1 };
        let mut column = x * self.width / across;
        if column > self.width - 1 {
            column = self.width - 1;
        }
        let mut row = y * self.height / down;
        if row > self.height - 1 {
            row = self.height - 1;
        }
        proof {
            assert(row * self.width + column < self.width * self.height) by (nonlinear_arith)
                requires
                    row < self.height,
                    column < self.width,
            ;
        }
        self.on_paper[(row * self.width + column) as usize]
    }

    /// The mask is read row by row, as the search lays it out: pixel (`x`, `y`) is
    /// entry `y * width + x`, the top row is the first `width` entries and the
    /// bottom row the last, and each row's first and last columns stand `width - 1`
    /// entries apart.
    pub proof fn lemma_mask_is_row_by_row(m: SheetMask, x: int, y: int)
        requires
            m.wf(),
            0 <= x < m.width,
            0 <= y < m.height,
        ensures
            m.on(x, y) == m.on_paper@[y * m.width + x],
            m.top_or_bottom(x) == (m.on_paper@[x] || m.on_paper@[(m.height - 1) * m.width + x]),
            m.left_or_right(y) == (m.on_paper@[y * m.width] || m.on_paper@[y * m.width + m.width - 1]),
    {
    }

    /// Whether the sheet runs off the edge of the photo: some pixel of the mask's
    /// border is paper.
    pub fn runs_off_the_picture(&self) -> (b: bool)
        requires
            self.wf(),
        ensures
            b == ((exists|x: int| 0 <= x < self.width && #[trigger] self.top_or_bottom(x)) || (exists|y: int|
                0 <= y < self.height && #[trigger] self.left_or_right(y))),
    {
        let mut x: u32 = 0;
        while x < self.width
            invariant
                self.wf(),
                x <= self.width,
                forall|i: int| 0 <= i < x ==> !#[trigger] self.top_or_bottom(i),
            decreases self.width - x,
        {
            proof {
                assert((self.height - 1) * self.width + x < self.width * self.height) by (nonlinear_arith)
                    requires
                        x < self.width,
                        1 <= self.height,
                ;
            }
            if self.on_paper[x as usize] || self.on_paper[((self.height - 1) * self.width + x) as usize] {
                proof {
                    assert(self.top_or_bottom(x as int));
                }
                return true;
            }
            x = x + 1;
        }
        let mut y: u32 = 0;
        while y < self.height
            invariant
                self.wf(),
                y <= self.height,
                forall|i: int| 0 <= i < self.width ==> !#[trigger] self.top_or_bottom(i),
                forall|j: int| 0 <= j < y ==> !#[trigger] self.left_or_right(j),
            decreases self.height - y,
        {
            proof {
                assert(y * self.width + self.width - 1 < self.width * self.height) by (nonlinear_arith)
                    requires
                        y < self.height,
                        1 <= self.width,
                ;
            }
            if self.on_paper[(y * self.width) as usize] || self.on_paper[(y * self.width + self.width - 1) as usize] {
                proof {
                    assert(self.left_or_right(y as int));
                }
                return true;
            }
            proof {
                assert(!self.left_or_right(y as int));
            }
            y = y + 1;
        }
        false
    }

    /// Whether the sheet fills the picture, so there is nothing to cut away: true
    /// for a scan, and for a photo the user already cropped.
    pub fn is_the_whole_image(&self) -> (b: bool)
        ensures
            b == (self.bounds == Rect { x: 0, y: 0, width: self.image_width, height: self.image_height }),
    {
        self.bounds == Rect { x: 0, y: 0, width: self.image_width, height: self.image_height }
    }
}

/// How many pixels `rgb` holds, three bytes each.
pub open spec fn pixels(rgb: Seq<u8>) -> int {
    (rgb.len() / 3) as int
}

/// The sheet, if one was found, as the spec functions see it.
pub open spec fn paper_view(paper: Option<&SheetMask>) -> Option<SheetMask> {
    match paper {
        Some(m) => Some(*m),
        None => None,
    }
}

/// One channel's histogram over the counted pixels.
pub open spec fn histogram_of(rgb: Seq<u8>, width: u32, paper: Option<SheetMask>, c: int) -> Seq<u32> {
    Seq::new(256, |v: int| tally(rgb, width, paper, c, v, pixels(rgb)) as u32)
}

/// Whether pixel `i` of a picture `width` pixels wide is counted: every pixel when no
/// sheet was found, and only the pixels on the sheet when one was.
pub open spec fn kept(width: u32, paper: Option<SheetMask>, i: int) -> bool {
    match paper {
        None => true,
        Some(m) => m.on(m.column_of(i % (width as int)), m.row_of(i / (width as int))),
    }
}

/// How many of the first `n` pixels are counted and have brightness `v` in channel
/// `c`.
pub open spec fn tally(rgb: Seq<u8>, width: u32, paper: Option<SheetMask>, c: int, v: int, n: int) -> int
    decreases n,
{
    if n <= 0 {
        0
    } else {
        tally(rgb, width, paper, c, v, n - 1) + (if kept(width, paper, n - 1) && rgb[3 * (n - 1) + c] == v {
            1int
        } else {
            0int
        })
    }
}

proof fn lemma_tally_bound(rgb: Seq<u8>, width: u32, paper: Option<SheetMask>, c: int, v: int, n: int)
    requires
        0 <= n,
    ensures
        0 <= tally(rgb, width, paper, c, v, n) <= n,
    decreases n,
{
    if n > 0 {
        lemma_tally_bound(rgb, width, paper, c, v, n - 1);
    }
}

/// The histogram of one channel after pixel `i`: `counts` held the first `i` pixels.
fn count_pixel(counts: &mut [u32; 256], value: u8, keep: bool, Ghost(rgb): Ghost<Seq<u8>>, width: u32, Ghost(paper): Ghost<Option<SheetMask>>, Ghost(c): Ghost<int>, Ghost(i): Ghost<int>)
    requires
        0 <= i < u32::MAX,
        0 <= c < 3,
        3 * i + c < rgb.len(),
        rgb[3 * i + c] == value,
        keep == kept(width, paper, i),
        forall|v: int| 0 <= v < 256 ==> #[trigger] old(counts)@[v] == tally(rgb, width, paper, c, v, i),
    ensures
        forall|v: int| 0 <= v < 256 ==> #[trigger] final(counts)@[v] == tally(rgb, width, paper, c, v, i + 1),
{
    if keep {
        proof {
            lemma_tally_bound(rgb, width, paper, c, value as int, i);
        }
        let n = counts[value as usize];
        counts[value as usize] = n + 1;
    }
    proof {
        assert forall|v: int| 0 <= v < 256 implies #[trigger] counts@[v] == tally(rgb, width, paper, c, v, i + 1) by {
            assert(tally(rgb, width, paper, c, v, i + 1) == tally(rgb, width, paper, c, v, i) + (if kept(width, paper, i)
                && rgb[3 * i + c] == v {
                1int
            } else {
                0int
            }));
        }
    }
}

/// Counts how often every brightness turns up, per colour channel, over the paper
/// only, or over the whole picture when no sheet was found.
///
/// `rgb` is the picture's pixels, row by row, three bytes each; `width` is how many
/// pixels a row holds.
pub fn channel_histograms(rgb: &[u8], width: u32, paper: Option<&SheetMask>) -> (h: [[u32; 256]; 3])
    requires
        1 <= width,
        rgb@.len() % 3 == 0,
        rgb@.len() / 3 <= u32::MAX,
        paper matches Some(m) ==> m.wf() && width * m.width <= u32::MAX && (pixels(rgb@) / (width as int))
            * m.height <= u32::MAX,
    ensures
        forall|c: int, v: int|
            0 <= c < 3 && 0 <= v < 256 ==> #[trigger] h@[c]@[v] == tally(
                rgb@,
                width,
                match paper {
                    Some(m) => Some(*m),
                    None => None,
                },
                c,
                v,
                pixels(rgb@),
            ),
{
    let ghost p = match paper {
        Some(m) => Some(*m),
        None => None::<SheetMask>,
    };
    let total = rgb.len();
    let n = total / 3;
    let mut red = [0u32; 256];
    let mut green = [0u32; 256];
    let mut blue = [0u32; 256];
    let mut i: usize = 0;
    while i < n
        invariant
            1 <= width,
            n == pixels(rgb@),
            n == rgb@.len() / 3,
            total == rgb@.len(),
            rgb@.len() % 3 == 0,
            n <= u32::MAX,
            i <= n,
            p == match paper {
                Some(m) => Some(*m),
                None => None::<SheetMask>,
            },
            paper matches Some(m) ==> m.wf() && width * m.width <= u32::MAX && ((n as int) / (width as int)) * m.height <= u32::MAX,
            forall|v: int| 0 <= v < 256 ==> #[trigger] red@[v] == tally(rgb@, width, p, 0, v, i as int),
            forall|v: int| 0 <= v < 256 ==> #[trigger] green@[v] == tally(rgb@, width, p, 1, v, i as int),
            forall|v: int| 0 <= v < 256 ==> #[trigger] blue@[v] == tally(rgb@, width, p, 2, v, i as int),
        decreases n - i,
    {
        let x = (i as u32) % width;
        let y = (i as u32) / width;
        let keep = match paper {
            None => true,
            Some(m) => {
                proof {
                    assert(x * m.width <= width * m.width) by (nonlinear_arith)
                        requires
                            x < width,
                    ;
                    assert(y <= (n as int) / (width as int)) by (nonlinear_arith)
                        requires
                            y == (i as int) / (width as int),
                            i < n,
                            1 <= width,
                    ;
                    assert(y * m.height <= ((n as int) / (width as int)) * m.height) by (nonlinear_arith)
                        requires
                            y <= (n as int) / (width as int),
                    ;
                }
                m.contains(x, y)
            },
        };
        proof {
            assert(keep == kept(width, p, i as int));
            assert(3 * i + 2 < rgb@.len()) by (nonlinear_arith)
                requires
                    i < n,
                    n == rgb@.len() / 3,
                    rgb@.len() % 3 == 0,
            ;
            assert(3 * i + 2 < total);
        }
        let at = 3 * i;
        count_pixel(&mut red, rgb[at], keep, Ghost(rgb@), width, Ghost(p), Ghost(0), Ghost(i as int));
        count_pixel(&mut green, rgb[at + 1], keep, Ghost(rgb@), width, Ghost(p), Ghost(1), Ghost(i as int));
        count_pixel(&mut blue, rgb[at + 2], keep, Ghost(rgb@), width, Ghost(p), Ghost(2), Ghost(i as int));
        i = i + 1;
    }
    let h = [red, green, blue];
    proof {
        assert(h@[0] == red);
        assert(h@[1] == green);
        assert(h@[2] == blue);
    }
    h
}

/// Proposes where the brightness stretch should start and end, so that the paper
/// comes out white and the writing black: the levels the channel histograms over
/// the paper suggest.
pub fn suggest_levels(rgb: &[u8], width: u32, paper: Option<&SheetMask>) -> (l: Levels)
    requires
        1 <= width,
        rgb@.len() % 3 == 0,
        rgb@.len() / 3 <= u32::MAX,
        paper matches Some(m) ==> m.wf() && width * m.width <= u32::MAX && (pixels(rgb@) / (width as int))
            * m.height <= u32::MAX,
    ensures
        forall|c: int|
            0 <= c < 3 ==> (l.black@[c] as int, l.white@[c] as int) == levels::channel_levels(
                #[trigger] histogram_of(rgb@, width, paper_view(paper), c),
            ),
{
    let h = channel_histograms(rgb, width, paper);
    let ghost p = match paper {
        Some(m) => Some(*m),
        None => None::<SheetMask>,
    };
    proof {
        assert forall|c: int| 0 <= c < 3 implies levels::below((#[trigger] h@[c])@, 256) <= u32::MAX by {
            lemma_below_tally(rgb@, width, p, c, h@[c]@, 256);
        }
    }
    let l = levels::levels_from_histograms(&h);
    proof {
        assert forall|c: int| 0 <= c < 3 implies (l.black@[c] as int, l.white@[c] as int) == levels::channel_levels(
            #[trigger] histogram_of(rgb@, width, paper_view(paper), c),
        ) by {
            assert(h@[c]@ =~= histogram_of(rgb@, width, p, c)) by {
                assert forall|v: int| 0 <= v < 256 implies h@[c]@[v] == tally(rgb@, width, p, c, v, pixels(rgb@)) as u32 by {
                    assert(h@[c]@[v] == tally(rgb@, width, p, c, v, pixels(rgb@)));
                }
            }
            assert((l.black@[c] as int, l.white@[c] as int) == levels::channel_levels(h@[c]@));
        }
        assert forall|c: int| 0 <= c < 3 implies (#[trigger] h@[c])@ =~= Seq::new(256, |v: int| tally(
            rgb@,
            width,
            p,
            c,
            v,
            pixels(rgb@),
        ) as u32) by {
            assert forall|v: int| 0 <= v < 256 implies h@[c]@[v] == tally(rgb@, width, p, c, v, pixels(rgb@)) as u32 by {
                assert(h@[c]@[v] == tally(rgb@, width, p, c, v, pixels(rgb@)));
            }
        }
    }
    l
}

/// A channel histogram counts each counted pixel once, so its total is at most the
/// number of pixels.
proof fn lemma_below_tally(rgb: Seq<u8>, width: u32, paper: Option<SheetMask>, c: int, counts: Seq<u32>, k: int)
    requires
        0 <= k <= 256,
        counts.len() == 256,
        rgb.len() / 3 <= u32::MAX,
        forall|v: int| 0 <= v < 256 ==> counts[v] == tally(rgb, width, paper, c, v, pixels(rgb)),
    ensures
        levels::below(counts, k) <= pixels(rgb),
{
    lemma_below_split(rgb, width, paper, c, counts, k, pixels(rgb));
}

/// The pixels counted with brightness below `k`.
pub open spec fn tally_below(rgb: Seq<u8>, width: u32, paper: Option<SheetMask>, c: int, k: int, n: int) -> int
    decreases n,
{
    if n <= 0 {
        0
    } else {
        tally_below(rgb, width, paper, c, k, n - 1) + (if kept(width, paper, n - 1) && rgb[3 * (n - 1) + c] < k {
            1int
        } else {
            0int
        })
    }
}

proof fn lemma_tally_below_bound(rgb: Seq<u8>, width: u32, paper: Option<SheetMask>, c: int, k: int, n: int)
    requires
        0 <= n,
    ensures
        0 <= tally_below(rgb, width, paper, c, k, n) <= n,
    decreases n,
{
    if n > 0 {
        lemma_tally_below_bound(rgb, width, paper, c, k, n - 1);
    }
}

proof fn lemma_tally_below_step(rgb: Seq<u8>, width: u32, paper: Option<SheetMask>, c: int, k: int, n: int)
    requires
        0 <= n,
        0 <= k,
    ensures
        tally_below(rgb, width, paper, c, k + 1, n) == tally_below(rgb, width, paper, c, k, n) + tally(
            rgb,
            width,
            paper,
            c,
            k,
            n,
        ),
    decreases n,
{
    if n > 0 {
        lemma_tally_below_step(rgb, width, paper, c, k, n - 1);
    }
}

proof fn lemma_below_split(rgb: Seq<u8>, width: u32, paper: Option<SheetMask>, c: int, counts: Seq<u32>, k: int, n: int)
    requires
        0 <= k <= 256,
        counts.len() == 256,
        0 <= n,
        forall|v: int| 0 <= v < 256 ==> counts[v] == tally(rgb, width, paper, c, v, n),
    ensures
        levels::below(counts, k) == tally_below(rgb, width, paper, c, k, n),
        levels::below(counts, k) <= n,
    decreases k,
{
    if k > 0 {
        lemma_below_split(rgb, width, paper, c, counts, k - 1, n);
        lemma_tally_below_step(rgb, width, paper, c, k - 1, n);
    } else {
        lemma_tally_below_zero(rgb, width, paper, c, n);
    }
    lemma_tally_below_bound(rgb, width, paper, c, k, n);
}

proof fn lemma_tally_below_zero(rgb: Seq<u8>, width: u32, paper: Option<SheetMask>, c: int, n: int)
    requires
        0 <= n,
    ensures
        tally_below(rgb, width, paper, c, 0, n) == 0,
    decreases n,
{
    if n > 0 {
        lemma_tally_below_zero(rgb, width, paper, c, n - 1);
    }
}

} // verus!
