//! The rough area: where the sheet is, from brightness alone, on a small copy of the
//! photograph. The picture is split into bright and dark, the dark pixels that can be
//! walked to from the border are the background, and the largest patch of what is
//! left is the sheet.

use vstd::prelude::*;
use vstd::arithmetic::div_mod::*;
use vstd::arithmetic::mul::*;
use super::grid;
use super::levels;
use super::sheet::Rect;

verus! {

/// Pixel `s` lies on the edge of a picture `w` wide and `h` high.
pub open spec fn on_border(w: int, h: int, s: int) -> bool {
    &&& 0 <= s < w * h
    &&& (s / w == 0 || s / w == h - 1 || s % w == 0 || s % w == w - 1)
}

/// The dark pixels: those that are not bright.
pub open spec fn dark(bright: Seq<bool>) -> Seq<bool> {
    Seq::new(bright.len(), |i: int| !bright[i])
}

/// Pixel `i` can be walked to from the edge of the picture over dark pixels alone.
pub open spec fn reaches_border(bright: Seq<bool>, w: int, h: int, i: int) -> bool {
    exists|s: int| on_border(w, h, s) && #[trigger] grid::joined(dark(bright), w, h, s, i)
}

/// How many entries are not set.
pub open spec fn unmarked(s: Seq<bool>) -> nat
    decreases s.len(),
{
    if s.len() == 0 {
        0
    } else {
        unmarked(s.drop_last()) + (if s.last() {
            0nat
        } else {
            1nat
        })
    }
}

/// Setting an entry that was not set leaves one fewer.
pub proof fn lemma_unmarked_set(s: Seq<bool>, i: int)
    requires
        0 <= i < s.len(),
        !s[i],
    ensures
        unmarked(s.update(i, true)) + 1 == unmarked(s),
    decreases s.len(),
{
    let t = s.update(i, true);
    if i == s.len() - 1 {
        assert(t.drop_last() =~= s.drop_last());
    } else {
        assert(t.drop_last() =~= s.drop_last().update(i, true));
        lemma_unmarked_set(s.drop_last(), i);
    }
}

/// What the flood fill keeps true between steps: every marked pixel is background,
/// everything waiting is marked and waits once, and a marked pixel no longer waiting
/// has all its dark neighbours marked.
pub open spec fn flood_ok(bright: Seq<bool>, w: int, h: int, outside: Seq<bool>, to_visit: Seq<usize>) -> bool {
    &&& outside.len() == bright.len()
    &&& forall|i: int| 0 <= i < outside.len() && #[trigger] outside[i] ==> reaches_border(bright, w, h, i)
    &&& forall|j: int| 0 <= j < to_visit.len() ==> (#[trigger] to_visit[j] as int) < outside.len() && outside[to_visit[j] as int]
    &&& to_visit.no_duplicates()
    &&& forall|i: int, b: int|
        0 <= i < outside.len() && #[trigger] outside[i] && !to_visit.contains(i as usize) && #[trigger] grid::step(w, h, i, b)
            && !bright[b] ==> outside[b]
}

/// Marks a dark border pixel and puts it on the list to visit.
fn seed(bright: &Vec<bool>, width: u32, height: u32, outside: &mut Vec<bool>, to_visit: &mut Vec<usize>, index: usize)
    requires
        0 < width,
        bright@.len() == width * height,
        on_border(width as int, height as int, index as int),
        flood_ok(bright@, width as int, height as int, old(outside)@, old(to_visit)@),
    ensures
        flood_ok(bright@, width as int, height as int, final(outside)@, final(to_visit)@),
        forall|i: int| 0 <= i < old(outside)@.len() && old(outside)@[i] ==> #[trigger] final(outside)@[i],
        !bright@[index as int] ==> final(outside)@[index as int],
{
    let ghost w = width as int;
    let ghost h = height as int;
    if !bright[index] && !outside[index] {
        proof {
            let d = dark(bright@);
            assert(grid::link(d, w, h, 0, index as int, index as int));
            assert(grid::joined(d, w, h, index as int, index as int));
            assert(!to_visit@.contains(index));
        }
        outside.set(index, true);
        to_visit.push(index);
        proof {
            let o = outside@;
            let t = to_visit@;
            assert forall|j: int| 0 <= j < t.len() implies (#[trigger] t[j] as int) < o.len() && o[t[j] as int] by {
                if j < t.len() - 1 {
                    assert(t[j] == old(to_visit)@[j]);
                }
            }
            assert forall|i: int, b: int|
                0 <= i < o.len() && #[trigger] o[i] && !t.contains(i as usize) && #[trigger] grid::step(w, h, i, b)
                    && !bright@[b] implies o[b] by {
                assert(t[t.len() - 1] == index);
                assert(i != index);
                assert(old(outside)@[i]);
                grid::lemma_step_in_range(w, h, i, b);
                assert(!old(to_visit)@.contains(i as usize)) by {
                    if old(to_visit)@.contains(i as usize) {
                        let j = choose|j: int| 0 <= j < old(to_visit)@.len() && old(to_visit)@[j] == i as usize;
                        assert(t[j] == i as usize);
                    }
                }
            }
        }
    }
}

/// A walk from the border over dark pixels ends on a marked pixel, once the fill is
/// closed and every dark border pixel is marked.
proof fn lemma_fill_complete(bright: Seq<bool>, w: int, h: int, outside: Seq<bool>, k: nat, s: int, i: int)
    requires
        outside.len() == bright.len(),
        forall|t: int| on_border(w, h, t) && 0 <= t < bright.len() && !bright[t] ==> #[trigger] outside[t],
        forall|a: int, b: int|
            0 <= a < outside.len() && #[trigger] outside[a] && #[trigger] grid::step(w, h, a, b) && !bright[b]
                ==> outside[b],
        on_border(w, h, s),
        grid::link(dark(bright), w, h, k, s, i),
    ensures
        outside[i],
    decreases k,
{
    let d = dark(bright);
    grid::lemma_link_start(d, w, h, k, s, i);
    if s != i {
        let j = choose|j: int| #[trigger] grid::step(w, h, j, i) && grid::link(d, w, h, (k - 1) as nat, s, j);
        lemma_fill_complete(bright, w, h, outside, (k - 1) as nat, s, j);
        grid::lemma_link_start(d, w, h, (k - 1) as nat, j, j);
        assert(outside[j]);
        assert(!bright[i]);
    }
}

/// A pixel one step from a background pixel, and dark itself, is background too.
proof fn lemma_reach_one_more(bright: Seq<bool>, w: int, h: int, a: int, b: int)
    requires
        reaches_border(bright, w, h, a),
        grid::step(w, h, a, b),
        0 <= b < bright.len(),
        !bright[b],
    ensures
        reaches_border(bright, w, h, b),
{
    let d = dark(bright);
    let s = choose|s: int| on_border(w, h, s) && #[trigger] grid::joined(d, w, h, s, a);
    let k = choose|k: nat| #[trigger] grid::link(d, w, h, k, s, a);
    assert(grid::link(d, w, h, k + 1, s, b));
    assert(grid::joined(d, w, h, s, b));
}

/// The background: every dark pixel that can be walked to from the edge of the
/// picture without crossing anything bright.
///
/// Starting from the border is the whole trick. It separates the table, which runs
/// off the edge of the frame, from the writing, which is dark as well but enclosed by
/// paper.
pub fn dark_area_reaching_the_border(bright: &Vec<bool>, width: u32, height: u32) -> (outside: Vec<bool>)
    requires
        0 < width,
        0 < height,
        bright@.len() == width * height,
        width * height <= u32::MAX,
    ensures
        outside@.len() == bright@.len(),
        forall|i: int| 0 <= i < bright@.len() ==> (#[trigger] outside@[i] <==> reaches_border(bright@, width as int, height as int, i)),
{
    let ghost w = width as int;
    let ghost h = height as int;
    let n = bright.len();
    let mut outside: Vec<bool> = Vec::new();
    while outside.len() < n
        invariant
            outside@.len() <= n,
            forall|i: int| 0 <= i < outside@.len() ==> !outside@[i],
        decreases n - outside@.len(),
    {
        outside.push(false);
    }
    let mut to_visit: Vec<usize> = Vec::new();
    proof {
        assert(flood_ok(bright@, w, h, outside@, to_visit@));
        lemma_mul_inequality(1, h, w);
        lemma_mul_is_commutative(w, h);
    }
    let mut x: u32 = 0;
    while x < width
        invariant
            w == width as int,
            h == height as int,
            0 < width,
            0 < height,
            bright@.len() == width * height,
            width * height <= u32::MAX,
            width <= width * height,
            x <= width,
            flood_ok(bright@, w, h, outside@, to_visit@),
            forall|t: int| 0 <= t < x && !bright@[t] ==> #[trigger] outside@[t],
        decreases width - x,
    {
        proof {
            lemma_fundamental_div_mod_converse(x as int, w, 0, x as int);
        }
        seed(bright, width, height, &mut outside, &mut to_visit, x as usize);
        x = x + 1;
    }
    proof {
        lemma_mul_is_distributive_sub(w, h, 1);
        lemma_mul_is_commutative(w, h - 1);
        lemma_mul_is_commutative(w, h);
    }
    let last_row = (height - 1) * width;
    let mut x: u32 = 0;
    while x < width
        invariant
            w == width as int,
            h == height as int,
            0 < width,
            0 < height,
            bright@.len() == width * height,
            width * height <= u32::MAX,
            last_row == (height - 1) * width,
            last_row + width == width * height,
            x <= width,
            flood_ok(bright@, w, h, outside@, to_visit@),
            forall|t: int| 0 <= t < width && !bright@[t] ==> #[trigger] outside@[t],
            forall|t: int|
                0 <= t < bright@.len() && t / w == h - 1 && t % w < x && !bright@[t] ==> #[trigger] outside@[t],
        decreases width - x,
    {
        proof {
            lemma_mul_is_commutative(w, h - 1);
            lemma_fundamental_div_mod_converse((last_row + x) as int, w, h - 1, x as int);
        }
        let ghost o0 = outside@;
        seed(bright, width, height, &mut outside, &mut to_visit, (last_row + x) as usize);
        proof {
            assert forall|t: int|
                0 <= t < bright@.len() && t / w == h - 1 && t % w < x + 1 && !bright@[t] implies #[trigger] outside@[t] by {
                if t % w == x {
                    lemma_fundamental_div_mod(t, w);
                    lemma_mul_is_commutative(w, h - 1);
                    assert(t == last_row + x);
                } else {
                    assert(o0[t]);
                }
            }
        }
        x = x + 1;
    }
    let mut y: u32 = 0;
    while y < height
        invariant
            w == width as int,
            h == height as int,
            0 < width,
            0 < height,
            bright@.len() == width * height,
            width * height <= u32::MAX,
            last_row == (height - 1) * width,
            last_row + width == width * height,
            y <= height,
            flood_ok(bright@, w, h, outside@, to_visit@),
            forall|t: int| 0 <= t < width && !bright@[t] ==> #[trigger] outside@[t],
            forall|t: int|
                0 <= t < bright@.len() && t / w == h - 1 && t % w < w && !bright@[t] ==> #[trigger] outside@[t],
            forall|t: int| 0 <= t < bright@.len() && t % w == 0 && t / w < y && !bright@[t] ==> #[trigger] outside@[t],
        decreases height - y,
    {
        proof {
            lemma_mul_inequality(y as int, h - 1, w);
            lemma_fundamental_div_mod_converse((y * width) as int, w, y as int, 0);
        }
        let ghost o0 = outside@;
        seed(bright, width, height, &mut outside, &mut to_visit, (y * width) as usize);
        proof {
            assert forall|t: int| 0 <= t < bright@.len() && t % w == 0 && t / w < y + 1 && !bright@[t] implies #[trigger] outside@[t] by {
                if t / w == y {
                    lemma_fundamental_div_mod(t, w);
                    lemma_mul_is_commutative(w, y as int);
                    assert(t == y * width);
                } else {
                    assert(o0[t]);
                }
            }
        }
        y = y + 1;
    }
    let mut y: u32 = 0;
    while y < height
        invariant
            w == width as int,
            h == height as int,
            0 < width,
            0 < height,
            bright@.len() == width * height,
            width * height <= u32::MAX,
            last_row == (height - 1) * width,
            last_row + width == width * height,
            y <= height,
            flood_ok(bright@, w, h, outside@, to_visit@),
            forall|t: int| 0 <= t < width && !bright@[t] ==> #[trigger] outside@[t],
            forall|t: int|
                0 <= t < bright@.len() && t / w == h - 1 && t % w < w && !bright@[t] ==> #[trigger] outside@[t],
            forall|t: int| 0 <= t < bright@.len() && t % w == 0 && t / w < h && !bright@[t] ==> #[trigger] outside@[t],
            forall|t: int|
                0 <= t < bright@.len() && t % w == w - 1 && t / w < y && !bright@[t] ==> #[trigger] outside@[t],
        decreases height - y,
    {
        proof {
            lemma_mul_inequality(y as int, h - 1, w);
            lemma_fundamental_div_mod_converse((y * width + width - 1) as int, w, y as int, w - 1);
        }
        let ghost o0 = outside@;
        seed(bright, width, height, &mut outside, &mut to_visit, (y * width + width - 1) as usize);
        proof {
            assert forall|t: int|
                0 <= t < bright@.len() && t % w == w - 1 && t / w < y + 1 && !bright@[t] implies #[trigger] outside@[t] by {
                if t / w == y {
                    lemma_fundamental_div_mod(t, w);
                    lemma_mul_is_commutative(w, y as int);
                    assert(t == y * width + width - 1);
                } else {
                    assert(o0[t]);
                }
            }
        }
        y = y + 1;
    }
    proof {
        assert forall|t: int| on_border(w, h, t) && 0 <= t < bright@.len() && !bright@[t] implies #[trigger] outside@[t] by {
            let q = t / w;
            let r = t % w;
            lemma_fundamental_div_mod(t, w);
            lemma_mod_pos_bound(t, w);
            lemma_mul_is_commutative(w, q);
            lemma_div_pos_is_pos(t, w);
            assert(q < h) by {
                if q >= h {
                    lemma_mul_inequality(h, q, w);
                }
            }
            if q == 0 {
                lemma_mul_basics(w);
                assert(w * q == 0);
                assert(t == r);
            }
        }
    }
    while to_visit.len() > 0
        invariant
            w == width as int,
            h == height as int,
            0 < width,
            bright@.len() == width * height,
            width * height <= u32::MAX,
            flood_ok(bright@, w, h, outside@, to_visit@),
            forall|t: int| on_border(w, h, t) && 0 <= t < bright@.len() && !bright@[t] ==> #[trigger] outside@[t],
        decreases 2 * unmarked(outside@) + to_visit@.len(),
    {
        let ghost measure = 2 * unmarked(outside@) + to_visit@.len();
        let ghost t0 = to_visit@;
        let index = to_visit.pop().unwrap();
        proof {
            assert(t0[t0.len() - 1] == index);
            assert(to_visit@ == t0.drop_last());
            assert(!to_visit@.contains(index)) by {
                if to_visit@.contains(index) {
                    let j = choose|j: int| 0 <= j < to_visit@.len() && to_visit@[j] == index;
                    assert(t0[j] == t0[t0.len() - 1]);
                }
            }
            assert forall|m: int| 0 <= m < to_visit@.len() implies (#[trigger] to_visit@[m] as int) < outside@.len()
                && outside@[to_visit@[m] as int] by {
                assert(to_visit@[m] == t0[m]);
            }
            assert(to_visit@.no_duplicates()) by {
                assert forall|a: int, b: int| 0 <= a < b < to_visit@.len() implies to_visit@[a] != to_visit@[b] by {
                    assert(to_visit@[a] == t0[a] && to_visit@[b] == t0[b]);
                }
            }
            assert forall|i: int, b: int|
                0 <= i < outside@.len() && i != index && #[trigger] outside@[i] && !to_visit@.contains(i as usize)
                    && #[trigger] grid::step(w, h, i, b) && !bright@[b] implies outside@[b] by {
                assert(!t0.contains(i as usize)) by {
                    if t0.contains(i as usize) {
                        let m = choose|m: int| 0 <= m < t0.len() && t0[m] == i as usize;
                        assert(m != t0.len() - 1);
                        assert(to_visit@[m] == i as usize);
                    }
                }
            }
        }
        let around = grid::visit_neighbours(index, width, height);
        let mut j: usize = 0;
        while j < around.len()
            invariant
                w == width as int,
                h == height as int,
                0 < width,
                bright@.len() == width * height,
                width * height <= u32::MAX,
                (index as int) < bright@.len(),
                outside@[index as int],
                !to_visit@.contains(index),
                around@.len() == grid::neighbours(w, h, index as int).len(),
                forall|m: int| 0 <= m < around@.len() ==> #[trigger] around@[m] as int == grid::neighbours(w, h, index as int)[m],
                j <= around@.len(),
                outside@.len() == bright@.len(),
                forall|i: int| 0 <= i < outside@.len() && #[trigger] outside@[i] ==> reaches_border(bright@, w, h, i),
                forall|m: int|
                    0 <= m < to_visit@.len() ==> (#[trigger] to_visit@[m] as int) < outside@.len() && outside@[to_visit@[m] as int],
                to_visit@.no_duplicates(),
                forall|i: int, b: int|
                    0 <= i < outside@.len() && i != index && #[trigger] outside@[i] && !to_visit@.contains(i as usize)
                        && #[trigger] grid::step(w, h, i, b) && !bright@[b] ==> outside@[b],
                forall|m: int| 0 <= m < j && !bright@[around@[m] as int] ==> #[trigger] outside@[around@[m] as int],
                forall|t: int| on_border(w, h, t) && 0 <= t < bright@.len() && !bright@[t] ==> #[trigger] outside@[t],
                2 * unmarked(outside@) + to_visit@.len() < measure,
            decreases around@.len() - j,
        {
            let next = around[j];
            proof {
                grid::lemma_neighbours(w, h, index as int);
                assert(grid::neighbours(w, h, index as int).contains(next as int));
                assert(grid::step(w, h, index as int, next as int));
                grid::lemma_step_in_range(w, h, index as int, next as int);
            }
            let ghost before_step = outside@;
            if !bright[next] && !outside[next] {
                proof {
                    lemma_reach_one_more(bright@, w, h, index as int, next as int);
                    lemma_unmarked_set(outside@, next as int);
                    assert(!to_visit@.contains(next)) by {
                        if to_visit@.contains(next) {
                            let m = choose|m: int| 0 <= m < to_visit@.len() && to_visit@[m] == next;
                            assert(outside@[to_visit@[m] as int]);
                        }
                    }
                }
                let ghost o0 = outside@;
                let ghost v0 = to_visit@;
                outside.set(next, true);
                to_visit.push(next);
                proof {
                    assert forall|m: int| 0 <= m < to_visit@.len() implies (#[trigger] to_visit@[m] as int) < outside@.len()
                        && outside@[to_visit@[m] as int] by {
                        if m < to_visit@.len() - 1 {
                            assert(to_visit@[m] == v0[m]);
                        }
                    }
                    assert(!to_visit@.contains(index)) by {
                        if to_visit@.contains(index) {
                            let m = choose|m: int| 0 <= m < to_visit@.len() && to_visit@[m] == index;
                            if m < to_visit@.len() - 1 {
                                assert(v0[m] == index);
                            }
                        }
                    }
                    assert forall|i: int, b: int|
                        0 <= i < outside@.len() && i != index && #[trigger] outside@[i] && !to_visit@.contains(i as usize)
                            && #[trigger] grid::step(w, h, i, b) && !bright@[b] implies outside@[b] by {
                        assert(to_visit@[to_visit@.len() - 1] == next);
                        assert(i != next);
                        assert(o0[i]);
                        grid::lemma_step_in_range(w, h, i, b);
                        assert(!v0.contains(i as usize)) by {
                            if v0.contains(i as usize) {
                                let m = choose|m: int| 0 <= m < v0.len() && v0[m] == i as usize;
                                assert(to_visit@[m] == i as usize);
                            }
                        }
                    }
                }
            }
            proof {
                grid::lemma_neighbours(w, h, index as int);
                assert forall|m: int| 0 <= m < j + 1 && !bright@[around@[m] as int] implies #[trigger] outside@[around@[m] as int] by {
                    assert(grid::neighbours(w, h, index as int).contains(around@[m] as int));
                    grid::lemma_step_in_range(w, h, index as int, around@[m] as int);
                    if m < j {
                        assert(before_step[around@[m] as int]);
                    }
                }
            }
            j = j + 1;
        }
        proof {
            grid::lemma_neighbours(w, h, index as int);
            assert forall|i: int, b: int|
                0 <= i < outside@.len() && #[trigger] outside@[i] && !to_visit@.contains(i as usize) && #[trigger] grid::step(
                    w,
                    h,
                    i,
                    b,
                ) && !bright@[b] implies outside@[b] by {
                if i == index {
                    assert(grid::neighbours(w, h, index as int).contains(b));
                    let m = choose|m: int|
                        0 <= m < grid::neighbours(w, h, index as int).len() && grid::neighbours(w, h, index as int)[m] == b;
                    assert(around@[m] as int == b);
                }
            }
        }
    }
    proof {
        assert forall|i: int| 0 <= i < bright@.len() implies (#[trigger] outside@[i] <==> reaches_border(
            bright@,
            w,
            h,
            i,
        )) by {
            if reaches_border(bright@, w, h, i) {
                let d = dark(bright@);
                let s = choose|s: int| on_border(w, h, s) && #[trigger] grid::joined(d, w, h, s, i);
                let k = choose|k: nat| #[trigger] grid::link(d, w, h, k, s, i);
                assert forall|a: int, b: int|
                    0 <= a < outside@.len() && #[trigger] outside@[a] && #[trigger] grid::step(w, h, a, b) && !bright@[b]
                        implies outside@[b] by {
                    assert(!to_visit@.contains(a as usize));
                }
                lemma_fill_complete(bright@, w, h, outside@, k, s, i);
            }
        }
    }
    outside
}


/// `left` to `right` are the columns and `top` to `bottom` the rows the pixels of `r`
/// span, each of the four reached by one of them.
pub open spec fn box_of(r: Set<int>, w: int, left: int, top: int, right: int, bottom: int) -> bool {
    &&& forall|i: int| #[trigger] r.contains(i) ==> left <= i % w <= right && top <= i / w <= bottom
    &&& exists|i: int| #[trigger] r.contains(i) && i % w == left
    &&& exists|i: int| #[trigger] r.contains(i) && i % w == right
    &&& exists|i: int| #[trigger] r.contains(i) && i / w == top
    &&& exists|i: int| #[trigger] r.contains(i) && i / w == bottom
}

/// The exploring walk between two pixels: everything marked is either marked before
/// or reached, and what waits and what was taken are reached pixels, each once.
pub open spec fn explore_ok(
    set: Seq<bool>,
    w: int,
    h: int,
    start: int,
    s0: Seq<bool>,
    seen: Seq<bool>,
    to_visit: Seq<usize>,
    blob: Seq<usize>,
) -> bool {
    let r = grid::region(set, w, h, start);
    &&& seen.len() == set.len()
    &&& seen[start]
    &&& forall|i: int|
        0 <= i < set.len() ==> (#[trigger] seen[i] <==> s0[i] || to_visit.contains(i as usize) || blob.contains(
            i as usize,
        ))
    &&& forall|j: int|
        0 <= j < to_visit.len() ==> (#[trigger] to_visit[j] as int) < set.len() && !s0[to_visit[j] as int]
            && r.contains(to_visit[j] as int)
    &&& forall|j: int|
        0 <= j < blob.len() ==> (#[trigger] blob[j] as int) < set.len() && !s0[blob[j] as int] && r.contains(
            blob[j] as int,
        )
    &&& to_visit.no_duplicates()
    &&& blob.no_duplicates()
    &&& forall|j: int, m: int| 0 <= j < to_visit.len() && 0 <= m < blob.len() ==> #[trigger] to_visit[j] != #[trigger] blob[m]
    &&& forall|i: int| 0 <= i < seen.len() && #[trigger] seen[i] ==> set[i]
}

/// The walk from `start` reaches, through pixels it took, every pixel of the region.
proof fn lemma_explored_covers(
    set: Seq<bool>,
    w: int,
    h: int,
    s0: Seq<bool>,
    seen: Seq<bool>,
    blob: Seq<usize>,
    k: nat,
    start: int,
    q: int,
)
    requires
        set.len() <= usize::MAX,
        s0.len() == set.len(),
        seen.len() == set.len(),
        grid::closed(set, w, h, s0),
        0 <= start < set.len(),
        !s0[start],
        blob.contains(start as usize),
        forall|i: int| 0 <= i < set.len() ==> (#[trigger] seen[i] <==> s0[i] || blob.contains(i as usize)),
        forall|j: int, b: int|
            0 <= j < blob.len() && #[trigger] grid::step(w, h, blob[j] as int, b) && 0 <= b < set.len() && set[b]
                ==> seen[b],
        grid::link(set, w, h, k, start, q),
    ensures
        blob.contains(q as usize),
    decreases k,
{
    if q != start {
        let j = choose|j: int| #[trigger] grid::step(w, h, j, q) && grid::link(set, w, h, (k - 1) as nat, start, j);
        lemma_explored_covers(set, w, h, s0, seen, blob, (k - 1) as nat, start, j);
        let m = choose|m: int| 0 <= m < blob.len() && blob[m] == j as usize;
        grid::lemma_link_start(set, w, h, (k - 1) as nat, j, j);
        assert(blob[m] as int == j);
        assert(grid::step(w, h, blob[m] as int, q));
        assert(seen[q]);
        if s0[q] {
            assert(grid::link(set, w, h, k, start, q));
            grid::lemma_link_back(set, w, h, k, start, q);
            grid::lemma_closed_keeps(set, w, h, s0, k, q, start);
        }
    }
}

/// Walks out from `start` over the pixels `inside` marks and `seen` does not yet,
/// marking them: gives every pixel reached, and the columns and rows they span.
#[verifier::rlimit(60)]
fn explore(inside: &Vec<bool>, width: u32, height: u32, seen: &mut Vec<bool>, start: usize) -> (res: (
    Vec<usize>,
    u32,
    u32,
    u32,
    u32,
))
    requires
        0 < width,
        inside@.len() == width * height,
        width * height <= u32::MAX,
        start < inside@.len(),
        inside@[start as int],
        old(seen)@.len() == inside@.len(),
        !old(seen)@[start as int],
        forall|i: int| 0 <= i < old(seen)@.len() && #[trigger] old(seen)@[i] ==> inside@[i],
        grid::closed(inside@, width as int, height as int, old(seen)@),
    ensures
        ({
            let r = grid::region(inside@, width as int, height as int, start as int);
            &&& final(seen)@.len() == inside@.len()
            &&& forall|i: int|
                0 <= i < inside@.len() ==> (#[trigger] final(seen)@[i] <==> old(seen)@[i] || r.contains(i))
            &&& forall|i: int| #[trigger] r.contains(i) ==> 0 <= i < inside@.len() && !old(seen)@[i]
            &&& forall|i: int| 0 <= i < final(seen)@.len() && #[trigger] final(seen)@[i] ==> inside@[i]
            &&& grid::closed(inside@, width as int, height as int, final(seen)@)
            &&& r.finite()
            &&& res.0@.len() == r.len()
            &&& r.len() <= inside@.len()
            &&& forall|i: int| 0 <= i < inside@.len() ==> (r.contains(i) <==> #[trigger] res.0@.contains(i as usize))
            &&& forall|m: int| 0 <= m < res.0@.len() ==> (#[trigger] res.0@[m] as int) < inside@.len()
            &&& res.1 < width && res.3 < width && res.2 < height && res.4 < height
            &&& box_of(r, width as int, res.1 as int, res.2 as int, res.3 as int, res.4 as int)
        }),
{
    let ghost w = width as int;
    let ghost h = height as int;
    let ghost set = inside@;
    let ghost s0 = seen@;
    let ghost r = grid::region(set, w, h, start as int);
    proof {
        assert(grid::link(set, w, h, 0, start as int, start as int));
        assert(r.contains(start as int));
        assert(0 < height) by {
            if height == 0 {
                lemma_mul_basics(w);
            }
        }
    }
    seen.set(start, true);
    let mut to_visit: Vec<usize> = Vec::new();
    to_visit.push(start);
    let mut blob: Vec<usize> = Vec::new();
    let mut left: u32 = width - 1;
    let mut top: u32 = height - 1;
    let mut right: u32 = 0;
    let mut bottom: u32 = 0;
    let ghost mut wl: int = start as int;
    let ghost mut wr: int = start as int;
    let ghost mut wt: int = start as int;
    let ghost mut wb: int = start as int;
    proof {
        assert(to_visit@[0] == start);
        assert forall|i: int| 0 <= i < set.len() implies (#[trigger] seen@[i] <==> s0[i] || to_visit@.contains(i as usize)
            || blob@.contains(i as usize)) by {
            if i == start as int {
                assert(to_visit@[0] == start);
            }
            if to_visit@.contains(i as usize) {
                let j = choose|j: int| 0 <= j < to_visit@.len() && to_visit@[j] == i as usize;
                assert(j == 0);
            }
        }
    }
    while to_visit.len() > 0
        invariant
            w == width as int,
            h == height as int,
            0 < width,
            0 < height,
            set == inside@,
            set.len() == width * height,
            width * height <= u32::MAX,
            (start as int) < set.len(),
            s0.len() == set.len(),
            !s0[start as int],
            grid::closed(set, w, h, s0),
            r == grid::region(set, w, h, start as int),
            explore_ok(set, w, h, start as int, s0, seen@, to_visit@, blob@),
            blob@.len() == 0 ==> to_visit@.len() == 1 && to_visit@[0] == start,
            forall|j: int, b: int|
                0 <= j < blob@.len() && #[trigger] grid::step(w, h, blob@[j] as int, b) && 0 <= b < set.len() && set[b]
                    ==> seen@[b],
            left < width && right < width && top < height && bottom < height,
            forall|j: int|
                0 <= j < blob@.len() ==> left <= (#[trigger] blob@[j]) as int % w <= right && top <= blob@[j] as int / w
                    <= bottom,
            blob@.len() > 0 ==> blob@.contains(wl as usize) && wl % w == left && 0 <= wl < set.len(),
            blob@.len() > 0 ==> blob@.contains(wr as usize) && wr % w == right && 0 <= wr < set.len(),
            blob@.len() > 0 ==> blob@.contains(wt as usize) && wt / w == top && 0 <= wt < set.len(),
            blob@.len() > 0 ==> blob@.contains(wb as usize) && wb / w == bottom && 0 <= wb < set.len(),
        decreases 2 * unmarked(seen@) + to_visit@.len(),
    {
        let ghost measure = 2 * unmarked(seen@) + to_visit@.len();
        let ghost t0 = to_visit@;
        let ghost b0 = blob@;
        let index = to_visit.pop().unwrap();
        blob.push(index);
        let x = index as u32 % width;
        let y = index as u32 / width;
        proof {
            assert(t0[t0.len() - 1] == index);
            assert(to_visit@ == t0.drop_last());
            assert(blob@ == b0.push(index));
            lemma_mod_pos_bound(index as int, w);
            lemma_div_pos_is_pos(index as int, w);
            lemma_fundamental_div_mod(index as int, w);
            assert((y as int) < h) by {
                if y >= height {
                    lemma_mul_inequality(h, y as int, w);
                    lemma_mul_is_commutative(w, y as int);
                    lemma_mul_is_commutative(w, h);
                }
            }
        }
        let was_empty = blob.len() == 1;
        if was_empty {
            left = x;
            right = x;
            top = y;
            bottom = y;
            proof {
                wl = index as int;
                wr = index as int;
                wt = index as int;
                wb = index as int;
            }
        } else {
            if x < left {
                left = x;
                proof {
                    wl = index as int;
                }
            }
            if x > right {
                right = x;
                proof {
                    wr = index as int;
                }
            }
            if y < top {
                top = y;
                proof {
                    wt = index as int;
                }
            }
            if y > bottom {
                bottom = y;
                proof {
                    wb = index as int;
                }
            }
        }
        proof {
            assert(blob@[blob@.len() - 1] == index);
            assert(!to_visit@.contains(index)) by {
                if to_visit@.contains(index) {
                    let j = choose|j: int| 0 <= j < to_visit@.len() && to_visit@[j] == index;
                    assert(t0[j] == t0[t0.len() - 1]);
                }
            }
            assert forall|j: int| 0 <= j < blob@.len() implies left <= (#[trigger] blob@[j]) as int % w <= right && top
                <= blob@[j] as int / w <= bottom by {
                if j < blob@.len() - 1 {
                    assert(blob@[j] == b0[j]);
                }
            }
            if !was_empty {
                assert(b0.len() > 0);
                assert forall|v: usize| b0.contains(v) implies blob@.contains(v) by {
                    let j = choose|j: int| 0 <= j < b0.len() && b0[j] == v;
                    assert(blob@[j] == v);
                }
            }
            assert(blob@.contains(index));
            assert(explore_ok(set, w, h, start as int, s0, seen@, to_visit@, blob@)) by {
                assert forall|i: int| 0 <= i < set.len() implies (#[trigger] seen@[i] <==> s0[i] || to_visit@.contains(
                    i as usize,
                ) || blob@.contains(i as usize)) by {
                    if t0.contains(i as usize) {
                        let j = choose|j: int| 0 <= j < t0.len() && t0[j] == i as usize;
                        if j < t0.len() - 1 {
                            assert(to_visit@[j] == i as usize);
                        }
                    }
                    if b0.contains(i as usize) {
                        let j = choose|j: int| 0 <= j < b0.len() && b0[j] == i as usize;
                        assert(blob@[j] == i as usize);
                    }
                    if to_visit@.contains(i as usize) {
                        let j = choose|j: int| 0 <= j < to_visit@.len() && to_visit@[j] == i as usize;
                        assert(t0[j] == i as usize);
                    }
                    if blob@.contains(i as usize) {
                        let j = choose|j: int| 0 <= j < blob@.len() && blob@[j] == i as usize;
                        if j < b0.len() {
                            assert(b0[j] == i as usize);
                        }
                    }
                }
                assert forall|j: int| 0 <= j < to_visit@.len() implies (#[trigger] to_visit@[j] as int) < set.len()
                    && !s0[to_visit@[j] as int] && r.contains(to_visit@[j] as int) by {
                    assert(to_visit@[j] == t0[j]);
                }
                assert forall|j: int| 0 <= j < blob@.len() implies (#[trigger] blob@[j] as int) < set.len()
                    && !s0[blob@[j] as int] && r.contains(blob@[j] as int) by {
                    if j < b0.len() {
                        assert(blob@[j] == b0[j]);
                    }
                }
                assert(to_visit@.no_duplicates()) by {
                    assert forall|a: int, b: int| 0 <= a < b < to_visit@.len() implies to_visit@[a] != to_visit@[b] by {
                        assert(to_visit@[a] == t0[a] && to_visit@[b] == t0[b]);
                    }
                }
                assert(blob@.no_duplicates()) by {
                    assert forall|a: int, b: int| 0 <= a < b < blob@.len() implies blob@[a] != blob@[b] by {
                        if b < b0.len() {
                            assert(blob@[a] == b0[a] && blob@[b] == b0[b]);
                        } else {
                            assert(blob@[a] == b0[a]);
                            assert(t0[t0.len() - 1] == index);
                        }
                    }
                }
                assert forall|j: int, m: int| 0 <= j < to_visit@.len() && 0 <= m < blob@.len() implies #[trigger] to_visit@[j]
                    != #[trigger] blob@[m] by {
                    assert(to_visit@[j] == t0[j]);
                    if m < b0.len() {
                        assert(blob@[m] == b0[m]);
                    }
                }
            }
        }
        let around = grid::visit_neighbours(index, width, height);
        let mut jj: usize = 0;
        while jj < around.len()
            invariant
                w == width as int,
                h == height as int,
                0 < width,
                0 < height,
                set == inside@,
                set.len() == width * height,
                width * height <= u32::MAX,
                (start as int) < set.len(),
                s0.len() == set.len(),
                !s0[start as int],
                grid::closed(set, w, h, s0),
                r == grid::region(set, w, h, start as int),
                explore_ok(set, w, h, start as int, s0, seen@, to_visit@, blob@),
                blob@.len() > 0,
                blob@[blob@.len() - 1] == index,
                (index as int) < set.len(),
                r.contains(index as int),
                around@.len() == grid::neighbours(w, h, index as int).len(),
                forall|m: int|
                    0 <= m < around@.len() ==> #[trigger] around@[m] as int == grid::neighbours(w, h, index as int)[m],
                jj <= around@.len(),
                forall|j: int, b: int|
                    0 <= j < blob@.len() - 1 && #[trigger] grid::step(w, h, blob@[j] as int, b) && 0 <= b < set.len()
                        && set[b] ==> seen@[b],
                forall|m: int| 0 <= m < jj && set[around@[m] as int] ==> #[trigger] seen@[around@[m] as int],
                2 * unmarked(seen@) + to_visit@.len() < measure,
            decreases around@.len() - jj,
        {
            let next = around[jj];
            proof {
                grid::lemma_neighbours(w, h, index as int);
                assert(grid::neighbours(w, h, index as int).contains(next as int));
                assert(grid::step(w, h, index as int, next as int));
                grid::lemma_step_in_range(w, h, index as int, next as int);
            }
            let ghost before_step = seen@;
            if inside[next] && !seen[next] {
                let ghost v0 = to_visit@;
                proof {
                    lemma_unmarked_set(seen@, next as int);
                    grid::lemma_region_inside(set, w, h, start as int, index as int);
                    grid::lemma_joined_step(set, w, h, start as int, index as int, next as int);
                    assert(!to_visit@.contains(next)) by {
                        if to_visit@.contains(next) {
                            let m = choose|m: int| 0 <= m < to_visit@.len() && to_visit@[m] == next;
                            assert(seen@[next as int]);
                        }
                    }
                    assert(!blob@.contains(next)) by {
                        if blob@.contains(next) {
                            let m = choose|m: int| 0 <= m < blob@.len() && blob@[m] == next;
                            assert(seen@[next as int]);
                        }
                    }
                }
                seen.set(next, true);
                to_visit.push(next);
                proof {
                    assert(to_visit@[to_visit@.len() - 1] == next);
                    assert(explore_ok(set, w, h, start as int, s0, seen@, to_visit@, blob@)) by {
                        assert forall|i: int| 0 <= i < set.len() implies (#[trigger] seen@[i] <==> s0[i]
                            || to_visit@.contains(i as usize) || blob@.contains(i as usize)) by {
                            if v0.contains(i as usize) {
                                let j = choose|j: int| 0 <= j < v0.len() && v0[j] == i as usize;
                                assert(to_visit@[j] == i as usize);
                            }
                            if to_visit@.contains(i as usize) && i != next as int {
                                let j = choose|j: int| 0 <= j < to_visit@.len() && to_visit@[j] == i as usize;
                                assert(v0[j] == i as usize);
                            }
                        }
                        assert forall|j: int| 0 <= j < to_visit@.len() implies (#[trigger] to_visit@[j] as int)
                            < set.len() && !s0[to_visit@[j] as int] && r.contains(to_visit@[j] as int) by {
                            if j < v0.len() {
                                assert(to_visit@[j] == v0[j]);
                            }
                        }
                        assert(to_visit@.no_duplicates()) by {
                            assert forall|a: int, b: int| 0 <= a < b < to_visit@.len() implies to_visit@[a]
                                != to_visit@[b] by {
                                if b < v0.len() {
                                    assert(to_visit@[a] == v0[a] && to_visit@[b] == v0[b]);
                                } else {
                                    assert(to_visit@[a] == v0[a]);
                                }
                            }
                        }
                        assert forall|j: int, m: int| 0 <= j < to_visit@.len() && 0 <= m < blob@.len() implies #[trigger] to_visit@[j]
                            != #[trigger] blob@[m] by {
                            if j < v0.len() {
                                assert(to_visit@[j] == v0[j]);
                            }
                        }
                    }
                }
            }
            proof {
                grid::lemma_neighbours(w, h, index as int);
                assert forall|m: int| 0 <= m < jj + 1 && set[around@[m] as int] implies #[trigger] seen@[around@[m] as int] by {
                    assert(grid::neighbours(w, h, index as int).contains(around@[m] as int));
                    grid::lemma_step_in_range(w, h, index as int, around@[m] as int);
                    if m < jj {
                        assert(before_step[around@[m] as int]);
                    }
                }
                assert forall|j: int, b: int|
                    0 <= j < blob@.len() - 1 && #[trigger] grid::step(w, h, blob@[j] as int, b) && 0 <= b < set.len()
                        && set[b] implies seen@[b] by {
                    assert(before_step[b]);
                }
            }
            jj = jj + 1;
        }
        proof {
            grid::lemma_neighbours(w, h, index as int);
            assert forall|j: int, b: int|
                0 <= j < blob@.len() && #[trigger] grid::step(w, h, blob@[j] as int, b) && 0 <= b < set.len() && set[b]
                    implies seen@[b] by {
                if j == blob@.len() - 1 {
                    assert(grid::neighbours(w, h, index as int).contains(b));
                    let m = choose|m: int|
                        0 <= m < grid::neighbours(w, h, index as int).len() && grid::neighbours(w, h, index as int)[m]
                            == b;
                    assert(around@[m] as int == b);
                }
            }
        }
    }
    proof {
        assert(blob@.contains(start)) by {
            assert(seen@[start as int]);
        }
        assert forall|i: int| 0 <= i < set.len() implies (#[trigger] seen@[i] <==> s0[i] || blob@.contains(i as usize)) by {
            assert(!to_visit@.contains(i as usize));
        }
        assert forall|i: int| #[trigger] r.contains(i) implies 0 <= i < set.len() && blob@.contains(i as usize) && !s0[i] by {
            grid::lemma_region_inside(set, w, h, start as int, i);
            let k = choose|k: nat| #[trigger] grid::link(set, w, h, k, start as int, i);
            lemma_explored_covers(set, w, h, s0, seen@, blob@, k, start as int, i);
        }
        assert forall|i: int| 0 <= i < set.len() implies (r.contains(i) <==> #[trigger] blob@.contains(i as usize)) by {
            if blob@.contains(i as usize) {
                let j = choose|j: int| 0 <= j < blob@.len() && blob@[j] == i as usize;
            }
        }
        assert forall|i: int| 0 <= i < set.len() implies (#[trigger] seen@[i] <==> s0[i] || r.contains(i)) by {}
        let bi = blob@.map_values(|v: usize| v as int);
        assert(bi.no_duplicates()) by {
            assert forall|a: int, b: int| 0 <= a < b < bi.len() implies bi[a] != bi[b] by {
                assert(blob@[a] != blob@[b]);
            }
        }
        assert(bi.to_set() =~= r) by {
            assert forall|i: int| bi.to_set().contains(i) <==> r.contains(i) by {
                if bi.to_set().contains(i) {
                    let j = choose|j: int| 0 <= j < bi.len() && bi[j] == i;
                    assert(blob@[j] as int == i);
                }
                if r.contains(i) {
                    assert(blob@.contains(i as usize));
                    let j = choose|j: int| 0 <= j < blob@.len() && blob@[j] == i as usize;
                    assert(bi[j] == i);
                }
            }
        }
        bi.unique_seq_to_set();
        vstd::set_lib::lemma_int_range(0, set.len() as int);
        assert(r.subset_of(vstd::set_lib::set_int_range(0, set.len() as int)));
        vstd::set_lib::lemma_len_subset(r, vstd::set_lib::set_int_range(0, set.len() as int));
        assert(grid::closed(set, w, h, seen@)) by {
            assert forall|i: int, b: int|
                0 <= i < seen@.len() && #[trigger] seen@[i] && #[trigger] grid::step(w, h, i, b) && 0 <= b < set.len()
                    && set[b] implies seen@[b] by {
                if s0[i] {
                    assert(s0[b]);
                } else {
                    assert(blob@.contains(i as usize));
                    let j = choose|j: int| 0 <= j < blob@.len() && blob@[j] == i as usize;
                    assert(grid::step(w, h, blob@[j] as int, b));
                }
            }
        }
        assert(box_of(r, w, left as int, top as int, right as int, bottom as int)) by {
            assert forall|i: int| #[trigger] r.contains(i) implies left <= i % w <= right && top <= i / w <= bottom by {
                let j = choose|j: int| 0 <= j < blob@.len() && blob@[j] == i as usize;
                assert(blob@[j] as int == i);
            }
            assert(r.contains(wl));
            assert(r.contains(wr));
            assert(r.contains(wt));
            assert(r.contains(wb));
        }
    }
    (blob, left, top, right, bottom)
}


/// The patch of `inside` that holds pixel `s`, written as `area`, `rect` and `mask`:
/// `s` is its first pixel, every patch that starts before it is smaller, and `rect`
/// is the smallest box that holds it.
pub open spec fn patch_at(inside: Seq<bool>, w: int, h: int, s: int, area: u32, rect: Rect, mask: Seq<bool>) -> bool {
    let r = grid::region(inside, w, h, s);
    &&& 0 <= s < inside.len()
    &&& inside[s]
    &&& mask.len() == inside.len()
    &&& forall|i: int| 0 <= i < inside.len() ==> (#[trigger] mask[i] <==> r.contains(i))
    &&& area == r.len()
    &&& forall|i: int| 0 <= i < s ==> !#[trigger] r.contains(i)
    &&& forall|p: int| 0 <= p < s && inside[p] ==> #[trigger] grid::region(inside, w, h, p).len() < area
    &&& rect.width >= 1 && rect.height >= 1
    &&& box_of(r, w, rect.x as int, rect.y as int, rect.x + rect.width - 1, rect.y + rect.height - 1)
}

/// The largest patch: no patch is bigger, and of those as big it is the one whose
/// first pixel comes first.
pub open spec fn largest_patch(inside: Seq<bool>, w: int, h: int, area: u32, rect: Rect, mask: Seq<bool>) -> bool {
    &&& exists|s: int| #[trigger] patch_at(inside, w, h, s, area, rect, mask)
    &&& forall|p: int| 0 <= p < inside.len() && inside[p] ==> #[trigger] grid::region(inside, w, h, p).len() <= area
}

/// The biggest run of pixels that are set and touch each other: its size, the box it
/// sits in, and which pixels belong to it.
///
/// Connected rather than simply "all of them": a reflection off to one side and the
/// sheet in the middle are both not background, and taking them together would give
/// a box that spans the two. Walking outwards from a pixel keeps them apart. Of two
/// patches equally big, the one met first, scanning row by row, is kept.
pub fn largest_blob(inside: &Vec<bool>, width: u32, height: u32) -> (res: Option<(u32, Rect, Vec<bool>)>)
    requires
        inside@.len() == width * height,
        width * height <= u32::MAX,
    ensures
        res is None <==> forall|i: int| 0 <= i < inside@.len() ==> !inside@[i],
        res matches Some((area, rect, mask)) ==> largest_patch(inside@, width as int, height as int, area, rect, mask@),
{
    let ghost w = width as int;
    let ghost h = height as int;
    let n = inside.len();
    let mut seen: Vec<bool> = Vec::new();
    while seen.len() < n
        invariant
            seen@.len() <= n,
            forall|i: int| 0 <= i < seen@.len() ==> !seen@[i],
        decreases n - seen@.len(),
    {
        seen.push(false);
    }
    let mut largest: Option<(u32, Rect, Vec<bool>)> = None;
    let ghost mut best: int = 0;
    let mut start: usize = 0;
    while start < n
        invariant
            w == width as int,
            h == height as int,
            n == inside@.len(),
            inside@.len() == width * height,
            width * height <= u32::MAX,
            start <= n,
            seen@.len() == n,
            forall|i: int| 0 <= i < n && #[trigger] seen@[i] ==> inside@[i],
            grid::closed(inside@, w, h, seen@),
            forall|i: int| 0 <= i < start && inside@[i] ==> #[trigger] seen@[i],
            forall|i: int|
                0 <= i < n && #[trigger] seen@[i] ==> (largest matches Some((a, _, _)) && grid::region(inside@, w, h, i).len()
                    <= a),
            largest is None ==> forall|i: int| 0 <= i < start ==> !inside@[i],
            largest matches Some((a, rect, mask)) ==> patch_at(inside@, w, h, best, a, rect, mask@) && best < start,
        decreases n - start,
    {
        if inside[start] && !seen[start] {
            let ghost s0 = seen@;
            let ghost l0 = largest;
            proof {
                assert(0 < width) by {
                    if width == 0 {
                        lemma_mul_basics(h);
                    }
                }
            }
            let (blob, left, top, right, bottom) = explore(inside, width, height, &mut seen, start);
            let ghost r = grid::region(inside@, w, h, start as int);
            let area = blob.len() as u32;
            let better = match &largest {
                None => true,
                Some((biggest, _, _)) => area > *biggest,
            };
            proof {
                assert(r.contains(start as int)) by {
                    assert(grid::link(inside@, w, h, 0, start as int, start as int));
                }
                assert forall|i: int| 0 <= i < start implies !#[trigger] r.contains(i) by {
                    if r.contains(i) {
                        grid::lemma_region_inside(inside@, w, h, start as int, i);
                        assert(s0[i]);
                    }
                }
                assert forall|i: int| #[trigger] r.contains(i) implies grid::region(inside@, w, h, i).len() == area by {
                    grid::lemma_same_region(inside@, w, h, start as int, i);
                }
            }
            if better {
                let mut mask: Vec<bool> = Vec::new();
                while mask.len() < n
                    invariant
                        mask@.len() <= n,
                        forall|i: int| 0 <= i < mask@.len() ==> !mask@[i],
                    decreases n - mask@.len(),
                {
                    mask.push(false);
                }
                let mut j: usize = 0;
                while j < blob.len()
                    invariant
                        n == inside@.len(),
                        mask@.len() == n,
                        j <= blob@.len(),
                        forall|i: int| 0 <= i < n ==> (r.contains(i) <==> #[trigger] blob@.contains(i as usize)),
                        forall|m: int| 0 <= m < blob@.len() ==> (#[trigger] blob@[m] as int) < n,
                        forall|i: int| 0 <= i < n ==> (#[trigger] mask@[i] <==> blob@.subrange(0, j as int).contains(i as usize)),
                    decreases blob@.len() - j,
                {
                    proof {
                        assert(blob@.contains(blob@[j as int]));
                    }
                    let ghost m0 = mask@;
                    mask.set(blob[j], true);
                    proof {
                        assert forall|i: int| 0 <= i < n implies (#[trigger] mask@[i] <==> blob@.subrange(0, j + 1).contains(
                            i as usize,
                        )) by {
                            let before = blob@.subrange(0, j as int);
                            let after = blob@.subrange(0, j + 1);
                            if before.contains(i as usize) {
                                let m = choose|m: int| 0 <= m < before.len() && #[trigger] before[m] == i as usize;
                                assert(after[m] == i as usize);
                            }
                            if after.contains(i as usize) {
                                let m = choose|m: int| 0 <= m < after.len() && #[trigger] after[m] == i as usize;
                                if m < j {
                                    assert(before[m] == i as usize);
                                }
                            }
                            if i == blob@[j as int] as int {
                                assert(blob@.subrange(0, j + 1)[j as int] == i as usize);
                            }
                        }
                    }
                    j = j + 1;
                }
                proof {
                    assert(blob@.subrange(0, blob@.len() as int) =~= blob@);
                }
                largest = Some((area, Rect { x: left, y: top, width: right - left + 1, height: bottom - top + 1 }, mask));
                proof {
                    best = start as int;
                }
            }
            proof {
                assert forall|i: int|
                    0 <= i < n && #[trigger] seen@[i] implies (largest matches Some((a, _, _)) && grid::region(
                    inside@,
                    w,
                    h,
                    i,
                ).len() <= a) by {
                    if !s0[i] {
                        assert(r.contains(i));
                    }
                }
                if better {
                    assert forall|p: int| 0 <= p < start && inside@[p] implies #[trigger] grid::region(inside@, w, h, p).len()
                        < area by {
                        assert(s0[p]);
                    }
                    let lg = largest;
                    match lg {
                        Some((a, rect, mask)) => {
                            assert(forall|i: int| 0 <= i < inside@.len() ==> (#[trigger] mask@[i] <==> r.contains(i)));
                            assert(patch_at(inside@, w, h, best, a, rect, mask@));
                        },
                        None => {},
                    }
                }
            }
        }
        start = start + 1;
    }
    proof {
        let lg = largest;
        match lg {
            Some((a, rect, mask)) => {
                assert(patch_at(inside@, w, h, best, a, rect, mask@));
                assert forall|p: int| 0 <= p < inside@.len() && inside@[p] implies #[trigger] grid::region(
                    inside@,
                    w,
                    h,
                    p,
                ).len() <= a by {
                    assert(seen@[p]);
                }
            },
            None => {},
        }
    }
    largest
}


/// How many of the first `n` pixels have brightness `v`.
pub open spec fn occurrences(pixels: Seq<u8>, v: int, n: int) -> int
    decreases n,
{
    if n <= 0 {
        0
    } else {
        occurrences(pixels, v, n - 1) + (if pixels[n - 1] == v {
            1int
        } else {
            0int
        })
    }
}

proof fn lemma_occurrences_bound(pixels: Seq<u8>, v: int, n: int)
    ensures
        0 <= occurrences(pixels, v, n) <= (if n < 0 {
            0
        } else {
            n
        }),
    decreases n,
{
    if n > 0 {
        lemma_occurrences_bound(pixels, v, n - 1);
    }
}

/// How often every brightness turns up among the pixels of a grey picture.
pub fn brightness_histogram(gray: &[u8]) -> (counts: [u32; 256])
    requires
        gray@.len() <= u32::MAX,
    ensures
        forall|v: int| 0 <= v < 256 ==> #[trigger] counts@[v] == occurrences(gray@, v, gray@.len() as int),
{
    let mut counts = [0u32; 256];
    let mut i: usize = 0;
    while i < gray.len()
        invariant
            i <= gray@.len(),
            gray@.len() <= u32::MAX,
            counts@.len() == 256,
            forall|v: int| 0 <= v < 256 ==> #[trigger] counts@[v] == occurrences(gray@, v, i as int),
        decreases gray@.len() - i,
    {
        let value = gray[i] as usize;
        proof {
            lemma_occurrences_bound(gray@, value as int, i as int);
        }
        let c = counts[value];
        counts[value] = c + 1;
        i = i + 1;
    }
    counts
}

/// The first brightness from `v` on below which, counting it, at least half of
/// `total` pixels lie.
pub open spec fn half_way_from(counts: Seq<u32>, v: int, total: int) -> int
    decreases 256 - v,
{
    if v < 0 || v >= 255 {
        255
    } else if 2 * levels::below(counts, v + 1) >= total {
        v
    } else {
        half_way_from(counts, v + 1, total)
    }
}

/// The brightness half the counted pixels are below, or nothing when nothing is
/// counted. The middle rather than the average, so the writing on the paper and a
/// shadow on the table pull neither level towards themselves.
pub fn middle_brightness(counts: &[u32; 256]) -> (middle: Option<u8>)
    ensures
        middle is None <==> levels::below(counts@, 256) == 0,
        middle matches Some(v) ==> v == half_way_from(counts@, 0, levels::below(counts@, 256)),
{
    let mut total: u64 = 0;
    let mut i: usize = 0;
    while i < 256
        invariant
            i <= 256,
            counts@.len() == 256,
            total == levels::below(counts@, i as int),
            total <= i * 0xFFFF_FFFF,
        decreases 256 - i,
    {
        total = total + counts[i] as u64;
        i = i + 1;
    }
    if total == 0 {
        return None;
    }
    let mut seen: u64 = 0;
    let mut value: usize = 0;
    while value < 256
        invariant
            value <= 256,
            counts@.len() == 256,
            total == levels::below(counts@, 256),
            total > 0,
            total <= 256 * 0xFFFF_FFFF,
            seen == levels::below(counts@, value as int),
            value < 256 ==> half_way_from(counts@, 0, total as int) == half_way_from(counts@, value as int, total as int),
            value > 0 ==> 2 * levels::below(counts@, value as int) < total,
        decreases 256 - value,
    {
        proof {
            levels::lemma_below_grows(counts@, value + 1, 256);
        }
        seen = seen + counts[value] as u64;
        if seen * 2 >= total {
            return Some(value as u8);
        }
        value = value + 1;
    }
    proof {
        assert(2 * levels::below(counts@, 256) < total);
    }
    None
}

/// The middle of what the rough area covers on one scanline, as the place to start a
/// ray from. The middle rather than an end, because an end of the rough area is
/// exactly where a lobe of sheen hangs off it.
pub fn middle_of_the_scanline(places: &Vec<i32>) -> (middle: Option<i32>)
    ensures
        middle is None <==> places@.len() == 0,
        middle matches Some(p) ==> p == places@[(places@.len() / 2) as int],
{
    if places.len() / 2 < places.len() {
        Some(places[places.len() / 2])
    } else {
        None
    }
}

} // verus!
