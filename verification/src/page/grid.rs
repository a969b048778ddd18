//! The pixel grid the sheet search floods over: which pixels touch, and which can be
//! walked to from one another without leaving pixels of one kind.
//!
//! Pixels are numbered row by row, so pixel `a` of a picture `w` wide stands in
//! column `a % w` of row `a / w`.

use vstd::prelude::*;
use vstd::arithmetic::div_mod::*;
use vstd::arithmetic::mul::*;

verus! {

/// Pixel `b` is one step left, right, up or down from pixel `a`, in a picture `w`
/// pixels wide and `h` high.
pub open spec fn step(w: int, h: int, a: int, b: int) -> bool {
    &&& 0 < w
    &&& 0 <= a < w * h
    &&& ((a % w > 0 && b == a - 1) || (a % w + 1 < w && b == a + 1) || (a / w > 0 && b == a - w) || (a / w + 1
        < h && b == a + w))
}

/// The pixels one step from `a`, in the order the search visits them: left, right,
/// up, down.
pub open spec fn neighbours(w: int, h: int, a: int) -> Seq<int> {
    (if a % w > 0 {
        seq![a - 1]
    } else {
        seq![]
    }) + (if a % w + 1 < w {
        seq![a + 1]
    } else {
        seq![]
    }) + (if a / w > 0 {
        seq![a - w]
    } else {
        seq![]
    }) + (if a / w + 1 < h {
        seq![a + w]
    } else {
        seq![]
    })
}

/// A step never leaves the picture.
pub proof fn lemma_step_in_range(w: int, h: int, a: int, b: int)
    requires
        step(w, h, a, b),
    ensures
        0 <= b < w * h,
{
    let q = a / w;
    let r = a % w;
    lemma_fundamental_div_mod(a, w);
    lemma_mod_pos_bound(a, w);
    assert(a == w * q + r);
    assert(q < h) by {
        if q >= h {
            lemma_mul_inequality(h, q, w);
            lemma_mul_is_commutative(w, q);
            lemma_mul_is_commutative(w, h);
        }
    }
    assert(q >= 0) by {
        lemma_div_pos_is_pos(a, w);
    }
    if r + 1 < w && b == a + 1 {
        assert(w * q + w <= w * h) by {
            lemma_mul_inequality(q + 1, h, w);
            lemma_mul_is_commutative(w, q + 1);
            lemma_mul_is_commutative(w, h);
            lemma_mul_is_distributive_add(w, q, 1);
        }
    } else if q + 1 < h && b == a + w {
        assert(w * q + 2 * w <= w * h) by {
            lemma_mul_inequality(q + 2, h, w);
            lemma_mul_is_commutative(w, q + 2);
            lemma_mul_is_commutative(w, h);
            lemma_mul_is_distributive_add(w, q, 2);
        }
    } else if q > 0 && b == a - w {
        assert(w * q >= w) by {
            lemma_mul_inequality(1, q, w);
            lemma_mul_is_commutative(w, q);
        }
    }
}

/// Steps go both ways.
pub proof fn lemma_step_back(w: int, h: int, a: int, b: int)
    requires
        step(w, h, a, b),
    ensures
        step(w, h, b, a),
{
    lemma_step_in_range(w, h, a, b);
    let q = a / w;
    let r = a % w;
    lemma_fundamental_div_mod(a, w);
    lemma_mod_pos_bound(a, w);
    assert(a == q * w + r) by {
        lemma_mul_is_commutative(w, q);
    }
    if r > 0 && b == a - 1 {
        lemma_fundamental_div_mod_converse(b, w, q, r - 1);
        assert(b % w + 1 < w && a == b + 1);
    } else if r + 1 < w && b == a + 1 {
        lemma_fundamental_div_mod_converse(b, w, q, r + 1);
        assert(b % w > 0 && a == b - 1);
    } else if q > 0 && b == a - w {
        assert(b == (q - 1) * w + r) by {
            lemma_mul_is_distributive_sub(w, q, 1);
            lemma_mul_is_commutative(w, q - 1);
            lemma_mul_is_commutative(w, q);
        }
        lemma_fundamental_div_mod_converse(b, w, q - 1, r);
        assert(q < h) by {
            if q >= h {
                lemma_mul_inequality(h, q, w);
                lemma_mul_is_commutative(w, q);
                lemma_mul_is_commutative(w, h);
            }
        }
        assert(b / w + 1 < h && a == b + w);
    } else {
        assert(q + 1 < h && b == a + w);
        assert(b == (q + 1) * w + r) by {
            lemma_mul_is_distributive_add(w, q, 1);
            lemma_mul_is_commutative(w, q + 1);
            lemma_mul_is_commutative(w, q);
        }
        lemma_fundamental_div_mod_converse(b, w, q + 1, r);
        assert(b / w > 0 && a == b - w);
    }
}

/// The neighbours listed are exactly the pixels one step away.
pub proof fn lemma_neighbours(w: int, h: int, a: int)
    requires
        0 < w,
        0 <= a < w * h,
    ensures
        forall|b: int| step(w, h, a, b) <==> #[trigger] neighbours(w, h, a).contains(b),
{
    let n = neighbours(w, h, a);
    assert forall|b: int| step(w, h, a, b) implies #[trigger] n.contains(b) by {
        let s1: Seq<int> = if a % w > 0 {
            seq![a - 1]
        } else {
            seq![]
        };
        let s2: Seq<int> = if a % w + 1 < w {
            seq![a + 1]
        } else {
            seq![]
        };
        let s3: Seq<int> = if a / w > 0 {
            seq![a - w]
        } else {
            seq![]
        };
        let s4: Seq<int> = if a / w + 1 < h {
            seq![a + w]
        } else {
            seq![]
        };
        assert(n == s1 + s2 + s3 + s4);
        if a % w > 0 && b == a - 1 {
            assert(n[0] == b);
        } else if a % w + 1 < w && b == a + 1 {
            assert(n[s1.len() as int] == b);
        } else if a / w > 0 && b == a - w {
            assert(n[(s1.len() + s2.len()) as int] == b);
        } else {
            assert(n[(s1.len() + s2.len() + s3.len()) as int] == b);
        }
    }
}

/// A walk of at most `k` steps from `a` to `b` over pixels that `set` marks.
pub open spec fn link(set: Seq<bool>, w: int, h: int, k: nat, a: int, b: int) -> bool
    decreases k,
{
    &&& 0 <= b < set.len()
    &&& set[b]
    &&& (a == b || (k > 0 && exists|j: int| #[trigger] step(w, h, j, b) && link(set, w, h, (k - 1) as nat, a, j)))
}

/// `b` can be walked to from `a` over pixels that `set` marks.
pub open spec fn joined(set: Seq<bool>, w: int, h: int, a: int, b: int) -> bool {
    exists|k: nat| #[trigger] link(set, w, h, k, a, b)
}

/// Every pixel that can be walked to from `a` over pixels that `set` marks.
pub open spec fn region(set: Seq<bool>, w: int, h: int, a: int) -> Set<int> {
    Set::new(|i: int| joined(set, w, h, a, i))
}

/// A walk starts on a marked pixel.
pub proof fn lemma_link_start(set: Seq<bool>, w: int, h: int, k: nat, a: int, b: int)
    requires
        link(set, w, h, k, a, b),
    ensures
        0 <= a < set.len(),
        set[a],
    decreases k,
{
    if a != b {
        let j = choose|j: int| #[trigger] step(w, h, j, b) && link(set, w, h, (k - 1) as nat, a, j);
        lemma_link_start(set, w, h, (k - 1) as nat, a, j);
    }
}

/// A walk of at most `k` steps is one of at most `m` steps too, for `m` at least `k`.
pub proof fn lemma_link_longer(set: Seq<bool>, w: int, h: int, k: nat, m: nat, a: int, b: int)
    requires
        link(set, w, h, k, a, b),
        k <= m,
    ensures
        link(set, w, h, m, a, b),
    decreases k,
{
    if a != b {
        let j = choose|j: int| #[trigger] step(w, h, j, b) && link(set, w, h, (k - 1) as nat, a, j);
        lemma_link_longer(set, w, h, (k - 1) as nat, (m - 1) as nat, a, j);
    }
}

/// Two walks, one after the other.
pub proof fn lemma_link_then(set: Seq<bool>, w: int, h: int, k1: nat, k2: nat, a: int, b: int, c: int)
    requires
        link(set, w, h, k1, a, b),
        link(set, w, h, k2, b, c),
    ensures
        link(set, w, h, k1 + k2, a, c),
    decreases k2,
{
    if b == c {
        lemma_link_longer(set, w, h, k1, k1 + k2, a, c);
    } else {
        let j = choose|j: int| #[trigger] step(w, h, j, c) && link(set, w, h, (k2 - 1) as nat, b, j);
        lemma_link_then(set, w, h, k1, (k2 - 1) as nat, a, b, j);
        assert((k1 + k2 - 1) as nat == k1 + (k2 - 1) as nat);
    }
}

/// A walk taken backwards.
pub proof fn lemma_link_back(set: Seq<bool>, w: int, h: int, k: nat, a: int, b: int)
    requires
        link(set, w, h, k, a, b),
    ensures
        link(set, w, h, k, b, a),
    decreases k,
{
    lemma_link_start(set, w, h, k, a, b);
    if a != b {
        let j = choose|j: int| #[trigger] step(w, h, j, b) && link(set, w, h, (k - 1) as nat, a, j);
        lemma_link_back(set, w, h, (k - 1) as nat, a, j);
        lemma_step_back(w, h, j, b);
        lemma_link_start(set, w, h, (k - 1) as nat, a, j);
        assert(link(set, w, h, 0, j, j));
        assert(link(set, w, h, 0, b, b));
        assert(step(w, h, b, j));
        assert(link(set, w, h, 1, b, j));
        lemma_link_then(set, w, h, 1, (k - 1) as nat, b, j, a);
    }
}

/// Walking goes both ways.
pub proof fn lemma_joined_back(set: Seq<bool>, w: int, h: int, a: int, b: int)
    requires
        joined(set, w, h, a, b),
    ensures
        joined(set, w, h, b, a),
{
    let k = choose|k: nat| #[trigger] link(set, w, h, k, a, b);
    lemma_link_back(set, w, h, k, a, b);
}

/// Walks join up.
pub proof fn lemma_joined_then(set: Seq<bool>, w: int, h: int, a: int, b: int, c: int)
    requires
        joined(set, w, h, a, b),
        joined(set, w, h, b, c),
    ensures
        joined(set, w, h, a, c),
{
    let k1 = choose|k: nat| #[trigger] link(set, w, h, k, a, b);
    let k2 = choose|k: nat| #[trigger] link(set, w, h, k, b, c);
    lemma_link_then(set, w, h, k1, k2, a, b, c);
}

/// Two pixels that can be walked between have the same region.
pub proof fn lemma_same_region(set: Seq<bool>, w: int, h: int, a: int, b: int)
    requires
        joined(set, w, h, a, b),
    ensures
        region(set, w, h, a) == region(set, w, h, b),
{
    lemma_joined_back(set, w, h, a, b);
    assert forall|i: int| region(set, w, h, a).contains(i) <==> region(set, w, h, b).contains(i) by {
        if joined(set, w, h, a, i) {
            lemma_joined_then(set, w, h, b, a, i);
        }
        if joined(set, w, h, b, i) {
            lemma_joined_then(set, w, h, a, b, i);
        }
    }
    assert(region(set, w, h, a) =~= region(set, w, h, b));
}


/// One more step onto a marked pixel keeps it walkable.
pub proof fn lemma_joined_step(set: Seq<bool>, w: int, h: int, a: int, i: int, b: int)
    requires
        joined(set, w, h, a, i),
        step(w, h, i, b),
        0 <= b < set.len(),
        set[b],
    ensures
        joined(set, w, h, a, b),
{
    let k = choose|k: nat| #[trigger] link(set, w, h, k, a, i);
    assert(link(set, w, h, k + 1, a, b));
}

/// Whatever `seen` marks, it also marks every pixel of `set` one step away.
pub open spec fn closed(set: Seq<bool>, w: int, h: int, seen: Seq<bool>) -> bool {
    forall|i: int, b: int|
        0 <= i < seen.len() && #[trigger] seen[i] && #[trigger] step(w, h, i, b) && 0 <= b < set.len() && set[b]
            ==> seen[b]
}

/// A closed marking that holds one end of a walk holds the other.
pub proof fn lemma_closed_keeps(set: Seq<bool>, w: int, h: int, seen: Seq<bool>, k: nat, a: int, b: int)
    requires
        seen.len() == set.len(),
        closed(set, w, h, seen),
        0 <= a < seen.len(),
        seen[a],
        link(set, w, h, k, a, b),
    ensures
        seen[b],
    decreases k,
{
    if a != b {
        let j = choose|j: int| #[trigger] step(w, h, j, b) && link(set, w, h, (k - 1) as nat, a, j);
        lemma_closed_keeps(set, w, h, seen, (k - 1) as nat, a, j);
        lemma_link_start(set, w, h, (k - 1) as nat, j, j);
    }
}

/// A region holds only marked pixels of the picture.
pub proof fn lemma_region_inside(set: Seq<bool>, w: int, h: int, a: int, i: int)
    requires
        region(set, w, h, a).contains(i),
    ensures
        0 <= i < set.len(),
        set[i],
{
    let k = choose|k: nat| #[trigger] link(set, w, h, k, a, i);
}

/// The pixels one step left, right, up and down from pixel `index`, skipping those
/// off the edge, in that order.
pub fn visit_neighbours(index: usize, width: u32, height: u32) -> (v: Vec<usize>)
    requires
        0 < width,
        index < width * height,
        width * height <= u32::MAX,
    ensures
        v@.len() == neighbours(width as int, height as int, index as int).len(),
        forall|j: int| 0 <= j < v@.len() ==> #[trigger] v@[j] as int == neighbours(width as int, height as int, index as int)[j],
{
    let ghost w = width as int;
    let ghost h = height as int;
    let ghost a = index as int;
    let x = index as u32 % width;
    let y = index as u32 / width;
    proof {
        lemma_fundamental_div_mod(a, w);
        lemma_mod_pos_bound(a, w);
        lemma_div_pos_is_pos(a, w);
        assert(y < height) by {
            if y >= height {
                lemma_mul_inequality(h, y as int, w);
                lemma_mul_is_commutative(w, y as int);
                lemma_mul_is_commutative(w, h);
            }
        }
    }
    let mut v: Vec<usize> = Vec::new();
    let ghost s1: Seq<int> = if a % w > 0 {
        seq![a - 1]
    } else {
        seq![]
    };
    let ghost s2: Seq<int> = if a % w + 1 < w {
        seq![a + 1]
    } else {
        seq![]
    };
    let ghost s3: Seq<int> = if a / w > 0 {
        seq![a - w]
    } else {
        seq![]
    };
    let ghost s4: Seq<int> = if a / w + 1 < h {
        seq![a + w]
    } else {
        seq![]
    };
    if x > 0 {
        v.push(index - 1);
    }
    assert(v@.len() == s1.len() && forall|j: int| 0 <= j < v@.len() ==> v@[j] as int == s1[j]);
    if x + 1 < width {
        proof {
            lemma_step_in_range(w, h, a, a + 1);
        }
        v.push(index + 1);
    }
    assert(v@.len() == (s1 + s2).len() && forall|j: int| 0 <= j < v@.len() ==> v@[j] as int == (s1 + s2)[j]);
    if y > 0 {
        proof {
            lemma_fundamental_div_mod(a, w);
            assert(w * (a / w) >= w) by {
                lemma_mul_inequality(1, a / w, w);
                lemma_mul_is_commutative(w, a / w);
            }
        }
        v.push(index - width as usize);
    }
    assert(v@.len() == (s1 + s2 + s3).len() && forall|j: int|
        0 <= j < v@.len() ==> v@[j] as int == (s1 + s2 + s3)[j]);
    if y + 1 < height {
        proof {
            lemma_step_in_range(w, h, a, a + w);
        }
        v.push(index + width as usize);
    }
    assert(neighbours(w, h, a) == s1 + s2 + s3 + s4);
    v
}

} // verus!
