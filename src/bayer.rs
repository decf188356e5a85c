//! Threshold matrices for ordered dithering of any size, built by greedy
//! farthest-point placement on a torus.
use vstd::prelude::*;
use vstd::set_lib::{lemma_int_range, lemma_len_subset, lemma_subset_equality, set_int_range};
use crate::image::lemma_pixel_coords;

verus! {

/// Distance between coordinates `a` and `b` on a circle of `n` positions.
pub open spec fn axis_dist(a: int, b: int, n: int) -> int {
    let d = if a >= b {
        a - b
    } else {
        b - a
    };
    if d < n - d {
        d
    } else {
        n - d
    }
}

/// Toroidal Manhattan distance between cells `p` and `q` of a `w` x `h`
/// grid (cells numbered row by row).
pub open spec fn tdist(w: int, h: int, p: int, q: int) -> int {
    axis_dist(p % w, q % w, w) + axis_dist(p / w, q / w, h)
}

/// Smallest distance from cell `p` to the cells of `placed` (`w + h`,
/// more than any distance, when there are none).
pub open spec fn min_dist(w: int, h: int, p: int, placed: Seq<int>) -> int
    decreases placed.len(),
{
    if placed.len() == 0 {
        w + h
    } else {
        let m = min_dist(w, h, p, placed.drop_last());
        let d = tdist(w, h, p, placed.last());
        if d < m {
            d
        } else {
            m
        }
    }
}

/// `c` is the next cell to place after `placed`: among the free cells it
/// is farthest from every placed one, and the first such in row-major order.
pub open spec fn is_choice(w: int, h: int, placed: Seq<int>, c: int) -> bool {
    &&& 0 <= c < w * h
    &&& !placed.contains(c)
    &&& forall|q: int|
        0 <= q < w * h && !placed.contains(q) ==> #[trigger] min_dist(w, h, q, placed) <= min_dist(
            w,
            h,
            c,
            placed,
        )
    &&& forall|q: int|
        0 <= q < c && !placed.contains(q) ==> #[trigger] min_dist(w, h, q, placed) < min_dist(
            w,
            h,
            c,
            placed,
        )
}

pub open spec fn next_cell(w: int, h: int, placed: Seq<int>) -> int {
    choose|c: int| is_choice(w, h, placed, c)
}

/// The cells in the order they receive ranks `0, 1, ..., k - 1`: cell 0
/// first, then each next choice.
pub open spec fn placement(w: int, h: int, k: nat) -> Seq<int>
    decreases k,
{
    if k <= 1 {
        seq![0int]
    } else {
        let p = placement(w, h, (k - 1) as nat);
        p.push(next_cell(w, h, p))
    }
}

/// The rank of every cell of the `w` x `h` matrix.
pub open spec fn bayer_matrix(w: int, h: int) -> Seq<int> {
    let order = placement(w, h, (w * h) as nat);
    Seq::new((w * h) as nat, |p: int| choose|v: int| 0 <= v < w * h && order[v] == p)
}

/// Some cell of `m` holds rank `v`.
pub open spec fn rank_occurs(m: Seq<u32>, v: int) -> bool {
    exists|p: int| 0 <= p < m.len() && m[p] == v
}

pub open spec fn ints(s: Seq<usize>) -> Seq<int> {
    s.map_values(|v: usize| v as int)
}

/// There is at most one next cell.
pub proof fn lemma_choice_unique(w: int, h: int, placed: Seq<int>, a: int, b: int)
    requires
        is_choice(w, h, placed, a),
        is_choice(w, h, placed, b),
    ensures
        a == b,
{
    if a < b {
        assert(min_dist(w, h, a, placed) < min_dist(w, h, b, placed));
        assert(min_dist(w, h, b, placed) <= min_dist(w, h, a, placed));
    } else if b < a {
        assert(min_dist(w, h, b, placed) < min_dist(w, h, a, placed));
        assert(min_dist(w, h, a, placed) <= min_dist(w, h, b, placed));
    }
}

/// Pigeonhole on distinct cells of `[0, n)`: fewer than `n` leave one out,
/// `n` of them cover every cell.
pub proof fn lemma_pigeonhole(s: Seq<int>, n: int)
    requires
        s.no_duplicates(),
        0 <= n,
        forall|i: int| 0 <= i < s.len() ==> 0 <= #[trigger] s[i] < n,
    ensures
        s.len() <= n,
        s.len() < n ==> exists|p: int| 0 <= p < n && !s.contains(p),
        s.len() == n ==> forall|p: int| 0 <= p < n ==> s.contains(p),
{
    let set = s.to_set();
    let range = set_int_range(0, n);
    s.unique_seq_to_set();
    lemma_int_range(0, n);
    assert(set.subset_of(range)) by {
        assert forall|p: int| set.contains(p) implies range.contains(p) by {
            let i = choose|i: int| 0 <= i < s.len() && s[i] == p;
        }
    }
    lemma_len_subset(set, range);
    if s.len() == n {
        lemma_subset_equality(set, range);
        assert forall|p: int| 0 <= p < n implies s.contains(p) by {
            assert(range.contains(p));
        }
    }
    if s.len() < n {
        if forall|p: int| 0 <= p < n ==> s.contains(p) {
            assert(set =~= range);
        }
    }
}

fn axis_distance(a: usize, b: usize, n: usize) -> (r: usize)
    requires
        a < n,
        b < n,
    ensures
        r == axis_dist(a as int, b as int, n as int),
{
    let d = if a >= b {
        a - b
    } else {
        b - a
    };
    if d < n - d {
        d
    } else {
        n - d
    }
}

/// Smallest toroidal distance from cell `p` to the placed cells.
fn min_distance(w: usize, h: usize, p: usize, placed: &Vec<usize>) -> (r: usize)
    requires
        0 < w <= 255,
        0 < h <= 255,
        p < w * h,
        forall|i: int| 0 <= i < placed@.len() ==> #[trigger] placed@[i] < w * h,
    ensures
        r == min_dist(w as int, h as int, p as int, ints(placed@)),
        r <= w + h,
{
    let ghost s = ints(placed@);
    let mut cur: usize = w + h;
    let mut i: usize = 0;
    proof {
        lemma_pixel_coords(p as int, w as int, h as int);
        assert(s.subrange(0, 0) =~= Seq::<int>::empty());
    }
    while i < placed.len()
        invariant
            0 < w <= 255,
            0 < h <= 255,
            p < w * h,
            s == ints(placed@),
            forall|j: int| 0 <= j < placed@.len() ==> #[trigger] placed@[j] < w * h,
            i <= placed@.len(),
            cur == min_dist(w as int, h as int, p as int, s.subrange(0, i as int)),
            cur <= w + h,
        decreases placed@.len() - i,
    {
        let q = placed[i];
        proof {
            lemma_pixel_coords(q as int, w as int, h as int);
            lemma_pixel_coords(p as int, w as int, h as int);
            assert(s.subrange(0, i + 1).drop_last() =~= s.subrange(0, i as int));
        }
        let d = axis_distance(p % w, q % w, w) + axis_distance(p / w, q / w, h);
        if d < cur {
            cur = d;
        }
        i = i + 1;
    }
    proof {
        assert(s.subrange(0, i as int) =~= s);
    }
    cur
}

/// The `width` x `height` threshold matrix, row-major: cell 0 gets rank 0,
/// then each next rank goes to the free cell whose smallest toroidal
/// Manhattan distance to the ranked cells is largest, the first such in
/// row-major order. Every rank `0 .. width * height - 1` occurs exactly once.
pub fn generate_bayer_matrix(width: u8, height: u8) -> (m: Vec<u32>)
    requires
        width >= 1,
        height >= 1,
    ensures
        m@.len() == width * height,
        forall|p: int| 0 <= p < m@.len() ==> #[trigger] m@[p] == bayer_matrix(width as int, height as int)[p],
        forall|p: int| 0 <= p < m@.len() ==> #[trigger] m@[p] < width * height,
        forall|v: int| 0 <= v < width * height ==> #[trigger] rank_occurs(m@, v),
        forall|p: int, q: int| 0 <= p < m@.len() && 0 <= q < m@.len() && p != q ==> m@[p] != m@[q],
{
    let w = width as usize;
    let h = height as usize;
    assert(w * h <= 65025) by (nonlinear_arith)
        requires
            w <= 255,
            h <= 255,
    ;
    let n = w * h;
    let ghost wi = w as int;
    let ghost hi = h as int;
    assert(n <= 65025) by (nonlinear_arith)
        requires
            n == w * h,
            w <= 255,
            h <= 255,
    ;
    assert(1 <= n) by (nonlinear_arith)
        requires
            n == w * h,
            w >= 1,
            h >= 1,
    ;
    let mut m: Vec<u32> = Vec::new();
    let mut used: Vec<bool> = Vec::new();
    let mut i: usize = 0;
    while i < n
        invariant
            i <= n,
            m@.len() == i,
            used@.len() == i,
            forall|j: int| 0 <= j < i ==> #[trigger] m@[j] == 0,
            forall|j: int| 0 <= j < i ==> !#[trigger] used@[j],
        decreases n - i,
    {
        m.push(0);
        used.push(false);
        i = i + 1;
    }
    used.set(0, true);
    let mut placed: Vec<usize> = Vec::new();
    placed.push(0);
    proof {
        assert(ints(placed@) =~= placement(wi, hi, 1));
    }
    let mut value: usize = 1;
    while value < n
        invariant
            wi == w,
            hi == h,
            1 <= w <= 255,
            1 <= h <= 255,
            n == w * h,
            1 <= n <= 65025,
            1 <= value <= n,
            m@.len() == n,
            used@.len() == n,
            placed@.len() == value,
            ints(placed@) == placement(wi, hi, value as nat),
            forall|v: int| 0 <= v < value ==> #[trigger] placed@[v] < n,
            forall|v: int| 0 <= v < value ==> #[trigger] m@[placed@[v] as int] == v,
            forall|v: int| 0 <= v < value ==> #[trigger] used@[placed@[v] as int],
            forall|p: int|
                0 <= p < n && #[trigger] used@[p] ==> m@[p] < value && placed@[m@[p] as int] == p,
        decreases n - value,
    {
        let ghost s = ints(placed@);
        proof {
            assert(s.no_duplicates()) by {
                assert forall|a: int, b: int|
                    0 <= a < s.len() && 0 <= b < s.len() && a != b implies s[a] != s[b] by {
                    assert(s[a] == placed@[a]);
                    assert(s[b] == placed@[b]);
                    assert(m@[placed@[a] as int] == a);
                    assert(m@[placed@[b] as int] == b);
                }
            }
            lemma_pigeonhole(s, n as int);
        }
        let mut found = false;
        let mut best: usize = 0;
        let mut best_dist: usize = 0;
        let mut p: usize = 0;
        while p < n
            invariant
                wi == w,
                hi == h,
                1 <= w <= 255,
                1 <= h <= 255,
                n == w * h,
                p <= n,
                m@.len() == n,
                used@.len() == n,
                placed@.len() == value,
                s == ints(placed@),
                forall|v: int| 0 <= v < value ==> #[trigger] placed@[v] < n,
                forall|v: int| 0 <= v < value ==> #[trigger] used@[placed@[v] as int],
                forall|q: int|
                    0 <= q < n && #[trigger] used@[q] ==> m@[q] < value && placed@[m@[q] as int] == q,
                found ==> best < p && !s.contains(best as int) && best_dist == min_dist(
                    wi,
                    hi,
                    best as int,
                    s,
                ),
                found ==> forall|q: int|
                    0 <= q < p && !s.contains(q) ==> #[trigger] min_dist(wi, hi, q, s) <= best_dist,
                found ==> forall|q: int|
                    0 <= q < best && !s.contains(q) ==> #[trigger] min_dist(wi, hi, q, s) < best_dist,
                !found ==> forall|q: int| 0 <= q < p ==> s.contains(q),
            decreases n - p,
        {
            proof {
                if used@[p as int] {
                    let v = m@[p as int] as int;
                    assert(s[v] == p);
                } else {
                    assert forall|v: int| 0 <= v < s.len() implies s[v] != p by {
                        assert(used@[placed@[v] as int]);
                    }
                }
            }
            if !used[p] {
                let d = min_distance(w, h, p, &placed);
                if !found || d > best_dist {
                    found = true;
                    best = p;
                    best_dist = d;
                }
            }
            p = p + 1;
        }
        proof {
            if !found {
                assert(false);
            }
            assert(is_choice(wi, hi, s, best as int));
            lemma_choice_unique(wi, hi, s, best as int, next_cell(wi, hi, s));
            assert(used@[best as int] == false) by {
                if used@[best as int] {
                    assert(s[m@[best as int] as int] == best);
                }
            }
        }
        m.set(best, value as u32);
        used.set(best, true);
        placed.push(best);
        proof {
            assert(ints(placed@) =~= s.push(best as int));
            assert(placement(wi, hi, (value + 1) as nat) == s.push(next_cell(wi, hi, s)));
            assert forall|q: int|
                0 <= q < n && #[trigger] used@[q] implies m@[q] < value + 1 && placed@[m@[q] as int] == q by {
                if q != best {
                }
            }
            assert forall|v: int| 0 <= v < value + 1 implies #[trigger] m@[placed@[v] as int] == v by {
                if v < value {
                    assert(placed@[v] != best) by {
                        assert(used@[placed@[v] as int]);
                    }
                }
            }
        }
        value = value + 1;
    }
    proof {
        let order = placement(wi, hi, n as nat);
        let s = ints(placed@);
        assert(s.no_duplicates()) by {
            assert forall|a: int, b: int|
                0 <= a < s.len() && 0 <= b < s.len() && a != b implies s[a] != s[b] by {
                assert(m@[placed@[a] as int] == a);
                assert(m@[placed@[b] as int] == b);
            }
        }
        lemma_pigeonhole(s, n as int);
        assert forall|p: int| 0 <= p < n implies #[trigger] used@[p] by {
            assert(s.contains(p));
            let v = choose|v: int| 0 <= v < s.len() && s[v] == p;
            assert(used@[placed@[v] as int]);
        }
        assert forall|p: int| 0 <= p < m@.len() implies #[trigger] m@[p] == bayer_matrix(wi, hi)[p] by {
            assert(used@[p]);
            let v = m@[p] as int;
            assert(order[v] == p);
            let c = choose|c: int| 0 <= c < wi * hi && order[c] == p;
            assert(m@[placed@[c] as int] == c);
        }
        assert forall|v: int| 0 <= v < n implies #[trigger] rank_occurs(m@, v) by {
            assert(m@[placed@[v] as int] == v);
        }
        assert forall|p: int| 0 <= p < m@.len() implies #[trigger] m@[p] < n by {
            assert(used@[p]);
        }
        assert forall|p: int, q: int|
            0 <= p < m@.len() && 0 <= q < m@.len() && p != q implies m@[p] != m@[q] by {
            assert(used@[p]);
            assert(used@[q]);
        }
    }
    m
}

} // verus!
