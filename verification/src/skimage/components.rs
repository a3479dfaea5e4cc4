//! 4-connectivity of foreground pixels, and what a labelling of connected components is.
use vstd::prelude::*;

verus! {

/// `(r1, c1)` and `(r2, c2)` are 4-neighbours: one step apart in a row or a column.
pub open spec fn adjacent4(r1: int, c1: int, r2: int, c2: int) -> bool {
    ||| r1 == r2 && (c1 == c2 + 1 || c2 == c1 + 1)
    ||| c1 == c2 && (r1 == r2 + 1 || r2 == r1 + 1)
}

/// `(r1, c1)` comes strictly before `(r2, c2)` in raster (row-major) order.
pub open spec fn before(r1: int, c1: int, r2: int, c2: int) -> bool {
    r1 < r2 || (r1 == r2 && c1 < c2)
}

/// `(r, c)` is a foreground pixel of the `h x w` image `img`.
pub open spec fn fg(img: Seq<Seq<bool>>, h: int, w: int, r: int, c: int) -> bool {
    0 <= r < h && 0 <= c < w && img[r][c]
}

/// The `i`-th and `(i+1)`-th points of `p` are 4-neighbours.
pub open spec fn step(p: Seq<(int, int)>, i: int) -> bool {
    adjacent4(p[i].0, p[i].1, p[i + 1].0, p[i + 1].1)
}

/// `p` is a nonempty walk through foreground pixels, each a 4-neighbour of the one before.
pub open spec fn fg_path(img: Seq<Seq<bool>>, h: int, w: int, p: Seq<(int, int)>) -> bool {
    &&& p.len() > 0
    &&& forall|i: int| 0 <= i < p.len() ==> #[trigger] fg(img, h, w, p[i].0, p[i].1)
    &&& forall|i: int| 0 <= i < p.len() - 1 ==> #[trigger] step(p, i)
}

/// Some foreground walk leads from `(r1, c1)` to `(r2, c2)`.
pub open spec fn connected(img: Seq<Seq<bool>>, h: int, w: int, r1: int, c1: int, r2: int, c2: int) -> bool {
    exists|p: Seq<(int, int)>|
        #[trigger] fg_path(img, h, w, p) && p[0] == (r1, c1) && p[p.len() - 1] == (r2, c2)
}

/// Every foreground 4-neighbour of a pixel whose label lies in `1..below`
/// carries the same label.
pub open spec fn closed_below(img: Seq<Seq<bool>>, lab: Seq<Seq<usize>>, h: int, w: int, below: int) -> bool {
    forall|r1: int, c1: int, r2: int, c2: int|
        #![trigger lab[r1][c1], lab[r2][c2]]
        0 <= r1 < h && 0 <= c1 < w && 0 <= r2 < h && 0 <= c2 < w && adjacent4(r1, c1, r2, c2) && 0 < lab[r1][c1] < below
            && img[r2][c2] ==> lab[r2][c2] == lab[r1][c1]
}

/// Some pixel of the `h x w` grid `lab` carries the label `k`.
pub open spec fn has_label(lab: Seq<Seq<usize>>, h: int, w: int, k: int) -> bool {
    exists|r: int, c: int| 0 <= r < h && 0 <= c < w && #[trigger] lab[r][c] == k
}

/// `lab` labels the 4-connected components of the foreground of `img` with `1..=n`,
/// numbered in the raster order of their first pixels; background pixels get `0`.
pub open spec fn labels_components(img: Seq<Seq<bool>>, lab: Seq<Seq<usize>>, h: int, w: int, n: int) -> bool {
    &&& forall|r: int, c: int| 0 <= r < h && 0 <= c < w ==> (#[trigger] lab[r][c] != 0) == img[r][c]
    &&& forall|r: int, c: int| 0 <= r < h && 0 <= c < w ==> #[trigger] lab[r][c] <= n
    &&& forall|r1: int, c1: int, r2: int, c2: int|
        #[trigger] connected(img, h, w, r1, c1, r2, c2) ==> lab[r1][c1] == lab[r2][c2]
    &&& forall|r1: int, c1: int, r2: int, c2: int|
        #![trigger lab[r1][c1], lab[r2][c2]]
        0 <= r1 < h && 0 <= c1 < w && 0 <= r2 < h && 0 <= c2 < w && lab[r1][c1] != 0 && lab[r1][c1] == lab[r2][c2]
            ==> connected(img, h, w, r1, c1, r2, c2)
    &&& forall|k: int| 1 <= k <= n ==> #[trigger] has_label(lab, h, w, k)
    &&& forall|r2: int, c2: int|
        0 <= r2 < h && 0 <= c2 < w && 1 < #[trigger] lab[r2][c2] ==> exists|r1: int, c1: int|
            0 <= r1 < h && 0 <= c1 < w && before(r1, c1, r2, c2) && #[trigger] lab[r1][c1] == lab[r2][c2] - 1
}

/// A foreground pixel is connected to itself.
pub proof fn lemma_connected_refl(img: Seq<Seq<bool>>, h: int, w: int, r: int, c: int)
    requires
        fg(img, h, w, r, c),
    ensures
        connected(img, h, w, r, c, r, c),
{
    let p = seq![(r, c)];
    assert(fg(img, h, w, p[0].0, p[0].1));
    assert(fg_path(img, h, w, p));
}

/// A walk to `(r2, c2)` extends by one step to a foreground 4-neighbour.
pub proof fn lemma_connected_extend(img: Seq<Seq<bool>>, h: int, w: int, r1: int, c1: int, r2: int, c2: int, r3: int, c3: int)
    requires
        connected(img, h, w, r1, c1, r2, c2),
        adjacent4(r2, c2, r3, c3),
        fg(img, h, w, r3, c3),
    ensures
        connected(img, h, w, r1, c1, r3, c3),
{
    let p = choose|p: Seq<(int, int)>| #[trigger] fg_path(img, h, w, p) && p[0] == (r1, c1) && p[p.len() - 1] == (r2, c2);
    let q = p.push((r3, c3));
    assert forall|i: int| 0 <= i < q.len() implies #[trigger] fg(img, h, w, q[i].0, q[i].1) by {
        if i < p.len() {
            assert(q[i] == p[i]);
            assert(fg(img, h, w, p[i].0, p[i].1));
        }
    }
    assert forall|i: int| 0 <= i < q.len() - 1 implies #[trigger] step(q, i) by {
        if i < p.len() - 1 {
            assert(step(p, i));
        }
    }
    assert(fg_path(img, h, w, q));
}

/// Connectivity is symmetric.
pub proof fn lemma_connected_sym(img: Seq<Seq<bool>>, h: int, w: int, r1: int, c1: int, r2: int, c2: int)
    requires
        connected(img, h, w, r1, c1, r2, c2),
    ensures
        connected(img, h, w, r2, c2, r1, c1),
{
    let p = choose|p: Seq<(int, int)>| #[trigger] fg_path(img, h, w, p) && p[0] == (r1, c1) && p[p.len() - 1] == (r2, c2);
    let n = p.len() as int;
    let q = Seq::new(p.len(), |i: int| p[n - 1 - i]);
    assert forall|i: int| 0 <= i < q.len() implies #[trigger] fg(img, h, w, q[i].0, q[i].1) by {
        assert(fg(img, h, w, p[n - 1 - i].0, p[n - 1 - i].1));
    }
    assert forall|i: int| 0 <= i < q.len() - 1 implies #[trigger] step(q, i) by {
        assert(step(p, n - 2 - i));
    }
    assert(fg_path(img, h, w, q));
    assert(q[0] == (r2, c2));
    assert(q[q.len() - 1] == (r1, c1));
}

/// Connectivity is transitive.
pub proof fn lemma_connected_trans(
    img: Seq<Seq<bool>>,
    h: int,
    w: int,
    r1: int,
    c1: int,
    r2: int,
    c2: int,
    r3: int,
    c3: int,
)
    requires
        connected(img, h, w, r1, c1, r2, c2),
        connected(img, h, w, r2, c2, r3, c3),
    ensures
        connected(img, h, w, r1, c1, r3, c3),
{
    let p = choose|p: Seq<(int, int)>| #[trigger] fg_path(img, h, w, p) && p[0] == (r1, c1) && p[p.len() - 1] == (r2, c2);
    let q = choose|q: Seq<(int, int)>| #[trigger] fg_path(img, h, w, q) && q[0] == (r2, c2) && q[q.len() - 1] == (r3, c3);
    let n = p.len() as int;
    let pq = p + q.subrange(1, q.len() as int);
    assert forall|i: int| 0 <= i < pq.len() implies #[trigger] fg(img, h, w, pq[i].0, pq[i].1) by {
        if i < n {
            assert(fg(img, h, w, p[i].0, p[i].1));
        } else {
            assert(pq[i] == q[i - n + 1]);
            assert(fg(img, h, w, q[i - n + 1].0, q[i - n + 1].1));
        }
    }
    assert forall|i: int| 0 <= i < pq.len() - 1 implies #[trigger] step(pq, i) by {
        if i < n - 1 {
            assert(step(p, i));
        } else {
            assert(step(q, i - n + 1));
            assert(pq[i + 1] == q[i - n + 2]);
            if i == n - 1 {
                assert(pq[i] == q[0]);
            } else {
                assert(pq[i] == q[i - n + 1]);
            }
        }
    }
    assert(fg_path(img, h, w, pq));
    if q.len() > 1 {
        assert(pq[pq.len() - 1] == q[q.len() - 1]);
    } else {
        assert(pq =~= p);
    }
}

/// Along a foreground walk that starts at a pixel labelled in `1..below`,
/// a labelling closed below `below` keeps the same label.
pub proof fn lemma_closed_along(
    img: Seq<Seq<bool>>,
    lab: Seq<Seq<usize>>,
    h: int,
    w: int,
    below: int,
    p: Seq<(int, int)>,
)
    requires
        closed_below(img, lab, h, w, below),
        fg_path(img, h, w, p),
        0 < lab[p[0].0][p[0].1] < below,
    ensures
        lab[p[p.len() - 1].0][p[p.len() - 1].1] == lab[p[0].0][p[0].1],
    decreases p.len(),
{
    if p.len() > 1 {
        let q = p.drop_last();
        assert forall|i: int| 0 <= i < q.len() implies #[trigger] fg(img, h, w, q[i].0, q[i].1) by {
            assert(fg(img, h, w, p[i].0, p[i].1));
        }
        assert forall|i: int| 0 <= i < q.len() - 1 implies #[trigger] step(q, i) by {
            assert(step(p, i));
        }
        lemma_closed_along(img, lab, h, w, below, q);
        let n = p.len() as int;
        assert(step(p, n - 2));
        assert(fg(img, h, w, p[n - 1].0, p[n - 1].1));
        assert(fg(img, h, w, p[n - 2].0, p[n - 2].1));
        let (a, b) = p[n - 2];
        let (x, y) = p[n - 1];
        assert(lab[a][b] == lab[x][y]);
    }
}

/// In a labelling closed below `below`, connected pixels whose label lies in `1..below` agree.
pub proof fn lemma_closed_connected(
    img: Seq<Seq<bool>>,
    lab: Seq<Seq<usize>>,
    h: int,
    w: int,
    below: int,
    r1: int,
    c1: int,
    r2: int,
    c2: int,
)
    requires
        closed_below(img, lab, h, w, below),
        connected(img, h, w, r1, c1, r2, c2),
        0 < lab[r1][c1] < below,
    ensures
        lab[r2][c2] == lab[r1][c1],
{
    let p = choose|p: Seq<(int, int)>| #[trigger] fg_path(img, h, w, p) && p[0] == (r1, c1) && p[p.len() - 1] == (r2, c2);
    lemma_closed_along(img, lab, h, w, below, p);
}

/// Below a pixel labelled `m`, every smaller positive label occurs at an earlier pixel.
proof fn lemma_earlier_labels(
    img: Seq<Seq<bool>>,
    lab: Seq<Seq<usize>>,
    h: int,
    w: int,
    n: int,
    r: int,
    c: int,
    j: int,
)
    requires
        labels_components(img, lab, h, w, n),
        0 <= r < h,
        0 <= c < w,
        1 <= j < lab[r][c],
    ensures
        exists|a: int, b: int| 0 <= a < h && 0 <= b < w && before(a, b, r, c) && #[trigger] lab[a][b] == j,
    decreases lab[r][c] - j,
{
    let (a, b) = choose|a: int, b: int|
        0 <= a < h && 0 <= b < w && before(a, b, r, c) && #[trigger] lab[a][b] == lab[r][c] - 1;
    if lab[a][b] != j {
        lemma_earlier_labels(img, lab, h, w, n, a, b, j);
        let (a2, b2) = choose|a2: int, b2: int| 0 <= a2 < h && 0 <= b2 < w && before(a2, b2, a, b) && #[trigger] lab[a2][b2] == j;
        assert(before(a2, b2, r, c));
    }
}

/// Two component labellings that agree before pixel `(r, c)` agree at it.
proof fn lemma_agree_at(
    img: Seq<Seq<bool>>,
    l1: Seq<Seq<usize>>,
    l2: Seq<Seq<usize>>,
    h: int,
    w: int,
    n1: int,
    n2: int,
    r: int,
    c: int,
)
    requires
        labels_components(img, l1, h, w, n1),
        labels_components(img, l2, h, w, n2),
        0 <= r < h,
        0 <= c < w,
        forall|a: int, b: int| 0 <= a < h && 0 <= b < w && before(a, b, r, c) ==> #[trigger] l1[a][b] == l2[a][b],
    ensures
        l1[r][c] == l2[r][c],
{
    if l1[r][c] < l2[r][c] {
        lemma_earlier_labels(img, l2, h, w, n2, r, c, l1[r][c] as int);
        let (a, b) = choose|a: int, b: int| 0 <= a < h && 0 <= b < w && before(a, b, r, c) && #[trigger] l2[a][b] == l1[r][c];
        assert(l1[a][b] == l2[a][b]);
        assert(connected(img, h, w, a, b, r, c));
        assert(l2[a][b] == l2[r][c]);
    } else if l2[r][c] < l1[r][c] {
        lemma_earlier_labels(img, l1, h, w, n1, r, c, l2[r][c] as int);
        let (a, b) = choose|a: int, b: int| 0 <= a < h && 0 <= b < w && before(a, b, r, c) && #[trigger] l1[a][b] == l2[r][c];
        assert(l1[a][b] == l2[a][b]);
        assert(connected(img, h, w, a, b, r, c));
        assert(l1[a][b] == l1[r][c]);
    }
}

/// Two component labellings agree on every pixel before `(r, c)`.
proof fn lemma_agree_before(
    img: Seq<Seq<bool>>,
    l1: Seq<Seq<usize>>,
    l2: Seq<Seq<usize>>,
    h: int,
    w: int,
    n1: int,
    n2: int,
    r: int,
    c: int,
)
    requires
        labels_components(img, l1, h, w, n1),
        labels_components(img, l2, h, w, n2),
        0 <= r <= h,
        0 <= c <= w,
        r == h ==> c == 0,
    ensures
        forall|a: int, b: int| 0 <= a < h && 0 <= b < w && before(a, b, r, c) ==> #[trigger] l1[a][b] == l2[a][b],
    decreases r, c,
{
    if c > 0 {
        lemma_agree_before(img, l1, l2, h, w, n1, n2, r, c - 1);
        lemma_agree_at(img, l1, l2, h, w, n1, n2, r, c - 1);
    } else if r > 0 {
        lemma_agree_before(img, l1, l2, h, w, n1, n2, r - 1, w);
        assert forall|a: int, b: int| 0 <= a < h && 0 <= b < w && before(a, b, r, c) implies #[trigger] l1[a][b] == l2[a][b] by {
            assert(before(a, b, r - 1, w));
        }
    }
}

/// A labelling of the 4-connected components, numbered in the raster order of their first
/// pixels, is unique: any two agree on every pixel and on the number of components. (So every
/// labelling function with this contract returns the same result.)
pub proof fn lemma_labelling_unique(
    img: Seq<Seq<bool>>,
    l1: Seq<Seq<usize>>,
    l2: Seq<Seq<usize>>,
    h: int,
    w: int,
    n1: int,
    n2: int,
)
    requires
        0 <= h,
        0 <= w,
        0 <= n1,
        0 <= n2,
        labels_components(img, l1, h, w, n1),
        labels_components(img, l2, h, w, n2),
    ensures
        forall|r: int, c: int| 0 <= r < h && 0 <= c < w ==> #[trigger] l1[r][c] == l2[r][c],
        n1 == n2,
{
    lemma_agree_before(img, l1, l2, h, w, n1, n2, h, 0);
    assert forall|r: int, c: int| 0 <= r < h && 0 <= c < w implies #[trigger] l1[r][c] == l2[r][c] by {
        assert(before(r, c, h, 0));
    }
    if n1 < n2 {
        assert(has_label(l2, h, w, n2));
        let (r, c) = choose|r: int, c: int| 0 <= r < h && 0 <= c < w && #[trigger] l2[r][c] == n2;
        assert(l1[r][c] <= n1);
    } else if n2 < n1 {
        assert(has_label(l1, h, w, n1));
        let (r, c) = choose|r: int, c: int| 0 <= r < h && 0 <= c < w && #[trigger] l1[r][c] == n1;
        assert(l2[r][c] <= n2);
    }
}

} // verus!
