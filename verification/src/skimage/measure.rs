//! Region measurements: connected-component labelling, perimeters and region properties.
use crate::skimage::components::{
    adjacent4, before, closed_below, connected, fg, fg_path, has_label, labels_components, lemma_closed_connected,
    lemma_connected_extend, lemma_connected_refl, lemma_connected_sym, lemma_connected_trans,
};
use crate::grid::Grid;
use crate::skimage::morphology::{count_rows, count_set, count_true};
use vstd::prelude::*;

verus! {

/// An equivalence forest over provisional labels `0..eq.len()`: every entry points at
/// itself or at a smaller label.
pub open spec fn forest_ok(eq: Seq<usize>) -> bool {
    &&& eq.len() >= 1
    &&& forall|x: int| 0 <= x < eq.len() ==> #[trigger] eq[x] <= x
}

/// The representative of `x` in the forest `eq`: follow parents until a label points at itself.
pub open spec fn root(eq: Seq<usize>, x: int) -> int
    decreases x,
{
    if x <= 0 || x >= eq.len() || eq[x] >= x {
        x
    } else {
        root(eq, eq[x] as int)
    }
}

/// A representative points at itself and is no larger than the label it represents.
pub proof fn lemma_root(eq: Seq<usize>, x: int)
    requires
        forest_ok(eq),
        0 <= x < eq.len(),
    ensures
        0 <= root(eq, x) <= x,
        eq[root(eq, x)] == root(eq, x),
        root(eq, root(eq, x)) == root(eq, x),
    decreases x,
{
    if x > 0 && eq[x] < x {
        lemma_root(eq, eq[x] as int);
    }
}

/// Pointing `x` at its grandparent changes no representative.
proof fn lemma_halve_root(eq: Seq<usize>, x: int, y: int)
    requires
        forest_ok(eq),
        0 < x < eq.len(),
        eq[x] < x,
    ensures
        root(eq.update(x, eq[eq[x] as int]), y) == root(eq, y),
    decreases y,
{
    let e2 = eq.update(x, eq[eq[x] as int]);
    let p = eq[x] as int;
    assert(eq[p] <= p);
    if y == x {
        lemma_halve_root(eq, x, eq[p] as int);
        if eq[p] < p {
            assert(root(eq, p) == root(eq, eq[p] as int));
        }
    } else if y > 0 && y < eq.len() && eq[y] < y {
        assert(e2[y] == eq[y]);
        lemma_halve_root(eq, x, eq[y] as int);
    }
}

/// Pointing the representative `b` at the smaller representative `a` merges the two classes.
proof fn lemma_link_root(eq: Seq<usize>, a: int, b: int, y: int)
    requires
        forest_ok(eq),
        0 <= a < b < eq.len(),
        eq[a] == a,
        eq[b] == b,
    ensures
        root(eq.update(b, a as usize), y) == if root(eq, y) == b {
            a
        } else {
            root(eq, y)
        },
    decreases y,
{
    let e2 = eq.update(b, a as usize);
    if y == b {
        assert(root(e2, a) == a);
    } else if y > 0 && y < eq.len() && eq[y] < y {
        assert(e2[y] == eq[y]);
        lemma_link_root(eq, a, b, eq[y] as int);
    }
}

/// Finds the representative of `x`, halving the path on the way.
fn find_root(eq: &mut Vec<usize>, x: usize) -> (r: usize)
    requires
        forest_ok(old(eq)@),
        x < old(eq).len(),
    ensures
        forest_ok(final(eq)@),
        final(eq).len() == old(eq).len(),
        r == root(old(eq)@, x as int),
        forall|y: int| 0 <= y < old(eq).len() ==> #[trigger] root(final(eq)@, y) == root(old(eq)@, y),
{
    let ghost e0 = eq@;
    let ghost x0 = x;
    let mut x = x;
    while eq[x] != x
        invariant
            forest_ok(eq@),
            eq.len() == e0.len(),
            x < eq.len(),
            root(eq@, x as int) == root(e0, x0 as int),
            forall|y: int| 0 <= y < e0.len() ==> #[trigger] root(eq@, y) == root(e0, y),
        decreases x,
    {
        let ghost e1 = eq@;
        let p = eq[x];
        let gp = eq[p];
        proof {
            assert(e1[x as int] <= x);
            assert(e1[p as int] <= p);
        }
        eq.set(x, gp);
        proof {
            assert(eq@ == e1.update(x as int, e1[e1[x as int] as int]));
            assert forall|y: int| 0 <= y < e0.len() implies #[trigger] root(eq@, y) == root(e0, y) by {
                lemma_halve_root(e1, x as int, y);
            }
            assert forall|i: int| 0 <= i < eq@.len() implies #[trigger] eq@[i] <= i by {
                assert(e1[i] <= i);
            }
            assert(root(e1, x as int) == root(e1, p as int));
            if e1[p as int] < p {
                assert(root(e1, p as int) == root(e1, gp as int));
            }
            assert(root(eq@, gp as int) == root(e1, gp as int));
        }
        x = gp;
    }
    proof {
        assert(root(eq@, x as int) == x);
    }
    x
}

/// The representative of `y` once the classes of `a` and `b` are merged under the smaller
/// of their two representatives.
pub open spec fn merged_root(eq: Seq<usize>, a: int, b: int, y: int) -> int {
    let ra = root(eq, a);
    let rb = root(eq, b);
    let lo = if ra < rb { ra } else { rb };
    let hi = if ra < rb { rb } else { ra };
    if root(eq, y) == hi {
        lo
    } else {
        root(eq, y)
    }
}

/// Merges the classes of `a` and `b`; the smaller representative represents the union.
fn union(eq: &mut Vec<usize>, a: usize, b: usize)
    requires
        forest_ok(old(eq)@),
        a < old(eq).len(),
        b < old(eq).len(),
    ensures
        forest_ok(final(eq)@),
        final(eq).len() == old(eq).len(),
        forall|y: int|
            0 <= y < old(eq).len() ==> #[trigger] root(final(eq)@, y) == merged_root(old(eq)@, a as int, b as int, y),
{
    let ghost e0 = eq@;
    let ra = find_root(eq, a);
    let rb = find_root(eq, b);
    let ghost e1 = eq@;
    proof {
        lemma_root(e0, a as int);
        lemma_root(e0, b as int);
        assert(root(e1, ra as int) == root(e0, ra as int));
        assert(root(e1, rb as int) == root(e0, rb as int));
        lemma_root(e1, ra as int);
        lemma_root(e1, rb as int);
    }
    if ra != rb {
        if ra < rb {
            eq.set(rb, ra);
            proof {
                assert forall|y: int| 0 <= y < e0.len() implies #[trigger] root(eq@, y) == (if root(e0, y) == rb as int {
                    ra as int
                } else {
                    root(e0, y)
                }) by {
                    lemma_link_root(e1, ra as int, rb as int, y);
                }
                assert forall|i: int| 0 <= i < eq@.len() implies #[trigger] eq@[i] <= i by {
                    assert(e1[i] <= i);
                }
            }
        } else {
            eq.set(ra, rb);
            proof {
                assert forall|y: int| 0 <= y < e0.len() implies #[trigger] root(eq@, y) == (if root(e0, y) == ra as int {
                    rb as int
                } else {
                    root(e0, y)
                }) by {
                    lemma_link_root(e1, rb as int, ra as int, y);
                }
                assert forall|i: int| 0 <= i < eq@.len() implies #[trigger] eq@[i] <= i by {
                    assert(e1[i] <= i);
                }
            }
        }
    }
}

/// Appending a fresh label changes no representative of the labels before it.
proof fn lemma_root_push(eq: Seq<usize>, v: usize, k: int)
    requires
        forest_ok(eq),
        0 <= k < eq.len(),
    ensures
        root(eq.push(v), k) == root(eq, k),
    decreases k,
{
    if k > 0 && eq[k] < k {
        assert(eq.push(v)[k] == eq[k]);
        lemma_root_push(eq, v, eq[k] as int);
    }
}

/// The state of the first raster pass of `label` just before pixel `(y, x)`: the foreground
/// pixels before `(y, x)` carry provisional labels `1..=m`, label `k` was created at `reps[k]`,
/// and `eq` records which provisional labels belong to one component.
spec fn uf_scan(
    image: Grid<bool>,
    l: Grid<usize>,
    eq: Seq<usize>,
    y: int,
    x: int,
    m: int,
    reps: Seq<(int, int)>,
) -> bool {
    let h = image.nrows() as int;
    let w = image.ncols() as int;
    let img = image.cells();
    &&& l.wf()
    &&& l.nrows() == image.nrows()
    &&& l.ncols() == image.ncols()
    &&& forest_ok(eq)
    &&& eq.len() == m + 1
    &&& reps.len() == m + 1
    &&& forall|k: int| 1 <= k <= m ==> 1 <= #[trigger] root(eq, k)
    &&& forall|k: int|
        1 <= k <= m ==> image.inside(#[trigger] reps[k].0, reps[k].1) && image.at(reps[k].0, reps[k].1) && l.at(
            reps[k].0,
            reps[k].1,
        ) == k && before(reps[k].0, reps[k].1, y, x)
    &&& forall|k1: int, k2: int|
        1 <= k1 < k2 <= m ==> before(#[trigger] reps[k1].0, reps[k1].1, #[trigger] reps[k2].0, reps[k2].1)
    &&& forall|r: int, c: int| image.inside(r, c) ==> #[trigger] l.at(r, c) <= m
    &&& forall|r: int, c: int| image.inside(r, c) ==> ((#[trigger] l.at(r, c) != 0) == (image.at(r, c) && before(r, c, y, x)))
    &&& forall|r: int, c: int|
        image.inside(r, c) && #[trigger] l.at(r, c) != 0 ==> connected(
            img,
            h,
            w,
            reps[l.at(r, c) as int].0,
            reps[l.at(r, c) as int].1,
            r,
            c,
        ) && !before(r, c, reps[l.at(r, c) as int].0, reps[l.at(r, c) as int].1)
    &&& forall|k: int|
        1 <= k <= m ==> connected(img, h, w, reps[k].0, reps[k].1, reps[#[trigger] root(eq, k)].0, reps[root(eq, k)].1)
    &&& forall|r1: int, c1: int, r2: int, c2: int|
        #![trigger l.at(r1, c1), l.at(r2, c2)]
        image.inside(r1, c1) && image.inside(r2, c2) && adjacent4(r1, c1, r2, c2) && l.at(r1, c1) != 0 && l.at(r2, c2) != 0
            ==> root(eq, l.at(r1, c1) as int) == root(eq, l.at(r2, c2) as int)
}

/// `l1` is `l0` with pixel `(y, x)` set to `v`.
spec fn set_at(image: Grid<bool>, l0: Grid<usize>, l1: Grid<usize>, y: int, x: int, v: int) -> bool {
    &&& l1.wf()
    &&& l1.nrows() == image.nrows()
    &&& l1.ncols() == image.ncols()
    &&& forall|a: int, b: int|
        image.inside(a, b) ==> #[trigger] l1.at(a, b) as int == if a == y && b == x {
            v
        } else {
            l0.at(a, b) as int
        }
}

/// A foreground pixel with no foreground pixel above or to its left opens a new label.
proof fn lemma_uf_new(
    image: Grid<bool>,
    l0: Grid<usize>,
    l1: Grid<usize>,
    eq: Seq<usize>,
    y: int,
    x: int,
    m: int,
    reps: Seq<(int, int)>,
)
    requires
        image.wf(),
        uf_scan(image, l0, eq, y, x, m, reps),
        image.inside(y, x),
        image.at(y, x),
        !(y > 0 && image.at(y - 1, x)),
        !(x > 0 && image.at(y, x - 1)),
        m + 1 <= usize::MAX,
        set_at(image, l0, l1, y, x, m + 1),
    ensures
        uf_scan(image, l1, eq.push((m + 1) as usize), y, x + 1, m + 1, reps.push((y, x))),
{
    let h = image.nrows() as int;
    let w = image.ncols() as int;
    let img = image.cells();
    let eq2 = eq.push((m + 1) as usize);
    let reps2 = reps.push((y, x));
    assert forall|k: int| 0 <= k <= m implies #[trigger] root(eq2, k) == root(eq, k) by {
        lemma_root_push(eq, (m + 1) as usize, k);
    }
    assert(root(eq2, m + 1) == m + 1);
    assert forall|i: int| 0 <= i < eq2.len() implies #[trigger] eq2[i] <= i by {
        if i < eq.len() {
            assert(eq[i] <= i);
        }
    }
    assert forall|k: int| 1 <= k <= m + 1 implies 1 <= #[trigger] root(eq2, k) by {
        if k <= m {
            assert(1 <= root(eq, k));
        }
    }
    assert forall|k: int| 1 <= k <= m + 1 implies image.inside(#[trigger] reps2[k].0, reps2[k].1) && image.at(
        reps2[k].0,
        reps2[k].1,
    ) && l1.at(reps2[k].0, reps2[k].1) == k && before(reps2[k].0, reps2[k].1, y, x + 1) by {
        if k <= m {
            assert(reps2[k] == reps[k]);
            assert(image.inside(reps[k].0, reps[k].1));
        }
    }
    assert forall|k1: int, k2: int| 1 <= k1 < k2 <= m + 1 implies before(
        #[trigger] reps2[k1].0,
        reps2[k1].1,
        #[trigger] reps2[k2].0,
        reps2[k2].1,
    ) by {
        assert(reps2[k1] == reps[k1]);
        assert(image.inside(reps[k1].0, reps[k1].1));
        if k2 <= m {
            assert(reps2[k2] == reps[k2]);
            assert(before(reps[k1].0, reps[k1].1, reps[k2].0, reps[k2].1));
        }
    }
    assert forall|r: int, c: int| image.inside(r, c) implies ((#[trigger] l1.at(r, c) != 0) == (image.at(r, c) && before(
        r,
        c,
        y,
        x + 1,
    ))) by {
        assert(l0.at(r, c) != 0 <==> (image.at(r, c) && before(r, c, y, x)));
    }
    assert forall|r: int, c: int| image.inside(r, c) && #[trigger] l1.at(r, c) != 0 implies connected(
        img,
        h,
        w,
        reps2[l1.at(r, c) as int].0,
        reps2[l1.at(r, c) as int].1,
        r,
        c,
    ) && !before(r, c, reps2[l1.at(r, c) as int].0, reps2[l1.at(r, c) as int].1) by {
        if r == y && c == x {
            lemma_connected_refl(img, h, w, y, x);
        } else {
            assert(l1.at(r, c) == l0.at(r, c));
            assert(reps2[l0.at(r, c) as int] == reps[l0.at(r, c) as int]);
        }
    }
    assert forall|k: int| 1 <= k <= m + 1 implies connected(
        img,
        h,
        w,
        reps2[k].0,
        reps2[k].1,
        reps2[#[trigger] root(eq2, k)].0,
        reps2[root(eq2, k)].1,
    ) by {
        if k <= m {
            assert(root(eq2, k) == root(eq, k));
            lemma_root(eq, k);
            assert(reps2[k] == reps[k]);
            assert(reps2[root(eq, k)] == reps[root(eq, k)]);
            assert(connected(img, h, w, reps[k].0, reps[k].1, reps[root(eq, k)].0, reps[root(eq, k)].1));
        } else {
            lemma_connected_refl(img, h, w, y, x);
        }
    }
    assert forall|r1: int, c1: int, r2: int, c2: int|
        #![trigger l1.at(r1, c1), l1.at(r2, c2)]
        image.inside(r1, c1) && image.inside(r2, c2) && adjacent4(r1, c1, r2, c2) && l1.at(r1, c1) != 0 && l1.at(r2, c2) != 0 implies root(
        eq2,
        l1.at(r1, c1) as int,
    ) == root(eq2, l1.at(r2, c2) as int) by {
        if r1 == y && c1 == x {
            assert(l0.at(r2, c2) != 0);
            assert(before(r2, c2, y, x));
        } else if r2 == y && c2 == x {
            assert(l0.at(r1, c1) != 0);
            assert(before(r1, c1, y, x));
        } else {
            assert(root(eq, l0.at(r1, c1) as int) == root(eq, l0.at(r2, c2) as int));
        }
    }
}

/// A background pixel is passed over.
proof fn lemma_uf_skip(
    image: Grid<bool>,
    l: Grid<usize>,
    eq: Seq<usize>,
    y: int,
    x: int,
    m: int,
    reps: Seq<(int, int)>,
)
    requires
        uf_scan(image, l, eq, y, x, m, reps),
        image.inside(y, x),
        !image.at(y, x),
    ensures
        uf_scan(image, l, eq, y, x + 1, m, reps),
{
    assert forall|k: int| 1 <= k <= m implies image.inside(#[trigger] reps[k].0, reps[k].1) && image.at(reps[k].0, reps[k].1)
        && l.at(reps[k].0, reps[k].1) == k && before(reps[k].0, reps[k].1, y, x + 1) by {
        assert(image.inside(reps[k].0, reps[k].1));
    }
    assert forall|r: int, c: int| image.inside(r, c) implies ((#[trigger] l.at(r, c) != 0) == (image.at(r, c) && before(
        r,
        c,
        y,
        x + 1,
    ))) by {
        assert(l.at(r, c) != 0 <==> (image.at(r, c) && before(r, c, y, x)));
    }
}

/// The end of one row is the start of the next.
proof fn lemma_uf_row(image: Grid<bool>, l: Grid<usize>, eq: Seq<usize>, y: int, m: int, reps: Seq<(int, int)>)
    requires
        uf_scan(image, l, eq, y, image.ncols() as int, m, reps),
    ensures
        uf_scan(image, l, eq, y + 1, 0, m, reps),
{
    assert forall|k: int| 1 <= k <= m implies image.inside(#[trigger] reps[k].0, reps[k].1) && image.at(reps[k].0, reps[k].1)
        && l.at(reps[k].0, reps[k].1) == k && before(reps[k].0, reps[k].1, y + 1, 0) by {
        assert(image.inside(reps[k].0, reps[k].1));
    }
    assert forall|r: int, c: int| image.inside(r, c) implies ((#[trigger] l.at(r, c) != 0) == (image.at(r, c) && before(
        r,
        c,
        y + 1,
        0,
    ))) by {
        assert(l.at(r, c) != 0 <==> (image.at(r, c) && before(r, c, y, image.ncols() as int)));
    }
}

/// A foreground pixel with exactly one foreground pixel above or to its left, `(nr, nc)`,
/// takes over that pixel's label.
proof fn lemma_uf_copy(
    image: Grid<bool>,
    l0: Grid<usize>,
    l1: Grid<usize>,
    eq: Seq<usize>,
    y: int,
    x: int,
    m: int,
    reps: Seq<(int, int)>,
    nr: int,
    nc: int,
)
    requires
        image.wf(),
        uf_scan(image, l0, eq, y, x, m, reps),
        image.inside(y, x),
        image.at(y, x),
        (nr == y - 1 && nc == x && y > 0 && image.at(y - 1, x) && !(x > 0 && image.at(y, x - 1))) || (nr == y && nc == x - 1
            && x > 0 && image.at(y, x - 1) && !(y > 0 && image.at(y - 1, x))),
        set_at(image, l0, l1, y, x, l0.at(nr, nc) as int),
    ensures
        uf_scan(image, l1, eq, y, x + 1, m, reps),
{
    let h = image.nrows() as int;
    let w = image.ncols() as int;
    let img = image.cells();
    let v = l0.at(nr, nc) as int;
    assert(image.inside(nr, nc));
    assert(before(nr, nc, y, x));
    assert(v != 0);
    assert forall|k: int| 1 <= k <= m implies image.inside(#[trigger] reps[k].0, reps[k].1) && image.at(reps[k].0, reps[k].1)
        && l1.at(reps[k].0, reps[k].1) == k && before(reps[k].0, reps[k].1, y, x + 1) by {
        assert(image.inside(reps[k].0, reps[k].1));
    }
    assert forall|r: int, c: int| image.inside(r, c) implies #[trigger] l1.at(r, c) <= m by {
        assert(l0.at(r, c) <= m);
    }
    assert forall|r: int, c: int| image.inside(r, c) implies ((#[trigger] l1.at(r, c) != 0) == (image.at(r, c) && before(
        r,
        c,
        y,
        x + 1,
    ))) by {
        assert(l0.at(r, c) != 0 <==> (image.at(r, c) && before(r, c, y, x)));
    }
    assert forall|r: int, c: int| image.inside(r, c) && #[trigger] l1.at(r, c) != 0 implies connected(
        img,
        h,
        w,
        reps[l1.at(r, c) as int].0,
        reps[l1.at(r, c) as int].1,
        r,
        c,
    ) && !before(r, c, reps[l1.at(r, c) as int].0, reps[l1.at(r, c) as int].1) by {
        if r == y && c == x {
            assert(l0.at(nr, nc) != 0);
            lemma_connected_extend(img, h, w, reps[v].0, reps[v].1, nr, nc, y, x);
        } else {
            assert(l1.at(r, c) == l0.at(r, c));
        }
    }
    assert forall|r1: int, c1: int, r2: int, c2: int|
        #![trigger l1.at(r1, c1), l1.at(r2, c2)]
        image.inside(r1, c1) && image.inside(r2, c2) && adjacent4(r1, c1, r2, c2) && l1.at(r1, c1) != 0 && l1.at(r2, c2) != 0 implies root(
        eq,
        l1.at(r1, c1) as int,
    ) == root(eq, l1.at(r2, c2) as int) by {
        if r1 == y && c1 == x {
            if !(r2 == y && c2 == x) {
                assert(l0.at(r2, c2) != 0);
                assert(before(r2, c2, y, x));
                assert(r2 == nr && c2 == nc);
            }
        } else if r2 == y && c2 == x {
            assert(l0.at(r1, c1) != 0);
            assert(before(r1, c1, y, x));
            assert(r1 == nr && c1 == nc);
        } else {
            assert(root(eq, l0.at(r1, c1) as int) == root(eq, l0.at(r2, c2) as int));
        }
    }
}

/// A foreground pixel with foreground pixels both above and to its left takes the smaller of
/// their labels, and their classes are merged.
#[verifier::rlimit(40)]
proof fn lemma_uf_merge(
    image: Grid<bool>,
    l0: Grid<usize>,
    l1: Grid<usize>,
    eq0: Seq<usize>,
    eq1: Seq<usize>,
    y: int,
    x: int,
    m: int,
    reps: Seq<(int, int)>,
)
    requires
        image.wf(),
        uf_scan(image, l0, eq0, y, x, m, reps),
        image.inside(y, x),
        image.at(y, x),
        y > 0,
        x > 0,
        image.at(y - 1, x),
        image.at(y, x - 1),
        set_at(
            image,
            l0,
            l1,
            y,
            x,
            if l0.at(y - 1, x) < l0.at(y, x - 1) {
                l0.at(y - 1, x) as int
            } else {
                l0.at(y, x - 1) as int
            },
        ),
        forest_ok(eq1),
        eq1.len() == eq0.len(),
        forall|k: int|
            0 <= k < eq0.len() ==> #[trigger] root(eq1, k) == merged_root(
                eq0,
                l0.at(y - 1, x) as int,
                l0.at(y, x - 1) as int,
                k,
            ),
    ensures
        uf_scan(image, l1, eq1, y, x + 1, m, reps),
{
    let h = image.nrows() as int;
    let w = image.ncols() as int;
    let img = image.cells();
    let a = l0.at(y - 1, x) as int;
    let b = l0.at(y, x - 1) as int;
    assert(image.inside(y - 1, x));
    assert(image.inside(y, x - 1));
    assert(before(y - 1, x, y, x));
    assert(before(y, x - 1, y, x));
    assert(a != 0 && b != 0);
    let ra = root(eq0, a);
    let rb = root(eq0, b);
    let lo = if ra < rb { ra } else { rb };
    let hi = if ra < rb { rb } else { ra };
    lemma_root(eq0, a);
    lemma_root(eq0, b);
    // the two classes meet at (y, x): their creation pixels are connected
    assert(connected(img, h, w, reps[a].0, reps[a].1, y - 1, x));
    lemma_connected_extend(img, h, w, reps[a].0, reps[a].1, y - 1, x, y, x);
    lemma_connected_extend(img, h, w, reps[a].0, reps[a].1, y, x, y, x - 1);
    assert(connected(img, h, w, reps[b].0, reps[b].1, y, x - 1));
    lemma_connected_sym(img, h, w, reps[b].0, reps[b].1, y, x - 1);
    lemma_connected_trans(img, h, w, reps[a].0, reps[a].1, y, x - 1, reps[b].0, reps[b].1);
    assert(connected(img, h, w, reps[a].0, reps[a].1, reps[ra].0, reps[ra].1));
    lemma_connected_sym(img, h, w, reps[a].0, reps[a].1, reps[ra].0, reps[ra].1);
    lemma_connected_trans(img, h, w, reps[ra].0, reps[ra].1, reps[a].0, reps[a].1, reps[b].0, reps[b].1);
    assert(connected(img, h, w, reps[b].0, reps[b].1, reps[rb].0, reps[rb].1));
    lemma_connected_trans(img, h, w, reps[ra].0, reps[ra].1, reps[b].0, reps[b].1, reps[rb].0, reps[rb].1);
    lemma_connected_sym(img, h, w, reps[ra].0, reps[ra].1, reps[rb].0, reps[rb].1);
    assert(connected(img, h, w, reps[hi].0, reps[hi].1, reps[lo].0, reps[lo].1));
    assert forall|k: int| 1 <= k <= m implies 1 <= #[trigger] root(eq1, k) by {
        assert(root(eq1, k) == merged_root(eq0, a, b, k));
        assert(1 <= root(eq0, k));
        assert(1 <= root(eq0, a));
        assert(1 <= root(eq0, b));
    }
    assert forall|k: int| 1 <= k <= m implies image.inside(#[trigger] reps[k].0, reps[k].1) && image.at(reps[k].0, reps[k].1)
        && l1.at(reps[k].0, reps[k].1) == k && before(reps[k].0, reps[k].1, y, x + 1) by {
        assert(image.inside(reps[k].0, reps[k].1));
    }
    assert forall|r: int, c: int| image.inside(r, c) implies #[trigger] l1.at(r, c) <= m by {
        assert(l0.at(r, c) <= m);
    }
    assert forall|r: int, c: int| image.inside(r, c) implies ((#[trigger] l1.at(r, c) != 0) == (image.at(r, c) && before(
        r,
        c,
        y,
        x + 1,
    ))) by {
        assert(l0.at(r, c) != 0 <==> (image.at(r, c) && before(r, c, y, x)));
    }
    assert forall|r: int, c: int| image.inside(r, c) && #[trigger] l1.at(r, c) != 0 implies connected(
        img,
        h,
        w,
        reps[l1.at(r, c) as int].0,
        reps[l1.at(r, c) as int].1,
        r,
        c,
    ) && !before(r, c, reps[l1.at(r, c) as int].0, reps[l1.at(r, c) as int].1) by {
        if r == y && c == x {
            if a < b {
                assert(!before(y - 1, x, reps[a].0, reps[a].1));
            } else {
                lemma_connected_extend(img, h, w, reps[b].0, reps[b].1, y, x - 1, y, x);
                assert(!before(y, x - 1, reps[b].0, reps[b].1));
            }
        } else {
            assert(l1.at(r, c) == l0.at(r, c));
        }
    }
    assert forall|k: int| 1 <= k <= m implies connected(
        img,
        h,
        w,
        reps[k].0,
        reps[k].1,
        reps[#[trigger] root(eq1, k)].0,
        reps[root(eq1, k)].1,
    ) by {
        assert(root(eq1, k) == merged_root(eq0, a, b, k));
        assert(connected(img, h, w, reps[k].0, reps[k].1, reps[root(eq0, k)].0, reps[root(eq0, k)].1));
        if root(eq0, k) == hi {
            lemma_connected_trans(img, h, w, reps[k].0, reps[k].1, reps[hi].0, reps[hi].1, reps[lo].0, reps[lo].1);
        }
    }
    assert forall|r1: int, c1: int, r2: int, c2: int|
        #![trigger l1.at(r1, c1), l1.at(r2, c2)]
        image.inside(r1, c1) && image.inside(r2, c2) && adjacent4(r1, c1, r2, c2) && l1.at(r1, c1) != 0 && l1.at(r2, c2) != 0 implies root(
        eq1,
        l1.at(r1, c1) as int,
    ) == root(eq1, l1.at(r2, c2) as int) by {
        let v1 = l1.at(r1, c1) as int;
        let v2 = l1.at(r2, c2) as int;
        assert(root(eq1, v1) == merged_root(eq0, a, b, v1));
        assert(root(eq1, v2) == merged_root(eq0, a, b, v2));
        if r1 == y && c1 == x {
            if !(r2 == y && c2 == x) {
                assert(l0.at(r2, c2) != 0);
                assert(before(r2, c2, y, x));
            }
        } else if r2 == y && c2 == x {
            assert(l0.at(r1, c1) != 0);
            assert(before(r1, c1, y, x));
        } else {
            assert(root(eq0, l0.at(r1, c1) as int) == root(eq0, l0.at(r2, c2) as int));
        }
    }
}

/// `rs` lists, in increasing order, exactly the representatives among the labels `1..=m`,
/// and `rank` numbers them `1..=rs.len()` in that order.
spec fn ranked(eq: Seq<usize>, m: int, rs: Seq<int>, rank: Seq<usize>) -> bool {
    &&& rank.len() == m + 1
    &&& forall|j: int|
        0 <= j < rs.len() ==> 1 <= #[trigger] rs[j] <= m && root(eq, rs[j]) == rs[j] && rank[rs[j]] == j + 1
    &&& forall|j1: int, j2: int| 0 <= j1 < j2 < rs.len() ==> #[trigger] rs[j1] < #[trigger] rs[j2]
    &&& forall|k: int| 1 <= k <= m && #[trigger] root(eq, k) == k ==> rs.contains(k)
}

/// Replacing each provisional label by the rank of its representative labels the components.
#[verifier::rlimit(40)]
proof fn lemma_uf_done(
    image: Grid<bool>,
    l: Grid<usize>,
    eq: Seq<usize>,
    m: int,
    reps: Seq<(int, int)>,
    rs: Seq<int>,
    rank: Seq<usize>,
    out: Grid<usize>,
)
    requires
        image.wf(),
        uf_scan(image, l, eq, image.nrows() as int, 0, m, reps),
        ranked(eq, m, rs, rank),
        out.wf(),
        out.nrows() == image.nrows(),
        out.ncols() == image.ncols(),
        forall|r: int, c: int|
            image.inside(r, c) ==> #[trigger] out.at(r, c) == if l.at(r, c) == 0 {
                0
            } else {
                rank[root(eq, l.at(r, c) as int)]
            },
    ensures
        labels_components(image.cells(), out.cells(), image.nrows() as int, image.ncols() as int, rs.len() as int),
{
    let h = image.nrows() as int;
    let w = image.ncols() as int;
    let img = image.cells();
    let lab = out.cells();
    let n = rs.len() as int;
    image.lemma_wf_rect();
    out.lemma_wf_rect();
    // every labelled pixel's representative has a rank in 1..=n
    assert forall|r: int, c: int| image.inside(r, c) && #[trigger] l.at(r, c) != 0 implies exists|j: int|
        0 <= j < n && rs[j] == root(eq, l.at(r, c) as int) && out.at(r, c) == j + 1 by {
        let k = l.at(r, c) as int;
        lemma_root(eq, k);
        assert(1 <= root(eq, k));
        assert(rs.contains(root(eq, k)));
        let j = choose|j: int| 0 <= j < rs.len() && rs[j] == root(eq, k);
        assert(rank[rs[j]] == j + 1);
    }
    assert forall|r: int, c: int| 0 <= r < h && 0 <= c < w implies (#[trigger] lab[r][c] != 0) == img[r][c] by {
        assert(lab[r][c] == out.at(r, c));
        assert(img[r][c] == image.at(r, c));
        assert(image.inside(r, c));
        assert(before(r, c, h, 0));
        if l.at(r, c) != 0 {
            let j = choose|j: int| 0 <= j < n && rs[j] == root(eq, l.at(r, c) as int) && out.at(r, c) == j + 1;
        }
    }
    assert forall|r: int, c: int| 0 <= r < h && 0 <= c < w implies #[trigger] lab[r][c] <= n by {
        assert(lab[r][c] == out.at(r, c));
        assert(image.inside(r, c));
        if l.at(r, c) != 0 {
            let j = choose|j: int| 0 <= j < n && rs[j] == root(eq, l.at(r, c) as int) && out.at(r, c) == j + 1;
        }
    }
    // equal ranks mean equal representatives
    assert forall|r1: int, c1: int, r2: int, c2: int|
        image.inside(r1, c1) && image.inside(r2, c2) && l.at(r1, c1) != 0 && l.at(r2, c2) != 0 && #[trigger] out.at(r1, c1)
            == #[trigger] out.at(r2, c2) implies root(eq, l.at(r1, c1) as int) == root(eq, l.at(r2, c2) as int) by {
        let j1 = choose|j: int| 0 <= j < n && rs[j] == root(eq, l.at(r1, c1) as int) && out.at(r1, c1) == j + 1;
        let j2 = choose|j: int| 0 <= j < n && rs[j] == root(eq, l.at(r2, c2) as int) && out.at(r2, c2) == j + 1;
    }
    assert(closed_below(img, lab, h, w, n + 1)) by {
        assert forall|r1: int, c1: int, r2: int, c2: int|
            #![trigger lab[r1][c1], lab[r2][c2]]
            0 <= r1 < h && 0 <= c1 < w && 0 <= r2 < h && 0 <= c2 < w && adjacent4(r1, c1, r2, c2) && 0 < lab[r1][c1] < n + 1
                && img[r2][c2] implies lab[r2][c2] == lab[r1][c1] by {
            assert(lab[r1][c1] == out.at(r1, c1));
            assert(lab[r2][c2] == out.at(r2, c2));
            assert(image.inside(r1, c1) && image.inside(r2, c2));
            assert(img[r2][c2] == image.at(r2, c2));
            assert(before(r2, c2, h, 0));
            assert(l.at(r1, c1) != 0);
            assert(l.at(r2, c2) != 0);
            assert(root(eq, l.at(r1, c1) as int) == root(eq, l.at(r2, c2) as int));
        }
    }
    assert forall|r1: int, c1: int, r2: int, c2: int| #[trigger] connected(img, h, w, r1, c1, r2, c2) implies lab[r1][c1]
        == lab[r2][c2] by {
        let p = choose|p: Seq<(int, int)>| #[trigger] fg_path(img, h, w, p) && p[0] == (r1, c1) && p[p.len() - 1] == (r2, c2);
        assert(fg(img, h, w, p[0].0, p[0].1));
        assert(lab[r1][c1] == out.at(r1, c1));
        assert(image.inside(r1, c1));
        assert(img[r1][c1] == image.at(r1, c1));
        assert(before(r1, c1, h, 0));
        assert(l.at(r1, c1) != 0);
        let j = choose|j: int| 0 <= j < n && rs[j] == root(eq, l.at(r1, c1) as int) && out.at(r1, c1) == j + 1;
        lemma_closed_connected(img, lab, h, w, n + 1, r1, c1, r2, c2);
    }
    assert forall|r1: int, c1: int, r2: int, c2: int|
        #![trigger lab[r1][c1], lab[r2][c2]]
        0 <= r1 < h && 0 <= c1 < w && 0 <= r2 < h && 0 <= c2 < w && lab[r1][c1] != 0 && lab[r1][c1] == lab[r2][c2] implies connected(
        img,
        h,
        w,
        r1,
        c1,
        r2,
        c2,
    ) by {
        assert(lab[r1][c1] == out.at(r1, c1));
        assert(lab[r2][c2] == out.at(r2, c2));
        assert(image.inside(r1, c1) && image.inside(r2, c2));
        assert(l.at(r1, c1) != 0);
        assert(l.at(r2, c2) != 0);
        let k1 = l.at(r1, c1) as int;
        let k2 = l.at(r2, c2) as int;
        let rt = root(eq, k1);
        assert(rt == root(eq, k2));
        assert(connected(img, h, w, reps[k1].0, reps[k1].1, r1, c1));
        assert(connected(img, h, w, reps[k2].0, reps[k2].1, r2, c2));
        assert(connected(img, h, w, reps[k1].0, reps[k1].1, reps[rt].0, reps[rt].1));
        assert(connected(img, h, w, reps[k2].0, reps[k2].1, reps[rt].0, reps[rt].1));
        lemma_connected_sym(img, h, w, reps[k1].0, reps[k1].1, r1, c1);
        lemma_connected_trans(img, h, w, r1, c1, reps[k1].0, reps[k1].1, reps[rt].0, reps[rt].1);
        lemma_connected_sym(img, h, w, reps[k2].0, reps[k2].1, reps[rt].0, reps[rt].1);
        lemma_connected_trans(img, h, w, reps[rt].0, reps[rt].1, reps[k2].0, reps[k2].1, r2, c2);
        lemma_connected_trans(img, h, w, r1, c1, reps[rt].0, reps[rt].1, r2, c2);
    }
    assert forall|k: int| 1 <= k <= n implies #[trigger] has_label(lab, h, w, k) by {
        let rt = rs[k - 1];
        assert(1 <= rt <= m);
        assert(image.inside(reps[rt].0, reps[rt].1));
        assert(l.at(reps[rt].0, reps[rt].1) == rt);
        assert(lab[reps[rt].0][reps[rt].1] == out.at(reps[rt].0, reps[rt].1));
    }
    assert forall|r2: int, c2: int| 0 <= r2 < h && 0 <= c2 < w && 1 < #[trigger] lab[r2][c2] implies exists|r1: int, c1: int|
        0 <= r1 < h && 0 <= c1 < w && before(r1, c1, r2, c2) && #[trigger] lab[r1][c1] == lab[r2][c2] - 1 by {
        assert(lab[r2][c2] == out.at(r2, c2));
        assert(image.inside(r2, c2));
        let k = l.at(r2, c2) as int;
        assert(k != 0);
        let j = choose|j: int| 0 <= j < n && rs[j] == root(eq, k) && out.at(r2, c2) == j + 1;
        let rt = rs[j];
        let prev = rs[j - 1];
        assert(prev < rt);
        lemma_root(eq, k);
        assert(rt <= k);
        assert(image.inside(reps[prev].0, reps[prev].1));
        assert(before(reps[prev].0, reps[prev].1, reps[rt].0, reps[rt].1));
        if rt < k {
            assert(before(reps[rt].0, reps[rt].1, reps[k].0, reps[k].1));
        }
        assert(!before(r2, c2, reps[k].0, reps[k].1));
        assert(l.at(reps[prev].0, reps[prev].1) == prev);
        lemma_root(eq, prev);
        assert(out.at(reps[prev].0, reps[prev].1) == rank[prev]);
        assert(lab[reps[prev].0][reps[prev].1] == out.at(reps[prev].0, reps[prev].1));
        assert(before(reps[prev].0, reps[prev].1, r2, c2));
    }
}

/// 4-connected component labelling in two raster passes: provisional labels joined in an
/// equivalence forest, then each replaced by the rank of its class. Labels the components
/// `1..=n` in the raster order of their first pixels (background `0`) and returns them with `n`.
pub fn label(input: &Grid<bool>) -> (res: (Grid<usize>, usize))
    requires
        input.wf(),
        input.nrows() * input.ncols() <= usize::MAX,
    ensures
        res.0.wf(),
        res.0.nrows() == input.nrows(),
        res.0.ncols() == input.ncols(),
        labels_components(input.cells(), res.0.cells(), input.nrows() as int, input.ncols() as int, res.1 as int),
{
    let (height, width) = input.dim();
    proof {
        input.lemma_wf_rect();
    }
    let mut labels: Grid<usize> = Grid::filled(height, width, 0);
    let mut current_label: usize = 0;
    let mut equivalences: Vec<usize> = Vec::new();
    equivalences.push(0);
    let ghost mut reps: Seq<(int, int)> = seq![(0, 0)];
    let mut r: usize = 0;
    while r < height
        invariant
            input.wf(),
            height == input.nrows(),
            width == input.ncols(),
            height * width <= usize::MAX,
            r <= height,
            uf_scan(*input, labels, equivalences@, r as int, 0, current_label as int, reps),
            current_label <= r * width,
        decreases height - r,
    {
        let mut c: usize = 0;
        while c < width
            invariant
                input.wf(),
                height == input.nrows(),
                width == input.ncols(),
                height * width <= usize::MAX,
                r < height,
                c <= width,
                uf_scan(*input, labels, equivalences@, r as int, c as int, current_label as int, reps),
                current_label <= r * width + c,
            decreases width - c,
        {
            proof {
                assert(r * width + c < height * width) by (nonlinear_arith)
                    requires
                        r < height,
                        c < width,
                ;
            }
            let ghost l0 = labels;
            let ghost e0 = equivalences@;
            if !input.get(r, c) {
                proof {
                    lemma_uf_skip(*input, labels, equivalences@, r as int, c as int, current_label as int, reps);
                }
            } else {
                let above: Option<usize> = if r > 0 && input.get(r - 1, c) {
                    Some(labels.get(r - 1, c))
                } else {
                    None
                };
                let left: Option<usize> = if c > 0 && input.get(r, c - 1) {
                    Some(labels.get(r, c - 1))
                } else {
                    None
                };
                match (above, left) {
                    (None, None) => {
                        current_label += 1;
                        equivalences.push(current_label);
                        labels.set(r, c, current_label);
                        proof {
                            lemma_uf_new(*input, l0, labels, e0, r as int, c as int, (current_label - 1) as int, reps);
                            reps = reps.push((r as int, c as int));
                        }
                    },
                    (Some(a), None) => {
                        labels.set(r, c, a);
                        proof {
                            lemma_uf_copy(
                                *input,
                                l0,
                                labels,
                                e0,
                                r as int,
                                c as int,
                                current_label as int,
                                reps,
                                r - 1,
                                c as int,
                            );
                        }
                    },
                    (None, Some(l)) => {
                        labels.set(r, c, l);
                        proof {
                            lemma_uf_copy(
                                *input,
                                l0,
                                labels,
                                e0,
                                r as int,
                                c as int,
                                current_label as int,
                                reps,
                                r as int,
                                c - 1,
                            );
                        }
                    },
                    (Some(a), Some(l)) => {
                        proof {
                            assert(input.inside(r - 1, c as int) && input.inside(r as int, c - 1));
                        }
                        let smaller = if a < l {
                            a
                        } else {
                            l
                        };
                        labels.set(r, c, smaller);
                        union(&mut equivalences, a, l);
                        proof {
                            lemma_uf_merge(
                                *input,
                                l0,
                                labels,
                                e0,
                                equivalences@,
                                r as int,
                                c as int,
                                current_label as int,
                                reps,
                            );
                        }
                    },
                }
            }
            c += 1;
        }
        proof {
            lemma_uf_row(*input, labels, equivalences@, r as int, current_label as int, reps);
            assert(r * width + width == (r + 1) * width) by (nonlinear_arith);
        }
        r += 1;
    }
    let total = equivalences.len();
    let ghost e_scan = equivalences@;
    let ghost m = current_label as int;
    proof {
        assert(total == current_label + 1);
    }
    // compress every path
    let mut lab: usize = 1;
    while lab <= current_label
        invariant
            forest_ok(equivalences@),
            equivalences@.len() == current_label + 1,
            1 <= lab <= current_label + 1,
            current_label < usize::MAX,
            forall|k: int| 0 <= k <= current_label ==> #[trigger] root(equivalences@, k) == root(e_scan, k),
        decreases current_label + 1 - lab,
    {
        let _ = find_root(&mut equivalences, lab);
        lab += 1;
    }
    // the representative of every provisional label
    let mut roots: Vec<usize> = Vec::new();
    roots.push(0);
    let mut i: usize = 1;
    while i <= current_label
        invariant
            forest_ok(equivalences@),
            equivalences@.len() == current_label + 1,
            1 <= i <= current_label + 1,
            current_label < usize::MAX,
            roots@.len() == i,
            forall|k: int| 0 <= k <= current_label ==> #[trigger] root(equivalences@, k) == root(e_scan, k),
            forall|k: int| 1 <= k < i ==> #[trigger] roots@[k] == root(e_scan, k),
        decreases current_label + 1 - i,
    {
        let rt = find_root(&mut equivalences, i);
        roots.push(rt);
        i += 1;
    }
    // number the representatives in increasing order
    let mut remap: Vec<usize> = Vec::new();
    let mut i: usize = 0;
    while i <= current_label
        invariant
            i <= current_label + 1,
            current_label < usize::MAX,
            remap@.len() == i,
            forall|k: int| 0 <= k < i ==> #[trigger] remap@[k] == 0,
        decreases current_label + 1 - i,
    {
        remap.push(0);
        i += 1;
    }
    let mut num_labels: usize = 0;
    let ghost mut rs: Seq<int> = Seq::empty();
    let mut i: usize = 1;
    while i <= current_label
        invariant
            forest_ok(e_scan),
            e_scan.len() == current_label + 1,
            1 <= i <= current_label + 1,
            current_label < usize::MAX,
            roots@.len() == current_label + 1,
            forall|k: int| 1 <= k <= current_label ==> #[trigger] roots@[k] == root(e_scan, k),
            remap@.len() == current_label + 1,
            num_labels == rs.len(),
            num_labels < i,
            forall|j: int|
                0 <= j < rs.len() ==> 1 <= #[trigger] rs[j] < i && root(e_scan, rs[j]) == rs[j] && remap@[rs[j]] == j + 1,
            forall|j1: int, j2: int| 0 <= j1 < j2 < rs.len() ==> #[trigger] rs[j1] < #[trigger] rs[j2],
            forall|k: int| 1 <= k < i && #[trigger] root(e_scan, k) == k ==> rs.contains(k),
        decreases current_label + 1 - i,
    {
        let ghost old_rs = rs;
        if roots[i] == i {
            num_labels += 1;
            remap.set(i, num_labels);
            proof {
                rs = rs.push(i as int);
                assert(rs[rs.len() - 1] == i);
            }
        }
        proof {
            assert forall|k: int| 1 <= k < i + 1 && #[trigger] root(e_scan, k) == k implies rs.contains(k) by {
                if k < i {
                    assert(old_rs.contains(k));
                    let j = choose|j: int| 0 <= j < old_rs.len() && old_rs[j] == k;
                    assert(rs[j] == k);
                } else {
                    assert(rs[rs.len() - 1] == i);
                }
            }
        }
        i += 1;
    }
    let ghost rank = remap@;
    proof {
        assert(ranked(e_scan, m, rs, rank));
        assert(uf_scan(*input, labels, e_scan, height as int, 0, m, reps));
    }
    // every provisional label takes the number of its representative
    let mut i: usize = 1;
    while i <= current_label
        invariant
            forest_ok(e_scan),
            e_scan.len() == current_label + 1,
            1 <= i <= current_label + 1,
            current_label < usize::MAX,
            roots@.len() == current_label + 1,
            forall|k: int| 1 <= k <= current_label ==> #[trigger] roots@[k] == root(e_scan, k),
            remap@.len() == current_label + 1,
            forall|k: int| 1 <= k <= current_label ==> 1 <= #[trigger] root(e_scan, k),
            forall|k: int| 1 <= k < i ==> #[trigger] remap@[k] == rank[root(e_scan, k)],
            forall|k: int| i <= k <= current_label ==> #[trigger] remap@[k] == rank[k],
        decreases current_label + 1 - i,
    {
        proof {
            lemma_root(e_scan, i as int);
            lemma_root(e_scan, roots@[i as int] as int);
        }
        let target = remap[roots[i]];
        proof {
            let rt = roots@[i as int] as int;
            assert(rt == root(e_scan, i as int));
            assert(root(e_scan, rt) == rt);
            if rt < i {
                assert(remap@[rt] == rank[root(e_scan, rt)]);
            } else {
                assert(remap@[rt] == rank[rt]);
            }
            assert(target == rank[root(e_scan, i as int)]);
        }
        remap.set(i, target);
        i += 1;
    }
    let ghost provisional = labels;
    let mut r: usize = 0;
    while r < height
        invariant
            input.wf(),
            height == input.nrows(),
            width == input.ncols(),
            r <= height,
            uf_scan(*input, provisional, e_scan, height as int, 0, m, reps),
            remap@.len() == current_label + 1,
            m == current_label,
            forall|k: int| 1 <= k <= current_label ==> #[trigger] remap@[k] == rank[root(e_scan, k)],
            labels.wf(),
            labels.nrows() == height,
            labels.ncols() == width,
            forall|a: int, b: int|
                input.inside(a, b) ==> #[trigger] labels.at(a, b) == if a < r {
                    if provisional.at(a, b) == 0 {
                        0
                    } else {
                        rank[root(e_scan, provisional.at(a, b) as int)]
                    }
                } else {
                    provisional.at(a, b)
                },
        decreases height - r,
    {
        let mut c: usize = 0;
        while c < width
            invariant
                input.wf(),
                height == input.nrows(),
                width == input.ncols(),
                r < height,
                c <= width,
                uf_scan(*input, provisional, e_scan, height as int, 0, m, reps),
                remap@.len() == current_label + 1,
                m == current_label,
                forall|k: int| 1 <= k <= current_label ==> #[trigger] remap@[k] == rank[root(e_scan, k)],
                labels.wf(),
                labels.nrows() == height,
                labels.ncols() == width,
                forall|a: int, b: int|
                    input.inside(a, b) ==> #[trigger] labels.at(a, b) == if a < r || (a == r && b < c) {
                        if provisional.at(a, b) == 0 {
                            0
                        } else {
                            rank[root(e_scan, provisional.at(a, b) as int)]
                        }
                    } else {
                        provisional.at(a, b)
                    },
            decreases width - c,
        {
            let v = labels.get(r, c);
            proof {
                assert(provisional.at(r as int, c as int) <= m);
            }
            if v != 0 {
                let target = remap[v];
                labels.set(r, c, target);
            }
            c += 1;
        }
        r += 1;
    }
    proof {
        lemma_uf_done(*input, provisional, e_scan, m, reps, rs, rank, labels);
    }
    (labels, num_labels)
}

/// A foreground pixel of the `h x w` mask on its border or with a background 4-neighbour.
pub open spec fn on_boundary(img: Seq<Seq<bool>>, h: int, w: int, r: int, c: int) -> bool {
    &&& img[r][c]
    &&& {
        ||| r == 0 || !img[r - 1][c]
        ||| r + 1 >= h || !img[r + 1][c]
        ||| c == 0 || !img[r][c - 1]
        ||| c + 1 >= w || !img[r][c + 1]
    }
}

/// The boundary pixels of the `h x w` mask.
pub open spec fn boundary(img: Seq<Seq<bool>>, h: int, w: int) -> Seq<Seq<bool>> {
    Seq::new(h as nat, |r: int| Seq::new(w as nat, |c: int| on_boundary(img, h, w, r, c)))
}

/// At most `m` of the first `m` entries are set.
proof fn lemma_count_true_le(p: Seq<bool>, m: int)
    requires
        0 <= m,
    ensures
        count_true(p, m) <= m,
    decreases m,
{
    if m > 0 {
        lemma_count_true_le(p, m - 1);
    }
}

/// At most `m * w` pixels of the first `m` rows of width `w` are set.
proof fn lemma_count_rows_le(cells: Seq<Seq<bool>>, m: int, w: int)
    requires
        0 <= m <= cells.len(),
        0 <= w,
        forall|r: int| 0 <= r < cells.len() ==> #[trigger] cells[r].len() == w,
    ensures
        count_rows(cells, m) <= m * w,
    decreases m,
{
    if m > 0 {
        lemma_count_rows_le(cells, m - 1, w);
        lemma_count_true_le(cells[m - 1], w);
        assert((m - 1) * w + w == m * w) by (nonlinear_arith);
    }
}

/// Number of boundary pixels of the mask: foreground pixels on the image border or with a
/// background 4-neighbour.
pub fn perimeter(labels: &Grid<bool>) -> (count: usize)
    requires
        labels.wf(),
        labels.nrows() * labels.ncols() <= usize::MAX,
    ensures
        count == count_set(boundary(labels.cells(), labels.nrows() as int, labels.ncols() as int)),
{
    let (height, width) = labels.dim();
    proof {
        labels.lemma_wf_rect();
    }
    let ghost img = labels.cells();
    let ghost b = boundary(img, height as int, width as int);
    let mut count: usize = 0;
    let mut r: usize = 0;
    while r < height
        invariant
            labels.wf(),
            img == labels.cells(),
            height == labels.nrows(),
            width == labels.ncols(),
            height * width <= usize::MAX,
            b == boundary(img, height as int, width as int),
            r <= height,
            count == count_rows(b, r as int),
        decreases height - r,
    {
        let mut c: usize = 0;
        while c < width
            invariant
                labels.wf(),
                img == labels.cells(),
                height == labels.nrows(),
                width == labels.ncols(),
                height * width <= usize::MAX,
                b == boundary(img, height as int, width as int),
                r < height,
                c <= width,
                count == count_rows(b, r as int) + count_true(b[r as int], c as int),
            decreases width - c,
        {
            proof {
                lemma_count_rows_le(b, r as int, width as int);
                lemma_count_true_le(b[r as int], c as int);
                assert(r * width + c < height * width) by (nonlinear_arith)
                    requires
                        r < height,
                        c < width,
                ;
            }
            if labels.get(r, c) {
                let on_edge = r == 0 || !labels.get(r - 1, c) || r + 1 >= height || !labels.get(r + 1, c) || c == 0
                    || !labels.get(r, c - 1) || c + 1 >= width || !labels.get(r, c + 1);
                if on_edge {
                    count += 1;
                }
            }
            proof {
                assert(b[r as int][c as int] == on_boundary(img, height as int, width as int, r as int, c as int));
            }
            c += 1;
        }
        r += 1;
    }
    count
}

/// The weight a pixel at `(r, c)` contributes to a tally: `1` (area), `r` (row sum) or `c` (column sum).
pub open spec fn weight(kind: int, r: int, c: int) -> int {
    if kind == 0 {
        1
    } else if kind == 1 {
        r
    } else {
        c
    }
}

/// Sum of `weight(kind, ..)` over the pixels labelled `k` that come before `(r, c)` in raster
/// order, in a label grid of width `w`.
pub open spec fn tally(lab: Seq<Seq<usize>>, k: int, w: int, r: int, c: int, kind: int) -> int
    decreases r, c,
{
    if c <= 0 {
        if r <= 0 {
            0
        } else {
            tally(lab, k, w, r - 1, w, kind)
        }
    } else {
        tally(lab, k, w, r, c - 1, kind) + if lab[r][c - 1] == k {
            weight(kind, r, c - 1)
        } else {
            0
        }
    }
}

/// Number of pixels labelled `k` in the `h x w` label grid.
pub open spec fn area_of(lab: Seq<Seq<usize>>, h: int, w: int, k: int) -> int {
    tally(lab, k, w, h, 0, 0)
}

/// Sum of the rows of the pixels labelled `k`.
pub open spec fn row_sum_of(lab: Seq<Seq<usize>>, h: int, w: int, k: int) -> int {
    tally(lab, k, w, h, 0, 1)
}

/// Sum of the columns of the pixels labelled `k`.
pub open spec fn col_sum_of(lab: Seq<Seq<usize>>, h: int, w: int, k: int) -> int {
    tally(lab, k, w, h, 0, 2)
}

/// The pixels labelled `k`, as a mask.
pub open spec fn mask_of(lab: Seq<Seq<usize>>, h: int, w: int, k: int) -> Seq<Seq<bool>> {
    Seq::new(h as nat, |r: int| Seq::new(w as nat, |c: int| lab[r][c] == k))
}

/// `bbox` is `(min_row, min_col, max_row + 1, max_col + 1)` over the pixels labelled `k`.
pub open spec fn is_bbox(lab: Seq<Seq<usize>>, h: int, w: int, k: int, bbox: (usize, usize, usize, usize)) -> bool {
    &&& forall|r: int, c: int|
        0 <= r < h && 0 <= c < w && #[trigger] lab[r][c] == k ==> bbox.0 <= r < bbox.2 && bbox.1 <= c < bbox.3
    &&& exists|c: int| 0 <= c < w && #[trigger] lab[bbox.0 as int][c] == k
    &&& exists|c: int| 0 <= c < w && #[trigger] lab[bbox.2 - 1][c] == k
    &&& exists|r: int| 0 <= r < h && #[trigger] lab[r][bbox.1 as int] == k
    &&& exists|r: int| 0 <= r < h && #[trigger] lab[r][bbox.3 - 1] == k
}

/// Tallies never decrease along the raster order.
proof fn lemma_tally_mono(lab: Seq<Seq<usize>>, k: int, w: int, r: int, c: int, r2: int, c2: int, kind: int)
    requires
        0 <= r,
        0 <= c <= w,
        0 <= c2 <= w,
        r < r2 || (r == r2 && c <= c2),
        0 <= kind <= 2,
    ensures
        tally(lab, k, w, r, c, kind) <= tally(lab, k, w, r2, c2, kind),
    decreases r2, c2,
{
    if r == r2 && c == c2 {
    } else if c2 > 0 {
        lemma_tally_mono(lab, k, w, r, c, r2, c2 - 1, kind);
    } else {
        lemma_tally_mono(lab, k, w, r, c, r2 - 1, w, kind);
    }
}

/// Fewer than `r * w + c` pixels come before `(r, c)`.
proof fn lemma_tally_area_le(lab: Seq<Seq<usize>>, k: int, w: int, r: int, c: int)
    requires
        0 <= r,
        0 <= c <= w,
    ensures
        tally(lab, k, w, r, c, 0) <= r * w + c,
    decreases r, c,
{
    if c > 0 {
        lemma_tally_area_le(lab, k, w, r, c - 1);
    } else if r > 0 {
        lemma_tally_area_le(lab, k, w, r - 1, w);
        assert((r - 1) * w + w == r * w) by (nonlinear_arith);
    }
}

/// Some pixel labelled `k` comes before `(r, c)` exactly when the area tally there is positive.
proof fn lemma_tally_area_pos(lab: Seq<Seq<usize>>, k: int, w: int, r: int, c: int)
    requires
        0 <= r,
        0 <= c <= w,
    ensures
        (tally(lab, k, w, r, c, 0) > 0) == (exists|a: int, b: int|
            0 <= a && 0 <= b < w && before(a, b, r, c) && #[trigger] lab[a][b] == k),
        tally(lab, k, w, r, c, 0) >= 0,
    decreases r, c,
{
    if c > 0 {
        lemma_tally_area_pos(lab, k, w, r, c - 1);
        if lab[r][c - 1] == k {
            assert(before(r, c - 1, r, c));
        }
        if exists|a: int, b: int| 0 <= a && 0 <= b < w && before(a, b, r, c) && #[trigger] lab[a][b] == k {
            let (a, b) = choose|a: int, b: int| 0 <= a && 0 <= b < w && before(a, b, r, c) && #[trigger] lab[a][b] == k;
            if !(a == r && b == c - 1) {
                assert(before(a, b, r, c - 1));
            }
        }
    } else if r > 0 {
        lemma_tally_area_pos(lab, k, w, r - 1, w);
        if exists|a: int, b: int| 0 <= a && 0 <= b < w && before(a, b, r, c) && #[trigger] lab[a][b] == k {
            let (a, b) = choose|a: int, b: int| 0 <= a && 0 <= b < w && before(a, b, r, c) && #[trigger] lab[a][b] == k;
            assert(before(a, b, r - 1, w));
        }
    }
}

/// Measurements of one labelled region. Its centroid is `(row_sum / area, col_sum / area)`.
pub struct RegionProps {
    pub label: usize,
    pub area: usize,
    /// `(min_row, min_col, max_row + 1, max_col + 1)`.
    pub bbox: (usize, usize, usize, usize),
    pub row_sum: usize,
    pub col_sum: usize,
    /// Number of boundary pixels of the region.
    pub perimeter: usize,
}

/// `p` holds the exact measurements of the nonempty region labelled `p.label`.
pub open spec fn region_ok(lab: Seq<Seq<usize>>, h: int, w: int, p: RegionProps) -> bool {
    &&& area_of(lab, h, w, p.label as int) > 0
    &&& p.area == area_of(lab, h, w, p.label as int)
    &&& p.row_sum == row_sum_of(lab, h, w, p.label as int)
    &&& p.col_sum == col_sum_of(lab, h, w, p.label as int)
    &&& is_bbox(lab, h, w, p.label as int, p.bbox)
    &&& p.perimeter == count_set(boundary(mask_of(lab, h, w, p.label as int), h, w))
}

/// The running bounding box `(min_row, min_col, max_row, max_col)` (maxima inclusive) of the
/// pixels labelled `k` before `(r, c)` in raster order.
spec fn bbox_upto(lab: Seq<Seq<usize>>, w: int, k: int, r: int, c: int, b: (usize, usize, usize, usize)) -> bool {
    &&& forall|a: int, bb: int|
        0 <= a && 0 <= bb < w && before(a, bb, r, c) && #[trigger] lab[a][bb] == k ==> b.0 <= a <= b.2 && b.1 <= bb <= b.3
    &&& exists|bb: int| 0 <= bb < w && before(b.0 as int, bb, r, c) && #[trigger] lab[b.0 as int][bb] == k
    &&& exists|bb: int| 0 <= bb < w && before(b.2 as int, bb, r, c) && #[trigger] lab[b.2 as int][bb] == k
    &&& b.1 < w
    &&& b.3 < w
    &&& exists|a: int| 0 <= a && before(a, b.1 as int, r, c) && #[trigger] lab[a][b.1 as int] == k
    &&& exists|a: int| 0 <= a && before(a, b.3 as int, r, c) && #[trigger] lab[a][b.3 as int] == k
}

/// The mask of the pixels labelled `k`.
fn label_mask(labels: &Grid<usize>, k: usize) -> (m: Grid<bool>)
    requires
        labels.wf(),
    ensures
        m.wf(),
        m.nrows() == labels.nrows(),
        m.ncols() == labels.ncols(),
        m.cells() == mask_of(labels.cells(), labels.nrows() as int, labels.ncols() as int, k as int),
{
    let (h, w) = labels.dim();
    proof {
        labels.lemma_wf_rect();
    }
    let mut m: Grid<bool> = Grid::filled(h, w, false);
    let mut r: usize = 0;
    while r < h
        invariant
            labels.wf(),
            h == labels.nrows(),
            w == labels.ncols(),
            r <= h,
            m.wf(),
            m.nrows() == h,
            m.ncols() == w,
            forall|a: int, b: int| m.inside(a, b) ==> #[trigger] m.at(a, b) == (a < r && labels.at(a, b) == k),
        decreases h - r,
    {
        let mut c: usize = 0;
        while c < w
            invariant
                labels.wf(),
                h == labels.nrows(),
                w == labels.ncols(),
                r < h,
                c <= w,
                m.wf(),
                m.nrows() == h,
                m.ncols() == w,
                forall|a: int, b: int|
                    m.inside(a, b) ==> #[trigger] m.at(a, b) == ((a < r || (a == r && b < c)) && labels.at(a, b) == k),
            decreases w - c,
        {
            if labels.get(r, c) == k {
                m.set(r, c, true);
            }
            c += 1;
        }
        r += 1;
    }
    proof {
        m.lemma_wf_rect();
        let target = mask_of(labels.cells(), h as int, w as int, k as int);
        assert forall|a: int| 0 <= a < h implies #[trigger] m.cells()[a] =~= target[a] by {
            assert forall|b: int| 0 <= b < w implies m.cells()[a][b] == target[a][b] by {
                assert(m.at(a, b) == m.cells()[a][b]);
            }
        }
        assert(m.cells() =~= target);
    }
    m
}

/// A vector of `n` copies of `v`.
fn filled_vec(n: usize, v: usize) -> (out: Vec<usize>)
    ensures
        out@ == Seq::new(n as nat, |i: int| v),
{
    let mut out: Vec<usize> = Vec::new();
    let mut i: usize = 0;
    while i < n
        invariant
            i <= n,
            out@ == Seq::new(i as nat, |j: int| v),
        decreases n - i,
    {
        out.push(v);
        i += 1;
        proof {
            assert(out@ =~= Seq::new(i as nat, |j: int| v));
        }
    }
    out
}

/// Running per-label measurements, indexed by label.
struct RegionAcc {
    areas: Vec<usize>,
    sum_r: Vec<usize>,
    sum_c: Vec<usize>,
    min_r: Vec<usize>,
    min_c: Vec<usize>,
    max_r: Vec<usize>,
    max_c: Vec<usize>,
}

impl RegionAcc {
    /// The entries for labels `1..=n` hold the tallies over the whole `h x w` grid `lab`, and
    /// the bounding box of every nonempty label.
    spec fn wf(&self, lab: Seq<Seq<usize>>, h: int, w: int, n: int) -> bool {
        &&& self.areas@.len() == n + 1
        &&& self.sum_r@.len() == n + 1
        &&& self.sum_c@.len() == n + 1
        &&& self.min_r@.len() == n + 1
        &&& self.min_c@.len() == n + 1
        &&& self.max_r@.len() == n + 1
        &&& self.max_c@.len() == n + 1
        &&& forall|j: int|
            1 <= j <= n ==> #[trigger] self.areas@[j] == tally(lab, j, w, h, 0, 0) && self.sum_r@[j] == tally(lab, j, w, h, 0, 1)
                && self.sum_c@[j] == tally(lab, j, w, h, 0, 2) && (self.areas@[j] > 0 ==> bbox_upto(
                lab,
                w,
                j,
                h,
                0,
                (self.min_r@[j], self.min_c@[j], self.max_r@[j], self.max_c@[j]),
            ))
    }
}

/// Per-label area, row and column sums, and bounding box `(min_row, min_col, max_row, max_col)`
/// of the labels `1..=num_labels`, all in one raster pass.
#[verifier::rlimit(60)]
fn accumulate(labels: &Grid<usize>, num_labels: usize) -> (acc: RegionAcc)
    requires
        labels.wf(),
        labels.nrows() * labels.ncols() <= usize::MAX,
        num_labels < usize::MAX,
        forall|r: int, c: int| labels.inside(r, c) ==> #[trigger] labels.at(r, c) <= num_labels,
        forall|k: int|
            1 <= k <= num_labels ==> #[trigger] row_sum_of(labels.cells(), labels.nrows() as int, labels.ncols() as int, k)
                <= usize::MAX && col_sum_of(labels.cells(), labels.nrows() as int, labels.ncols() as int, k) <= usize::MAX,
    ensures
        acc.wf(labels.cells(), labels.nrows() as int, labels.ncols() as int, num_labels as int),
{
    let (height, width) = labels.dim();
    proof {
        labels.lemma_wf_rect();
    }
    let ghost lab = labels.cells();
    let n = num_labels + 1;
    let mut areas = filled_vec(n, 0);
    let mut sum_r = filled_vec(n, 0);
    let mut sum_c = filled_vec(n, 0);
    let mut min_r = filled_vec(n, usize::MAX);
    let mut min_c = filled_vec(n, usize::MAX);
    let mut max_r = filled_vec(n, 0);
    let mut max_c = filled_vec(n, 0);
    let mut r: usize = 0;
    while r < height
        invariant
            labels.wf(),
            lab == labels.cells(),
            height == labels.nrows(),
            width == labels.ncols(),
            height * width <= usize::MAX,
            n == num_labels + 1,
            forall|a: int, b: int| labels.inside(a, b) ==> #[trigger] labels.at(a, b) <= num_labels,
            forall|k: int|
                1 <= k <= num_labels ==> #[trigger] row_sum_of(lab, height as int, width as int, k) <= usize::MAX
                    && col_sum_of(lab, height as int, width as int, k) <= usize::MAX,
            r <= height,
            areas@.len() == n,
            sum_r@.len() == n,
            sum_c@.len() == n,
            min_r@.len() == n,
            min_c@.len() == n,
            max_r@.len() == n,
            max_c@.len() == n,
            forall|k: int|
                1 <= k <= num_labels ==> #[trigger] areas@[k] == tally(lab, k, width as int, r as int, 0, 0) && sum_r@[k]
                    == tally(lab, k, width as int, r as int, 0, 1) && sum_c@[k] == tally(lab, k, width as int, r as int, 0, 2)
                    && (areas@[k] == 0 ==> min_r@[k] == usize::MAX && min_c@[k] == usize::MAX && max_r@[k] == 0 && max_c@[k]
                    == 0) && (areas@[k] > 0 ==> bbox_upto(
                    lab,
                    width as int,
                    k,
                    r as int,
                    0,
                    (min_r@[k], min_c@[k], max_r@[k], max_c@[k]),
                )),
        decreases height - r,
    {
        let mut c: usize = 0;
        while c < width
            invariant
                labels.wf(),
                lab == labels.cells(),
                height == labels.nrows(),
                width == labels.ncols(),
                height * width <= usize::MAX,
                n == num_labels + 1,
                forall|a: int, b: int| labels.inside(a, b) ==> #[trigger] labels.at(a, b) <= num_labels,
                forall|k: int|
                    1 <= k <= num_labels ==> #[trigger] row_sum_of(lab, height as int, width as int, k) <= usize::MAX
                        && col_sum_of(lab, height as int, width as int, k) <= usize::MAX,
                r < height,
                c <= width,
                areas@.len() == n,
                sum_r@.len() == n,
                sum_c@.len() == n,
                min_r@.len() == n,
                min_c@.len() == n,
                max_r@.len() == n,
                max_c@.len() == n,
                forall|k: int|
                    1 <= k <= num_labels ==> #[trigger] areas@[k] == tally(lab, k, width as int, r as int, c as int, 0)
                        && sum_r@[k] == tally(lab, k, width as int, r as int, c as int, 1) && sum_c@[k] == tally(
                        lab,
                        k,
                        width as int,
                        r as int,
                        c as int,
                        2,
                    ) && (areas@[k] == 0 ==> min_r@[k] == usize::MAX && min_c@[k] == usize::MAX && max_r@[k] == 0
                        && max_c@[k] == 0) && (areas@[k] > 0 ==> bbox_upto(
                        lab,
                        width as int,
                        k,
                        r as int,
                        c as int,
                        (min_r@[k], min_c@[k], max_r@[k], max_c@[k]),
                    )),
            decreases width - c,
        {
            let v = labels.get(r, c);
            if v != 0 {
                let ghost k = v as int;
                proof {
                    assert(lab[r as int][c as int] == v);
                    lemma_tally_area_le(lab, k, width as int, r as int, c as int);
                    assert(r * width + c < height * width) by (nonlinear_arith)
                        requires
                            r < height,
                            c < width,
                    ;
                    lemma_tally_mono(lab, k, width as int, r as int, c + 1, height as int, 0, 1);
                    lemma_tally_mono(lab, k, width as int, r as int, c + 1, height as int, 0, 2);
                    assert(row_sum_of(lab, height as int, width as int, k) <= usize::MAX);
                    assert(areas@[k] == tally(lab, k, width as int, r as int, c as int, 0));
                    assert(tally(lab, k, width as int, r as int, c + 1, 1) == tally(lab, k, width as int, r as int, c as int, 1) + r);
                    assert(tally(lab, k, width as int, r as int, c + 1, 2) == tally(lab, k, width as int, r as int, c as int, 2) + c);
                }
                let ghost was_empty = areas@[k] == 0;
                let ghost b0 = (min_r@[k], min_c@[k], max_r@[k], max_c@[k]);
                areas.set(v, areas[v] + 1);
                sum_r.set(v, sum_r[v] + r);
                sum_c.set(v, sum_c[v] + c);
                if r < min_r[v] {
                    min_r.set(v, r);
                }
                if c < min_c[v] {
                    min_c.set(v, c);
                }
                if r > max_r[v] {
                    max_r.set(v, r);
                }
                if c > max_c[v] {
                    max_c.set(v, c);
                }
                proof {
                    let b1 = (min_r@[k], min_c@[k], max_r@[k], max_c@[k]);
                    assert(bbox_upto(lab, width as int, k, r as int, c + 1, b1)) by {
                        assert forall|a: int, bb: int|
                            0 <= a && 0 <= bb < width && before(a, bb, r as int, c + 1) && #[trigger] lab[a][bb] == k implies b1.0
                            <= a <= b1.2 && b1.1 <= bb <= b1.3 by {
                            if !(a == r && bb == c) {
                                assert(before(a, bb, r as int, c as int));
                                if was_empty {
                                    lemma_tally_area_pos(lab, k, width as int, r as int, c as int);
                                }
                            }
                        }
                        if was_empty {
                            assert(b1 == (r, c, r, c));
                            assert(lab[r as int][c as int] == k);
                            assert(before(r as int, c as int, r as int, c + 1));
                        } else {
                            let wr0 = choose|bb: int|
                                0 <= bb < width && before(b0.0 as int, bb, r as int, c as int) && #[trigger] lab[b0.0 as int][bb]
                                    == k;
                            let wr2 = choose|bb: int|
                                0 <= bb < width && before(b0.2 as int, bb, r as int, c as int) && #[trigger] lab[b0.2 as int][bb]
                                    == k;
                            let wc1 = choose|a: int| 0 <= a && before(a, b0.1 as int, r as int, c as int) && #[trigger] lab[a][b0.1 as int] == k;
                            let wc3 = choose|a: int| 0 <= a && before(a, b0.3 as int, r as int, c as int) && #[trigger] lab[a][b0.3 as int] == k;
                            assert(lab[r as int][c as int] == k);
                            if b1.0 == b0.0 {
                                assert(lab[b1.0 as int][wr0] == k && before(b1.0 as int, wr0, r as int, c + 1));
                            } else {
                                assert(before(b1.0 as int, c as int, r as int, c + 1));
                            }
                            if b1.2 == b0.2 {
                                assert(lab[b1.2 as int][wr2] == k && before(b1.2 as int, wr2, r as int, c + 1));
                            } else {
                                assert(before(b1.2 as int, c as int, r as int, c + 1));
                            }
                            if b1.1 == b0.1 {
                                assert(lab[wc1][b1.1 as int] == k && before(wc1, b1.1 as int, r as int, c + 1));
                            } else {
                                assert(before(r as int, b1.1 as int, r as int, c + 1));
                            }
                            if b1.3 == b0.3 {
                                assert(lab[wc3][b1.3 as int] == k && before(wc3, b1.3 as int, r as int, c + 1));
                            } else {
                                assert(before(r as int, b1.3 as int, r as int, c + 1));
                            }
                        }
                    }
                }
            }
            proof {
                assert forall|k: int| 1 <= k <= num_labels && k != lab[r as int][c as int] implies bbox_upto(
                    lab,
                    width as int,
                    k,
                    r as int,
                    c as int,
                    (min_r@[k], min_c@[k], max_r@[k], max_c@[k]),
                ) ==> bbox_upto(lab, width as int, k, r as int, c + 1, (min_r@[k], min_c@[k], max_r@[k], max_c@[k])) by {
                    let b = (min_r@[k], min_c@[k], max_r@[k], max_c@[k]);
                    if bbox_upto(lab, width as int, k, r as int, c as int, b) {
                        assert forall|a: int, bb: int|
                            0 <= a && 0 <= bb < width && before(a, bb, r as int, c + 1) && #[trigger] lab[a][bb] == k implies b.0
                            <= a <= b.2 && b.1 <= bb <= b.3 by {
                            if !(a == r && bb == c) {
                                assert(before(a, bb, r as int, c as int));
                            }
                        }
                        let wr0 = choose|bb: int|
                            0 <= bb < width && before(b.0 as int, bb, r as int, c as int) && #[trigger] lab[b.0 as int][bb] == k;
                        assert(before(b.0 as int, wr0, r as int, c + 1));
                        let wr2 = choose|bb: int|
                            0 <= bb < width && before(b.2 as int, bb, r as int, c as int) && #[trigger] lab[b.2 as int][bb] == k;
                        assert(before(b.2 as int, wr2, r as int, c + 1));
                        let wc1 = choose|a: int| 0 <= a && before(a, b.1 as int, r as int, c as int) && #[trigger] lab[a][b.1 as int] == k;
                        assert(before(wc1, b.1 as int, r as int, c + 1));
                        let wc3 = choose|a: int| 0 <= a && before(a, b.3 as int, r as int, c as int) && #[trigger] lab[a][b.3 as int] == k;
                        assert(before(wc3, b.3 as int, r as int, c + 1));
                    }
                }
                assert forall|k: int| 1 <= k <= num_labels && k != lab[r as int][c as int] implies #[trigger] areas@[k] == tally(
                    lab,
                    k,
                    width as int,
                    r as int,
                    c + 1,
                    0,
                ) && sum_r@[k] == tally(lab, k, width as int, r as int, c + 1, 1) && sum_c@[k] == tally(
                    lab,
                    k,
                    width as int,
                    r as int,
                    c + 1,
                    2,
                ) by {
                    assert(areas@[k] == tally(lab, k, width as int, r as int, c as int, 0));
                }
            }
            c += 1;
        }
        proof {
            assert forall|k: int| 1 <= k <= num_labels implies bbox_upto(
                lab,
                width as int,
                k,
                r as int,
                width as int,
                (min_r@[k], min_c@[k], max_r@[k], max_c@[k]),
            ) ==> bbox_upto(lab, width as int, k, r + 1, 0, (min_r@[k], min_c@[k], max_r@[k], max_c@[k])) by {
                let b = (min_r@[k], min_c@[k], max_r@[k], max_c@[k]);
                if bbox_upto(lab, width as int, k, r as int, width as int, b) {
                    assert forall|a: int, bb: int|
                        0 <= a && 0 <= bb < width && before(a, bb, r + 1, 0) && #[trigger] lab[a][bb] == k implies b.0 <= a
                        <= b.2 && b.1 <= bb <= b.3 by {
                        assert(before(a, bb, r as int, width as int));
                    }
                    let wr0 = choose|bb: int|
                        0 <= bb < width && before(b.0 as int, bb, r as int, width as int) && #[trigger] lab[b.0 as int][bb] == k;
                    assert(before(b.0 as int, wr0, r + 1, 0));
                    let wr2 = choose|bb: int|
                        0 <= bb < width && before(b.2 as int, bb, r as int, width as int) && #[trigger] lab[b.2 as int][bb] == k;
                    assert(before(b.2 as int, wr2, r + 1, 0));
                    let wc1 = choose|a: int| 0 <= a && before(a, b.1 as int, r as int, width as int) && #[trigger] lab[a][b.1 as int] == k;
                    assert(before(wc1, b.1 as int, r + 1, 0));
                    let wc3 = choose|a: int| 0 <= a && before(a, b.3 as int, r as int, width as int) && #[trigger] lab[a][b.3 as int] == k;
                    assert(before(wc3, b.3 as int, r + 1, 0));
                }
            }
        }
        r += 1;
    }
    proof {
        assert(r == height);
        assert forall|j: int| 1 <= j <= num_labels implies #[trigger] areas@[j] == tally(lab, j, width as int, height as int, 0, 0)
            && sum_r@[j] == tally(lab, j, width as int, height as int, 0, 1) && sum_c@[j] == tally(
            lab,
            j,
            width as int,
            height as int,
            0,
            2,
        ) && (areas@[j] > 0 ==> bbox_upto(
            lab,
            width as int,
            j,
            height as int,
            0,
            (min_r@[j], min_c@[j], max_r@[j], max_c@[j]),
        )) by {
            assert(areas@[j] == tally(lab, j, width as int, r as int, 0, 0));
        }
    }
    RegionAcc { areas, sum_r, sum_c, min_r, min_c, max_r, max_c }
}

/// Measures every nonempty region labelled `1..=num_labels`, in increasing label order.
pub fn regionprops(labels: &Grid<usize>, num_labels: usize) -> (props: Vec<RegionProps>)
    requires
        labels.wf(),
        labels.nrows() * labels.ncols() <= usize::MAX,
        num_labels < usize::MAX,
        forall|r: int, c: int| labels.inside(r, c) ==> #[trigger] labels.at(r, c) <= num_labels,
        forall|k: int|
            1 <= k <= num_labels ==> #[trigger] row_sum_of(labels.cells(), labels.nrows() as int, labels.ncols() as int, k)
                <= usize::MAX && col_sum_of(labels.cells(), labels.nrows() as int, labels.ncols() as int, k) <= usize::MAX,
    ensures
        forall|i: int|
            0 <= i < props.len() ==> 1 <= #[trigger] props[i].label <= num_labels && region_ok(
                labels.cells(),
                labels.nrows() as int,
                labels.ncols() as int,
                props[i],
            ),
        forall|i: int, j: int| 0 <= i < j < props.len() ==> #[trigger] props[i].label < #[trigger] props[j].label,
        forall|k: int|
            1 <= k <= num_labels && area_of(labels.cells(), labels.nrows() as int, labels.ncols() as int, k) > 0
                ==> exists|i: int| 0 <= i < props.len() && #[trigger] props[i].label == k,
{
    let (height, width) = labels.dim();
    proof {
        labels.lemma_wf_rect();
    }
    let ghost lab = labels.cells();
    let acc = accumulate(labels, num_labels);
    let n = num_labels + 1;
    let mut props: Vec<RegionProps> = Vec::new();
    let mut k: usize = 1;
    while k <= num_labels
        invariant
            labels.wf(),
            lab == labels.cells(),
            height == labels.nrows(),
            width == labels.ncols(),
            height * width <= usize::MAX,
            n == num_labels + 1,
            num_labels < usize::MAX,
            1 <= k <= num_labels + 1,
            acc.wf(lab, height as int, width as int, num_labels as int),
            forall|i: int|
                0 <= i < props.len() ==> 1 <= #[trigger] props[i].label < k && region_ok(
                    lab,
                    height as int,
                    width as int,
                    props[i],
                ),
            forall|i: int, j: int| 0 <= i < j < props.len() ==> #[trigger] props[i].label < #[trigger] props[j].label,
            forall|j: int|
                1 <= j < k && area_of(lab, height as int, width as int, j) > 0 ==> exists|i: int|
                    0 <= i < props.len() && #[trigger] props[i].label == j,
        decreases num_labels + 1 - k,
    {
        let ghost old_props = props@;
        if acc.areas[k] != 0 {
            let mask = label_mask(labels, k);
            let perim = perimeter(&mask);
            let ghost j = k as int;
            proof {
                let bi = (acc.min_r@[j], acc.min_c@[j], acc.max_r@[j], acc.max_c@[j]);
                assert(acc.areas@[j] == tally(lab, j, width as int, height as int, 0, 0));
                assert(bbox_upto(lab, width as int, j, height as int, 0, bi));
                let wr2 = choose|bb: int|
                    0 <= bb < width && before(bi.2 as int, bb, height as int, 0) && #[trigger] lab[bi.2 as int][bb] == j;
                let wc3 = choose|a: int| 0 <= a && before(a, bi.3 as int, height as int, 0) && #[trigger] lab[a][bi.3 as int] == j;
                assert(bi.2 < height);
                assert(bi.3 < width);
            }
            let b = (acc.min_r[k], acc.min_c[k], acc.max_r[k] + 1, acc.max_c[k] + 1);
            proof {
                let bi = (acc.min_r@[j], acc.min_c@[j], acc.max_r@[j], acc.max_c@[j]);
                assert(bbox_upto(lab, width as int, j, height as int, 0, bi));
                let wr0 = choose|bb: int|
                    0 <= bb < width && before(bi.0 as int, bb, height as int, 0) && #[trigger] lab[bi.0 as int][bb] == j;
                let wr2 = choose|bb: int|
                    0 <= bb < width && before(bi.2 as int, bb, height as int, 0) && #[trigger] lab[bi.2 as int][bb] == j;
                let wc1 = choose|a: int| 0 <= a && before(a, bi.1 as int, height as int, 0) && #[trigger] lab[a][bi.1 as int] == j;
                let wc3 = choose|a: int| 0 <= a && before(a, bi.3 as int, height as int, 0) && #[trigger] lab[a][bi.3 as int] == j;
                assert(b.2 - 1 == bi.2);
                assert(b.3 - 1 == bi.3);
                assert(lab[b.2 - 1][wr2] == j);
                assert(lab[wc3][b.3 - 1] == j);
                assert forall|a: int, bb: int| 0 <= a < height && 0 <= bb < width && #[trigger] lab[a][bb] == j implies b.0 <= a
                    < b.2 && b.1 <= bb < b.3 by {
                    assert(before(a, bb, height as int, 0));
                }
                assert(is_bbox(lab, height as int, width as int, j, b));
            }
            let p = RegionProps { label: k, area: acc.areas[k], bbox: b, row_sum: acc.sum_r[k], col_sum: acc.sum_c[k], perimeter: perim };
            props.push(p);
            proof {
                assert(props@ == old_props.push(p));
                assert forall|j2: int| 1 <= j2 < k + 1 && area_of(lab, height as int, width as int, j2) > 0 implies exists|i: int|
                    0 <= i < props.len() && #[trigger] props[i].label == j2 by {
                    if j2 < k {
                        let i = choose|i: int| 0 <= i < old_props.len() && #[trigger] old_props[i].label == j2;
                        assert(props[i].label == j2);
                    } else {
                        assert(props[props.len() - 1].label == j2);
                    }
                }
            }
        } else {
            proof {
                assert forall|j2: int| 1 <= j2 < k + 1 && area_of(lab, height as int, width as int, j2) > 0 implies exists|i: int|
                    0 <= i < props.len() && #[trigger] props[i].label == j2 by {
                    if j2 < k {
                        let i = choose|i: int| 0 <= i < old_props.len() && #[trigger] old_props[i].label == j2;
                        assert(props[i].label == j2);
                    }
                }
            }
        }
        k += 1;
    }
    props
}

/// The binomial coefficient `n` choose `k`, by Pascal's rule.
pub open spec fn binomial(n: nat, k: nat) -> nat
    decreases n,
{
    if k == 0 {
        1
    } else if n == 0 {
        0
    } else {
        binomial((n - 1) as nat, (k - 1) as nat) + binomial((n - 1) as nat, k)
    }
}

/// No way to choose more items than there are.
pub proof fn lemma_binomial_zero(n: nat, k: nat)
    requires
        k > n,
    ensures
        binomial(n, k) == 0,
    decreases n,
{
    if n > 0 {
        lemma_binomial_zero((n - 1) as nat, (k - 1) as nat);
        lemma_binomial_zero((n - 1) as nat, k);
    }
}

/// One way to choose all items.
pub proof fn lemma_binomial_all(n: nat)
    ensures
        binomial(n, n) == 1,
    decreases n,
{
    if n > 0 {
        lemma_binomial_all((n - 1) as nat);
        lemma_binomial_zero((n - 1) as nat, n);
    }
}

/// `n` ways to choose one item.
pub proof fn lemma_binomial_one(n: nat)
    ensures
        binomial(n, 1) == n,
    decreases n,
{
    if n > 0 {
        lemma_binomial_one((n - 1) as nat);
        assert(binomial((n - 1) as nat, 0) == 1);
    }
}

/// The step of the multiplicative formula: `C(n, i + 1) * (i + 1) == C(n, i) * (n - i)`.
pub proof fn lemma_binomial_step(n: nat, i: nat)
    requires
        i < n,
    ensures
        binomial(n, i + 1) * (i + 1) == binomial(n, i) * (n - i),
    decreases n,
{
    let m = (n - 1) as nat;
    if i == 0 {
        lemma_binomial_one(n);
        let p = binomial(n, i + 1);
        let q = binomial(n, i);
        assert(q == 1);
        assert(p * (i + 1) == q * (n - i)) by (nonlinear_arith)
            requires
                i == 0,
                p == n,
                q == 1,
        ;
    } else {
        let a = binomial(m, (i - 1) as nat);
        let b = binomial(m, i);
        let c = binomial(m, i + 1);
        assert(binomial(n, i + 1) == b + c);
        assert(binomial(n, i) == a + b);
        lemma_binomial_step(m, (i - 1) as nat);
        assert(b * i == a * (n - i));
        if i < m {
            lemma_binomial_step(m, i);
            assert(c * (i + 1) == b * (m - i));
        } else {
            lemma_binomial_zero(m, i + 1);
            assert(c == 0);
            assert(c * (i + 1) == 0 && b * (m - i) == 0) by (nonlinear_arith)
                requires
                    c == 0,
                    m - i == 0,
            ;
        }
        assert(c * (i + 1) == b * (m - i));
        assert((b + c) * (i + 1) == b * n) by (nonlinear_arith)
            requires
                c * (i + 1) == b * (m - i),
                m + 1 == n,
                i <= m,
        ;
        assert((a + b) * (n - i) == b * n) by (nonlinear_arith)
            requires
                b * i == a * (n - i),
                i < n,
        ;
    }
}

/// The binomial coefficient `n` choose `k`, by the multiplicative formula.
pub fn binom(n: usize, k: usize) -> (r: usize)
    requires
        forall|i: int| 0 <= i < k < n ==> #[trigger] binomial(n as nat, (i + 1) as nat) * (i + 1) <= usize::MAX,
    ensures
        r == binomial(n as nat, k as nat),
{
    if k > n {
        proof {
            lemma_binomial_zero(n as nat, k as nat);
        }
        return 0;
    }
    if k == 0 || k == n {
        proof {
            lemma_binomial_all(n as nat);
        }
        return 1;
    }
    let mut result: usize = 1;
    let mut i: usize = 0;
    while i < k
        invariant
            0 < k < n,
            i <= k,
            result == binomial(n as nat, i as nat),
            forall|j: int| 0 <= j < k < n ==> #[trigger] binomial(n as nat, (j + 1) as nat) * (j + 1) <= usize::MAX,
        decreases k - i,
    {
        proof {
            lemma_binomial_step(n as nat, i as nat);
            assert(binomial(n as nat, (i + 1) as nat) * (i + 1) <= usize::MAX);
        }
        let prod = result * (n - i);
        proof {
            let q = binomial(n as nat, (i + 1) as nat);
            assert(prod == q * (i + 1));
            let d = (i + 1) as int;
            assert((prod as int) / d == q) by (nonlinear_arith)
                requires
                    prod == q * d,
                    d > 0,
            ;
        }
        result = prod / (i + 1);
        i += 1;
    }
    result
}

/// The library's two component labellers, this module's `label` and
/// `morphology::label`, give the same result on the same image: the same
/// label grid and the same number of components. Each result meets what its
/// function's contract states, and that fixes the labelling.
pub proof fn lemma_labellers_agree(image: Grid<bool>, a: (Grid<usize>, usize), b: (Grid<usize>, usize))
    requires
        image.wf(),
        a.0.wf(),
        a.0.nrows() == image.nrows(),
        a.0.ncols() == image.ncols(),
        labels_components(image.cells(), a.0.cells(), image.nrows() as int, image.ncols() as int, a.1 as int),
        b.0.wf(),
        b.0.nrows() == image.nrows(),
        b.0.ncols() == image.ncols(),
        labels_components(image.cells(), b.0.cells(), image.nrows() as int, image.ncols() as int, b.1 as int),
    ensures
        a.0.cells() == b.0.cells(),
        a.1 == b.1,
{
    let h = image.nrows() as int;
    let w = image.ncols() as int;
    crate::skimage::components::lemma_labelling_unique(
        image.cells(),
        a.0.cells(),
        b.0.cells(),
        h,
        w,
        a.1 as int,
        b.1 as int,
    );
    a.0.lemma_wf_rect();
    b.0.lemma_wf_rect();
    assert forall|r: int| 0 <= r < h implies #[trigger] a.0.cells()[r] =~= b.0.cells()[r] by {
        assert forall|c: int| 0 <= c < w implies a.0.cells()[r][c] == b.0.cells()[r][c] by {
        }
    }
    assert(a.0.cells() =~= b.0.cells());
}

} // verus!

