use vstd::prelude::*;
use vstd::multiset::Multiset;

verus! {

broadcast use vstd::seq_lib::group_to_multiset_ensures;

/// A body's position on the integer lattice that the tree partitions.
#[derive(Clone, Copy)]
pub struct Point3 {
    pub x: u32,
    pub y: u32,
    pub z: u32,
}

/// One cube of the tree: lower corner, side, every body that lies in it, and
/// either no children or the indices of its eight octants in the arena.
pub struct Cell {
    pub x: u64,
    pub y: u64,
    pub z: u64,
    pub side: u64,
    pub bodies: Vec<usize>,
    pub children: Vec<usize>,
}

/// The largest side a root cube may have: the whole `u32` lattice.
pub const MAX_SIDE: u64 = 0x1_0000_0000;

pub open spec fn is_pow2(n: nat) -> bool
    decreases n,
{
    if n <= 1 {
        n == 1
    } else {
        n % 2 == 0 && is_pow2(n / 2)
    }
}

/// Half-open cube membership on all three axes.
pub open spec fn inside(p: Point3, x: int, y: int, z: int, side: int) -> bool {
    x <= p.x < x + side && y <= p.y < y + side && z <= p.z < z + side
}

/// Which of the eight octants of a cube holds a point: bit 0 for the upper x
/// half, bit 1 for the upper y half, bit 2 for the upper z half.
pub open spec fn octant(p: Point3, x: int, y: int, z: int, side: int) -> int {
    let h = side / 2;
    (if p.x >= x + h { 1int } else { 0int }) + (if p.y >= y + h { 2int } else { 0int }) + (if p.z
        >= z + h { 4int } else { 0int })
}

/// Lower corner of octant `o` along one axis, given that axis's bit of `o`.
pub open spec fn child_corner(lo: int, side: int, upper: bool) -> int {
    if upper {
        lo + side / 2
    } else {
        lo
    }
}

/// The bodies, in order, that fall in octant `o` of the given cube.
pub open spec fn select(
    pts: Seq<Point3>,
    bodies: Seq<usize>,
    x: int,
    y: int,
    z: int,
    side: int,
    o: int,
) -> Seq<usize>
    decreases bodies.len(),
{
    if bodies.len() == 0 {
        Seq::empty()
    } else {
        let rest = select(pts, bodies.drop_last(), x, y, z, side, o);
        if octant(pts[bodies.last() as int], x, y, z, side) == o {
            rest.push(bodies.last())
        } else {
            rest
        }
    }
}

pub open spec fn cell_bodies(c: Cell) -> Multiset<usize> {
    c.bodies@.to_multiset()
}

/// Bodies held by the eight children of cell `i`, counted together.
pub open spec fn children_bodies(arena: Seq<Cell>, i: int) -> Multiset<usize> {
    let ch = arena[i].children@;
    cell_bodies(arena[ch[0] as int]).add(cell_bodies(arena[ch[1] as int])).add(
        cell_bodies(arena[ch[2] as int]),
    ).add(cell_bodies(arena[ch[3] as int])).add(cell_bodies(arena[ch[4] as int])).add(
        cell_bodies(arena[ch[5] as int]),
    ).add(cell_bodies(arena[ch[6] as int])).add(cell_bodies(arena[ch[7] as int]))
}

/// Child `ch` is octant `o` of cell `c`.
pub open spec fn is_octant_child(pts: Seq<Point3>, c: Cell, ch: Cell, o: int) -> bool {
    &&& ch.side == c.side / 2
    &&& ch.x == child_corner(c.x as int, c.side as int, o % 2 == 1)
    &&& ch.y == child_corner(c.y as int, c.side as int, (o / 2) % 2 == 1)
    &&& ch.z == child_corner(c.z as int, c.side as int, (o / 4) % 2 == 1)
    &&& ch.bodies@ == select(pts, c.bodies@, c.x as int, c.y as int, c.z as int, c.side as int, o)
}

/// Local shape of cell `i`: a power-of-two cube within the lattice, holding
/// only bodies inside it; a leaf holds at most one body unless it cannot be
/// split further, and a split cell holds two or more bodies and has eight
/// earlier cells as its octants.
pub open spec fn cell_ok(pts: Seq<Point3>, arena: Seq<Cell>, i: int) -> bool {
    let c = arena[i];
    &&& is_pow2(c.side as nat)
    &&& c.x + c.side <= MAX_SIDE && c.y + c.side <= MAX_SIDE && c.z + c.side <= MAX_SIDE
    &&& forall|k: int|
        0 <= k < c.bodies@.len() ==> {
            &&& (#[trigger] c.bodies@[k]) < pts.len()
            &&& inside(pts[c.bodies@[k] as int], c.x as int, c.y as int, c.z as int, c.side as int)
        }
    &&& if c.children@.len() == 0 {
        c.bodies@.len() <= 1 || c.side == 1
    } else {
        &&& c.children@.len() == 8
        &&& c.side > 1
        &&& c.bodies@.len() >= 2
        &&& forall|o: int|
            0 <= o < 8 ==> {
                &&& (#[trigger] c.children@[o]) < i
                &&& is_octant_child(pts, c, arena[c.children@[o] as int], o)
            }
    }
}

pub open spec fn tree_ok(pts: Seq<Point3>, arena: Seq<Cell>) -> bool {
    forall|i: int| 0 <= i < arena.len() ==> #[trigger] cell_ok(pts, arena, i)
}

/// The eight octant selections of a cube, counted together.
pub open spec fn union_select(
    pts: Seq<Point3>,
    bodies: Seq<usize>,
    x: int,
    y: int,
    z: int,
    side: int,
) -> Multiset<usize> {
    select(pts, bodies, x, y, z, side, 0).to_multiset().add(
        select(pts, bodies, x, y, z, side, 1).to_multiset(),
    ).add(select(pts, bodies, x, y, z, side, 2).to_multiset()).add(
        select(pts, bodies, x, y, z, side, 3).to_multiset(),
    ).add(select(pts, bodies, x, y, z, side, 4).to_multiset()).add(
        select(pts, bodies, x, y, z, side, 5).to_multiset(),
    ).add(select(pts, bodies, x, y, z, side, 6).to_multiset()).add(
        select(pts, bodies, x, y, z, side, 7).to_multiset(),
    )
}

/// Splitting a cube into octants loses no body and duplicates none.
pub proof fn lemma_select_partitions(
    pts: Seq<Point3>,
    bodies: Seq<usize>,
    x: int,
    y: int,
    z: int,
    side: int,
)
    ensures
        union_select(pts, bodies, x, y, z, side) =~= bodies.to_multiset(),
    decreases bodies.len(),
{
    if bodies.len() > 0 {
        let rest = bodies.drop_last();
        let b = bodies.last();
        lemma_select_partitions(pts, rest, x, y, z, side);
        assert(bodies =~= rest.push(b));
        let o = octant(pts[b as int], x, y, z, side);
        assert(0 <= o < 8);
        assert(union_select(pts, bodies, x, y, z, side) =~= union_select(
            pts,
            rest,
            x,
            y,
            z,
            side,
        ).insert(b));
    }
}

/// Mass is conserved down the tree: the eight children of a split cell hold,
/// together, exactly the bodies of that cell, so their masses sum to its mass.
pub proof fn lemma_split_keeps_bodies(pts: Seq<Point3>, arena: Seq<Cell>, i: int)
    requires
        tree_ok(pts, arena),
        0 <= i < arena.len(),
        arena[i].children@.len() > 0,
    ensures
        children_bodies(arena, i) == cell_bodies(arena[i]),
{
    let c = arena[i];
    assert(cell_ok(pts, arena, i));
    assert forall|o: int| 0 <= o < 8 implies arena[c.children@[o] as int].bodies@ == select(
        pts,
        c.bodies@,
        c.x as int,
        c.y as int,
        c.z as int,
        c.side as int,
        o,
    ) by {
        assert(is_octant_child(pts, c, arena[c.children@[o] as int], o));
    }
    lemma_select_partitions(pts, c.bodies@, c.x as int, c.y as int, c.z as int, c.side as int);
    assert(children_bodies(arena, i) =~= union_select(
        pts,
        c.bodies@,
        c.x as int,
        c.y as int,
        c.z as int,
        c.side as int,
    ));
}

/// Computes which octant of the cube at (`x`, `y`, `z`) with side `side`
/// holds `p`.
pub fn octant_of(p: Point3, x: u64, y: u64, z: u64, side: u64) -> (r: u64)
    requires
        x + side <= MAX_SIDE,
        y + side <= MAX_SIDE,
        z + side <= MAX_SIDE,
    ensures
        r as int == octant(p, x as int, y as int, z as int, side as int),
        r < 8,
{
    let h = side / 2;
    let bx: u64 = if p.x as u64 >= x + h { 1 } else { 0 };
    let by: u64 = if p.y as u64 >= y + h { 2 } else { 0 };
    let bz: u64 = if p.z as u64 >= z + h { 4 } else { 0 };
    bx + by + bz
}

/// The bodies of `bodies`, in order, that lie in octant `o` of the cube.
pub fn select_octant(
    pts: &Vec<Point3>,
    bodies: &Vec<usize>,
    x: u64,
    y: u64,
    z: u64,
    side: u64,
    o: u64,
) -> (r: Vec<usize>)
    requires
        x + side <= MAX_SIDE,
        y + side <= MAX_SIDE,
        z + side <= MAX_SIDE,
        forall|k: int| 0 <= k < bodies@.len() ==> (#[trigger] bodies@[k]) < pts@.len(),
    ensures
        r@ == select(pts@, bodies@, x as int, y as int, z as int, side as int, o as int),
{
    let mut out: Vec<usize> = Vec::new();
    let mut k: usize = 0;
    while k < bodies.len()
        invariant
            k <= bodies@.len(),
            x + side <= MAX_SIDE,
            y + side <= MAX_SIDE,
            z + side <= MAX_SIDE,
            forall|j: int| 0 <= j < bodies@.len() ==> (#[trigger] bodies@[j]) < pts@.len(),
            out@ == select(
                pts@,
                bodies@.subrange(0, k as int),
                x as int,
                y as int,
                z as int,
                side as int,
                o as int,
            ),
        decreases bodies@.len() - k,
    {
        let b = bodies[k];
        assert(bodies@.subrange(0, k + 1).drop_last() =~= bodies@.subrange(0, k as int));
        assert(bodies@.subrange(0, k + 1).last() == b);
        if octant_of(pts[b], x, y, z, side) == o {
            out.push(b);
        }
        k = k + 1;
    }
    assert(bodies@.subrange(0, bodies@.len() as int) =~= bodies@);
    out
}

/// Every body that `select` keeps for octant `o` lies inside that octant.
proof fn lemma_select_inside(
    pts: Seq<Point3>,
    bodies: Seq<usize>,
    x: int,
    y: int,
    z: int,
    side: int,
    o: int,
)
    requires
        side > 1,
        side % 2 == 0,
        forall|j: int|
            0 <= j < bodies.len() ==> {
                &&& (#[trigger] bodies[j]) < pts.len()
                &&& inside(pts[bodies[j] as int], x, y, z, side)
            },
    ensures
        forall|k: int|
            0 <= k < select(pts, bodies, x, y, z, side, o).len() ==> {
                let b = #[trigger] select(pts, bodies, x, y, z, side, o)[k];
                &&& b < pts.len()
                &&& inside(
                    pts[b as int],
                    child_corner(x, side, o % 2 == 1),
                    child_corner(y, side, (o / 2) % 2 == 1),
                    child_corner(z, side, (o / 4) % 2 == 1),
                    side / 2,
                )
            },
    decreases bodies.len(),
{
    if bodies.len() > 0 {
        let rest = bodies.drop_last();
        assert forall|j: int| 0 <= j < rest.len() implies {
            &&& (#[trigger] rest[j]) < pts.len()
            &&& inside(pts[rest[j] as int], x, y, z, side)
        } by {
            assert(rest[j] == bodies[j]);
        }
        lemma_select_inside(pts, rest, x, y, z, side, o);
        let b = bodies.last();
        assert(bodies[bodies.len() - 1] == b);
        let cx = child_corner(x, side, o % 2 == 1);
        let cy = child_corner(y, side, (o / 2) % 2 == 1);
        let cz = child_corner(z, side, (o / 4) % 2 == 1);
        let sr = select(pts, rest, x, y, z, side, o);
        let sel = select(pts, bodies, x, y, z, side, o);
        if octant(pts[b as int], x, y, z, side) == o {
            lemma_octant_inside(pts[b as int], x, y, z, side, o);
            assert(sel == sr.push(b));
        } else {
            assert(sel == sr);
        }
        assert forall|k: int| 0 <= k < sel.len() implies {
            &&& (#[trigger] sel[k]) < pts.len()
            &&& inside(pts[sel[k] as int], cx, cy, cz, side / 2)
        } by {
            if k < sr.len() {
                assert(sel[k] == sr[k]);
            }
        }
    }
}

/// A point of a cube lies inside the octant that `octant` names for it.
proof fn lemma_octant_inside(p: Point3, x: int, y: int, z: int, side: int, o: int)
    requires
        side > 1,
        side % 2 == 0,
        inside(p, x, y, z, side),
        octant(p, x, y, z, side) == o,
    ensures
        inside(
            p,
            child_corner(x, side, o % 2 == 1),
            child_corner(y, side, (o / 2) % 2 == 1),
            child_corner(z, side, (o / 4) % 2 == 1),
            side / 2,
        ),
{
}

/// Appending a well-formed cell keeps a well-formed arena well-formed.
proof fn lemma_push_keeps_tree(pts: Seq<Point3>, arena: Seq<Cell>, c: Cell)
    requires
        tree_ok(pts, arena),
        cell_ok(pts, arena.push(c), arena.len() as int),
    ensures
        tree_ok(pts, arena.push(c)),
{
    let a2 = arena.push(c);
    assert forall|i: int| 0 <= i < a2.len() implies #[trigger] cell_ok(pts, a2, i) by {
        if i < arena.len() {
            assert(cell_ok(pts, arena, i));
            assert(a2[i] == arena[i]);
            let ci = arena[i];
            assert forall|o: int| 0 <= o < ci.children@.len() implies a2[ci.children@[o] as int]
                == arena[ci.children@[o] as int] by {
                if ci.children@.len() > 0 {
                    assert(ci.children@[o] < i);
                }
            }
        }
    }
}

/// Appends to `arena` the cell for `bodies` in the given cube, after the
/// subtrees of its octants when it holds two or more bodies and can still be
/// split; returns the new cell's index.
fn build_cell(
    pts: &Vec<Point3>,
    bodies: Vec<usize>,
    x: u64,
    y: u64,
    z: u64,
    side: u64,
    arena: &mut Vec<Cell>,
) -> (r: usize)
    requires
        tree_ok(pts@, old(arena)@),
        is_pow2(side as nat),
        x + side <= MAX_SIDE,
        y + side <= MAX_SIDE,
        z + side <= MAX_SIDE,
        forall|j: int|
            0 <= j < bodies@.len() ==> {
                &&& (#[trigger] bodies@[j]) < pts@.len()
                &&& inside(pts@[bodies@[j] as int], x as int, y as int, z as int, side as int)
            },
    ensures
        tree_ok(pts@, final(arena)@),
        final(arena)@.len() > old(arena)@.len(),
        forall|i: int| 0 <= i < old(arena)@.len() ==> final(arena)@[i] == old(arena)@[i],
        r == final(arena)@.len() - 1,
        final(arena)@[r as int].bodies@ == bodies@,
        final(arena)@[r as int].x == x,
        final(arena)@[r as int].y == y,
        final(arena)@[r as int].z == z,
        final(arena)@[r as int].side == side,
    decreases side,
{
    let ghost start = arena@;
    let mut children: Vec<usize> = Vec::new();
    if bodies.len() >= 2 && side > 1 {
        let h = side / 2;
        assert(side % 2 == 0 && is_pow2(h as nat));
        let mut o: u64 = 0;
        while o < 8
            invariant
                o <= 8,
                children@.len() == o,
                side > 1,
                side % 2 == 0,
                h == side / 2,
                is_pow2(h as nat),
                x + side <= MAX_SIDE,
                y + side <= MAX_SIDE,
                z + side <= MAX_SIDE,
                forall|j: int|
                    0 <= j < bodies@.len() ==> {
                        &&& (#[trigger] bodies@[j]) < pts@.len()
                        &&& inside(
                            pts@[bodies@[j] as int],
                            x as int,
                            y as int,
                            z as int,
                            side as int,
                        )
                    },
                tree_ok(pts@, arena@),
                arena@.len() >= start.len(),
                forall|i: int| 0 <= i < start.len() ==> arena@[i] == start[i],
                forall|j: int|
                    0 <= j < o ==> {
                        &&& (#[trigger] children@[j]) < arena@.len()
                        &&& arena@[children@[j] as int].side == h
                        &&& arena@[children@[j] as int].x == child_corner(
                            x as int,
                            side as int,
                            j % 2 == 1,
                        )
                        &&& arena@[children@[j] as int].y == child_corner(
                            y as int,
                            side as int,
                            (j / 2) % 2 == 1,
                        )
                        &&& arena@[children@[j] as int].z == child_corner(
                            z as int,
                            side as int,
                            (j / 4) % 2 == 1,
                        )
                        &&& arena@[children@[j] as int].bodies@ == select(
                            pts@,
                            bodies@,
                            x as int,
                            y as int,
                            z as int,
                            side as int,
                            j,
                        )
                    },
            decreases 8 - o,
        {
            let cx = if o % 2 == 1 { x + h } else { x };
            let cy = if (o / 2) % 2 == 1 { y + h } else { y };
            let cz = if (o / 4) % 2 == 1 { z + h } else { z };
            let sub = select_octant(pts, &bodies, x, y, z, side, o);
            proof {
                lemma_select_inside(
                    pts@,
                    bodies@,
                    x as int,
                    y as int,
                    z as int,
                    side as int,
                    o as int,
                );
            }
            let c = build_cell(pts, sub, cx, cy, cz, h, arena);
            children.push(c);
            o = o + 1;
        }
    }
    let ghost pre = arena@;
    let cell = Cell { x, y, z, side, bodies, children };
    proof {
        let a2 = pre.push(cell);
        if cell.children@.len() > 0 {
            assert forall|o: int| 0 <= o < 8 implies {
                &&& (#[trigger] cell.children@[o]) < pre.len()
                &&& is_octant_child(pts@, cell, a2[cell.children@[o] as int], o)
            } by {
                assert(a2[cell.children@[o] as int] == pre[cell.children@[o] as int]);
            }
        }
        assert(cell_ok(pts@, a2, pre.len() as int));
        lemma_push_keeps_tree(pts@, pre, cell);
    }
    arena.push(cell);
    arena.len() - 1
}

/// The indices below `n`, in order, of the points inside the root cube of
/// side `side`; a body outside it is left out of the tree.
pub open spec fn inside_indices(pts: Seq<Point3>, n: int, side: int) -> Seq<usize>
    decreases n,
{
    if n <= 0 {
        Seq::empty()
    } else {
        let rest = inside_indices(pts, n - 1, side);
        if inside(pts[n - 1], 0, 0, 0, side) {
            rest.push((n - 1) as usize)
        } else {
            rest
        }
    }
}

proof fn lemma_inside_indices(pts: Seq<Point3>, n: int, side: int)
    requires
        0 <= n <= pts.len(),
        n <= usize::MAX,
    ensures
        forall|k: int|
            0 <= k < inside_indices(pts, n, side).len() ==> {
                let b = #[trigger] inside_indices(pts, n, side)[k];
                &&& b < n
                &&& inside(pts[b as int], 0, 0, 0, side)
            },
    decreases n,
{
    if n > 0 {
        lemma_inside_indices(pts, n - 1, side);
        let rest = inside_indices(pts, n - 1, side);
        let all = inside_indices(pts, n, side);
        assert forall|k: int| 0 <= k < all.len() implies {
            &&& (#[trigger] all[k]) < n
            &&& inside(pts[all[k] as int], 0, 0, 0, side)
        } by {
            if k < rest.len() {
                assert(all[k] == rest[k]);
            } else {
                assert(all[k] == (n - 1) as usize);
            }
        }
    }
}

/// When every point lies in the root cube, the root holds every body: the
/// tree's total is the total of all the bodies inserted.
pub proof fn lemma_root_holds_all(pts: Seq<Point3>, side: int)
    requires
        forall|k: int| 0 <= k < pts.len() ==> inside(#[trigger] pts[k], 0, 0, 0, side),
    ensures
        inside_indices(pts, pts.len() as int, side) =~= Seq::new(pts.len(), |k: int| k as usize),
{
    lemma_root_prefix(pts, pts.len() as int, side);
}

proof fn lemma_root_prefix(pts: Seq<Point3>, n: int, side: int)
    requires
        0 <= n <= pts.len(),
        forall|k: int| 0 <= k < pts.len() ==> inside(#[trigger] pts[k], 0, 0, 0, side),
    ensures
        inside_indices(pts, n, side) =~= Seq::new(n as nat, |k: int| k as usize),
    decreases n,
{
    if n > 0 {
        lemma_root_prefix(pts, n - 1, side);
        assert(inside(pts[n - 1], 0, 0, 0, side));
    }
}

/// Builds the tree over the lattice cube with corner at the origin and side
/// `side`, holding every point inside it. The cells come children first: the
/// root is the last one.
pub fn build_tree(pts: &Vec<Point3>, side: u64) -> (r: Vec<Cell>)
    requires
        is_pow2(side as nat),
        side <= MAX_SIDE,
    ensures
        tree_ok(pts@, r@),
        r@.len() > 0,
        r@.last().bodies@ == inside_indices(pts@, pts@.len() as int, side as int),
        r@.last().x == 0 && r@.last().y == 0 && r@.last().z == 0,
        r@.last().side == side,
{
    let mut bodies: Vec<usize> = Vec::new();
    let mut k: usize = 0;
    while k < pts.len()
        invariant
            k <= pts@.len(),
            side <= MAX_SIDE,
            bodies@ == inside_indices(pts@, k as int, side as int),
        decreases pts@.len() - k,
    {
        let p = pts[k];
        if (p.x as u64) < side && (p.y as u64) < side && (p.z as u64) < side {
            bodies.push(k);
        }
        k = k + 1;
    }
    let n = pts.len();
    proof {
        lemma_inside_indices(pts@, n as int, side as int);
    }
    let mut arena: Vec<Cell> = Vec::new();
    build_cell(pts, bodies, 0, 0, 0, side, &mut arena);
    arena
}

/// The bodies met by descending from cell `i` all the way to the leaves, as
/// a traversal that never stops early does.
pub open spec fn leaf_bodies(arena: Seq<Cell>, i: int) -> Multiset<usize>
    decreases i,
{
    let ch = arena[i].children@;
    if i < 0 || ch.len() != 8 {
        cell_bodies(arena[i])
    } else {
        let part = |o: int|
            if 0 <= ch[o] < i {
                leaf_bodies(arena, ch[o] as int)
            } else {
                Multiset::empty()
            };
        part(0).add(part(1)).add(part(2)).add(part(3)).add(part(4)).add(part(5)).add(
            part(6),
        ).add(part(7))
    }
}

/// A full descent from any cell meets each of its bodies exactly once: the
/// leaves below a cell split its bodies without loss or repetition.
pub proof fn lemma_leaves_partition(pts: Seq<Point3>, arena: Seq<Cell>, i: int)
    requires
        tree_ok(pts, arena),
        0 <= i < arena.len(),
    ensures
        leaf_bodies(arena, i) == cell_bodies(arena[i]),
    decreases i,
{
    assert(cell_ok(pts, arena, i));
    let ch = arena[i].children@;
    if ch.len() == 8 {
        assert forall|o: int| 0 <= o < 8 implies leaf_bodies(arena, #[trigger] ch[o] as int)
            == cell_bodies(arena[ch[o] as int]) && 0 <= ch[o] < i by {
            lemma_leaves_partition(pts, arena, ch[o] as int);
        }
        lemma_split_keeps_bodies(pts, arena, i);
        assert(ch[0] < i && ch[1] < i && ch[2] < i && ch[3] < i);
        assert(ch[4] < i && ch[5] < i && ch[6] < i && ch[7] < i);
    }
}

} // verus!
