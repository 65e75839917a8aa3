use vstd::prelude::*;
use crate::radii::{covalent_radius, radius_pm};
use crate::vector::{displacement, get_udp, norm_sq, vsub, Point};

verus! {

/// An atom: its element symbol and its position.
#[derive(Clone, Debug)]
pub struct Atom {
    pub symbol: String,
    pub position: Point,
}

/// A bond between atoms `i < j`, with their squared distance in fm².
#[derive(Clone, Copy, Debug, PartialEq, Eq, Structural)]
pub struct Bond {
    pub i: usize,
    pub j: usize,
    pub dist_sq: i128,
}

/// The atom at `index` has a symbol that the radius table does not hold.
#[derive(Clone, Debug)]
pub struct UnknownElement {
    pub index: usize,
    pub symbol: String,
}

/// Femtometres in a picometre: positions are in fm, radii in pm.
pub const FM_PER_PM: i128 = 1000;

pub open spec fn dist_sq(a: Point, b: Point) -> int {
    norm_sq(vsub(a@, b@))
}

/// Every atom's element is in the radius table.
pub open spec fn all_known(atoms: Seq<Atom>) -> bool {
    forall|i: int| 0 <= i < atoms.len() ==> (#[trigger] radius_pm(atoms[i].symbol@)) is Some
}

/// `k` is the first atom whose element is not in the radius table.
pub open spec fn first_unknown(atoms: Seq<Atom>, k: int) -> bool {
    &&& 0 <= k < atoms.len()
    &&& radius_pm(atoms[k].symbol@) is None
    &&& forall|i: int| 0 <= i < k ==> (#[trigger] radius_pm(atoms[i].symbol@)) is Some
}

pub open spec fn radius_of(a: Atom) -> int {
    radius_pm(a.symbol@)->0 as int
}

/// A distance `d` with `d² = d2` is below `1.2 · r_sum`, where `r_sum` is in
/// picometres and `d` in femtometres. Written `(5d)² < (6·r_sum)²` so that it
/// stays in integers.
pub open spec fn within_bond_range(d2: int, r_sum_pm: int) -> bool {
    25 * d2 < 36 * ((FM_PER_PM * r_sum_pm) * (FM_PER_PM * r_sum_pm))
}

/// On a distance `d` given whole, the squared form of the bond range is
/// the plain one: `d` lies within range of two atoms whose radii sum to
/// `r_sum_pm` exactly when `d < 1.2 · r_sum_pm`, that is `5d < 6 · r_sum_pm`
/// in common units.
pub proof fn lemma_bond_range_linear(d: int, r_sum_pm: int)
    requires
        d >= 0,
        r_sum_pm >= 0,
    ensures
        within_bond_range(d * d, r_sum_pm) <==> 5 * d < 6 * (FM_PER_PM * r_sum_pm),
{
    let s = FM_PER_PM * r_sum_pm;
    assert(s >= 0);
    if 5 * d < 6 * s {
        assert(25 * (d * d) < 36 * (s * s)) by (nonlinear_arith)
            requires 0 <= 5 * d < 6 * s;
    } else {
        assert(25 * (d * d) >= 36 * (s * s)) by (nonlinear_arith)
            requires 5 * d >= 6 * s, s >= 0;
    }
}

/// Atoms `i` and `j` are bonded: distinct, and closer than 1.2 times the sum
/// of their covalent radii.
pub open spec fn bonded(atoms: Seq<Atom>, i: int, j: int) -> bool {
    &&& i != j
    &&& within_bond_range(
        dist_sq(atoms[i].position, atoms[j].position),
        radius_of(atoms[i]) + radius_of(atoms[j]),
    )
}

pub open spec fn strictly_increasing(s: Seq<usize>) -> bool {
    forall|p: int, q: int| 0 <= p < q < s.len() ==> s[p] < s[q]
}

/// Each row of `g` holds indices below `n`, and there is one row per atom.
pub open spec fn indices_in(g: Seq<Seq<usize>>, n: int) -> bool {
    &&& g.len() == n
    &&& forall|i: int, p: int| 0 <= i < n && 0 <= p < g[i].len() ==> #[trigger] g[i][p] < n
}

/// `g` is the bond graph of `atoms`: row `i` lists, in ascending order, the
/// atoms bonded to atom `i`.
pub open spec fn is_bond_graph(atoms: Seq<Atom>, g: Seq<Seq<usize>>) -> bool {
    &&& indices_in(g, atoms.len() as int)
    &&& forall|i: int| 0 <= i < atoms.len() ==> strictly_increasing(#[trigger] g[i])
    &&& forall|i: int, j: int|
        0 <= i < atoms.len() && 0 <= j < atoms.len() ==> (#[trigger] g[i].contains(j as usize)
            <==> bonded(atoms, i, j))
}

/// The pairs `(i, j)` with `i < j` that row `i` of a graph yields, among its
/// first `upto` entries.
pub open spec fn row_bonds(nb: Seq<usize>, i: usize, upto: int) -> Seq<(usize, usize)>
    decreases upto,
{
    if upto <= 0 {
        seq![]
    } else {
        row_bonds(nb, i, upto - 1) + if i < nb[upto - 1] {
            seq![(i, nb[upto - 1])]
        } else {
            seq![]
        }
    }
}

/// The bonds of a graph, row by row over its first `upto` rows.
pub open spec fn bond_pairs(g: Seq<Seq<usize>>, upto: int) -> Seq<(usize, usize)>
    decreases upto,
{
    if upto <= 0 {
        seq![]
    } else {
        bond_pairs(g, upto - 1) + row_bonds(g[upto - 1], (upto - 1) as usize, g[upto - 1].len() as int)
    }
}

pub open spec fn bond_pair(b: Bond) -> (usize, usize) {
    (b.i, b.j)
}

pub open spec fn pairs_of(bs: Seq<Bond>) -> Seq<(usize, usize)> {
    bs.map_values(|b: Bond| bond_pair(b))
}

/// Squared distance between two points.
pub fn get_r12(a: &Point, b: &Point) -> (r: i128)
    ensures
        r == dist_sq(*a, *b),
        0 <= r <= 0x3_0000_0000_0000_0000,
{
    let d = displacement(a, b);
    proof {
        crate::vector::lemma_norm_sq(d@);
        assert(d.x * d.x <= 0x1_0000_0000_0000_0000) by (nonlinear_arith)
            requires -0x1_0000_0000 <= d.x <= 0x1_0000_0000;
        assert(d.y * d.y <= 0x1_0000_0000_0000_0000) by (nonlinear_arith)
            requires -0x1_0000_0000 <= d.y <= 0x1_0000_0000;
        assert(d.z * d.z <= 0x1_0000_0000_0000_0000) by (nonlinear_arith)
            requires -0x1_0000_0000 <= d.z <= 0x1_0000_0000;
    }
    get_udp(&d, &d)
}

/// Radii of all atoms, in picometres, or the first atom whose element the
/// table does not hold.
pub fn covalent_radii(atoms: &Vec<Atom>) -> (r: Result<Vec<u32>, UnknownElement>)
    ensures
        r is Ok <==> all_known(atoms@),
        r matches Ok(v) ==> v@.len() == atoms@.len() && forall|i: int|
            0 <= i < atoms@.len() ==> v@[i] as int == radius_of(#[trigger] atoms@[i]),
        r matches Err(e) ==> first_unknown(atoms@, e.index as int) && e.symbol@
            == atoms@[e.index as int].symbol@,
{
    let mut v: Vec<u32> = Vec::new();
    let n = atoms.len();
    for i in 0..n
        invariant
            n == atoms@.len(),
            v@.len() == i,
            forall|k: int| 0 <= k < i ==> (#[trigger] radius_pm(atoms@[k].symbol@)) is Some,
            forall|k: int| 0 <= k < i ==> v@[k] as int == radius_of(#[trigger] atoms@[k]),
    {
        match covalent_radius(atoms[i].symbol.as_str()) {
            Some(r) => v.push(r),
            None => {
                return Err(UnknownElement { index: i, symbol: atoms[i].symbol.clone() });
            },
        }
    }
    Ok(v)
}

/// Whether two atoms with the given radii are bonded.
fn within_bond_distance(a: &Point, b: &Point, ra: u32, rb: u32) -> (r: bool)
    ensures
        r == within_bond_range(dist_sq(*a, *b), ra as int + rb as int),
{
    let d2 = get_r12(a, b);
    let s: i128 = FM_PER_PM * (ra as i128 + rb as i128);
    proof {
        assert(s * s <= 0x100_0000_0000_0000_0000_0000) by (nonlinear_arith)
            requires 0 <= s <= 0x1000_0000_0000;
    }
    25 * d2 < 36 * (s * s)
}

/// The bond graph of `atoms`: for each atom, the atoms bonded to it in
/// ascending order. Fails with the first atom whose element has no radius.
pub fn get_bond_graph(atoms: &Vec<Atom>) -> (r: Result<Vec<Vec<usize>>, UnknownElement>)
    ensures
        r is Ok <==> all_known(atoms@),
        r matches Ok(g) ==> is_bond_graph(atoms@, g.deep_view()),
        r matches Err(e) ==> first_unknown(atoms@, e.index as int) && e.symbol@
            == atoms@[e.index as int].symbol@,
{
    let radii = match covalent_radii(atoms) {
        Ok(v) => v,
        Err(e) => return Err(e),
    };
    let n = atoms.len();
    let mut g: Vec<Vec<usize>> = Vec::new();
    for i in 0..n
        invariant
            n == atoms@.len(),
            radii@.len() == n,
            forall|k: int| 0 <= k < n ==> radii@[k] as int == radius_of(#[trigger] atoms@[k]),
            g@.len() == i,
            forall|k: int, p: int| 0 <= k < i && 0 <= p < g@[k]@.len() ==> #[trigger] g@[k]@[p] < n,
            forall|k: int| 0 <= k < i ==> strictly_increasing(#[trigger] g@[k]@),
            forall|k: int, j: int|
                0 <= k < i && 0 <= j < n ==> (#[trigger] g@[k]@.contains(j as usize) <==> bonded(
                    atoms@,
                    k,
                    j,
                )),
    {
        let mut row: Vec<usize> = Vec::new();
        for j in 0..n
            invariant
                n == atoms@.len(),
                radii@.len() == n,
                i < n,
                forall|k: int| 0 <= k < n ==> radii@[k] as int == radius_of(#[trigger] atoms@[k]),
                forall|p: int| 0 <= p < row@.len() ==> #[trigger] row@[p] < j,
                strictly_increasing(row@),
                forall|x: int|
                    0 <= x < n ==> (#[trigger] row@.contains(x as usize) <==> (x < j && bonded(
                        atoms@,
                        i as int,
                        x,
                    ))),
        {
            let ghost old_row = row@;
            if j != i && within_bond_distance(
                &atoms[i].position,
                &atoms[j].position,
                radii[i],
                radii[j],
            ) {
                row.push(j);
            }
            proof {
                assert forall|x: int| 0 <= x < n implies (#[trigger] row@.contains(x as usize) <==> (
                x < j + 1 && bonded(atoms@, i as int, x))) by {
                    if row@.contains(x as usize) {
                        let p = choose|p: int| 0 <= p < row@.len() && row@[p] == x as usize;
                        if p < old_row.len() {
                            assert(old_row.contains(x as usize));
                        }
                    }
                    if x < j + 1 && bonded(atoms@, i as int, x) {
                        if x < j {
                            assert(old_row.contains(x as usize));
                            let p = choose|p: int| 0 <= p < old_row.len() && old_row[p] == x as usize;
                            assert(row@[p] == x as usize);
                        } else {
                            assert(row@[row@.len() - 1] == x as usize);
                        }
                    }
                }
            }
        }
        g.push(row);
    }
    proof {
        assert(g.deep_view().len() == n);
        assert forall|k: int| 0 <= k < n implies #[trigger] g.deep_view()[k] == g@[k]@ by {}
    }
    Ok(g)
}

/// The bonds of graph `g`: each pair `i < j` with `j` in row `i`, row by row,
/// with its squared distance.
pub fn get_bonds(atoms: &Vec<Atom>, g: &Vec<Vec<usize>>) -> (r: Vec<Bond>)
    requires
        indices_in(g.deep_view(), atoms@.len() as int),
    ensures
        pairs_of(r@) == bond_pairs(g.deep_view(), atoms@.len() as int),
        forall|t: int|
            0 <= t < r@.len() ==> (#[trigger] r@[t]).dist_sq == dist_sq(
                atoms@[r@[t].i as int].position,
                atoms@[r@[t].j as int].position,
            ),
{
    let ghost gv = g.deep_view();
    let n = atoms.len();
    let mut r: Vec<Bond> = Vec::new();
    for i in 0..n
        invariant
            n == atoms@.len(),
            gv == g.deep_view(),
            indices_in(gv, n as int),
            pairs_of(r@) == bond_pairs(gv, i as int),
            forall|t: int|
                0 <= t < r@.len() ==> (#[trigger] r@[t]).i < n && r@[t].j < n && r@[t].dist_sq
                    == dist_sq(atoms@[r@[t].i as int].position, atoms@[r@[t].j as int].position),
    {
        let row = &g[i];
        assert(row@ == gv[i as int]);
        for a in 0..row.len()
            invariant
                n == atoms@.len(),
                gv == g.deep_view(),
                indices_in(gv, n as int),
                i < n,
                row@ == gv[i as int],
                pairs_of(r@) == bond_pairs(gv, i as int) + row_bonds(row@, i, a as int),
                forall|t: int|
                    0 <= t < r@.len() ==> (#[trigger] r@[t]).i < n && r@[t].j < n && r@[t].dist_sq
                        == dist_sq(atoms@[r@[t].i as int].position, atoms@[r@[t].j as int].position),
        {
            let j = row[a];
            assert(j < n) by {
                assert(gv[i as int][a as int] < n);
            }
            let ghost before = r@;
            if i < j {
                let d2 = get_r12(&atoms[i].position, &atoms[j].position);
                r.push(Bond { i, j, dist_sq: d2 });
            }
            proof {
                assert(pairs_of(r@) =~= pairs_of(before) + if i < j {
                    seq![(i, j)]
                } else {
                    seq![]
                });
                assert(row_bonds(row@, i, a + 1) == row_bonds(row@, i, a as int) + if i < j {
                    seq![(i, j)]
                } else {
                    seq![]
                });
                assert(pairs_of(r@) =~= bond_pairs(gv, i as int) + row_bonds(row@, i, a + 1));
            }
        }
        assert(bond_pairs(gv, i + 1) == bond_pairs(gv, i as int) + row_bonds(
            gv[i as int],
            i,
            gv[i as int].len() as int,
        ));
    }
    r
}

/// The bonds of a geometry, in the order of `get_bonds` over its bond graph;
/// fails with the first atom whose element has no radius.
pub fn bonds(atoms: &Vec<Atom>) -> (r: Result<Vec<Bond>, UnknownElement>)
    ensures
        r is Ok <==> all_known(atoms@),
        r matches Ok(bs) ==> exists|g: Seq<Seq<usize>>|
            #![trigger is_bond_graph(atoms@, g)]
            is_bond_graph(atoms@, g) && pairs_of(bs@) == bond_pairs(g, atoms@.len() as int),
        r matches Ok(bs) ==> forall|t: int|
            0 <= t < bs@.len() ==> (#[trigger] bs@[t]).dist_sq == dist_sq(
                atoms@[bs@[t].i as int].position,
                atoms@[bs@[t].j as int].position,
            ),
        r matches Err(e) ==> first_unknown(atoms@, e.index as int) && e.symbol@
            == atoms@[e.index as int].symbol@,
{
    let g = get_bond_graph(atoms)?;
    let bs = get_bonds(atoms, &g);
    Ok(bs)
}

proof fn lemma_dist_sq_symmetric(a: Point, b: Point)
    ensures
        dist_sq(a, b) == dist_sq(b, a),
{
    let (x, y, z) = (a.x - b.x, a.y - b.y, a.z - b.z);
    assert(x * x == (-x) * (-x) && y * y == (-y) * (-y) && z * z == (-z) * (-z)) by (nonlinear_arith);
}

/// Bonding is symmetric: in a bond graph, `j` is a neighbour of `i` exactly
/// when `i` is a neighbour of `j`.
pub proof fn lemma_bond_graph_symmetric(atoms: Seq<Atom>, g: Seq<Seq<usize>>)
    requires
        is_bond_graph(atoms, g),
    ensures
        forall|i: int, j: int|
            0 <= i < atoms.len() && 0 <= j < atoms.len() ==> (#[trigger] g[i].contains(j as usize)
                <==> #[trigger] g[j].contains(i as usize)),
{
    assert forall|i: int, j: int|
        0 <= i < atoms.len() && 0 <= j < atoms.len() implies (#[trigger] g[i].contains(j as usize)
        <==> #[trigger] g[j].contains(i as usize)) by {
        lemma_dist_sq_symmetric(atoms[i].position, atoms[j].position);
        assert(bonded(atoms, i, j) == bonded(atoms, j, i));
    }
}

} // verus!
