use vstd::prelude::*;
use crate::bonds::{get_bond_graph, get_bonds, all_known, bond_pairs, dist_sq, first_unknown, indices_in, is_bond_graph, pairs_of, strictly_increasing, Atom, Bond, UnknownElement};
use crate::order::{lemma_concat_sorted, sorted_by};
use crate::vector::{displacement, dot, get_udp, is_zero, norm_sq, vsub, Point};

verus! {

/// Why an angle or a torsion has no value.
#[derive(Clone, Copy, Debug, PartialEq, Eq, Structural)]
pub enum DegenerateGeometry {
    /// Two atoms of a bond sit at the same position.
    CoincidentAtoms,
    /// Three consecutive atoms of a torsion lie on one line.
    CollinearAtoms,
}

/// The cosine of the angle between two displacements `u` and `v`, exactly:
/// `cos = dot / sqrt(norm_sq_u · norm_sq_v)`.
#[derive(Clone, Copy, Debug, PartialEq, Eq, Structural)]
pub struct AngleCosine {
    pub dot: i128,
    pub norm_sq_u: i128,
    pub norm_sq_v: i128,
}

/// The angle at atom `j` between its bonds to `i` and to `k`.
#[derive(Clone, Copy, Debug)]
pub struct Angle {
    pub i: usize,
    pub j: usize,
    pub k: usize,
    pub cosine: Result<AngleCosine, DegenerateGeometry>,
}

/// The cosine lies in `[-1, 1]`, so the angle in `[0, π]`: `dot² <= |u|²|v|²`,
/// with both lengths positive.
pub open spec fn cosine_in_range(c: AngleCosine) -> bool {
    &&& c.norm_sq_u > 0
    &&& c.norm_sq_v > 0
    &&& (c.dot as int) * (c.dot as int) <= (c.norm_sq_u as int) * (c.norm_sq_v as int)
}

/// `r` is the angle at `b` between the directions to `a` and to `c`.
pub open spec fn is_angle_at(r: Result<AngleCosine, DegenerateGeometry>, a: Point, b: Point, c: Point) -> bool {
    let u = vsub(a@, b@);
    let v = vsub(c@, b@);
    if is_zero(u) || is_zero(v) {
        r == Err::<AngleCosine, DegenerateGeometry>(DegenerateGeometry::CoincidentAtoms)
    } else {
        &&& r is Ok
        &&& r->Ok_0.dot == dot(u, v)
        &&& r->Ok_0.norm_sq_u == norm_sq(u)
        &&& r->Ok_0.norm_sq_v == norm_sq(v)
    }
}

/// The triples `(nb[a], j, nb[b])` for `a < b < upto`.
pub open spec fn pairs_after(nb: Seq<usize>, j: usize, a: int, upto: int) -> Seq<(usize, usize, usize)>
    decreases upto - a,
{
    if upto <= a + 1 {
        seq![]
    } else {
        pairs_after(nb, j, a, upto - 1).push((nb[a], j, nb[upto - 1]))
    }
}

/// The triples centred on `j` whose first neighbour is among the first `upto`.
pub open spec fn center_triples(nb: Seq<usize>, j: usize, upto: int) -> Seq<(usize, usize, usize)>
    decreases upto,
{
    if upto <= 0 {
        seq![]
    } else {
        center_triples(nb, j, upto - 1) + pairs_after(nb, j, upto - 1, nb.len() as int)
    }
}

/// The angle triples of graph `g` centred on its first `upto` atoms.
pub open spec fn angle_triples(g: Seq<Seq<usize>>, upto: int) -> Seq<(usize, usize, usize)>
    decreases upto,
{
    if upto <= 0 {
        seq![]
    } else {
        angle_triples(g, upto - 1) + center_triples(g[upto - 1], (upto - 1) as usize, g[upto - 1].len() as int)
    }
}

pub open spec fn angle_triple(x: Angle) -> (usize, usize, usize) {
    (x.i, x.j, x.k)
}

pub open spec fn triples_of(s: Seq<Angle>) -> Seq<(usize, usize, usize)> {
    s.map_values(|x: Angle| angle_triple(x))
}

/// The angle at `b` between the directions to `a` and to `c`.
pub fn get_a123(a: &Point, b: &Point, c: &Point) -> (r: Result<AngleCosine, DegenerateGeometry>)
    ensures
        is_angle_at(r, *a, *b, *c),
        r matches Ok(x) ==> cosine_in_range(x),
{
    let u = displacement(a, b);
    let v = displacement(c, b);
    if (u.x == 0 && u.y == 0 && u.z == 0) || (v.x == 0 && v.y == 0 && v.z == 0) {
        return Err(DegenerateGeometry::CoincidentAtoms);
    }
    let d = get_udp(&u, &v);
    let nu = get_udp(&u, &u);
    let nv = get_udp(&v, &v);
    proof {
        crate::vector::lemma_norm_sq(u@);
        crate::vector::lemma_norm_sq(v@);
        crate::vector::lemma_cauchy_schwarz(u@, v@);
    }
    Ok(AngleCosine { dot: d, norm_sq_u: nu, norm_sq_v: nv })
}

/// What holds of each angle of a list computed from `atoms`: its indices
/// name atoms, its value is the angle at `j`, and a cosine lies in `[-1, 1]`.
pub open spec fn angle_values_hold(atoms: Seq<Atom>, r: Seq<Angle>) -> bool {
    forall|t: int|
        0 <= t < r.len() ==> {
            let x = #[trigger] r[t];
            &&& x.i < atoms.len() && x.j < atoms.len() && x.k < atoms.len()
            &&& is_angle_at(
                x.cosine,
                atoms[x.i as int].position,
                atoms[x.j as int].position,
                atoms[x.k as int].position,
            )
            &&& x.cosine matches Ok(c) ==> cosine_in_range(c)
        }
}

/// All bond angles of graph `g`: for each central atom `j` in ascending
/// order, each pair of its neighbours at positions `a < b` of its row.
pub fn get_angles(atoms: &Vec<Atom>, g: &Vec<Vec<usize>>) -> (r: Vec<Angle>)
    requires
        indices_in(g.deep_view(), atoms@.len() as int),
    ensures
        triples_of(r@) == angle_triples(g.deep_view(), atoms@.len() as int),
        angle_values_hold(atoms@, r@),
{
    let ghost gv = g.deep_view();
    let n = atoms.len();
    let mut r: Vec<Angle> = Vec::new();
    for j in 0..n
        invariant
            n == atoms@.len(),
            gv == g.deep_view(),
            indices_in(gv, n as int),
            triples_of(r@) == angle_triples(gv, j as int),
            angle_values_hold(atoms@, r@),
    {
        let nb = &g[j];
        let m = nb.len();
        assert(nb@ == gv[j as int]);
        for a in 0..m
            invariant
                n == atoms@.len(),
                gv == g.deep_view(),
                indices_in(gv, n as int),
                j < n,
                nb@ == gv[j as int],
                m == nb@.len(),
                triples_of(r@) == angle_triples(gv, j as int) + center_triples(nb@, j, a as int),
                angle_values_hold(atoms@, r@),
        {
            for b in a + 1..m
                invariant
                    n == atoms@.len(),
                    gv == g.deep_view(),
                    indices_in(gv, n as int),
                    j < n,
                    a < m,
                    nb@ == gv[j as int],
                    m == nb@.len(),
                    triples_of(r@) == angle_triples(gv, j as int) + center_triples(nb@, j, a as int)
                        + pairs_after(nb@, j, a as int, b as int),
                    angle_values_hold(atoms@, r@),
            {
                let i = nb[a];
                let k = nb[b];
                assert(i < n && k < n) by {
                    assert(gv[j as int][a as int] < n);
                    assert(gv[j as int][b as int] < n);
                }
                let cosine = get_a123(&atoms[i].position, &atoms[j].position, &atoms[k].position);
                let ghost before = r@;
                r.push(Angle { i, j, k, cosine });
                proof {
                    assert(triples_of(r@) =~= triples_of(before).push((i, j, k)));
                    assert(r@[r@.len() - 1] == Angle { i, j, k, cosine });
                }
            }
            assert(center_triples(nb@, j, a + 1) == center_triples(nb@, j, a as int) + pairs_after(
                nb@,
                j,
                a as int,
                m as int,
            ));
        }
        assert(angle_triples(gv, j + 1) == angle_triples(gv, j as int) + center_triples(
            nb@,
            j,
            m as int,
        ));
    }
    r
}

/// The bonds and the bond angles of a geometry, computed over its bond
/// graph; fails with the first atom whose element has no radius.
pub fn angles(atoms: &Vec<Atom>) -> (r: Result<(Vec<Bond>, Vec<Angle>), UnknownElement>)
    ensures
        r is Ok <==> all_known(atoms@),
        r matches Ok((bs, xs)) ==> exists|g: Seq<Seq<usize>>|
            #![trigger is_bond_graph(atoms@, g)]
            is_bond_graph(atoms@, g) && pairs_of(bs@) == bond_pairs(g, atoms@.len() as int)
                && triples_of(xs@) == angle_triples(g, atoms@.len() as int),
        r matches Ok((bs, xs)) ==> forall|t: int|
            0 <= t < bs@.len() ==> (#[trigger] bs@[t]).dist_sq == dist_sq(
                atoms@[bs@[t].i as int].position,
                atoms@[bs@[t].j as int].position,
            ),
        r matches Ok((bs, xs)) ==> angle_values_hold(atoms@, xs@),
        r matches Err(e) ==> first_unknown(atoms@, e.index as int) && e.symbol@
            == atoms@[e.index as int].symbol@,
{
    let g = get_bond_graph(atoms)?;
    let bs = get_bonds(atoms, &g);
    let xs = get_angles(atoms, &g);
    Ok((bs, xs))
}

/// The order in which angles come: by central atom, then by first and by
/// last outer atom.
pub open spec fn triple_lt(x: (usize, usize, usize), y: (usize, usize, usize)) -> bool {
    x.1 < y.1 || (x.1 == y.1 && (x.0 < y.0 || (x.0 == y.0 && x.2 < y.2)))
}

proof fn lemma_pairs_after_sorted(nb: Seq<usize>, j: usize, a: int, upto: int)
    requires
        strictly_increasing(nb),
        0 <= a < nb.len(),
        upto <= nb.len(),
    ensures
        sorted_by(pairs_after(nb, j, a, upto), |x, y| triple_lt(x, y)),
        forall|t: int|
            0 <= t < pairs_after(nb, j, a, upto).len() ==> {
                let x = #[trigger] pairs_after(nb, j, a, upto)[t];
                x.0 == nb[a] && x.1 == j && nb[a] < x.2 && (x.2 <= nb[upto - 1])
            },
    decreases upto - a,
{
    if upto > a + 1 {
        lemma_pairs_after_sorted(nb, j, a, upto - 1);
        let s = pairs_after(nb, j, a, upto - 1);
        if upto - 1 > a + 1 {
            assert(nb[upto - 2] < nb[upto - 1]);
        }
        lemma_concat_sorted(s, seq![(nb[a], j, nb[upto - 1])], |x, y| triple_lt(x, y));
        assert(pairs_after(nb, j, a, upto) =~= s + seq![(nb[a], j, nb[upto - 1])]);
    }
}

proof fn lemma_center_triples_sorted(nb: Seq<usize>, j: usize, upto: int)
    requires
        strictly_increasing(nb),
        upto <= nb.len(),
    ensures
        sorted_by(center_triples(nb, j, upto), |x, y| triple_lt(x, y)),
        forall|t: int|
            0 <= t < center_triples(nb, j, upto).len() ==> {
                let x = #[trigger] center_triples(nb, j, upto)[t];
                x.1 == j && x.0 < x.2 && x.0 <= nb[upto - 1]
            },
    decreases upto,
{
    if upto > 0 {
        lemma_center_triples_sorted(nb, j, upto - 1);
        lemma_pairs_after_sorted(nb, j, upto - 1, nb.len() as int);
        let s1 = center_triples(nb, j, upto - 1);
        let s2 = pairs_after(nb, j, upto - 1, nb.len() as int);
        if upto > 1 {
            assert(nb[upto - 2] < nb[upto - 1]);
        }
        assert forall|p: int, q: int| 0 <= p < s1.len() && 0 <= q < s2.len() implies triple_lt(
            s1[p],
            s2[q],
        ) by {
            assert(s1[p].0 <= nb[upto - 2]);
        }
        lemma_concat_sorted(s1, s2, |x, y| triple_lt(x, y));
    }
}

proof fn lemma_angle_triples_sorted(g: Seq<Seq<usize>>, upto: int)
    requires
        0 <= upto <= g.len() <= usize::MAX,
        forall|i: int| 0 <= i < g.len() ==> strictly_increasing(#[trigger] g[i]),
    ensures
        sorted_by(angle_triples(g, upto), |x, y| triple_lt(x, y)),
        forall|t: int|
            0 <= t < angle_triples(g, upto).len() ==> {
                let x = #[trigger] angle_triples(g, upto)[t];
                x.1 < upto && x.0 < x.2
            },
    decreases upto,
{
    if upto > 0 {
        lemma_angle_triples_sorted(g, upto - 1);
        let nb = g[upto - 1];
        lemma_center_triples_sorted(nb, (upto - 1) as usize, nb.len() as int);
        let s1 = angle_triples(g, upto - 1);
        let s2 = center_triples(nb, (upto - 1) as usize, nb.len() as int);
        lemma_concat_sorted(s1, s2, |x, y| triple_lt(x, y));
    }
}

/// No two angles share their central atom and their pair of outer atoms, in
/// either order: each angle is listed once, never also as `(k, j, i)`.
pub proof fn lemma_angles_distinct(atoms: Seq<Atom>, g: Seq<Seq<usize>>)
    requires
        is_bond_graph(atoms, g),
        atoms.len() <= usize::MAX,
    ensures
        forall|p: int, q: int|
            0 <= p < q < angle_triples(g, atoms.len() as int).len() && (#[trigger] angle_triples(
                g,
                atoms.len() as int,
            )[p]).1 == (#[trigger] angle_triples(g, atoms.len() as int)[q]).1 ==> {
                let x = angle_triples(g, atoms.len() as int)[p];
                let y = angle_triples(g, atoms.len() as int)[q];
                !(x.0 == y.0 && x.2 == y.2) && !(x.0 == y.2 && x.2 == y.0)
            },
{
    lemma_angle_triples_sorted(g, atoms.len() as int);
}

} // verus!
