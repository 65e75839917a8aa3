use vstd::prelude::*;
use crate::angles::DegenerateGeometry;
use crate::bonds::{get_bond_graph, all_known, first_unknown, indices_in, is_bond_graph, strictly_increasing, Atom, UnknownElement};
use crate::order::{lemma_concat_sorted, sorted_by};
use crate::vector::{cross, displacement, dot, get_ucp, get_udp, is_zero, norm_sq, vsub, Point, Vec3, Vect};

verus! {

/// The dihedral angle of a chain `i-j-k-l`, exactly. `n1` is the normal of
/// the plane `i-j-k`, `n2` that of the plane `j-k-l`; the magnitude of the
/// torsion is the angle between them, `arccos(n1·n2 / (|n1||n2|))`, and the
/// torsion is that magnitude, negated where `negative` holds.
#[derive(Clone, Copy, Debug, PartialEq, Eq, Structural)]
pub struct Dihedral {
    pub n1: Vec3,
    pub n2: Vec3,
    pub negative: bool,
}

/// The torsion about the bond `j-k` of the chain `i-j-k-l`.
#[derive(Clone, Copy, Debug)]
pub struct Torsion {
    pub i: usize,
    pub j: usize,
    pub k: usize,
    pub l: usize,
    pub value: Result<Dihedral, DegenerateGeometry>,
}

/// `r` is the dihedral of the chain through `a`, `b`, `c`, `d`: the normals
/// `(a-b)×(c-b)` and `(b-c)×(d-c)`, negative where `d` lies on the side of
/// the plane `a-b-c` that the first normal points to.
pub open spec fn is_dihedral(r: Result<Dihedral, DegenerateGeometry>, a: Point, b: Point, c: Point, d: Point) -> bool {
    let b1 = vsub(a@, b@);
    let b2 = vsub(c@, b@);
    let c1 = vsub(b@, c@);
    let c2 = vsub(d@, c@);
    if is_zero(b1) || is_zero(b2) || is_zero(c2) {
        r == Err::<Dihedral, DegenerateGeometry>(DegenerateGeometry::CoincidentAtoms)
    } else if is_zero(cross(b1, b2)) || is_zero(cross(c1, c2)) {
        r == Err::<Dihedral, DegenerateGeometry>(DegenerateGeometry::CollinearAtoms)
    } else {
        &&& r is Ok
        &&& r->Ok_0.n1@ == cross(b1, b2)
        &&& r->Ok_0.n2@ == cross(c1, c2)
        &&& r->Ok_0.negative == (dot(cross(b1, b2), c2) > 0)
    }
}

/// The torsion lies in `(-180°, 180°]`: its cosine `n1·n2 / (|n1||n2|)` lies
/// in `[-1, 1]`, and it is `-1`, a torsion of 180°, only where the torsion
/// is not negative.
pub open spec fn torsion_in_range(d: Dihedral) -> bool {
    let c = dot(d.n1@, d.n2@);
    &&& norm_sq(d.n1@) > 0
    &&& norm_sq(d.n2@) > 0
    &&& c * c <= norm_sq(d.n1@) * norm_sq(d.n2@)
    &&& d.negative ==> c * c < norm_sq(d.n1@) * norm_sq(d.n2@)
}

proof fn lemma_bac_cab_coord(ax: int, ay: int, az: int, bx: int, by: int, bz: int, cx: int, cy: int, cz: int)
    ensures
        ay * (bx * cy - by * cx) - az * (bz * cx - bx * cz) == bx * (ax * cx + ay * cy + az * cz) - cx
            * (ax * bx + ay * by + az * bz),
{
    assert(ay * (bx * cy - by * cx) == ay * (bx * cy) - ay * (by * cx)) by (nonlinear_arith);
    assert(az * (bz * cx - bx * cz) == az * (bz * cx) - az * (bx * cz)) by (nonlinear_arith);
    assert(bx * (ax * cx + ay * cy + az * cz) == bx * (ax * cx) + bx * (ay * cy) + bx * (az * cz))
        by (nonlinear_arith);
    assert(cx * (ax * bx + ay * by + az * bz) == cx * (ax * bx) + cx * (ay * by) + cx * (az * bz))
        by (nonlinear_arith);
    assert(ay * (bx * cy) == bx * (ay * cy)) by (nonlinear_arith);
    assert(ay * (by * cx) == cx * (ay * by)) by (nonlinear_arith);
    assert(az * (bz * cx) == cx * (az * bz)) by (nonlinear_arith);
    assert(az * (bx * cz) == bx * (az * cz)) by (nonlinear_arith);
    assert(bx * (ax * cx) == cx * (ax * bx)) by (nonlinear_arith);
}

/// `a × (b × c) = b (a·c) - c (a·b)`.
pub proof fn lemma_bac_cab(a: Vect, b: Vect, c: Vect)
    ensures
        cross(a, cross(b, c)) == (Vect {
            x: b.x * dot(a, c) - c.x * dot(a, b),
            y: b.y * dot(a, c) - c.y * dot(a, b),
            z: b.z * dot(a, c) - c.z * dot(a, b),
        }),
{
    lemma_bac_cab_coord(a.x, a.y, a.z, b.x, b.y, b.z, c.x, c.y, c.z);
    lemma_bac_cab_coord(a.y, a.z, a.x, b.y, b.z, b.x, c.y, c.z, c.x);
    lemma_bac_cab_coord(a.z, a.x, a.y, b.z, b.x, b.y, c.z, c.x, c.y);
}

proof fn lemma_cross_orthogonal_coord(ax: int, ay: int, az: int, bx: int, by: int, bz: int)
    ensures
        (ay * bz - az * by) * ax + (az * bx - ax * bz) * ay + (ax * by - ay * bx) * az == 0,
{
    assert((ay * bz - az * by) * ax == ax * (ay * bz) - ax * (az * by)) by (nonlinear_arith);
    assert((az * bx - ax * bz) * ay == ay * (az * bx) - ay * (ax * bz)) by (nonlinear_arith);
    assert((ax * by - ay * bx) * az == az * (ax * by) - az * (ay * bx)) by (nonlinear_arith);
    assert(ax * (ay * bz) == ay * (ax * bz)) by (nonlinear_arith);
    assert(ax * (az * by) == az * (ax * by)) by (nonlinear_arith);
    assert(ay * (az * bx) == az * (ay * bx)) by (nonlinear_arith);
}

/// A cross product is orthogonal to both of its factors.
pub proof fn lemma_cross_orthogonal(a: Vect, b: Vect)
    ensures
        dot(cross(a, b), a) == 0,
        dot(cross(a, b), b) == 0,
{
    lemma_cross_orthogonal_coord(a.x, a.y, a.z, b.x, b.y, b.z);
    lemma_cross_orthogonal_coord(b.x, b.y, b.z, -a.x, -a.y, -a.z);
    assert(dot(cross(a, b), b) == (b.y * (-a.z) - b.z * (-a.y)) * b.x + (b.z * (-a.x) - b.x * (
    -a.z)) * b.y + (b.x * (-a.y) - b.y * (-a.x)) * b.z) by (nonlinear_arith);
}

proof fn lemma_scale_sum(s: int, x: int, y: int, z: int)
    ensures
        s * (x + y + z) == s * x + s * y + s * z,
{
    assert(s * (x + y + z) == s * x + s * y + s * z) by (nonlinear_arith);
}

proof fn lemma_scale_assoc(s: int, x: int, y: int)
    ensures
        s * (x * y) == (s * x) * y,
{
    assert(s * (x * y) == (s * x) * y) by (nonlinear_arith);
}

proof fn lemma_dot_scaled(p: Vect, q: Vect, c: Vect, s: int, t: int)
    requires
        s * p.x == t * q.x,
        s * p.y == t * q.y,
        s * p.z == t * q.z,
    ensures
        s * dot(p, c) == t * dot(q, c),
{
    lemma_scale_sum(s, p.x * c.x, p.y * c.y, p.z * c.z);
    lemma_scale_sum(t, q.x * c.x, q.y * c.y, q.z * c.z);
    lemma_scale_assoc(s, p.x, c.x);
    lemma_scale_assoc(s, p.y, c.y);
    lemma_scale_assoc(s, p.z, c.z);
    lemma_scale_assoc(t, q.x, c.x);
    lemma_scale_assoc(t, q.y, c.y);
    lemma_scale_assoc(t, q.z, c.z);
}

/// Two parallel normals `p ∥ q` (`p × q = 0`, `q ≠ 0`) are orthogonal to the
/// same vectors.
proof fn lemma_parallel_orthogonal(p: Vect, q: Vect, c: Vect)
    requires
        is_zero(cross(p, q)),
        !is_zero(q),
        dot(q, c) == 0,
    ensures
        dot(p, c) == 0,
{
    lemma_bac_cab(q, p, q);
    crate::vector::lemma_norm_sq(q);
    let z = cross(p, q);
    assert(cross(q, z) == Vect { x: 0, y: 0, z: 0 });
    assert(cross(q, z).x == p.x * dot(q, q) - q.x * dot(q, p));
    assert(dot(q, q) * p.x == dot(q, p) * q.x) by (nonlinear_arith)
        requires p.x * dot(q, q) - q.x * dot(q, p) == 0;
    assert(cross(q, z).y == p.y * dot(q, q) - q.y * dot(q, p));
    assert(dot(q, q) * p.y == dot(q, p) * q.y) by (nonlinear_arith)
        requires p.y * dot(q, q) - q.y * dot(q, p) == 0;
    assert(cross(q, z).z == p.z * dot(q, q) - q.z * dot(q, p));
    assert(dot(q, q) * p.z == dot(q, p) * q.z) by (nonlinear_arith)
        requires p.z * dot(q, q) - q.z * dot(q, p) == 0;
    lemma_dot_scaled(p, q, c, dot(q, q), dot(q, p));
    assert(dot(q, q) * dot(p, c) == 0) by (nonlinear_arith)
        requires dot(q, q) * dot(p, c) == dot(q, p) * dot(q, c), dot(q, c) == 0;
    assert(dot(p, c) == 0) by (nonlinear_arith)
        requires dot(q, q) * dot(p, c) == 0, dot(q, q) > 0;
}

proof fn lemma_dihedral_in_range(n1: Vect, n2: Vect, c1: Vect, c2: Vect)
    requires
        n2 == cross(c1, c2),
        !is_zero(n1),
        !is_zero(n2),
    ensures
        norm_sq(n1) > 0,
        norm_sq(n2) > 0,
        dot(n1, n2) * dot(n1, n2) <= norm_sq(n1) * norm_sq(n2),
        dot(n1, c2) > 0 ==> dot(n1, n2) * dot(n1, n2) < norm_sq(n1) * norm_sq(n2),
{
    crate::vector::lemma_norm_sq(n1);
    crate::vector::lemma_norm_sq(n2);
    crate::vector::lemma_cauchy_schwarz(n1, n2);
    if dot(n1, c2) > 0 && dot(n1, n2) * dot(n1, n2) == norm_sq(n1) * norm_sq(n2) {
        lemma_cross_orthogonal(c1, c2);
        lemma_parallel_orthogonal(n1, n2, c2);
    }
}

/// The dihedral angle of the chain through `a`, `b`, `c`, `d`.
pub fn get_t1234(a: &Point, b: &Point, c: &Point, d: &Point) -> (r: Result<Dihedral, DegenerateGeometry>)
    ensures
        is_dihedral(r, *a, *b, *c, *d),
        r matches Ok(x) ==> torsion_in_range(x),
{
    let b1 = displacement(a, b);
    let b2 = displacement(c, b);
    let c1 = displacement(b, c);
    let c2 = displacement(d, c);
    if (b1.x == 0 && b1.y == 0 && b1.z == 0) || (b2.x == 0 && b2.y == 0 && b2.z == 0) || (c2.x == 0
        && c2.y == 0 && c2.z == 0) {
        return Err(DegenerateGeometry::CoincidentAtoms);
    }
    let n1 = get_ucp(&b1, &b2);
    let n2 = get_ucp(&c1, &c2);
    if (n1.x == 0 && n1.y == 0 && n1.z == 0) || (n2.x == 0 && n2.y == 0 && n2.z == 0) {
        return Err(DegenerateGeometry::CollinearAtoms);
    }
    let side = get_udp(&n1, &c2);
    proof {
        lemma_dihedral_in_range(n1@, n2@, c1@, c2@);
    }
    Ok(Dihedral { n1, n2, negative: side > 0 })
}

/// The chains `(i, j, k, l)` for the first `upto` neighbours `l` of `k`,
/// leaving out `l == j` and `l == i`.
pub open spec fn quads_l(nbk: Seq<usize>, i: usize, j: usize, k: usize, upto: int) -> Seq<(usize, usize, usize, usize)>
    decreases upto,
{
    if upto <= 0 {
        seq![]
    } else {
        let l = nbk[upto - 1];
        quads_l(nbk, i, j, k, upto - 1) + if l != j && l != i {
            seq![(i, j, k, l)]
        } else {
            seq![]
        }
    }
}

/// The chains about the bond `j-k` for the first `upto` neighbours `i` of
/// `j`, leaving out `i == k`.
pub open spec fn quads_i(g: Seq<Seq<usize>>, j: usize, k: usize, upto: int) -> Seq<(usize, usize, usize, usize)>
    decreases upto,
{
    if upto <= 0 {
        seq![]
    } else {
        let i = g[j as int][upto - 1];
        quads_i(g, j, k, upto - 1) + if i != k {
            quads_l(g[k as int], i, j, k, g[k as int].len() as int)
        } else {
            seq![]
        }
    }
}

/// The chains whose central bond is `j-k`, `k > j`, for the first `upto`
/// neighbours `k` of `j`.
pub open spec fn quads_k(g: Seq<Seq<usize>>, j: usize, upto: int) -> Seq<(usize, usize, usize, usize)>
    decreases upto,
{
    if upto <= 0 {
        seq![]
    } else {
        let k = g[j as int][upto - 1];
        quads_k(g, j, upto - 1) + if k > j {
            quads_i(g, j, k, g[j as int].len() as int)
        } else {
            seq![]
        }
    }
}

/// The torsion chains of graph `g` whose central bond starts at one of its
/// first `upto` atoms.
pub open spec fn torsion_quads(g: Seq<Seq<usize>>, upto: int) -> Seq<(usize, usize, usize, usize)>
    decreases upto,
{
    if upto <= 0 {
        seq![]
    } else {
        torsion_quads(g, upto - 1) + quads_k(g, (upto - 1) as usize, g[upto - 1].len() as int)
    }
}

pub open spec fn torsion_quad(x: Torsion) -> (usize, usize, usize, usize) {
    (x.i, x.j, x.k, x.l)
}

pub open spec fn quads_of(s: Seq<Torsion>) -> Seq<(usize, usize, usize, usize)> {
    s.map_values(|x: Torsion| torsion_quad(x))
}

/// What holds of each torsion of a list computed from `atoms`: its indices
/// name atoms, its value is the dihedral of its chain, and lies in range.
pub open spec fn torsion_values_hold(atoms: Seq<Atom>, r: Seq<Torsion>) -> bool {
    forall|t: int|
        0 <= t < r.len() ==> {
            let x = #[trigger] r[t];
            &&& x.i < atoms.len() && x.j < atoms.len() && x.k < atoms.len() && x.l < atoms.len()
            &&& is_dihedral(
                x.value,
                atoms[x.i as int].position,
                atoms[x.j as int].position,
                atoms[x.k as int].position,
                atoms[x.l as int].position,
            )
            &&& x.value matches Ok(d) ==> torsion_in_range(d)
        }
}

/// All torsions of graph `g`: for each bond `j-k` with `j < k`, taken by `j`
/// ascending and then along row `j`, each neighbour `i != k` of `j` along
/// row `j` and each neighbour `l` of `k`, other than `j` and `i`, along row `k`.
pub fn get_torsions(atoms: &Vec<Atom>, g: &Vec<Vec<usize>>) -> (r: Vec<Torsion>)
    requires
        indices_in(g.deep_view(), atoms@.len() as int),
    ensures
        quads_of(r@) == torsion_quads(g.deep_view(), atoms@.len() as int),
        torsion_values_hold(atoms@, r@),
{
    let ghost gv = g.deep_view();
    let n = atoms.len();
    let mut r: Vec<Torsion> = Vec::new();
    for j in 0..n
        invariant
            n == atoms@.len(),
            gv == g.deep_view(),
            indices_in(gv, n as int),
            quads_of(r@) == torsion_quads(gv, j as int),
            torsion_values_hold(atoms@, r@),
    {
        let nbj = &g[j];
        assert(nbj@ == gv[j as int]);
        for a in 0..nbj.len()
            invariant
                n == atoms@.len(),
                gv == g.deep_view(),
                indices_in(gv, n as int),
                j < n,
                nbj@ == gv[j as int],
                quads_of(r@) == torsion_quads(gv, j as int) + quads_k(gv, j, a as int),
                torsion_values_hold(atoms@, r@),
        {
            let k = nbj[a];
            assert(k < n) by {
                assert(gv[j as int][a as int] < n);
            }
            let ghost mid = r@;
            if k > j {
                let nbk = &g[k];
                assert(nbk@ == gv[k as int]);
                for b in 0..nbj.len()
                    invariant
                        n == atoms@.len(),
                        gv == g.deep_view(),
                        indices_in(gv, n as int),
                        j < n,
                        k < n,
                        nbj@ == gv[j as int],
                        nbk@ == gv[k as int],
                        quads_of(r@) == quads_of(mid) + quads_i(gv, j, k, b as int),
                        torsion_values_hold(atoms@, r@),
                {
                    let i = nbj[b];
                    assert(i < n) by {
                        assert(gv[j as int][b as int] < n);
                    }
                    let ghost inner = r@;
                    if i != k {
                        for c in 0..nbk.len()
                            invariant
                                n == atoms@.len(),
                                gv == g.deep_view(),
                                indices_in(gv, n as int),
                                i < n && j < n && k < n,
                                nbk@ == gv[k as int],
                                quads_of(r@) == quads_of(inner) + quads_l(nbk@, i, j, k, c as int),
                                torsion_values_hold(atoms@, r@),
                        {
                            let l = nbk[c];
                            assert(l < n) by {
                                assert(gv[k as int][c as int] < n);
                            }
                            let ghost before = r@;
                            if l != j && l != i {
                                let value = get_t1234(
                                    &atoms[i].position,
                                    &atoms[j].position,
                                    &atoms[k].position,
                                    &atoms[l].position,
                                );
                                r.push(Torsion { i, j, k, l, value });
                                proof {
                                    assert(quads_of(r@) =~= quads_of(before).push((i, j, k, l)));
                                    assert(r@[r@.len() - 1] == Torsion { i, j, k, l, value });
                                }
                            }
                            proof {
                                assert(quads_l(nbk@, i, j, k, c + 1) == quads_l(nbk@, i, j, k, c as int)
                                    + if l != j && l != i {
                                    seq![(i, j, k, l)]
                                } else {
                                    seq![]
                                });
                                assert(quads_of(r@) =~= quads_of(inner) + quads_l(nbk@, i, j, k, c + 1));
                            }
                        }
                    }
                    proof {
                        assert(quads_i(gv, j, k, b + 1) == quads_i(gv, j, k, b as int) + if i != k {
                            quads_l(gv[k as int], i, j, k, gv[k as int].len() as int)
                        } else {
                            seq![]
                        });
                        assert(quads_of(r@) =~= quads_of(mid) + quads_i(gv, j, k, b + 1));
                    }
                }
            }
            proof {
                assert(quads_k(gv, j, a + 1) == quads_k(gv, j, a as int) + if k > j {
                    quads_i(gv, j, k, gv[j as int].len() as int)
                } else {
                    seq![]
                });
                assert(quads_of(r@) =~= torsion_quads(gv, j as int) + quads_k(gv, j, a + 1));
            }
        }
        assert(torsion_quads(gv, j + 1) == torsion_quads(gv, j as int) + quads_k(
            gv,
            j,
            gv[j as int].len() as int,
        ));
    }
    r
}

/// The torsions of a geometry, computed over its bond graph; fails with the
/// first atom whose element has no radius.
pub fn torsions(atoms: &Vec<Atom>) -> (r: Result<Vec<Torsion>, UnknownElement>)
    ensures
        r is Ok <==> all_known(atoms@),
        r matches Ok(xs) ==> exists|g: Seq<Seq<usize>>|
            #![trigger is_bond_graph(atoms@, g)]
            is_bond_graph(atoms@, g) && quads_of(xs@) == torsion_quads(g, atoms@.len() as int),
        r matches Ok(xs) ==> torsion_values_hold(atoms@, xs@),
        r matches Err(e) ==> first_unknown(atoms@, e.index as int) && e.symbol@
            == atoms@[e.index as int].symbol@,
{
    let g = get_bond_graph(atoms)?;
    let xs = get_torsions(atoms, &g);
    Ok(xs)
}

/// The four points lie in one plane: the edges `a-b`, `c-b` and `d-c` span
/// no volume.
pub open spec fn coplanar(a: Point, b: Point, c: Point, d: Point) -> bool {
    dot(cross(vsub(a@, b@), vsub(c@, b@)), vsub(d@, c@)) == 0
}

/// A planar chain has a torsion of 0° or 180°: where its dihedral is
/// defined, the two normals are parallel, so that the cosine is ±1
/// (`(n1·n2)² = |n1|²|n2|²`), and the torsion is not negative.
pub proof fn lemma_planar_torsion(r: Result<Dihedral, DegenerateGeometry>, a: Point, b: Point, c: Point, d: Point)
    requires
        coplanar(a, b, c, d),
        is_dihedral(r, a, b, c, d),
        r is Ok,
    ensures
        dot(r->Ok_0.n1@, r->Ok_0.n2@) * dot(r->Ok_0.n1@, r->Ok_0.n2@) == norm_sq(r->Ok_0.n1@)
            * norm_sq(r->Ok_0.n2@),
        !r->Ok_0.negative,
{
    let b1 = vsub(a@, b@);
    let b2 = vsub(c@, b@);
    let c1 = vsub(b@, c@);
    let c2 = vsub(d@, c@);
    let n1 = cross(b1, b2);
    let n2 = cross(c1, c2);
    lemma_cross_orthogonal(b1, b2);
    assert(dot(n1, c1) == -dot(n1, b2)) by (nonlinear_arith)
        requires c1.x == -b2.x && c1.y == -b2.y && c1.z == -b2.z;
    lemma_bac_cab(n1, c1, c2);
    assert(is_zero(cross(n1, n2)));
    crate::vector::lemma_cauchy_schwarz(n1, n2);
}

/// The order in which torsions come: by central bond `j-k`, then by `i` and
/// by `l`.
pub open spec fn quad_lt(x: (usize, usize, usize, usize), y: (usize, usize, usize, usize)) -> bool {
    x.1 < y.1 || (x.1 == y.1 && (x.2 < y.2 || (x.2 == y.2 && (x.0 < y.0 || (x.0 == y.0 && x.3
        < y.3)))))
}

proof fn lemma_quads_l_sorted(nbk: Seq<usize>, i: usize, j: usize, k: usize, upto: int)
    requires
        strictly_increasing(nbk),
        upto <= nbk.len(),
    ensures
        sorted_by(quads_l(nbk, i, j, k, upto), |x, y| quad_lt(x, y)),
        forall|t: int|
            0 <= t < quads_l(nbk, i, j, k, upto).len() ==> {
                let x = #[trigger] quads_l(nbk, i, j, k, upto)[t];
                x.0 == i && x.1 == j && x.2 == k && x.3 <= nbk[upto - 1]
            },
    decreases upto,
{
    if upto > 0 {
        lemma_quads_l_sorted(nbk, i, j, k, upto - 1);
        let l = nbk[upto - 1];
        let s1 = quads_l(nbk, i, j, k, upto - 1);
        let s2: Seq<(usize, usize, usize, usize)> = if l != j && l != i {
            seq![(i, j, k, l)]
        } else {
            seq![]
        };
        if upto > 1 {
            assert(nbk[upto - 2] < nbk[upto - 1]);
        }
        lemma_concat_sorted(s1, s2, |x, y| quad_lt(x, y));
    }
}

proof fn lemma_quads_i_sorted(g: Seq<Seq<usize>>, j: usize, k: usize, upto: int)
    requires
        j < g.len(),
        k < g.len(),
        strictly_increasing(g[j as int]),
        strictly_increasing(g[k as int]),
        upto <= g[j as int].len(),
    ensures
        sorted_by(quads_i(g, j, k, upto), |x, y| quad_lt(x, y)),
        forall|t: int|
            0 <= t < quads_i(g, j, k, upto).len() ==> {
                let x = #[trigger] quads_i(g, j, k, upto)[t];
                x.1 == j && x.2 == k && x.0 <= g[j as int][upto - 1]
            },
    decreases upto,
{
    if upto > 0 {
        lemma_quads_i_sorted(g, j, k, upto - 1);
        let i = g[j as int][upto - 1];
        let s1 = quads_i(g, j, k, upto - 1);
        let s2 = if i != k {
            quads_l(g[k as int], i, j, k, g[k as int].len() as int)
        } else {
            seq![]
        };
        lemma_quads_l_sorted(g[k as int], i, j, k, g[k as int].len() as int);
        if upto > 1 {
            assert(g[j as int][upto - 2] < g[j as int][upto - 1]);
        }
        lemma_concat_sorted(s1, s2, |x, y| quad_lt(x, y));
    }
}

proof fn lemma_quads_k_sorted(g: Seq<Seq<usize>>, j: usize, upto: int)
    requires
        indices_in(g, g.len() as int),
        forall|i: int| 0 <= i < g.len() ==> strictly_increasing(#[trigger] g[i]),
        j < g.len(),
        upto <= g[j as int].len(),
    ensures
        sorted_by(quads_k(g, j, upto), |x, y| quad_lt(x, y)),
        forall|t: int|
            0 <= t < quads_k(g, j, upto).len() ==> {
                let x = #[trigger] quads_k(g, j, upto)[t];
                x.1 == j && j < x.2 && x.2 <= g[j as int][upto - 1]
            },
    decreases upto,
{
    if upto > 0 {
        lemma_quads_k_sorted(g, j, upto - 1);
        let k = g[j as int][upto - 1];
        let s1 = quads_k(g, j, upto - 1);
        let s2 = if k > j {
            quads_i(g, j, k, g[j as int].len() as int)
        } else {
            seq![]
        };
        assert(k < g.len());
        lemma_quads_i_sorted(g, j, k, g[j as int].len() as int);
        if upto > 1 {
            assert(g[j as int][upto - 2] < g[j as int][upto - 1]);
        }
        lemma_concat_sorted(s1, s2, |x, y| quad_lt(x, y));
    }
}

proof fn lemma_torsion_quads_sorted(g: Seq<Seq<usize>>, upto: int)
    requires
        indices_in(g, g.len() as int),
        forall|i: int| 0 <= i < g.len() ==> strictly_increasing(#[trigger] g[i]),
        0 <= upto <= g.len() <= usize::MAX,
    ensures
        sorted_by(torsion_quads(g, upto), |x, y| quad_lt(x, y)),
        forall|t: int|
            0 <= t < torsion_quads(g, upto).len() ==> {
                let x = #[trigger] torsion_quads(g, upto)[t];
                x.1 < upto && x.1 < x.2
            },
    decreases upto,
{
    if upto > 0 {
        lemma_torsion_quads_sorted(g, upto - 1);
        let j = (upto - 1) as usize;
        lemma_quads_k_sorted(g, j, g[j as int].len() as int);
        lemma_concat_sorted(
            torsion_quads(g, upto - 1),
            quads_k(g, j, g[j as int].len() as int),
            |x, y| quad_lt(x, y),
        );
    }
}

/// Each torsion chain is listed once, and its reverse `(l, k, j, i)`, the
/// same dihedral seen from the other end, is never listed beside it.
pub proof fn lemma_torsions_distinct(atoms: Seq<Atom>, g: Seq<Seq<usize>>)
    requires
        is_bond_graph(atoms, g),
        atoms.len() <= usize::MAX,
    ensures
        forall|p: int, q: int|
            0 <= p < q < torsion_quads(g, atoms.len() as int).len() ==> #[trigger] torsion_quads(
                g,
                atoms.len() as int,
            )[p] != #[trigger] torsion_quads(g, atoms.len() as int)[q],
        forall|p: int, q: int|
            0 <= p < torsion_quads(g, atoms.len() as int).len() && 0 <= q < torsion_quads(
                g,
                atoms.len() as int,
            ).len() ==> {
                let x = #[trigger] torsion_quads(g, atoms.len() as int)[p];
                #[trigger] torsion_quads(g, atoms.len() as int)[q] != (x.3, x.2, x.1, x.0)
            },
{
    lemma_torsion_quads_sorted(g, atoms.len() as int);
}

} // verus!
