use geometry_analysis::angles::{angles, get_a123, get_angles, DegenerateGeometry};
use geometry_analysis::coordinate::{parse_atom, parse_coordinate};
use geometry_analysis::bonds::{bonds, covalent_radii, get_bond_graph, get_bonds, get_r12, Atom};
use geometry_analysis::radii::covalent_radius;
use geometry_analysis::torsions::{get_t1234, get_torsions, torsions, Dihedral};
use geometry_analysis::vector::{displacement, get_ucp, get_udp, Point, Vec3};

const FM_PER_ANGSTROM: f64 = 100000.0;

fn atom(symbol: &str, x: f64, y: f64, z: f64) -> Atom {
    Atom {
        symbol: symbol.to_string(),
        position: Point {
            x: (x * FM_PER_ANGSTROM).round() as i32,
            y: (y * FM_PER_ANGSTROM).round() as i32,
            z: (z * FM_PER_ANGSTROM).round() as i32,
        },
    }
}

fn atom_fm(symbol: &str, x: i32, y: i32, z: i32) -> Atom {
    Atom { symbol: symbol.to_string(), position: Point { x, y, z } }
}

fn dot_f(a: &Vec3, b: &Vec3) -> f64 {
    a.x as f64 * b.x as f64 + a.y as f64 * b.y as f64 + a.z as f64 * b.z as f64
}

fn torsion_degrees(d: &Dihedral) -> f64 {
    let cos = dot_f(&d.n1, &d.n2) / (dot_f(&d.n1, &d.n1).sqrt() * dot_f(&d.n2, &d.n2).sqrt());
    let magnitude = cos.clamp(-1.0, 1.0).acos().to_degrees();
    if d.negative { -magnitude } else { magnitude }
}

fn ethane() -> Vec<Atom> {
    let (r, z_h, z_c) = (1.0199, 1.1606, 0.7650);
    let mut atoms = vec![atom("C", 0.0, 0.0, z_c), atom("C", 0.0, 0.0, -z_c)];
    for t in [0.0f64, 120.0, 240.0] {
        let a = t.to_radians();
        atoms.push(atom("H", r * a.cos(), r * a.sin(), z_h));
    }
    for t in [60.0f64, 180.0, 300.0] {
        let a = t.to_radians();
        atoms.push(atom("H", r * a.cos(), r * a.sin(), -z_h));
    }
    atoms
}

fn methane() -> Vec<Atom> {
    let s = 0.6276;
    vec![
        atom("C", 0.0, 0.0, 0.0),
        atom("H", s, s, s),
        atom("H", -s, -s, s),
        atom("H", -s, s, -s),
        atom("H", s, -s, -s),
    ]
}

#[test]
fn radius_table_lookups() {
    assert_eq!(covalent_radius("H"), Some(37));
    assert_eq!(covalent_radius("C"), Some(77));
    assert_eq!(covalent_radius("Cl"), Some(99));
    assert_eq!(covalent_radius("Kr"), Some(103));
    assert_eq!(covalent_radius("X"), Some(0));
    assert_eq!(covalent_radius("Xx"), None);
    assert_eq!(covalent_radius("h"), None);
    assert_eq!(covalent_radius(""), None);
    assert_eq!(covalent_radius("Ca2"), None);
    assert_eq!(covalent_radius("Ö"), None);
}

#[test]
fn radii_of_a_geometry() {
    let r = covalent_radii(&methane()).unwrap();
    assert_eq!(r, vec![77, 37, 37, 37, 37]);
}

#[test]
fn bond_threshold_below_at_and_above() {
    // Two hydrogens: 1.2 * (0.37 + 0.37) Å = 88 800 fm.
    for (d, expected) in [(88799, true), (88800, false), (88801, false)] {
        let atoms = vec![atom_fm("H", 0, 0, 0), atom_fm("H", d, 0, 0)];
        let g = get_bond_graph(&atoms).unwrap();
        assert_eq!(!g[0].is_empty(), expected, "distance {}", d);
        assert_eq!(!g[1].is_empty(), expected, "distance {}", d);
    }
    // Carbon and oxygen: 1.2 * (0.77 + 0.73) Å = 180 000 fm, along a diagonal.
    let atoms = vec![atom_fm("C", 0, 0, 0), atom_fm("O", 108000, 144000, 0)];
    assert!(get_bond_graph(&atoms).unwrap()[0].is_empty());
    let atoms = vec![atom_fm("C", 0, 0, 0), atom_fm("O", 108000, 143999, 0)];
    assert_eq!(get_bond_graph(&atoms).unwrap()[0], vec![1]);
}

#[test]
fn dummy_atoms_have_radius_zero() {
    // Two dummies never bond, even at one position; with a hydrogen the
    // threshold is 1.2 * 0.37 Å = 44 400 fm.
    let atoms = vec![atom_fm("X", 0, 0, 0), atom_fm("X", 0, 0, 0), atom_fm("H", 100000, 0, 0)];
    let g = get_bond_graph(&atoms).unwrap();
    assert_eq!(g, vec![vec![], vec![], vec![]]);
    let atoms = vec![atom_fm("X", 0, 0, 0), atom_fm("H", 44399, 0, 0)];
    assert_eq!(get_bond_graph(&atoms).unwrap(), vec![vec![1], vec![0]]);
    let atoms = vec![atom_fm("X", 0, 0, 0), atom_fm("H", -44400, 0, 0)];
    assert_eq!(get_bond_graph(&atoms).unwrap(), vec![vec![], vec![]]);
}

#[test]
fn bond_graph_is_symmetric_and_ascending() {
    for atoms in [ethane(), methane()] {
        let g = get_bond_graph(&atoms).unwrap();
        for i in 0..atoms.len() {
            assert!(g[i].windows(2).all(|w| w[0] < w[1]));
            assert!(!g[i].contains(&i));
            for &j in &g[i] {
                assert!(g[j].contains(&i));
            }
        }
    }
}

#[test]
fn ethane_bond_graph() {
    let g = get_bond_graph(&ethane()).unwrap();
    assert_eq!(g[0], vec![1, 2, 3, 4]);
    assert_eq!(g[1], vec![0, 5, 6, 7]);
    for h in 2..5 {
        assert_eq!(g[h], vec![0]);
    }
    for h in 5..8 {
        assert_eq!(g[h], vec![1]);
    }
}

#[test]
fn unknown_element_is_reported() {
    let atoms = vec![atom("C", 0.0, 0.0, 0.0), atom("Xx", 1.0, 0.0, 0.0), atom("Qq", 2.0, 0.0, 0.0)];
    let e = get_bond_graph(&atoms).unwrap_err();
    assert_eq!(e.index, 1);
    assert_eq!(e.symbol, "Xx");
    assert_eq!(bonds(&atoms).unwrap_err().index, 1);
    assert_eq!(angles(&atoms).unwrap_err().symbol, "Xx");
    assert_eq!(torsions(&atoms).unwrap_err().index, 1);
}

#[test]
fn unknown_element_alone_is_reported() {
    let atoms = vec![atom("Xx", 0.0, 0.0, 0.0)];
    assert_eq!(get_bond_graph(&atoms).unwrap_err().index, 0);
}

#[test]
fn empty_geometry() {
    let atoms: Vec<Atom> = vec![];
    assert!(get_bond_graph(&atoms).unwrap().is_empty());
    assert!(bonds(&atoms).unwrap().is_empty());
    assert!(torsions(&atoms).unwrap().is_empty());
    let (bs, xs) = angles(&atoms).unwrap();
    assert!(bs.is_empty() && xs.is_empty());
}

#[test]
fn ethane_counts() {
    let atoms = ethane();
    let bs = bonds(&atoms).unwrap();
    assert_eq!(bs.len(), 7);
    let pairs: Vec<(usize, usize)> = bs.iter().map(|b| (b.i, b.j)).collect();
    assert_eq!(pairs, vec![(0, 1), (0, 2), (0, 3), (0, 4), (1, 5), (1, 6), (1, 7)]);
    let (_, xs) = angles(&atoms).unwrap();
    assert_eq!(xs.len(), 12);
    let ts = torsions(&atoms).unwrap();
    assert_eq!(ts.len(), 9);
}

#[test]
fn ethane_torsions_are_staggered() {
    let ts = torsions(&ethane()).unwrap();
    let quads: Vec<(usize, usize, usize, usize)> = ts.iter().map(|t| (t.i, t.j, t.k, t.l)).collect();
    let mut expected = vec![];
    for i in 2..5 {
        for l in 5..8 {
            expected.push((i, 0, 1, l));
        }
    }
    assert_eq!(quads, expected);
    let values: Vec<f64> = ts.iter().map(|t| torsion_degrees(t.value.as_ref().unwrap())).collect();
    let near = |v: f64, target: f64| (v - target).abs() < 0.01;
    assert_eq!(values.iter().filter(|v| near(**v, 60.0)).count(), 3);
    assert_eq!(values.iter().filter(|v| near(**v, -60.0)).count(), 3);
    assert_eq!(values.iter().filter(|v| near(v.abs(), 180.0)).count(), 3);
    for v in &values {
        assert!(*v > -180.0 && *v <= 180.0);
    }
}

#[test]
fn ethane_angles_are_tetrahedral() {
    let (_, xs) = angles(&ethane()).unwrap();
    for x in &xs {
        let c = x.cosine.unwrap();
        let cos = c.dot as f64 / ((c.norm_sq_u as f64).sqrt() * (c.norm_sq_v as f64).sqrt());
        let deg = cos.acos().to_degrees();
        assert!((deg - 109.5).abs() < 2.5, "angle {}", deg);
    }
}

#[test]
fn methane_angles_are_distinct() {
    let atoms = methane();
    let (bs, xs) = angles(&atoms).unwrap();
    assert_eq!(bs.len(), 4);
    let triples: Vec<(usize, usize, usize)> = xs.iter().map(|x| (x.i, x.j, x.k)).collect();
    assert_eq!(triples, vec![(1, 0, 2), (1, 0, 3), (1, 0, 4), (2, 0, 3), (2, 0, 4), (3, 0, 4)]);
    for p in 0..triples.len() {
        for q in 0..triples.len() {
            if p != q {
                let (a, b) = (triples[p], triples[q]);
                assert!(!(a.1 == b.1 && ((a.0 == b.0 && a.2 == b.2) || (a.0 == b.2 && a.2 == b.0))));
            }
        }
    }
    for x in &xs {
        let c = x.cosine.unwrap();
        // A tetrahedral angle: cos = -1/3, so 9·dot² = |u|²|v|² with dot < 0.
        assert!(c.dot < 0);
        let ratio = (c.dot as f64) * (c.dot as f64) * 9.0 / (c.norm_sq_u as f64 * c.norm_sq_v as f64);
        assert!((ratio - 1.0).abs() < 1e-4);
    }
}

#[test]
fn right_angle_is_exact() {
    let a = Point { x: 96000, y: 0, z: 0 };
    let b = Point { x: 0, y: 0, z: 0 };
    let c = Point { x: 0, y: 96000, z: 0 };
    let x = get_a123(&a, &b, &c).unwrap();
    assert_eq!(x.dot, 0);
    assert_eq!(x.norm_sq_u, 96000 * 96000);
    assert_eq!(x.norm_sq_v, 96000 * 96000);
}

#[test]
fn straight_angle_has_cosine_minus_one() {
    let a = Point { x: -100, y: 0, z: 0 };
    let b = Point { x: 0, y: 0, z: 0 };
    let c = Point { x: 300, y: 0, z: 0 };
    let x = get_a123(&a, &b, &c).unwrap();
    assert_eq!(x.dot, -30000);
    assert_eq!(x.dot * x.dot, x.norm_sq_u * x.norm_sq_v);
}

#[test]
fn angle_with_coincident_atoms_is_degenerate() {
    let a = Point { x: 5, y: 5, z: 5 };
    let c = Point { x: 0, y: 9, z: 0 };
    assert_eq!(get_a123(&a, &a, &c), Err(DegenerateGeometry::CoincidentAtoms));
    let atoms = vec![atom_fm("O", 0, 0, 0), atom_fm("H", 0, 0, 0), atom_fm("H", 96000, 0, 0)];
    let (_, xs) = angles(&atoms).unwrap();
    assert_eq!(xs.len(), 1);
    assert_eq!((xs[0].i, xs[0].j, xs[0].k), (1, 0, 2));
    assert_eq!(xs[0].cosine, Err(DegenerateGeometry::CoincidentAtoms));
}

#[test]
fn planar_square_torsion_is_zero_or_straight() {
    let s = 150000;
    let atoms = vec![
        atom_fm("C", 0, 0, 0),
        atom_fm("C", s, 0, 0),
        atom_fm("C", s, s, 0),
        atom_fm("C", 0, s, 0),
    ];
    let ts = torsions(&atoms).unwrap();
    assert_eq!(ts.len(), 4);
    for t in &ts {
        let d = t.value.unwrap();
        assert!(!d.negative);
        let v = torsion_degrees(&d);
        assert!(v.abs() < 1e-6 || (v - 180.0).abs() < 1e-6, "torsion {}", v);
    }
    // A zigzag in the plane: trans, 180°.
    let trans = get_t1234(
        &Point { x: 0, y: 100, z: 0 },
        &Point { x: 0, y: 0, z: 0 },
        &Point { x: 100, y: 0, z: 0 },
        &Point { x: 100, y: -100, z: 0 },
    )
    .unwrap();
    assert!(!trans.negative);
    assert!((torsion_degrees(&trans) - 180.0).abs() < 1e-9);
}

#[test]
fn torsion_sign_convention() {
    let i = Point { x: 100, y: 0, z: 0 };
    let j = Point { x: 0, y: 0, z: 0 };
    let k = Point { x: 0, y: 0, z: 100 };
    let l_pos = Point { x: 0, y: 100, z: 100 };
    let l_neg = Point { x: 0, y: -100, z: 100 };
    let pos = get_t1234(&i, &j, &k, &l_pos).unwrap();
    assert_eq!(pos.n1, Vec3 { x: 0, y: -10000, z: 0 });
    assert_eq!(pos.n2, Vec3 { x: 10000, y: 0, z: 0 });
    assert!(!pos.negative);
    assert!((torsion_degrees(&pos) - 90.0).abs() < 1e-9);
    let neg = get_t1234(&i, &j, &k, &l_neg).unwrap();
    assert!(neg.negative);
    assert!((torsion_degrees(&neg) + 90.0).abs() < 1e-9);
}

#[test]
fn torsion_degeneracies() {
    let o = Point { x: 0, y: 0, z: 0 };
    let x1 = Point { x: 100, y: 0, z: 0 };
    let x2 = Point { x: 200, y: 0, z: 0 };
    let y1 = Point { x: 200, y: 100, z: 0 };
    assert_eq!(get_t1234(&o, &x1, &x2, &y1), Err(DegenerateGeometry::CollinearAtoms));
    assert_eq!(get_t1234(&y1, &o, &x1, &x2), Err(DegenerateGeometry::CollinearAtoms));
    assert_eq!(get_t1234(&o, &o, &x1, &y1), Err(DegenerateGeometry::CoincidentAtoms));
    assert_eq!(get_t1234(&y1, &x1, &x1, &o), Err(DegenerateGeometry::CoincidentAtoms));
    assert_eq!(get_t1234(&y1, &o, &x1, &x1), Err(DegenerateGeometry::CoincidentAtoms));
}

#[test]
fn linear_chain_torsions_are_degenerate() {
    let atoms = vec![
        atom_fm("C", 0, 0, 0),
        atom_fm("C", 150000, 0, 0),
        atom_fm("C", 300000, 0, 0),
        atom_fm("C", 450000, 0, 0),
    ];
    let ts = torsions(&atoms).unwrap();
    assert_eq!(ts.len(), 1);
    assert_eq!((ts[0].i, ts[0].j, ts[0].k, ts[0].l), (0, 1, 2, 3));
    assert_eq!(ts[0].value, Err(DegenerateGeometry::CollinearAtoms));
}

#[test]
fn torsions_are_distinct_and_never_reversed() {
    // Butane-like chain with a branch, so that several central bonds carry torsions.
    let atoms = vec![
        atom("C", 0.0, 0.0, 0.0),
        atom("C", 1.5, 0.0, 0.0),
        atom("C", 2.0, 1.4, 0.0),
        atom("C", 3.5, 1.5, 0.3),
        atom("C", 1.9, -0.8, 1.2),
    ];
    let g = get_bond_graph(&atoms).unwrap();
    let ts = get_torsions(&atoms, &g);
    let quads: Vec<(usize, usize, usize, usize)> = ts.iter().map(|t| (t.i, t.j, t.k, t.l)).collect();
    assert!(!quads.is_empty());
    for p in 0..quads.len() {
        let (i, j, k, l) = quads[p];
        assert!(j < k);
        assert!(!quads.contains(&(l, k, j, i)));
        for q in p + 1..quads.len() {
            assert_ne!(quads[p], quads[q]);
        }
    }
}

#[test]
fn bonds_carry_squared_distances() {
    let atoms = vec![atom_fm("O", 0, 0, 0), atom_fm("H", 30000, 40000, 0), atom_fm("H", -96000, 0, 0)];
    let g = get_bond_graph(&atoms).unwrap();
    let bs = get_bonds(&atoms, &g);
    assert_eq!(bs.len(), 2);
    assert_eq!((bs[0].i, bs[0].j, bs[0].dist_sq), (0, 1, 2_500_000_000));
    assert_eq!((bs[1].i, bs[1].j, bs[1].dist_sq), (0, 2, 9_216_000_000));
    let xs = get_angles(&atoms, &g);
    assert_eq!(xs.len(), 1);
    assert_eq!(xs[0].cosine.unwrap().dot, -30000i128 * 96000);
}

#[test]
fn vector_primitives() {
    let a = Point { x: i32::MAX, y: i32::MIN, z: 7 };
    let b = Point { x: i32::MIN, y: i32::MAX, z: -3 };
    let d = displacement(&a, &b);
    assert_eq!(d, Vec3 { x: 4294967295, y: -4294967295, z: 10 });
    assert_eq!(get_r12(&a, &b), 2 * 4294967295i128 * 4294967295 + 100);
    let u = Vec3 { x: 1, y: 2, z: 3 };
    let v = Vec3 { x: 4, y: 5, z: 6 };
    assert_eq!(get_udp(&u, &v), 32);
    assert_eq!(get_ucp(&u, &v), Vec3 { x: -3, y: 6, z: -3 });
    let big = get_ucp(&d, &Vec3 { x: -4294967296, y: -4294967296, z: 0 });
    assert_eq!(big.z, 4294967295i128 * -4294967296 - (-4294967295i128) * -4294967296);
}

#[test]
fn coordinates_in_angstroms_become_femtometres() {
    assert_eq!(parse_coordinate("1.0"), Some(100000));
    assert_eq!(parse_coordinate("-0.765"), Some(-76500));
    assert_eq!(parse_coordinate("+2"), Some(200000));
    assert_eq!(parse_coordinate(".5"), Some(50000));
    assert_eq!(parse_coordinate("5."), Some(500000));
    assert_eq!(parse_coordinate("0.000001"), Some(0));
    assert_eq!(parse_coordinate("1.234565"), Some(123457));
    assert_eq!(parse_coordinate("1.2345649"), Some(123456));
    assert_eq!(parse_coordinate("-1.234565"), Some(-123457));
    assert_eq!(parse_coordinate("0000000000000001.5"), Some(150000));
    assert_eq!(parse_coordinate("21474.83647"), Some(i32::MAX));
    assert_eq!(parse_coordinate("-21474.83648"), Some(i32::MIN));
    assert_eq!(parse_coordinate("21474.83648"), None);
    assert_eq!(parse_coordinate("100000"), None);
    assert_eq!(parse_coordinate("123456789012345678901234567890"), None);
}

#[test]
fn malformed_coordinates_are_rejected() {
    for text in ["", "-", "+", ".", "-.", "1.2.3", "abc", "1e3", "1,5", " 1", "--1", "1-", "0x10", "１"] {
        assert_eq!(parse_coordinate(text), None, "{:?}", text);
    }
}

#[test]
fn atoms_from_fields() {
    let a = parse_atom("C", "0.0", "-1.5", "0.765").unwrap();
    assert_eq!(a.symbol, "C");
    assert_eq!(a.position, Point { x: 0, y: -150000, z: 76500 });
    assert!(parse_atom("C", "0.0", "x", "0.765").is_none());
}
