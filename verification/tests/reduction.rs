use lophat::algorithms::{
    Decomposition, LockFreeAlgorithm, LockingAlgorithm, SerialAlgorithm,
};
use lophat::columns::{BitSetColumn, BitSetVecHybridColumn, Column, VecColumn};
use lophat::options::LoPhatOptions;
use lophat::utils::PersistenceDiagram;

fn build_sphere_triangulation() -> Vec<VecColumn> {
    vec![
        (0, vec![]),
        (0, vec![]),
        (0, vec![]),
        (0, vec![]),
        (1, vec![0, 1]),
        (1, vec![0, 2]),
        (1, vec![1, 2]),
        (1, vec![0, 3]),
        (1, vec![1, 3]),
        (1, vec![2, 3]),
        (2, vec![4, 7, 8]),
        (2, vec![5, 7, 9]),
        (2, vec![6, 8, 9]),
        (2, vec![4, 5, 6]),
    ]
    .into_iter()
    .map(VecColumn::from)
    .collect()
}

fn sphere_diagram() -> PersistenceDiagram {
    PersistenceDiagram {
        unpaired: vec![0, 13],
        paired: vec![(1, 4), (2, 5), (3, 7), (6, 12), (8, 10), (9, 11)],
    }
}

#[test]
fn serial_sphere_triangulation_correct() {
    let matrix = build_sphere_triangulation();
    let correct_diagram = sphere_diagram();
    let options = LoPhatOptions::default();
    let computed_diagram = SerialAlgorithm::init(Some(options))
        .add_cols(matrix)
        .decompose()
        .diagram();
    assert_eq!(computed_diagram, correct_diagram)
}

#[test]
fn serial_test_v_maintain() {
    let matrix = build_sphere_triangulation();
    let mut options = LoPhatOptions::default();
    options.maintain_v = true;
    let correct_diagram = sphere_diagram();
    let decomp = SerialAlgorithm::init(Some(options))
        .add_cols(matrix)
        .decompose();
    let computed_diagram = decomp.diagram();
    for idx in 0..decomp.n_cols() {
        let col = decomp.get_v_col(idx).ok().unwrap();
        println!("{:?}", col.entries());
    }
    assert_eq!(computed_diagram, correct_diagram)
}

// The old construction surface took bare entry lists; the tests carry over
// with every dimension tag zero.
fn build_sphere_dim_zero() -> Vec<VecColumn> {
    vec![
        vec![],
        vec![],
        vec![],
        vec![],
        vec![0, 1],
        vec![0, 2],
        vec![1, 2],
        vec![0, 3],
        vec![1, 3],
        vec![2, 3],
        vec![4, 7, 8],
        vec![5, 7, 9],
        vec![6, 8, 9],
        vec![4, 5, 6],
    ]
    .into_iter()
    .map(|col| VecColumn::from((0, col)))
    .collect()
}

#[test]
fn decomposition_sphere_triangulation_correct() {
    let matrix = build_sphere_dim_zero();
    let correct_diagram = sphere_diagram();
    let options = LoPhatOptions::default();
    let computed_diagram = SerialAlgorithm::init(Some(options))
        .add_cols(matrix)
        .decompose()
        .diagram();
    assert_eq!(computed_diagram, correct_diagram)
}

#[test]
fn decomposition_test_v_maintain() {
    let matrix = build_sphere_dim_zero();
    let mut options = LoPhatOptions::default();
    options.maintain_v = true;
    let correct_diagram = sphere_diagram();
    let decomp = SerialAlgorithm::init(Some(options))
        .add_cols(matrix)
        .decompose();
    let computed_diagram = decomp.diagram();
    for idx in 0..decomp.n_cols() {
        let col = decomp.get_v_col(idx).ok().unwrap();
        println!("{:?}", col.entries());
    }
    assert_eq!(computed_diagram, correct_diagram)
}

#[test]
fn lock_free_sphere_triangulation_correct() {
    let matrix = build_sphere_triangulation();
    let correct_diagram = sphere_diagram();
    let computed_diagram = LockFreeAlgorithm::init(None)
        .add_cols(matrix)
        .decompose()
        .diagram();
    assert_eq!(computed_diagram, correct_diagram)
}

#[test]
fn locking_sphere_triangulation_correct() {
    let matrix = build_sphere_triangulation();
    let correct_diagram = sphere_diagram();
    let computed_diagram = LockingAlgorithm::init(None)
        .add_cols(matrix)
        .decompose()
        .diagram();
    assert_eq!(computed_diagram, correct_diagram)
}

// Single triangle boundary: expected pairs {(1,3), (2,4)}; unpaired {0, 5}.
fn build_triangle() -> Vec<VecColumn> {
    vec![
        (0, vec![]),
        (0, vec![]),
        (0, vec![]),
        (1, vec![0, 1]),
        (1, vec![0, 2]),
        (1, vec![1, 2]),
    ]
    .into_iter()
    .map(VecColumn::from)
    .collect()
}

#[test]
fn single_triangle_boundary() {
    let correct = PersistenceDiagram { unpaired: vec![0, 5], paired: vec![(1, 3), (2, 4)] };
    let serial = SerialAlgorithm::init(None).add_cols(build_triangle()).decompose().diagram();
    let lock_free = LockFreeAlgorithm::init(None).add_cols(build_triangle()).decompose().diagram();
    let locking = LockingAlgorithm::init(None).add_cols(build_triangle()).decompose().diagram();
    assert_eq!(serial, correct);
    assert_eq!(lock_free, correct);
    assert_eq!(locking, correct);
}

// Filled triangle (disk): expected pairs {(1,3), (2,4), (5,6)}; unpaired {0}.
fn build_disk() -> Vec<VecColumn> {
    let mut cols = build_triangle();
    cols.push(VecColumn::from((2, vec![3, 4, 5])));
    cols
}

#[test]
fn filled_triangle_disk() {
    let correct = PersistenceDiagram { unpaired: vec![0], paired: vec![(1, 3), (2, 4), (5, 6)] };
    let serial = SerialAlgorithm::init(None).add_cols(build_disk()).decompose().diagram();
    let lock_free = LockFreeAlgorithm::init(None).add_cols(build_disk()).decompose().diagram();
    let locking = LockingAlgorithm::init(None).add_cols(build_disk()).decompose().diagram();
    assert_eq!(serial, correct);
    assert_eq!(lock_free, correct);
    assert_eq!(locking, correct);
}

// A fixed strict-upper-triangular matrix standing in for a randomly drawn
// one: column j only holds entries below j.
fn build_sut_matrix(size: usize) -> Vec<VecColumn> {
    // a simple deterministic congruential sequence drives the choices
    let mut state: u64 = 0x2545F4914F6CDD1D;
    let mut cols = Vec::new();
    for j in 0..size {
        let mut entries = Vec::new();
        for i in 0..j {
            state = state.wrapping_mul(6364136223846793005).wrapping_add(1442695040888963407);
            if state % 3 == 0 {
                entries.push(i);
            }
        }
        cols.push(VecColumn::from((0, entries)));
    }
    cols
}

fn no_clearing() -> LoPhatOptions {
    let mut options = LoPhatOptions::default();
    options.clearing = false;
    options
}

#[test]
fn sut_cross_reducer_check() {
    let options = no_clearing();
    let serial_dgm =
        SerialAlgorithm::init(Some(options)).add_cols(build_sut_matrix(60)).decompose().diagram();
    let lock_free_dgm =
        LockFreeAlgorithm::init(Some(options)).add_cols(build_sut_matrix(60)).decompose().diagram();
    let locking_dgm =
        LockingAlgorithm::init(Some(options)).add_cols(build_sut_matrix(60)).decompose().diagram();
    assert_eq!(serial_dgm, lock_free_dgm);
    assert_eq!(serial_dgm, locking_dgm);
    assert_eq!(lock_free_dgm, locking_dgm);
}

#[test]
fn lockfree_agrees_with_serial() {
    let options = no_clearing();
    let serial_dgm =
        SerialAlgorithm::init(Some(options)).add_cols(build_sut_matrix(100)).decompose().diagram();
    let parallel_dgm = LockFreeAlgorithm::init(Some(options))
        .add_cols(build_sut_matrix(100))
        .decompose()
        .diagram();
    assert_eq!(serial_dgm, parallel_dgm);
}

#[test]
fn locking_agrees_with_serial() {
    let options = no_clearing();
    let serial_dgm =
        SerialAlgorithm::init(Some(options)).add_cols(build_sut_matrix(100)).decompose().diagram();
    let parallel_dgm = LockingAlgorithm::init(Some(options))
        .add_cols(build_sut_matrix(100))
        .decompose()
        .diagram();
    assert_eq!(serial_dgm, parallel_dgm);
}

fn to_bit_set_cols(cols: &[VecColumn]) -> Vec<BitSetColumn> {
    cols.iter()
        .map(|col| {
            let mut bit_set_col = BitSetColumn::new_with_dimension(col.dimension());
            bit_set_col.add_entries(&col.entries());
            bit_set_col
        })
        .collect()
}

fn to_hybrid_cols(cols: &[VecColumn]) -> Vec<BitSetVecHybridColumn> {
    cols.iter()
        .map(|col| {
            let mut hybrid_col = BitSetVecHybridColumn::new_with_dimension(col.dimension());
            hybrid_col.add_entries(&col.entries());
            hybrid_col
        })
        .collect()
}

#[test]
fn bit_set_cols_work() {
    let matrix = build_sphere_triangulation();
    let bit_set_matrix = to_bit_set_cols(&matrix);
    let bit_set_dgm = LockFreeAlgorithm::init(None).add_cols(bit_set_matrix).decompose().diagram();
    let vec_dgm = LockFreeAlgorithm::init(None).add_cols(matrix).decompose().diagram();
    assert_eq!(vec_dgm, bit_set_dgm);
}

#[test]
fn hybrid_cols_work() {
    let matrix = build_sphere_triangulation();
    let hybrid_matrix = to_hybrid_cols(&matrix);
    let hybrid_dgm = LockFreeAlgorithm::init(None).add_cols(hybrid_matrix).decompose().diagram();
    let vec_dgm = LockFreeAlgorithm::init(None).add_cols(matrix).decompose().diagram();
    assert_eq!(vec_dgm, hybrid_dgm);
}

#[test]
fn serial_cols_equivalent() {
    let matrix = build_sphere_triangulation();
    let bit_set_matrix = to_bit_set_cols(&matrix);
    let hybrid_matrix = to_hybrid_cols(&matrix);
    let vec_dgm = SerialAlgorithm::init(None).add_cols(matrix).decompose().diagram();
    let bit_set_dgm = SerialAlgorithm::init(None).add_cols(bit_set_matrix).decompose().diagram();
    let hybrid_dgm = SerialAlgorithm::init(None).add_cols(hybrid_matrix).decompose().diagram();
    assert_eq!(vec_dgm, bit_set_dgm);
    assert_eq!(vec_dgm, hybrid_dgm);
}

#[test]
fn clearing_neutrality() {
    let mut with_clearing = LoPhatOptions::default();
    with_clearing.clearing = true;
    let cleared = LockFreeAlgorithm::init(Some(with_clearing))
        .add_cols(build_sphere_triangulation())
        .decompose()
        .diagram();
    let uncleared = LockFreeAlgorithm::init(Some(no_clearing()))
        .add_cols(build_sphere_triangulation())
        .decompose()
        .diagram();
    assert_eq!(cleared, uncleared);
}

#[test]
fn empty_input_empty_diagram() {
    let empty = PersistenceDiagram { unpaired: vec![], paired: vec![] };
    let dgm = SerialAlgorithm::<VecColumn>::init(None).decompose().diagram();
    assert_eq!(dgm, empty);
    let dgm = LockFreeAlgorithm::<VecColumn>::init(None).decompose().diagram();
    assert_eq!(dgm, empty);
}

#[test]
fn all_zero_columns_unpaired() {
    let cols: Vec<VecColumn> = (0..5).map(|_| VecColumn::from((0, vec![]))).collect();
    let dgm = SerialAlgorithm::init(None).add_cols(cols).decompose().diagram();
    let correct = PersistenceDiagram { unpaired: vec![0, 1, 2, 3, 4], paired: vec![] };
    assert_eq!(dgm, correct);
}

#[test]
fn column_height_hint_neutral() {
    let mut tall = no_clearing();
    tall.column_height = Some(100);
    let dgm_tall = LockFreeAlgorithm::init(Some(tall))
        .add_cols(build_sphere_triangulation())
        .decompose()
        .diagram();
    let dgm_default = LockFreeAlgorithm::init(Some(no_clearing()))
        .add_cols(build_sphere_triangulation())
        .decompose()
        .diagram();
    assert_eq!(dgm_tall, dgm_default);
}

#[test]
fn single_thread_matches_serial() {
    let mut options = no_clearing();
    options.num_threads = 1;
    let serial_dgm = SerialAlgorithm::init(Some(options))
        .add_cols(build_sphere_triangulation())
        .decompose()
        .diagram();
    let lock_free_dgm = LockFreeAlgorithm::init(Some(options))
        .add_cols(build_sphere_triangulation())
        .decompose()
        .diagram();
    let locking_dgm = LockingAlgorithm::init(Some(options))
        .add_cols(build_sphere_triangulation())
        .decompose()
        .diagram();
    assert_eq!(serial_dgm, lock_free_dgm);
    assert_eq!(serial_dgm, locking_dgm);
}

#[test]
fn add_entries_builds_columns() {
    // the triangle, built out of empty columns and toggled entries
    let cols: Vec<VecColumn> = vec![
        VecColumn::from((0, vec![])),
        VecColumn::from((0, vec![])),
        VecColumn::from((0, vec![])),
        VecColumn::from((1, vec![])),
        VecColumn::from((1, vec![])),
        VecColumn::from((1, vec![])),
    ];
    let entries = vec![(0, 3), (1, 3), (0, 4), (2, 4), (1, 5), (2, 5)];
    let correct = PersistenceDiagram { unpaired: vec![0, 5], paired: vec![(1, 3), (2, 4)] };
    let dgm = SerialAlgorithm::init(None).add_cols(cols).add_entries(entries).decompose().diagram();
    assert_eq!(dgm, correct);
}

#[test]
fn v_not_maintained_error() {
    let decomp = SerialAlgorithm::init(None).add_cols(build_triangle()).decompose();
    assert!(decomp.get_v_col(0).is_err());
    assert!(!decomp.has_v());
}

#[test]
fn v_round_trip_without_clearing() {
    // D·V = R, checked column by column on the sphere triangulation
    let mut options = no_clearing();
    options.maintain_v = true;
    let matrix = build_sphere_triangulation();
    let d_cols: Vec<Vec<usize>> = matrix.iter().map(|c| c.entries()).collect();
    let decomp = SerialAlgorithm::init(Some(options)).add_cols(matrix).decompose();
    for i in 0..decomp.n_cols() {
        let v_col = decomp.get_v_col(i).ok().unwrap().entries();
        let mut sum = VecColumn::from((0, vec![]));
        for &j in v_col.iter() {
            sum.add_entries(&d_cols[j]);
        }
        assert_eq!(sum.entries(), decomp.get_r_col(i).entries());
    }
    // the same property holds of the protocol reducers
    let mut options = no_clearing();
    options.maintain_v = true;
    let matrix = build_sphere_triangulation();
    let decomp = LockFreeAlgorithm::init(Some(options)).add_cols(matrix).decompose();
    for i in 0..decomp.n_cols() {
        let v_col = decomp.get_v_col(i).ok().unwrap().entries();
        let mut sum = VecColumn::from((0, vec![]));
        for &j in v_col.iter() {
            sum.add_entries(&d_cols[j]);
        }
        assert_eq!(sum.entries(), decomp.get_r_col(i).entries());
    }
}

#[test]
fn diagram_equality_is_order_insensitive() {
    let a = PersistenceDiagram { unpaired: vec![1, 0], paired: vec![(2, 3), (4, 5)] };
    let b = PersistenceDiagram { unpaired: vec![0, 1], paired: vec![(4, 5), (2, 3)] };
    let c = PersistenceDiagram { unpaired: vec![0, 1], paired: vec![(4, 5)] };
    assert_eq!(a, b);
    assert_ne!(a, c);
}
