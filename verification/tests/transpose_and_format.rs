use ciborium::value::Value;
use lophat::algorithms::{Decomposition, LockFreeAlgorithm};
use lophat::columns::{Column, VecColumn};
use lophat::options::LoPhatOptions;
use lophat::utils::{anti_transpose, anti_transpose_diagram, clone_to_file_format, DecompositionFileFormat};

fn build_sphere_triangulation() -> Vec<VecColumn> {
    vec![
        (0, vec![]),
        (0, vec![]),
        (0, vec![]),
        (0, vec![]),
        (1, vec![0, 1]),
        (1, vec![0, 2]),
        (1, vec![1, 2]),
        (1, vec![0, 3]),
        (1, vec![1, 3]),
        (1, vec![2, 3]),
        (2, vec![4, 7, 8]),
        (2, vec![5, 7, 9]),
        (2, vec![6, 8, 9]),
        (2, vec![4, 5, 6]),
    ]
    .into_iter()
    .map(VecColumn::from)
    .collect()
}

fn build_sphere_triangulation_at() -> Vec<VecColumn> {
    vec![
        (0, vec![]),
        (0, vec![]),
        (0, vec![]),
        (0, vec![]),
        (1, vec![1, 2]),
        (1, vec![1, 3]),
        (1, vec![2, 3]),
        (1, vec![0, 1]),
        (1, vec![0, 2]),
        (1, vec![0, 3]),
        (2, vec![4, 5, 6]),
        (2, vec![4, 7, 8]),
        (2, vec![5, 7, 9]),
        (2, vec![6, 8, 9]),
    ]
    .into_iter()
    .map(VecColumn::from)
    .collect()
}

fn assert_same_cols(a: &[VecColumn], b: &[VecColumn]) {
    assert_eq!(a.len(), b.len());
    for (x, y) in a.iter().zip(b.iter()) {
        assert_eq!(x.dimension(), y.dimension());
        assert_eq!(x.entries(), y.entries());
    }
}

#[test]
fn sphere_triangulation_at() {
    let matrix = build_sphere_triangulation();
    let matrix_at = build_sphere_triangulation_at();
    let at: Vec<VecColumn> = anti_transpose(&matrix);
    assert_same_cols(&at, &matrix_at);
}

#[test]
fn at_at_is_identity() {
    let matrix = build_sphere_triangulation();
    let at: Vec<VecColumn> = anti_transpose(&matrix);
    let at_at: Vec<VecColumn> = anti_transpose(&at);
    assert_same_cols(&matrix, &at_at);
}

#[test]
fn anti_transpose_diagram_matches_direct() {
    let matrix = build_sphere_triangulation();
    let width = matrix.len();
    let direct = LockFreeAlgorithm::init(None).add_cols(matrix).decompose().diagram();
    let at = anti_transpose(&build_sphere_triangulation());
    let co = LockFreeAlgorithm::init(None).add_cols(at).decompose().diagram();
    let reflected = anti_transpose_diagram(co, width);
    assert_eq!(reflected, direct);
}

// --- the on-disk record format, round-tripped through CBOR ---

fn get_matrix() -> Vec<VecColumn> {
    vec![
        (0, vec![]),
        (0, vec![]),
        (0, vec![]),
        (1, vec![0, 1]),
        (1, vec![0, 2]),
        (1, vec![1, 2]),
        (2, vec![3, 4, 5]),
    ]
    .into_iter()
    .map(VecColumn::from)
    .collect()
}

fn get_rvdff(with_v: bool) -> DecompositionFileFormat {
    let correct_r: Vec<VecColumn> = vec![
        (0, vec![]),
        (0, vec![]),
        (0, vec![]),
        (1, vec![0, 1]),
        (1, vec![0, 2]),
        (1, vec![]),
        (2, vec![3, 4, 5]),
    ]
    .into_iter()
    .map(VecColumn::from)
    .collect();
    let correct_v: Vec<VecColumn> = vec![
        (0, vec![0]),
        (0, vec![1]),
        (0, vec![2]),
        (1, vec![3]),
        (1, vec![4]),
        (1, vec![3, 4, 5]),
        (2, vec![6]),
    ]
    .into_iter()
    .map(VecColumn::from)
    .collect();
    if with_v {
        DecompositionFileFormat::new(correct_r, Some(correct_v))
    } else {
        DecompositionFileFormat::new(correct_r, None)
    }
}

fn column_to_value(col: &VecColumn) -> Value {
    Value::Map(vec![
        (
            Value::Text("dimension".to_string()),
            Value::Integer(col.dimension().into()),
        ),
        (
            Value::Text("boundary".to_string()),
            Value::Array(
                col.entries().into_iter().map(|e| Value::Integer((e as u64).into())).collect(),
            ),
        ),
    ])
}

fn rvdff_to_value(rvdff: &DecompositionFileFormat) -> Value {
    let r: Vec<Value> = (0..rvdff.n_cols()).map(|i| column_to_value(rvdff.get_r_col(i))).collect();
    let v: Value = if rvdff.has_v() {
        Value::Array(
            (0..rvdff.n_cols()).map(|i| column_to_value(rvdff.get_v_col(i).ok().unwrap())).collect(),
        )
    } else {
        Value::Null
    };
    Value::Map(vec![
        (Value::Text("r".to_string()), Value::Array(r)),
        (Value::Text("v".to_string()), v),
    ])
}

fn value_to_column(value: &Value) -> VecColumn {
    let fields = value.as_map().unwrap();
    let mut dimension: usize = 0;
    let mut boundary: Vec<usize> = vec![];
    for (key, val) in fields.iter() {
        match key.as_text().unwrap() {
            "dimension" => {
                dimension = u64::try_from(val.as_integer().unwrap()).unwrap() as usize;
            }
            "boundary" => {
                boundary = val
                    .as_array()
                    .unwrap()
                    .iter()
                    .map(|e| u64::try_from(e.as_integer().unwrap()).unwrap() as usize)
                    .collect();
            }
            _ => panic!("unexpected field"),
        }
    }
    VecColumn::from((dimension, boundary))
}

fn value_to_rvdff(value: &Value) -> DecompositionFileFormat {
    let fields = value.as_map().unwrap();
    let mut r: Vec<VecColumn> = vec![];
    let mut v: Option<Vec<VecColumn>> = None;
    for (key, val) in fields.iter() {
        match key.as_text().unwrap() {
            "r" => {
                r = val.as_array().unwrap().iter().map(value_to_column).collect();
            }
            "v" => {
                v = match val {
                    Value::Null => None,
                    Value::Array(cols) => Some(cols.iter().map(value_to_column).collect()),
                    _ => panic!("unexpected value"),
                };
            }
            _ => panic!("unexpected field"),
        }
    }
    DecompositionFileFormat::new(r, v)
}

fn assert_same_rvdff(a: &DecompositionFileFormat, b: &DecompositionFileFormat) {
    assert_eq!(a.n_cols(), b.n_cols());
    assert_eq!(a.has_v(), b.has_v());
    for i in 0..a.n_cols() {
        assert_eq!(a.get_r_col(i).dimension(), b.get_r_col(i).dimension());
        assert_eq!(a.get_r_col(i).entries(), b.get_r_col(i).entries());
        if a.has_v() {
            let av = a.get_v_col(i).ok().unwrap();
            let bv = b.get_v_col(i).ok().unwrap();
            assert_eq!(av.dimension(), bv.dimension());
            assert_eq!(av.entries(), bv.entries());
        }
    }
}

fn round_trip(rvdff: &DecompositionFileFormat) -> DecompositionFileFormat {
    let value = rvdff_to_value(rvdff);
    let mut bytes: Vec<u8> = vec![];
    ciborium::ser::into_writer(&value, &mut bytes).ok();
    let back: Value = ciborium::de::from_reader(bytes.as_slice()).ok().unwrap();
    assert_eq!(value, back);
    value_to_rvdff(&back)
}

#[test]
fn serialize_fileformat_and_back() {
    // serialize and back again with V
    let rvdff_1 = get_rvdff(true);
    let rvdff_2 = round_trip(&rvdff_1);
    assert_same_rvdff(&rvdff_1, &rvdff_2);
    // serialize and back again without V
    let rvdff_1 = get_rvdff(false);
    let rvdff_2 = round_trip(&rvdff_1);
    assert_same_rvdff(&rvdff_1, &rvdff_2);
}

#[test]
fn serialize_lfa_and_back() {
    let matrix = get_matrix();
    let correct_rvdff = get_rvdff(true);
    // decompose with V maintained and plain left-to-right reduction order
    let mut options = LoPhatOptions::default();
    options.maintain_v = true;
    options.clearing = false;
    options.num_threads = 1;
    let decomp = LockFreeAlgorithm::init(Some(options)).add_cols(matrix).decompose();
    let rvdff = round_trip(&clone_to_file_format(&decomp));
    assert_same_rvdff(&rvdff, &correct_rvdff);
}

#[test]
fn serialize_lfa_without_v() {
    let matrix = get_matrix();
    let correct_rvdff = get_rvdff(false);
    let mut options = LoPhatOptions::default();
    options.maintain_v = false;
    options.clearing = false;
    options.num_threads = 1;
    let decomp = LockFreeAlgorithm::init(Some(options)).add_cols(matrix).decompose();
    let rvdff = round_trip(&clone_to_file_format(&decomp));
    assert_same_rvdff(&rvdff, &correct_rvdff);
}
