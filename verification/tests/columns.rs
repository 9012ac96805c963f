use lophat::columns::{BitSetColumn, BitSetVecHybridColumn, Column, ColumnMode, VecColumn};
use lophat::options::LoPhatOptions;
use lophat::utils::clone_to_veccolumn;

#[test]
fn vec_column_add_entry_toggles() {
    let mut col = VecColumn::new_with_dimension(1);
    col.add_entry(4);
    col.add_entry(1);
    col.add_entry(4);
    col.add_entry(7);
    assert_eq!(col.entries(), vec![1, 7]);
    assert_eq!(col.dimension(), 1);
    assert_eq!(col.pivot(), Some(7));
    assert!(col.has_entry(&1));
    assert!(!col.has_entry(&4));
    assert!(col.is_boundary());
    col.clear_entries();
    assert!(col.is_cycle());
    assert_eq!(col.pivot(), None);
}

#[test]
fn vec_column_add_col_is_symmetric_difference() {
    let mut a = VecColumn::from((1, vec![0, 2, 5]));
    let b = VecColumn::from((1, vec![2, 3, 5, 8]));
    a.add_col(&b);
    assert_eq!(a.entries(), vec![0, 3, 8]);
}

#[test]
fn bit_set_column_matches_vec_column() {
    let mut a = BitSetColumn::new_with_dimension(2);
    a.add_entries(&vec![0, 2, 5]);
    let mut b = BitSetColumn::new_with_dimension(2);
    b.add_entries(&vec![2, 3, 5, 8]);
    assert_eq!(a.pivot(), Some(5));
    assert!(a.has_entry(&2));
    assert!(!a.has_entry(&1));
    a.add_col(&b);
    assert_eq!(a.entries(), vec![0, 3, 8]);
    assert_eq!(a.pivot(), Some(8));
    a.add_entry(8);
    assert_eq!(a.entries(), vec![0, 3]);
    a.clear_entries();
    assert!(a.is_cycle());
}

#[test]
fn hybrid_column_mode_switch_preserves_contents() {
    let mut col = BitSetVecHybridColumn::from((1, vec![1, 4, 6]));
    col.set_mode(ColumnMode::Working);
    assert_eq!(col.entries(), vec![1, 4, 6]);
    assert_eq!(col.dimension(), 1);
    col.add_entry(4);
    col.set_mode(ColumnMode::Storage);
    assert_eq!(col.entries(), vec![1, 6]);
    assert_eq!(col.pivot(), Some(6));
}

#[test]
fn clone_to_veccolumn_copies_models() {
    let mut col = BitSetColumn::new_with_dimension(3);
    col.add_entries(&vec![1, 2, 9]);
    let copy = clone_to_veccolumn(&col);
    assert_eq!(copy.entries(), vec![1, 2, 9]);
    assert_eq!(copy.dimension(), 3);
}

#[test]
fn options_constructor_and_default() {
    let options = LoPhatOptions::new(true, 2, Some(9), 4, false);
    assert!(options.maintain_v);
    assert_eq!(options.num_threads, 2);
    assert_eq!(options.column_height, Some(9));
    assert_eq!(options.min_chunk_len, 4);
    assert!(!options.clearing);
    let defaults = LoPhatOptions::default();
    assert!(!defaults.maintain_v);
    assert_eq!(defaults.num_threads, 0);
    assert_eq!(defaults.column_height, None);
    assert_eq!(defaults.min_chunk_len, 1);
    assert!(defaults.clearing);
}
