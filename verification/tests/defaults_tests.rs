use teca::defaults::{default_atom_ids, default_scheme, DEFAULT_CAPACITY};

#[test]
fn default_scheme_is_static_polynomial_over_12347() {
    let s = default_scheme();
    assert_eq!(s.capacity, 12_359);
    assert_eq!(DEFAULT_CAPACITY, 12_359);
    assert!(s.nodes.is_empty());
    assert!(s.root.is_none());
    s.validate().unwrap();
}

#[test]
fn default_atom_ids_stay_within_capacity() {
    let mut a = default_atom_ids(b"hello").unwrap();
    for _ in 0..4 {
        let atom = a.next().unwrap();
        assert!(atom.0 < 12_359);
    }
}
