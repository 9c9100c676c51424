use rotcheck::checks::{check_all_shifts_16, check_no_duplicates};
use rotcheck::field::Elem;
use rotcheck::index::ColIndex;
use rotcheck::table::generator_powers;

#[test]
fn index_records_and_forgets_witnesses() {
    let a = Elem { l0: 17, l1: 0, l2: 0, l3: 0 };
    let b = Elem { l0: 17 + 64, l1: 1, l2: 0, l3: 0 };
    let mut ix = ColIndex::new(64);
    assert_eq!(ix.get(&a), None);
    ix.insert(a, 3, 1);
    // b lands in the same bucket as a but is a different element
    ix.insert(b, 4, 2);
    assert_eq!(ix.get(&a), Some((3, 1)));
    assert_eq!(ix.get(&b), Some((4, 2)));
    ix.clear();
    assert_eq!(ix.get(&a), None);
    assert_eq!(ix.get(&b), None);
}

#[test]
fn empty_range_has_no_duplicates() {
    let t = generator_powers(16);
    let none: Vec<Elem> = Vec::new();
    assert!(check_no_duplicates(&none, &t, 0, 16).is_ok());
}

#[test]
fn trivial_limit_passes_vacuously() {
    let t = generator_powers(16);
    assert!(check_all_shifts_16(&t, 0, 16).is_ok());
    assert!(check_all_shifts_16(&t, 1, 16).is_ok());
}
