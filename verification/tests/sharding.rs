use rotcheck::checks::{
    check_no_duplicates, check_no_duplicates_chunked, check_shift_pair, verify_encodings_32,
    EncodingFault,
};
use rotcheck::encoding::{base_encodings, encode_32};
use rotcheck::field::Elem;
use rotcheck::table::{apply_shift, generator_powers};

fn chunk_size_for(n: usize, chunks: usize) -> usize {
    (n + chunks - 1) / chunks
}

#[test]
fn chunking_does_not_change_a_clean_verdict() {
    let t = generator_powers(32);
    let base = base_encodings(&t, 1000);
    let single = check_no_duplicates(&base, &t, 3, 256);
    assert!(single.is_ok());
    for chunks in [1usize, 2, 4, 17] {
        let cs = chunk_size_for(base.len(), chunks);
        let sharded = check_no_duplicates_chunked(&base, &t, 3, cs, 256);
        assert_eq!(single.is_ok(), sharded.is_ok());
    }
}

#[test]
fn chunking_does_not_change_a_dirty_verdict() {
    let t = generator_powers(32);
    let mut base = base_encodings(&t, 1000);
    // plant a duplicate far from its twin
    base[700] = base[12];
    let single = check_no_duplicates(&base, &t, 0, 256);
    assert!(single.is_err());
    for chunks in [1usize, 2, 4, 17] {
        let cs = chunk_size_for(base.len(), chunks);
        let sharded = check_no_duplicates_chunked(&base, &t, 0, cs, 256);
        assert_eq!(single.is_ok(), sharded.is_ok());
        match sharded {
            Err(EncodingFault::Duplicate { element: _, value_1, value_2, shift }) => {
                assert_eq!(shift, 0);
                assert!(value_1 < value_2);
                assert_eq!(base[value_1 as usize], base[value_2 as usize]);
            },
            _ => panic!("expected a duplicate fault"),
        }
    }
}

#[test]
fn unexplained_cross_shift_collision_is_caught() {
    // craft two encodings so that entry 0 under shift 0 equals entry 1
    // under shift 1, although rotating value 0 and value 1 differs
    let t = generator_powers(32);
    let c = encode_32(5, &t);
    let encs: Vec<Elem> = vec![apply_shift(&c, &t, 1), c];
    match check_shift_pair(&encs, &t, 0, 1, 64) {
        Err(EncodingFault::RotationMismatch { element: _, value_1, shift_1, value_2, shift_2 }) => {
            assert_eq!((value_1, shift_1), (0, 0));
            assert_eq!((value_2, shift_2), (1, 1));
        },
        _ => panic!("expected a rotation mismatch"),
    }
}

#[test]
fn clean_shift_pair_passes() {
    let t = generator_powers(32);
    let base = base_encodings(&t, 512);
    assert!(check_shift_pair(&base, &t, 0, 1, 256).is_ok());
    assert!(check_shift_pair(&base, &t, 3, 17, 256).is_ok());
}

#[test]
fn full_verification_of_a_small_range() {
    let t = generator_powers(32);
    let base = base_encodings(&t, 256);
    assert!(verify_encodings_32(&base, &t, 64, 128).is_ok());
}

#[test]
fn full_verification_reports_a_planted_duplicate() {
    let t = generator_powers(32);
    let mut base = base_encodings(&t, 256);
    base[200] = base[3];
    match verify_encodings_32(&base, &t, 64, 128) {
        Err(EncodingFault::Duplicate { element: _, value_1, value_2, shift: _ }) => {
            assert!(value_1 < value_2);
            assert_eq!(base[value_1 as usize], base[value_2 as usize]);
        },
        _ => panic!("expected a duplicate fault"),
    }
}
