use simulations::fitness_model::FitnessModel;
use simulations::linear_algebra::{DecodeError, SquareMatrix, Vector};

#[test]
fn save_load() {
    let a = SquareMatrix::<3>::Null;
    assert_eq!(a, SquareMatrix::<3>::from_bytes(&a.to_bytes()).unwrap());

    let b = SquareMatrix::<3>::from([[1_f64.to_bits(); 3]; 3]);
    assert_eq!(b, SquareMatrix::<3>::from_bytes(&b.to_bytes()).unwrap());

    let b = Vector::<3>::from([1_f64.to_bits(); 3]);
    assert_eq!(b, Vector::<3>::from_bytes(&b.to_bytes()).unwrap());

    let b = Vector::<3>::from([1_f64.to_bits(); 3]);
    let mut b_mod = b.to_bytes();
    b_mod[7] = 1;
    assert_ne!(b, Vector::<3>::from_bytes(&b_mod).unwrap());
}

#[test]
fn matrix_layout_is_row_major_little_endian() {
    let m = SquareMatrix::<2>::from([[1, 2], [0x0102030405060708, 4]]);
    let bytes = m.to_bytes();
    assert_eq!(bytes.len(), 2 * 2 * 8 + 1);
    assert_eq!(&bytes[0..8], &[1, 0, 0, 0, 0, 0, 0, 0]);
    assert_eq!(&bytes[16..24], &[8, 7, 6, 5, 4, 3, 2, 1]);
    assert_eq!(bytes[32], 1);
    assert_eq!(m.get(1, 0), 0x0102030405060708);
    assert_eq!(SquareMatrix::<2>::Null.to_bytes(), vec![0; 33]);
    assert_eq!(SquareMatrix::<2>::Null.get(1, 1), 0);
}

#[test]
fn decoding_rejects_bad_streams() {
    assert_eq!(
        SquareMatrix::<2>::from_bytes(&[0u8; 10]),
        Err(DecodeError::WrongSize { found: 10, expected: 33 })
    );
    let mut bytes = vec![0u8; 33];
    bytes[32] = 7;
    assert_eq!(SquareMatrix::<2>::from_bytes(&bytes), Err(DecodeError::UnknownVariant(7)));
    let mut bytes = vec![0u8; 17];
    bytes[16] = 0;
    assert_eq!(Vector::<2>::from_bytes(&bytes), Err(DecodeError::UnknownVariant(0)));
    assert_eq!(
        Vector::<2>::from_bytes(&[1u8]),
        Err(DecodeError::WrongSize { found: 1, expected: 17 })
    );
}

#[test]
fn vector_helpers() {
    let v = Vector::<3>::from_vec(&vec![5, 6]);
    assert_eq!(v.to_vec(), vec![5, 6, 0]);
    assert_eq!(v.get(1), 6);
    assert_eq!(Vector::<3>::new().iter(), &[0, 0, 0]);
}

fn bits(values: &[f64]) -> Vec<u64> {
    values.iter().map(|v| v.to_bits()).collect()
}

#[test]
fn model_round_trip_for_every_variant() {
    let hoc = FitnessModel::<2>::new_hoc(bits(&[1.0, 0.5]));
    let bytes = hoc.to_bytes();
    assert_eq!(bytes.len(), 34);
    assert_eq!(*bytes.last().unwrap(), 0);
    let back = FitnessModel::<2>::from_bytes(&bytes).unwrap();
    assert_eq!(back.to_bytes(), bytes);
    match back {
        FitnessModel::HoC { cb } => {
            assert_eq!(cb.get(0, 0), 1.0f64.to_bits());
            assert_eq!(cb.get(0, 1), 0.5f64.to_bits());
        }
        _ => panic!("wrong variant"),
    }

    let add = FitnessModel::<2>::new_additive(bits(&[0.1, 2.0, -0.3]));
    let bytes = add.to_bytes();
    assert_eq!(bytes.len(), 33 + 17 + 1);
    let back = FitnessModel::<2>::from_bytes(&bytes).unwrap();
    assert_eq!(back.to_bytes(), bytes);
    match back {
        FitnessModel::Additive { mu, ca } => {
            assert_eq!(mu.to_vec(), bits(&[0.1, 0.1]));
            assert_eq!(ca.get(1, 1), 2.0f64.to_bits());
            assert_eq!(ca.get(1, 0), (-0.3f64).to_bits());
        }
        _ => panic!("wrong variant"),
    }

    // Null components: a diagonal that is not positive gives the null matrix.
    let rmf = FitnessModel::<2>::new_rmf(bits(&[0.0, 0.0, 0.0, 1.0, 0.2]));
    let bytes = rmf.to_bytes();
    assert_eq!(bytes.len(), 2 * 33 + 17 + 1);
    let back = FitnessModel::<2>::from_bytes(&bytes).unwrap();
    assert_eq!(back.to_bytes(), bytes);
    match back {
        FitnessModel::RoughMountFuji { mu, ca, cb } => {
            assert_eq!(ca, SquareMatrix::Null);
            assert_eq!(cb.get(0, 1), 0.2f64.to_bits());
            assert_eq!(mu.to_vec(), bits(&[0.0, 0.0]));
        }
        _ => panic!("wrong variant"),
    }
}

#[test]
fn rmf_treats_negative_and_nan_diagonals_as_null() {
    let rmf = FitnessModel::<1>::new_rmf(bits(&[0.0, -1.0, 0.0, f64::NAN, 0.0]));
    match rmf {
        FitnessModel::RoughMountFuji { ca, cb, .. } => {
            assert_eq!(ca, SquareMatrix::Null);
            assert_eq!(cb, SquareMatrix::Null);
        }
        _ => panic!("wrong variant"),
    }
    let rmf = FitnessModel::<1>::new_rmf(bits(&[0.0, f64::INFINITY, 0.0, 1e-300, 0.0]));
    match rmf {
        FitnessModel::RoughMountFuji { ca, cb, .. } => {
            assert_ne!(ca, SquareMatrix::Null);
            assert_ne!(cb, SquareMatrix::Null);
        }
        _ => panic!("wrong variant"),
    }
}

#[test]
fn model_decoding_errors() {
    assert_eq!(FitnessModel::<2>::from_bytes(&vec![]).unwrap_err(), DecodeError::EmptyStream);
    assert_eq!(
        FitnessModel::<2>::from_bytes(&vec![0, 0, 9]).unwrap_err(),
        DecodeError::UnknownVariant(9)
    );
    assert_eq!(
        FitnessModel::<2>::from_bytes(&vec![0, 0, 1]).unwrap_err(),
        DecodeError::WrongSize { found: 3, expected: 51 }
    );
    let mut bytes = FitnessModel::<2>::new_hoc(bits(&[1.0, 0.0])).to_bytes();
    bytes[32] = 5;
    assert_eq!(FitnessModel::<2>::from_bytes(&bytes).unwrap_err(), DecodeError::UnknownVariant(5));
}
