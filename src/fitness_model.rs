//! The statistical model a phenotype landscape is drawn from, with its
//! binary encoding: the present components, then one tag byte naming the
//! variant.
use crate::linear_algebra::{
    lemma_matrix_round_trip, lemma_vector_round_trip, matrix_size, vector_size, DecodeError,
    SquareMatrix, Vector,
};
use vstd::prelude::*;
use vstd::slice::slice_subrange;

verus! {

/// A model with its components as seen by proofs.
pub enum ModelView {
    HoC { cb: Option<Seq<Seq<u64>>> },
    Additive { mu: Seq<u64>, ca: Option<Seq<Seq<u64>>> },
    RoughMountFuji { mu: Seq<u64>, ca: Option<Seq<Seq<u64>>>, cb: Option<Seq<Seq<u64>>> },
}

/// A double, given by its bit pattern, is greater than zero: positive
/// finite values and positive infinity, but no NaN.
pub open spec fn is_positive_double(bits: u64) -> bool {
    0 < bits <= 0x7ff0_0000_0000_0000
}

/// The `S`-by-`S` matrix with `diagonal` on the diagonal and `off` elsewhere.
pub open spec fn uniform_matrix(s: nat, diagonal: u64, off: u64) -> Seq<Seq<u64>> {
    Seq::new(s, |i: int| Seq::new(s, |j: int| if i == j { diagonal } else { off }))
}

/// Configuration of the phenotype model. Doubles are held as bit patterns.
#[derive(Clone, Copy, Debug)]
pub enum FitnessModel<const S: usize> {
    /// House of Cards: idiosyncratic noise only.
    HoC { cb: SquareMatrix<S> },
    /// Additive locus effects only.
    Additive { mu: Vector<S>, ca: SquareMatrix<S> },
    /// Additive locus effects plus idiosyncratic noise.
    RoughMountFuji { mu: Vector<S>, ca: SquareMatrix<S>, cb: SquareMatrix<S> },
}

/// The matrix with `diagonal` on the diagonal and `off` elsewhere.
fn uniform<const S: usize>(diagonal: u64, off: u64) -> (r: SquareMatrix<S>)
    ensures
        r@ == Some(uniform_matrix(S as nat, diagonal, off)),
{
    let mut m = [[0u64; S]; S];
    let mut i: usize = 0;
    while i < S
        invariant
            i <= S,
            forall|a: int| 0 <= a < i ==> #[trigger] m@[a]@ == uniform_matrix(S as nat, diagonal, off)[a],
        decreases S - i,
    {
        let mut row = [off; S];
        row[i] = diagonal;
        proof {
            assert(row@ =~= uniform_matrix(S as nat, diagonal, off)[i as int]);
        }
        m[i] = row;
        i = i + 1;
    }
    proof {
        assert(Seq::new(S as nat, |a: int| m@[a]@) =~= uniform_matrix(S as nat, diagonal, off));
    }
    SquareMatrix::NonNull(m)
}

/// The vector with every entry equal to `value`.
fn constant_vector<const S: usize>(value: u64) -> (r: Vector<S>)
    ensures
        r@ == Seq::new(S as nat, |i: int| value),
{
    let v = [value; S];
    proof {
        assert(v@ =~= Seq::new(S as nat, |i: int| value));
    }
    Vector::NonNull(v)
}

impl<const S: usize> FitnessModel<S> {
    pub open spec fn view(&self) -> ModelView {
        match self {
            FitnessModel::HoC { cb } => ModelView::HoC { cb: cb@ },
            FitnessModel::Additive { mu, ca } => ModelView::Additive { mu: mu@, ca: ca@ },
            FitnessModel::RoughMountFuji { mu, ca, cb } => ModelView::RoughMountFuji {
                mu: mu@,
                ca: ca@,
                cb: cb@,
            },
        }
    }

    /// A House of Cards model from `[cb_diagonal, cb_offdiagonal]`.
    pub fn new_hoc(params: Vec<u64>) -> (r: Self)
        requires
            params@.len() >= 2,
        ensures
            r@ == (ModelView::HoC { cb: Some(uniform_matrix(S as nat, params@[0], params@[1])) }),
    {
        FitnessModel::HoC { cb: uniform(params[0], params[1]) }
    }

    /// An additive model from `[mu, ca_diagonal, ca_offdiagonal]`.
    pub fn new_additive(params: Vec<u64>) -> (r: Self)
        requires
            params@.len() >= 3,
        ensures
            r@ == (ModelView::Additive {
                mu: Seq::new(S as nat, |i: int| params@[0]),
                ca: Some(uniform_matrix(S as nat, params@[1], params@[2])),
            }),
    {
        FitnessModel::Additive { mu: constant_vector(params[0]), ca: uniform(params[1], params[2]) }
    }

    /// A Rough Mount Fuji model from `[mu, ca_diagonal, ca_offdiagonal,
    /// cb_diagonal, cb_offdiagonal]`; a component whose diagonal is not
    /// greater than zero is the null matrix.
    pub fn new_rmf(params: Vec<u64>) -> (r: Self)
        requires
            params@.len() >= 5,
        ensures
            r@ == (ModelView::RoughMountFuji {
                mu: Seq::new(S as nat, |i: int| params@[0]),
                ca: if is_positive_double(params@[1]) {
                    Some(uniform_matrix(S as nat, params@[1], params@[2]))
                } else {
                    None
                },
                cb: if is_positive_double(params@[3]) {
                    Some(uniform_matrix(S as nat, params@[3], params@[4]))
                } else {
                    None
                },
            }),
    {
        let ca = if 0 < params[1] && params[1] <= 0x7ff0_0000_0000_0000 {
            uniform(params[1], params[2])
        } else {
            SquareMatrix::Null
        };
        let cb = if 0 < params[3] && params[3] <= 0x7ff0_0000_0000_0000 {
            uniform(params[3], params[4])
        } else {
            SquareMatrix::Null
        };
        FitnessModel::RoughMountFuji { mu: constant_vector(params[0]), ca, cb }
    }

    /// The encoding: for HoC `cb`, tag 0; for Additive `ca`, `mu`, tag 1;
    /// for Rough Mount Fuji `ca`, `cb`, `mu`, tag 2.
    pub open spec fn spec_to_bytes(&self) -> Seq<u8> {
        match self {
            FitnessModel::HoC { cb } => cb.spec_to_bytes().push(0u8),
            FitnessModel::Additive { mu, ca } => (ca.spec_to_bytes() + mu.spec_to_bytes()).push(1u8),
            FitnessModel::RoughMountFuji { mu, ca, cb } => (ca.spec_to_bytes() + cb.spec_to_bytes()
                + mu.spec_to_bytes()).push(2u8),
        }
    }

    /// What `from_bytes` makes of `bytes`: the tag byte decides the
    /// variant and hence the exact length; then each component is decoded
    /// in order, and the first failure is the result.
    pub open spec fn decoded(bytes: Seq<u8>) -> Result<ModelView, DecodeError> {
        let m = matrix_size(S as nat);
        let v = vector_size(S as nat);
        let n = bytes.len();
        if n == 0 {
            Err(DecodeError::EmptyStream)
        } else if bytes.last() == 0 {
            if n != m + 1 {
                Err(DecodeError::WrongSize { found: n as usize, expected: (m + 1) as usize })
            } else {
                match SquareMatrix::<S>::decoded(bytes.subrange(0, m as int)) {
                    Ok(cb) => Ok(ModelView::HoC { cb }),
                    Err(e) => Err(e),
                }
            }
        } else if bytes.last() == 1 {
            if n != m + v + 1 {
                Err(DecodeError::WrongSize { found: n as usize, expected: (m + v + 1) as usize })
            } else {
                match (
                    SquareMatrix::<S>::decoded(bytes.subrange(0, m as int)),
                    Vector::<S>::decoded(bytes.subrange(m as int, (m + v) as int)),
                ) {
                    (Ok(ca), Ok(mu)) => Ok(ModelView::Additive { mu, ca }),
                    (Err(e), _) => Err(e),
                    (_, Err(e)) => Err(e),
                }
            }
        } else if bytes.last() == 2 {
            if n != 2 * m + v + 1 {
                Err(DecodeError::WrongSize { found: n as usize, expected: (2 * m + v + 1) as usize })
            } else {
                match (
                    SquareMatrix::<S>::decoded(bytes.subrange(0, m as int)),
                    SquareMatrix::<S>::decoded(bytes.subrange(m as int, 2 * m as int)),
                    Vector::<S>::decoded(bytes.subrange(2 * m as int, (2 * m + v) as int)),
                ) {
                    (Ok(ca), Ok(cb), Ok(mu)) => Ok(ModelView::RoughMountFuji { mu, ca, cb }),
                    (Err(e), _, _) => Err(e),
                    (_, Err(e), _) => Err(e),
                    (_, _, Err(e)) => Err(e),
                }
            }
        } else {
            Err(DecodeError::UnknownVariant(bytes.last()))
        }
    }

    /// The binary encoding of the model.
    pub fn to_bytes(&self) -> (r: Vec<u8>)
        requires
            2 * matrix_size(S as nat) + vector_size(S as nat) + 1 <= usize::MAX,
        ensures
            r@ == self.spec_to_bytes(),
    {
        let mut r: Vec<u8>;
        match self {
            FitnessModel::HoC { cb } => {
                r = cb.to_bytes();
                r.push(0);
            },
            FitnessModel::Additive { mu, ca } => {
                r = ca.to_bytes();
                let mut b = mu.to_bytes();
                r.append(&mut b);
                r.push(1);
            },
            FitnessModel::RoughMountFuji { mu, ca, cb } => {
                r = ca.to_bytes();
                let mut b = cb.to_bytes();
                r.append(&mut b);
                let mut c = mu.to_bytes();
                r.append(&mut c);
                r.push(2);
            },
        }
        r
    }

    /// Decodes a model; fails on an empty stream, an unknown tag, a length
    /// that does not match the variant, or a component that fails.
    pub fn from_bytes(vec: &Vec<u8>) -> (r: Result<Self, DecodeError>)
        requires
            2 * matrix_size(S as nat) + vector_size(S as nat) + 1 <= usize::MAX,
        ensures
            match (r, Self::decoded(vec@)) {
                (Ok(model), Ok(v)) => model@ == v,
                (Err(e), Err(f)) => e == f,
                _ => false,
            },
    {
        let m = S * S * 8 + 1;
        let v = S * 8 + 1;
        let n = vec.len();
        if n == 0 {
            return Err(DecodeError::EmptyStream);
        }
        let bytes = vec.as_slice();
        let tag = vec[n - 1];
        if tag == 0 {
            if n != m + 1 {
                return Err(DecodeError::WrongSize { found: n, expected: m + 1 });
            }
            let cb = SquareMatrix::<S>::from_bytes(slice_subrange(bytes, 0, m))?;
            Ok(FitnessModel::HoC { cb })
        } else if tag == 1 {
            if n != m + v + 1 {
                return Err(DecodeError::WrongSize { found: n, expected: m + v + 1 });
            }
            let ca = SquareMatrix::<S>::from_bytes(slice_subrange(bytes, 0, m))?;
            let mu = Vector::<S>::from_bytes(slice_subrange(bytes, m, m + v))?;
            Ok(FitnessModel::Additive { mu, ca })
        } else if tag == 2 {
            if n != 2 * m + v + 1 {
                return Err(DecodeError::WrongSize { found: n, expected: 2 * m + v + 1 });
            }
            let ca = SquareMatrix::<S>::from_bytes(slice_subrange(bytes, 0, m))?;
            let cb = SquareMatrix::<S>::from_bytes(slice_subrange(bytes, m, 2 * m))?;
            let mu = Vector::<S>::from_bytes(slice_subrange(bytes, 2 * m, 2 * m + v))?;
            Ok(FitnessModel::RoughMountFuji { mu, ca, cb })
        } else {
            Err(DecodeError::UnknownVariant(tag))
        }
    }
}

} // verus!

verus! {

/// Serialization round trip: decoding the encoding of any model, null
/// covariance components included, gives the same model back.
pub proof fn lemma_model_round_trip<const S: usize>(model: FitnessModel<S>)
    ensures
        FitnessModel::<S>::decoded(model.spec_to_bytes()) == Ok::<ModelView, DecodeError>(model@),
{
    let m = matrix_size(S as nat);
    let v = vector_size(S as nat);
    let b = model.spec_to_bytes();
    match model {
        FitnessModel::HoC { cb } => {
            lemma_matrix_round_trip(cb);
            lemma_matrix_len(cb);
            assert(b.subrange(0, m as int) =~= cb.spec_to_bytes());
        },
        FitnessModel::Additive { mu, ca } => {
            lemma_matrix_round_trip(ca);
            lemma_vector_round_trip(mu);
            lemma_matrix_len(ca);
            lemma_vector_len(mu);
            assert(b.subrange(0, m as int) =~= ca.spec_to_bytes());
            assert(b.subrange(m as int, (m + v) as int) =~= mu.spec_to_bytes());
        },
        FitnessModel::RoughMountFuji { mu, ca, cb } => {
            lemma_matrix_round_trip(ca);
            lemma_matrix_round_trip(cb);
            lemma_vector_round_trip(mu);
            lemma_matrix_len(ca);
            lemma_matrix_len(cb);
            lemma_vector_len(mu);
            assert(b.subrange(0, m as int) =~= ca.spec_to_bytes());
            assert(b.subrange(m as int, 2 * m as int) =~= cb.spec_to_bytes());
            assert(b.subrange(2 * m as int, (2 * m + v) as int) =~= mu.spec_to_bytes());
        },
    }
}

proof fn lemma_matrix_len<const S: usize>(a: SquareMatrix<S>)
    ensures
        a.spec_to_bytes().len() == matrix_size(S as nat),
{
    if let SquareMatrix::NonNull(x) = a {
        crate::linear_algebra::lemma_words_bytes(SquareMatrix::<S>::flat(x));
        assert(8 * (S * S) + 1 == matrix_size(S as nat)) by (nonlinear_arith);
    }
}

proof fn lemma_vector_len<const S: usize>(a: Vector<S>)
    ensures
        a.spec_to_bytes().len() == vector_size(S as nat),
{
    crate::linear_algebra::lemma_words_bytes(a@);
}

} // verus!
