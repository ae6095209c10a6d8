//! Square matrices and vectors of `S` doubles, each double held as its
//! IEEE-754 bit pattern, with their binary encoding: the entries as
//! little-endian 8-byte words in row-major order, then a tag byte.
use vstd::bytes::{
    lemma_auto_spec_u64_to_from_le_bytes, spec_u64_from_le_bytes, spec_u64_to_le_bytes,
    u64_from_le_bytes, u64_to_le_bytes,
};
use vstd::prelude::*;
use vstd::slice::slice_subrange;

verus! {

/// Why a byte stream could not be decoded.
#[derive(Clone, Copy, Debug, PartialEq, Eq, Structural)]
pub enum DecodeError {
    /// The stream does not have the length its variant requires.
    WrongSize { found: usize, expected: usize },
    /// The tag byte names no variant.
    UnknownVariant(u8),
    /// There is no byte at all.
    EmptyStream,
}

/// The words laid end to end, each as 8 little-endian bytes.
pub open spec fn words_bytes(ws: Seq<u64>) -> Seq<u8>
    decreases ws.len(),
{
    if ws.len() == 0 {
        Seq::empty()
    } else {
        words_bytes(ws.drop_last()) + spec_u64_to_le_bytes(ws.last())
    }
}

/// The `k`-th little-endian word of a byte stream.
pub open spec fn word_at(bytes: Seq<u8>, k: int) -> u64 {
    spec_u64_from_le_bytes(bytes.subrange(8 * k, 8 * k + 8))
}

/// Size in bytes of an encoded `S`-by-`S` matrix.
pub open spec fn matrix_size(s: nat) -> nat {
    s * s * 8 + 1
}

/// Size in bytes of an encoded vector of `S` entries.
pub open spec fn vector_size(s: nat) -> nat {
    s * 8 + 1
}

pub proof fn lemma_words_bytes(ws: Seq<u64>)
    ensures
        words_bytes(ws).len() == 8 * ws.len(),
        forall|k: int|
            0 <= k < ws.len() ==> #[trigger] words_bytes(ws).subrange(8 * k, 8 * k + 8)
                == spec_u64_to_le_bytes(ws[k]),
    decreases ws.len(),
{
    lemma_auto_spec_u64_to_from_le_bytes();
    if ws.len() > 0 {
        let p = ws.drop_last();
        lemma_words_bytes(p);
        let b = words_bytes(ws);
        assert forall|k: int| 0 <= k < ws.len() implies #[trigger] b.subrange(8 * k, 8 * k + 8)
            == spec_u64_to_le_bytes(ws[k]) by {
            if k < p.len() {
                assert(b.subrange(8 * k, 8 * k + 8) =~= words_bytes(p).subrange(8 * k, 8 * k + 8));
            } else {
                assert(b.subrange(8 * k, 8 * k + 8) =~= spec_u64_to_le_bytes(ws.last()));
            }
        }
    }
}

pub proof fn lemma_words_round_trip(ws: Seq<u64>, k: int)
    requires
        0 <= k < ws.len(),
    ensures
        word_at(words_bytes(ws), k) == ws[k],
        word_at(words_bytes(ws).push(1u8), k) == ws[k],
{
    lemma_words_bytes(ws);
    lemma_auto_spec_u64_to_from_le_bytes();
    let b = words_bytes(ws);
    assert(b.push(1u8).subrange(8 * k, 8 * k + 8) =~= b.subrange(8 * k, 8 * k + 8));
}

/// Appends the 8 little-endian bytes of `word`.
fn push_word(out: &mut Vec<u8>, word: u64)
    ensures
        final(out)@ == old(out)@ + spec_u64_to_le_bytes(word),
{
    let bytes = u64_to_le_bytes(word);
    let mut b: usize = 0;
    while b < 8
        invariant
            b <= 8,
            bytes@.len() == 8,
            bytes@ == spec_u64_to_le_bytes(word),
            out@ == old(out)@ + bytes@.take(b as int),
        decreases 8 - b,
    {
        out.push(bytes[b]);
        b = b + 1;
        proof {
            assert(out@ =~= old(out)@ + bytes@.take(b as int));
        }
    }
    proof {
        assert(bytes@.take(8) =~= bytes@);
    }
}

/// Appends the 8 little-endian bytes of each of `words`.
fn push_words(out: &mut Vec<u8>, words: &[u64])
    ensures
        final(out)@ == old(out)@ + words_bytes(words@),
{
    let mut k: usize = 0;
    while k < words.len()
        invariant
            k <= words@.len(),
            out@ == old(out)@ + words_bytes(words@.take(k as int)),
        decreases words@.len() - k,
    {
        push_word(out, words[k]);
        proof {
            assert(words@.take(k + 1).drop_last() =~= words@.take(k as int));
        }
        k = k + 1;
        proof {
            assert(out@ =~= old(out)@ + words_bytes(words@.take(k as int)));
        }
    }
    proof {
        assert(words@.take(words@.len() as int) =~= words@);
    }
}

/// Reads the `k`-th little-endian word of `bytes`.
fn read_word(bytes: &[u8], k: usize) -> (r: u64)
    requires
        8 * k + 8 <= bytes@.len(),
    ensures
        r == word_at(bytes@, k as int),
{
    let n = bytes.len();
    assert(8 * k + 8 <= n);
    let chunk = slice_subrange(bytes, 8 * k, 8 * k + 8);
    u64_from_le_bytes(chunk)
}

/// A square matrix, or the degenerate null (all-zero) matrix.
#[derive(Clone, Copy, Debug, PartialEq)]
pub enum SquareMatrix<const S: usize> {
    Null,
    NonNull([[u64; S]; S]),
}

impl<const S: usize> SquareMatrix<S> {
    /// The rows of a non-null matrix; `None` for the null matrix.
    pub open spec fn view(&self) -> Option<Seq<Seq<u64>>> {
        match self {
            SquareMatrix::Null => None,
            SquareMatrix::NonNull(m) => Some(Seq::new(S as nat, |i: int| m@[i]@)),
        }
    }

    /// The entries in row-major order.
    pub open spec fn flat(m: [[u64; S]; S]) -> Seq<u64> {
        Seq::new((S * S) as nat, |k: int| m@[k / S as int]@[k % S as int])
    }

    /// The encoding: row-major little-endian words and tag 1, or for the
    /// null matrix as many zero bytes, tag included.
    pub open spec fn spec_to_bytes(&self) -> Seq<u8> {
        match self {
            SquareMatrix::Null => Seq::new(matrix_size(S as nat), |i: int| 0u8),
            SquareMatrix::NonNull(m) => words_bytes(Self::flat(*m)).push(1u8),
        }
    }

    /// What `from_bytes` makes of `bytes`.
    pub open spec fn decoded(bytes: Seq<u8>) -> Result<Option<Seq<Seq<u64>>>, DecodeError> {
        if bytes.len() != matrix_size(S as nat) {
            Err(DecodeError::WrongSize { found: bytes.len() as usize, expected: matrix_size(S as nat) as usize })
        } else if bytes.last() == 0 {
            Ok(None)
        } else if bytes.last() == 1 {
            Ok(Some(Seq::new(S as nat, |i: int| Seq::new(S as nat, |j: int| word_at(bytes, i * S + j)))))
        } else {
            Err(DecodeError::UnknownVariant(bytes.last()))
        }
    }

    pub fn from(matrix: [[u64; S]; S]) -> (r: Self)
        ensures
            r == SquareMatrix::NonNull(matrix),
    {
        SquareMatrix::NonNull(matrix)
    }

    /// The entry at row `i`, column `j`; zero for the null matrix.
    pub fn get(&self, i: usize, j: usize) -> (r: u64)
        requires
            i < S,
            j < S,
        ensures
            r == match self@ {
                None => 0u64,
                Some(rows) => rows[i as int][j as int],
            },
    {
        match self {
            SquareMatrix::Null => 0,
            SquareMatrix::NonNull(m) => m[i][j],
        }
    }

    /// The binary encoding of the matrix.
    pub fn to_bytes(&self) -> (r: Vec<u8>)
        requires
            matrix_size(S as nat) <= usize::MAX,
        ensures
            r@ == self.spec_to_bytes(),
    {
        let mut r: Vec<u8> = Vec::new();
        match self {
            SquareMatrix::Null => {
                let n = S * S * 8 + 1;
                let mut i: usize = 0;
                while i < n
                    invariant
                        i <= n,
                        n == matrix_size(S as nat),
                        r@ == Seq::new(i as nat, |k: int| 0u8),
                    decreases n - i,
                {
                    r.push(0);
                    i = i + 1;
                    proof {
                        assert(r@ =~= Seq::new(i as nat, |k: int| 0u8));
                    }
                }
            },
            SquareMatrix::NonNull(m) => {
                let n = S * S;
                let mut k: usize = 0;
                while k < n
                    invariant
                        k <= n,
                        n == S * S,
                        r@ == words_bytes(Self::flat(*m).take(k as int)),
                    decreases n - k,
                {
                    proof {
                        assert(k / S < S && k % S < S) by (nonlinear_arith)
                            requires k < S * S;
                        assert(Self::flat(*m).take(k + 1).drop_last() =~= Self::flat(*m).take(k as int));
                    }
                    push_word(&mut r, m[k / S][k % S]);
                    k = k + 1;
                }
                proof {
                    assert(Self::flat(*m).take(n as int) =~= Self::flat(*m));
                }
                r.push(1);
            },
        }
        r
    }

    /// Decodes a matrix: the stream must have the encoded length, and its
    /// last byte must be 0 (null) or 1 (entries follow).
    pub fn from_bytes(matrix: &[u8]) -> (r: Result<Self, DecodeError>)
        requires
            matrix_size(S as nat) <= usize::MAX,
        ensures
            match (r, Self::decoded(matrix@)) {
                (Ok(m), Ok(v)) => m@ == v,
                (Err(e), Err(f)) => e == f,
                _ => false,
            },
    {
        let expected = S * S * 8 + 1;
        if matrix.len() != expected {
            return Err(DecodeError::WrongSize { found: matrix.len(), expected });
        }
        let tag = matrix[matrix.len() - 1];
        if tag == 0 {
            return Ok(SquareMatrix::Null);
        }
        if tag != 1 {
            return Err(DecodeError::UnknownVariant(tag));
        }
        let mut m = [[0u64; S]; S];
        let mut i: usize = 0;
        while i < S
            invariant
                i <= S,
                matrix@.len() == matrix_size(S as nat),
                matrix_size(S as nat) <= usize::MAX,
                forall|a: int, b: int|
                    0 <= a < i && 0 <= b < S ==> #[trigger] m@[a]@[b] == word_at(matrix@, a * S + b),
            decreases S - i,
        {
            let mut row = [0u64; S];
            let mut j: usize = 0;
            while j < S
                invariant
                    i < S,
                    j <= S,
                    matrix@.len() == matrix_size(S as nat),
                    matrix_size(S as nat) <= usize::MAX,
                    forall|b: int| 0 <= b < j ==> #[trigger] row@[b] == word_at(matrix@, i * S + b),
                decreases S - j,
            {
                proof {
                    assert(8 * (i * S + j) + 8 <= S * S * 8) by (nonlinear_arith)
                        requires i < S, j < S;
                }
                row[j] = read_word(matrix, i * S + j);
                j = j + 1;
            }
            m[i] = row;
            i = i + 1;
        }
        let r = SquareMatrix::NonNull(m);
        proof {
            let v = Seq::new(S as nat, |a: int| Seq::new(S as nat, |b: int| word_at(matrix@, a * S + b)));
            assert forall|a: int| 0 <= a < S implies #[trigger] m@[a]@ == v[a] by {
                assert(m@[a]@ =~= v[a]);
            }
            assert(r@ == Some(v)) by {
                assert(Seq::new(S as nat, |a: int| m@[a]@) =~= v);
            }
        }
        Ok(r)
    }
}

} // verus!

verus! {

/// A vector of `S` entries.
#[derive(Clone, Copy, Debug, PartialEq)]
pub enum Vector<const S: usize> {
    NonNull([u64; S]),
}

impl<const S: usize> Vector<S> {
    pub open spec fn view(&self) -> Seq<u64> {
        match self {
            Vector::NonNull(v) => v@,
        }
    }

    /// The encoding: little-endian words, then tag 1.
    pub open spec fn spec_to_bytes(&self) -> Seq<u8> {
        words_bytes(self@).push(1u8)
    }

    /// What `from_bytes` makes of `bytes`.
    pub open spec fn decoded(bytes: Seq<u8>) -> Result<Seq<u64>, DecodeError> {
        if bytes.len() != vector_size(S as nat) {
            Err(DecodeError::WrongSize { found: bytes.len() as usize, expected: vector_size(S as nat) as usize })
        } else if bytes.last() == 1 {
            Ok(Seq::new(S as nat, |i: int| word_at(bytes, i)))
        } else {
            Err(DecodeError::UnknownVariant(bytes.last()))
        }
    }

    /// The zero vector.
    pub fn new() -> (r: Self)
        ensures
            r@ == Seq::new(S as nat, |i: int| 0u64),
    {
        let v = [0u64; S];
        proof {
            assert(v@ =~= Seq::new(S as nat, |i: int| 0u64));
        }
        Vector::NonNull(v)
    }

    pub fn from(vector: [u64; S]) -> (r: Self)
        ensures
            r@ == vector@,
    {
        Vector::NonNull(vector)
    }

    pub fn get(&self, i: usize) -> (r: u64)
        requires
            i < S,
        ensures
            r == self@[i as int],
    {
        match self {
            Vector::NonNull(v) => v[i],
        }
    }

    /// The entries in order.
    pub fn iter(&self) -> (r: &[u64])
        ensures
            r@ == self@,
    {
        match self {
            Vector::NonNull(v) => v.as_slice(),
        }
    }

    pub fn to_vec(&self) -> (r: Vec<u64>)
        ensures
            r@ == self@,
    {
        let s = self.iter();
        let mut out: Vec<u64> = Vec::new();
        let mut i: usize = 0;
        while i < s.len()
            invariant
                i <= s@.len(),
                out@ == s@.take(i as int),
            decreases s@.len() - i,
        {
            out.push(s[i]);
            i = i + 1;
            proof {
                assert(out@ =~= s@.take(i as int));
            }
        }
        proof {
            assert(s@.take(s@.len() as int) =~= s@);
        }
        out
    }

    /// The vector whose first entries are those of `vec` and the rest zero.
    pub fn from_vec(vec: &Vec<u64>) -> (r: Self)
        requires
            vec@.len() <= S,
        ensures
            r@ == Seq::new(S as nat, |i: int| if i < vec@.len() { vec@[i] } else { 0u64 }),
    {
        let mut v = [0u64; S];
        let mut i: usize = 0;
        while i < vec.len()
            invariant
                i <= vec@.len() <= S,
                forall|k: int| 0 <= k < i ==> v@[k] == vec@[k],
                forall|k: int| i <= k < S ==> v@[k] == 0,
            decreases vec@.len() - i,
        {
            v[i] = vec[i];
            i = i + 1;
        }
        proof {
            assert(v@ =~= Seq::new(S as nat, |i: int| if i < vec@.len() { vec@[i] } else { 0u64 }));
        }
        Vector::NonNull(v)
    }

    /// The binary encoding of the vector.
    pub fn to_bytes(&self) -> (r: Vec<u8>)
        ensures
            r@ == self.spec_to_bytes(),
    {
        let mut r: Vec<u8> = Vec::new();
        push_words(&mut r, self.iter());
        r.push(1);
        r
    }

    /// Decodes a vector: the stream must have the encoded length and end in
    /// tag 1.
    pub fn from_bytes(vector: &[u8]) -> (r: Result<Self, DecodeError>)
        requires
            vector_size(S as nat) <= usize::MAX,
        ensures
            match (r, Self::decoded(vector@)) {
                (Ok(v), Ok(w)) => v@ == w,
                (Err(e), Err(f)) => e == f,
                _ => false,
            },
    {
        let expected = S * 8 + 1;
        if vector.len() != expected {
            return Err(DecodeError::WrongSize { found: vector.len(), expected });
        }
        let tag = vector[vector.len() - 1];
        if tag != 1 {
            return Err(DecodeError::UnknownVariant(tag));
        }
        let mut v = [0u64; S];
        let mut i: usize = 0;
        while i < S
            invariant
                i <= S,
                vector@.len() == vector_size(S as nat),
                forall|k: int| 0 <= k < i ==> #[trigger] v@[k] == word_at(vector@, k),
            decreases S - i,
        {
            v[i] = read_word(vector, i);
            i = i + 1;
        }
        proof {
            assert(v@ =~= Seq::new(S as nat, |i: int| word_at(vector@, i)));
        }
        Ok(Vector::NonNull(v))
    }
}

/// Decoding the encoding of a vector gives the vector back.
pub proof fn lemma_vector_round_trip<const S: usize>(v: Vector<S>)
    ensures
        Vector::<S>::decoded(v.spec_to_bytes()) == Ok::<Seq<u64>, DecodeError>(v@),
{
    lemma_words_bytes(v@);
    let b = v.spec_to_bytes();
    assert forall|i: int| 0 <= i < S implies word_at(b, i) == v@[i] by {
        lemma_words_round_trip(v@, i);
    }
    assert(Seq::new(S as nat, |i: int| word_at(b, i)) =~= v@);
}

/// Decoding the encoding of a matrix, null or not, gives the matrix back.
pub proof fn lemma_matrix_round_trip<const S: usize>(m: SquareMatrix<S>)
    ensures
        SquareMatrix::<S>::decoded(m.spec_to_bytes()) == Ok::<Option<Seq<Seq<u64>>>, DecodeError>(m@),
{
    match m {
        SquareMatrix::Null => {
            assert(m.spec_to_bytes().len() == matrix_size(S as nat));
        },
        SquareMatrix::NonNull(a) => {
            let f = SquareMatrix::<S>::flat(a);
            lemma_words_bytes(f);
            let b = m.spec_to_bytes();
            let v = Seq::new(S as nat, |i: int| Seq::new(S as nat, |j: int| word_at(b, i * S + j)));
            assert forall|i: int| 0 <= i < S implies #[trigger] v[i] == a@[i]@ by {
                assert forall|j: int| 0 <= j < S implies word_at(b, i * S + j) == a@[i]@[j] by {
                    assert(0 <= i * S + j < S * S) by (nonlinear_arith)
                        requires 0 <= i < S, 0 <= j < S;
                    lemma_words_round_trip(f, i * S + j);
                    vstd::arithmetic::div_mod::lemma_fundamental_div_mod_converse(i * S + j, S as int, i, j);
                }
                assert(v[i] =~= a@[i]@);
            }
            assert(v =~= Seq::new(S as nat, |i: int| a@[i]@));
            assert(b.len() == 8 * (S * S) + 1);
            assert(b.len() == matrix_size(S as nat)) by (nonlinear_arith)
                requires b.len() == 8 * (S * S) + 1;
        },
    }
}

} // verus!
