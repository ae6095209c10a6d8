use vstd::arithmetic::power2::{lemma_pow2_pos, lemma2_to64, lemma_pow2_strictly_increases, lemma_pow2_unfold, pow2};
use vstd::prelude::*;

verus! {

/// Number of alleles equal to one (the number of derived alleles).
pub open spec fn weight_of(s: Seq<u8>) -> nat
    decreases s.len(),
{
    if s.len() == 0 {
        0
    } else {
        weight_of(s.drop_last()) + s.last() as nat
    }
}

/// Every allele is 0 or 1.
pub open spec fn is_binary(s: Seq<u8>) -> bool {
    forall|i: int| 0 <= i < s.len() ==> #[trigger] s[i] <= 1
}

/// The binary number whose i-th digit (least significant first) is `s[i]`.
pub open spec fn index_of(s: Seq<u8>) -> nat
    decreases s.len(),
{
    if s.len() == 0 {
        0
    } else {
        index_of(s.drop_last()) + pow2((s.len() - 1) as nat) * (s.last() as nat)
    }
}

/// The `len` binary digits of `index`, least significant first.
pub open spec fn digits_of(index: nat, len: nat) -> Seq<u8> {
    Seq::new(len, |i: int| ((index / pow2(i as nat)) % 2) as u8)
}

/// Returns the number of genotypes in a landscape with `L` biallelic loci.
pub fn landscape_size<const L: usize>() -> (r: usize)
    requires
        pow2(L as nat) <= usize::MAX,
    ensures
        r == pow2(L as nat),
{
    let mut r: usize = 1;
    let mut i: usize = 0;
    proof {
        lemma2_to64();
    }
    while i < L
        invariant
            i <= L,
            r == pow2(i as nat),
            pow2(L as nat) <= usize::MAX,
        decreases L - i,
    {
        proof {
            lemma_pow2_unfold((i + 1) as nat);
            if i + 1 < L {
                lemma_pow2_strictly_increases((i + 1) as nat, L as nat);
            }
        }
        r = r * 2;
        i = i + 1;
    }
    r
}

/// Number of positions at which `a` and `b` differ.
pub open spec fn diff_count(a: Seq<u8>, b: Seq<u8>) -> nat
    decreases a.len(),
{
    if a.len() == 0 {
        0
    } else {
        diff_count(a.drop_last(), b.take(a.len() - 1)) + if a.last() != b[a.len() - 1] {
            1nat
        } else {
            0nat
        }
    }
}

/// `s` with the allele at locus `i` switched.
pub open spec fn flip_at(s: Seq<u8>, i: int) -> Seq<u8> {
    s.update(i, (1 - s[i]) as u8)
}

/// `s` with the alleles at every locus listed in `loci` switched.
pub open spec fn flip_loci(s: Seq<u8>, loci: Seq<usize>) -> Seq<u8> {
    Seq::new(
        s.len(),
        |j: int|
            if loci.contains(j as usize) {
                (1 - s[j]) as u8
            } else {
                s[j]
            },
    )
}

/// Changing `b` at a position where it agrees with `a` adds one difference
/// if the new value differs.
pub proof fn lemma_diff_update(a: Seq<u8>, b: Seq<u8>, p: int, x: u8)
    requires
        a.len() == b.len(),
        0 <= p < a.len(),
        a[p] == b[p],
    ensures
        diff_count(a, b.update(p, x)) == diff_count(a, b) + if x != a[p] {
            1nat
        } else {
            0nat
        },
    decreases a.len(),
{
    let n = a.len();
    let u = b.update(p, x);
    if p < n - 1 {
        assert(u.take(n - 1) =~= b.take(n - 1).update(p, x));
        lemma_diff_update(a.drop_last(), b.take(n - 1), p, x);
    } else {
        assert(u.take(n - 1) =~= b.take(n - 1));
    }
}

pub proof fn lemma_diff_self(a: Seq<u8>)
    ensures
        diff_count(a, a) == 0,
    decreases a.len(),
{
    if a.len() > 0 {
        assert(a.take(a.len() - 1) =~= a.drop_last());
        lemma_diff_self(a.drop_last());
    }
}

pub proof fn lemma_weight_bound(s: Seq<u8>)
    requires
        is_binary(s),
    ensures
        weight_of(s) <= s.len(),
    decreases s.len(),
{
    if s.len() > 0 {
        lemma_weight_bound(s.drop_last());
    }
}

pub proof fn lemma_index_bound(s: Seq<u8>)
    requires
        is_binary(s),
    ensures
        index_of(s) < pow2(s.len()),
    decreases s.len(),
{
    if s.len() > 0 {
        lemma_index_bound(s.drop_last());
        lemma_pow2_unfold(s.len());
    } else {
        lemma2_to64();
    }
}

pub proof fn lemma_diff_bound(a: Seq<u8>, b: Seq<u8>)
    ensures
        diff_count(a, b) <= a.len(),
    decreases a.len(),
{
    if a.len() > 0 {
        lemma_diff_bound(a.drop_last(), b.take(a.len() - 1));
    }
}

/// Returns every sequence of `L` alleles, the one at position `g` being the
/// binary digits of `g`.
pub fn possible_sequences<const L: usize>() -> (r: Vec<[u8; L]>)
    requires
        pow2(L as nat) <= usize::MAX,
    ensures
        r@.len() == pow2(L as nat),
        forall|g: int| 0 <= g < r@.len() ==> (#[trigger] r@[g])@ == digits_of(g as nat, L as nat),
{
    let n = landscape_size::<L>();
    let mut seq_list: Vec<[u8; L]> = Vec::with_capacity(n);
    let mut g: usize = 0;
    while g < n
        invariant
            g <= n,
            n == pow2(L as nat),
            seq_list@.len() == g,
            forall|k: int| 0 <= k < g ==> (#[trigger] seq_list@[k])@ == digits_of(k as nat, L as nat),
        decreases n - g,
    {
        let genotype = Genotype::<L>::from_index(g);
        proof {
            use_type_invariant(&genotype);
            Genotype::<L>::lemma_view_of_binary(genotype);
        }
        seq_list.push(genotype.seq);
        g = g + 1;
    }
    seq_list
}

/// Relies on rand's `Rng::gen_range` over `0..2`: a value below 2.
#[verifier::external_body]
fn random_allele() -> (r: u8)
    ensures
        r < 2,
{
    rand::Rng::gen_range(&mut rand::thread_rng(), 0u8..2u8)
}

/// A fixed-length biallelic sequence of `L` loci.
#[derive(Clone, Copy, Debug, Hash)]
pub struct Genotype<const L: usize> {
    seq: [u8; L],
}

impl<const L: usize> PartialEq for Genotype<L> {
    fn eq(&self, other: &Self) -> (r: bool) {
        proof {
            use_type_invariant(self);
            use_type_invariant(other);
            Genotype::<L>::lemma_view_of_binary(*self);
            Genotype::<L>::lemma_view_of_binary(*other);
        }
        let mut i: usize = 0;
        while i < L
            invariant
                i <= L,
                self.seq@.len() == L,
                other.seq@.len() == L,
                self@ == self.seq@,
                other@ == other.seq@,
                forall|j: int| 0 <= j < i ==> self.seq@[j] == other.seq@[j],
            decreases L - i,
        {
            if self.seq[i] != other.seq[i] {
                proof {
                    assert(self@[i as int] != other@[i as int]);
                }
                return false;
            }
            i = i + 1;
        }
        proof {
            assert(self.seq@ =~= other.seq@);
        }
        true
    }
}

impl<const L: usize> vstd::std_specs::cmp::PartialEqSpecImpl for Genotype<L> {
    open spec fn obeys_eq_spec() -> bool {
        true
    }

    open spec fn eq_spec(&self, other: &Self) -> bool {
        self@ == other@
    }
}

impl<const L: usize> Eq for Genotype<L> {
}

impl<const L: usize> Genotype<L> {
    #[verifier::type_invariant]
    spec fn binary(self) -> bool {
        is_binary(self.seq@)
    }

    /// The alleles, locus by locus (stored alleles are always 0 or 1).
    pub closed spec fn view(&self) -> Seq<u8> {
        Seq::new(L as nat, |i: int| if self.seq@[i] == 0 { 0u8 } else { 1u8 })
    }

    /// Every genotype has `L` alleles, each 0 or 1.
    pub proof fn lemma_valid(g: Genotype<L>)
        ensures
            g@.len() == L,
            is_binary(g@),
    {
    }

    proof fn lemma_view_of_binary(g: Genotype<L>)
        requires
            is_binary(g.seq@),
        ensures
            g@ == g.seq@,
    {
        assert(g@ =~= g.seq@);
    }

    /// The genotype holding `seq`.
    fn make(seq: [u8; L]) -> (r: Self)
        requires
            is_binary(seq@),
        ensures
            r@ == seq@,
    {
        let r = Genotype { seq };
        proof {
            Self::lemma_view_of_binary(r);
        }
        r
    }

    /// Creates a new genotype with all alleles set to zero.
    pub fn new() -> (r: Self)
        ensures
            r@ == Seq::new(L as nat, |i: int| 0u8),
    {
        let seq = [0u8; L];
        proof {
            assert(seq@ =~= Seq::new(L as nat, |i: int| 0u8));
        }
        Self::make(seq)
    }

    /// A genotype whose alleles are drawn independently and uniformly.
    pub fn random() -> (r: Self)
        ensures
            is_binary(r@),
    {
        let mut seq = [0u8; L];
        let mut i: usize = 0;
        while i < L
            invariant
                i <= L,
                is_binary(seq@),
            decreases L - i,
        {
            seq[i] = random_allele();
            i = i + 1;
        }
        Self::make(seq)
    }

    /// Creates a genotype from a sequence of `L` alleles, each 0 or 1.
    pub fn from_sequence(sequence: &[u8]) -> (r: Self)
        requires
            sequence@.len() == L,
            is_binary(sequence@),
        ensures
            r@ == sequence@,
    {
        let mut seq = [0u8; L];
        let mut i: usize = 0;
        while i < L
            invariant
                i <= L,
                sequence@.len() == L,
                is_binary(sequence@),
                seq@.len() == L,
                forall|j: int| 0 <= j < i ==> seq@[j] == sequence@[j],
                forall|j: int| i <= j < L ==> seq@[j] == 0,
            decreases L - i,
        {
            seq[i] = sequence[i];
            i = i + 1;
        }
        proof {
            assert(seq@ =~= sequence@);
        }
        Self::make(seq)
    }

    /// The genotype whose canonical index is `index` modulo 2^L.
    pub fn from_index(index: usize) -> (r: Self)
        ensures
            r@ == digits_of(index as nat, L as nat),
    {
        let mut seq = [0u8; L];
        let mut t: usize = index;
        let mut i: usize = 0;
        proof {
            lemma2_to64();
        }
        while i < L
            invariant
                i <= L,
                seq@.len() == L,
                t as nat == index as nat / pow2(i as nat),
                forall|j: int| 0 <= j < i ==> seq@[j] == digits_of(index as nat, L as nat)[j],
                forall|j: int| i <= j < L ==> seq@[j] == 0,
            decreases L - i,
        {
            proof {
                lemma_pow2_unfold((i + 1) as nat);
                lemma_pow2_pos(i as nat);
                vstd::arithmetic::div_mod::lemma_div_denominator(index as int, pow2(i as nat) as int, 2);
                assert(pow2(i as nat) * 2 == pow2((i + 1) as nat)) by (nonlinear_arith)
                    requires pow2((i + 1) as nat) == 2 * pow2(i as nat);
            }
            seq[i] = (t % 2) as u8;
            t = t / 2;
            i = i + 1;
        }
        proof {
            assert(seq@ =~= digits_of(index as nat, L as nat));
        }
        Self::make(seq)
    }

    /// Switches the allele at locus `i`.
    pub fn mutate(&mut self, i: usize)
        requires
            i < L,
        ensures
            final(self)@ == flip_at(old(self)@, i as int),
    {
        proof {
            use_type_invariant(&*self);
            Genotype::<L>::lemma_view_of_binary(*self);
        }
        let mut seq = self.seq;
        seq[i] = 1 - seq[i];
        proof {
            assert(seq@ =~= flip_at(old(self)@, i as int));
        }
        *self = Self::make(seq);
    }

    /// A copy of this genotype with the allele at locus `i` switched.
    pub fn cmutate(self, i: usize) -> (r: Self)
        requires
            i < L,
        ensures
            r@ == flip_at(self@, i as int),
    {
        let mut g = self;
        g.mutate(i);
        g
    }

    /// The alleles, locus by locus.
    pub fn iter(&self) -> (r: &[u8])
        ensures
            r@ == self@,
    {
        proof {
            use_type_invariant(self);
            Genotype::<L>::lemma_view_of_binary(*self);
        }
        self.seq.as_slice()
    }

    pub fn to_vec(&self) -> (r: Vec<u8>)
        ensures
            r@ == self@,
    {
        proof {
            use_type_invariant(self);
            Genotype::<L>::lemma_view_of_binary(*self);
        }
        let mut v: Vec<u8> = Vec::with_capacity(L);
        let mut i: usize = 0;
        while i < L
            invariant
                i <= L,
                self.seq@.len() == L,
                v@ == self.seq@.take(i as int),
            decreases L - i,
        {
            v.push(self.seq[i]);
            i = i + 1;
            proof {
                assert(v@ =~= self.seq@.take(i as int));
            }
        }
        proof {
            assert(self.seq@.take(L as int) =~= self.seq@);
        }
        v
    }

    /// The number of derived alleles (the Hamming weight).
    pub fn sum(&self) -> (r: usize)
        ensures
            r == weight_of(self@),
    {
        proof {
            use_type_invariant(self);
            Genotype::<L>::lemma_view_of_binary(*self);
        }
        proof {
            use_type_invariant(self);
        }
        let mut total: usize = 0;
        let mut i: usize = 0;
        while i < L
            invariant
                i <= L,
                self.seq@.len() == L,
                is_binary(self.seq@),
                total == weight_of(self.seq@.take(i as int)),
            decreases L - i,
        {
            proof {
                assert(self.seq@.take(i + 1).drop_last() =~= self.seq@.take(i as int));
                lemma_weight_bound(self.seq@.take(i as int));
            }
            total = total + self.seq[i] as usize;
            i = i + 1;
        }
        proof {
            assert(self.seq@.take(L as int) =~= self.seq@);
        }
        total
    }

    /// The number of loci at which the two genotypes differ.
    pub fn n_differences(&self, g2: &Self) -> (r: usize)
        ensures
            r == diff_count(self@, g2@),
    {
        proof {
            use_type_invariant(self);
            Genotype::<L>::lemma_view_of_binary(*self);
        }
        proof {
            use_type_invariant(g2);
            Genotype::<L>::lemma_view_of_binary(*g2);
        }
        let mut total: usize = 0;
        let mut i: usize = 0;
        while i < L
            invariant
                i <= L,
                self.seq@.len() == L,
                g2.seq@.len() == L,
                total == diff_count(self.seq@.take(i as int), g2.seq@.take(i as int)),
            decreases L - i,
        {
            proof {
                let a = self.seq@.take(i + 1);
                let b = g2.seq@.take(i + 1);
                assert(a.drop_last() =~= self.seq@.take(i as int));
                assert(b.take(i as int) =~= g2.seq@.take(i as int));
                lemma_diff_bound(self.seq@.take(i as int), g2.seq@.take(i as int));
            }
            if self.seq[i] != g2.seq[i] {
                total = total + 1;
            }
            i = i + 1;
        }
        proof {
            assert(self.seq@.take(L as int) =~= self.seq@);
            assert(g2.seq@.take(L as int) =~= g2.seq@);
        }
        total
    }

    /// The canonical index: the alleles read as a binary number, locus 0 least
    /// significant.
    pub fn index(&self) -> (r: usize)
        requires
            pow2(L as nat) <= usize::MAX,
        ensures
            r == index_of(self@),
    {
        proof {
            use_type_invariant(self);
            Genotype::<L>::lemma_view_of_binary(*self);
        }
        proof {
            use_type_invariant(self);
            lemma2_to64();
        }
        let mut total: usize = 0;
        let mut power: usize = 1;
        let mut i: usize = 0;
        while i < L
            invariant
                i <= L,
                self.seq@.len() == L,
                is_binary(self.seq@),
                pow2(L as nat) <= usize::MAX,
                i < L ==> power == pow2(i as nat),
                total == index_of(self.seq@.take(i as int)),
            decreases L - i,
        {
            proof {
                let p = self.seq@.take(i + 1);
                assert(p.drop_last() =~= self.seq@.take(i as int));
                lemma_index_bound(self.seq@.take(i + 1));
                lemma_pow2_unfold((i + 1) as nat);
                if i + 1 < L {
                    lemma_pow2_strictly_increases((i + 1) as nat, L as nat);
                }
            }
            total = total + power * (self.seq[i] as usize);
            if i + 1 < L {
                power = power * 2;
            }
            i = i + 1;
        }
        proof {
            assert(self.seq@.take(L as int) =~= self.seq@);
        }
        total
    }

    /// The index shifted by 2^L for every derived allele: orders genotypes by
    /// number of mutations, then by index.
    pub fn order(&self) -> (r: usize)
        requires
            pow2(L as nat) * (L as nat + 1) <= usize::MAX,
        ensures
            r == index_of(self@) + pow2(L as nat) * weight_of(self@),
    {
        proof {
            use_type_invariant(self);
            Genotype::<L>::lemma_view_of_binary(*self);
        }
        proof {
            use_type_invariant(self);
            lemma_index_bound(self@);
            lemma_weight_bound(self@);
            assert(pow2(L as nat) * weight_of(self@) <= pow2(L as nat) * L as nat) by (nonlinear_arith)
                requires weight_of(self@) <= L;
            assert(pow2(L as nat) * (L as nat + 1) == pow2(L as nat) * L as nat + pow2(L as nat)) by (nonlinear_arith);
        }
        let size = landscape_size::<L>();
        self.index() + size * self.sum()
    }

    /// A copy with the allele at every locus in `loci` switched; it differs
    /// from this genotype at exactly as many loci as `loci` lists.
    pub fn mutate_loci(&self, loci: &Vec<usize>) -> (r: Self)
        requires
            loci@.no_duplicates(),
            forall|i: int| 0 <= i < loci@.len() ==> loci@[i] < L,
        ensures
            r@ == flip_loci(self@, loci@),
            diff_count(self@, r@) == loci@.len(),
    {
        proof {
            use_type_invariant(self);
            Genotype::<L>::lemma_view_of_binary(*self);
        }
        proof {
            use_type_invariant(self);
            assert(self@ =~= flip_loci(self@, loci@.take(0)));
            lemma_diff_self(self@);
        }
        let mut g = *self;
        let mut i: usize = 0;
        while i < loci.len()
            invariant
                i <= loci@.len(),
                loci@.no_duplicates(),
                forall|m: int| 0 <= m < loci@.len() ==> loci@[m] < L,
                self@.len() == L,
                is_binary(self@),
                g@ == flip_loci(self@, loci@.take(i as int)),
                diff_count(self@, g@) == i,
            decreases loci@.len() - i,
        {
            let ghost before = g@;
            let p = loci[i];
            proof {
                let t = loci@.take(i as int);
                assert(!t.contains(p)) by {
                    if t.contains(p) {
                        let m = choose|m: int| 0 <= m < t.len() && t[m] == p;
                        assert(loci@[m] == loci@[i as int]);
                    }
                }
                assert(before[p as int] == self@[p as int]);
                lemma_diff_update(self@, before, p as int, (1 - before[p as int]) as u8);
            }
            g.mutate(p);
            proof {
                let t = loci@.take(i as int);
                let t1 = loci@.take(i + 1);
                assert forall|j: int| 0 <= j < L implies #[trigger] g@[j] == flip_loci(self@, t1)[j] by {
                    let x = j as usize;
                    if t1.contains(x) {
                        let m = choose|m: int| 0 <= m < t1.len() && t1[m] == x;
                        if m < t.len() {
                            assert(t[m] == x);
                        }
                    }
                    if t.contains(x) {
                        let m = choose|m: int| 0 <= m < t.len() && t[m] == x;
                        assert(t1[m] == x);
                    }
                    if x == p {
                        assert(t1[t.len() as int] == x);
                    }
                }
                assert(g@ =~= flip_loci(self@, t1));
            }
            i = i + 1;
        }
        proof {
            assert(loci@.take(loci@.len() as int) =~= loci@);
        }
        g
    }
}

} // verus!
