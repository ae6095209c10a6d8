use crate::genotype::{diff_count, is_binary, Genotype};
use vstd::prelude::*;

verus! {

/// An occupied genotype and its number of individuals.
pub type Entry = (Seq<u8>, nat);

/// Number of individuals of genotype `g` over all entries.
pub open spec fn count_in(es: Seq<Entry>, g: Seq<u8>) -> nat
    decreases es.len(),
{
    if es.len() == 0 {
        0
    } else {
        count_in(es.drop_last(), g) + if es.last().0 == g {
            es.last().1
        } else {
            0nat
        }
    }
}

/// Number of individuals over all entries.
pub open spec fn total_of(es: Seq<Entry>) -> nat
    decreases es.len(),
{
    if es.len() == 0 {
        0
    } else {
        total_of(es.drop_last()) + es.last().1
    }
}

/// No genotype occurs in two entries.
pub open spec fn keys_distinct(es: Seq<Entry>) -> bool {
    forall|i: int, j: int| 0 <= i < j < es.len() ==> es[i].0 != es[j].0
}

/// Every entry holds at least one individual.
pub open spec fn all_occupied(es: Seq<Entry>) -> bool {
    forall|i: int| 0 <= i < es.len() ==> #[trigger] es[i].1 > 0
}

/// Number of times `v` occurs in `s`.
pub open spec fn occurrences(s: Seq<usize>, v: int) -> nat
    decreases s.len(),
{
    if s.len() == 0 {
        0
    } else {
        occurrences(s.drop_last(), v) + if s.last() as int == v {
            1nat
        } else {
            0nat
        }
    }
}

pub proof fn lemma_count_update(es: Seq<Entry>, k: int, v: nat, g: Seq<u8>)
    requires
        0 <= k < es.len(),
    ensures
        count_in(es.update(k, (es[k].0, v)), g) + (if es[k].0 == g {
            es[k].1
        } else {
            0nat
        }) == count_in(es, g) + (if es[k].0 == g {
            v
        } else {
            0nat
        }),
    decreases es.len(),
{
    let u = es.update(k, (es[k].0, v));
    if k < es.len() - 1 {
        assert(u.drop_last() =~= es.drop_last().update(k, (es[k].0, v)));
        lemma_count_update(es.drop_last(), k, v, g);
    } else {
        assert(u.drop_last() =~= es.drop_last());
    }
}

pub proof fn lemma_total_update(es: Seq<Entry>, k: int, v: nat)
    requires
        0 <= k < es.len(),
    ensures
        total_of(es.update(k, (es[k].0, v))) + es[k].1 == total_of(es) + v,
    decreases es.len(),
{
    let u = es.update(k, (es[k].0, v));
    if k < es.len() - 1 {
        assert(u.drop_last() =~= es.drop_last().update(k, (es[k].0, v)));
        lemma_total_update(es.drop_last(), k, v);
    } else {
        assert(u.drop_last() =~= es.drop_last());
    }
}

/// In an entry list with distinct genotypes, the count of a listed genotype
/// is its entry's count.
pub proof fn lemma_count_at(es: Seq<Entry>, k: int)
    requires
        keys_distinct(es),
        0 <= k < es.len(),
    ensures
        count_in(es, es[k].0) == es[k].1,
    decreases es.len(),
{
    if k < es.len() - 1 {
        lemma_count_at(es.drop_last(), k);
    } else {
        lemma_count_absent(es.drop_last(), es[k].0);
    }
}

pub proof fn lemma_count_absent(es: Seq<Entry>, g: Seq<u8>)
    requires
        forall|i: int| 0 <= i < es.len() ==> es[i].0 != g,
    ensures
        count_in(es, g) == 0,
    decreases es.len(),
{
    if es.len() > 0 {
        lemma_count_absent(es.drop_last(), g);
    }
}

pub proof fn lemma_count_le_total(es: Seq<Entry>, g: Seq<u8>)
    ensures
        count_in(es, g) <= total_of(es),
    decreases es.len(),
{
    if es.len() > 0 {
        lemma_count_le_total(es.drop_last(), g);
    }
}

pub proof fn lemma_total_prefix(es: Seq<Entry>, j: int)
    requires
        0 <= j < es.len(),
    ensures
        total_of(es.take(j + 1)) == total_of(es.take(j)) + es[j].1,
        total_of(es.take(j + 1)) <= total_of(es),
    decreases es.len(),
{
    assert(es.take(j + 1).drop_last() =~= es.take(j));
    if j + 1 < es.len() {
        lemma_total_prefix(es.drop_last(), j);
        assert(es.drop_last().take(j + 1) =~= es.take(j + 1));
        assert(es.drop_last().take(j) =~= es.take(j));
    } else {
        assert(es.take(j + 1) =~= es);
    }
}

/// Sum of a sequence of counts.
pub open spec fn sum_of(s: Seq<usize>) -> nat
    decreases s.len(),
{
    if s.len() == 0 {
        0
    } else {
        sum_of(s.drop_last()) + s.last() as nat
    }
}

pub proof fn lemma_sum_update(s: Seq<usize>, k: int, v: usize)
    requires
        0 <= k < s.len(),
    ensures
        sum_of(s.update(k, v)) + s[k] == sum_of(s) + v,
    decreases s.len(),
{
    if k < s.len() - 1 {
        assert(s.update(k, v).drop_last() =~= s.drop_last().update(k, v));
        lemma_sum_update(s.drop_last(), k, v);
    } else {
        assert(s.update(k, v).drop_last() =~= s.drop_last());
    }
}

pub proof fn lemma_sum_prefix(s: Seq<usize>, j: int)
    requires
        0 <= j < s.len(),
    ensures
        sum_of(s.take(j + 1)) == sum_of(s.take(j)) + s[j],
        sum_of(s.take(j + 1)) <= sum_of(s),
    decreases s.len(),
{
    assert(s.take(j + 1).drop_last() =~= s.take(j));
    if j + 1 < s.len() {
        lemma_sum_prefix(s.drop_last(), j);
        assert(s.drop_last().take(j + 1) =~= s.take(j + 1));
        assert(s.drop_last().take(j) =~= s.take(j));
    } else {
        assert(s.take(j + 1) =~= s);
    }
}

pub proof fn lemma_occurrences_le(s: Seq<usize>, v: int)
    ensures
        occurrences(s, v) <= s.len(),
    decreases s.len(),
{
    if s.len() > 0 {
        lemma_occurrences_le(s.drop_last(), v);
    }
}

/// Relies on rand::seq::index::sample: `amount` distinct indices drawn from
/// `0..length` (it panics if `amount > length`).
#[verifier::external_body]
fn sample_loci(length: usize, amount: usize) -> (r: Vec<usize>)
    requires
        amount <= length,
    ensures
        r@.len() == amount,
        r@.no_duplicates(),
        forall|i: int| 0 <= i < r@.len() ==> r@[i] < length,
{
    rand::seq::index::sample(&mut rand::thread_rng(), length, amount).into_vec()
}

/// Individuals of genotype `h` that stay put: over the entries of genotype
/// `h`, the count minus the number of that entry's mutants.
pub open spec fn left_behind(es: Seq<Entry>, ms: Seq<Vec<usize>>, h: Seq<u8>) -> nat
    decreases es.len(),
{
    if es.len() == 0 {
        0
    } else {
        left_behind(es.drop_last(), ms, h) + if es.last().0 == h {
            (es.last().1 - ms[es.len() - 1]@.len()) as nat
        } else {
            0nat
        }
    }
}

/// Number of times `h` occurs in `s`.
pub open spec fn copies_of(s: Seq<Seq<u8>>, h: Seq<u8>) -> nat
    decreases s.len(),
{
    if s.len() == 0 {
        0
    } else {
        copies_of(s.drop_last(), h) + if s.last() == h {
            1nat
        } else {
            0nat
        }
    }
}

/// Number of mutants, over all source entries, that became `h`.
pub open spec fn landed(mutants: Seq<Seq<Seq<u8>>>, h: Seq<u8>) -> nat
    decreases mutants.len(),
{
    if mutants.len() == 0 {
        0
    } else {
        landed(mutants.drop_last(), h) + copies_of(mutants.last(), h)
    }
}

/// `(alleles, count)` pairs as entries.
pub open spec fn pairs_view(v: Seq<(Vec<u8>, usize)>) -> Seq<Entry> {
    Seq::new(v.len(), |i: int| (v[i].0@, v[i].1 as nat))
}

/// A population of fixed size, kept as the list of occupied genotypes with
/// their numbers of individuals.
#[derive(Clone, Debug)]
pub struct FixedSizePopulation<const L: usize> {
    genotypes: Vec<Genotype<L>>,
    counts: Vec<usize>,
    pop_size: usize,
}

impl<const L: usize> FixedSizePopulation<L> {
    /// The occupied genotypes and their counts, in storage order.
    pub closed spec fn view(&self) -> Seq<Entry> {
        Seq::new(self.genotypes@.len(), |i: int| (self.genotypes@[i]@, self.counts@[i] as nat))
    }

    /// The size the population was created with.
    pub closed spec fn pop_size(&self) -> nat {
        self.pop_size as nat
    }

    /// Number of individuals of genotype `g`.
    pub open spec fn count(&self, g: Seq<u8>) -> nat {
        count_in(self@, g)
    }

    /// Number of individuals over all genotypes.
    pub open spec fn total(&self) -> nat {
        total_of(self@)
    }

    /// Storage is consistent: one count per genotype, no genotype twice, no
    /// empty entry, and the number of individuals fits a `usize`.
    pub closed spec fn wf(&self) -> bool {
        &&& self.genotypes@.len() == self.counts@.len()
        &&& keys_distinct(self@)
        &&& all_occupied(self@)
        &&& self.total() <= usize::MAX
    }

    /// What consistent storage means for the entries: no genotype twice, no
    /// empty entry, and a total that fits a `usize`.
    pub proof fn lemma_wf(&self)
        requires
            self.wf(),
        ensures
            keys_distinct(self@),
            all_occupied(self@),
            self.total() <= usize::MAX,
    {
    }

    /// Creates a new, empty population of the given size.
    pub fn new(size: usize) -> (r: Self)
        ensures
            r.wf(),
            r@ == Seq::<Entry>::empty(),
            r.pop_size() == size,
    {
        let r = FixedSizePopulation { genotypes: Vec::new(), counts: Vec::new(), pop_size: size };
        proof {
            assert(r@ =~= Seq::<Entry>::empty());
        }
        r
    }

    /// Position of `g` in storage, if it is occupied.
    fn find(&self, g: &Genotype<L>) -> (r: Option<usize>)
        requires
            self.wf(),
        ensures
            match r {
                Some(k) => k < self@.len() && self@[k as int].0 == g@,
                None => forall|i: int| 0 <= i < self@.len() ==> self@[i].0 != g@,
            },
    {
        let mut i: usize = 0;
        while i < self.genotypes.len()
            invariant
                self.wf(),
                i <= self.genotypes@.len(),
                forall|j: int| 0 <= j < i ==> self@[j].0 != g@,
            decreases self.genotypes@.len() - i,
        {
            if self.genotypes[i] == *g {
                return Some(i);
            }
            i = i + 1;
        }
        None
    }

    /// Number of individuals that carry `genotype`.
    pub fn get(&self, genotype: &Genotype<L>) -> (r: usize)
        requires
            self.wf(),
        ensures
            r == self.count(genotype@),
    {
        match self.find(genotype) {
            Some(k) => {
                proof {
                    lemma_count_at(self@, k as int);
                }
                self.counts[k]
            },
            None => {
                proof {
                    lemma_count_absent(self@, genotype@);
                }
                0
            },
        }
    }

    /// Adds `n` individuals with the given genotype.
    pub fn add_genotype(&mut self, genotype: Genotype<L>, n: usize)
        requires
            old(self).wf(),
            old(self).total() + n <= usize::MAX,
        ensures
            final(self).wf(),
            final(self).pop_size() == old(self).pop_size(),
            final(self).total() == old(self).total() + n,
            n > 0 && (forall|i: int| 0 <= i < old(self)@.len() ==> old(self)@[i].0 != genotype@)
                ==> final(self)@ == old(self)@.push((genotype@, n as nat)),
            forall|g: Seq<u8>|
                #[trigger] final(self).count(g) == old(self).count(g) + if g == genotype@ {
                    n as nat
                } else {
                    0nat
                },
    {
        if n == 0 {
            return;
        }
        match self.find(&genotype) {
            Some(k) => {
                proof {
                    lemma_count_le_total(self@, genotype@);
                    assert(self@[k as int].0 == genotype@);
                    lemma_count_at(self@, k as int);
                    lemma_total_update(self@, k as int, (self.counts@[k as int] + n) as nat);
                }
                let ghost es = self@;
                let c = self.counts[k];
                self.counts.set(k, c + n);
                proof {
                    assert(self@ =~= es.update(k as int, (es[k as int].0, (c + n) as nat)));
                    assert forall|g: Seq<u8>|
                        #[trigger] self.count(g) == count_in(es, g) + if g == genotype@ {
                            n as nat
                        } else {
                            0nat
                        } by {
                        lemma_count_update(es, k as int, (c + n) as nat, g);
                    }
                }
            },
            None => {
                let ghost es = self@;
                self.genotypes.push(genotype);
                self.counts.push(n);
                proof {
                    assert(self@.drop_last() =~= es);
                    assert(self@ =~= es.push((genotype@, n as nat)));
                }
            },
        }
    }

    /// Adds one individual with the given genotype.
    pub fn add_individual(&mut self, genotype: Genotype<L>)
        requires
            old(self).wf(),
            old(self).total() + 1 <= usize::MAX,
        ensures
            final(self).wf(),
            final(self).pop_size() == old(self).pop_size(),
            final(self).total() == old(self).total() + 1,
            forall|g: Seq<u8>|
                #[trigger] final(self).count(g) == old(self).count(g) + if g == genotype@ {
                    1nat
                } else {
                    0nat
                },
    {
        self.add_genotype(genotype, 1);
    }

    /// The population arose from the entries `es` by one mutation round in
    /// which the `m`-th mutant of entry `j` carried `ms[j][m]` mutations and
    /// became `mutants[j][m]`: every count is what stayed behind plus the
    /// mutants that landed on it.
    pub open spec fn mutated_from(
        &self,
        es: Seq<Entry>,
        ms: Seq<Vec<usize>>,
        mutants: Seq<Seq<Seq<u8>>>,
    ) -> bool {
        &&& mutants.len() == es.len()
        &&& forall|j: int| 0 <= j < mutants.len() ==> #[trigger] mutants[j].len() == ms[j]@.len()
        &&& forall|j: int, m: int|
            0 <= j < mutants.len() && 0 <= m < mutants[j].len() ==> {
                let x = #[trigger] mutants[j][m];
                &&& x.len() == L
                &&& is_binary(x)
                &&& diff_count(es[j].0, x) == ms[j]@[m]
            }
        &&& forall|h: Seq<u8>| #[trigger] self.count(h) == left_behind(es, ms, h) + landed(mutants, h)
    }

    /// One mutation round. `mutations[j]` lists, for each individual of the
    /// `j`-th occupied genotype (in storage order) that acquires mutations,
    /// how many loci it mutates; which loci is drawn uniformly at random.
    /// Mutated individuals leave their genotype for the mutated one; emptied
    /// genotypes are dropped.
    pub fn mutation(&mut self, mutations: &Vec<Vec<usize>>)
        requires
            old(self).wf(),
            mutations@.len() == old(self)@.len(),
            forall|j: int| 0 <= j < mutations@.len() ==> mutations@[j]@.len() <= old(self)@[j].1,
            forall|j: int, m: int|
                0 <= j < mutations@.len() && 0 <= m < mutations@[j]@.len()
                    ==> 1 <= #[trigger] mutations@[j]@[m] <= L,
        ensures
            final(self).wf(),
            keys_distinct(final(self)@),
            all_occupied(final(self)@),
            final(self).pop_size() == old(self).pop_size(),
            final(self).total() == old(self).total(),
            old(self).total() == old(self).pop_size() ==> final(self).total() == final(self).pop_size(),
            (forall|j: int| 0 <= j < mutations@.len() ==> mutations@[j]@.len() == 0)
                ==> final(self)@ == old(self)@,
            exists|mutants: Seq<Seq<Seq<u8>>>|
                #[trigger] final(self).mutated_from(old(self)@, mutations@, mutants),
    {
        let ghost es = self@;
        let ghost mut muts: Seq<Seq<Seq<u8>>> = Seq::empty();
        let mut next = FixedSizePopulation::new(self.pop_size);
        let n = self.genotypes.len();
        let mut j: usize = 0;
        while j < n
            invariant
                self.wf(),
                self@ == es,
                n == es.len(),
                j <= n,
                next.wf(),
                next.pop_size() == self.pop_size(),
                next.total() == total_of(es.take(j as int)),
                mutations@.len() == es.len(),
                forall|i: int| 0 <= i < mutations@.len() ==> mutations@[i]@.len() <= es[i].1,
                forall|i: int, m: int|
                    0 <= i < mutations@.len() && 0 <= m < mutations@[i]@.len()
                        ==> 1 <= #[trigger] mutations@[i]@[m] <= L,
                (forall|i: int| 0 <= i < j ==> mutations@[i]@.len() == 0) ==> next@ == es.take(j as int),
                muts.len() == j,
                forall|i: int| 0 <= i < j ==> #[trigger] muts[i].len() == mutations@[i]@.len(),
                forall|i: int, m: int|
                    0 <= i < j && 0 <= m < muts[i].len() ==> {
                        let x = #[trigger] muts[i][m];
                        &&& x.len() == L
                        &&& is_binary(x)
                        &&& diff_count(es[i].0, x) == mutations@[i]@[m]
                    },
                forall|h: Seq<u8>|
                    #[trigger] next.count(h) == left_behind(es.take(j as int), mutations@, h) + landed(
                        muts,
                        h,
                    ),
            decreases n - j,
        {
            let g = self.genotypes[j];
            let c = self.counts[j];
            let ks = &mutations[j];
            proof {
                lemma_total_prefix(es, j as int);
                assert(es[j as int].0 == g@);
                let t1 = es.take(j + 1);
                assert(t1.drop_last() =~= es.take(j as int));
                assert(t1.last() == es[j as int]);
            }
            let ghost before = next;
            next.add_genotype(g, c - ks.len());
            proof {
                if forall|i: int| 0 <= i <= j ==> mutations@[i]@.len() == 0 {
                    assert forall|i: int| 0 <= i < next@.len() - 1 implies next@[i].0 != g@ by {
                        assert(es.take(j as int)[i] == es[i]);
                    }
                    assert(es.take(j + 1) =~= es.take(j as int).push(es[j as int]));
                    assert(c > 0) by {
                        assert(all_occupied(es));
                        assert(es[j as int].1 > 0);
                    }
                    assert(next@ == es.take(j + 1));
                }
                assert forall|h: Seq<u8>|
                    #[trigger] next.count(h) == left_behind(es.take(j + 1), mutations@, h) + landed(
                        muts,
                        h,
                    ) + copies_of(Seq::<Seq<u8>>::empty(), h) by {
                    assert(before.count(h) == left_behind(es.take(j as int), mutations@, h) + landed(muts, h));
                }
            }
            let ghost after_add = next@;
            let ghost mut row: Seq<Seq<u8>> = Seq::empty();
            let mut m: usize = 0;
            while m < ks.len()
                invariant
                    self.wf(),
                    self@ == es,
                    n == es.len(),
                    j < n,
                    m <= ks@.len(),
                    ks@.len() <= c,
                    c == es[j as int].1,
                    g@ == es[j as int].0,
                    ks == mutations@[j as int],
                    forall|i: int| 0 <= i < ks@.len() ==> 1 <= #[trigger] ks@[i] <= L,
                    next.wf(),
                    next.pop_size() == self.pop_size(),
                    next.total() == total_of(es.take(j as int)) + (c - ks@.len()) + m,
                    total_of(es.take(j + 1)) <= total_of(es),
                    total_of(es.take(j + 1)) == total_of(es.take(j as int)) + c,
                    m == 0 ==> next@ == after_add,
                    mutations@.len() == es.len(),
                    row.len() == m,
                    forall|q: int|
                        0 <= q < m ==> {
                            let x = #[trigger] row[q];
                            &&& x.len() == L
                            &&& is_binary(x)
                            &&& diff_count(es[j as int].0, x) == ks@[q]
                        },
                    forall|h: Seq<u8>|
                        #[trigger] next.count(h) == left_behind(es.take(j + 1), mutations@, h) + landed(
                            muts,
                            h,
                        ) + copies_of(row, h),
                decreases ks@.len() - m,
            {
                let k = ks[m];
                let loci = sample_loci(L, k);
                let mutant = g.mutate_loci(&loci);
                let ghost prev = next;
                next.add_individual(mutant);
                proof {
                    Genotype::<L>::lemma_valid(mutant);
                    let row1 = row.push(mutant@);
                    assert(row1.drop_last() =~= row);
                    assert forall|h: Seq<u8>|
                        #[trigger] next.count(h) == left_behind(es.take(j + 1), mutations@, h) + landed(
                            muts,
                            h,
                        ) + copies_of(row1, h) by {
                        assert(prev.count(h) == left_behind(es.take(j + 1), mutations@, h) + landed(muts, h)
                            + copies_of(row, h));
                    }
                    row = row1;
                }
                m = m + 1;
            }
            proof {
                let muts1 = muts.push(row);
                assert(muts1.drop_last() =~= muts);
                assert forall|h: Seq<u8>|
                    #[trigger] next.count(h) == left_behind(es.take(j + 1), mutations@, h) + landed(
                        muts1,
                        h,
                    ) by {}
                muts = muts1;
            }
            j = j + 1;
        }
        proof {
            assert(es.take(n as int) =~= es);
            assert(next.mutated_from(es, mutations@, muts));
        }
        *self = next;
    }

    /// Wright-Fisher resampling. `draws` holds, for each of the `N` new
    /// individuals, the storage position of the occupied genotype it was drawn
    /// from (drawn with probability proportional to count times fitness). The
    /// population becomes the tally of the draws; genotypes drawn by nobody
    /// are dropped.
    pub fn wright_fisher(&mut self, draws: &Vec<usize>)
        requires
            old(self).wf(),
            draws@.len() == old(self).pop_size(),
            forall|i: int| 0 <= i < draws@.len() ==> #[trigger] draws@[i] < old(self)@.len(),
        ensures
            final(self).wf(),
            final(self).pop_size() == old(self).pop_size(),
            final(self).total() == old(self).pop_size(),
            keys_distinct(final(self)@),
            all_occupied(final(self)@),
            forall|j: int|
                0 <= j < old(self)@.len() ==> final(self).count(old(self)@[j].0) == occurrences(
                    draws@,
                    j,
                ),
            forall|g: Seq<u8>|
                (forall|j: int| 0 <= j < old(self)@.len() ==> old(self)@[j].0 != g)
                    ==> #[trigger] final(self).count(g) == 0,
    {
        let ghost es = self@;
        let n = self.genotypes.len();
        let mut tally: Vec<usize> = Vec::new();
        let mut j: usize = 0;
        while j < n
            invariant
                j <= n,
                tally@.len() == j,
                forall|i: int| 0 <= i < j ==> tally@[i] == 0,
                sum_of(tally@) == 0,
            decreases n - j,
        {
            let ghost before = tally@;
            tally.push(0);
            proof {
                assert(tally@.drop_last() =~= before);
            }
            j = j + 1;
        }
        let mut i: usize = 0;
        while i < draws.len()
            invariant
                i <= draws@.len(),
                tally@.len() == n,
                n == es.len(),
                forall|k: int| 0 <= k < draws@.len() ==> #[trigger] draws@[k] < n,
                forall|k: int| 0 <= k < n ==> tally@[k] == occurrences(draws@.take(i as int), k),
                sum_of(tally@) == i,
            decreases draws@.len() - i,
        {
            let d = draws[i];
            proof {
                lemma_occurrences_le(draws@.take(i as int), d as int);
                lemma_sum_update(tally@, d as int, (tally@[d as int] + 1) as usize);
                assert(draws@.take(i + 1).drop_last() =~= draws@.take(i as int));
            }
            let t = tally[d];
            tally.set(d, t + 1);
            i = i + 1;
        }
        proof {
            assert(draws@.take(draws@.len() as int) =~= draws@);
        }
        let mut next = FixedSizePopulation::new(self.pop_size);
        let mut j: usize = 0;
        while j < n
            invariant
                self.wf(),
                self@ == es,
                n == es.len(),
                j <= n,
                tally@.len() == n,
                sum_of(tally@) == draws@.len(),
                draws@.len() <= usize::MAX,
                forall|k: int| 0 <= k < n ==> tally@[k] == occurrences(draws@, k),
                next.wf(),
                next.pop_size() == self.pop_size(),
                next.total() == sum_of(tally@.take(j as int)),
                forall|k: int| 0 <= k < j ==> next.count(es[k].0) == tally@[k],
                forall|g: Seq<u8>|
                    (forall|k: int| 0 <= k < j ==> es[k].0 != g) ==> #[trigger] next.count(g) == 0,
            decreases n - j,
        {
            let g = self.genotypes[j];
            let t = tally[j];
            proof {
                lemma_sum_prefix(tally@, j as int);
                assert(es[j as int].0 == g@);
            }
            let ghost before = next;
            next.add_genotype(g, t);
            proof {
                assert forall|k: int| 0 <= k <= j implies next.count(es[k].0) == tally@[k] by {
                    if k < j {
                        assert(es[k].0 != es[j as int].0);
                    } else {
                        assert(before.count(g@) == 0);
                    }
                }
            }
            j = j + 1;
        }
        proof {
            assert(tally@.take(n as int) =~= tally@);
        }
        *self = next;
    }

    /// Replaces the population by `pop_size` individuals of one genotype.
    pub fn initialize(&mut self, genotype: Genotype<L>)
        ensures
            final(self).wf(),
            final(self).pop_size() == old(self).pop_size(),
            final(self).total() == old(self).pop_size(),
            keys_distinct(final(self)@),
            all_occupied(final(self)@),
            old(self).pop_size() > 0 ==> final(self)@ == seq![(genotype@, old(self).pop_size())],
            forall|g: Seq<u8>|
                #[trigger] final(self).count(g) == if g == genotype@ {
                    old(self).pop_size()
                } else {
                    0
                },
    {
        let mut next = FixedSizePopulation::new(self.pop_size);
        next.add_genotype(genotype, self.pop_size);
        proof {
            if self.pop_size > 0 {
                assert(next@ =~= seq![(genotype@, self.pop_size as nat)]);
            }
        }
        *self = next;
    }

    /// Builds a population from `(alleles, count)` pairs; its size is the
    /// sum of the counts.
    pub fn from_vec(vec: &Vec<(Vec<u8>, usize)>) -> (r: Self)
        requires
            forall|i: int|
                0 <= i < vec@.len() ==> (#[trigger] vec@[i]).0@.len() == L && is_binary(vec@[i].0@),
            total_of(pairs_view(vec@)) <= usize::MAX,
        ensures
            r.wf(),
            r.pop_size() == total_of(pairs_view(vec@)),
            r.total() == r.pop_size(),
            forall|g: Seq<u8>| #[trigger] r.count(g) == count_in(pairs_view(vec@), g),
    {
        let ghost ps = pairs_view(vec@);
        let mut r = FixedSizePopulation::new(0);
        let mut i: usize = 0;
        while i < vec.len()
            invariant
                i <= vec@.len(),
                ps == pairs_view(vec@),
                total_of(ps) <= usize::MAX,
                forall|k: int|
                    0 <= k < vec@.len() ==> (#[trigger] vec@[k]).0@.len() == L && is_binary(vec@[k].0@),
                r.wf(),
                r.pop_size() == 0,
                r.total() == total_of(ps.take(i as int)),
                forall|g: Seq<u8>| #[trigger] r.count(g) == count_in(ps.take(i as int), g),
            decreases vec@.len() - i,
        {
            proof {
                lemma_total_prefix(ps, i as int);
                assert(ps.take(i + 1).drop_last() =~= ps.take(i as int));
            }
            let g = Genotype::<L>::from_sequence(vec[i].0.as_slice());
            r.add_genotype(g, vec[i].1);
            i = i + 1;
        }
        proof {
            assert(ps.take(vec@.len() as int) =~= ps);
        }
        let ghost before = r;
        r.pop_size = r.total_count();
        proof {
            assert(r@ =~= before@);
            assert forall|g: Seq<u8>| #[trigger] r.count(g) == count_in(ps, g) by {
                assert(before.count(g) == count_in(ps.take(vec@.len() as int), g));
            }
        }
        r
    }

    /// Number of individuals over all genotypes.
    fn total_count(&self) -> (r: usize)
        requires
            self.wf(),
        ensures
            r == self.total(),
    {
        let mut t: usize = 0;
        let mut i: usize = 0;
        while i < self.counts.len()
            invariant
                self.wf(),
                i <= self@.len(),
                t == total_of(self@.take(i as int)),
            decreases self@.len() - i,
        {
            proof {
                lemma_total_prefix(self@, i as int);
            }
            t = t + self.counts[i];
            i = i + 1;
        }
        proof {
            assert(self@.take(self@.len() as int) =~= self@);
        }
        t
    }

    /// The occupied genotypes and their counts, as two aligned lists.
    pub fn to_vector(&self) -> (r: (Vec<Genotype<L>>, Vec<usize>))
        requires
            self.wf(),
        ensures
            r.0.view().len() == self@.len(),
            r.1.view().len() == self@.len(),
            forall|i: int|
                0 <= i < self@.len() ==> (#[trigger] r.0.view()[i]).view() == self@[i].0 && r.1.view()[i]
                    == self@[i].1,
    {
        let mut gs: Vec<Genotype<L>> = Vec::new();
        let mut ns: Vec<usize> = Vec::new();
        let mut i: usize = 0;
        while i < self.genotypes.len()
            invariant
                self.wf(),
                i <= self@.len(),
                gs@.len() == i,
                ns@.len() == i,
                forall|k: int| 0 <= k < i ==> (#[trigger] gs@[k])@ == self@[k].0 && ns@[k] == self@[k].1,
            decreases self@.len() - i,
        {
            gs.push(self.genotypes[i]);
            ns.push(self.counts[i]);
            i = i + 1;
        }
        proof {
            assert(i == self@.len());
        }
        let r = (gs, ns);
        proof {
            assert forall|k: int| 0 <= k < self@.len() implies (#[trigger] r.0.view()[k]).view() == self@[k].0
                && r.1.view()[k] == self@[k].1 by {
                assert(r.0@[k] == gs@[k]);
                assert(r.1@[k] == ns@[k]);
                assert(gs@[k]@ == self@[k].0 && ns@[k] == self@[k].1);
            }
        }
        r
    }

    /// The occupied genotypes as allele lists, each with its count.
    pub fn to_vec(&self) -> (r: Vec<(Vec<u8>, usize)>)
        requires
            self.wf(),
        ensures
            pairs_view(r@) == self@,
    {
        let mut out: Vec<(Vec<u8>, usize)> = Vec::new();
        let mut i: usize = 0;
        while i < self.genotypes.len()
            invariant
                self.wf(),
                i <= self@.len(),
                pairs_view(out@) == self@.take(i as int),
            decreases self@.len() - i,
        {
            let ghost before = out@;
            let v = self.genotypes[i].to_vec();
            out.push((v, self.counts[i]));
            proof {
                assert(out@ == before.push((v, self.counts@[i as int])));
                assert(pairs_view(out@).drop_last() =~= pairs_view(before));
                assert(pairs_view(out@).last() == self@[i as int]);
            }
            i = i + 1;
            proof {
                assert(pairs_view(out@) =~= self@.take(i as int));
            }
        }
        proof {
            assert(self@.take(self@.len() as int) =~= self@);
        }
        out
    }

    /// Number of genotypes currently present.
    pub fn n_genotypes(&self) -> (r: usize)
        requires
            self.wf(),
        ensures
            r == self@.len(),
    {
        self.genotypes.len()
    }

    /// The population size.
    pub fn size(&self) -> (r: usize)
        ensures
            r == self.pop_size(),
    {
        self.pop_size
    }
}

} // verus!
