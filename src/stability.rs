//! Detection of a stationary regime: the set of dominant genotypes, and a
//! rolling window of its last snapshots.
use std::collections::VecDeque;
use vstd::prelude::*;

verus! {

/// Most dominant genotypes recorded per generation.
pub const MAX_TOP_GENOTYPES: usize = 10;

/// Number of consecutive generations whose dominant sets must agree.
pub const STABILITY_WINDOW: usize = 500;

/// `r` lists in ascending order the smallest values of `selected`, as many
/// as fit in `MAX_TOP_GENOTYPES` slots, and marks the unused slots with -1.
pub open spec fn is_dominant_set(selected: Seq<usize>, r: Seq<i64>) -> bool {
    &&& r.len() == MAX_TOP_GENOTYPES
    &&& exists|c: int|
        0 <= c <= MAX_TOP_GENOTYPES && #[trigger] dominant_prefix(selected, r, c)
}

/// `v` is one of the values of `selected`.
pub open spec fn is_listed(selected: Seq<usize>, v: i64) -> bool {
    exists|k: int| 0 <= k < selected.len() && selected[k] as i64 == v
}

/// The first `c` slots of `r` hold the dominant values and the rest are -1.
pub open spec fn dominant_prefix(selected: Seq<usize>, r: Seq<i64>, c: int) -> bool {
    &&& forall|i: int| 0 <= i < c ==> r[i] >= 0 && is_listed(selected, #[trigger] r[i])
    &&& forall|i: int, j: int| 0 <= i < j < c ==> r[i] < r[j]
    &&& forall|i: int| c <= i < MAX_TOP_GENOTYPES ==> r[i] == -1
    &&& forall|k: int|
        0 <= k < selected.len() ==> (exists|i: int| 0 <= i < c && r[i] == selected[k] as i64) || (c
            == MAX_TOP_GENOTYPES && selected[k] as i64 > r[c - 1])
}

/// The dominant set of one generation: given the canonical indices of the
/// genotypes whose fitness exceeds the selection threshold, the smallest
/// ones in ascending order, at most `MAX_TOP_GENOTYPES` of them, the unused
/// slots holding -1.
pub fn dominant_genotypes(selected: &Vec<usize>) -> (r: [i64; MAX_TOP_GENOTYPES])
    requires
        forall|k: int| 0 <= k < selected@.len() ==> #[trigger] selected@[k] <= i64::MAX,
    ensures
        is_dominant_set(selected@, r@),
{
    let mut r = [-1i64; MAX_TOP_GENOTYPES];
    let mut c: usize = 0;
    let mut last: i64 = -1;
    while c < MAX_TOP_GENOTYPES
        invariant
            c <= MAX_TOP_GENOTYPES,
            r@.len() == MAX_TOP_GENOTYPES,
            forall|k: int| 0 <= k < selected@.len() ==> #[trigger] selected@[k] <= i64::MAX,
            forall|i: int| 0 <= i < c ==> r@[i] >= 0 && is_listed(selected@, #[trigger] r@[i]),
            forall|i: int, j: int| 0 <= i < j < c ==> r@[i] < r@[j],
            forall|i: int| c <= i < MAX_TOP_GENOTYPES ==> r@[i] == -1,
            last == if c == 0 {
                -1i64
            } else {
                r@[c - 1]
            },
            forall|k: int|
                0 <= k < selected@.len() && selected@[k] as i64 <= last ==> exists|i: int|
                    0 <= i < c && r@[i] == selected@[k] as i64,
        decreases MAX_TOP_GENOTYPES - c,
    {
        let mut best: i64 = -1;
        let mut j: usize = 0;
        while j < selected.len()
            invariant
                j <= selected@.len(),
                forall|k: int| 0 <= k < selected@.len() ==> #[trigger] selected@[k] <= i64::MAX,
                best == -1 || (best > last && exists|k: int|
                    0 <= k < j && selected@[k] as i64 == best),
                forall|k: int|
                    0 <= k < j && selected@[k] as i64 > last ==> best != -1 && best <= selected@[k]
                        as i64,
            decreases selected@.len() - j,
        {
            let x = selected[j] as i64;
            if x > last && (best == -1 || x < best) {
                best = x;
            }
            j = j + 1;
        }
        if best == -1 {
            proof {
                assert forall|k: int| 0 <= k < selected@.len() implies (exists|i: int|
                    0 <= i < c && r@[i] == selected@[k] as i64) || (c == MAX_TOP_GENOTYPES
                    && selected@[k] as i64 > r@[c - 1]) by {
                    if selected@[k] as i64 > last {
                        assert(best != -1);
                    }
                }
                assert(dominant_prefix(selected@, r@, c as int));
            }
            return r;
        }
        proof {
            let k = choose|k: int| 0 <= k < selected@.len() && selected@[k] as i64 == best;
            assert(selected@[k] == best as usize);
        }
        let ghost before = r@;
        r[c] = best;
        proof {
            assert(is_listed(selected@, r@[c as int]));
            assert forall|k: int|
                0 <= k < selected@.len() && selected@[k] as i64 <= best implies exists|i: int|
                0 <= i < c + 1 && r@[i] == selected@[k] as i64 by {
                if selected@[k] as i64 <= last {
                    let i = choose|i: int| 0 <= i < c && before[i] == selected@[k] as i64;
                    assert(r@[i] == selected@[k] as i64);
                } else {
                    assert(r@[c as int] == selected@[k] as i64);
                }
            }
        }
        last = best;
        c = c + 1;
    }
    proof {
        assert forall|k: int| 0 <= k < selected@.len() implies (exists|i: int|
            0 <= i < c && r@[i] == selected@[k] as i64) || (c == MAX_TOP_GENOTYPES && selected@[k]
            as i64 > r@[c - 1]) by {
            if selected@[k] as i64 > last {
                assert(c > 0);
            }
        }
        assert(dominant_prefix(selected@, r@, c as int));
    }
    r
}

} // verus!

verus! {

/// The two snapshots hold the same values.
fn same_snapshot(a: &[i64; MAX_TOP_GENOTYPES], b: &[i64; MAX_TOP_GENOTYPES]) -> (r: bool)
    ensures
        r == (a@ == b@),
{
    let mut i: usize = 0;
    while i < MAX_TOP_GENOTYPES
        invariant
            i <= MAX_TOP_GENOTYPES,
            forall|k: int| 0 <= k < i ==> a@[k] == b@[k],
        decreases MAX_TOP_GENOTYPES - i,
    {
        if a[i] != b[i] {
            return false;
        }
        i = i + 1;
    }
    proof {
        assert(a@ =~= b@);
    }
    true
}

/// The last `STABILITY_WINDOW` dominant-set snapshots, oldest first.
pub struct StabilityWindow {
    snapshots: VecDeque<[i64; MAX_TOP_GENOTYPES]>,
}

impl StabilityWindow {
    /// The snapshots in the window, oldest first.
    pub closed spec fn view(&self) -> Seq<Seq<i64>> {
        self.snapshots@.map_values(|s: [i64; MAX_TOP_GENOTYPES]| s@)
    }

    /// An empty window.
    pub fn new() -> (r: Self)
        ensures
            r@ == Seq::<Seq<i64>>::empty(),
    {
        let r = StabilityWindow { snapshots: VecDeque::new() };
        proof {
            assert(r@ =~= Seq::<Seq<i64>>::empty());
        }
        r
    }

    /// Records one generation's dominant set; once the window is full the
    /// oldest snapshot is dropped.
    pub fn push(&mut self, snapshot: [i64; MAX_TOP_GENOTYPES])
        requires
            old(self)@.len() <= STABILITY_WINDOW,
        ensures
            final(self)@ == if old(self)@.len() < STABILITY_WINDOW {
                old(self)@.push(snapshot@)
            } else {
                old(self)@.drop_first().push(snapshot@)
            },
            final(self)@.len() <= STABILITY_WINDOW,
    {
        let ghost start = self@;
        if self.snapshots.len() >= STABILITY_WINDOW {
            self.snapshots.pop_front();
            proof {
                assert(self@ =~= start.drop_first());
            }
        }
        let ghost mid = self@;
        self.snapshots.push_back(snapshot);
        proof {
            assert(self@ =~= mid.push(snapshot@));
        }
    }

    /// Number of snapshots in the window.
    pub fn len(&self) -> (r: usize)
        ensures
            r == self@.len(),
    {
        self.snapshots.len()
    }

    /// The window is full and every snapshot in it equals the most recent
    /// one.
    pub fn stable_state(&self) -> (r: bool)
        ensures
            r == (self@.len() == STABILITY_WINDOW && forall|i: int|
                0 <= i < self@.len() ==> #[trigger] self@[i] == self@.last()),
    {
        let n = self.snapshots.len();
        if n != STABILITY_WINDOW {
            return false;
        }
        let newest = &self.snapshots[n - 1];
        let mut i: usize = 0;
        while i < n
            invariant
                i <= n,
                n == self@.len(),
                n == STABILITY_WINDOW,
                newest@ == self@.last(),
                forall|k: int| 0 <= k < i ==> #[trigger] self@[k] == self@.last(),
            decreases n - i,
        {
            proof {
                assert(self@[i as int] == self.snapshots@[i as int]@);
            }
            if !same_snapshot(&self.snapshots[i], newest) {
                return false;
            }
            i = i + 1;
        }
        true
    }
}

} // verus!
