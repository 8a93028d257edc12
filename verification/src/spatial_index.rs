use vstd::prelude::*;
use crate::constants::PARTICLE_COUNT;
use crate::spatial_hashing::{
    cell_hashable, cell_key, coords_key, get_cell_key, lemma_hash_sum_monotone,
    neighbourhood_hashable, offset_coord,
};

verus! {

/// Number of slots in each table of the index.
pub open spec fn slot_count() -> int {
    PARTICLE_COUNT as int
}

/// The keys never decrease from one slot to the next.
pub open spec fn is_sorted(s: Seq<usize>) -> bool {
    forall|i: int, j: int| 0 <= i <= j < s.len() ==> s[i] <= s[j]
}

/// Some entry of `s` is `p`.
pub open spec fn holds_value(s: Seq<usize>, p: int) -> bool {
    exists|i: int| 0 <= i < s.len() && s[i] == p
}

/// `s` holds each of `0 .. s.len()` exactly once.
pub open spec fn is_index_permutation(s: Seq<usize>) -> bool {
    &&& forall|i: int| 0 <= i < s.len() ==> s[i] < s.len()
    &&& forall|i: int, j: int| 0 <= i < s.len() && 0 <= j < s.len() && i != j ==> s[i] != s[j]
    &&& forall|p: int| 0 <= p < s.len() ==> #[trigger] holds_value(s, p)
}

/// `s` is the first slot that holds key `k`.
pub open spec fn is_first_position(keys: Seq<usize>, k: int, s: int) -> bool {
    &&& 0 <= s < keys.len()
    &&& keys[s] == k
    &&& forall|j: int| 0 <= j < s ==> keys[j] != k
}

/// Some slot before slot `i` holds key `k`.
pub open spec fn key_occurs_before(keys: Seq<usize>, k: int, i: int) -> bool {
    exists|j: int| 0 <= j < i && j < keys.len() && keys[j] == k
}

/// For every key that occurs, the start table holds its first slot.
pub open spec fn starts_match(keys: Seq<usize>, starts: Seq<usize>) -> bool {
    forall|i: int|
        0 <= i < keys.len() ==> is_first_position(
            keys,
            keys[i] as int,
            #[trigger] starts[keys[i] as int] as int,
        )
}

/// The key of each slot, computed from the cell of the particle that the slot
/// names.
pub open spec fn slot_keys(indexes: Seq<usize>, cells: Seq<(i64, i64)>) -> Seq<usize> {
    Seq::new(indexes.len(), |i: int| cell_key(cells[indexes[i] as int]) as usize)
}

/// `s` with the entries at `i` and `j` exchanged.
pub open spec fn swap_entries(s: Seq<usize>, i: int, j: int) -> Seq<usize> {
    Seq::new(s.len(), |k: int| if k == i { s[j] } else if k == j { s[i] } else { s[k] })
}

/// `m` is the first slot at or after `i` whose key is the smallest there.
pub open spec fn is_first_min(keys: Seq<usize>, i: int, m: int) -> bool {
    &&& 0 <= i <= m < keys.len()
    &&& forall|k: int| i <= k < keys.len() ==> keys[m] <= keys[k]
    &&& forall|k: int| i <= k < m ==> keys[m] < keys[k]
}

/// The first slot at or after `i` whose key is the smallest there.
pub open spec fn first_min(keys: Seq<usize>, i: int) -> int {
    choose|m: int| is_first_min(keys, i, m)
}

/// Selection sort of the keys from slot `i` on, carrying the particle indexes
/// along: each pass exchanges slot `i` with the first smallest key after it.
pub open spec fn selection_sort_from(keys: Seq<usize>, indexes: Seq<usize>, i: int) -> (
    Seq<usize>,
    Seq<usize>,
)
    decreases keys.len() - i,
{
    if i < 0 || i >= keys.len() {
        (keys, indexes)
    } else {
        let m = first_min(keys, i);
        selection_sort_from(swap_entries(keys, i, m), swap_entries(indexes, i, m), i + 1)
    }
}

/// The first slot at or after `j` that does not hold key `k`, or the table's
/// length.
pub open spec fn run_end(keys: Seq<usize>, j: int, k: int) -> int
    decreases keys.len() - j,
{
    if j < 0 || j >= keys.len() || keys[j] != k {
        j
    } else {
        run_end(keys, j + 1, k)
    }
}

/// The key of the `t`-th cell around `cell` (`t` in `0 .. 9`), column by
/// column from the lower left.
pub open spec fn neighbour_key(cell: (i64, i64), t: int) -> int {
    coords_key(cell.0 + (t / 3 - 1), cell.1 + (t % 3 - 1))
}

/// Only one slot is the first smallest key at or after slot `i`.
pub proof fn lemma_first_min_unique(keys: Seq<usize>, i: int, m: int)
    requires
        is_first_min(keys, i, m),
    ensures
        first_min(keys, i) == m,
{
    let c = first_min(keys, i);
    assert(is_first_min(keys, i, c));
    if c < m {
        assert(keys[m] < keys[c]);
    } else if m < c {
        assert(keys[c] < keys[m]);
    }
}

/// Exchanging two entries keeps a permutation a permutation.
pub proof fn lemma_swap_keeps_permutation(s: Seq<usize>, i: int, j: int)
    requires
        is_index_permutation(s),
        0 <= i < s.len(),
        0 <= j < s.len(),
    ensures
        is_index_permutation(swap_entries(s, i, j)),
{
    let t = swap_entries(s, i, j);
    assert forall|a: int, b: int| 0 <= a < t.len() && 0 <= b < t.len() && a != b implies t[a]
        != t[b] by {
        let sa = if a == i { j } else if a == j { i } else { a };
        let sb = if b == i { j } else if b == j { i } else { b };
        assert(t[a] == s[sa]);
        assert(t[b] == s[sb]);
    }
    assert forall|p: int| 0 <= p < t.len() implies #[trigger] holds_value(t, p) by {
        assert(holds_value(s, p));
        let w = choose|w: int| 0 <= w < s.len() && s[w] == p;
        let v = if w == i { j } else if w == j { i } else { w };
        assert(t[v] == p);
    }
}

/// The run of slots holding `k` that begins at `j` ends at `run_end`: every
/// slot in between holds `k`, and the slot at the end does not.
pub proof fn lemma_run_end(keys: Seq<usize>, j: int, k: int)
    requires
        0 <= j <= keys.len(),
    ensures
        j <= run_end(keys, j, k) <= keys.len(),
        forall|m: int| j <= m < run_end(keys, j, k) ==> keys[m] == k,
        run_end(keys, j, k) == keys.len() || keys[run_end(keys, j, k)] != k,
    decreases keys.len() - j,
{
    if j < keys.len() && keys[j] == k {
        lemma_run_end(keys, j + 1, k);
    }
}

/// Selection sort leaves sorted keys, and the particle indexes with them, as
/// they are: each pass finds its smallest key already in place.
pub proof fn lemma_selection_sort_keeps_sorted(keys: Seq<usize>, indexes: Seq<usize>, i: int)
    requires
        is_sorted(keys),
        0 <= i,
        indexes.len() == keys.len(),
    ensures
        selection_sort_from(keys, indexes, i) == (keys, indexes),
    decreases keys.len() - i,
{
    if i < keys.len() {
        assert(is_first_min(keys, i, i));
        lemma_first_min_unique(keys, i, i);
        assert(swap_entries(keys, i, i) =~= keys);
        assert(swap_entries(indexes, i, i) =~= indexes);
        lemma_selection_sort_keeps_sorted(keys, indexes, i + 1);
    }
}

/// A key has only one first slot.
pub proof fn lemma_first_position_unique(keys: Seq<usize>, k: int, a: int, b: int)
    requires
        is_first_position(keys, k, a),
        is_first_position(keys, k, b),
    ensures
        a == b,
{
    if a < b {
        assert(keys[a] == k);
    } else if b < a {
        assert(keys[b] == k);
    }
}

/// The particle tables of a spatial hash: which particle each slot names,
/// each slot's bucket key, and for each key the slot where its bucket begins.
pub struct SpatialIndex {
    particle_indexes: Vec<usize>,
    particle_start_indexes: Vec<usize>,
    particle_cell_keys: Vec<usize>,
}

impl SpatialIndex {
    /// The particle that each slot names.
    pub closed spec fn indexes(&self) -> Seq<usize> {
        self.particle_indexes@
    }

    /// For each bucket key, the slot where the bucket begins.
    pub closed spec fn starts(&self) -> Seq<usize> {
        self.particle_start_indexes@
    }

    /// The bucket key of each slot.
    pub closed spec fn keys(&self) -> Seq<usize> {
        self.particle_cell_keys@
    }

    /// The tables have one slot per particle, the slots name each particle
    /// once, the keys are sorted bucket keys, and the start table holds the
    /// first slot of every bucket that occurs and a slot in range for the rest.
    pub open spec fn wf(&self) -> bool {
        &&& self.indexes().len() == slot_count()
        &&& self.keys().len() == slot_count()
        &&& self.starts().len() == slot_count()
        &&& is_index_permutation(self.indexes())
        &&& is_sorted(self.keys())
        &&& (forall|i: int| 0 <= i < slot_count() ==> self.keys()[i] < slot_count())
        &&& (forall|k: int| 0 <= k < slot_count() ==> self.starts()[k] < slot_count())
        &&& starts_match(self.keys(), self.starts())
    }

    /// Each slot's key is the key of the cell of the particle it names.
    pub open spec fn keys_match(&self, cells: Seq<(i64, i64)>) -> bool {
        forall|i: int|
            0 <= i < slot_count() ==> self.keys()[i] == cell_key(
                cells[#[trigger] self.indexes()[i] as int],
            )
    }

    /// The particles of the bucket with key `k`, in slot order: those named
    /// from the bucket's start slot up to the first slot with another key.
    pub open spec fn members(&self, k: int) -> Seq<usize> {
        let s = self.starts()[k] as int;
        self.indexes().subrange(s, run_end(self.keys(), s, k))
    }

    /// The particles of the buckets of the first `t` cells around `cell`, in
    /// the order they are visited.
    pub open spec fn neighbours_up_to(&self, cell: (i64, i64), t: int) -> Seq<usize>
        decreases t,
    {
        if t <= 0 {
            Seq::empty()
        } else {
            self.neighbours_up_to(cell, t - 1) + self.members(neighbour_key(cell, t - 1))
        }
    }

    /// The particles of the buckets of the nine cells around `cell`.
    pub open spec fn neighbour_particles(&self, cell: (i64, i64)) -> Seq<usize> {
        self.neighbours_up_to(cell, 9)
    }

    /// Tables in their starting state: slot `i` names particle `i`, every key
    /// and every start slot is 0.
    pub fn new() -> (r: Self)
        ensures
            r.wf(),
            forall|i: int| 0 <= i < slot_count() ==> r.indexes()[i] == i,
            forall|i: int| 0 <= i < slot_count() ==> r.keys()[i] == 0,
            forall|k: int| 0 <= k < slot_count() ==> r.starts()[k] == 0,
    {
        let n: usize = PARTICLE_COUNT as usize;
        let mut indexes: Vec<usize> = Vec::new();
        let mut starts: Vec<usize> = Vec::new();
        let mut keys: Vec<usize> = Vec::new();
        let mut i: usize = 0;
        while i < n
            invariant
                n == slot_count(),
                i <= n,
                indexes.len() == i,
                starts.len() == i,
                keys.len() == i,
                forall|j: int| 0 <= j < i ==> indexes@[j] == j,
                forall|j: int| 0 <= j < i ==> starts@[j] == 0,
                forall|j: int| 0 <= j < i ==> keys@[j] == 0,
            decreases n - i,
        {
            indexes.push(i);
            starts.push(0);
            keys.push(0);
            i = i + 1;
        }
        let r = SpatialIndex {
            particle_indexes: indexes,
            particle_start_indexes: starts,
            particle_cell_keys: keys,
        };
        assert forall|p: int| 0 <= p < slot_count() implies #[trigger] holds_value(r.indexes(), p) by {
            assert(r.indexes()[p] == p);
        }
        r
    }

    /// Exchanges two slots of the key and particle tables together.
    fn swap_slots(&mut self, a: usize, b: usize)
        requires
            a < old(self).keys().len(),
            b < old(self).keys().len(),
            old(self).indexes().len() == old(self).keys().len(),
        ensures
            final(self).keys() == swap_entries(old(self).keys(), a as int, b as int),
            final(self).indexes() == swap_entries(old(self).indexes(), a as int, b as int),
            final(self).starts() == old(self).starts(),
    {
        let ka = self.particle_cell_keys[a];
        let kb = self.particle_cell_keys[b];
        self.particle_cell_keys.set(a, kb);
        self.particle_cell_keys.set(b, ka);
        let pa = self.particle_indexes[a];
        let pb = self.particle_indexes[b];
        self.particle_indexes.set(a, pb);
        self.particle_indexes.set(b, pa);
        assert(self.keys() =~= swap_entries(old(self).keys(), a as int, b as int));
        assert(self.indexes() =~= swap_entries(old(self).indexes(), a as int, b as int));
    }

    /// Sets the key of every slot to the key of its particle's cell.
    fn compute_cell_keys(&mut self, cells: &Vec<(i64, i64)>)
        requires
            old(self).indexes().len() == slot_count(),
            old(self).keys().len() == slot_count(),
            is_index_permutation(old(self).indexes()),
            cells.len() == slot_count(),
            forall|p: int| 0 <= p < slot_count() ==> cell_hashable(#[trigger] cells@[p]),
        ensures
            final(self).keys() == slot_keys(old(self).indexes(), cells@),
            final(self).indexes() == old(self).indexes(),
            final(self).starts() == old(self).starts(),
    {
        let n: usize = PARTICLE_COUNT as usize;
        let mut i: usize = 0;
        while i < n
            invariant
                n == slot_count(),
                i <= n,
                self.keys().len() == n,
                self.indexes().len() == n,
                self.indexes() == old(self).indexes(),
                self.starts() == old(self).starts(),
                is_index_permutation(self.indexes()),
                cells.len() == n,
                forall|p: int| 0 <= p < slot_count() ==> cell_hashable(#[trigger] cells@[p]),
                forall|j: int|
                    0 <= j < i ==> self.keys()[j] == cell_key(
                        cells@[self.indexes()[j] as int],
                    ) as usize,
            decreases n - i,
        {
            let p = self.particle_indexes[i];
            let key = get_cell_key(cells[p]);
            self.particle_cell_keys.set(i, key);
            i = i + 1;
        }
        assert(self.keys() =~= slot_keys(old(self).indexes(), cells@));
    }

    /// Selection sort of the slots by key: pass `i` exchanges slot `i` with
    /// the first slot at or after it that holds the smallest key there.
    fn sort_by_cell_key(&mut self, Ghost(cells): Ghost<Seq<(i64, i64)>>)
        requires
            old(self).indexes().len() == slot_count(),
            old(self).keys().len() == slot_count(),
            is_index_permutation(old(self).indexes()),
            forall|i: int| 0 <= i < slot_count() ==> old(self).keys()[i] < slot_count(),
            forall|i: int|
                0 <= i < slot_count() ==> old(self).keys()[i] == cell_key(
                    cells[#[trigger] old(self).indexes()[i] as int],
                ),
        ensures
            (final(self).keys(), final(self).indexes()) == selection_sort_from(
                old(self).keys(),
                old(self).indexes(),
                0,
            ),
            final(self).starts() == old(self).starts(),
            final(self).indexes().len() == slot_count(),
            final(self).keys().len() == slot_count(),
            is_index_permutation(final(self).indexes()),
            is_sorted(final(self).keys()),
            forall|i: int| 0 <= i < slot_count() ==> final(self).keys()[i] < slot_count(),
            forall|i: int|
                0 <= i < slot_count() ==> final(self).keys()[i] == cell_key(
                    cells[#[trigger] final(self).indexes()[i] as int],
                ),
    {
        let n: usize = PARTICLE_COUNT as usize;
        let ghost k0 = self.keys();
        let ghost i0 = self.indexes();
        let mut i: usize = 0;
        while i < n
            invariant
                n == slot_count(),
                i <= n,
                self.keys().len() == n,
                self.indexes().len() == n,
                self.starts() == old(self).starts(),
                is_index_permutation(self.indexes()),
                forall|a: int| 0 <= a < n ==> self.keys()[a] < n,
                forall|a: int|
                    0 <= a < n ==> self.keys()[a] == cell_key(
                        cells[#[trigger] self.indexes()[a] as int],
                    ),
                forall|a: int, b: int| 0 <= a <= b < n && a < i ==> self.keys()[a] <= self.keys()[b],
                selection_sort_from(self.keys(), self.indexes(), i as int) == selection_sort_from(
                    k0,
                    i0,
                    0,
                ),
            decreases n - i,
        {
            let mut low: usize = self.particle_cell_keys[i];
            let mut low_i: usize = i;
            let mut j: usize = i;
            while j < n
                invariant
                    n == slot_count(),
                    i < n,
                    i <= j <= n,
                    i <= low_i < n,
                    self.keys().len() == n,
                    low == self.keys()[low_i as int],
                    forall|k: int| i <= k < j ==> low <= self.keys()[k],
                    forall|k: int| i <= k < low_i ==> low < self.keys()[k],
                decreases n - j,
            {
                if self.particle_cell_keys[j] < low {
                    low = self.particle_cell_keys[j];
                    low_i = j;
                }
                j = j + 1;
            }
            let ghost pre_k = self.keys();
            let ghost pre_i = self.indexes();
            proof {
                assert(is_first_min(pre_k, i as int, low_i as int));
                lemma_first_min_unique(pre_k, i as int, low_i as int);
                lemma_swap_keeps_permutation(pre_i, i as int, low_i as int);
            }
            self.swap_slots(i, low_i);
            proof {
                let k1 = self.keys();
                let m = low_i as int;
                assert forall|a: int, b: int| 0 <= a <= b < n && a < i + 1 implies k1[a] <= k1[b] by {
                    let sb = if b == i { m } else if b == m { i as int } else { b };
                    assert(k1[b] == pre_k[sb]);
                    if a < i {
                        assert(k1[a] == pre_k[a]);
                    } else {
                        assert(k1[a] == pre_k[m]);
                    }
                }
                assert forall|a: int| 0 <= a < n implies self.keys()[a] == cell_key(
                    cells[#[trigger] self.indexes()[a] as int],
                ) by {
                    let sa = if a == i { m } else if a == m { i as int } else { a };
                    assert(self.keys()[a] == pre_k[sa]);
                    assert(self.indexes()[a] == pre_i[sa]);
                }
            }
            i = i + 1;
        }
    }

    /// Records, for each key in the sorted key table, the slot where its run
    /// of slots begins; the start slots of keys that do not occur stay as
    /// they were.
    fn fill_start_indexes(&mut self)
        requires
            old(self).keys().len() == slot_count(),
            old(self).starts().len() == slot_count(),
            is_sorted(old(self).keys()),
            forall|i: int| 0 <= i < slot_count() ==> old(self).keys()[i] < slot_count(),
            forall|k: int| 0 <= k < slot_count() ==> old(self).starts()[k] < slot_count(),
        ensures
            final(self).keys() == old(self).keys(),
            final(self).indexes() == old(self).indexes(),
            final(self).starts().len() == slot_count(),
            starts_match(final(self).keys(), final(self).starts()),
            forall|k: int| 0 <= k < slot_count() ==> final(self).starts()[k] < slot_count(),
            forall|k: int|
                0 <= k < slot_count() && !key_occurs_before(final(self).keys(), k, slot_count())
                    ==> final(self).starts()[k] == old(self).starts()[k],
    {
        let n: usize = PARTICLE_COUNT as usize;
        let mut current_index: usize = (PARTICLE_COUNT + 1) as usize;
        let mut i: usize = 0;
        while i < n
            invariant
                n == slot_count(),
                i <= n,
                self.keys() == old(self).keys(),
                self.indexes() == old(self).indexes(),
                self.keys().len() == n,
                self.starts().len() == n,
                is_sorted(self.keys()),
                forall|a: int| 0 <= a < n ==> self.keys()[a] < n,
                forall|k: int| 0 <= k < n ==> self.starts()[k] < n,
                i == 0 ==> current_index == n + 1,
                i > 0 ==> current_index == self.keys()[i - 1],
                forall|j: int|
                    0 <= j < i ==> is_first_position(
                        self.keys(),
                        self.keys()[j] as int,
                        #[trigger] self.starts()[self.keys()[j] as int] as int,
                    ),
                forall|k: int|
                    0 <= k < n && !key_occurs_before(self.keys(), k, i as int)
                        ==> self.starts()[k] == old(self).starts()[k],
            decreases n - i,
        {
            let key = self.particle_cell_keys[i];
            let ghost pre_s = self.starts();
            let ghost keys = self.keys();
            if key != current_index {
                proof {
                    assert forall|j: int| 0 <= j < i implies keys[j] != key by {
                        assert(keys[j] <= keys[i - 1]);
                    }
                }
                self.particle_start_indexes.set(key, i);
                current_index = key;
                proof {
                    assert forall|j: int| 0 <= j < i + 1 implies is_first_position(
                        keys,
                        keys[j] as int,
                        #[trigger] self.starts()[keys[j] as int] as int,
                    ) by {
                        if j < i {
                            assert(self.starts()[keys[j] as int] == pre_s[keys[j] as int]);
                        }
                    }
                }
            } else {
                proof {
                    assert(self.starts()[keys[i - 1] as int] == pre_s[keys[i - 1] as int]);
                }
            }
            proof {
                assert forall|k: int|
                    0 <= k < n && !key_occurs_before(keys, k, i + 1) implies self.starts()[k]
                    == old(self).starts()[k] by {
                    if key_occurs_before(keys, k, i as int) {
                        let w = choose|w: int| 0 <= w < i && w < keys.len() && keys[w] == k;
                        assert(0 <= w < i + 1 && w < keys.len() && keys[w] == k);
                    }
                    assert(keys[i as int] != k);
                }
            }
            i = i + 1;
        }
    }

    /// Sorts the particles into the buckets of their cells.
    ///
    /// `cells[p]` is the cell of particle `p`. Each slot first takes the key of
    /// the cell of the particle it names; the slots are then selection-sorted
    /// by key, carrying the particle indexes along; last, the start table
    /// records where each key's run of slots begins.
    pub fn update_cell_particles(&mut self, cells: &Vec<(i64, i64)>)
        requires
            old(self).wf(),
            cells.len() == slot_count(),
            forall|p: int| 0 <= p < slot_count() ==> cell_hashable(#[trigger] cells@[p]),
        ensures
            final(self).wf(),
            final(self).keys_match(cells@),
            (final(self).keys(), final(self).indexes()) == selection_sort_from(
                slot_keys(old(self).indexes(), cells@),
                old(self).indexes(),
                0,
            ),
            forall|k: int|
                0 <= k < slot_count() && !key_occurs_before(final(self).keys(), k, slot_count())
                    ==> final(self).starts()[k] == old(self).starts()[k],
            old(self).keys_match(cells@) ==> final(self).keys() == old(self).keys()
                && final(self).indexes() == old(self).indexes() && final(self).starts() == old(
                self,
            ).starts(),
    {
        let ghost old_self = *self;
        self.compute_cell_keys(cells);
        proof {
            let idx = self.indexes();
            assert forall|i: int| 0 <= i < slot_count() implies self.keys()[i] == cell_key(
                cells@[#[trigger] idx[i] as int],
            ) && self.keys()[i] < slot_count() by {
                assert(idx[i] < slot_count());
            }
        }
        self.sort_by_cell_key(Ghost(cells@));
        self.fill_start_indexes();
        proof {
            if old_self.keys_match(cells@) {
                assert(slot_keys(old_self.indexes(), cells@) =~= old_self.keys());
                lemma_selection_sort_keeps_sorted(old_self.keys(), old_self.indexes(), 0);
                let ks = self.keys();
                assert forall|k: int| 0 <= k < slot_count() implies self.starts()[k]
                    == old_self.starts()[k] by {
                    if key_occurs_before(ks, k, slot_count()) {
                        let w = choose|w: int| 0 <= w < slot_count() && w < ks.len() && ks[w] == k;
                        assert(is_first_position(ks, ks[w] as int, self.starts()[ks[w] as int] as int));
                        assert(is_first_position(ks, ks[w] as int, old_self.starts()[ks[w] as int] as int));
                        lemma_first_position_unique(ks, k, self.starts()[k] as int, old_self.starts()[k] as int);
                    }
                }
                assert(self.starts() =~= old_self.starts());
            }
        }
    }

    /// In a well-formed index, the run of slots that the start table gives
    /// for key `k` is exactly the set of slots holding `k`.
    pub proof fn lemma_bucket_slots(&self, k: int)
        requires
            self.wf(),
            0 <= k < slot_count(),
        ensures
            self.starts()[k] <= run_end(self.keys(), self.starts()[k] as int, k) <= slot_count(),
            forall|j: int|
                0 <= j < slot_count() ==> (self.keys()[j] == k <==> self.starts()[k] <= j
                    < run_end(self.keys(), self.starts()[k] as int, k)),
    {
        let keys = self.keys();
        let st = self.starts()[k] as int;
        lemma_run_end(keys, st, k);
        let e = run_end(keys, st, k);
        if key_occurs_before(keys, k, slot_count()) {
            let w = choose|w: int| 0 <= w < slot_count() && w < keys.len() && keys[w] == k;
            assert(is_first_position(keys, keys[w] as int, self.starts()[keys[w] as int] as int));
            assert forall|j: int| 0 <= j < slot_count() && keys[j] == k implies st <= j < e by {
                if e <= j {
                    assert(keys[st] <= keys[e] <= keys[j]);
                }
            }
        } else {
            assert(keys[st] != k);
        }
    }

    /// Bucket lookup: after the particles have been sorted into buckets by
    /// their cells, the bucket of key `k` holds particle `p` exactly when `p`'s
    /// cell has key `k`, and holds no particle twice.
    pub proof fn lemma_bucket_holds_its_cells(&self, cells: Seq<(i64, i64)>, k: int, p: int)
        requires
            self.wf(),
            self.keys_match(cells),
            0 <= k < slot_count(),
            0 <= p < slot_count(),
        ensures
            self.members(k).contains(p as usize) <==> cell_key(cells[p]) == k,
            self.members(k).no_duplicates(),
    {
        self.lemma_bucket_slots(k);
        let st = self.starts()[k] as int;
        let e = run_end(self.keys(), st, k);
        let m = self.members(k);
        let idx = self.indexes();
        if m.contains(p as usize) {
            let a = choose|a: int| 0 <= a < m.len() && m[a] == p as usize;
            assert(idx[st + a] == p);
            assert(self.keys()[st + a] == k);
        }
        if cell_key(cells[p]) == k {
            assert(holds_value(idx, p));
            let w = choose|w: int| 0 <= w < idx.len() && idx[w] == p;
            assert(self.keys()[w] == cell_key(cells[idx[w] as int]));
            assert(m[w - st] == p);
        }
        assert forall|a: int, b: int| 0 <= a < m.len() && 0 <= b < m.len() && a != b implies m[a]
            != m[b] by {
            assert(m[a] == idx[st + a]);
            assert(m[b] == idx[st + b]);
        }
    }

    /// The particles of the buckets of the nine cells around `cell`, in the
    /// order the cells are visited: column by column from the lower left.
    pub fn neighbours(&self, cell_pos: (i64, i64)) -> (r: Vec<usize>)
        requires
            self.wf(),
            neighbourhood_hashable(cell_pos),
        ensures
            r@ == self.neighbour_particles(cell_pos),
    {
        let n: usize = PARTICLE_COUNT as usize;
        let mut result: Vec<usize> = Vec::new();
        let mut t: usize = 0;
        while t < 9
            invariant
                n == slot_count(),
                t <= 9,
                self.wf(),
                neighbourhood_hashable(cell_pos),
                result@ == self.neighbours_up_to(cell_pos, t as int),
            decreases 9 - t,
        {
            let x_dif: i64 = (t / 3) as i64 - 1;
            let y_dif: i64 = (t % 3) as i64 - 1;
            let x = offset_coord(cell_pos.0, x_dif);
            let y = offset_coord(cell_pos.1, y_dif);
            proof {
                lemma_hash_sum_monotone(
                    cell_pos.0 + x_dif,
                    cell_pos.1 + y_dif,
                    cell_pos.0 + 1,
                    cell_pos.1 + 1,
                );
            }
            let cell_key = get_cell_key((x, y));
            let start = self.particle_start_indexes[cell_key];
            proof {
                lemma_run_end(self.keys(), start as int, cell_key as int);
            }
            let mut j: usize = start;
            while j < n && self.particle_cell_keys[j] == cell_key
                invariant
                    n == slot_count(),
                    self.wf(),
                    start <= j <= n,
                    cell_key < n,
                    run_end(self.keys(), start as int, cell_key as int) == run_end(
                        self.keys(),
                        j as int,
                        cell_key as int,
                    ),
                    result@ == self.neighbours_up_to(cell_pos, t as int) + self.indexes().subrange(
                        start as int,
                        j as int,
                    ),
                decreases n - j,
            {
                result.push(self.particle_indexes[j]);
                j = j + 1;
                assert(self.indexes().subrange(start as int, j as int) =~= self.indexes().subrange(
                    start as int,
                    j - 1,
                ).push(self.indexes()[j - 1]));
            }
            assert(cell_key == neighbour_key(cell_pos, t as int));
            assert(result@ =~= self.neighbours_up_to(cell_pos, t as int + 1));
            t = t + 1;
        }
        result
    }

    /// A particle is among those gathered from the first `t` cells around
    /// `cell` exactly when its cell's key is the key of one of those cells.
    pub proof fn lemma_neighbours_up_to(&self, cells: Seq<(i64, i64)>, cell: (i64, i64), t: int, p: int)
        requires
            self.wf(),
            self.keys_match(cells),
            0 <= t <= 9,
            0 <= p < slot_count(),
        ensures
            self.neighbours_up_to(cell, t).contains(p as usize) <==> exists|u: int|
                0 <= u < t && cell_key(cells[p]) == #[trigger] neighbour_key(cell, u),
        decreases t,
    {
        if t > 0 {
            self.lemma_neighbours_up_to(cells, cell, t - 1, p);
            let k = neighbour_key(cell, t - 1);
            self.lemma_bucket_holds_its_cells(cells, k, p);
            let a = self.neighbours_up_to(cell, t - 1);
            let b = self.members(k);
            let c = self.neighbours_up_to(cell, t);
            assert(c == a + b);
            if c.contains(p as usize) {
                let i = choose|i: int| 0 <= i < c.len() && c[i] == p as usize;
                if i < a.len() {
                    assert(a[i] == p as usize);
                    let u = choose|u: int|
                        0 <= u < t - 1 && cell_key(cells[p]) == #[trigger] neighbour_key(cell, u);
                    assert(0 <= u < t && cell_key(cells[p]) == neighbour_key(cell, u));
                } else {
                    assert(b[i - a.len()] == p as usize);
                }
            }
            if exists|u: int| 0 <= u < t && cell_key(cells[p]) == #[trigger] neighbour_key(cell, u) {
                let u = choose|u: int|
                    0 <= u < t && cell_key(cells[p]) == #[trigger] neighbour_key(cell, u);
                if u < t - 1 {
                    let i = choose|i: int| 0 <= i < a.len() && a[i] == p as usize;
                    assert(c[i] == p as usize);
                } else {
                    let i = choose|i: int| 0 <= i < b.len() && b[i] == p as usize;
                    assert(c[a.len() + i] == p as usize);
                }
            }
        }
    }

    /// Neighbour lookup: after the particles have been sorted into buckets by
    /// their cells, the particles gathered around `cell` are exactly those
    /// whose cell shares a key with one of the nine cells around `cell`.
    pub proof fn lemma_neighbours_share_a_key(&self, cells: Seq<(i64, i64)>, cell: (i64, i64), p: int)
        requires
            self.wf(),
            self.keys_match(cells),
            0 <= p < slot_count(),
        ensures
            self.neighbour_particles(cell).contains(p as usize) <==> exists|t: int|
                0 <= t < 9 && cell_key(cells[p]) == #[trigger] neighbour_key(cell, t),
    {
        self.lemma_neighbours_up_to(cells, cell, 9, p);
    }

    /// No particle near `cell` is missed: every particle whose cell lies
    /// within one step of `cell`, diagonals included, is gathered.
    pub proof fn lemma_neighbours_include_adjacent(&self, cells: Seq<(i64, i64)>, cell: (i64, i64), p: int)
        requires
            self.wf(),
            self.keys_match(cells),
            0 <= p < slot_count(),
            -1 <= cells[p].0 - cell.0 <= 1,
            -1 <= cells[p].1 - cell.1 <= 1,
        ensures
            self.neighbour_particles(cell).contains(p as usize),
    {
        let dx = cells[p].0 - cell.0;
        let dy = cells[p].1 - cell.1;
        let t = (dx + 1) * 3 + (dy + 1);
        assert(t / 3 - 1 == dx && t % 3 - 1 == dy) by {
            if dx == -1 {
                if dy == -1 { assert(t == 0); } else if dy == 0 { assert(t == 1); } else { assert(t == 2); }
            } else if dx == 0 {
                if dy == -1 { assert(t == 3); } else if dy == 0 { assert(t == 4); } else { assert(t == 5); }
            } else {
                if dy == -1 { assert(t == 6); } else if dy == 0 { assert(t == 7); } else { assert(t == 8); }
            }
        }
        assert(cell_key(cells[p]) == neighbour_key(cell, t));
        self.lemma_neighbours_share_a_key(cells, cell, p);
    }

    /// The particle that each slot names.
    pub fn particle_indexes(&self) -> (r: &[usize])
        ensures
            r@ == self.indexes(),
    {
        self.particle_indexes.as_slice()
    }

    /// The bucket key of each slot.
    pub fn particle_cell_keys(&self) -> (r: &[usize])
        ensures
            r@ == self.keys(),
    {
        self.particle_cell_keys.as_slice()
    }

    /// For each bucket key, the slot where the bucket begins.
    pub fn particle_start_indexes(&self) -> (r: &[usize])
        ensures
            r@ == self.starts(),
    {
        self.particle_start_indexes.as_slice()
    }

    /// Neighbour lookup, cell by cell: a particle is gathered around `cell`
    /// exactly when its cell's key is the key of a cell at most one step from
    /// `cell` in each direction.
    pub proof fn lemma_neighbours_within_one_step(
        &self,
        cells: Seq<(i64, i64)>,
        cell: (i64, i64),
        p: int,
    )
        requires
            self.wf(),
            self.keys_match(cells),
            0 <= p < slot_count(),
        ensures
            self.neighbour_particles(cell).contains(p as usize) <==> exists|dx: int, dy: int|
                -1 <= dx <= 1 && -1 <= dy <= 1 && cell_key(cells[p]) == #[trigger] coords_key(
                    cell.0 + dx,
                    cell.1 + dy,
                ),
    {
        self.lemma_neighbours_share_a_key(cells, cell, p);
        if self.neighbour_particles(cell).contains(p as usize) {
            let t = choose|t: int| 0 <= t < 9 && cell_key(cells[p]) == #[trigger] neighbour_key(cell, t);
            let dx = t / 3 - 1;
            let dy = t % 3 - 1;
            assert(cell_key(cells[p]) == coords_key(cell.0 + dx, cell.1 + dy));
        }
        if exists|dx: int, dy: int|
            -1 <= dx <= 1 && -1 <= dy <= 1 && cell_key(cells[p]) == #[trigger] coords_key(
                cell.0 + dx,
                cell.1 + dy,
            ) {
            let (dx, dy) = choose|dx: int, dy: int|
                -1 <= dx <= 1 && -1 <= dy <= 1 && cell_key(cells[p]) == #[trigger] coords_key(
                    cell.0 + dx,
                    cell.1 + dy,
                );
            let t = (dx + 1) * 3 + (dy + 1);
            assert(t / 3 - 1 == dx && t % 3 - 1 == dy) by {
                if dx == -1 {
                    if dy == -1 { assert(t == 0); } else if dy == 0 { assert(t == 1); } else { assert(t == 2); }
                } else if dx == 0 {
                    if dy == -1 { assert(t == 3); } else if dy == 0 { assert(t == 4); } else { assert(t == 5); }
                } else {
                    if dy == -1 { assert(t == 6); } else if dy == 0 { assert(t == 7); } else { assert(t == 8); }
                }
            }
            assert(cell_key(cells[p]) == neighbour_key(cell, t));
        }
    }
}

} // verus!
