//! The Bentley-Saxe transformation: a dynamic set built from a static one.
//! Level `i` is either empty or a static structure holding `2^i` keys; an
//! insertion merges the full levels from the bottom up into the first empty
//! one.

use vstd::prelude::*;
use vstd::arithmetic::power2::{
    pow2, lemma_pow2_unfold, lemma_pow2_pos, lemma_pow2_adds, lemma2_to64,
};
use vstd::arithmetic::div_mod::{
    lemma_basic_div, lemma_hoist_over_denominator, lemma_mod_multiples_vanish,
};
use crate::hash_tabela::{
    ConstructionFailed, PerfectHashSet, PRIME, construction_may_fail, has_distinct_congruent_keys,
    lemma_construction_may_fail_needs_two_keys,
    lemma_strictly_increasing_no_duplicates,
};

verus! {

pub type BentleySaxeDynamicHashSet = BentleySaxe<PerfectHashSet>;

pub type Key = u64;

/// What a static structure must offer to be turned into a dynamic one.
pub trait DynamicStructure: Sized {
    /// The keys the structure holds.
    spec fn key_set(&self) -> Set<Key>;

    /// The structure is well formed.
    spec fn inv(&self) -> bool;

    /// Whether `key` is held.
    fn contains(&self, key: Key) -> (found: bool)
        requires
            self.inv(),
        ensures
            found == self.key_set().contains(key),
    ;

    /// The construction of a structure of these keys can fail.
    spec fn construction_may_fail(keys: Set<Key>) -> bool;

    /// Builds a structure holding exactly the given keys. The construction may
    /// fail, only as `construction_may_fail` says; nothing is built then.
    fn from_keys(keys: &[Key]) -> (r: Result<Self, ConstructionFailed>)
        ensures
            r matches Ok(s) ==> s.inv() && s.key_set() == keys@.to_set(),
            r is Err ==> Self::construction_may_fail(keys@.to_set()),
    ;

    /// Whether the structure holds no key.
    fn is_empty(&self) -> (empty: bool)
        requires
            self.inv(),
        ensures
            empty == (self.key_set() == Set::<Key>::empty()),
    ;

    /// All the keys of the structure, each once.
    fn get_elements(&self) -> (elements: Vec<Key>)
        requires
            self.inv(),
        ensures
            elements@.no_duplicates(),
            elements@.to_set() == self.key_set(),
    ;
}

impl DynamicStructure for PerfectHashSet {
    open spec fn key_set(&self) -> Set<Key> {
        self@
    }

    open spec fn inv(&self) -> bool {
        self.wf()
    }

    open spec fn construction_may_fail(keys: Set<Key>) -> bool {
        construction_may_fail(keys)
    }

    fn contains(&self, key: Key) -> (found: bool) {
        PerfectHashSet::contains(self, key)
    }

    fn from_keys(keys: &[Key]) -> (r: Result<Self, ConstructionFailed>)
        ensures
            keys@.to_set().len() <= 1 ==> r is Ok,
            has_distinct_congruent_keys(keys@) ==> r is Err,
    {
        PerfectHashSet::new(keys)
    }

    fn is_empty(&self) -> (empty: bool) {
        PerfectHashSet::is_empty(&self)
    }

    fn get_elements(&self) -> (elements: Vec<Key>) {
        let elements = self.extract_keys();
        proof {
            lemma_strictly_increasing_no_duplicates(elements@);
        }
        elements
    }
}


/// The keys of a level (none when the level is empty).
pub open spec fn level_set<S: DynamicStructure>(level: Option<S>) -> Set<Key> {
    match level {
        None => Set::empty(),
        Some(s) => s.key_set(),
    }
}

/// The keys of the levels `a..b`.
pub open spec fn union_range<S: DynamicStructure>(
    levels: Seq<Option<S>>,
    a: int,
    b: int,
) -> Set<Key> {
    Set::new(|x: Key| exists|i: int| a <= i < b && #[trigger] level_set(levels[i]).contains(x))
}

/// Every level is empty or a well-formed structure with `2^i` keys at
/// index `i`, and no key is held by two levels.
pub open spec fn levels_ok<S: DynamicStructure>(levels: Seq<Option<S>>) -> bool {
    &&& forall|i: int|
        0 <= i < levels.len() && (#[trigger] levels[i]) is Some ==> levels[i].unwrap().inv()
            && levels[i].unwrap().key_set().finite() && levels[i].unwrap().key_set().len()
            == pow2(i as nat)
    &&& forall|i: int, j: int, x: Key|
        0 <= i < levels.len() && 0 <= j < levels.len() && i != j && #[trigger] level_set(
            levels[i],
        ).contains(x) ==> !#[trigger] level_set(levels[j]).contains(x)
}

/// The first empty level at or above `level` (the number of levels when
/// all of them are full).
pub open spec fn first_free<S: DynamicStructure>(levels: Seq<Option<S>>, level: int) -> int
    decreases levels.len() - level,
{
    if level >= levels.len() || levels[level] is None {
        level
    } else {
        first_free(levels, level + 1)
    }
}

proof fn lemma_first_free<S: DynamicStructure>(levels: Seq<Option<S>>, level: int)
    requires
        0 <= level <= levels.len(),
    ensures
        level <= first_free(levels, level) <= levels.len(),
        first_free(levels, level) < levels.len() ==> levels[first_free(levels, level)] is None,
        forall|i: int| level <= i < first_free(levels, level) ==> (#[trigger] levels[i]) is Some,
    decreases levels.len() - level,
{
    if level < levels.len() && levels[level] is Some {
        lemma_first_free(levels, level + 1);
    }
}



/// `2^i` summed over the non-empty levels `i < k`.
pub open spec fn occupied_total<S: DynamicStructure>(levels: Seq<Option<S>>, k: int) -> nat
    decreases k,
{
    if k <= 0 {
        0
    } else {
        occupied_total(levels, k - 1) + if levels[k - 1] is Some {
            pow2((k - 1) as nat)
        } else {
            0
        }
    }
}

proof fn lemma_union_range_len<S: DynamicStructure>(levels: Seq<Option<S>>, k: int)
    requires
        levels_ok(levels),
        0 <= k <= levels.len(),
    ensures
        union_range(levels, 0, k).finite(),
        union_range(levels, 0, k).len() == occupied_total(levels, k),
    decreases k,
{
    if k == 0 {
        assert(union_range(levels, 0, 0) =~= Set::empty());
    } else {
        lemma_union_range_len(levels, k - 1);
        let below = union_range(levels, 0, k - 1);
        let top = level_set(levels[k - 1]);
        assert(union_range(levels, 0, k) =~= below + top) by {
            assert forall|x: Key| union_range(levels, 0, k).contains(x) implies (below
                + top).contains(x) by {
                let i = choose|i: int| 0 <= i < k && #[trigger] level_set(levels[i]).contains(x);
                if i < k - 1 {
                    assert(below.contains(x));
                }
            }
        }
        assert(below.disjoint(top)) by {
            assert forall|x: Key| below.contains(x) implies !top.contains(x) by {
                let i = choose|i: int|
                    0 <= i < k - 1 && #[trigger] level_set(levels[i]).contains(x);
            }
        }
        if levels[k - 1] is None {
            assert(top =~= Set::empty());
        }
        vstd::set_lib::lemma_set_disjoint_lens(below, top);
    }
}

/// The keys of all the levels.
pub open spec fn all_keys<S: DynamicStructure>(levels: Seq<Option<S>>) -> Set<Key> {
    union_range(levels, 0, levels.len() as int)
}

/// `new` is `old` after the keys `incoming` were merged upwards from
/// `level`: with `j` the first empty level at or above `level`, the levels
/// `level..j` are empty, level `j` holds `incoming` and the keys of the levels
/// `level..j` of `old` (`2^j` keys in all), and every other level is as it was.
pub open spec fn promoted<S: DynamicStructure>(
    old: Seq<Option<S>>,
    new: Seq<Option<S>>,
    level: int,
    incoming: Set<Key>,
) -> bool {
    let j = first_free(old, level);
    &&& new.len() == old.len() + if j == old.len() { 1int } else { 0int }
    &&& forall|i: int|
        0 <= i < new.len() && (i < level || j < i) ==> (#[trigger] new[i]) == old[i]
    &&& forall|i: int| level <= i < j ==> (#[trigger] new[i]) is None
    &&& new[j] is Some
    &&& new[j].unwrap().inv()
    &&& new[j].unwrap().key_set() == incoming.union(union_range(old, level, j))
    &&& new[j].unwrap().key_set().finite()
    &&& new[j].unwrap().key_set().len() == pow2(j as nat)
}


/// Bit `i` of `n` is set.
pub open spec fn bit(n: nat, i: nat) -> bool {
    (n / pow2(i)) % 2 == 1
}

/// The sum of `2^i` over the non-empty levels `i < k` is below `2^k`, and its
/// bit `i` is set exactly when level `i` is non-empty.
proof fn lemma_occupied_bits<S: DynamicStructure>(levels: Seq<Option<S>>, k: int)
    requires
        0 <= k <= levels.len(),
    ensures
        occupied_total(levels, k) < pow2(k as nat),
        forall|i: int| 0 <= i < k ==> (bit(occupied_total(levels, k), i as nat) <==> (
        #[trigger] levels[i]) is Some),
    decreases k,
{
    if k == 0 {
        lemma2_to64();
    } else {
        lemma_occupied_bits(levels, k - 1);
        let t = occupied_total(levels, k - 1);
        let e = (k - 1) as nat;
        let top: nat = if levels[k - 1] is Some { pow2(e) } else { 0 };
        assert(occupied_total(levels, k) == t + top);
        lemma_pow2_unfold(k as nat);
        assert forall|i: int| 0 <= i < k implies (bit(t + top, i as nat) <==> (
        #[trigger] levels[i]) is Some) by {
            let d = pow2(i as nat);
            lemma_pow2_pos(i as nat);
            if i == k - 1 {
                lemma_basic_div(t as int, d as int);
                if levels[k - 1] is Some {
                    lemma_hoist_over_denominator(t as int, 1, d);
                }
            } else if levels[k - 1] is Some {
                // 2^(k-1) = 2^i * 2^(k-1-i), and 2^(k-1-i) is even.
                let f = (k - 1 - i) as nat;
                lemma_pow2_adds(i as nat, f);
                assert(i as nat + f == e);
                lemma_pow2_unfold(f);
                let half = pow2((f - 1) as nat);
                assert(top == half * 2 * d) by (nonlinear_arith)
                    requires
                        top == d * pow2(f),
                        pow2(f) == 2 * half,
                ;
                lemma_hoist_over_denominator(t as int, 2 * half as int, d);
                assert((t + top) as int == t as int + (2 * half) * d) by (nonlinear_arith)
                    requires
                        top == half * 2 * d,
                ;
                lemma_mod_multiples_vanish(half as int, t as int / d as int, 2);
            }
        }
    }
}

/// After the insertion of a new key has merged the key and the levels `0..j`
/// into the first empty level `j`, the levels are well formed again and hold
/// the old keys and the new one.
proof fn lemma_after_promotion<S: DynamicStructure>(
    old: Seq<Option<S>>,
    new: Seq<Option<S>>,
    key: Key,
)
    requires
        levels_ok(old),
        !all_keys(old).contains(key),
        promoted(old, new, 0, set![key]),
    ensures
        levels_ok(new),
        all_keys(new) == all_keys(old).insert(key),
{
    let j = first_free(old, 0);
    lemma_first_free(old, 0);
    assert forall|i: int| 0 <= i < new.len() && (#[trigger] new[i]) is Some implies {
        &&& new[i].unwrap().inv()
        &&& new[i].unwrap().key_set().finite()
        &&& new[i].unwrap().key_set().len() == pow2(i as nat)
    } by {
        if i != j {
            assert(new[i] == old[i]);
        }
    }
    // A key of level `j` other than the new one comes from a level below `j`.
    assert forall|x: Key| #[trigger] level_set(new[j]).contains(x) && x != key implies exists|
        t: int,
    | 0 <= t < j && #[trigger] level_set(old[t]).contains(x) by {
        assert(union_range(old, 0, j).contains(x));
    }
    assert forall|i: int, k: int, x: Key|
        0 <= i < new.len() && 0 <= k < new.len() && i != k && #[trigger] level_set(
            new[i],
        ).contains(x) implies !#[trigger] level_set(new[k]).contains(x) by {
        if level_set(new[k]).contains(x) {
            if i != j {
                assert(new[i] == old[i]);
            }
            if k != j {
                assert(new[k] == old[k]);
            }
            if x == key {
                assert(all_keys(old).contains(x));
            }
        }
    }
    assert forall|x: Key| all_keys(new).contains(x) implies all_keys(old).insert(key).contains(
        x,
    ) by {
        let i = choose|i: int| 0 <= i < new.len() && #[trigger] level_set(new[i]).contains(x);
        if i != j {
            assert(new[i] == old[i]);
        }
    }
    assert forall|x: Key| all_keys(old).insert(key).contains(x) implies all_keys(new).contains(
        x,
    ) by {
        if x == key {
            assert(level_set(new[j]).contains(x));
        } else {
            let i = choose|i: int| 0 <= i < old.len() && #[trigger] level_set(old[i]).contains(x);
            if i < j {
                assert(union_range(old, 0, j).contains(x));
                assert(level_set(new[j]).contains(x));
            } else if i > j {
                assert(new[i] == old[i]);
                assert(level_set(new[i]).contains(x));
            }
        }
    }
    assert(all_keys(new) =~= all_keys(old).insert(key));
}

/// A dynamic set built from static structures by the Bentley-Saxe transformation.
#[derive(Debug)]
pub struct BentleySaxe<S: DynamicStructure> {
    levels: Vec<Option<S>>,  // level i: empty or a structure of 2^i keys
    size: usize,  // number of keys
}

impl<S: DynamicStructure> View for BentleySaxe<S> {
    type V = Set<Key>;

    closed spec fn view(&self) -> Set<Key> {
        all_keys(self.levels@)
    }
}

impl<S: DynamicStructure> BentleySaxe<S> {
    /// The levels are well formed and disjoint, `size` counts the keys, and
    /// the highest level is occupied.
    pub closed spec fn wf(&self) -> bool {
        &&& levels_ok(self.levels@)
        &&& self@.finite()
        &&& self.size == self@.len()
        &&& self.levels@.len() > 0 ==> self.levels@.last() is Some
    }

    /// The keys of level `i`, or `None` when the level is empty or does not exist.
    pub closed spec fn level_keys(&self, i: int) -> Option<Set<Key>> {
        if 0 <= i < self.levels@.len() && self.levels@[i] is Some {
            Some(self.levels@[i].unwrap().key_set())
        } else {
            None
        }
    }

    /// The lowest empty level (the number of levels when all are occupied).
    pub closed spec fn first_empty_level(&self) -> int {
        first_free(self.levels@, 0)
    }

    /// The keys of the levels below `j`.
    pub open spec fn keys_below(&self, j: int) -> Set<Key> {
        Set::new(
            |x: Key|
                exists|i: int|
                    0 <= i < j && #[trigger] self.level_keys(i) is Some && self.level_keys(
                        i,
                    ).unwrap().contains(x),
        )
    }

    /// The lowest empty level is empty, and all the levels below it are occupied.
    pub proof fn lemma_first_empty_level(&self)
        ensures
            0 <= self.first_empty_level() <= self.num_levels(),
            self.level_keys(self.first_empty_level()) is None,
            forall|i: int|
                0 <= i < self.first_empty_level() ==> #[trigger] self.level_keys(i) is Some,
    {
        lemma_first_free(self.levels@, 0);
    }

    /// Law: no key is held by two levels, and the set is the union of the
    /// levels.
    pub proof fn lemma_levels_disjoint(&self)
        requires
            self.wf(),
        ensures
            forall|i: int, j: int, x: Key|
                #![trigger self.level_keys(i).unwrap().contains(x), self.level_keys(j)]
                i != j && self.level_keys(i) is Some && self.level_keys(j) is Some
                    && self.level_keys(i).unwrap().contains(x) ==> !self.level_keys(
                    j,
                ).unwrap().contains(x),
            self@ == self.keys_below(self.num_levels() as int),
    {
        assert forall|i: int, j: int, x: Key|
            #![trigger self.level_keys(i).unwrap().contains(x), self.level_keys(j)]
            i != j && self.level_keys(i) is Some && self.level_keys(j) is Some
                && self.level_keys(i).unwrap().contains(x) implies !self.level_keys(
                j,
            ).unwrap().contains(x) by {
            assert(level_set(self.levels@[i]).contains(x));
            if self.level_keys(j).unwrap().contains(x) {
                assert(level_set(self.levels@[j]).contains(x));
            }
        }
        let n = self.num_levels() as int;
        assert forall|x: Key| self@.contains(x) implies self.keys_below(n).contains(x) by {
            let i = choose|i: int| 0 <= i < n && #[trigger] level_set(self.levels@[i]).contains(x);
            assert(self.level_keys(i) is Some);
        }
        assert forall|x: Key| self.keys_below(n).contains(x) implies self@.contains(x) by {
            let i = choose|i: int|
                0 <= i < n && #[trigger] self.level_keys(i) is Some && self.level_keys(
                    i,
                ).unwrap().contains(x);
            assert(level_set(self.levels@[i]).contains(x));
        }
        assert(self@ =~= self.keys_below(n));
    }

    /// Law: a non-empty level `i` holds exactly `2^i` keys.
    pub proof fn lemma_level_sizes(&self, i: int)
        requires
            self.wf(),
        ensures
            self.level_keys(i) matches Some(ks) ==> ks.finite() && ks.len() == pow2(i as nat),
    {
    }

    /// The number of levels, the empty ones included.
    pub closed spec fn num_levels(&self) -> nat {
        self.levels@.len()
    }

    /// `2^i` summed over the non-empty levels `i < k`.
    pub open spec fn levels_total(&self, k: int) -> nat
        decreases k,
    {
        if k <= 0 {
            0
        } else {
            self.levels_total(k - 1) + if self.level_keys(k - 1) is Some {
                pow2((k - 1) as nat)
            } else {
                0
            }
        }
    }

    proof fn lemma_levels_total(&self, k: int)
        requires
            0 <= k <= self.levels@.len(),
        ensures
            self.levels_total(k) == occupied_total(self.levels@, k),
        decreases k,
    {
        if k > 0 {
            self.lemma_levels_total(k - 1);
        }
    }

    /// Law: the non-empty levels are the binary digits of the number of keys
    /// `n`: `n` is the sum of `2^i` over the non-empty levels `i`, level `i`
    /// is non-empty exactly when bit `i` of `n` is set, and the number of
    /// levels is the bit length of `n`.
    pub proof fn lemma_levels_binary(&self)
        requires
            self.wf(),
        ensures
            self@.len() == self.levels_total(self.num_levels() as int),
            forall|i: int|
                0 <= i ==> ((#[trigger] self.level_keys(i)) is Some <==> bit(
                    self@.len(),
                    i as nat,
                )),
            self.num_levels() == 0 <==> self@.len() == 0,
            self.num_levels() > 0 ==> pow2((self.num_levels() - 1) as nat) <= self@.len() < pow2(
                self.num_levels(),
            ),
    {
        let n = self.levels@.len() as int;
        lemma_union_range_len(self.levels@, n);
        self.lemma_levels_total(n);
        lemma_occupied_bits(self.levels@, n);
        assert forall|i: int| 0 <= i implies ((#[trigger] self.level_keys(i)) is Some <==> bit(
            self@.len(),
            i as nat,
        )) by {
            if i >= n {
                // Beyond the top level the sum has no bits.
                lemma_pow2_pos(i as nat);
                if i > n {
                    vstd::arithmetic::power2::lemma_pow2_strictly_increases(n as nat, i as nat);
                }
                lemma_basic_div(self@.len() as int, pow2(i as nat) as int);
            }
        }
        if n > 0 {
            assert(self.level_keys(n - 1) is Some);
            self.lemma_levels_logarithmic(n - 1);
            lemma_pow2_pos((n - 1) as nat);
        } else {
            assert(self@ =~= Set::<Key>::empty());
        }
    }

    /// Law: a non-empty level `i` has `2^i <= n`, so at most `log2(n) + 1`
    /// levels are occupied.
    pub proof fn lemma_levels_logarithmic(&self, i: int)
        requires
            self.wf(),
            self.level_keys(i) is Some,
        ensures
            pow2(i as nat) <= self@.len(),
    {
        let ks = self.level_keys(i).unwrap();
        assert(ks.subset_of(self@)) by {
            assert forall|x: Key| ks.contains(x) implies self@.contains(x) by {
                assert(level_set(self.levels@[i]).contains(x));
            }
        }
        vstd::set_lib::lemma_len_subset(ks, self@);
    }

    /// Law: after a successful `insert(k)`, `search(q)` finds `q` exactly when
    /// `q == k` or `q` was there before; inserting a key that is present
    /// changes nothing.
    pub proof fn lemma_search_after_insert(before: &Self, after: &Self, k: Key, q: Key)
        requires
            after@ == before@.insert(k),
        ensures
            after@.contains(q) == (q == k || before@.contains(q)),
            before@.contains(k) ==> after@ == before@,
    {
        if before@.contains(k) {
            assert(after@ =~= before@);
        }
    }

    /// An empty set.
    pub fn new() -> (s: Self)
        ensures
            s.wf(),
            s@ == Set::<Key>::empty(),
            s.num_levels() == 0,
    {
        let s = BentleySaxe { levels: Vec::new(), size: 0 };
        proof {
            assert(s@ =~= Set::<Key>::empty());
        }
        s
    }

    /// Whether `key` is in the set.
    pub fn search(&self, key: Key) -> (found: bool)
        requires
            self.wf(),
        ensures
            found == self@.contains(key),
    {
        let mut i: usize = 0;
        while i < self.levels.len()
            invariant
                i <= self.levels@.len(),
                levels_ok(self.levels@),
                forall|j: int|
                    0 <= j < i ==> !(#[trigger] level_set(self.levels@[j])).contains(key),
            decreases self.levels@.len() - i,
        {
            if let Some(structure) = &self.levels[i] {
                if structure.contains(key) {
                    proof {
                        assert(level_set(self.levels@[i as int]).contains(key));
                    }
                    return true;
                }
            }
            i += 1;
        }
        false
    }

    /// Adds `key`; a key that is already present leaves the set as it is.
    /// `Err` means that building the static structure for the new level
    /// failed; the set is then unchanged.
    pub fn insert(&mut self, key: Key) -> (r: Result<(), ConstructionFailed>)
        requires
            old(self).wf(),
            old(self)@.len() < usize::MAX,
        ensures
            final(self).wf(),
            r is Ok ==> final(self)@ == old(self)@.insert(key),
            // Only the construction of the merged level can fail.
            r is Err ==> S::construction_may_fail(
                old(self).keys_below(old(self).first_empty_level()).insert(key),
            ),
            r is Err ==> final(self)@ == old(self)@ && final(self).num_levels() == old(
                self,
            ).num_levels() && forall|i: int| #[trigger] final(self).level_keys(i) == old(
                self,
            ).level_keys(i),
            old(self)@.contains(key) ==> r is Ok && *final(self) == *old(self),
            // A new key and the keys of the occupied levels below the lowest
            // empty level `j` move to level `j`; the levels below it are emptied.
            r is Ok && !old(self)@.contains(key) ==> ({
                let j = old(self).first_empty_level();
                &&& final(self).num_levels() == old(self).num_levels() + if j == old(
                    self,
                ).num_levels() {
                    1int
                } else {
                    0int
                }
                &&& forall|i: int| 0 <= i < j ==> (#[trigger] final(self).level_keys(i)) is None
                &&& final(self).level_keys(j) == Some(old(self).keys_below(j).insert(key))
                &&& forall|i: int| j < i ==> #[trigger] final(self).level_keys(i) == old(
                    self,
                ).level_keys(i)
            }),
    {
        // A key that is already present is not inserted again.
        if self.search(key) {
            return Ok(());
        }

        let ghost old_levels = self.levels@;
        let elements = vec![key];
        proof {
            assert(elements@ =~= seq![key]);
            assert(elements@.to_set() =~= set![key]) by {
                assert(elements@.contains(key));
            }
            vstd::arithmetic::power2::lemma2_to64();
            assert forall|i: int, x: Key|
                0 <= i < old_levels.len() && #[trigger] level_set(old_levels[i]).contains(x)
                    implies !elements@.contains(x) by {
                if elements@.contains(x) {
                    assert(all_keys(old_levels).contains(x));
                }
            }
        }

        proof {
            let j = first_free(old_levels, 0);
            lemma_first_free(old_levels, 0);
            assert(union_range(old_levels, 0, j) =~= old(self).keys_below(j)) by {
                assert forall|x: Key| union_range(old_levels, 0, j).contains(x) implies old(
                    self,
                ).keys_below(j).contains(x) by {
                    let i = choose|i: int|
                        0 <= i < j && #[trigger] level_set(old_levels[i]).contains(x);
                    assert(old(self).level_keys(i) is Some);
                }
                assert forall|x: Key| old(self).keys_below(j).contains(x)
                    implies union_range(old_levels, 0, j).contains(x) by {
                    let i = choose|i: int|
                        0 <= i < j && #[trigger] old(self).level_keys(i) is Some && old(
                            self,
                        ).level_keys(i).unwrap().contains(x);
                    assert(level_set(old_levels[i]).contains(x));
                }
            }
            assert(set![key].union(old(self).keys_below(j)) =~= old(self).keys_below(
                j,
            ).insert(key));
        }

        match self.promote_level(elements, 0) {
            Ok(()) => {
                proof {
                    lemma_after_promotion(old_levels, self.levels@, key);
                    let j = first_free(old_levels, 0);
                    if old_levels.len() > 0 && j < old_levels.len() {
                        assert(j != old_levels.len() - 1);
                    }
                }
                self.size += 1;
                Ok(())
            },
            Err(e) => Err(e),
        }
    }

    /// Goes up from `level` over the full levels until it finds an empty one,
    /// and puts there a structure of `elements` together with the keys of the
    /// full levels passed; those levels become empty.
    ///
    /// The full levels are read, not taken, and are emptied only once the new
    /// structure has been built: when its construction fails, the levels are
    /// as they were.
    fn promote_level(&mut self, mut elements: Vec<Key>, level: usize) -> (r: Result<
        (),
        ConstructionFailed,
    >)
        requires
            levels_ok(old(self).levels@),
            level <= old(self).levels@.len(),
            elements@.no_duplicates(),
            elements@.len() == pow2(level as nat),
            forall|i: int, x: Key|
                level <= i < old(self).levels@.len() && #[trigger] level_set(
                    old(self).levels@[i],
                ).contains(x) ==> !elements@.contains(x),
        ensures
            final(self).size == old(self).size,
            r is Ok ==> promoted(
                old(self).levels@,
                final(self).levels@,
                level as int,
                elements@.to_set(),
            ),
            r is Err ==> final(self).levels@ == old(self).levels@,
            r is Err ==> S::construction_may_fail(
                elements@.to_set().union(
                    union_range(
                        old(self).levels@,
                        level as int,
                        first_free(old(self).levels@, level as int),
                    ),
                ),
            ),
        decreases old(self).levels@.len() - level,
    {
        let ghost old_levels = self.levels@;
        proof {
            lemma_first_free(old_levels, level as int);
        }
        // level ... the level into which the structure goes
        let pushed = level == self.levels.len();
        if pushed {
            self.levels.push(None);  // a new level on top
        }

        // An empty level takes the structure built from the collected keys.
        if self.levels[level].is_none() {
            return match S::from_keys(elements.as_slice()) {
                Ok(structure) => {
                    proof {
                        let none_passed = union_range(old_levels, level as int, level as int);
                        elements@.unique_seq_to_set();
                        assert(none_passed =~= Set::empty());
                        assert(elements@.to_set().union(none_passed) =~= elements@.to_set());
                    }
                    self.levels.set(level, Some(structure));
                    Ok(())
                },
                Err(e) => {
                    // No structure: the new level goes again.
                    if pushed {
                        self.levels.pop();
                    }
                    proof {
                        assert(self.levels@ =~= old_levels);
                        let none_passed = union_range(old_levels, level as int, level as int);
                        assert(none_passed =~= Set::empty());
                        assert(elements@.to_set().union(none_passed) =~= elements@.to_set());
                    }
                    Err(e)
                },
            };
        }

        // A full level: its keys join the collected ones one level higher.
        let existing = self.levels[level].as_ref().unwrap();
        let mut more = existing.get_elements();
        let ghost collected = elements@;
        let ghost moved = more@;
        let ghost full = level_set(old_levels[level as int]);
        elements.append(&mut more);
        proof {
            assert(moved.to_set() == full);
            moved.unique_seq_to_set();
            lemma_pow2_unfold(level as nat + 1);
            assert(elements@ == collected + moved);
            // The keys collected so far are not in the full level.
            assert forall|x: Key| moved.contains(x) implies !collected.contains(x) by {
                assert(full.contains(x));
            }
            assert forall|p: int, q: int|
                0 <= p < elements@.len() && 0 <= q < elements@.len() && p != q implies elements@[p]
                != elements@[q] by {
                if p < collected.len() && q >= collected.len() {
                    assert(moved.contains(elements@[q]));
                } else if q < collected.len() && p >= collected.len() {
                    assert(moved.contains(elements@[p]));
                }
            }
            assert forall|i: int, x: Key|
                level + 1 <= i < old_levels.len() && #[trigger] level_set(old_levels[i]).contains(x)
                    implies !elements@.contains(x) by {
                if elements@.contains(x) {
                    let p = choose|p: int| 0 <= p < elements@.len() && elements@[p] == x;
                    if p < collected.len() {
                        assert(collected.contains(x));
                    } else {
                        assert(moved.contains(x));
                        assert(full.contains(x));
                    }
                }
            }
        }
        proof {
            let j = first_free(old_levels, level + 1);
            let from_here = union_range(old_levels, level as int, j);
            let from_next = union_range(old_levels, level + 1, j);
            assert(first_free(old_levels, level as int) == j);
            assert forall|x: Key| (collected + moved).to_set().union(from_next).contains(x)
                implies collected.to_set().union(from_here).contains(x) by {
                if (collected + moved).contains(x) && !collected.contains(x) {
                    let p = choose|p: int|
                        0 <= p < (collected + moved).len() && (collected + moved)[p] == x;
                    assert(moved[p - collected.len()] == x);
                    assert(moved.contains(x));
                    assert(full.contains(x));
                }
            }
            assert forall|x: Key| collected.to_set().union(from_here).contains(x)
                implies (collected + moved).to_set().union(from_next).contains(x) by {
                if collected.contains(x) {
                    let p = choose|p: int| 0 <= p < collected.len() && collected[p] == x;
                    assert((collected + moved)[p] == x);
                } else if from_here.contains(x) {
                    let i = choose|i: int|
                        level <= i < j && #[trigger] level_set(old_levels[i]).contains(x);
                    if i == level {
                        assert(moved.to_set().contains(x));
                        let p = choose|p: int| 0 <= p < moved.len() && moved[p] == x;
                        assert((collected + moved)[collected.len() + p] == x);
                    } else {
                        assert(from_next.contains(x));
                    }
                }
            }
            assert((collected + moved).to_set().union(from_next) =~=
                collected.to_set().union(from_here));
        }
        match self.promote_level(elements, level + 1) {
            Ok(()) => {
                // The keys of this level now sit higher up.
                self.levels.set(level, None);
                Ok(())
            },
            Err(e) => Err(e),
        }
    }
}

impl BentleySaxe<PerfectHashSet> {
    /// Law: while level 0 of a dynamic hash set is empty, inserting a new key
    /// cannot fail: the key alone goes to level 0, and a perfect hash set of
    /// one key is always built.
    pub proof fn lemma_insert_into_free_bottom(&self, key: Key)
        requires
            self.level_keys(0) is None,
        ensures
            self.first_empty_level() == 0,
            !<PerfectHashSet as DynamicStructure>::construction_may_fail(
                self.keys_below(self.first_empty_level()).insert(key),
            ),
    {
        assert(self.keys_below(0).insert(key) =~= set![key]);
        if construction_may_fail(set![key]) {
            lemma_construction_may_fail_needs_two_keys(set![key]);
        }
    }

    /// Law: no level of a dynamic hash set holds two different keys that are
    /// congruent modulo `PRIME` (a perfect hash of them cannot exist).
    pub proof fn lemma_levels_incongruent(&self, i: int)
        requires
            self.wf(),
        ensures
            self.level_keys(i) matches Some(ks) ==> forall|x: Key, y: Key|
                ks.contains(x) && ks.contains(y) && x != y ==> x % PRIME != y % PRIME,
    {
        if self.level_keys(i) is Some {
            self.levels@[i].unwrap().lemma_no_congruent_keys();
        }
    }
}

} // verus!
