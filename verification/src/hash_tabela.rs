//! A static set of `u64` keys stored in a two-level perfect hash table:
//! a universal hash sends each key to a bucket, and each bucket with more
//! than one key is a collision-free table of its own.

use rand::rngs::ThreadRng;
use vstd::prelude::*;
use vstd::arithmetic::div_mod::{lemma_add_mod_noop, lemma_mul_mod_noop_right};
use crate::nakljucno::{gen_range_u64, thread_rng};

verus! {

/// The prime modulus of the universal hash family (2^61 - 1).
pub const PRIME: u64 = 2_305_843_009_213_693_951;

/// How many top-level hashes the construction draws before it gives up.
pub const MAX_TOP_LEVEL_TRIES: usize = 128;

/// How many hashes a bucket of two or more keys draws before it gives up.
pub const MAX_BUCKET_TRIES: usize = 512;

/// `h(x) = ((a * x + b) mod p) mod m`, and `0` for a table of size zero.
pub open spec fn hash_formula(a: int, b: int, m: int, key: int) -> int {
    if m == 0 {
        0
    } else {
        ((a * key + b) % (PRIME as int)) % m
    }
}

/// A member of the universal hash family `((a * x + b) mod p) mod m`.
#[derive(Clone, Copy, Debug)]
pub struct UniversalHash {
    a: u64,
    b: u64,
    m: usize,
}

impl UniversalHash {
    /// The multiplier `a`.
    pub closed spec fn mult(&self) -> int {
        self.a as int
    }

    /// The offset `b`.
    pub closed spec fn offset(&self) -> int {
        self.b as int
    }

    /// The table size `m`.
    pub closed spec fn table_size(&self) -> nat {
        self.m as nat
    }

    /// The slot that the hash assigns to `key`.
    pub open spec fn hash_of(&self, key: u64) -> int {
        hash_formula(self.mult(), self.offset(), self.table_size() as int, key as int)
    }

    pub fn new(a: u64, b: u64, m: usize) -> (h: Self)
        ensures
            h.mult() == a,
            h.offset() == b,
            h.table_size() == m,
    {
        Self { a, b, m }
    }

    /// The slot of `key`: a number below the table size (zero for an empty table).
    pub fn apply(&self, key: u64) -> (slot: usize)
        ensures
            slot == self.hash_of(key),
            self.table_size() > 0 ==> slot < self.table_size(),
    {
        if self.m == 0 {
            return 0;
        }

        let a = self.a as u128;
        let x = key as u128;
        let b = self.b as u128;
        assert(a * x <= 0xffff_ffff_ffff_ffffu128 * 0xffff_ffff_ffff_ffffu128) by (nonlinear_arith)
            requires
                a <= 0xffff_ffff_ffff_ffffu128,
                x <= 0xffff_ffff_ffff_ffffu128,
        ;
        let value = (a * x + b) % PRIME as u128;
        (value % self.m as u128) as usize
    }
}

/// A second-level bucket of the perfect hash set.
#[derive(Debug)]
pub enum Bucket {
    Empty,
    Single(u64),
    Table { hash: UniversalHash, slots: Vec<Option<u64>> },
}

impl Bucket {
    /// The keys held by the bucket.
    pub open spec fn key_set(&self) -> Set<u64> {
        match self {
            Bucket::Empty => Set::empty(),
            Bucket::Single(k) => set![*k],
            Bucket::Table { hash, slots } => Set::new(
                |k: u64| exists|i: int| 0 <= i < slots@.len() && slots@[i] == Some(k),
            ),
        }
    }

    /// The number of slots the bucket takes: none when empty, one for a
    /// single key, and the length of a table.
    pub open spec fn slot_count(&self) -> nat {
        match self {
            Bucket::Empty => 0,
            Bucket::Single(_) => 1,
            Bucket::Table { slots, .. } => slots@.len(),
        }
    }

    /// A table has one slot per value of its hash, and every key sits in the
    /// slot that the hash assigns to it.
    pub open spec fn wf(&self) -> bool {
        match self {
            Bucket::Table { hash, slots } => {
                &&& hash.table_size() == slots@.len()
                &&& forall|i: int|
                    0 <= i < slots@.len() && (#[trigger] slots@[i]) is Some ==> hash.hash_of(
                        slots@[i].unwrap(),
                    ) == i
            },
            _ => true,
        }
    }

    /// Whether `key` is in the bucket.
    pub fn contains(&self, key: u64) -> (found: bool)
        requires
            self.wf(),
        ensures
            found == self.key_set().contains(key),
    {
        match self {
            Self::Empty => false,
            Self::Single(existing) => *existing == key,
            Self::Table { hash, slots } => {
                if slots.is_empty() {
                    return false;
                }

                let index = hash.apply(key);
                proof {
                    if self.key_set().contains(key) {
                        let i = choose|i: int| 0 <= i < slots@.len() && slots@[i] == Some(key);
                        assert(hash.hash_of(key) == i);
                    }
                }
                match slots[index] {
                    Some(k) => k == key,
                    None => false,
                }
            },
        }
    }
}


/// Two entries of `keys`, at different places, are congruent modulo `PRIME`
/// (equal keys among them).
pub open spec fn has_congruent_pair(keys: Seq<u64>) -> bool {
    exists|i: int, j: int|
        0 <= i < keys.len() && 0 <= j < keys.len() && i != j && #[trigger] (keys[i] % PRIME)
            == #[trigger] (keys[j] % PRIME)
}

/// Keys congruent modulo `PRIME` share their slot under every hash of the family.
pub proof fn lemma_congruent_same_slot(h: UniversalHash, x: u64, y: u64)
    requires
        x % PRIME == y % PRIME,
    ensures
        h.hash_of(x) == h.hash_of(y),
{
    if h.table_size() > 0 {
        let p = PRIME as int;
        lemma_mul_mod_noop_right(h.mult(), x as int, p);
        lemma_mul_mod_noop_right(h.mult(), y as int, p);
        lemma_add_mod_noop(h.mult() * x, h.offset(), p);
        lemma_add_mod_noop(h.mult() * y, h.offset(), p);
    }
}

/// No hash of the family is collision-free on keys with a congruent pair.
pub proof fn lemma_congruent_pair_collides(keys: Seq<u64>, h: UniversalHash)
    requires
        has_congruent_pair(keys),
    ensures
        !collision_free(keys, h),
{
    let (i, j) = choose|i: int, j: int|
        0 <= i < keys.len() && 0 <= j < keys.len() && i != j && #[trigger] (keys[i] % PRIME)
            == #[trigger] (keys[j] % PRIME);
    lemma_congruent_same_slot(h, keys[i], keys[j]);
}

/// A collision-free hash sees each key once.
proof fn lemma_collision_free_distinct(keys: Seq<u64>, h: UniversalHash)
    requires
        collision_free(keys, h),
    ensures
        keys.no_duplicates(),
        keys.to_set().len() == keys.len(),
{
    assert(keys.no_duplicates()) by {
        assert forall|i: int, j: int|
            0 <= i < keys.len() && 0 <= j < keys.len() && i != j implies keys[i] != keys[j] by {
            assert(h.hash_of(keys[i]) != h.hash_of(keys[j]));
        }
    }
    keys.unique_seq_to_set();
}

/// No two keys of `keys` share a slot of `hash`.
pub open spec fn collision_free(keys: Seq<u64>, hash: UniversalHash) -> bool {
    forall|i: int, j: int|
        0 <= i < keys.len() && 0 <= j < keys.len() && i != j ==> hash.hash_of(keys[i])
            != hash.hash_of(keys[j])
}

/// Places `keys` into a table of `hash.table_size()` slots using `hash`.
/// Succeeds exactly when no two keys collide; the table then holds exactly
/// the given keys, each in the slot `hash` assigns to it.
pub fn try_bucket_table(keys: &[u64], hash: UniversalHash) -> (r: Option<Bucket>)
    requires
        hash.table_size() > 0,
    ensures
        r is Some <==> collision_free(keys@, hash),
        r matches Some(b) ==> {
            &&& b.wf()
            &&& b.key_set() == keys@.to_set()
            &&& b.key_set().len() == keys@.len()
            &&& b matches Bucket::Table { hash: h, slots } && h == hash && slots@.len()
                == hash.table_size() && forall|t: int|
                0 <= t < keys@.len() ==> slots@[hash.hash_of(#[trigger] keys@[t])] == Some(
                    keys@[t],
                )
        },
{
    let m = hash.m;
    let mut slots: Vec<Option<u64>> = Vec::new();
    let mut s: usize = 0;
    while s < m
        invariant
            s <= m,
            m == hash.table_size(),
            slots@.len() == s,
            forall|i: int| 0 <= i < s ==> slots@[i] is None,
        decreases m - s,
    {
        slots.push(None);
        s += 1;
    }

    let mut j: usize = 0;
    while j < keys.len()
        invariant
            j <= keys.len(),
            m == hash.table_size(),
            m > 0,
            slots@.len() == m,
            collision_free(keys@.take(j as int), hash),
            forall|i: int|
                0 <= i < m && (#[trigger] slots@[i]) is Some ==> exists|t: int|
                    0 <= t < j && slots@[i] == Some(keys@[t]) && hash.hash_of(keys@[t]) == i,
            forall|t: int|
                0 <= t < j ==> slots@[hash.hash_of(#[trigger] keys@[t])] == Some(keys@[t]),
        decreases keys.len() - j,
    {
        let key = keys[j];
        let idx = hash.apply(key);
        if slots[idx].is_some() {
            proof {
                let t = choose|t: int|
                    0 <= t < j && slots@[idx as int] == Some(keys@[t]) && hash.hash_of(keys@[t])
                        == idx;
                assert(hash.hash_of(keys@[t]) == hash.hash_of(keys@[j as int]));
                assert(!collision_free(keys@, hash));
            }
            return None;
        }
        proof {
            assert forall|t: int| 0 <= t < j implies hash.hash_of(#[trigger] keys@[t]) != idx by {
                assert(slots@[hash.hash_of(keys@[t])] == Some(keys@[t]));
            }
        }
        slots.set(idx, Some(key));
        proof {
            let tj = keys@.take(j + 1);
            assert forall|p: int, q: int|
                0 <= p < tj.len() && 0 <= q < tj.len() && p != q implies hash.hash_of(tj[p])
                != hash.hash_of(tj[q]) by {
                if p < j && q < j {
                    assert(keys@.take(j as int)[p] == tj[p]);
                    assert(keys@.take(j as int)[q] == tj[q]);
                }
            }
        }
        j += 1;
    }
    proof {
        assert(keys@.take(keys@.len() as int) =~= keys@);
    }
    let b = Bucket::Table { hash, slots };
    proof {
        lemma_collision_free_distinct(keys@, hash);
        assert(b.key_set() =~= keys@.to_set()) by {
            assert forall|k: u64| b.key_set().contains(k) implies keys@.to_set().contains(k) by {
                let i = choose|i: int| 0 <= i < slots@.len() && slots@[i] == Some(k);
                let t = choose|t: int|
                    0 <= t < keys@.len() && slots@[i] == Some(keys@[t]) && hash.hash_of(keys@[t])
                        == i;
                assert(keys@.contains(k));
            }
            assert forall|k: u64| keys@.to_set().contains(k) implies b.key_set().contains(k) by {
                let t = choose|t: int| 0 <= t < keys@.len() && keys@[t] == k;
                assert(slots@[hash.hash_of(keys@[t])] == Some(keys@[t]));
            }
        }
    }
    Some(b)
}


/// A hash that `random_hash` can draw for a table of `m` slots.
pub open spec fn drawable(h: UniversalHash, m: nat) -> bool {
    &&& h.table_size() == m
    &&& 1 <= h.mult() < PRIME
    &&& 0 <= h.offset() < PRIME
}

/// `draws` are `MAX_BUCKET_TRIES` drawable hashes for a table of `len^2`
/// slots, none of them collision-free on `keys`.
pub open spec fn bucket_draws_fail(keys: Seq<u64>, draws: Seq<UniversalHash>) -> bool {
    &&& draws.len() == MAX_BUCKET_TRIES
    &&& forall|t: int|
        0 <= t < draws.len() ==> drawable(#[trigger] draws[t], keys.len() * keys.len())
            && !collision_free(keys, draws[t])
}

/// The bucket of `keys` can fail to be built: it has two or more keys, and
/// either its `len^2` slots do not fit in a `usize` or there are
/// `MAX_BUCKET_TRIES` drawable hashes that all collide on it.
pub open spec fn bucket_may_fail(keys: Seq<u64>) -> bool {
    &&& keys.len() >= 2
    &&& (keys.len() * keys.len() > usize::MAX || exists|draws: Seq<UniversalHash>|
        #[trigger] bucket_draws_fail(keys, draws))
}

/// Builds the bucket for `keys`: empty, a single key, or a collision-free
/// table of `len^2` slots whose hash is drawn at random, with up to
/// `MAX_BUCKET_TRIES` draws. `None` means that every draw collided, or that
/// `len^2` does not fit in a `usize`.
pub fn build_bucket(keys: &[u64]) -> (r: Option<Bucket>)
    ensures
        keys@.len() == 0 ==> r == Some(Bucket::Empty),
        keys@.len() == 1 ==> r == Some(Bucket::Single(keys@[0])),
        r matches Some(b) ==> {
            &&& b.wf()
            &&& b.key_set() == keys@.to_set()
            &&& b.slot_count() == keys@.len() * keys@.len()
            &&& keys@.no_duplicates()
            &&& b.key_set().len() == keys@.len()
        },
        keys@.len() >= 2 ==> (r matches Some(b) ==> (b matches Bucket::Table { hash, slots }
            && slots@.len() == keys@.len() * keys@.len() && hash.table_size() == keys@.len()
            * keys@.len() && collision_free(keys@, hash) && forall|t: int|
            0 <= t < keys@.len() ==> slots@[hash.hash_of(#[trigger] keys@[t])] == Some(
                keys@[t],
            ))),
        keys@.len() >= 2 && has_congruent_pair(keys@) ==> r is None,
        r is None ==> bucket_may_fail(keys@),
{
    match keys.len() {
        0 => {
            proof {
                assert(keys@.to_set() =~= Set::empty());
            }
            Some(Bucket::Empty)
        },
        1 => {
            proof {
                assert(keys@.to_set() =~= set![keys@[0]]) by {
                    assert forall|k: u64| keys@.contains(k) implies k == keys@[0] by {
                        let i = choose|i: int| 0 <= i < keys@.len() && keys@[i] == k;
                    }
                    assert(keys@.contains(keys@[0]));
                }
            }
            proof {
                assert(set![keys@[0]].len() == 1);
                assert(keys@.no_duplicates());
            }
            Some(Bucket::Single(keys[0]))
        },
        size => {
            let m = match size.checked_mul(size) {
                Some(m) => m,
                None => {
                    return None;
                },
            };
            assert(m > 0) by (nonlinear_arith)
                requires
                    m == size * size,
                    size >= 2,
            ;

            // The hashes drawn so far, all of which collided.
            let ghost mut draws: Seq<UniversalHash> = Seq::empty();
            let mut attempt: usize = 0;
            while attempt < MAX_BUCKET_TRIES
                invariant
                    m == keys@.len() * keys@.len(),
                    m > 0,
                    keys@.len() >= 2,
                    attempt <= MAX_BUCKET_TRIES,
                    draws.len() == attempt,
                    forall|t: int|
                        0 <= t < draws.len() ==> drawable(#[trigger] draws[t], m as nat)
                            && !collision_free(keys@, draws[t]),
                decreases MAX_BUCKET_TRIES - attempt,
            {
                let hash = random_hash(m);
                if let Some(bucket) = try_bucket_table(keys, hash) {
                    proof {
                        lemma_collision_free_distinct(keys@, hash);
                        if has_congruent_pair(keys@) {
                            lemma_congruent_pair_collides(keys@, hash);
                        }
                    }
                    return Some(bucket);
                }
                proof {
                    draws = draws.push(hash);
                }
                attempt += 1;
            }
            proof {
                assert(bucket_draws_fail(keys@, draws));
            }

            None
        },
    }
}

/// A member of the hash family with random parameters `1 <= a < p` and
/// `0 <= b < p`, for a table of `m` slots.
fn random_hash(m: usize) -> (h: UniversalHash)
    ensures
        h.table_size() == m,
        1 <= h.mult() < PRIME,
        0 <= h.offset() < PRIME,
{
    let mut rng = thread_rng();
    let a = gen_range_u64(&mut rng, 1, PRIME);  // 0 < a < p
    let b = gen_range_u64(&mut rng, 0, PRIME);  // 0 <= b < p
    UniversalHash::new(a, b, m)
}


/// Every key of the sequence is smaller than the ones after it.
pub open spec fn strictly_increasing(s: Seq<u64>) -> bool {
    forall|i: int, j: int| 0 <= i < j < s.len() ==> s[i] < s[j]
}

/// A strictly increasing sequence holds no key twice.
pub proof fn lemma_strictly_increasing_no_duplicates(s: Seq<u64>)
    requires
        strictly_increasing(s),
    ensures
        s.no_duplicates(),
{
    assert forall|i: int, j: int|
        0 <= i < s.len() && 0 <= j < s.len() && i != j implies s[i] != s[j] by {
        if i < j {
            assert(s[i] < s[j]);
        } else {
            assert(s[j] < s[i]);
        }
    }
}

/// Calls `slice::sort_unstable` on `values`. Its documentation promises that
/// the elements end up in ascending order; sorting only moves elements, so
/// they are a permutation of what they were.
#[verifier::external_body]
fn sort_unstable_u64(values: &mut Vec<u64>)
    ensures
        final(values)@.len() == old(values)@.len(),
        final(values)@.to_multiset() == old(values)@.to_multiset(),
        forall|i: int, j: int|
            0 <= i <= j < final(values)@.len() ==> final(values)@[i] <= final(values)@[j],
{
    values.sort_unstable()
}

/// The keys in ascending order, each once.
fn sorted_unique(keys: &[u64]) -> (unique: Vec<u64>)
    ensures
        strictly_increasing(unique@),
        unique@.to_set() == keys@.to_set(),
{
    let mut all: Vec<u64> = Vec::new();
    for i in 0..keys.len()
        invariant
            all@ == keys@.take(i as int),
    {
        all.push(keys[i]);
        proof {
            assert(keys@.take(i + 1) =~= keys@.take(i as int).push(keys@[i as int]));
        }
    }
    proof {
        assert(keys@.take(keys@.len() as int) =~= keys@);
    }
    let ghost before = all@;
    sort_unstable_u64(&mut all);
    proof {
        broadcast use vstd::seq_lib::group_to_multiset_ensures;
        assert(all@.to_set() =~= keys@.to_set()) by {
            assert forall|k: u64| all@.contains(k) <==> before.contains(k) by {
                assert(all@.to_multiset().count(k) == before.to_multiset().count(k));
            }
        }
    }

    let mut unique: Vec<u64> = Vec::new();
    for i in 0..all.len()
        invariant
            strictly_increasing(unique@),
            forall|k: u64| unique@.contains(k) <==> exists|t: int| 0 <= t < i && all@[t] == k,
            i > 0 ==> unique@.len() > 0 && unique@.last() == all@[i - 1],
            i == 0 ==> unique@.len() == 0,
            forall|p: int, q: int| 0 <= p <= q < all@.len() ==> all@[p] <= all@[q],
    {
        let key = all[i];
        let n = unique.len();
        if n == 0 || unique[n - 1] != key {
            let ghost prev = unique@;
            unique.push(key);
            proof {
                assert(unique@ == prev.push(key));
                assert forall|k: u64| unique@.contains(k) <==> exists|t: int|
                    0 <= t < i + 1 && all@[t] == k by {
                    if unique@.contains(k) && k != key {
                        let p = choose|p: int| 0 <= p < unique@.len() && unique@[p] == k;
                        assert(prev[p] == k);
                        assert(prev.contains(k));
                    }
                    if exists|t: int| 0 <= t < i + 1 && all@[t] == k {
                        let t = choose|t: int| 0 <= t < i + 1 && all@[t] == k;
                        if t < i {
                            assert(prev.contains(k));
                            let p = choose|p: int| 0 <= p < prev.len() && prev[p] == k;
                            assert(unique@[p] == k);
                        } else {
                            assert(unique@[unique@.len() - 1] == k);
                        }
                    }
                }
                if n > 0 {
                    assert(all@[i - 1] <= all@[i as int]);
                }
            }
        } else {
            proof {
                assert forall|k: u64| unique@.contains(k) <==> exists|t: int|
                    0 <= t < i + 1 && all@[t] == k by {
                    if exists|t: int| 0 <= t < i + 1 && all@[t] == k {
                        let t = choose|t: int| 0 <= t < i + 1 && all@[t] == k;
                        if t == i {
                            assert(unique@[unique@.len() - 1] == k);
                        }
                    }
                }
            }
        }
    }
    proof {
        assert(unique@.to_set() =~= all@.to_set()) by {
            assert forall|k: u64| unique@.contains(k) <==> all@.contains(k) by {
                if all@.contains(k) {
                    let t = choose|t: int| 0 <= t < all@.len() && all@[t] == k;
                }
            }
        }
    }
    unique
}


/// The keys of `keys` that `hash` sends to slot `i`, in their order.
pub open spec fn keys_in_slot(keys: Seq<u64>, hash: UniversalHash, i: int) -> Seq<u64> {
    keys.filter(|k: u64| hash.hash_of(k) == i)
}

/// Splits `keys` by the slot that `hash` assigns to each: part `i` holds, in
/// their order, the keys sent to slot `i`.
pub fn partition(keys: &Vec<u64>, hash: &UniversalHash) -> (parts: Vec<Vec<u64>>)
    requires
        hash.table_size() > 0,
    ensures
        parts@.len() == hash.table_size(),
        forall|i: int|
            0 <= i < parts@.len() ==> #[trigger] parts@[i]@ == keys_in_slot(keys@, *hash, i),
{
    let m = hash.m;
    let mut parts: Vec<Vec<u64>> = Vec::new();
    for s in 0..m
        invariant
            parts@.len() == s,
            forall|i: int| 0 <= i < s ==> (#[trigger] parts@[i])@.len() == 0,
    {
        parts.push(Vec::new());
    }
    proof {
        assert forall|i: int| 0 <= i < parts@.len() implies #[trigger] parts@[i]@
            == keys_in_slot(keys@.take(0), *hash, i) by {
            assert(keys@.take(0) =~= Seq::<u64>::empty());
            assert(parts@[i]@ =~= Seq::<u64>::empty());
        }
    }

    for j in 0..keys.len()
        invariant
            m == hash.table_size(),
            m > 0,
            parts@.len() == m,
            forall|i: int|
                0 <= i < m ==> #[trigger] parts@[i]@ == keys_in_slot(
                    keys@.take(j as int),
                    *hash,
                    i,
                ),
    {
        let key = keys[j];
        let idx = hash.apply(key);
        let ghost before = parts@;
        parts[idx].push(key);
        proof {
            assert(keys@.take(j + 1) =~= keys@.take(j as int).push(key));
            assert forall|i: int| 0 <= i < m implies #[trigger] parts@[i]@ == keys_in_slot(
                keys@.take(j + 1),
                *hash,
                i,
            ) by {
                keys@.take(j as int).lemma_filter_push(key, |k: u64| hash.hash_of(k) == i);
                if i != idx {
                    assert(parts@[i] == before[i]);
                }
            }
        }
    }
    proof {
        assert(keys@.take(keys@.len() as int) =~= keys@);
    }
    parts
}

/// Sum of the squared lengths of the parts.
pub open spec fn sum_of_squares_spec(parts: Seq<Vec<u64>>) -> nat
    decreases parts.len(),
{
    if parts.len() == 0 {
        0
    } else {
        sum_of_squares_spec(parts.drop_last()) + parts.last()@.len() * parts.last()@.len()
    }
}

/// The sum of the squared lengths of the parts, or `u128::MAX` when it is larger.
fn sum_of_squares(parts: &Vec<Vec<u64>>) -> (total: u128)
    ensures
        total == if sum_of_squares_spec(parts@) > u128::MAX {
            u128::MAX as int
        } else {
            sum_of_squares_spec(parts@) as int
        },
{
    let mut total: u128 = 0;
    for i in 0..parts.len()
        invariant
            total == if sum_of_squares_spec(parts@.take(i as int)) > u128::MAX {
                u128::MAX as int
            } else {
                sum_of_squares_spec(parts@.take(i as int)) as int
            },
    {
        let len = parts[i].len() as u128;
        assert(len * len <= 0xffff_ffff_ffff_ffffu128 * 0xffff_ffff_ffff_ffffu128)
            by (nonlinear_arith)
            requires
                len <= 0xffff_ffff_ffff_ffffu128,
        ;
        proof {
            assert(parts@.take(i + 1).drop_last() =~= parts@.take(i as int));
            assert(parts@.take(i + 1).last() == parts@[i as int]);
        }
        total = total.saturating_add(len * len);
    }
    proof {
        assert(parts@.take(parts@.len() as int) =~= parts@);
    }
    total
}


/// A key is in part `i` exactly when it is one of the keys and `hash` sends it to `i`.
proof fn lemma_keys_in_slot(keys: Seq<u64>, hash: UniversalHash, i: int, k: u64)
    ensures
        keys_in_slot(keys, hash, i).contains(k) <==> keys.contains(k) && hash.hash_of(k) == i,
{
    let pred = |x: u64| hash.hash_of(x) == i;
    if keys.filter(pred).contains(k) {
        keys.lemma_filter_contains_rev(pred, k);
        let j = choose|j: int| 0 <= j < keys.filter(pred).len() && keys.filter(pred)[j] == k;
        keys.lemma_filter_pred(pred, j);
    }
    if keys.contains(k) && hash.hash_of(k) == i {
        let t = choose|t: int| 0 <= t < keys.len() && keys[t] == k;
        keys.lemma_filter_contains(pred, t);
    }
}

/// The number of slots of all the buckets.
pub open spec fn slots_total(buckets: Seq<Bucket>) -> nat
    decreases buckets.len(),
{
    if buckets.len() == 0 {
        0
    } else {
        slots_total(buckets.drop_last()) + buckets.last().slot_count()
    }
}

proof fn lemma_slots_total(buckets: Seq<Bucket>, parts: Seq<Vec<u64>>)
    requires
        buckets.len() == parts.len(),
        forall|i: int|
            0 <= i < buckets.len() ==> (#[trigger] buckets[i]).slot_count() == parts[i]@.len()
                * parts[i]@.len(),
    ensures
        slots_total(buckets) == sum_of_squares_spec(parts),
    decreases buckets.len(),
{
    if buckets.len() > 0 {
        let n = buckets.len() - 1;
        assert forall|i: int| 0 <= i < n implies (#[trigger] buckets.drop_last()[i]).slot_count()
            == parts.drop_last()[i]@.len() * parts.drop_last()[i]@.len() by {
            assert(buckets.drop_last()[i] == buckets[i]);
        }
        lemma_slots_total(buckets.drop_last(), parts.drop_last());
        assert(buckets.last() == buckets[n]);
    }
}

/// The squared numbers of keys that `top` sends to the slots `0..k`, added up.
pub open spec fn top_level_load(keys: Seq<u64>, top: UniversalHash, k: int) -> nat
    decreases k,
{
    if k <= 0 {
        0
    } else {
        top_level_load(keys, top, k - 1) + keys_in_slot(keys, top, k - 1).len() * keys_in_slot(
            keys,
            top,
            k - 1,
        ).len()
    }
}

proof fn lemma_parts_load(parts: Seq<Vec<u64>>, keys: Seq<u64>, top: UniversalHash, k: int)
    requires
        0 <= k <= parts.len(),
        forall|j: int| 0 <= j < parts.len() ==> #[trigger] parts[j]@ == keys_in_slot(keys, top, j),
    ensures
        sum_of_squares_spec(parts.take(k)) == top_level_load(keys, top, k),
    decreases k,
{
    if k > 0 {
        lemma_parts_load(parts, keys, top, k - 1);
        assert(parts.take(k).drop_last() =~= parts.take(k - 1));
        assert(parts.take(k).last() == parts[k - 1]);
    }
}

/// The top-level hash `top` can be rejected for `keys`: the squared bucket
/// sizes add up to more than `4 n`, or some bucket can fail to be built.
pub open spec fn top_level_may_fail(keys: Seq<u64>, top: UniversalHash) -> bool {
    ||| top_level_load(keys, top, keys.len() as int) > 4 * keys.len()
    ||| exists|i: int| 0 <= i < keys.len() && bucket_may_fail(#[trigger] keys_in_slot(keys, top, i))
}

/// Tries to build the buckets of a perfect hash set of `keys` (sorted, each
/// once) under the top-level hash `top_hash`, which sends the keys to `n`
/// buckets. The hash is rejected (`None`) when the squared bucket sizes add up
/// to more than `4 n`. Otherwise every bucket is built, a bucket of two or more
/// keys from randomly drawn hashes; `None` then means that such a bucket got
/// no collision-free hash, which is certain when two of its keys are
/// congruent modulo `PRIME`, and impossible when no bucket has two keys.
pub fn try_top_level(keys: &Vec<u64>, top_hash: &UniversalHash) -> (r: Option<Vec<Bucket>>)
    requires
        keys@.len() > 0,
        top_hash.table_size() == keys@.len(),
    ensures
        r is Some ==> top_level_load(keys@, *top_hash, keys@.len() as int) <= 4 * keys@.len(),
        top_level_load(keys@, *top_hash, keys@.len() as int) <= 4 * keys@.len() && (forall|i: int|
            0 <= i < keys@.len() ==> #[trigger] keys_in_slot(keys@, *top_hash, i).len() <= 1)
            ==> r is Some,
        r is None && top_level_load(keys@, *top_hash, keys@.len() as int) <= 4 * keys@.len()
            ==> exists|i: int|
            0 <= i < keys@.len() && #[trigger] keys_in_slot(keys@, *top_hash, i).len() >= 2,
        (exists|i: int|
            0 <= i < keys@.len() && #[trigger] keys_in_slot(keys@, *top_hash, i).len() >= 2
                && has_congruent_pair(keys_in_slot(keys@, *top_hash, i))) ==> r is None,
        r is None ==> top_level_may_fail(keys@, *top_hash),
        r matches Some(buckets) ==> {
            &&& buckets@.len() == keys@.len()
            &&& slots_total(buckets@) == top_level_load(keys@, *top_hash, keys@.len() as int)
            &&& forall|i: int|
                0 <= i < keys@.len() ==> {
                    let b = #[trigger] buckets@[i];
                    let part = keys_in_slot(keys@, *top_hash, i);
                    &&& b.wf()
                    &&& b.key_set() == part.to_set()
                    &&& b.slot_count() == part.len() * part.len()
                    &&& b.key_set().len() == part.len()
                    &&& b is Table ==> part.len() >= 2
                    &&& part.len() >= 2 ==> (b matches Bucket::Table { hash, .. } && collision_free(
                        part,
                        hash,
                    ))
                }
        },
{
    let n = keys.len();
    let m = n;
    let partitioned = partition(keys, top_hash);
    let total = sum_of_squares(&partitioned);
    proof {
        lemma_parts_load(partitioned@, keys@, *top_hash, m as int);
        assert(partitioned@.take(m as int) =~= partitioned@);
    }

    if total > 4 * (n as u128) {
        // Too many keys share buckets: the top-level hash is rejected.
        return None;
    }

    let mut buckets: Vec<Bucket> = Vec::with_capacity(m);
    let mut success = true;

    let mut i: usize = 0;
    while i < m
        invariant_except_break
            success,
        invariant
            i <= m,
            m == partitioned@.len(),
            buckets@.len() == i,
            forall|j: int|
                0 <= j < m ==> #[trigger] partitioned@[j]@ == keys_in_slot(keys@, *top_hash, j),
            forall|j: int|
                0 <= j < i ==> {
                    let b = #[trigger] buckets@[j];
                    let part = partitioned@[j]@;
                    &&& b.wf()
                    &&& b.key_set() == part.to_set()
                    &&& b.slot_count() == part.len() * part.len()
                    &&& b.key_set().len() == part.len()
                    &&& b is Table ==> part.len() >= 2
                    &&& part.len() >= 2 ==> (b matches Bucket::Table { hash, .. }
                        && collision_free(part, hash))
                    &&& !(part.len() >= 2 && has_congruent_pair(part))
                },
        ensures
            success ==> buckets@.len() == m,
            !success ==> exists|j: int|
                0 <= j < m && #[trigger] keys_in_slot(keys@, *top_hash, j).len() >= 2,
            !success ==> exists|j: int|
                0 <= j < m && bucket_may_fail(#[trigger] keys_in_slot(keys@, *top_hash, j)),
        decreases m - i,
    {
        match build_bucket(partitioned[i].as_slice()) {
            Some(bucket) => buckets.push(bucket),
            None => {
                proof {
                    assert(keys_in_slot(keys@, *top_hash, i as int).len() >= 2);
                    assert(bucket_may_fail(keys_in_slot(keys@, *top_hash, i as int)));
                }
                success = false;
                break;
            },
        }
        i += 1;
    }

    if success {
        proof {
            lemma_slots_total(buckets@, partitioned@);
            if exists|j: int|
                0 <= j < m && #[trigger] keys_in_slot(keys@, *top_hash, j).len() >= 2
                    && has_congruent_pair(keys_in_slot(keys@, *top_hash, j)) {
                let j = choose|j: int|
                    0 <= j < m && #[trigger] keys_in_slot(keys@, *top_hash, j).len() >= 2
                        && has_congruent_pair(keys_in_slot(keys@, *top_hash, j));
                assert(partitioned@[j]@ == keys_in_slot(keys@, *top_hash, j));
                let b = buckets@[j];
                assert(false);
            }
        }
        Some(buckets)
    } else {
        None
    }
}

/// `tops` are `MAX_TOP_LEVEL_TRIES` drawable top-level hashes for the keys
/// `unique` (sorted, each once), each of which can be rejected.
pub open spec fn top_level_draws_fail(unique: Seq<u64>, tops: Seq<UniversalHash>) -> bool {
    &&& tops.len() == MAX_TOP_LEVEL_TRIES
    &&& forall|t: int|
        0 <= t < tops.len() ==> drawable(#[trigger] tops[t], unique.len()) && top_level_may_fail(
            unique,
            tops[t],
        )
}

/// Building a perfect hash set of `keys` can fail: there are
/// `MAX_TOP_LEVEL_TRIES` drawable top-level hashes, each of which can be
/// rejected for them.
pub open spec fn construction_may_fail(keys: Set<u64>) -> bool {
    exists|unique: Seq<u64>, tops: Seq<UniversalHash>|
        strictly_increasing(unique) && unique.to_set() == keys && #[trigger] top_level_draws_fail(
            unique,
            tops,
        )
}

/// Law: building a perfect hash set can fail only for two or more keys.
pub proof fn lemma_construction_may_fail_needs_two_keys(keys: Set<u64>)
    requires
        construction_may_fail(keys),
    ensures
        keys.finite(),
        keys.len() >= 2,
{
    let (unique, tops) = choose|unique: Seq<u64>, tops: Seq<UniversalHash>|
        strictly_increasing(unique) && unique.to_set() == keys && #[trigger] top_level_draws_fail(
            unique,
            tops,
        );
    lemma_strictly_increasing_no_duplicates(unique);
    unique.unique_seq_to_set();
    if unique.len() <= 1 {
        let h = tops[0];
        assert(top_level_may_fail(unique, h));
        assert forall|i: int| 0 <= i < unique.len() implies !bucket_may_fail(
            #[trigger] keys_in_slot(unique, h, i),
        ) by {
            unique.lemma_filter_len(|k: u64| h.hash_of(k) == i);
        }
        if unique.len() == 1 {
            unique.lemma_filter_len(|k: u64| h.hash_of(k) == 0);
            assert(top_level_load(unique, h, 0) == 0);
            assert(top_level_load(unique, h, 1) <= 1) by (nonlinear_arith)
                requires
                    top_level_load(unique, h, 1) == top_level_load(unique, h, 0) + keys_in_slot(
                        unique,
                        h,
                        0,
                    ).len() * keys_in_slot(unique, h, 0).len(),
                    top_level_load(unique, h, 0) == 0,
                    keys_in_slot(unique, h, 0).len() <= 1,
            ;
        } else {
            assert(top_level_load(unique, h, 0) == 0);
        }
        assert(false);
    }
}

/// Two different keys are congruent modulo `PRIME`: every hash of the
/// family sends them to the same slot, so no perfect hash exists.
pub open spec fn has_distinct_congruent_keys(keys: Seq<u64>) -> bool {
    exists|i: int, j: int|
        0 <= i < keys.len() && 0 <= j < keys.len() && keys[i] != keys[j] && #[trigger] (keys[i]
            % PRIME) == #[trigger] (keys[j] % PRIME)
}

/// The construction drew no suitable random hash within the allowed number
/// of attempts.
#[derive(Debug, Clone, Copy, PartialEq, Eq)]
pub struct ConstructionFailed;

/// A static set of keys with constant-time membership: the top-level hash
/// picks a bucket, and a bucket with several keys is a collision-free table.
///
/// With `n` keys the top-level table has `n` buckets, and a bucket of `k`
/// keys has `k^2` slots.
#[derive(Debug)]
pub struct PerfectHashSet {
    size: usize,
    top_hash: UniversalHash,
    buckets: Vec<Bucket>,
    keys: Vec<u64>,
}

impl View for PerfectHashSet {
    type V = Set<u64>;

    closed spec fn view(&self) -> Set<u64> {
        self.keys@.to_set()
    }
}

impl PerfectHashSet {
    /// The keys are stored sorted and once each; every key sits in the bucket
    /// that the top-level hash assigns to it, and the buckets hold no other keys.
    pub closed spec fn wf(&self) -> bool {
        &&& strictly_increasing(self.keys@)
        &&& self.size == self.keys@.len()
        &&& self.keys@.len() == 0 ==> self.buckets@.len() == 0 && self.top_hash.table_size() == 0
        &&& self.keys@.len() > 0 ==> self.buckets@.len() == self.top_hash.table_size()
            && self.top_hash.table_size() == self.keys@.len()
        &&& slots_total(self.buckets@) <= 4 * self.keys@.len()
        &&& forall|i: int|
            0 <= i < self.buckets@.len() ==> {
                let b = #[trigger] self.buckets@[i];
                &&& b.wf()
                &&& b.key_set().finite()
                &&& b.slot_count() == b.key_set().len() * b.key_set().len()
                &&& b is Table ==> b.key_set().len() >= 2
            }
        &&& forall|i: int, k: u64|
            0 <= i < self.buckets@.len() && #[trigger] self.buckets@[i].key_set().contains(k)
                ==> self.keys@.contains(k) && self.top_hash.hash_of(k) == i
        &&& forall|k: u64|
            #[trigger] self.keys@.contains(k) ==> self.buckets@[self.top_hash.hash_of(
                k,
            )].key_set().contains(k)
    }

    /// The number of buckets of the top-level table.
    pub closed spec fn bucket_count(&self) -> nat {
        self.buckets@.len()
    }

    /// The number of slots of all the buckets.
    pub closed spec fn slot_count(&self) -> nat {
        slots_total(self.buckets@)
    }

    /// The top-level hash.
    pub closed spec fn top_level_hash(&self) -> UniversalHash {
        self.top_hash
    }

    /// Bucket `i` of the top-level table.
    pub closed spec fn bucket(&self, i: int) -> Bucket {
        self.buckets@[i]
    }

    /// The squared key counts of the buckets `0..k`, added up.
    pub open spec fn squared_bucket_sizes(&self, k: int) -> nat
        decreases k,
    {
        if k <= 0 {
            0
        } else {
            self.squared_bucket_sizes(k - 1) + self.bucket(k - 1).key_set().len() * self.bucket(
                k - 1,
            ).key_set().len()
        }
    }

    proof fn lemma_squared_bucket_sizes(&self, k: int)
        requires
            self.wf(),
            0 <= k <= self.buckets@.len(),
        ensures
            self.squared_bucket_sizes(k) == slots_total(self.buckets@.take(k)),
        decreases k,
    {
        if k > 0 {
            self.lemma_squared_bucket_sizes(k - 1);
            assert(self.buckets@.take(k).drop_last() =~= self.buckets@.take(k - 1));
            assert(self.buckets@.take(k).last() == self.buckets@[k - 1]);
        }
    }

    /// Law: a set of `n` keys takes linear space: `n` buckets (the top-level
    /// table has `n` slots, none when the set is empty), and the squared key
    /// counts of the buckets, which are their slot counts, add up to at most `4 n`.
    pub proof fn lemma_linear_space(&self)
        requires
            self.wf(),
        ensures
            self.bucket_count() == self@.len(),
            self.top_level_hash().table_size() == self@.len(),
            self.slot_count() == self.squared_bucket_sizes(self.bucket_count() as int),
            self.slot_count() <= 4 * self@.len(),
    {
        lemma_strictly_increasing_no_duplicates(self.keys@);
        self.keys@.unique_seq_to_set();
        self.lemma_squared_bucket_sizes(self.buckets@.len() as int);
        assert(self.buckets@.take(self.buckets@.len() as int) =~= self.buckets@);
    }

    /// Law: the set holds no two different keys that are congruent modulo
    /// `PRIME`, since every hash would send them to the same slot.
    pub proof fn lemma_no_congruent_keys(&self)
        requires
            self.wf(),
        ensures
            forall|x: u64, y: u64|
                self@.contains(x) && self@.contains(y) && x != y ==> x % PRIME != y % PRIME,
    {
        assert forall|x: u64, y: u64|
            self@.contains(x) && self@.contains(y) && x != y implies x % PRIME != y % PRIME by {
            if x % PRIME == y % PRIME {
                assert(self.keys@.contains(x) && self.keys@.contains(y));
                lemma_congruent_same_slot(self.top_hash, x, y);
                let i = self.top_hash.hash_of(x);
                let b = self.buckets@[i];
                assert(b.key_set().contains(x) && b.key_set().contains(y));
                if let Bucket::Table { hash, slots } = b {
                    let sx = choose|s: int| 0 <= s < slots@.len() && slots@[s] == Some(x);
                    let sy = choose|s: int| 0 <= s < slots@.len() && slots@[s] == Some(y);
                    assert(hash.hash_of(slots@[sx].unwrap()) == sx);
                    assert(hash.hash_of(slots@[sy].unwrap()) == sy);
                    lemma_congruent_same_slot(hash, x, y);
                }
            }
        }
    }

    /// Law: bucket `i` holds exactly the keys that the top-level hash sends
    /// to `i`; it is `Empty` when there are none, `Single` when there is one,
    /// and a well-formed table of `k^2` slots when there are `k >= 2`.
    pub proof fn lemma_bucket_layout(&self, i: int)
        requires
            self.wf(),
            0 <= i < self.bucket_count(),
        ensures
            self.bucket(i).wf(),
            self.bucket(i).key_set() == self@.filter(
                |k: u64| self.top_level_hash().hash_of(k) == i,
            ),
            self.bucket(i).key_set().finite(),
            self.bucket(i).key_set().len() == 0 ==> self.bucket(i) is Empty,
            self.bucket(i).key_set().len() == 1 ==> self.bucket(i) is Single,
            self.bucket(i).key_set().len() >= 2 ==> self.bucket(i) is Table && self.bucket(
                i,
            ).slot_count() == self.bucket(i).key_set().len() * self.bucket(i).key_set().len(),
    {
        let b = self.buckets@[i];
        assert(b.key_set() =~= self@.filter(|k: u64| self.top_hash.hash_of(k) == i)) by {
            assert forall|k: u64| b.key_set().contains(k) implies self@.contains(k)
                && self.top_hash.hash_of(k) == i by {
                assert(self.buckets@[i].key_set().contains(k));
            }
            assert forall|k: u64| self@.contains(k) && self.top_hash.hash_of(k) == i
                implies b.key_set().contains(k) by {
                assert(self.keys@.contains(k));
            }
        }
        if let Bucket::Single(k) = b {
            assert(b.key_set().len() == 1);
        }
    }

    /// Builds the set of the given keys (duplicates are dropped). The hash
    /// functions are drawn at random: up to `MAX_TOP_LEVEL_TRIES` top-level
    /// hashes are tried, and one is kept when the squared bucket sizes add up
    /// to at most `4 n` and every bucket gets a collision-free table.
    /// `Err` means that no attempt succeeded; an input with at most one
    /// distinct key always succeeds.
    pub fn new(keys: &[u64]) -> (r: Result<Self, ConstructionFailed>)
        ensures
            r matches Ok(s) ==> s.wf() && s@ == keys@.to_set(),
            keys@.to_set().len() <= 1 ==> r is Ok,
            has_distinct_congruent_keys(keys@) ==> r is Err,
            r is Err ==> construction_may_fail(keys@.to_set()),
    {
        let unique = sorted_unique(keys);
        proof {
            lemma_strictly_increasing_no_duplicates(unique@);
            unique@.unique_seq_to_set();
        }

        let n = unique.len();
        proof {
            if keys@.len() == 0 && n > 0 {
                assert(unique@.contains(unique@[0]));
                assert(keys@.to_set().contains(unique@[0]));
                assert(keys@.contains(unique@[0]));
            }
        }
        if n == 0 {
            let s = Self {
                size: 0,
                top_hash: UniversalHash::new(1, 0, 0),
                buckets: Vec::new(),
                keys: unique,
            };
            proof {
                assert(keys@.to_set() =~= Set::<u64>::empty()) by {
                    assert forall|k: u64| !keys@.to_set().contains(k) by {
                        if unique@.to_set().contains(k) {
                            assert(unique@.contains(k));
                        }
                    }
                }
                if has_distinct_congruent_keys(keys@) {
                    let (a, b) = choose|a: int, b: int|
                        0 <= a < keys@.len() && 0 <= b < keys@.len() && keys@[a] != keys@[b]
                            && #[trigger] (keys@[a] % PRIME) == #[trigger] (keys@[b] % PRIME);
                    assert(keys@.to_set().contains(keys@[a]));
                }
            }
            return Ok(s);
        }

        let m = n;

        // The top-level hashes drawn so far, all of which were rejected.
        let ghost mut tops: Seq<UniversalHash> = Seq::empty();
        let mut attempt: usize = 0;
        while attempt < MAX_TOP_LEVEL_TRIES
            invariant
                attempt <= MAX_TOP_LEVEL_TRIES,
                tops.len() == attempt,
                forall|t: int|
                    0 <= t < tops.len() ==> drawable(#[trigger] tops[t], n as nat)
                        && top_level_may_fail(unique@, tops[t]),
                n == unique@.len(),
                m == n,
                n > 0,
                strictly_increasing(unique@),
                unique@.to_set() == keys@.to_set(),
                n == 1 ==> attempt == 0,
            decreases MAX_TOP_LEVEL_TRIES - attempt,
        {
            attempt += 1;
            let top_hash = random_hash(m);
            proof {
                if n == 1 {
                    // With one key and one bucket, the key lands in bucket 0
                    // whatever hash was drawn: the hash is always kept.
                    let part = keys_in_slot(unique@, top_hash, 0);
                    assert(top_hash.hash_of(unique@[0]) == 0);
                    unique@.lemma_filter_contains(|k: u64| top_hash.hash_of(k) == 0, 0);
                    unique@.lemma_filter_len(|k: u64| top_hash.hash_of(k) == 0);
                    assert(part.len() == 1);
                    assert(top_level_load(unique@, top_hash, 0) == 0);
                    assert(top_level_load(unique@, top_hash, 1) == 1);
                }
            }
            match try_top_level(&unique, &top_hash) {
                Some(buckets) => {
                    let s = Self { size: n, top_hash, buckets, keys: unique };
                    proof {
                        if has_distinct_congruent_keys(keys@) {
                            let (a, b) = choose|a: int, b: int|
                                0 <= a < keys@.len() && 0 <= b < keys@.len() && keys@[a]
                                    != keys@[b] && #[trigger] (keys@[a] % PRIME) == #[trigger] (
                                keys@[b] % PRIME);
                            let x = keys@[a];
                            let y = keys@[b];
                            assert(keys@.to_set().contains(x) && keys@.to_set().contains(y));
                            assert(unique@.contains(x) && unique@.contains(y));
                            lemma_congruent_same_slot(top_hash, x, y);
                            let p = top_hash.hash_of(x);
                            lemma_keys_in_slot(unique@, top_hash, p, x);
                            lemma_keys_in_slot(unique@, top_hash, p, y);
                            let part = keys_in_slot(unique@, top_hash, p);
                            let ia = choose|t: int| 0 <= t < part.len() && part[t] == x;
                            let ib = choose|t: int| 0 <= t < part.len() && part[t] == y;
                            assert(part[ia] % PRIME == part[ib] % PRIME);
                            assert(has_congruent_pair(part));
                            assert(false);
                        }
                        assert forall|j: int, k: u64|
                            0 <= j < s.buckets@.len()
                                && #[trigger] s.buckets@[j].key_set().contains(k)
                                implies s.keys@.contains(k) && s.top_hash.hash_of(k) == j by {
                            lemma_keys_in_slot(unique@, top_hash, j, k);
                        }
                        assert forall|k: u64| #[trigger] s.keys@.contains(k) implies s.buckets@[
                            s.top_hash.hash_of(k)
                        ].key_set().contains(k) by {
                            let j = top_hash.hash_of(k);
                            lemma_keys_in_slot(unique@, top_hash, j, k);
                        }
                    }
                    return Ok(s);
                },
                None => {
                    proof {
                        tops = tops.push(top_hash);
                    }
                },
            }
        }
        proof {
            assert(top_level_draws_fail(unique@, tops));
        }

        Err(ConstructionFailed)
    }

    /// Whether the set has no keys.
    pub fn is_empty(&self) -> (empty: bool)
        requires
            self.wf(),
        ensures
            empty == (self@ == Set::<u64>::empty()),
    {
        proof {
            if self.keys@.len() > 0 {
                assert(self@.contains(self.keys@[0]));
            } else {
                assert(self@ =~= Set::<u64>::empty());
            }
        }
        self.size == 0
    }

    /// Whether `key` is in the set.
    pub fn contains(&self, key: u64) -> (found: bool)
        requires
            self.wf(),
        ensures
            found == self@.contains(key),
    {
        if self.buckets.is_empty() {
            proof {
                if self@.contains(key) {
                    assert(self.keys@.contains(key));
                }
            }
            return false;
        }

        let bucket_index = self.top_hash.apply(key);
        proof {
            if self.keys@.contains(key) {
                assert(self.buckets@[self.top_hash.hash_of(key)].key_set().contains(key));
            }
        }
        self.buckets[bucket_index].contains(key)
    }

    /// The keys of the set in ascending order.
    pub fn extract_keys(&self) -> (keys: Vec<u64>)
        requires
            self.wf(),
        ensures
            strictly_increasing(keys@),
            keys@.to_set() == self@,
    {
        let keys = self.keys.clone();
        proof {
            assert(keys@ =~= self.keys@);
        }
        keys
    }
}

} // verus!
