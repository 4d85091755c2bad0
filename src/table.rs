//! The elastic hash table: levels of halving size, load-adaptive insertion,
//! and a search that stops in a level at the first empty probe.

use crate::keys::TableKey;
use crate::layout::{build_level_sizes, lemma_level_sizes_total, level_sizes, total};
use crate::quarter_log::{quarter_log, quarter_log2_ceil};
use vstd::arithmetic::div_mod::lemma_add_mod_noop_right;
use vstd::prelude::*;

verus! {

/// The tuning constant `c`: the factor of the logarithms in the probe limits
/// (`ceil(4 * log2(..))`), and the number of probes a level's successor gets.
pub const PROBE_CONSTANT: usize = 4;

/// Why a table could not be built or an entry could not be stored.
#[derive(Debug, Clone, Copy, PartialEq, Eq, Structural)]
pub enum TableError {
    /// The capacity is zero, or delta is not strictly between 0 and 1.
    ConfigurationError,
    /// The table already holds its maximum number of entries.
    CapacityExceeded,
    /// No level offered a free slot on the key's probe sequences.
    InsertionExhausted,
    /// The key is already stored; stored entries are never replaced.
    DuplicateKey,
}

/// A read-only snapshot of a table's occupancy.
pub struct TableStatus {
    /// The number of occupied slots of each level.
    pub occupancies: Vec<usize>,
    /// The number of slots of each level.
    pub level_lengths: Vec<usize>,
    pub num_inserts: usize,
    pub max_inserts: usize,
}

/// A fixed-capacity table of `(key, value)` entries. Delta, the share of
/// slots kept free, is the exact ratio `delta_num / delta_den`, so that every
/// threshold on it is decided without rounding.
pub struct ElasticHashTable<K, V> {
    capacity: usize,
    delta_num: u32,
    delta_den: u32,
    max_inserts: usize,
    num_inserts: usize,
    levels: Vec<Vec<Option<(K, V)>>>,
    occupancies: Vec<usize>,
}

/// The `j`-th quadratic probe of a level of `size` slots, from the hash `h`
/// with its top bits cleared.
pub open spec fn probe_index(h: u64, j: int, size: int) -> int {
    ((h & 0x7FFF_FFFFu64) as int + j * j) % size
}

proof fn lemma_probe_step(h: u64, j: int, size: int)
    requires
        size > 0,
        j >= 0,
    ensures
        probe_index(h, j + 1, size) == (probe_index(h, j, size) + 2 * j + 1) % size,
{
    let base = (h & 0x7FFF_FFFFu64) as int;
    assert((j + 1) * (j + 1) == j * j + 2 * j + 1) by (nonlinear_arith);
    lemma_add_mod_noop_right(2 * j + 1, base + j * j, size);
}

/// The sum of the occupancy counters.
pub open spec fn sum_counts(s: Seq<usize>) -> nat
    decreases s.len(),
{
    if s.len() == 0 {
        0
    } else {
        sum_counts(s.drop_last()) + s.last() as nat
    }
}

proof fn lemma_sum_counts_bump(s: Seq<usize>, i: int)
    requires
        0 <= i < s.len(),
        s[i] < usize::MAX,
    ensures
        sum_counts(s.update(i, (s[i] + 1) as usize)) == sum_counts(s) + 1,
    decreases s.len(),
{
    let t = s.update(i, (s[i] + 1) as usize);
    if i == s.len() - 1 {
        assert(t.drop_last() =~= s.drop_last());
    } else {
        assert(t.drop_last() =~= s.drop_last().update(i, (s[i] + 1) as usize));
        lemma_sum_counts_bump(s.drop_last(), i);
    }
}

proof fn lemma_sum_counts_zero(s: Seq<usize>)
    requires
        forall|i: int| 0 <= i < s.len() ==> s[i] == 0,
    ensures
        sum_counts(s) == 0,
    decreases s.len(),
{
    if s.len() > 0 {
        lemma_sum_counts_zero(s.drop_last());
    }
}

/// `capacity - floor(delta * capacity)`.
pub open spec fn max_inserts_for(capacity: int, delta_num: int, delta_den: int) -> int {
    capacity - capacity * delta_num / delta_den
}

/// The number of occupied slots of a level.
pub open spec fn filled<T>(s: Seq<Option<T>>) -> nat
    decreases s.len(),
{
    if s.len() == 0 {
        0
    } else {
        filled(s.drop_last()) + if s.last() is Some { 1nat } else { 0nat }
    }
}

proof fn lemma_filled_le<T>(s: Seq<Option<T>>)
    ensures
        filled(s) <= s.len(),
    decreases s.len(),
{
    if s.len() > 0 {
        lemma_filled_le(s.drop_last());
    }
}

proof fn lemma_filled_fill<T>(s: Seq<Option<T>>, p: int, x: T)
    requires
        0 <= p < s.len(),
        s[p] is None,
    ensures
        filled(s.update(p, Some(x))) == filled(s) + 1,
    decreases s.len(),
{
    let t = s.update(p, Some(x));
    if p == s.len() - 1 {
        assert(t.drop_last() =~= s.drop_last());
    } else {
        assert(t.drop_last() =~= s.drop_last().update(p, Some(x)));
        lemma_filled_fill(s.drop_last(), p, x);
    }
}

proof fn lemma_filled_empty<T>(s: Seq<Option<T>>)
    requires
        forall|p: int| 0 <= p < s.len() ==> s[p] is None,
    ensures
        filled(s) == 0,
    decreases s.len(),
{
    if s.len() > 0 {
        lemma_filled_empty(s.drop_last());
    }
}

impl<K: TableKey, V> ElasticHashTable<K, V> {
    /// The `j`-th probe of key `k` in level `i` of `size` slots.
    pub open spec fn key_probe(k: K::V, i: int, j: int, size: int) -> int {
        probe_index(K::level_hash(k, i as u64), j, size)
    }

    pub closed spec fn spec_capacity(&self) -> nat {
        self.capacity as nat
    }

    pub closed spec fn spec_max_inserts(&self) -> nat {
        self.max_inserts as nat
    }

    pub closed spec fn spec_num_inserts(&self) -> nat {
        self.num_inserts as nat
    }

    /// The slots, level by level.
    pub closed spec fn slots(&self) -> Seq<Seq<Option<(K, V)>>> {
        self.levels@.map_values(|l: Vec<Option<(K, V)>>| l@)
    }

    /// The occupancy counter of each level.
    pub closed spec fn spec_occupancies(&self) -> Seq<usize> {
        self.occupancies@
    }

    /// Some slot holds key `k` with value `v`.
    pub open spec fn maps_to(&self, k: K::V, v: V) -> bool {
        exists|i: int, p: int|
            0 <= i < self.slots().len() && 0 <= p < self.slots()[i].len()
                && Self::holds_entry(#[trigger] self.slots()[i][p], k, v)
    }

    /// Some slot holds key `k`.
    pub open spec fn contains_key(&self, k: K::V) -> bool {
        exists|v: V| self.maps_to(k, v)
    }

    /// The value stored under `k`, if any.
    pub open spec fn lookup(&self, k: K::V) -> Option<V> {
        if self.contains_key(k) {
            Some(choose|v: V| self.maps_to(k, v))
        } else {
            None
        }
    }

    /// The slot content `e` is key `k` with value `v`.
    pub open spec fn holds_entry(e: Option<(K, V)>, k: K::V, v: V) -> bool {
        match e {
            Some(kv) => kv.0@ == k && kv.1 == v,
            None => false,
        }
    }

    pub open spec fn entry_key(e: (K, V)) -> K::V {
        e.0@
    }

    /// The slot `p` of level `i` is the `j`-th probe of `k` there, and every
    /// earlier probe of `k` in that level is occupied.
    pub open spec fn first_free_probe(
        slots: Seq<Seq<Option<(K, V)>>>,
        k: K::V,
        i: int,
        p: int,
        j: int,
    ) -> bool {
        0 <= j < slots[i].len() && Self::key_probe(k, i, j, slots[i].len() as int) == p
            && forall|j2: int| 0 <= j2 < j ==>
                (#[trigger] slots[i][Self::key_probe(k, i, j2, slots[i].len() as int)]) is Some
    }

    /// Each stored key sits at a probe of its own sequence in its level, and
    /// every earlier probe of that sequence is occupied.
    pub open spec fn placed(slots: Seq<Seq<Option<(K, V)>>>) -> bool {
        forall|i: int, p: int|
            0 <= i < slots.len() && 0 <= p < slots[i].len() && (#[trigger] slots[i][p]) is Some
                ==> exists|j: int| Self::first_free_probe(slots, Self::entry_key(slots[i][p]->0), i, p, j)
    }

    /// No key is stored twice.
    pub open spec fn keys_unique(slots: Seq<Seq<Option<(K, V)>>>) -> bool {
        forall|i1: int, p1: int, i2: int, p2: int|
            0 <= i1 < slots.len() && 0 <= p1 < slots[i1].len() && 0 <= i2 < slots.len() && 0 <= p2
                < slots[i2].len() && (#[trigger] slots[i1][p1]) is Some
                && (#[trigger] slots[i2][p2]) is Some && Self::entry_key(slots[i1][p1]->0) == Self::entry_key(slots[i2][p2]->0)
                ==> i1 == i2 && p1 == p2
    }

    /// The table's invariant: the level layout, the counters, and the two
    /// facts that search relies on.
    pub closed spec fn wf(&self) -> bool {
        &&& 0 < self.delta_num < self.delta_den
        &&& self.capacity > 0
        &&& self.levels@.len() == self.occupancies@.len()
        &&& self.levels@.len() == level_sizes(self.capacity as nat).len()
        &&& self.levels@.len() >= 1
        &&& forall|i: int|
            0 <= i < self.levels@.len() ==> {
                &&& (#[trigger] self.levels@[i])@.len() == level_sizes(self.capacity as nat)[i]
                &&& 0 < self.levels@[i]@.len() <= 0x8000_0000_0000_0000
                &&& self.occupancies@[i] == filled(self.levels@[i]@)
            }
        &&& self.max_inserts == max_inserts_for(
            self.capacity as int,
            self.delta_num as int,
            self.delta_den as int,
        )
        &&& self.num_inserts <= self.max_inserts
        &&& self.num_inserts == sum_counts(self.occupancies@)
        &&& Self::placed(self.slots())
        &&& Self::keys_unique(self.slots())
    }

    /// `next` is `self` after storing `v` under the new key `k`.
    pub open spec fn stores_after(&self, next: Self, k: K::V, v: V) -> bool {
        &&& next.wf()
        &&& next.lookup(k) == Some(v)
        &&& forall|k2: K::V| k2 != k ==> #[trigger] next.lookup(k2) == self.lookup(k2)
        &&& next.spec_num_inserts() == self.spec_num_inserts() + 1
        &&& next.spec_max_inserts() == self.spec_max_inserts()
    }

    /// The number of slots of each level.
    pub open spec fn level_lengths(&self) -> Seq<nat> {
        self.slots().map_values(|l: Seq<Option<(K, V)>>| l.len())
    }

    /// Builds an empty table of `capacity` slots that keeps a share
    /// `delta_num / delta_den` of them free.
    pub fn new(capacity: usize, delta_num: u32, delta_den: u32) -> (r: Result<Self, TableError>)
        ensures
            r is Err <==> (capacity == 0 || delta_num == 0 || delta_num >= delta_den),
            r is Err ==> r == Err::<Self, TableError>(TableError::ConfigurationError),
            r matches Ok(t) ==> {
                &&& t.wf()
                &&& t.spec_capacity() == capacity
                &&& t.spec_max_inserts() == max_inserts_for(
                    capacity as int,
                    delta_num as int,
                    delta_den as int,
                )
                &&& t.spec_num_inserts() == 0
                &&& t.spec_delta_num() == delta_num
                &&& t.spec_delta_den() == delta_den
                &&& t.spec_occupancies().len() == t.slots().len()
                &&& t.level_lengths() =~= level_sizes(capacity as nat)
                &&& forall|i: int, p: int|
                    0 <= i < t.slots().len() && 0 <= p < t.slots()[i].len()
                        ==> (#[trigger] t.slots()[i][p]) is None
                &&& forall|i: int| 0 <= i < t.slots().len() ==> #[trigger] t.spec_occupancies()[i] == 0
                &&& forall|k: K::V| (#[trigger] t.lookup(k)) is None
            },
    {
        if capacity == 0 || delta_num == 0 || delta_num >= delta_den {
            return Err(TableError::ConfigurationError);
        }
        let c = capacity as u128;
        assert(c * (delta_num as u128) <= 0xFFFF_FFFF_FFFF_FFFFu128 * 0xFFFF_FFFFu128) by (nonlinear_arith)
            requires c <= 0xFFFF_FFFF_FFFF_FFFFu128, delta_num <= 0xFFFF_FFFFu32;
        let product = c * delta_num as u128;
        let reserved = product / delta_den as u128;
        proof {
            assert(product <= c * delta_den) by (nonlinear_arith)
                requires product == c * delta_num, delta_num < delta_den, c >= 0;
            vstd::arithmetic::div_mod::lemma_div_is_ordered(
                product as int,
                c * delta_den,
                delta_den as int,
            );
            vstd::arithmetic::div_mod::lemma_div_by_multiple(c as int, delta_den as int);
        }
        let max_inserts = capacity - reserved as usize;
        let sizes = build_level_sizes(capacity);
        let mut levels: Vec<Vec<Option<(K, V)>>> = Vec::new();
        let mut occupancies: Vec<usize> = Vec::new();
        let mut n: usize = 0;
        while n < sizes.len()
            invariant
                n <= sizes@.len(),
                levels@.len() == n,
                occupancies@.len() == n,
                forall|i: int| 0 <= i < n ==> {
                    &&& (#[trigger] levels@[i])@.len() == sizes@[i]
                    &&& forall|p: int| 0 <= p < levels@[i]@.len() ==> (#[trigger] levels@[i]@[p]) is None
                    &&& occupancies@[i] == 0
                },
            decreases sizes@.len() - n,
        {
            let size = sizes[n];
            let mut level: Vec<Option<(K, V)>> = Vec::new();
            let mut p: usize = 0;
            while p < size
                invariant
                    p <= size,
                    level@.len() == p,
                    forall|q: int| 0 <= q < p ==> (#[trigger] level@[q]) is None,
                decreases size - p,
            {
                level.push(None);
                p = p + 1;
            }
            levels.push(level);
            occupancies.push(0);
            n = n + 1;
        }
        let t = ElasticHashTable {
            capacity,
            delta_num,
            delta_den,
            max_inserts,
            num_inserts: 0,
            levels,
            occupancies,
        };
        proof {
            assert forall|i: int| 0 <= i < t.levels@.len() implies t.occupancies@[i] == filled(
                #[trigger] t.levels@[i]@,
            ) by {
                lemma_filled_empty(t.levels@[i]@);
            }
            assert(t.level_lengths() =~= level_sizes(capacity as nat));
            assert(t.max_inserts == max_inserts_for(capacity as int, delta_num as int, delta_den as int));
            assert forall|i: int, p: int|
                0 <= i < t.slots().len() && 0 <= p < t.slots()[i].len() implies (#[trigger] t.slots()[i][p]) is None by {
                assert(t.slots()[i] == t.levels@[i]@);
            }
            assert(Self::placed(t.slots()));
            assert(Self::keys_unique(t.slots()));
            assert forall|i: int| 0 <= i < t.occupancies@.len() implies #[trigger] t.occupancies@[i] == 0 by {
                assert(t.levels@[i]@.len() == sizes@[i]);
            }
            lemma_sum_counts_zero(t.occupancies@);
            assert(t.wf());
            assert(t.spec_max_inserts() == max_inserts_for(capacity as int, delta_num as int, delta_den as int));
            assert forall|k: K::V| (#[trigger] t.lookup(k)) is None by {
                if t.contains_key(k) {
                    let v = choose|v: V| t.maps_to(k, v);
                    let (i2, p2) = choose|i2: int, p2: int|
                        0 <= i2 < t.slots().len() && 0 <= p2 < t.slots()[i2].len() && Self::holds_entry(
                            #[trigger] t.slots()[i2][p2],
                            k,
                            v,
                        );
                    assert(t.slots()[i2][p2] is None);
                }
            }
        }
        Ok(t)
    }

    /// The probe after the `j`-th one at `idx`: `(idx + 2j + 1) mod size`,
    /// since `(j + 1)^2 = j^2 + 2j + 1`.
    fn advance_probe(idx: usize, j: usize, size: usize) -> (r: usize)
        requires
            idx < size,
            j < size,
        ensures
            r as int == (idx + 2 * j + 1) % (size as int),
            r < size,
    {
        let s = size as u128;
        let mut r = idx as u128 + 2 * (j as u128) + 1;
        if r >= s {
            proof {
                vstd::arithmetic::div_mod::lemma_mod_add_multiples_vanish(r as int - size, size as int);
            }
            r = r - s;
        }
        if r >= s {
            proof {
                vstd::arithmetic::div_mod::lemma_mod_add_multiples_vanish(r as int - size, size as int);
            }
            r = r - s;
        }
        proof {
            vstd::arithmetic::div_mod::lemma_small_mod(r as nat, size as nat);
        }
        r as usize
    }

    /// The `j`-th probe of `key` in level `level` of `size` slots.
    pub fn quad_probe(key: &K, level: usize, j: usize, size: usize) -> (r: usize)
        requires
            0 < size,
        ensures
            r as int == Self::key_probe(key@, level as int, j as int, size as int),
            r < size,
    {
        let h = key.hash_at(level as u64) & 0x7FFF_FFFFu64;
        let s = size as u128;
        assert((j as u128) * (j as u128) <= 0xFFFF_FFFF_FFFF_FFFFu128 * 0xFFFF_FFFF_FFFF_FFFFu128)
            by (nonlinear_arith)
            requires j <= 0xFFFF_FFFF_FFFF_FFFFu128;
        let jj = (j as u128 * j as u128) % s;
        let r = ((h as u128 + jj) % s) as usize;
        proof {
            lemma_add_mod_noop_right(h as int, j * j, size as int);
        }
        r
    }

    /// The value stored under `key`, if any.
    pub fn search(&self, key: &K) -> (r: Option<&V>)
        requires
            self.wf(),
        ensures
            r matches Some(v) ==> self.lookup(key@) == Some(*v),
            r is None ==> self.lookup(key@) is None,
    {
        let ghost s = self.slots();
        let nlevels = self.levels.len();
        let mut i: usize = 0;
        while i < nlevels
            invariant
                self.wf(),
                s == self.slots(),
                nlevels == s.len(),
                i <= nlevels,
                forall|i2: int, p: int|
                    0 <= i2 < i && 0 <= p < s[i2].len() && (#[trigger] s[i2][p]) is Some
                        ==> Self::entry_key(s[i2][p]->0) != key@,
            decreases nlevels - i,
        {
            let size = self.levels[i].len();
            assert(size == s[i as int].len());
            let mut j: usize = 0;
            let mut idx = Self::quad_probe(key, i, 0, size);
            let mut hit_empty = false;
            while j < size && !hit_empty
                invariant
                    self.wf(),
                    s == self.slots(),
                    i < nlevels == s.len(),
                    size == s[i as int].len(),
                    0 < size,
                    j <= size,
                    forall|j2: int|
                        0 <= j2 < j ==> s[i as int][#[trigger] Self::key_probe(key@, i as int, j2, size as int)] is Some
                            && Self::entry_key(s[i as int][Self::key_probe(key@, i as int, j2, size as int)]->0) != key@,
                    hit_empty ==> j < size && s[i as int][Self::key_probe(key@, i as int, j as int, size as int)] is None,
                    idx < size,
                    idx as int == Self::key_probe(key@, i as int, j as int, size as int),
                decreases 2 * (size - j) + if hit_empty { 0int } else { 1int },
            {
                match &self.levels[i][idx] {
                    Some(entry) => {
                        if entry.0.same_key(key) {
                            proof {
                                assert(self.maps_to(key@, entry.1));
                                self.lemma_maps_to_unique(key@, entry.1, choose|v: V| self.maps_to(key@, v));
                            }
                            return Some(&entry.1);
                        }
                        proof {
                            lemma_probe_step(K::level_hash(key@, i as u64), j as int, size as int);
                        }
                        idx = Self::advance_probe(idx, j, size);
                        j = j + 1;
                    },
                    None => {
                        hit_empty = true;
                    },
                }
            }
            proof {
                assert forall|p: int|
                    0 <= p < s[i as int].len() && (#[trigger] s[i as int][p]) is Some implies Self::entry_key(
                        s[i as int][p]->0,
                    ) != key@ by {
                    if Self::entry_key(s[i as int][p]->0) == key@ {
                        let j0 = choose|j0: int| Self::first_free_probe(s, key@, i as int, p, j0);
                        if j0 > j {
                            let q = Self::key_probe(key@, i as int, j as int, size as int);
                            assert(s[i as int][q] is Some);
                        }
                    }
                }
            }
            i = i + 1;
        }
        proof {
            if self.contains_key(key@) {
                let v = choose|v: V| self.maps_to(key@, v);
                let (i2, p2) = choose|i2: int, p2: int|
                    0 <= i2 < s.len() && 0 <= p2 < s[i2].len() && Self::holds_entry(
                        #[trigger] s[i2][p2],
                        key@,
                        v,
                    );
                assert(s[i2][p2] is Some);
            }
        }
        None
    }

    /// The number of free slots of level `i`.
    pub open spec fn free_slots(&self, i: int) -> int {
        self.slots()[i].len() - self.spec_occupancies()[i]
    }

    pub closed spec fn spec_delta_num(&self) -> nat {
        self.delta_num as nat
    }

    pub closed spec fn spec_delta_den(&self) -> nat {
        self.delta_den as nat
    }

    /// The free ratio of level `i` is above `delta / 2`.
    pub open spec fn above_half_delta(&self, i: int) -> bool {
        2 * self.spec_delta_den() * self.free_slots(i) > self.spec_delta_num() * self.slots()[i].len()
    }

    /// The free ratio of level `i` is above one quarter.
    pub open spec fn above_quarter(&self, i: int) -> bool {
        4 * self.free_slots(i) > self.slots()[i].len()
    }

    /// `max(1, ceil(c * min(log2(1 / load), log2(1 / delta))))` with `c = 4`
    /// and `load = free / size`.
    pub open spec fn probe_limit_of(size: int, free: int, delta_num: int, delta_den: int) -> int {
        let by_load = quarter_log(size, free);
        let by_delta = quarter_log(delta_den, delta_num);
        let n = if by_load < by_delta { by_load } else { by_delta };
        if n < 1 { 1 } else { n as int }
    }

    /// The probe index of the first free slot among the first `limit` probes
    /// of `k` in level `i`.
    pub open spec fn free_probe_within(
        slots: Seq<Seq<Option<(K, V)>>>,
        k: K::V,
        i: int,
        limit: nat,
    ) -> Option<int>
        decreases limit,
    {
        if limit == 0 {
            None
        } else {
            match Self::free_probe_within(slots, k, i, (limit - 1) as nat) {
                Some(p) => Some(p),
                None => {
                    let q = Self::key_probe(k, i, limit - 1, slots[i].len() as int);
                    if slots[i][q] is None {
                        Some(q)
                    } else {
                        None
                    }
                },
            }
        }
    }

    proof fn lemma_free_probe_within_stable(
        slots: Seq<Seq<Option<(K, V)>>>,
        k: K::V,
        i: int,
        n: nat,
        m: nat,
    )
        requires
            n <= m,
            Self::free_probe_within(slots, k, i, n) is Some,
        ensures
            Self::free_probe_within(slots, k, i, m) == Self::free_probe_within(slots, k, i, n),
        decreases m - n,
    {
        if n < m {
            Self::lemma_free_probe_within_stable(slots, k, i, n, (m - 1) as nat);
        }
    }

    /// Where the insertion policy, run from level `i` on, puts key `k`:
    /// a level whose free ratio is at most `delta / 2` is passed over; a level
    /// with more room gets its probe limit of probes, then the next level
    /// `PROBE_CONSTANT` probes, while the next level's free ratio is above one
    /// quarter, and otherwise a scan of all its probes; the last level is
    /// always scanned.
    pub open spec fn placement_from(&self, k: K::V, i: int) -> Option<(int, int)>
        decreases self.slots().len() - i,
    {
        let s = self.slots();
        let last = s.len() - 1;
        if i >= last || i < 0 {
            match Self::free_probe_within(s, k, last, s[last].len()) {
                Some(p) => Some((last, p)),
                None => None,
            }
        } else if self.above_half_delta(i) && self.above_quarter(i + 1) {
            let limit = Self::probe_limit_of(
                s[i].len() as int,
                self.free_slots(i),
                self.spec_delta_num() as int,
                self.spec_delta_den() as int,
            );
            let tries = if limit < s[i].len() { limit } else { s[i].len() as int };
            let tries_next = if (PROBE_CONSTANT as int) < s[i + 1].len() {
                PROBE_CONSTANT as int
            } else {
                s[i + 1].len() as int
            };
            match Self::free_probe_within(s, k, i, tries as nat) {
                Some(p) => Some((i, p)),
                None => match Self::free_probe_within(s, k, i + 1, tries_next as nat) {
                    Some(p) => Some((i + 1, p)),
                    None => self.placement_from(k, i + 1),
                },
            }
        } else if self.above_half_delta(i) {
            match Self::free_probe_within(s, k, i, s[i].len()) {
                Some(p) => Some((i, p)),
                None => self.placement_from(k, i + 1),
            }
        } else {
            self.placement_from(k, i + 1)
        }
    }

    proof fn lemma_occupancy_le(&self, i: int)
        requires
            self.wf(),
            0 <= i < self.slots().len(),
        ensures
            0 <= self.spec_occupancies()[i] <= self.slots()[i].len(),
            self.slots()[i].len() <= 0x8000_0000_0000_0000,
            self.slots()[i].len() > 0,
    {
        assert(self.levels@[i]@ == self.slots()[i]);
        lemma_filled_le(self.levels@[i]@);
    }

    fn free_count(&self, i: usize) -> (r: usize)
        requires
            self.wf(),
            i < self.slots().len(),
        ensures
            r == self.free_slots(i as int),
    {
        proof {
            self.lemma_occupancy_le(i as int);
        }
        self.levels[i].len() - self.occupancies[i]
    }

    fn has_room_above_half_delta(&self, i: usize) -> (r: bool)
        requires
            self.wf(),
            i < self.slots().len(),
        ensures
            r == self.above_half_delta(i as int),
    {
        proof {
            self.lemma_occupancy_le(i as int);
        }
        let free = self.free_count(i) as u128;
        let size = self.levels[i].len() as u128;
        let den = self.delta_den as u128;
        let num = self.delta_num as u128;
        assert(2 * den * free <= 2 * 0xFFFF_FFFFu128 * 0x8000_0000_0000_0000u128) by (nonlinear_arith)
            requires den <= 0xFFFF_FFFFu128, free <= 0x8000_0000_0000_0000u128;
        assert(num * size <= 0xFFFF_FFFFu128 * 0x8000_0000_0000_0000u128) by (nonlinear_arith)
            requires num <= 0xFFFF_FFFFu128, size <= 0x8000_0000_0000_0000u128;
        2 * den * free > num * size
    }

    fn has_room_above_quarter(&self, i: usize) -> (r: bool)
        requires
            self.wf(),
            i < self.slots().len(),
        ensures
            r == self.above_quarter(i as int),
    {
        proof {
            self.lemma_occupancy_le(i as int);
        }
        let free = self.free_count(i) as u128;
        let size = self.levels[i].len() as u128;
        4 * free > size
    }

    /// How many probes level `i` gets before insertion moves on.
    fn probe_limit(&self, i: usize) -> (r: usize)
        requires
            self.wf(),
            i < self.slots().len(),
            self.above_half_delta(i as int),
        ensures
            r as int == Self::probe_limit_of(
                self.slots()[i as int].len() as int,
                self.free_slots(i as int),
                self.delta_num as int,
                self.delta_den as int,
            ),
            r >= 1,
    {
        proof {
            self.lemma_occupancy_le(i as int);
        }
        let free = self.free_count(i);
        let size = self.levels[i].len();
        proof {
            assert(self.delta_num * size > 0) by (nonlinear_arith)
                requires self.delta_num > 0, size > 0;
            assert(free > 0) by (nonlinear_arith)
                requires
                    2 * self.delta_den * free > self.delta_num * size,
                    self.delta_num * size > 0,
                    free >= 0;
        }
        let by_load = quarter_log2_ceil(size as u64, free as u64);
        let by_delta = quarter_log2_ceil(self.delta_den as u64, self.delta_num as u64);
        let n = if by_load < by_delta { by_load } else { by_delta };
        let r: usize = if n < 1 { 1 } else { n as usize };
        r
    }

    /// Stores `(key, value)` by the load-adaptive policy and returns the level
    /// and the slot that now hold it.
    pub fn insert(&mut self, key: K, value: V) -> (r: Result<(usize, usize), TableError>)
        requires
            old(self).wf(),
        ensures
            final(self).wf(),
            final(self).spec_capacity() == old(self).spec_capacity(),
            final(self).spec_max_inserts() == old(self).spec_max_inserts(),
            final(self).spec_delta_num() == old(self).spec_delta_num(),
            final(self).spec_delta_den() == old(self).spec_delta_den(),
            final(self).spec_occupancies().len() == final(self).slots().len(),
            final(self).level_lengths() == old(self).level_lengths(),
            r != Err::<(usize, usize), TableError>(TableError::ConfigurationError),
            r is Ok ==> old(self).stores_after(*final(self), key@, value),
            (r is Ok) <==> (old(self).spec_num_inserts() < old(self).spec_max_inserts() && !old(
                self,
            ).contains_key(key@) && old(self).placement_from(key@, 0) is Some),
            (r == Err::<(usize, usize), TableError>(TableError::CapacityExceeded)) <==> old(
                self,
            ).spec_num_inserts() >= old(self).spec_max_inserts(),
            (r == Err::<(usize, usize), TableError>(TableError::DuplicateKey)) <==> (old(
                self,
            ).spec_num_inserts() < old(self).spec_max_inserts() && old(self).contains_key(key@)),
            r is Err ==> *final(self) == *old(self),
            r matches Ok((i, p)) ==> old(self).placement_from(key@, 0) == Some((i as int, p as int)),
            (r == Err::<(usize, usize), TableError>(TableError::InsertionExhausted)) <==> (old(
                self,
            ).spec_num_inserts() < old(self).spec_max_inserts() && !old(self).contains_key(key@) && old(
                self,
            ).placement_from(key@, 0) is None),
            r == Err::<(usize, usize), TableError>(TableError::InsertionExhausted) ==> {
                let s = old(self).slots();
                let last = s.len() - 1;
                forall|j: int|
                    0 <= j < s[last].len() ==> s[last][#[trigger] Self::key_probe(
                        key@,
                        last,
                        j,
                        s[last].len() as int,
                    )] is Some
            },
            r matches Ok((i, p)) ==> {
                let s = old(self).slots();
                &&& i < s.len()
                &&& p < s[i as int].len()
                &&& s[i as int][p as int] is None
                &&& exists|j: int| Self::first_free_probe(s, key@, i as int, p as int, j)
                &&& final(self).slots() == s.update(i as int, s[i as int].update(p as int, Some((key, value))))
                &&& final(self).spec_occupancies() == old(self).spec_occupancies().update(
                    i as int,
                    (old(self).spec_occupancies()[i as int] + 1) as usize,
                )
                &&& final(self).spec_num_inserts() == old(self).spec_num_inserts() + 1
                &&& final(self).lookup(key@) == Some(value)
                &&& forall|k: K::V| k != key@ ==> #[trigger] final(self).lookup(k) == old(self).lookup(k)
            },
    {
        if self.num_inserts >= self.max_inserts {
            return Err(TableError::CapacityExceeded);
        }
        if self.search(&key).is_some() {
            return Err(TableError::DuplicateKey);
        }
        self.insert_unique(key, value)
    }

    /// Stores `(key, value)` for a key that the caller knows is not stored
    /// yet, by the load-adaptive policy, and returns the level and the slot
    /// that now hold it. This skips the search that `insert` makes first.
    pub fn insert_unique(&mut self, key: K, value: V) -> (r: Result<(usize, usize), TableError>)
        requires
            old(self).wf(),
            !old(self).contains_key(key@),
        ensures
            final(self).wf(),
            final(self).spec_capacity() == old(self).spec_capacity(),
            final(self).spec_max_inserts() == old(self).spec_max_inserts(),
            final(self).spec_delta_num() == old(self).spec_delta_num(),
            final(self).spec_delta_den() == old(self).spec_delta_den(),
            final(self).spec_occupancies().len() == final(self).slots().len(),
            final(self).level_lengths() == old(self).level_lengths(),
            r != Err::<(usize, usize), TableError>(TableError::ConfigurationError),
            r is Ok ==> old(self).stores_after(*final(self), key@, value),
            (r is Ok) <==> (old(self).spec_num_inserts() < old(self).spec_max_inserts() && old(
                self,
            ).placement_from(key@, 0) is Some),
            (r == Err::<(usize, usize), TableError>(TableError::CapacityExceeded)) <==> old(
                self,
            ).spec_num_inserts() >= old(self).spec_max_inserts(),
            r != Err::<(usize, usize), TableError>(TableError::DuplicateKey),
            r is Err ==> *final(self) == *old(self),
            r matches Ok((i, p)) ==> old(self).placement_from(key@, 0) == Some((i as int, p as int)),
            (r == Err::<(usize, usize), TableError>(TableError::InsertionExhausted)) <==> (old(
                self,
            ).spec_num_inserts() < old(self).spec_max_inserts() && old(self).placement_from(key@, 0) is None),
            r == Err::<(usize, usize), TableError>(TableError::InsertionExhausted) ==> {
                let s = old(self).slots();
                let last = s.len() - 1;
                forall|j: int|
                    0 <= j < s[last].len() ==> s[last][#[trigger] Self::key_probe(
                        key@,
                        last,
                        j,
                        s[last].len() as int,
                    )] is Some
            },
            r matches Ok((i, p)) ==> {
                let s = old(self).slots();
                &&& i < s.len()
                &&& p < s[i as int].len()
                &&& s[i as int][p as int] is None
                &&& exists|j: int| Self::first_free_probe(s, key@, i as int, p as int, j)
                &&& final(self).slots() == s.update(i as int, s[i as int].update(p as int, Some((key, value))))
                &&& final(self).spec_occupancies() == old(self).spec_occupancies().update(
                    i as int,
                    (old(self).spec_occupancies()[i as int] + 1) as usize,
                )
                &&& final(self).spec_num_inserts() == old(self).spec_num_inserts() + 1
                &&& final(self).lookup(key@) == Some(value)
                &&& forall|k: K::V| k != key@ ==> #[trigger] final(self).lookup(k) == old(self).lookup(k)
            },
    {
        if self.num_inserts >= self.max_inserts {
            return Err(TableError::CapacityExceeded);
        }
        let last = self.levels.len() - 1;
        let mut i: usize = 0;
        while i < last
            invariant
                self.wf(),
                *self == *old(self),
                !self.contains_key(key@),
                self.num_inserts < self.max_inserts,
                last == self.slots().len() - 1,
                i <= last,
                self.placement_from(key@, 0) == self.placement_from(key@, i as int),
            decreases last - i,
        {
            let size = self.levels[i].len();
            let roomy = self.has_room_above_half_delta(i);
            let next_roomy = self.has_room_above_quarter(i + 1);
            if roomy && next_roomy {
                let limit = self.probe_limit(i);
                let tries = if limit < size { limit } else { size };
                if let Some(p) = self.find_free(&key, i, tries) {
                    self.put(i, p, key, value);
                    return Ok((i, p));
                }
                let next_size = self.levels[i + 1].len();
                let tries_next = if PROBE_CONSTANT < next_size { PROBE_CONSTANT } else { next_size };
                if let Some(p) = self.find_free(&key, i + 1, tries_next) {
                    self.put(i + 1, p, key, value);
                    return Ok((i + 1, p));
                }
            } else if roomy {
                if let Some(p) = self.find_free(&key, i, size) {
                    self.put(i, p, key, value);
                    return Ok((i, p));
                }
            }
            i = i + 1;
        }
        let last_size = self.levels[last].len();
        if let Some(p) = self.find_free(&key, last, last_size) {
            self.put(last, p, key, value);
            return Ok((last, p));
        }
        Err(TableError::InsertionExhausted)
    }

    /// The first free slot among the first `limit` probes of `key` in level `i`.
    fn find_free(&self, key: &K, i: usize, limit: usize) -> (r: Option<usize>)
        requires
            self.wf(),
            i < self.slots().len(),
            limit <= self.slots()[i as int].len(),
        ensures
            r matches Some(p) ==> {
                &&& p < self.slots()[i as int].len()
                &&& self.slots()[i as int][p as int] is None
                &&& exists|j: int| j < limit && Self::first_free_probe(self.slots(), key@, i as int, p as int, j)
            },
            r matches Some(p) ==> Self::free_probe_within(self.slots(), key@, i as int, limit as nat) == Some(
                p as int,
            ),
            r is None ==> Self::free_probe_within(self.slots(), key@, i as int, limit as nat) is None,
            r is None ==> forall|j: int|
                0 <= j < limit ==> self.slots()[i as int][#[trigger] Self::key_probe(
                    key@,
                    i as int,
                    j,
                    self.slots()[i as int].len() as int,
                )] is Some,
    {
        let ghost s = self.slots();
        let size = self.levels[i].len();
        assert(size == s[i as int].len());
        let mut j: usize = 0;
        let mut idx = Self::quad_probe(key, i, 0, size);
        while j < limit
            invariant
                idx < size,
                idx as int == Self::key_probe(key@, i as int, j as int, size as int),
                self.wf(),
                s == self.slots(),
                i < s.len(),
                size == s[i as int].len(),
                0 < size,
                limit <= size,
                j <= limit,
                forall|j2: int|
                    0 <= j2 < j ==> s[i as int][#[trigger] Self::key_probe(key@, i as int, j2, size as int)] is Some,
                Self::free_probe_within(s, key@, i as int, j as nat) is None,
            decreases limit - j,
        {
            if self.levels[i][idx].is_none() {
                proof {
                    assert(Self::first_free_probe(s, key@, i as int, idx as int, j as int));
                    assert(Self::free_probe_within(s, key@, i as int, (j + 1) as nat) == Some(idx as int));
                    Self::lemma_free_probe_within_stable(s, key@, i as int, (j + 1) as nat, limit as nat);
                }
                return Some(idx);
            }
            proof {
                lemma_probe_step(K::level_hash(key@, i as u64), j as int, size as int);
            }
            idx = Self::advance_probe(idx, j, size);
            j = j + 1;
        }
        None
    }

    /// Stores `(key, value)` in the free slot `p` of level `i`.
    fn put(&mut self, i: usize, p: usize, key: K, value: V)
        requires
            old(self).wf(),
            i < old(self).slots().len(),
            p < old(self).slots()[i as int].len(),
            old(self).slots()[i as int][p as int] is None,
            exists|j: int| Self::first_free_probe(old(self).slots(), key@, i as int, p as int, j),
            !old(self).contains_key(key@),
            old(self).num_inserts < old(self).max_inserts,
        ensures
            final(self).wf(),
            final(self).slots() == old(self).slots().update(
                i as int,
                old(self).slots()[i as int].update(p as int, Some((key, value))),
            ),
            final(self).spec_occupancies() == old(self).spec_occupancies().update(
                i as int,
                (old(self).spec_occupancies()[i as int] + 1) as usize,
            ),
            final(self).num_inserts == old(self).num_inserts + 1,
            final(self).capacity == old(self).capacity,
            final(self).max_inserts == old(self).max_inserts,
            final(self).delta_num == old(self).delta_num,
            final(self).delta_den == old(self).delta_den,
            final(self).lookup(key@) == Some(value),
            forall|k: K::V| k != key@ ==> #[trigger] final(self).lookup(k) == old(self).lookup(k),
    {
        let ghost s0 = self.slots();
        let ghost key_view = key@;
        let ghost entry = (key, value);
        let size = self.levels[i].len();
        let occ = self.occupancies[i];
        proof {
            lemma_filled_fill(self.levels@[i as int]@, p as int, entry);
            lemma_filled_le(self.levels@[i as int]@.update(p as int, Some(entry)));
            assert(self.levels@[i as int]@ == s0[i as int]);
            assert(self.levels@[i as int]@.update(p as int, Some(entry)).len() == self.levels@[i as int]@.len());
            assert(self.occupancies@[i as int] + 1 <= self.levels@[i as int]@.len());
            assert(self.occupancies@[i as int] + 1 <= size);
            lemma_sum_counts_bump(self.occupancies@, i as int);
        }
        self.levels[i][p] = Some((key, value));
        self.occupancies.set(i, occ + 1);
        self.num_inserts = self.num_inserts + 1;
        proof {
            let s1 = self.slots();
            assert(s1 =~= s0.update(i as int, s0[i as int].update(p as int, Some(entry))));
            assert forall|i2: int, p2: int|
                0 <= i2 < s1.len() && 0 <= p2 < s1[i2].len() && (#[trigger] s1[i2][p2]) is Some
                    implies exists|j: int| Self::first_free_probe(s1, Self::entry_key(s1[i2][p2]->0), i2, p2, j) by {
                let k = Self::entry_key(s1[i2][p2]->0);
                let j = choose|j: int| Self::first_free_probe(s0, k, i2, p2, j) || (i2 == i && p2 == p && Self::first_free_probe(s0, k, i2, p2, j));
                if i2 == i && p2 == p {
                    assert(k == key@);
                } else {
                    assert(s0[i2][p2] == s1[i2][p2]);
                }
                assert(Self::first_free_probe(s0, k, i2, p2, j));
                assert forall|j2: int| 0 <= j2 < j implies
                    (#[trigger] s1[i2][Self::key_probe(k, i2, j2, s1[i2].len() as int)]) is Some by {
                    assert(s0[i2][Self::key_probe(k, i2, j2, s0[i2].len() as int)] is Some);
                }
                assert(Self::first_free_probe(s1, k, i2, p2, j));
            }
            assert forall|i1: int, p1: int, i2: int, p2: int|
                0 <= i1 < s1.len() && 0 <= p1 < s1[i1].len() && 0 <= i2 < s1.len() && 0 <= p2 < s1[i2].len()
                    && (#[trigger] s1[i1][p1]) is Some && (#[trigger] s1[i2][p2]) is Some
                    && Self::entry_key(s1[i1][p1]->0) == Self::entry_key(s1[i2][p2]->0)
                    implies i1 == i2 && p1 == p2 by {
                if !(i1 == i && p1 == p) && !(i2 == i && p2 == p) {
                    assert(s0[i1][p1] == s1[i1][p1]);
                    assert(s0[i2][p2] == s1[i2][p2]);
                } else if !(i1 == i && p1 == p) {
                    assert(s0[i1][p1] == s1[i1][p1]);
                    let e = s0[i1][p1]->0;
                    assert(Self::holds_entry(s0[i1][p1], key@, e.1));
                    assert(old(self).maps_to(key@, e.1));
                } else if !(i2 == i && p2 == p) {
                    assert(s0[i2][p2] == s1[i2][p2]);
                    let e = s0[i2][p2]->0;
                    assert(Self::holds_entry(s0[i2][p2], key@, e.1));
                    assert(old(self).maps_to(key@, e.1));
                }
            }
            assert forall|i2: int| 0 <= i2 < self.levels@.len() implies {
                &&& (#[trigger] self.levels@[i2])@.len() == level_sizes(self.capacity as nat)[i2]
                &&& 0 < self.levels@[i2]@.len() <= 0x8000_0000_0000_0000
                &&& self.occupancies@[i2] == filled(self.levels@[i2]@)
            } by {
                assert(self.levels@[i2]@ == s1[i2]);
                assert(old(self).levels@[i2]@ == s0[i2]);
            }
            assert(self.wf());
            assert(Self::holds_entry(s1[i as int][p as int], key_view, value));
            assert(self.maps_to(key_view, value));
            self.lemma_maps_to_unique(key_view, value, choose|v: V| self.maps_to(key_view, v));
            assert forall|k: K::V| k != key_view implies #[trigger] self.lookup(k) == old(self).lookup(k) by {
                assert forall|v: V| self.maps_to(k, v) == old(self).maps_to(k, v) by {
                    if self.maps_to(k, v) {
                        let (i2, p2) = choose|i2: int, p2: int|
                            0 <= i2 < s1.len() && 0 <= p2 < s1[i2].len() && Self::holds_entry(#[trigger] s1[i2][p2], k, v);
                        assert(s0[i2][p2] == s1[i2][p2]);
                        assert(Self::holds_entry(s0[i2][p2], k, v));
                    }
                    if old(self).maps_to(k, v) {
                        let (i2, p2) = choose|i2: int, p2: int|
                            0 <= i2 < s0.len() && 0 <= p2 < s0[i2].len() && Self::holds_entry(#[trigger] s0[i2][p2], k, v);
                        assert(s0[i2][p2] == s1[i2][p2]);
                        assert(Self::holds_entry(s1[i2][p2], k, v));
                    }
                }
                assert((|v: V| self.maps_to(k, v)) =~= (|v: V| old(self).maps_to(k, v)));
            }
        }
    }

    /// The total number of slots.
    pub fn capacity(&self) -> (r: usize)
        ensures
            r == self.spec_capacity(),
    {
        self.capacity
    }

    /// The most entries the table admits.
    pub fn max_inserts(&self) -> (r: usize)
        ensures
            r == self.spec_max_inserts(),
    {
        self.max_inserts
    }

    /// The number of entries stored so far.
    pub fn num_inserts(&self) -> (r: usize)
        ensures
            r == self.spec_num_inserts(),
    {
        self.num_inserts
    }

    /// The occupancy of each level, the size of each level, and the counts.
    pub fn status(&self) -> (r: TableStatus)
        requires
            self.wf(),
        ensures
            r.occupancies@ == self.spec_occupancies(),
            r.level_lengths@.len() == self.level_lengths().len(),
            forall|i: int| 0 <= i < r.level_lengths@.len() ==> #[trigger] r.level_lengths@[i] as nat == self.level_lengths()[i],
            r.num_inserts == self.spec_num_inserts(),
            r.max_inserts == self.spec_max_inserts(),
    {
        let mut occupancies: Vec<usize> = Vec::new();
        let mut level_lengths: Vec<usize> = Vec::new();
        let mut i: usize = 0;
        while i < self.levels.len()
            invariant
                self.wf(),
                i <= self.levels@.len(),
                occupancies@ == self.occupancies@.subrange(0, i as int),
                level_lengths@.len() == i,
                forall|i2: int| 0 <= i2 < i ==> #[trigger] level_lengths@[i2] as nat == self.level_lengths()[i2],
            decreases self.levels@.len() - i,
        {
            occupancies.push(self.occupancies[i]);
            level_lengths.push(self.levels[i].len());
            proof {
                assert(occupancies@ =~= self.occupancies@.subrange(0, i + 1));
            }
            i = i + 1;
        }
        proof {
            assert(occupancies@ =~= self.occupancies@);
        }
        TableStatus { occupancies, level_lengths, num_inserts: self.num_inserts, max_inserts: self.max_inserts }
    }

    /// The level sizes of a table add up to its capacity.
    pub proof fn lemma_level_lengths_total(&self)
        requires
            self.wf(),
        ensures
            self.level_lengths() =~= level_sizes(self.spec_capacity()),
            total(self.level_lengths()) == self.spec_capacity(),
    {
        assert forall|i: int| 0 <= i < self.level_lengths().len() implies #[trigger] self.level_lengths()[i]
            == level_sizes(self.spec_capacity())[i] by {
            assert(self.levels@[i]@ == self.slots()[i]);
        }
        assert(self.level_lengths() =~= level_sizes(self.spec_capacity()));
        lemma_level_sizes_total(self.spec_capacity());
    }

    /// A table admits `capacity - floor(delta * capacity)` entries, and holds
    /// no more than that.
    pub proof fn lemma_max_inserts(&self)
        requires
            self.wf(),
        ensures
            self.spec_max_inserts() == max_inserts_for(
                self.spec_capacity() as int,
                self.spec_delta_num() as int,
                self.spec_delta_den() as int,
            ),
            self.spec_num_inserts() <= self.spec_max_inserts(),
    {
    }

    /// The count of stored entries is the sum of the levels' occupancy
    /// counters, and each counter is the number of occupied slots of its level.
    pub proof fn lemma_counts_agree(&self)
        requires
            self.wf(),
        ensures
            self.spec_num_inserts() == sum_counts(self.spec_occupancies()),
            self.spec_occupancies().len() == self.slots().len(),
            forall|i: int|
                0 <= i < self.slots().len() ==> #[trigger] self.spec_occupancies()[i] == filled(self.slots()[i])
                    && self.spec_occupancies()[i] <= self.slots()[i].len(),
    {
        assert forall|i: int| 0 <= i < self.slots().len() implies #[trigger] self.spec_occupancies()[i] == filled(
            self.slots()[i],
        ) && self.spec_occupancies()[i] <= self.slots()[i].len() by {
            self.lemma_occupancy_le(i);
            assert(self.levels@[i]@ == self.slots()[i]);
        }
    }

    /// Each stored key sits at the first free probe of its own sequence in its
    /// level (every earlier probe there is occupied), and no key is stored
    /// twice: why a search may leave a level at its first empty probe.
    pub proof fn lemma_placement_invariants(&self)
        requires
            self.wf(),
        ensures
            Self::placed(self.slots()),
            Self::keys_unique(self.slots()),
            self.spec_occupancies().len() == self.slots().len(),
    {
    }

    /// Along a run of successful inserts of distinct keys into a fresh table,
    /// the count is the number of inserts (so after `max_inserts` of them the
    /// table is full and a further insert is refused), every inserted key
    /// looks up to its value, and every other key looks up to nothing.
    pub proof fn lemma_insert_history(states: Seq<Self>, keys: Seq<K::V>, vals: Seq<V>)
        requires
            states.len() == keys.len() + 1,
            vals.len() == keys.len(),
            states[0].wf(),
            states[0].spec_num_inserts() == 0,
            forall|k: K::V| (#[trigger] states[0].lookup(k)) is None,
            forall|n: int|
                0 <= n < keys.len() ==> #[trigger] states[n].stores_after(states[n + 1], keys[n], vals[n]),
            forall|a: int, b: int| 0 <= a < b < keys.len() ==> keys[a] != keys[b],
        ensures
            states.last().wf(),
            states.last().spec_num_inserts() == keys.len(),
            states.last().spec_max_inserts() == states[0].spec_max_inserts(),
            keys.len() == states[0].spec_max_inserts() ==> states.last().spec_num_inserts()
                >= states.last().spec_max_inserts(),
            forall|m: int| 0 <= m < keys.len() ==> #[trigger] states.last().lookup(keys[m]) == Some(vals[m]),
            forall|k: K::V| !keys.contains(k) ==> (#[trigger] states.last().lookup(k)) is None,
        decreases keys.len(),
    {
        if keys.len() > 0 {
            let n = keys.len() - 1;
            let before = states.drop_last();
            Self::lemma_insert_history(before, keys.drop_last(), vals.drop_last());
            assert(before.last() == states[n]);
            assert(states.last() == states[n + 1]);
            assert(states[n].stores_after(states[n + 1], keys[n], vals[n]));
            assert forall|m: int| 0 <= m < keys.len() implies #[trigger] states.last().lookup(keys[m]) == Some(
                vals[m],
            ) by {
                if m < n {
                    assert(keys.drop_last()[m] == keys[m]);
                    assert(vals.drop_last()[m] == vals[m]);
                    assert(before.last().lookup(keys.drop_last()[m]) == Some(vals.drop_last()[m]));
                }
            }
            assert forall|k: K::V| !keys.contains(k) implies (#[trigger] states.last().lookup(k)) is None by {
                assert(k != keys[n]);
                if keys.drop_last().contains(k) {
                    let m = choose|m: int| 0 <= m < n && keys.drop_last()[m] == k;
                    assert(keys[m] == k);
                }
            }
        }
    }

    /// A key is stored with at most one value, so a lookup (and so a search)
    /// has a single answer on a given table.
    pub proof fn lemma_maps_to_unique(&self, k: K::V, v1: V, v2: V)
        requires
            self.wf(),
            self.maps_to(k, v1),
            self.maps_to(k, v2),
        ensures
            v1 == v2,
    {
        let s = self.slots();
        let (i1, p1) = choose|i: int, p: int|
            0 <= i < s.len() && 0 <= p < s[i].len() && Self::holds_entry(#[trigger] s[i][p], k, v1);
        let (i2, p2) = choose|i: int, p: int|
            0 <= i < s.len() && 0 <= p < s[i].len() && Self::holds_entry(#[trigger] s[i][p], k, v2);
        assert(s[i1][p1] is Some && s[i2][p2] is Some);
    }
}

} // verus!
