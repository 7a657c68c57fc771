//! A cache whose capacity is a constant of its type. Entries live in slots
//! `0 .. CAP`; each generation is a doubly linked list of slots; a table of
//! `2 * CAP` buckets with linear probing finds the slot of a key; freed slots
//! are kept on a stack for reuse.
use vstd::prelude::*;
use vstd::string::StringSliceAdditionalSpecFns;
use crate::model::{
    aged, gen_of, gens_distinct, in_gens, lemma_locate, lemma_merge_gens, lemma_victim,
    lemma_without, pos_of, promoted, victim_gen, without, younger, CacheView, MAX_GENERATIONS,
};
use crate::probe::{
    dist, distinct_below, first_empty, holds, lemma_move, lemma_put, lemma_take, lemma_fill, lemma_not_full, lemma_probe_meets, lemma_removal_end,
    lemma_removal_start, lemma_removal_step, lemma_step, probe_ok, reaches, removal_inv, step,
    NONE, lemma_first_empty_unique, removed_at, shift_back,
};

verus! {

/// A hash that depends on the value alone, the same in every run.
pub trait Hash {
    /// The hash of this value.
    spec fn hash_spec(&self) -> usize;

    fn hash_value(&self) -> (h: usize)
        ensures
            h == self.hash_spec(),
    ;
}

/// The 64-bit finalizer of SplitMix64.
pub open spec fn mix64(x: u64) -> u64 {
    let x1 = x.wrapping_mul(0x9E3779B97F4A7C15);
    let x2 = (x1 ^ (x1 >> 30)).wrapping_mul(0xBF58476D1CE4E5B9);
    let x3 = (x2 ^ (x2 >> 27)).wrapping_mul(0x94D049BB133111EB);
    x3 ^ (x3 >> 31)
}

/// The Bernstein hash (times 33, plus the byte) of a byte string.
pub open spec fn djb2(bytes: Seq<u8>) -> usize
    decreases bytes.len(),
{
    if bytes.len() == 0 {
        5381
    } else {
        djb2(bytes.drop_last()).wrapping_mul(33).wrapping_add(bytes.last() as usize)
    }
}

impl Hash for i32 {
    open spec fn hash_spec(&self) -> usize {
        mix64(*self as u64) as usize
    }

    fn hash_value(&self) -> (h: usize) {
        let mut x = *self as u64;
        x = x.wrapping_mul(0x9E3779B97F4A7C15);
        x = (x ^ (x >> 30)).wrapping_mul(0xBF58476D1CE4E5B9);
        x = (x ^ (x >> 27)).wrapping_mul(0x94D049BB133111EB);
        x ^= x >> 31;
        x as usize
    }
}

impl Hash for u64 {
    open spec fn hash_spec(&self) -> usize {
        mix64(*self) as usize
    }

    fn hash_value(&self) -> (h: usize) {
        let mut x = *self;
        x = x.wrapping_mul(0x9E3779B97F4A7C15);
        x = (x ^ (x >> 30)).wrapping_mul(0xBF58476D1CE4E5B9);
        x = (x ^ (x >> 27)).wrapping_mul(0x94D049BB133111EB);
        x ^= x >> 31;
        x as usize
    }
}

impl Hash for usize {
    open spec fn hash_spec(&self) -> usize {
        mix64(*self as u64) as usize
    }

    fn hash_value(&self) -> (h: usize) {
        (*self as u64).hash_value()
    }
}

impl Hash for &str {
    open spec fn hash_spec(&self) -> usize {
        djb2((**self).spec_bytes())
    }

    fn hash_value(&self) -> (h: usize) {
        let bytes = self.as_bytes();
        let mut h: usize = 5381;
        let mut i: usize = 0;
        while i < bytes.len()
            invariant
                i <= bytes@.len(),
                bytes@ == (**self).spec_bytes(),
                h == djb2(bytes@.subrange(0, i as int)),
            decreases bytes@.len() - i,
        {
            assert(bytes@.subrange(0, i + 1).drop_last() =~= bytes@.subrange(0, i as int));
            h = h.wrapping_mul(33).wrapping_add(bytes[i] as usize);
            i = i + 1;
        }
        assert(bytes@.subrange(0, i as int) =~= bytes@);
        h
    }
}

/// Multiplying by `c` modulo 2^64 is one to one when `c` has an inverse `ci`.
proof fn lemma_wrapping_mul_injective(a: u64, b: u64, c: u64, ci: u64, k: int)
    requires
        c * ci == 1 + k * 0x1_0000_0000_0000_0000,
        a.wrapping_mul(c) == b.wrapping_mul(c),
    ensures
        a == b,
{
    let m: int = 0x1_0000_0000_0000_0000;
    assert forall|x: u64| ((#[trigger] x.wrapping_mul(c)) as int * ci) % m == x as int by {
        let xi = x as int;
        vstd::arithmetic::div_mod::lemma_mul_mod_noop_left(xi * c, ci as int, m);
        assert(xi * c * ci == xi + m * (xi * k)) by (nonlinear_arith)
            requires
                c * ci == 1 + k * m,
        ;
        vstd::arithmetic::div_mod::lemma_mod_multiples_vanish(xi * k, xi, m);
        vstd::arithmetic::div_mod::lemma_small_mod(x as nat, m as nat);
    }
    assert((a.wrapping_mul(c) as int * ci) % m == a as int);
    assert((b.wrapping_mul(c) as int * ci) % m == b as int);
}

/// The SplitMix64 finalizer is one to one: distinct inputs have distinct
/// outputs.
pub proof fn law_mix64_injective(a: u64, b: u64)
    requires
        a != b,
    ensures
        mix64(a) != mix64(b),
{
    let a1 = a.wrapping_mul(0x9E3779B97F4A7C15);
    let b1 = b.wrapping_mul(0x9E3779B97F4A7C15);
    let a2 = (a1 ^ (a1 >> 30)).wrapping_mul(0xBF58476D1CE4E5B9);
    let b2 = (b1 ^ (b1 >> 30)).wrapping_mul(0xBF58476D1CE4E5B9);
    let a3 = (a2 ^ (a2 >> 27)).wrapping_mul(0x94D049BB133111EB);
    let b3 = (b2 ^ (b2 >> 27)).wrapping_mul(0x94D049BB133111EB);
    if mix64(a) == mix64(b) {
        assert(a3 ^ (a3 >> 31) == b3 ^ (b3 >> 31));
        assert(a3 == b3) by (bit_vector)
            requires
                a3 ^ (a3 >> 31) == b3 ^ (b3 >> 31),
        ;
        lemma_wrapping_mul_injective(
            a2 ^ (a2 >> 27),
            b2 ^ (b2 >> 27),
            0x94D049BB133111EB,
            0x319642b2d24d8ec3,
            2077064247507883091,
        );
        assert(a2 == b2) by (bit_vector)
            requires
                a2 ^ (a2 >> 27) == b2 ^ (b2 >> 27),
        ;
        lemma_wrapping_mul_injective(
            a1 ^ (a1 >> 30),
            b1 ^ (b1 >> 30),
            0xBF58476D1CE4E5B9,
            0x96de1b173f119089,
            8125545580553827436,
        );
        assert(a1 == b1) by (bit_vector)
            requires
                a1 ^ (a1 >> 30) == b1 ^ (b1 >> 30),
        ;
        lemma_wrapping_mul_injective(a, b, 0x9E3779B97F4A7C15, 0xf1de83e19937733d, 10771413168148108919);
    }
}

/// Where `usize` is 64 bits wide, distinct `u64` keys have distinct hashes.
pub proof fn law_u64_hash_injective(a: u64, b: u64)
    requires
        a != b,
        usize::BITS == 64,
    ensures
        a.hash_spec() != b.hash_spec(),
{
    law_mix64_injective(a, b);
    assert(usize::MAX == u64::MAX);
}

struct Entry<K, V> {
    key: K,
    value: V,
    generation: usize,
    prev: usize,
    next: usize,
}

#[derive(Clone, Copy)]
struct Generation {
    head: usize,
    tail: usize,
    len: usize,
}

impl Generation {
    fn empty() -> (r: Self)
        ensures
            r.head == NONE,
            r.tail == NONE,
            r.len == 0,
    {
        Self { head: NONE, tail: NONE, len: 0 }
    }
}

/// A multi-generational LRU cache of at most `CAP` entries.
///
/// The slot arrays of length `CAP` (and the two halves of the bucket table)
/// are vectors that `new` fills to that length and that never change length.
#[verifier::reject_recursive_types(K)]
pub struct MglruCache<K, V, const CAP: usize> {
    entries: Vec<Option<Entry<K, V>>>,
    generations: [Generation; MAX_GENERATIONS],
    count: usize,
    hash_buckets_lo: Vec<usize>,
    hash_buckets_hi: Vec<usize>,
    free_list: Vec<usize>,
    free_len: usize,
    next_unused: usize,
    /// The slots of each generation, head first.
    lists: Ghost<Seq<Seq<usize>>>,
    /// The slot of each stored key.
    slot_of: Ghost<Map<K, usize>>,
}

/// The home bucket of the key in slot `s`, in a table of `n` buckets.
spec fn home_of<K: Hash, V>(entries: Seq<Option<Entry<K, V>>>, n: int, s: usize) -> int {
    (entries[s as int]->Some_0.key.hash_spec() as int) % n
}

/// The home buckets of all slots.
spec fn homes<K: Hash, V>(entries: Seq<Option<Entry<K, V>>>, n: int) -> spec_fn(usize) -> int {
    |s: usize| home_of(entries, n, s)
}

/// The bucket table is sound for these entries: it stores distinct occupied
/// slots, each reached from its home.
spec fn table_ok<K: Hash, V>(entries: Seq<Option<Entry<K, V>>>, b: Seq<usize>, cap: int) -> bool {
    &&& b.len() == 2 * cap
    &&& distinct_below(b, cap)
    &&& forall|x: int| 0 <= x < b.len() && b[x] != NONE ==> (#[trigger] entries[b[x] as int]) is Some
    &&& probe_ok(b, homes(entries, 2 * cap))
}

/// Two slot arrays agree on which slots are occupied and on their keys and values.
spec fn same_kv<K, V>(a: Seq<Option<Entry<K, V>>>, b: Seq<Option<Entry<K, V>>>) -> bool {
    &&& a.len() == b.len()
    &&& forall|s: int|
        0 <= s < a.len() ==> (#[trigger] a[s] is Some <==> b[s] is Some) && (a[s] is Some ==> (
        a[s]->Some_0.key == b[s]->Some_0.key && a[s]->Some_0.value == b[s]->Some_0.value))
}

/// The keys of the slots listed in each generation.
spec fn key_lists<K, V>(entries: Seq<Option<Entry<K, V>>>, lists: Seq<Seq<usize>>) -> Seq<Seq<K>> {
    Seq::new(lists.len(), |g: int| lists[g].map_values(|s: usize| entries[s as int]->Some_0.key))
}

/// Facts on `%` for the bucket arithmetic.
proof fn lemma_mod_facts(x: usize, n: usize)
    requires
        n > 0,
    ensures
        0 <= x % n < n,
        x < n ==> x % n == x,
        x == n ==> x % n == 0,
{
    assert(0 <= x % n < n) by (nonlinear_arith)
        requires
            n > 0,
    ;
    if x < n {
        assert(x % n == x) by (nonlinear_arith)
            requires
                x < n,
        ;
    }
    if x == n {
        assert(x % n == 0) by (nonlinear_arith)
            requires
                x == n,
                n > 0,
        ;
    }
}

/// Same keys in the stored slots give the same homes, so a sound table stays sound.
proof fn lemma_table_frame<K: Hash, V>(
    e1: Seq<Option<Entry<K, V>>>,
    e2: Seq<Option<Entry<K, V>>>,
    b: Seq<usize>,
    cap: int,
)
    requires
        table_ok(e1, b, cap),
        forall|x: int|
            0 <= x < b.len() && b[x] != NONE ==> (#[trigger] e2[b[x] as int]) is Some && e2[b[x] as int]->Some_0.key
                == e1[b[x] as int]->Some_0.key,
    ensures
        table_ok(e2, b, cap),
{
    let n = 2 * cap;
    assert forall|x: int| 0 <= x < b.len() implies #[trigger] reaches(b, homes(e2, n), x) by {
        assert(reaches(b, homes(e1, n), x));
        if b[x] != NONE {
            assert(e2[b[x] as int] is Some);
            assert(homes(e1, n)(b[x]) == homes(e2, n)(b[x]));
            assert forall|d: int|
                0 <= d < dist(homes(e2, n)(b[x]), x, b.len() as int) implies #[trigger] b[step(
                homes(e2, n)(b[x]),
                d,
                b.len() as int,
            )] != NONE by {
                assert(b[step(homes(e1, n)(b[x]), d, b.len() as int)] != NONE);
            }
        }
    }
}

impl<K: Eq + Hash, V, const CAP: usize> MglruCache<K, V, CAP> {
    spec fn occ(self, s: int) -> bool {
        self.entries@[s] is Some
    }

    spec fn ent(self, s: int) -> Entry<K, V> {
        self.entries@[s]->Some_0
    }

    spec fn buckets(self) -> Seq<usize> {
        self.hash_buckets_lo@ + self.hash_buckets_hi@
    }

    spec fn home(self, s: usize) -> int {
        home_of(self.entries@, 2 * CAP, s)
    }

    /// Everything but the bucket table is as in `other`.
    spec fn same_but_table(self, other: Self) -> bool {
        &&& self.entries == other.entries
        &&& self.generations == other.generations
        &&& self.count == other.count
        &&& self.free_list == other.free_list
        &&& self.free_len == other.free_len
        &&& self.next_unused == other.next_unused
        &&& self.lists == other.lists
        &&& self.slot_of == other.slot_of
    }

    spec fn sizes_ok(self) -> bool {
        &&& 0 < CAP <= usize::MAX / 2
        &&& self.entries@.len() == CAP
        &&& self.hash_buckets_lo@.len() == CAP
        &&& self.hash_buckets_hi@.len() == CAP
        &&& self.free_list@.len() == CAP
    }

    /// Slot `lists[g][i]` is linked to its neighbours in generation `g`.
    spec fn link_ok(self, g: int, i: int) -> bool {
        let l = self.lists@[g];
        let s = l[i];
        &&& s < CAP
        &&& self.occ(s as int)
        &&& self.ent(s as int).generation == g
        &&& self.ent(s as int).prev == (if i == 0 {
            NONE
        } else {
            l[i - 1]
        })
        &&& self.ent(s as int).next == (if i + 1 == l.len() {
            NONE
        } else {
            l[i + 1]
        })
    }

    /// Generation `g` is the linked list `lists[g]`.
    spec fn gen_ok(self, g: int) -> bool {
        let l = self.lists@[g];
        let gen = self.generations@[g];
        &&& gen.len == l.len()
        &&& l.len() == 0 ==> gen.head == NONE && gen.tail == NONE
        &&& l.len() > 0 ==> gen.head == l[0] && gen.tail == l.last()
        &&& forall|i: int| 0 <= i < l.len() ==> #[trigger] self.link_ok(g, i)
    }

    spec fn lists_ok(self) -> bool {
        &&& self.lists@.len() == 4
        &&& forall|g: int| 0 <= g < 4 ==> #[trigger] self.gen_ok(g)
        &&& gens_distinct(self.lists@)
    }

    /// Every occupied slot is listed in its generation.
    spec fn placed(self) -> bool {
        forall|s: int|
            0 <= s < CAP && #[trigger] self.occ(s) ==> self.ent(s).generation < 4
                && self.lists@[self.ent(s).generation as int].contains(s as usize)
    }

    spec fn total(self) -> int {
        (self.lists@[0].len() + self.lists@[1].len() + self.lists@[2].len() + self.lists@[3].len()) as int
    }

    /// `slot_of` maps the key of each occupied slot to that slot.
    spec fn keys_ok(self) -> bool {
        &&& self.slot_of@.dom().finite()
        &&& self.count == self.slot_of@.len()
        &&& forall|k: K|
            #[trigger] self.slot_of@.contains_key(k) ==> self.slot_of@[k] < CAP && self.occ(
                self.slot_of@[k] as int,
            ) && self.ent(self.slot_of@[k] as int).key == k
        &&& forall|s: int|
            0 <= s < CAP && #[trigger] self.occ(s) ==> self.slot_of@.contains_key(self.ent(s).key)
                && self.slot_of@[self.ent(s).key] == s
    }

    /// Free slots are the stacked ones and those never used.
    spec fn slots_ok(self) -> bool {
        &&& self.free_len <= CAP
        &&& self.next_unused <= CAP
        &&& self.count + self.free_len == self.next_unused
        &&& forall|i: int|
            0 <= i < self.free_len ==> #[trigger] self.free_list@[i] < self.next_unused && !self.occ(
                self.free_list@[i] as int,
            )
        &&& forall|i: int, j: int|
            0 <= i < self.free_len && 0 <= j < self.free_len && i != j ==> #[trigger] self.free_list@[i]
                != #[trigger] self.free_list@[j]
        &&& forall|s: int| self.next_unused <= s < CAP ==> !#[trigger] self.occ(s)
    }

    /// Every occupied slot is in the bucket table.
    spec fn hashed(self) -> bool {
        forall|s: int| 0 <= s < CAP && #[trigger] self.occ(s) ==> holds(self.buckets(), s as usize)
    }

    /// The cache's invariant.
    pub closed spec fn wf(self) -> bool {
        &&& self.sizes_ok()
        &&& self.lists_ok()
        &&& self.placed()
        &&& self.count == self.total()
        &&& self.count <= CAP
        &&& self.keys_ok()
        &&& self.slots_ok()
        &&& table_ok(self.entries@, self.buckets(), CAP as int)
        &&& self.hashed()
    }
}

impl<K: Eq + Hash, V, const CAP: usize> View for MglruCache<K, V, CAP> {
    type V = CacheView<K, V>;

    closed spec fn view(&self) -> CacheView<K, V> {
        CacheView {
            gens: key_lists(self.entries@, self.lists@),
            map: Map::new(
                |k: K| self.slot_of@.contains_key(k),
                |k: K| self.entries@[self.slot_of@[k] as int]->Some_0.value,
            ),
            capacity: CAP as nat,
        }
    }
}

impl<K: Eq + Hash, V, const CAP: usize> MglruCache<K, V, CAP> {
    /// A well-formed cache shows a well-formed view, whose generations are
    /// the keys of the listed slots.
    proof fn lemma_view_wf(self)
        requires
            self.wf(),
        ensures
            self@.wf(),
            self@.gens == key_lists(self.entries@, self.lists@),
            self@.map.dom() == self.slot_of@.dom(),
            self@.map.len() == self.count,
            forall|k: K|
                #[trigger] self.slot_of@.contains_key(k) ==> self@.map[k] == self.ent(
                    self.slot_of@[k] as int,
                ).value,
    {
        let gs = self@.gens;
        let l = self.lists@;
        assert(self@.map.dom() =~= self.slot_of@.dom());
        assert forall|g: int, i: int| 0 <= g < 4 && 0 <= i < l[g].len() implies #[trigger] gs[g][i]
            == self.ent(l[g][i] as int).key && self.occ(l[g][i] as int) && l[g][i] < CAP by {
            assert(self.gen_ok(g));
            assert(self.link_ok(g, i));
        }
        assert forall|g1: int, i1: int, g2: int, i2: int|
            0 <= g1 < 4 && 0 <= g2 < 4 && 0 <= i1 < gs[g1].len() && 0 <= i2 < gs[g2].len() && (g1
                != g2 || i1 != i2) implies #[trigger] gs[g1][i1] != #[trigger] gs[g2][i2] by {
            assert(l[g1][i1] != l[g2][i2]);
            assert(self.gen_ok(g1));
            assert(self.link_ok(g1, i1));
            assert(self.gen_ok(g2));
            assert(self.link_ok(g2, i2));
            assert(self.slot_of@[self.ent(l[g1][i1] as int).key] == l[g1][i1]);
            assert(self.slot_of@[self.ent(l[g2][i2] as int).key] == l[g2][i2]);
        }
        assert forall|k: K| self@.map.contains_key(k) <==> in_gens(gs, k) by {
            if self@.map.contains_key(k) {
                let s = self.slot_of@[k];
                assert(self.occ(s as int));
                let g = self.ent(s as int).generation as int;
                assert(l[g].contains(s));
                let i = choose|i: int| 0 <= i < l[g].len() && l[g][i] == s;
                assert(gs[g][i] == k);
                assert(gs[g].contains(k));
            }
            if in_gens(gs, k) {
                let g = choose|g: int| 0 <= g < 4 && #[trigger] gs[g].contains(k);
                let i = choose|i: int| 0 <= i < gs[g].len() && gs[g][i] == k;
                assert(self.occ(l[g][i] as int));
                assert(self.slot_of@.contains_key(self.ent(l[g][i] as int).key));
            }
        }
    }

    /// What every well-formed cache shows: no key listed twice, the listed
    /// keys exactly the stored ones, and at most `CAP` of them.
    pub proof fn view_is_wf(&self)
        requires
            self.wf(),
        ensures
            self@.wf(),
            self@.map.len() <= CAP,
    {
        self.lemma_view_wf();
    }

    /// Creates an empty cache.
    pub fn new() -> (r: Self)
        requires
            0 < CAP <= usize::MAX / 2,
        ensures
            r.wf(),
            r@ == CacheView::<K, V>::empty(CAP as nat),
    {
        let mut entries: Vec<Option<Entry<K, V>>> = Vec::new();
        let mut lo: Vec<usize> = Vec::new();
        let mut hi: Vec<usize> = Vec::new();
        let mut free_list: Vec<usize> = Vec::new();
        let mut i: usize = 0;
        while i < CAP
            invariant
                i <= CAP,
                entries@.len() == i,
                lo@.len() == i,
                hi@.len() == i,
                free_list@.len() == i,
                forall|j: int| 0 <= j < i ==> #[trigger] entries@[j] is None,
                forall|j: int| 0 <= j < i ==> #[trigger] lo@[j] == NONE,
                forall|j: int| 0 <= j < i ==> #[trigger] hi@[j] == NONE,
            decreases CAP - i,
        {
            entries.push(None);
            lo.push(NONE);
            hi.push(NONE);
            free_list.push(NONE);
            i = i + 1;
        }
        let ghost lists0: Seq<Seq<usize>> = seq![Seq::empty(), Seq::empty(), Seq::empty(), Seq::empty()];
        let r = Self {
            entries,
            generations: [
                Generation::empty(),
                Generation::empty(),
                Generation::empty(),
                Generation::empty(),
            ],
            count: 0,
            hash_buckets_lo: lo,
            hash_buckets_hi: hi,
            free_list,
            free_len: 0,
            next_unused: 0,
            lists: Ghost(lists0),
            slot_of: Ghost(Map::empty()),
        };
        proof {
            assert forall|g: int| 0 <= g < 4 implies #[trigger] r.gen_ok(g) by {}
            let b = r.buckets();
            assert forall|x: int| 0 <= x < b.len() implies b[x] == NONE by {
                if x < CAP {
                    assert(b[x] == lo@[x]);
                } else {
                    assert(b[x] == hi@[x - CAP]);
                }
            }
            assert forall|x: int| 0 <= x < b.len() implies #[trigger] reaches(
                b,
                homes(r.entries@, 2 * CAP),
                x,
            ) by {}
            assert forall|g: int| 0 <= g < 4 implies #[trigger] r@.gens[g] =~= Seq::<K>::empty() by {}
            assert(r@.gens =~= CacheView::<K, V>::empty(CAP as nat).gens);
            assert(r@.map =~= Map::empty());
        }
        r
    }

    /// The number of stored entries.
    pub fn len(&self) -> (n: usize)
        requires
            self.wf(),
        ensures
            n == self@.map.len(),
    {
        proof {
            self.lemma_view_wf();
        }
        self.count
    }

    /// Whether no entry is stored.
    pub fn is_empty(&self) -> (b: bool)
        requires
            self.wf(),
        ensures
            b == (self@.map.len() == 0),
    {
        proof {
            self.lemma_view_wf();
        }
        self.count == 0
    }

    /// The most entries the cache holds.
    pub fn capacity(&self) -> (c: usize)
        ensures
            c == self@.capacity,
    {
        CAP
    }

    fn hash_of(key: &K) -> (h: usize)
        ensures
            h == key.hash_spec(),
    {
        key.hash_value()
    }

    fn hash_capacity() -> (n: usize)
        requires
            CAP <= usize::MAX / 2,
        ensures
            n == 2 * CAP,
    {
        CAP * 2
    }

    fn hash_bucket_get(&self, bucket: usize) -> (slot: usize)
        requires
            self.sizes_ok(),
            bucket < 2 * CAP,
        ensures
            slot == self.buckets()[bucket as int],
    {
        if bucket < CAP {
            self.hash_buckets_lo[bucket]
        } else {
            self.hash_buckets_hi[bucket - CAP]
        }
    }

    fn hash_bucket_set(&mut self, bucket: usize, value: usize)
        requires
            old(self).sizes_ok(),
            bucket < 2 * CAP,
        ensures
            final(self).sizes_ok(),
            final(self).same_but_table(*old(self)),
            final(self).buckets() == old(self).buckets().update(bucket as int, value),
    {
        if bucket < CAP {
            self.hash_buckets_lo.set(bucket, value);
        } else {
            self.hash_buckets_hi.set(bucket - CAP, value);
        }
        proof {
            assert(self.buckets() =~= old(self).buckets().update(bucket as int, value));
        }
    }

    /// Stores slot `idx` in the first empty bucket from the home of its key.
    fn hash_insert_idx(&mut self, idx: usize)
        requires
            old(self).sizes_ok(),
            idx < CAP,
            old(self).occ(idx as int),
            distinct_below(old(self).buckets(), CAP as int),
            !holds(old(self).buckets(), idx),
        ensures
            final(self).sizes_ok(),
            final(self).same_but_table(*old(self)),
            exists|d: int|
                #[trigger] first_empty(old(self).buckets(), old(self).home(idx), d)
                    && final(self).buckets() == old(self).buckets().update(
                    step(old(self).home(idx), d, 2 * CAP),
                    idx,
                ),
    {
        let hash = {
            let key = &self.entries[idx].as_ref().unwrap().key;
            Self::hash_of(key)
        };
        let hash_cap = Self::hash_capacity();
        proof {
            lemma_mod_facts(hash, hash_cap);
        }
        let mut bucket = hash % hash_cap;
        let ghost h = old(self).home(idx);
        let ghost n = 2 * CAP as int;
        let mut d: usize = 0;
        while d < hash_cap
            invariant
                *self == *old(self),
                self.sizes_ok(),
                hash_cap == n,
                n == 2 * CAP,
                0 <= h < n,
                h == self.home(idx),
                d <= n,
                bucket == step(h, d as int, n),
                forall|e: int| 0 <= e < d ==> #[trigger] self.buckets()[step(h, e, n)] != NONE,
            decreases hash_cap - d,
        {
            proof {
                lemma_step(h, 0, n);
            }
            if self.hash_bucket_get(bucket) == NONE {
                self.hash_bucket_set(bucket, idx);
                proof {
                    assert(first_empty(old(self).buckets(), h, d as int));
                }
                return;
            }
            proof {
                lemma_mod_facts((bucket + 1) as usize, hash_cap);
            }
            bucket = (bucket + 1) % hash_cap;
            d = d + 1;
        }
        proof {
            let b = self.buckets();
            lemma_step(h, 0, n);
            assert forall|x: int| 0 <= x < b.len() implies b[x] != NONE by {
                lemma_step(h, x, n);
                assert(b[step(h, dist(h, x, n), n)] != NONE);
            }
            lemma_not_full(b, CAP as int);
        }
    }

    /// The slot of `key`, if it is stored.
    fn find_index_const(&self, key: &K) -> (r: Option<usize>)
        requires
            self.wf(),
            vstd::laws_eq::obeys_concrete_eq::<K>(),
        ensures
            r == (if self.slot_of@.contains_key(*key) {
                Some(self.slot_of@[*key])
            } else {
                None::<usize>
            }),
    {
        if CAP == 0 {
            return None;
        }
        proof {
            reveal(vstd::laws_eq::obeys_concrete_eq);
        }
        let hash_cap = Self::hash_capacity();
        let hash = Self::hash_of(key);
        proof {
            lemma_mod_facts(hash, hash_cap);
        }
        let mut bucket = hash % hash_cap;
        let ghost h = bucket as int;
        let ghost n = 2 * CAP as int;
        let ghost b = self.buckets();
        let mut d: usize = 0;
        while d < hash_cap
            invariant
                self.wf(),
                vstd::laws_eq::obeys_concrete_eq::<K>(),
                b == self.buckets(),
                hash_cap == n,
                n == 2 * CAP,
                0 <= h < n,
                h == key.hash_spec() as int % n,
                d <= n,
                bucket == step(h, d as int, n),
                forall|e: int|
                    0 <= e < d ==> #[trigger] b[step(h, e, n)] != NONE && self.ent(
                        b[step(h, e, n)] as int,
                    ).key != *key,
            decreases hash_cap - d,
        {
            proof {
                lemma_step(h, 0, n);
            }
            let slot = self.hash_bucket_get(bucket);
            if slot == NONE {
                proof {
                    self.lemma_absent(*key, h, d as int);
                }
                return None;
            }
            proof {
                assert(self.occ(slot as int));
            }
            if let Some(e) = &self.entries[slot] {
                proof {
                    reveal(vstd::laws_eq::obeys_concrete_eq);
                }
                let same = e.key == *key;
                if same {
                    proof {
                        assert(self.slot_of@.contains_key(self.ent(slot as int).key));
                    }
                    return Some(slot);
                }
            }
            proof {
                lemma_mod_facts((bucket + 1) as usize, hash_cap);
            }
            bucket = (bucket + 1) % hash_cap;
            d = d + 1;
        }
        proof {
            self.lemma_absent(*key, h, d as int);
        }
        None
    }

    /// A probe for `key` from its home that met neither the key nor an empty
    /// bucket before step `d`, and stops there, shows the key absent.
    proof fn lemma_absent(self, key: K, h: int, d: int)
        requires
            self.wf(),
            h == key.hash_spec() as int % (2 * CAP),
            0 <= d <= 2 * CAP,
            forall|e: int|
                0 <= e < d ==> #[trigger] self.buckets()[step(h, e, 2 * CAP)] != NONE && self.ent(
                    self.buckets()[step(h, e, 2 * CAP)] as int,
                ).key != key,
            d < 2 * CAP ==> self.buckets()[step(h, d, 2 * CAP)] == NONE,
        ensures
            !self.slot_of@.contains_key(key),
    {
        if self.slot_of@.contains_key(key) {
            let b = self.buckets();
            let n = 2 * CAP as int;
            let s = self.slot_of@[key];
            assert(self.occ(s as int));
            assert(holds(b, s));
            let y = choose|y: int| 0 <= y < b.len() && b[y] == s;
            assert(homes(self.entries@, n)(b[y]) == h);
            lemma_probe_meets(b, homes(self.entries@, n), h, y, d);
            let dd = dist(h, y, n);
            assert(b[step(h, dd, n)] == s);
        }
    }

    fn find_index(&self, key: &K) -> (r: Option<usize>)
        requires
            self.wf(),
            vstd::laws_eq::obeys_concrete_eq::<K>(),
        ensures
            r == (if self.slot_of@.contains_key(*key) {
                Some(self.slot_of@[*key])
            } else {
                None::<usize>
            }),
    {
        self.find_index_const(key)
    }

    /// Whether `key` is stored. The cache does not change.
    pub fn contains_key(&self, key: &K) -> (b: bool)
        requires
            self.wf(),
            vstd::laws_eq::obeys_concrete_eq::<K>(),
        ensures
            b == self@.map.contains_key(*key),
    {
        self.find_index_const(key).is_some()
    }
}

/// Same keys, values and generations in the same slots.
spec fn same_kvg<K, V>(a: Seq<Option<Entry<K, V>>>, b: Seq<Option<Entry<K, V>>>) -> bool {
    &&& same_kv(a, b)
    &&& forall|s: int|
        0 <= s < a.len() && #[trigger] a[s] is Some ==> a[s]->Some_0.generation
            == b[s]->Some_0.generation
}

proof fn lemma_same_kv_trans<K, V>(
    a: Seq<Option<Entry<K, V>>>,
    b: Seq<Option<Entry<K, V>>>,
    c: Seq<Option<Entry<K, V>>>,
)
    requires
        same_kv(a, b),
        same_kv(b, c),
    ensures
        same_kv(a, c),
{
    assert forall|s: int| 0 <= s < a.len() implies (#[trigger] a[s] is Some <==> c[s] is Some) && (a[s] is Some ==> (
    a[s]->Some_0.key == c[s]->Some_0.key && a[s]->Some_0.value == c[s]->Some_0.value)) by {
        assert(b[s] is Some <==> c[s] is Some);
    }
}

/// Keys depend only on the keys in the listed slots.
proof fn lemma_key_lists_frame<K, V>(
    e1: Seq<Option<Entry<K, V>>>,
    e2: Seq<Option<Entry<K, V>>>,
    lists: Seq<Seq<usize>>,
)
    requires
        forall|g: int, i: int|
            0 <= g < lists.len() && 0 <= i < lists[g].len() ==> e1[#[trigger] lists[g][i] as int]->Some_0.key
                == e2[lists[g][i] as int]->Some_0.key,
    ensures
        key_lists(e1, lists) == key_lists(e2, lists),
{
    assert forall|g: int| 0 <= g < lists.len() implies #[trigger] key_lists(e1, lists)[g]
        =~= key_lists(e2, lists)[g] by {
        assert forall|i: int| 0 <= i < lists[g].len() implies key_lists(e1, lists)[g][i]
            == key_lists(e2, lists)[g][i] by {
            assert(e1[lists[g][i] as int]->Some_0.key == e2[lists[g][i] as int]->Some_0.key);
        }
    }
    assert(key_lists(e1, lists) =~= key_lists(e2, lists));
}

/// Taking a slot out of the lists takes its key out of the generations.
proof fn lemma_key_lists_without<K, V>(e: Seq<Option<Entry<K, V>>>, lists: Seq<Seq<usize>>, s: usize)
    requires
        lists.len() == 4,
        gens_distinct(lists),
        in_gens(lists, s),
        gens_distinct(key_lists(e, lists)),
    ensures
        gen_of(key_lists(e, lists), e[s as int]->Some_0.key) == gen_of(lists, s),
        pos_of(key_lists(e, lists), e[s as int]->Some_0.key) == pos_of(lists, s),
        key_lists(e, without(lists, s)) == without(
            key_lists(e, lists),
            e[s as int]->Some_0.key,
        ),
{
    let gs = key_lists(e, lists);
    let k = e[s as int]->Some_0.key;
    lemma_locate(lists, s);
    let g = gen_of(lists, s);
    let i = pos_of(lists, s);
    assert(gs[g][i] == k);
    assert(gs[g].contains(k));
    lemma_locate(gs, k);
    let w = without(lists, s);
    assert(key_lists(e, w)[g] =~= gs[g].remove(i));
    assert(key_lists(e, w) =~= without(gs, k));
}

/// Putting a slot at the head of a list puts its key at the head of the generation.
proof fn lemma_key_lists_push<K, V>(
    e: Seq<Option<Entry<K, V>>>,
    lists: Seq<Seq<usize>>,
    g: int,
    s: usize,
)
    requires
        0 <= g < lists.len(),
    ensures
        key_lists(e, lists.update(g, seq![s] + lists[g])) == key_lists(e, lists).update(
            g,
            seq![e[s as int]->Some_0.key] + key_lists(e, lists)[g],
        ),
{
    let a = key_lists(e, lists.update(g, seq![s] + lists[g]));
    let b = key_lists(e, lists).update(g, seq![e[s as int]->Some_0.key] + key_lists(e, lists)[g]);
    assert(a[g] =~= b[g]);
    assert(a =~= b);
}

impl<K: Eq + Hash, V, const CAP: usize> MglruCache<K, V, CAP> {
    /// The fields other than the slot array, the generations and the lists
    /// are as in `other`.
    spec fn same_but_links(self, other: Self) -> bool {
        &&& self.count == other.count
        &&& self.free_list == other.free_list
        &&& self.free_len == other.free_len
        &&& self.next_unused == other.next_unused
        &&& self.slot_of == other.slot_of
        &&& self.hash_buckets_lo == other.hash_buckets_lo
        &&& self.hash_buckets_hi == other.hash_buckets_hi
    }

    /// Makes slot `idx` the head of generation `g`.
    fn push_front(&mut self, g: usize, idx: usize)
        requires
            old(self).sizes_ok(),
            old(self).lists_ok(),
            g < 4,
            idx < CAP,
            old(self).occ(idx as int),
            old(self).ent(idx as int).generation == g,
            !in_gens(old(self).lists@, idx),
            old(self).lists@[g as int].len() < CAP,
        ensures
            final(self).sizes_ok(),
            final(self).lists_ok(),
            final(self).lists@ == old(self).lists@.update(
                g as int,
                seq![idx] + old(self).lists@[g as int],
            ),
            same_kvg(old(self).entries@, final(self).entries@),
            final(self).same_but_links(*old(self)),
    {
        let ghost l = self.lists@[g as int];
        let ghost lists0 = self.lists@;
        proof {
            assert(self.gen_ok(g as int));
            if l.len() > 0 {
                assert(self.link_ok(g as int, 0));
            }
        }
        let old_head = self.generations[g].head;
        let e = self.entries[idx].as_mut().unwrap();
        e.prev = NONE;
        e.next = old_head;
        if old_head != NONE {
            self.entries[old_head].as_mut().unwrap().prev = idx;
        } else {
            self.generations[g].tail = idx;
        }
        self.generations[g].head = idx;
        self.generations[g].len = self.generations[g].len + 1;
        proof {
            self.lists@ = lists0.update(g as int, seq![idx] + l);
            crate::model::lemma_push_head(lists0, g as int, idx);
            let nl = self.lists@[g as int];
            assert(l.len() > 0 ==> old_head == l[0]);
            assert forall|g2: int| 0 <= g2 < 4 implies #[trigger] self.gen_ok(g2) by {
                assert(old(self).gen_ok(g2));
                if g2 == g {
                    assert forall|i: int| 0 <= i < nl.len() implies #[trigger] self.link_ok(g2, i) by {
                        if i > 0 {
                            assert(old(self).link_ok(g2, i - 1));
                            if i > 1 {
                                assert(l[i - 1] != l[0]);
                            }
                            if l[i - 1] == idx {
                                assert(l.contains(idx));
                                assert(lists0[g as int].contains(idx));
                                assert(in_gens(lists0, idx));
                            }
                        } else {
                            if l.len() > 0 {
                                assert(nl[1] == l[0]);
                            }
                        }
                    }
                } else {
                    assert forall|i: int|
                        0 <= i < self.lists@[g2].len() implies #[trigger] self.link_ok(g2, i) by {
                        assert(old(self).link_ok(g2, i));
                        assert(lists0[g2].contains(lists0[g2][i]));
                        if l.len() > 0 {
                            assert(lists0[g2][i] != lists0[g as int][0]);
                        }
                    }
                }
            }
        }
    }

    /// Takes slot `idx` out of generation `g`.
    fn unlink(&mut self, g: usize, idx: usize)
        requires
            old(self).sizes_ok(),
            old(self).lists_ok(),
            g < 4,
            old(self).lists@[g as int].contains(idx),
        ensures
            final(self).sizes_ok(),
            final(self).lists_ok(),
            gen_of(old(self).lists@, idx) == g,
            final(self).lists@ == without(old(self).lists@, idx),
            !in_gens(final(self).lists@, idx),
            forall|j: usize| in_gens(final(self).lists@, j) <==> (in_gens(old(self).lists@, j) && j != idx),
            final(self).lists@[g as int].len() == old(self).lists@[g as int].len() - 1,
            forall|g2: int| 0 <= g2 < 4 && g2 != g ==> #[trigger] final(self).lists@[g2] == old(self).lists@[g2],
            same_kvg(old(self).entries@, final(self).entries@),
            final(self).entries@[idx as int] is Some,
            final(self).entries@[idx as int]->Some_0.prev == NONE,
            final(self).entries@[idx as int]->Some_0.next == NONE,
            final(self).same_but_links(*old(self)),
    {
        let ghost lists0 = self.lists@;
        let ghost l = lists0[g as int];
        proof {
            assert(in_gens(lists0, idx));
            lemma_locate(lists0, idx);
            lemma_without(lists0, idx);
        }
        let ghost i = pos_of(lists0, idx);
        proof {
            assert(gen_of(lists0, idx) == g);
            assert(self.gen_ok(g as int));
            assert(self.link_ok(g as int, i));
            if i > 0 {
                assert(self.link_ok(g as int, i - 1));
            }
            if i + 1 < l.len() {
                assert(self.link_ok(g as int, i + 1));
            }
        }
        let e = self.entries[idx].as_ref().unwrap();
        let prev = e.prev;
        let next = e.next;
        if prev != NONE {
            self.entries[prev].as_mut().unwrap().next = next;
        } else {
            self.generations[g].head = next;
        }
        if next != NONE {
            self.entries[next].as_mut().unwrap().prev = prev;
        } else {
            self.generations[g].tail = prev;
        }
        let e = self.entries[idx].as_mut().unwrap();
        e.prev = NONE;
        e.next = NONE;
        self.generations[g].len = self.generations[g].len - 1;
        proof {
            self.lists@ = without(lists0, idx);
            let nl = self.lists@[g as int];
            assert(nl == l.remove(i));
            assert forall|g2: int| 0 <= g2 < 4 implies #[trigger] self.gen_ok(g2) by {
                assert(old(self).gen_ok(g2));
                if g2 == g {
                    assert forall|j: int| 0 <= j < nl.len() implies #[trigger] self.link_ok(g2, j) by {
                        if j < i {
                            assert(old(self).link_ok(g2, j));
                            assert(l[j] != l[i]);
                            if j + 1 < i {
                                assert(l[j] != l[i - 1]);
                            }
                            if i + 1 < l.len() {
                                assert(l[j] != l[i + 1]);
                            }
                        } else {
                            assert(old(self).link_ok(g2, j + 1));
                            assert(l[j + 1] != l[i]);
                            if i > 0 {
                                assert(l[j + 1] != l[i - 1]);
                            }
                            if j > i {
                                assert(l[j + 1] != l[i + 1]);
                            }
                        }
                    }
                    if nl.len() > 0 {
                        if i == 0 {
                            assert(nl[0] == l[1]);
                        }
                        if i == l.len() - 1 {
                            assert(nl.last() == l[i - 1]);
                        } else {
                            assert(nl.last() == l.last());
                        }
                    }
                } else {
                    assert forall|j: int|
                        0 <= j < self.lists@[g2].len() implies #[trigger] self.link_ok(g2, j) by {
                        assert(old(self).link_ok(g2, j));
                        assert(lists0[g2][j] != l[i]);
                        if i > 0 {
                            assert(lists0[g2][j] != l[i - 1]);
                        }
                        if i + 1 < l.len() {
                            assert(lists0[g2][j] != l[i + 1]);
                        }
                    }
                }
            }
        }
    }
}

impl<K: Eq + Hash, V, const CAP: usize> MglruCache<K, V, CAP> {
    /// Parts of the invariant that only look at the slot array's keys and
    /// values, the bucket table, `slot_of` and the free slots carry over when
    /// those stay as they were.
    proof fn lemma_kv_frame(a: Self, b: Self)
        requires
            a.wf(),
            b.sizes_ok(),
            same_kv(a.entries@, b.entries@),
            b.same_but_links(a),
        ensures
            b.keys_ok(),
            b.slots_ok(),
            table_ok(b.entries@, b.buckets(), CAP as int),
            b.hashed(),
            b.count <= CAP,
    {
        assert forall|s: int| 0 <= s < CAP implies (#[trigger] b.occ(s) <==> a.occ(s)) by {}
        assert forall|s: int| 0 <= s < CAP && #[trigger] b.occ(s) implies b.ent(s).key == a.ent(s).key by {}
        assert forall|k: K| #[trigger] b.slot_of@.contains_key(k) implies b.slot_of@[k] < CAP && b.occ(
            b.slot_of@[k] as int,
        ) && b.ent(b.slot_of@[k] as int).key == k by {
            assert(a.occ(a.slot_of@[k] as int));
        }
        assert forall|s: int| 0 <= s < CAP && #[trigger] b.occ(s) implies b.slot_of@.contains_key(
            b.ent(s).key,
        ) && b.slot_of@[b.ent(s).key] == s by {
            assert(a.occ(s));
        }
        assert forall|i: int| 0 <= i < b.free_len implies #[trigger] b.free_list@[i] < b.next_unused
            && !b.occ(b.free_list@[i] as int) by {
            assert(a.free_list@[i] < a.next_unused && !a.occ(a.free_list@[i] as int));
        }
        assert forall|s: int| b.next_unused <= s < CAP implies !#[trigger] b.occ(s) by {
            assert(!a.occ(s));
        }
        assert(b.buckets() == a.buckets());
        assert forall|x: int|
            0 <= x < a.buckets().len() && a.buckets()[x] != NONE implies (#[trigger] b.entries@[a.buckets()[x] as int]) is Some
                && b.entries@[a.buckets()[x] as int]->Some_0.key == a.entries@[a.buckets()[x] as int]->Some_0.key by {
            assert(a.entries@[a.buckets()[x] as int] is Some);
            assert(a.buckets()[x] < CAP);
        }
        lemma_table_frame(a.entries@, b.entries@, a.buckets(), CAP as int);
        assert forall|s: int| 0 <= s < CAP && #[trigger] b.occ(s) implies holds(b.buckets(), s as usize) by {
            assert(a.occ(s));
        }
    }

    /// The map of stored values, when slots keep their keys and values.
    proof fn lemma_map_frame(a: Self, b: Self)
        requires
            a.wf(),
            same_kv(a.entries@, b.entries@),
            b.slot_of == a.slot_of,
        ensures
            b@.map == a@.map,
    {
        assert forall|k: K| #[trigger] a.slot_of@.contains_key(k) implies b@.map[k] == a@.map[k] by {
            assert(a.occ(a.slot_of@[k] as int));
        }
        assert(b@.map =~= a@.map);
    }

    /// Moves the entry in slot `idx` to the head of the next younger generation.
    fn promote(&mut self, idx: usize)
        requires
            old(self).wf(),
            idx < CAP,
            old(self).occ(idx as int),
        ensures
            final(self).wf(),
            final(self)@ == old(self)@.after_get(old(self).ent(idx as int).key),
            same_kv(old(self).entries@, final(self).entries@),
            final(self).same_but_links(*old(self)),
    {
        let ghost lists0 = self.lists@;
        let ghost k = self.ent(idx as int).key;
        proof {
            self.lemma_view_wf();
            assert(self.slot_of@.contains_key(k));
            assert(self@.map.contains_key(k));
        }
        let cur_gen = self.entries[idx].as_ref().unwrap().generation;
        let new_gen = if cur_gen == 0 {
            0
        } else {
            cur_gen - 1
        };
        self.unlink(cur_gen, idx);
        let ghost e1 = self.entries@;
        let ghost mid = *self;
        if cur_gen != 0 {
            self.entries[idx].as_mut().unwrap().generation = new_gen;
        }
        proof {
            assert(same_kv(e1, self.entries@));
            lemma_same_kv_trans(old(self).entries@, e1, self.entries@);
            assert forall|g: int| 0 <= g < 4 implies #[trigger] self.gen_ok(g) by {
                assert(mid.gen_ok(g));
                assert forall|i: int| 0 <= i < self.lists@[g].len() implies #[trigger] self.link_ok(g, i) by {
                    assert(mid.link_ok(g, i));
                    assert(self.lists@[g].contains(self.lists@[g][i]));
                }
            }
        }
        let ghost e2 = self.entries@;
        proof {
            assert(self.lists@[new_gen as int].len() < CAP) by {
                assert(old(self).total() == old(self).count);
            }
        }
        self.push_front(new_gen, idx);
        proof {
            lemma_same_kv_trans(old(self).entries@, e2, self.entries@);
            let gs0 = old(self)@.gens;
            lemma_key_lists_without(old(self).entries@, lists0, idx);
            let w = without(lists0, idx);
            lemma_key_lists_push(old(self).entries@, w, new_gen as int, idx);
            assert(new_gen == younger(gen_of(gs0, k)));
            assert forall|g: int, i: int|
                0 <= g < self.lists@.len() && 0 <= i < self.lists@[g].len() implies old(self).entries@[#[trigger] self.lists@[g][i] as int]->Some_0.key
                == self.entries@[self.lists@[g][i] as int]->Some_0.key by {
                assert(self.gen_ok(g));
                assert(self.link_ok(g, i));
            }
            lemma_key_lists_frame(old(self).entries@, self.entries@, self.lists@);
            assert(self@.gens == promoted(gs0, k));
            Self::lemma_kv_frame(*old(self), *self);
            Self::lemma_map_frame(*old(self), *self);
            assert forall|s: int| 0 <= s < CAP && #[trigger] self.occ(s) implies self.ent(s).generation < 4
                && self.lists@[self.ent(s).generation as int].contains(s as usize) by {
                if s == idx {
                    assert(self.lists@[new_gen as int][0] == idx);
                } else {
                    assert(old(self).occ(s));
                    let g = old(self).ent(s).generation as int;
                    assert(lists0[g].contains(s as usize));
                    assert(in_gens(lists0, s as usize));
                    assert(in_gens(w, s as usize));
                    let g2 = choose|g2: int| 0 <= g2 < 4 && #[trigger] w[g2].contains(s as usize);
                    lemma_locate(lists0, s as usize);
                    let i2 = choose|i2: int| 0 <= i2 < w[g2].len() && w[g2][i2] == s as usize;
                    assert(self.gen_ok(g2));
                    if g2 == new_gen {
                        assert(self.link_ok(g2, i2 + 1));
                        assert(self.lists@[g2][i2 + 1] == s);
                    } else {
                        assert(self.link_ok(g2, i2));
                    }
                }
            }
        }
    }
}

impl<K: Eq + Hash, V, const CAP: usize> MglruCache<K, V, CAP> {
    /// Takes slot `idx` out of the bucket table, then stores again every slot
    /// of the run of full buckets that follows it, so that the table stays sound.
    #[verifier::rlimit(50)]
    #[verifier::spinoff_prover]
    fn hash_remove_idx(&mut self, idx: usize)
        requires
            old(self).sizes_ok(),
            table_ok(old(self).entries@, old(self).buckets(), CAP as int),
            idx < CAP,
            old(self).occ(idx as int),
            holds(old(self).buckets(), idx),
        ensures
            final(self).sizes_ok(),
            final(self).same_but_table(*old(self)),
            table_ok(final(self).entries@, final(self).buckets(), CAP as int),
            forall|t: usize|
                t != NONE ==> (holds(final(self).buckets(), t) <==> (holds(old(self).buckets(), t) && t
                    != idx)),
            exists|x0: int|
                0 <= x0 < 2 * CAP && #[trigger] old(self).buckets()[x0] == idx && final(self).buckets()
                    == removed_at(old(self).buckets(), homes(old(self).entries@, 2 * CAP), x0),
    {
        let ghost n = 2 * CAP as int;
        let ghost hm = homes(self.entries@, n);
        let ghost b0 = self.buckets();
        let hash = {
            let key = &self.entries[idx].as_ref().unwrap().key;
            Self::hash_of(key)
        };
        let hash_cap = Self::hash_capacity();
        proof {
            lemma_mod_facts(hash, hash_cap);
        }
        let mut bucket = hash % hash_cap;
        let ghost h = bucket as int;
        let ghost y = choose|y: int| 0 <= y < b0.len() && b0[y] == idx;
        proof {
            assert(hm(b0[y]) == h);
        }
        let mut d: usize = 0;
        while d < hash_cap
            invariant
                *self == *old(self),
                self.sizes_ok(),
                hash_cap == n,
                n == 2 * CAP,
                b0 == self.buckets(),
                hm == homes(self.entries@, n),
                table_ok(self.entries@, b0, CAP as int),
                0 <= y < n,
                b0[y] == idx,
                idx < CAP,
                hm(idx) == h,
                0 <= h < n,
                d <= n,
                bucket == step(h, d as int, n),
                forall|e: int| 0 <= e < d ==> #[trigger] step(h, e, n) != y,
            decreases hash_cap - d,
        {
            proof {
                lemma_step(h, 0, n);
            }
            let slot = self.hash_bucket_get(bucket);
            if slot == NONE {
                proof {
                    lemma_probe_meets(b0, hm, h, y, d as int);
                    assert(step(h, dist(h, y, n), n) != y);
                }
                return;
            }
            if slot == idx {
                proof {
                    assert(bucket == y) by {
                        if bucket != y {
                            assert(b0[bucket as int] != b0[y]);
                        }
                    }
                    lemma_not_full(b0, CAP as int);
                }
                let ghost x0 = bucket as int;
                self.hash_bucket_set(bucket, NONE);
                let ghost e = lemma_removal_start(b0, hm, x0);
                proof {
                    lemma_take(b0, CAP as int, x0);
                    lemma_mod_facts((bucket + 1) as usize, hash_cap);
                    lemma_step(x0, 0, n);
                }
                let mut next_bucket = (bucket + 1) % hash_cap;
                let ghost mut t: int = 1;
                loop
                    invariant_except_break
                        self.sizes_ok(),
                        self.same_but_table(*old(self)),
                        b0 == old(self).buckets(),
                        hash_cap == n,
                        n == 2 * CAP,
                        hm == homes(self.entries@, n),
                        0 <= x0 < n,
                        removal_inv(self.buckets(), hm, x0, e, t),
                        next_bucket == step(x0, t, n),
                        distinct_below(self.buckets(), CAP as int),
                        forall|z: int|
                            0 <= z < n && self.buckets()[z] != NONE ==> (#[trigger] self.entries@[self.buckets()[z] as int]) is Some,
                        forall|u: usize|
                            u != NONE ==> (holds(self.buckets(), u) <==> (holds(b0, u) && u != idx)),
                        shift_back(self.buckets(), hm, x0, t, (n + 1 - t) as nat) == removed_at(b0, hm, x0),
                    ensures
                        self.buckets() == removed_at(b0, hm, x0),
                        self.sizes_ok(),
                        self.same_but_table(*old(self)),
                        b0 == old(self).buckets(),
                        table_ok(self.entries@, self.buckets(), CAP as int),
                        forall|u: usize|
                            u != NONE ==> (holds(self.buckets(), u) <==> (holds(b0, u) && u != idx)),
                    decreases e - t,
                {
                    proof {
                        lemma_step(x0, 0, n);
                    }
                    let ns = self.hash_bucket_get(next_bucket);
                    if ns == NONE {
                        proof {
                            assert(t == e);
                            lemma_removal_end(self.buckets(), hm, x0, e);
                        }
                        break;
                    }
                    let ghost b = self.buckets();
                    proof {
                        assert(t < e);
                        lemma_take(b, CAP as int, next_bucket as int);
                        assert(self.entries@[ns as int] is Some);
                    }
                    self.hash_bucket_set(next_bucket, NONE);
                    proof {
                        assert(ns < CAP);
                        assert(!holds(self.buckets(), ns));
                    }
                    self.hash_insert_idx(ns);
                    proof {
                        let dd = choose|dd: int|
                            #[trigger] first_empty(b.update(next_bucket as int, NONE), hm(ns), dd)
                                && self.buckets() == b.update(next_bucket as int, NONE).update(
                                step(hm(ns), dd, n),
                                ns,
                            );
                        assert(first_empty(b.update(next_bucket as int, NONE), hm(ns), dd));
                        let dc = choose|d: int| #[trigger] first_empty(b.update(next_bucket as int, NONE), hm(ns), d);
                        lemma_first_empty_unique(b.update(next_bucket as int, NONE), hm(ns), dd, dc);
                        assert(shift_back(b, hm, x0, t, (n + 1 - t) as nat) == shift_back(
                            self.buckets(),
                            hm,
                            x0,
                            t + 1,
                            (n - t) as nat,
                        ));
                        lemma_removal_step(b, hm, x0, e, t, dd);
                        lemma_move(b, CAP as int, next_bucket as int, step(hm(ns), dd, n));
                        lemma_mod_facts((next_bucket + 1) as usize, hash_cap);
                        t = t + 1;
                    }
                    next_bucket = (next_bucket + 1) % hash_cap;
                }
                proof {
                    assert(b0 == old(self).buckets());
                    assert(old(self).buckets()[x0] == idx);
                    assert forall|u: usize|
                        u != NONE implies (holds(self.buckets(), u) <==> (holds(old(self).buckets(), u) && u
                            != idx)) by {
                        assert(holds(self.buckets(), u) <==> (holds(b0, u) && u != idx));
                    }
                }
                return;
            }
            proof {
                lemma_mod_facts((bucket + 1) as usize, hash_cap);
                if bucket as int == y {
                    assert(b0[y] == idx);
                }
            }
            bucket = (bucket + 1) % hash_cap;
            d = d + 1;
        }
        proof {
            lemma_probe_meets(b0, hm, h, y, d as int);
            assert(step(h, dist(h, y, n), n) != y);
        }
    }
}

impl<K: Eq + Hash, V, const CAP: usize> MglruCache<K, V, CAP> {
    /// Takes a free slot: the last stacked one, else the first never used.
    fn alloc_slot(&mut self) -> (idx: usize)
        requires
            old(self).sizes_ok(),
            old(self).slots_ok(),
            old(self).count < CAP,
        ensures
            final(self).sizes_ok(),
            idx < CAP,
            !old(self).occ(idx as int),
            old(self).free_len > 0 ==> idx == old(self).free_list@[old(self).free_len - 1]
                && final(self).free_len == old(self).free_len - 1
                && final(self).next_unused == old(self).next_unused,
            old(self).free_len == 0 ==> idx == old(self).next_unused
                && final(self).free_len == 0
                && final(self).next_unused == old(self).next_unused + 1,
            idx < final(self).next_unused,
            final(self).entries == old(self).entries,
            final(self).generations == old(self).generations,
            final(self).count == old(self).count,
            final(self).lists == old(self).lists,
            final(self).slot_of == old(self).slot_of,
            final(self).hash_buckets_lo == old(self).hash_buckets_lo,
            final(self).hash_buckets_hi == old(self).hash_buckets_hi,
            final(self).free_list == old(self).free_list,
            final(self).count + final(self).free_len + 1 == final(self).next_unused,
            final(self).next_unused <= CAP,
            final(self).free_len <= old(self).free_len,
            forall|i: int|
                0 <= i < final(self).free_len ==> #[trigger] final(self).free_list@[i] != idx
                    && final(self).free_list@[i] < final(self).next_unused && !old(self).occ(
                    final(self).free_list@[i] as int,
                ),
            forall|i: int, j: int|
                0 <= i < final(self).free_len && 0 <= j < final(self).free_len && i != j
                    ==> #[trigger] final(self).free_list@[i] != #[trigger] final(self).free_list@[j],
            forall|s: int| final(self).next_unused <= s < CAP ==> !#[trigger] old(self).occ(s),
    {
        if self.free_len > 0 {
            self.free_len = self.free_len - 1;
            let idx = self.free_list[self.free_len];
            proof {
                assert forall|i: int| 0 <= i < self.free_len implies #[trigger] self.free_list@[i] != idx by {
                    assert(self.free_list@[i] != self.free_list@[self.free_len as int]);
                }
            }
            return idx;
        }
        let idx = self.next_unused;
        self.next_unused = self.next_unused + 1;
        idx
    }

    /// Stacks slot `idx` for reuse.
    fn free_slot(&mut self, idx: usize)
        requires
            old(self).sizes_ok(),
            old(self).free_len < CAP,
        ensures
            final(self).sizes_ok(),
            final(self).free_len == old(self).free_len + 1,
            final(self).free_list@ == old(self).free_list@.update(old(self).free_len as int, idx),
            final(self).entries == old(self).entries,
            final(self).generations == old(self).generations,
            final(self).count == old(self).count,
            final(self).lists == old(self).lists,
            final(self).slot_of == old(self).slot_of,
            final(self).hash_buckets_lo == old(self).hash_buckets_lo,
            final(self).hash_buckets_hi == old(self).hash_buckets_hi,
            final(self).next_unused == old(self).next_unused,
    {
        self.free_list.set(self.free_len, idx);
        self.free_len = self.free_len + 1;
    }

    /// `b` is `a` after the stored slot `idx` has been taken out of the lists,
    /// the bucket table, the slot array and the key index, and stacked as free.
    spec fn dropped(a: Self, b: Self, idx: usize) -> bool {
        &&& a.wf()
        &&& idx < CAP
        &&& a.occ(idx as int)
        &&& b.sizes_ok()
        &&& b.lists_ok()
        &&& in_gens(a.lists@, idx)
        &&& b.lists@ == without(a.lists@, idx)
        &&& !b.occ(idx as int)
        &&& forall|s: int|
            0 <= s < CAP && s != idx ==> (#[trigger] b.occ(s) <==> a.occ(s)) && (a.occ(s) ==> b.ent(
                s,
            ).key == a.ent(s).key && b.ent(s).value == a.ent(s).value && b.ent(s).generation
                == a.ent(s).generation)
        &&& b.count == a.count - 1
        &&& b.slot_of@ == a.slot_of@.remove(a.ent(idx as int).key)
        &&& table_ok(a.entries@, b.buckets(), CAP as int)
        &&& forall|t: usize| t != NONE ==> (holds(b.buckets(), t) <==> (holds(a.buckets(), t) && t != idx))
        &&& b.free_len == a.free_len + 1
        &&& b.free_list@ == a.free_list@.update(a.free_len as int, idx)
        &&& b.next_unused == a.next_unused
    }

    /// After a drop, every occupied slot is listed in its generation and the
    /// count matches the lists.
    proof fn lemma_dropped_lists(a: Self, b: Self, idx: usize)
        requires
            Self::dropped(a, b, idx),
        ensures
            b.placed(),
            b.count == b.total(),
    {
        lemma_without(a.lists@, idx);
        lemma_locate(a.lists@, idx);
        assert forall|s: int| 0 <= s < CAP && #[trigger] b.occ(s) implies b.ent(s).generation < 4
            && b.lists@[b.ent(s).generation as int].contains(s as usize) by {
            assert(s != idx);
            assert(a.occ(s));
            let g = a.ent(s).generation as int;
            assert(a.lists@[g].contains(s as usize));
            assert(in_gens(a.lists@, s as usize));
            assert(in_gens(b.lists@, s as usize));
            let g2 = choose|g2: int| 0 <= g2 < 4 && #[trigger] b.lists@[g2].contains(s as usize);
            let i2 = choose|i2: int| 0 <= i2 < b.lists@[g2].len() && b.lists@[g2][i2] == s as usize;
            assert(b.gen_ok(g2));
            assert(b.link_ok(g2, i2));
        }
        let g = gen_of(a.lists@, idx);
        assert(b.lists@[g].len() == a.lists@[g].len() - 1);
        assert(b.total() == a.total() - 1);
    }

    /// After a drop, the key index maps each remaining key to its slot.
    proof fn lemma_dropped_keys(a: Self, b: Self, idx: usize)
        requires
            Self::dropped(a, b, idx),
        ensures
            b.keys_ok(),
    {
        let k = a.ent(idx as int).key;
        assert(a.slot_of@.contains_key(k));
        assert(b.slot_of@.len() == a.slot_of@.len() - 1);
        assert forall|kk: K| #[trigger] b.slot_of@.contains_key(kk) implies b.slot_of@[kk] < CAP && b.occ(
            b.slot_of@[kk] as int,
        ) && b.ent(b.slot_of@[kk] as int).key == kk by {
            assert(a.slot_of@.contains_key(kk));
            let sl = a.slot_of@[kk];
            assert(b.slot_of@[kk] == sl);
            assert(sl < CAP && a.occ(sl as int) && a.ent(sl as int).key == kk);
            assert(sl != idx);
            assert(b.occ(sl as int));
            assert(b.ent(sl as int).key == kk);
        }
        assert forall|s: int| 0 <= s < CAP && #[trigger] b.occ(s) implies b.slot_of@.contains_key(
            b.ent(s).key,
        ) && b.slot_of@[b.ent(s).key] == s by {
            assert(a.occ(s));
            assert(a.slot_of@[a.ent(s).key] == s);
            assert(a.ent(s).key != k);
        }
    }

    /// After a drop, the free slots are the stacked ones and those never used.
    proof fn lemma_dropped_slots(a: Self, b: Self, idx: usize)
        requires
            Self::dropped(a, b, idx),
        ensures
            b.slots_ok(),
    {
        assert(idx < a.next_unused);
        assert forall|i: int| 0 <= i < b.free_len implies #[trigger] b.free_list@[i] < b.next_unused
            && !b.occ(b.free_list@[i] as int) by {
            if i < a.free_len {
                assert(a.free_list@[i] < a.next_unused && !a.occ(a.free_list@[i] as int));
            }
        }
        assert forall|i: int, j: int|
            0 <= i < b.free_len && 0 <= j < b.free_len && i != j implies #[trigger] b.free_list@[i]
            != #[trigger] b.free_list@[j] by {
            if i < a.free_len && j < a.free_len {
                assert(a.free_list@[i] != a.free_list@[j]);
            } else if i < a.free_len {
                assert(!a.occ(a.free_list@[i] as int));
            } else {
                assert(!a.occ(a.free_list@[j] as int));
            }
        }
        assert forall|s: int| b.next_unused <= s < CAP implies !#[trigger] b.occ(s) by {
            assert(!a.occ(s));
        }
    }

    /// After a drop, the bucket table is sound and holds every occupied slot.
    proof fn lemma_dropped_table(a: Self, b: Self, idx: usize)
        requires
            Self::dropped(a, b, idx),
        ensures
            table_ok(b.entries@, b.buckets(), CAP as int),
            b.hashed(),
    {
        let bb = b.buckets();
        assert forall|x: int|
            0 <= x < bb.len() && bb[x] != NONE implies (#[trigger] b.entries@[bb[x] as int]) is Some
                && b.entries@[bb[x] as int]->Some_0.key == a.entries@[bb[x] as int]->Some_0.key by {
            let t = bb[x];
            assert(holds(bb, t));
            assert(holds(a.buckets(), t) && t != idx);
            assert(a.entries@[t as int] is Some);
            assert(t < CAP);
            assert(a.occ(t as int));
            assert(b.occ(t as int));
            assert(b.ent(t as int).key == a.ent(t as int).key);
        }
        lemma_table_frame(a.entries@, b.entries@, bb, CAP as int);
        assert forall|s: int| 0 <= s < CAP && #[trigger] b.occ(s) implies holds(b.buckets(), s as usize) by {
            assert(a.occ(s));
            assert(holds(a.buckets(), s as usize));
        }
    }

    /// After a drop, the cache shows its key taken out.
    #[verifier::spinoff_prover]
    proof fn lemma_dropped(a: Self, b: Self, idx: usize)
        requires
            Self::dropped(a, b, idx),
        ensures
            b.wf(),
            b@.gens == without(a@.gens, a.ent(idx as int).key),
            b@.map == a@.map.remove(a.ent(idx as int).key),
    {
        let k = a.ent(idx as int).key;
        a.lemma_view_wf();
        Self::lemma_dropped_lists(a, b, idx);
        Self::lemma_dropped_keys(a, b, idx);
        Self::lemma_dropped_slots(a, b, idx);
        Self::lemma_dropped_table(a, b, idx);
        assert(b.wf());
        lemma_key_lists_without(a.entries@, a.lists@, idx);
        assert forall|g: int, i: int|
            0 <= g < b.lists@.len() && 0 <= i < b.lists@[g].len() implies a.entries@[#[trigger] b.lists@[g][i] as int]->Some_0.key
            == b.entries@[b.lists@[g][i] as int]->Some_0.key by {
            assert(b.gen_ok(g));
            assert(b.link_ok(g, i));
        }
        lemma_key_lists_frame(a.entries@, b.entries@, b.lists@);
        assert forall|kk: K| #[trigger] b.slot_of@.contains_key(kk) implies b@.map[kk] == a@.map[kk] by {
            assert(a.occ(a.slot_of@[kk] as int));
        }
        assert(b@.map =~= a@.map.remove(k));
    }

    /// Removes `key`, returning its value if it was stored.
    #[verifier::rlimit(50)]
    #[verifier::spinoff_prover]
    pub fn remove(&mut self, key: &K) -> (r: Option<V>)
        requires
            old(self).wf(),
            vstd::laws_eq::obeys_concrete_eq::<K>(),
        ensures
            final(self).wf(),
            final(self)@ == old(self)@.after_remove(*key),
            r == (if old(self)@.map.contains_key(*key) {
                Some(old(self)@.map[*key])
            } else {
                None::<V>
            }),
    {
        proof {
            self.lemma_view_wf();
        }
        let idx = match self.find_index(key) {
            Some(i) => i,
            None => return None,
        };
        let ghost a = *self;
        proof {
            assert(self.occ(idx as int));
            assert(self.lists@[self.ent(idx as int).generation as int].contains(idx));
        }
        let g = self.entries[idx].as_ref().unwrap().generation;
        self.unlink(g, idx);
        let ghost e1 = self.entries@;
        let ghost m = *self;
        proof {
            assert(table_ok(e1, a.buckets(), CAP as int)) by {
                let bb = a.buckets();
                assert forall|x: int|
                    0 <= x < bb.len() && bb[x] != NONE implies (#[trigger] e1[bb[x] as int]) is Some
                        && e1[bb[x] as int]->Some_0.key == a.entries@[bb[x] as int]->Some_0.key by {
                    assert(a.entries@[bb[x] as int] is Some);
                    assert(bb[x] < CAP);
                }
                lemma_table_frame(a.entries@, e1, bb, CAP as int);
            }
        }
        self.hash_remove_idx(idx);
        proof {
            let bb = self.buckets();
            assert forall|x: int|
                0 <= x < bb.len() && bb[x] != NONE implies (#[trigger] a.entries@[bb[x] as int]) is Some
                    && a.entries@[bb[x] as int]->Some_0.key == e1[bb[x] as int]->Some_0.key by {
                assert(e1[bb[x] as int] is Some);
                assert(bb[x] < CAP);
            }
            lemma_table_frame(e1, a.entries@, bb, CAP as int);
        }
        let entry = self.entries[idx].take().unwrap();
        self.count = self.count - 1;
        proof {
            assert(a.free_len < CAP);
        }
        self.free_slot(idx);
        proof {
            self.slot_of@ = self.slot_of@.remove(a.ent(idx as int).key);
            let ghost b = *self;
            assert forall|gg: int| 0 <= gg < 4 implies #[trigger] b.gen_ok(gg) by {
                assert(m.gen_ok(gg));
                assert forall|i: int| 0 <= i < b.lists@[gg].len() implies #[trigger] b.link_ok(gg, i) by {
                    assert(m.link_ok(gg, i));
                    assert(b.lists@[gg].contains(b.lists@[gg][i]));
                    assert(in_gens(b.lists@, b.lists@[gg][i]));
                    assert(b.lists@[gg][i] != idx);
                    assert(b.entries@[b.lists@[gg][i] as int] == m.entries@[b.lists@[gg][i] as int]);
                }
            }
            Self::lemma_dropped(a, b, idx);
            lemma_key_lists_without(a.entries@, a.lists@, idx);
        }
        Some(entry.value)
    }
}

impl<K: Eq + Hash, V, const CAP: usize> MglruCache<K, V, CAP> {
    /// The lists depend only on the slot array, the generations and the lists.
    proof fn lemma_lists_frame(a: Self, b: Self)
        requires
            a.lists_ok(),
            b.entries == a.entries,
            b.generations == a.generations,
            b.lists == a.lists,
        ensures
            b.lists_ok(),
    {
        assert forall|g: int| 0 <= g < 4 implies #[trigger] b.gen_ok(g) by {
            assert(a.gen_ok(g));
            assert forall|i: int| 0 <= i < b.lists@[g].len() implies #[trigger] b.link_ok(g, i) by {
                assert(a.link_ok(g, i));
            }
        }
    }

    /// Evicts the tail of the oldest non-empty generation.
    #[verifier::rlimit(50)]
    #[verifier::spinoff_prover]
    fn evict(&mut self)
        requires
            old(self).wf(),
            old(self).count >= CAP,
        ensures
            final(self).wf(),
            final(self)@ == old(self)@.evicted(),
            final(self).count == old(self).count - 1,
            ({
                let v = old(self).slot_of@[old(self)@.victim()];
                &&& v < CAP
                &&& old(self).occ(v as int)
                &&& final(self).entries@[v as int] is None
                &&& final(self).free_len == old(self).free_len + 1
                &&& final(self).free_list@ == old(self).free_list@.update(old(self).free_len as int, v)
                &&& final(self).next_unused == old(self).next_unused
                &&& final(self).slot_of@ == old(self).slot_of@.remove(old(self)@.victim())
                &&& final(self).lists@ == without(old(self).lists@, v)
                &&& forall|s: int|
                    0 <= s < CAP && s != v ==> (#[trigger] final(self).occ(s) <==> old(self).occ(s))
                        && (old(self).occ(s) ==> final(self).ent(s).key == old(self).ent(s).key
                        && final(self).ent(s).value == old(self).ent(s).value
                        && final(self).ent(s).generation == old(self).ent(s).generation)
            }),
    {
        let ghost a = *self;
        proof {
            self.lemma_view_wf();
            lemma_victim(self@);
        }
        let mut g: usize = MAX_GENERATIONS;
        while g > 0
            invariant
                *self == a,
                a == *old(self),
                a.wf(),
                a.count >= CAP,
                g <= 4,
                forall|g2: int| g <= g2 < 4 ==> #[trigger] a.lists@[g2].len() == 0,
            decreases g,
        {
            g = g - 1;
            proof {
                assert(a.gen_ok(g as int));
            }
            if self.generations[g].tail != NONE {
                let tail = self.generations[g].tail;
                proof {
                    let l = a.lists@[g as int];
                    assert(l.len() > 0);
                    assert(a.link_ok(g as int, l.len() - 1));
                    assert(l[l.len() - 1] == tail);
                    assert(l.contains(tail));
                    assert(in_gens(a.lists@, tail));
                    a.lemma_view_wf();
                    let gs = a@.gens;
                    assert forall|g2: int| 0 <= g2 < 4 implies #[trigger] gs[g2].len() == a.lists@[g2].len() by {}
                    assert(victim_gen(gs) == g);
                    assert(a@.victim() == a.ent(tail as int).key);
                    assert(holds(a.buckets(), tail));
                }
                self.hash_remove_idx(tail);
                proof {
                    Self::lemma_lists_frame(a, *self);
                }
                self.unlink(g, tail);
                let ghost m = *self;
                proof {
                    lemma_locate(a.lists@, tail);
                }
                self.entries.set(tail, None);
                self.count = self.count - 1;
                self.free_slot(tail);
                proof {
                    self.slot_of@ = self.slot_of@.remove(a.ent(tail as int).key);
                    let ghost b = *self;
                    assert forall|gg: int| 0 <= gg < 4 implies #[trigger] b.gen_ok(gg) by {
                        assert(m.gen_ok(gg));
                        assert forall|i: int| 0 <= i < b.lists@[gg].len() implies #[trigger] b.link_ok(gg, i) by {
                            assert(m.link_ok(gg, i));
                            assert(b.lists@[gg].contains(b.lists@[gg][i]));
                            assert(in_gens(b.lists@, b.lists@[gg][i]));
                            assert(b.lists@[gg][i] != tail);
                        }
                    }
                    Self::lemma_dropped(a, b, tail);
                    lemma_victim(a@);
                    assert(b@.gens == a@.evicted().gens);
                    assert(b@.map == a@.evicted().map);
                    assert(b@.capacity == a@.evicted().capacity);
                    assert(b@ == a@.evicted());
                }
                return;
            }
            proof {
                if a.lists@[g as int].len() > 0 {
                    assert(a.link_ok(g as int, a.lists@[g as int].len() - 1));
                }
                assert(a.lists@[g as int].len() == 0);
            }
        }
        proof {
            assert(a.total() == 0);
        }
    }

    /// The state after a free slot `idx` has been filled with `k` and `v`,
    /// put at the head of generation 0, stored in the bucket table and indexed.
    #[verifier::rlimit(50)]
    #[verifier::spinoff_prover]
    proof fn lemma_added(a: Self, b: Self, idx: usize, k: K, v: V)
        requires
            a.wf(),
            idx < CAP,
            !a.occ(idx as int),
            !a.slot_of@.contains_key(k),
            b.sizes_ok(),
            b.lists_ok(),
            b.lists@ == a.lists@.update(0, seq![idx] + a.lists@[0]),
            b.occ(idx as int),
            b.ent(idx as int).key == k,
            b.ent(idx as int).value == v,
            b.ent(idx as int).generation == 0,
            forall|s: int|
                0 <= s < CAP && s != idx ==> (#[trigger] b.occ(s) <==> a.occ(s)) && (a.occ(s) ==> b.ent(s).key
                    == a.ent(s).key && b.ent(s).value == a.ent(s).value && b.ent(s).generation == a.ent(
                    s,
                ).generation),
            b.count == a.count + 1,
            b.count <= CAP,
            b.slot_of@ == a.slot_of@.insert(k, idx),
            table_ok(b.entries@, b.buckets(), CAP as int),
            forall|t: usize| t != NONE ==> (holds(b.buckets(), t) <==> (holds(a.buckets(), t) || t == idx)),
            idx < b.next_unused,
            b.next_unused <= CAP,
            b.free_len <= CAP,
            b.count + b.free_len == b.next_unused,
            forall|i: int|
                0 <= i < b.free_len ==> #[trigger] b.free_list@[i] != idx && b.free_list@[i] < b.next_unused
                    && !a.occ(b.free_list@[i] as int),
            forall|i: int, j: int|
                0 <= i < b.free_len && 0 <= j < b.free_len && i != j ==> #[trigger] b.free_list@[i]
                    != #[trigger] b.free_list@[j],
            forall|s: int| b.next_unused <= s < CAP ==> !#[trigger] a.occ(s),
        ensures
            b.wf(),
            b@.gens == a@.gens.update(0, seq![k] + a@.gens[0]),
            b@.map == a@.map.insert(k, v),
    {
        a.lemma_view_wf();
        // the lists
        assert forall|s: int| 0 <= s < CAP && #[trigger] b.occ(s) implies b.ent(s).generation < 4
            && b.lists@[b.ent(s).generation as int].contains(s as usize) by {
            if s == idx {
                assert(b.lists@[0][0] == idx);
            } else {
                assert(a.occ(s));
                let g = a.ent(s).generation as int;
                assert(a.lists@[g].contains(s as usize));
                let i = choose|i: int| 0 <= i < a.lists@[g].len() && a.lists@[g][i] == s as usize;
                if g == 0 {
                    assert(b.lists@[0][i + 1] == s);
                } else {
                    assert(b.lists@[g][i] == s);
                }
            }
        }
        // the key index
        assert(b.slot_of@.len() == a.slot_of@.len() + 1);
        assert forall|kk: K| #[trigger] b.slot_of@.contains_key(kk) implies b.slot_of@[kk] < CAP && b.occ(
            b.slot_of@[kk] as int,
        ) && b.ent(b.slot_of@[kk] as int).key == kk by {
            if kk != k {
                assert(a.slot_of@.contains_key(kk));
                let sl = a.slot_of@[kk];
                assert(b.slot_of@[kk] == sl);
                assert(a.occ(sl as int));
                assert(a.ent(sl as int).key == kk);
                assert(sl < CAP);
                assert(sl != idx);
                assert(b.occ(sl as int));
                assert(b.ent(sl as int).key == kk);
            } else {
                assert(b.slot_of@[kk] == idx);
            }
        }
        assert forall|s: int| 0 <= s < CAP && #[trigger] b.occ(s) implies b.slot_of@.contains_key(
            b.ent(s).key,
        ) && b.slot_of@[b.ent(s).key] == s by {
            if s != idx {
                assert(a.occ(s));
                assert(a.slot_of@[a.ent(s).key] == s);
                assert(a.slot_of@.contains_key(a.ent(s).key));
            }
        }
        // the free slots and the bucket table
        assert forall|i: int| 0 <= i < b.free_len implies #[trigger] b.free_list@[i] < b.next_unused
            && !b.occ(b.free_list@[i] as int) by {}
        assert forall|s: int| b.next_unused <= s < CAP implies !#[trigger] b.occ(s) by {
            assert(!a.occ(s));
        }
        assert forall|s: int| 0 <= s < CAP && #[trigger] b.occ(s) implies holds(b.buckets(), s as usize) by {
            if s != idx {
                assert(a.occ(s));
                assert(holds(a.buckets(), s as usize));
            }
        }
        // the view
        lemma_key_lists_push(a.entries@, a.lists@, 0, idx);
        assert forall|g: int, i: int|
            0 <= g < b.lists@.len() && 0 <= i < b.lists@[g].len() implies a.entries@[#[trigger] b.lists@[g][i] as int]->Some_0.key
            == b.entries@[b.lists@[g][i] as int]->Some_0.key || b.lists@[g][i] == idx by {
            assert(b.gen_ok(g));
            assert(b.link_ok(g, i));
        }
        let e2 = a.entries@.update(idx as int, b.entries@[idx as int]);
        assert forall|g: int, i: int|
            0 <= g < b.lists@.len() && 0 <= i < b.lists@[g].len() implies e2[#[trigger] b.lists@[g][i] as int]->Some_0.key
            == b.entries@[b.lists@[g][i] as int]->Some_0.key by {
            assert(b.gen_ok(g));
            assert(b.link_ok(g, i));
        }
        lemma_key_lists_frame(e2, b.entries@, b.lists@);
        assert forall|g: int, i: int|
            0 <= g < a.lists@.len() && 0 <= i < a.lists@[g].len() implies e2[#[trigger] a.lists@[g][i] as int]->Some_0.key
            == a.entries@[a.lists@[g][i] as int]->Some_0.key by {
            assert(a.gen_ok(g));
            assert(a.link_ok(g, i));
        }
        lemma_key_lists_frame(e2, a.entries@, a.lists@);
        lemma_key_lists_push(e2, a.lists@, 0, idx);
        assert forall|kk: K| #[trigger] b.slot_of@.contains_key(kk) implies b@.map[kk] == a@.map.insert(k, v)[kk] by {
            if kk != k {
                assert(a.occ(a.slot_of@[kk] as int));
            }
        }
        assert(b@.map =~= a@.map.insert(k, v));
    }

    /// Inserts `value` under `key`, returning the value it replaces. A new key
    /// evicts first when the cache is full, then becomes the head of generation 0.
    #[verifier::rlimit(50)]
    #[verifier::spinoff_prover]
    pub fn insert(&mut self, key: K, value: V) -> (r: Option<V>)
        requires
            old(self).wf(),
            vstd::laws_eq::obeys_concrete_eq::<K>(),
        ensures
            final(self).wf(),
            final(self)@ == old(self)@.after_insert(key, value),
            r == (if old(self)@.map.contains_key(key) {
                Some(old(self)@.map[key])
            } else {
                None::<V>
            }),
    {
        proof {
            self.lemma_view_wf();
        }
        if let Some(idx) = self.find_index(&key) {
            let ghost a = *self;
            proof {
                assert(self.occ(idx as int));
            }
            let entry = self.entries[idx].as_mut().unwrap();
            let mut value = value;
            core::mem::swap(&mut entry.value, &mut value);
            proof {
                Self::lemma_value_changed(a, *self, idx);
            }
            self.promote(idx);
            return Some(value);
        }
        if self.count >= CAP {
            self.evict();
        }
        let ghost a = *self;
        proof {
            self.lemma_view_wf();
            assert(!self.slot_of@.contains_key(key));
        }
        let idx = self.alloc_slot();
        let ghost k = key;
        self.entries.set(idx, Some(Entry { key, value, generation: 0, prev: NONE, next: NONE }));
        self.count = self.count + 1;
        let ghost m = *self;
        proof {
            let bb = a.buckets();
            assert forall|x: int|
                0 <= x < bb.len() && bb[x] != NONE implies (#[trigger] m.entries@[bb[x] as int]) is Some
                    && m.entries@[bb[x] as int]->Some_0.key == a.entries@[bb[x] as int]->Some_0.key by {
                assert(a.entries@[bb[x] as int] is Some);
                assert(bb[x] < CAP);
            }
            lemma_table_frame(a.entries@, m.entries@, bb, CAP as int);
            if holds(bb, idx) {
                let x = choose|x: int| 0 <= x < bb.len() && bb[x] == idx;
                assert(a.entries@[bb[x] as int] is Some);
            }
        }
        self.hash_insert_idx(idx);
        let ghost m2 = *self;
        proof {
            let bb = a.buckets();
            let hm = homes(m.entries@, 2 * CAP as int);
            let d = choose|d: int|
                #[trigger] first_empty(bb, m.home(idx), d) && self.buckets() == bb.update(
                    step(m.home(idx), d, 2 * CAP),
                    idx,
                );
            assert(first_empty(bb, m.home(idx), d));
            lemma_mod_facts(0, 1);
            assert(0 <= hm(idx) < 2 * CAP) by {
                assert(hm(idx) == (m.entries@[idx as int]->Some_0.key.hash_spec() as int) % (2 * CAP as int));
            }
            lemma_fill(bb, hm, idx, d);
            lemma_step(hm(idx), 0, 2 * CAP as int);
            lemma_put(bb, CAP as int, step(m.home(idx), d, 2 * CAP), idx);
            assert(table_ok(m.entries@, self.buckets(), CAP as int));
            assert(!in_gens(a.lists@, idx)) by {
                if in_gens(a.lists@, idx) {
                    let g = choose|g: int| 0 <= g < 4 && #[trigger] a.lists@[g].contains(idx);
                    let i = choose|i: int| 0 <= i < a.lists@[g].len() && a.lists@[g][i] == idx;
                    assert(a.gen_ok(g));
                    assert(a.link_ok(g, i));
                }
            }
            assert(a.total() == a.count);
            assert forall|g: int| 0 <= g < 4 implies #[trigger] self.gen_ok(g) by {
                assert(a.gen_ok(g));
                assert forall|i: int| 0 <= i < self.lists@[g].len() implies #[trigger] self.link_ok(g, i) by {
                    assert(a.link_ok(g, i));
                }
            }
        }
        self.push_front(0, idx);
        let ghost m3 = *self;
        proof {
            self.slot_of@ = self.slot_of@.insert(k, idx);
            let ghost b = *self;
            Self::lemma_lists_frame(m3, b);
            assert forall|s: int| 0 <= s < CAP && s != idx implies (#[trigger] b.occ(s) <==> a.occ(s)) && (a.occ(s)
                ==> b.ent(s).key == a.ent(s).key && b.ent(s).value == a.ent(s).value && b.ent(s).generation
                == a.ent(s).generation) by {
                assert(m.entries@[s] == a.entries@[s]);
                assert(m2.entries@[s] == m.entries@[s]);
                assert(b.entries@[s] is Some <==> m2.entries@[s] is Some);
                if m2.entries@[s] is Some {
                    assert(b.entries@[s]->Some_0.generation == m2.entries@[s]->Some_0.generation);
                }
            }
            let bb = b.buckets();
            assert forall|x: int|
                0 <= x < bb.len() && bb[x] != NONE implies (#[trigger] b.entries@[bb[x] as int]) is Some
                    && b.entries@[bb[x] as int]->Some_0.key == m.entries@[bb[x] as int]->Some_0.key by {
                assert(m.entries@[bb[x] as int] is Some);
                assert(bb[x] < CAP);
            }
            lemma_table_frame(m.entries@, b.entries@, bb, CAP as int);
            Self::lemma_added(a, b, idx, k, value);
            assert(b@ == old(self)@.after_insert(k, value)) by {
                if old(self)@.map.len() >= old(self)@.capacity {
                    assert(a@ == old(self)@.evicted());
                } else {
                    assert(a == *old(self));
                }
            }
        }
        None
    }

    /// Changing the value in a stored slot keeps the invariant and changes
    /// the stored value of its key.
    proof fn lemma_value_changed(a: Self, b: Self, idx: usize)
        requires
            a.wf(),
            idx < CAP,
            a.occ(idx as int),
            b.entries@.len() == a.entries@.len(),
            b.occ(idx as int),
            b.ent(idx as int) == (Entry { value: b.ent(idx as int).value, ..a.ent(idx as int) }),
            forall|s: int| 0 <= s < CAP && s != idx ==> #[trigger] b.entries@[s] == a.entries@[s],
            b.generations == a.generations,
            b.lists == a.lists,
            b.same_but_links(a),
        ensures
            b.wf(),
            b@.gens == a@.gens,
            b@.map == a@.map.insert(a.ent(idx as int).key, b.ent(idx as int).value),
    {
        a.lemma_view_wf();
        assert forall|g: int| 0 <= g < 4 implies #[trigger] b.gen_ok(g) by {
            assert(a.gen_ok(g));
            assert forall|i: int| 0 <= i < b.lists@[g].len() implies #[trigger] b.link_ok(g, i) by {
                assert(a.link_ok(g, i));
            }
        }
        assert forall|s: int| 0 <= s < CAP && #[trigger] b.occ(s) implies b.ent(s).generation < 4
            && b.lists@[b.ent(s).generation as int].contains(s as usize) by {
            assert(a.occ(s));
        }
        assert forall|s: int| 0 <= s < CAP implies (#[trigger] b.occ(s) <==> a.occ(s)) by {}
        assert forall|kk: K| #[trigger] b.slot_of@.contains_key(kk) implies b.slot_of@[kk] < CAP && b.occ(
            b.slot_of@[kk] as int,
        ) && b.ent(b.slot_of@[kk] as int).key == kk by {
            assert(a.occ(a.slot_of@[kk] as int));
        }
        assert forall|s: int| 0 <= s < CAP && #[trigger] b.occ(s) implies b.slot_of@.contains_key(
            b.ent(s).key,
        ) && b.slot_of@[b.ent(s).key] == s by {
            assert(a.occ(s));
        }
        assert forall|i: int| 0 <= i < b.free_len implies #[trigger] b.free_list@[i] < b.next_unused
            && !b.occ(b.free_list@[i] as int) by {
            assert(a.free_list@[i] < a.next_unused && !a.occ(a.free_list@[i] as int));
        }
        assert forall|s: int| b.next_unused <= s < CAP implies !#[trigger] b.occ(s) by {
            assert(!a.occ(s));
        }
        let bb = a.buckets();
        assert forall|x: int|
            0 <= x < bb.len() && bb[x] != NONE implies (#[trigger] b.entries@[bb[x] as int]) is Some
                && b.entries@[bb[x] as int]->Some_0.key == a.entries@[bb[x] as int]->Some_0.key by {
            assert(a.entries@[bb[x] as int] is Some);
            assert(bb[x] < CAP);
        }
        lemma_table_frame(a.entries@, b.entries@, bb, CAP as int);
        assert forall|s: int| 0 <= s < CAP && #[trigger] b.occ(s) implies holds(b.buckets(), s as usize) by {
            assert(a.occ(s));
        }
        assert forall|g: int, i: int|
            0 <= g < b.lists@.len() && 0 <= i < b.lists@[g].len() implies a.entries@[#[trigger] b.lists@[g][i] as int]->Some_0.key
            == b.entries@[b.lists@[g][i] as int]->Some_0.key by {
            assert(a.gen_ok(g));
            assert(a.link_ok(g, i));
        }
        lemma_key_lists_frame(a.entries@, b.entries@, b.lists@);
        let k = a.ent(idx as int).key;
        assert forall|kk: K| #[trigger] b.slot_of@.contains_key(kk) implies b@.map[kk] == a@.map.insert(
            k,
            b.ent(idx as int).value,
        )[kk] by {
            assert(a.occ(a.slot_of@[kk] as int));
        }
        assert(b@.map =~= a@.map.insert(k, b.ent(idx as int).value));
    }

    /// Looks `key` up. A found entry moves to the head of the next younger generation.
    pub fn get(&mut self, key: &K) -> (r: Option<&V>)
        requires
            old(self).wf(),
            vstd::laws_eq::obeys_concrete_eq::<K>(),
        ensures
            final(self).wf(),
            final(self)@ == old(self)@.after_get(*key),
            r == (if old(self)@.map.contains_key(*key) {
                Some(&old(self)@.map[*key])
            } else {
                None::<&V>
            }),
    {
        proof {
            self.lemma_view_wf();
        }
        let idx = match self.find_index(key) {
            Some(i) => i,
            None => return None,
        };
        proof {
            assert(self.occ(idx as int));
        }
        self.promote(idx);
        Some(&self.entries[idx].as_ref().unwrap().value)
    }
}

/// The lists during ageing, once generations `2`, ..., `g` have been moved
/// one older.
spec fn aged_from(l: Seq<Seq<usize>>, g: int) -> Seq<Seq<usize>> {
    if g >= 3 {
        l
    } else if g == 2 {
        seq![l[0], l[1], Seq::empty(), l[2] + l[3]]
    } else if g == 1 {
        seq![l[0], Seq::empty(), l[1], l[2] + l[3]]
    } else {
        seq![Seq::empty(), l[0], l[1], l[2] + l[3]]
    }
}

impl<K: Eq + Hash, V, const CAP: usize> MglruCache<K, V, CAP> {
    /// The state after the list of generation `g` has been put in front of
    /// that of generation `g + 1`.
    #[verifier::rlimit(50)]
    #[verifier::spinoff_prover]
    proof fn lemma_merged(a: Self, b: Self, g: int)
        requires
            a.wf(),
            0 <= g < 3,
            a.lists@[g].len() > 0,
            b.sizes_ok(),
            b.same_but_links(a),
            b.lists@ == a.lists@.update(g + 1, a.lists@[g] + a.lists@[g + 1]).update(g, Seq::empty()),
            b.generations@[g].head == NONE,
            b.generations@[g].tail == NONE,
            b.generations@[g].len == 0,
            b.generations@[g + 1].head == a.lists@[g][0],
            b.generations@[g + 1].tail == (if a.lists@[g + 1].len() > 0 {
                a.lists@[g + 1].last()
            } else {
                a.lists@[g].last()
            }),
            b.generations@[g + 1].len == a.lists@[g].len() + a.lists@[g + 1].len(),
            forall|g2: int| 0 <= g2 < 4 && g2 != g && g2 != g + 1 ==> #[trigger] b.generations@[g2] == a.generations@[g2],
            b.entries@.len() == a.entries@.len(),
            forall|s: int|
                0 <= s < CAP ==> (#[trigger] b.occ(s) <==> a.occ(s)) && (a.occ(s) ==> {
                    &&& b.ent(s).key == a.ent(s).key
                    &&& b.ent(s).value == a.ent(s).value
                    &&& b.ent(s).generation == (if a.lists@[g].contains(s as usize) {
                        g + 1
                    } else {
                        a.ent(s).generation as int
                    })
                    &&& b.ent(s).next == (if s == a.lists@[g].last() {
                        if a.lists@[g + 1].len() > 0 {
                            a.lists@[g + 1][0]
                        } else {
                            NONE
                        }
                    } else {
                        a.ent(s).next
                    })
                    &&& b.ent(s).prev == (if a.lists@[g + 1].len() > 0 && s == a.lists@[g + 1][0] {
                        a.lists@[g].last()
                    } else {
                        a.ent(s).prev
                    })
                }),
        ensures
            b.wf(),
            b@.gens == key_lists(a.entries@, b.lists@),
            b@.map == a@.map,
            same_kv(a.entries@, b.entries@),
    {
        let la = a.lists@[g];
        let lb = a.lists@[g + 1];
        let l = b.lists@[g + 1];
        assert(l == la + lb);
        lemma_merge_gens(a.lists@, g);
        assert forall|s: int| 0 <= s < a.entries@.len() implies (#[trigger] a.entries@[s] is Some <==> b.entries@[s] is Some) && (a.entries@[s] is Some ==> (
        a.entries@[s]->Some_0.key == b.entries@[s]->Some_0.key && a.entries@[s]->Some_0.value == b.entries@[s]->Some_0.value)) by {
            assert(b.occ(s) <==> a.occ(s));
        }
        assert(same_kv(a.entries@, b.entries@));
        assert(a.gen_ok(g));
        assert(a.gen_ok(g + 1));
        assert forall|g2: int| 0 <= g2 < 4 implies #[trigger] b.gen_ok(g2) by {
            assert(a.gen_ok(g2));
            if g2 == g + 1 {
                assert forall|j: int| 0 <= j < l.len() implies #[trigger] b.link_ok(g2, j) by {
                    let s = l[j] as int;
                    if j < la.len() {
                        assert(a.link_ok(g, j));
                        assert(s == la[j]);
                        assert(b.occ(s) <==> a.occ(s));
                        assert(la.contains(la[j]));
                        if lb.len() > 0 {
                            assert(la[j] != lb[0]) by {
                                assert(a.lists@[g][j] != a.lists@[g + 1][0]);
                            }
                        }
                        if j + 1 < la.len() {
                            assert(la[j] != la.last());
                        }
                    } else {
                        let jj = j - la.len();
                        assert(a.link_ok(g + 1, jj));
                        assert(s == lb[jj]);
                        assert(b.occ(s) <==> a.occ(s));
                        assert(lb[jj] != la.last()) by {
                            assert(a.lists@[g + 1][jj] != a.lists@[g][la.len() - 1]);
                        }
                        if !la.contains(lb[jj]) {
                        } else {
                            let k = choose|k: int| 0 <= k < la.len() && la[k] == lb[jj];
                            assert(a.lists@[g + 1][jj] != a.lists@[g][k]);
                        }
                        if jj > 0 {
                            assert(lb[jj] != lb[0]);
                        }
                    }
                }
            } else if g2 != g {
                assert forall|j: int| 0 <= j < b.lists@[g2].len() implies #[trigger] b.link_ok(g2, j) by {
                    assert(a.link_ok(g2, j));
                    let s = a.lists@[g2][j];
                    assert(s != la.last()) by {
                        assert(a.lists@[g2][j] != a.lists@[g][la.len() - 1]);
                    }
                    if lb.len() > 0 {
                        assert(s != lb[0]) by {
                            assert(a.lists@[g2][j] != a.lists@[g + 1][0]);
                        }
                    }
                    if la.contains(s) {
                        let k = choose|k: int| 0 <= k < la.len() && la[k] == s;
                        assert(a.lists@[g2][j] != a.lists@[g][k]);
                    }
                    assert(b.occ(s as int) <==> a.occ(s as int));
                    assert(b.ent(s as int).generation == a.ent(s as int).generation);
                    assert(b.ent(s as int).next == a.ent(s as int).next);
                    assert(b.ent(s as int).prev == a.ent(s as int).prev);
                    assert(b.lists@[g2] == a.lists@[g2]);
                }
            }
        }
        assert(b.total() == a.total());
        assert forall|s: int| 0 <= s < CAP && #[trigger] b.occ(s) implies b.ent(s).generation < 4
            && b.lists@[b.ent(s).generation as int].contains(s as usize) by {
            assert(a.occ(s));
            if la.contains(s as usize) {
                let k = choose|k: int| 0 <= k < la.len() && la[k] == s as usize;
                assert(l[k] == s);
            } else {
                let gs = a.ent(s).generation as int;
                assert(a.lists@[gs].contains(s as usize));
                assert(gs != g);
                if gs == g + 1 {
                    let k = choose|k: int| 0 <= k < lb.len() && lb[k] == s as usize;
                    assert(l[k + la.len()] == s);
                }
            }
        }
        Self::lemma_kv_frame(a, b);
        Self::lemma_map_frame(a, b);
        assert forall|g2: int, i: int|
            0 <= g2 < b.lists@.len() && 0 <= i < b.lists@[g2].len() implies a.entries@[#[trigger] b.lists@[g2][i] as int]->Some_0.key
            == b.entries@[b.lists@[g2][i] as int]->Some_0.key by {
            assert(b.gen_ok(g2));
            assert(b.link_ok(g2, i));
        }
        lemma_key_lists_frame(a.entries@, b.entries@, b.lists@);
    }

    /// Moves every generation one older; the oldest keeps its keys behind
    /// those of the one before it.
    #[verifier::rlimit(60)]
    #[verifier::spinoff_prover]
    pub fn age(&mut self)
        requires
            old(self).wf(),
        ensures
            final(self).wf(),
            final(self)@ == old(self)@.after_age(),
    {
        let ghost l0 = self.lists@;
        let ghost e0 = self.entries@;
        let mut g: usize = MAX_GENERATIONS - 1;
        while g > 0
            invariant
                self.wf(),
                g <= 3,
                l0.len() == 4,
                self.lists@ == aged_from(l0, g as int),
                same_kv(e0, self.entries@),
                self.slot_of == old(self).slot_of,
                e0 == old(self).entries@,
                l0 == old(self).lists@,
            decreases g,
        {
            g = g - 1;
            proof {
                assert(self.gen_ok(g as int));
                if self.lists@[g as int].len() > 0 {
                    assert(self.link_ok(g as int, 0));
                }
            }
            if self.generations[g].head == NONE {
                proof {
                    assert(self.lists@[g as int].len() == 0);
                    if g == 2 {
                        assert(aged_from(l0, 2)[3] =~= l0[3]);
                        assert(aged_from(l0, 2)[2] =~= l0[2]);
                    } else if g == 1 {
                        assert(aged_from(l0, 1)[2] =~= aged_from(l0, 2)[2]);
                        assert(aged_from(l0, 1)[1] =~= aged_from(l0, 2)[1]);
                    } else {
                        assert(aged_from(l0, 0)[1] =~= aged_from(l0, 1)[1]);
                        assert(aged_from(l0, 0)[0] =~= aged_from(l0, 1)[0]);
                    }
                    assert(aged_from(l0, g as int) =~= aged_from(l0, g + 1));
                }
                continue;
            }
            let ghost a = *self;
            let ghost la = a.lists@[g as int];
            let ghost lb = a.lists@[g + 1];
            proof {
                assert(a.gen_ok(g + 1));
                if lb.len() > 0 {
                    assert(a.link_ok(g + 1, 0));
                    assert(a.link_ok(g + 1, lb.len() - 1));
                }
                assert(a.link_ok(g as int, la.len() - 1));
                assert(a.total() == a.count);
            }
            let src_head = self.generations[g].head;
            let src_tail = self.generations[g].tail;
            let src_len = self.generations[g].len;
            let mut cursor = src_head;
            let ghost mut i: int = 0;
            while cursor != NONE
                invariant
                    a.wf(),
                    la == a.lists@[g as int],
                    g < 3,
                    0 <= i <= la.len(),
                    cursor == (if i < la.len() {
                        la[i]
                    } else {
                        NONE
                    }),
                    self.sizes_ok(),
                    self.same_but_links(a),
                    self.generations == a.generations,
                    self.lists == a.lists,
                    forall|s: int|
                        0 <= s < CAP ==> #[trigger] self.entries@[s] == (if la.take(i).contains(s as usize) {
                            Some(Entry { generation: (g + 1) as usize, ..a.ent(s) })
                        } else {
                            a.entries@[s]
                        }),
                decreases la.len() - i,
            {
                proof {
                    assert(a.gen_ok(g as int));
                    assert(a.link_ok(g as int, i));
                    assert(!la.take(i).contains(cursor)) by {
                        if la.take(i).contains(cursor) {
                            let k = choose|k: int| 0 <= k < i && la.take(i)[k] == cursor;
                            assert(la[k] != la[i]);
                        }
                    }
                }
                let ghost before = self.entries@;
                let e = self.entries[cursor].as_mut().unwrap();
                e.generation = g + 1;
                cursor = e.next;
                proof {
                    assert(before[la[i] as int] == a.entries@[la[i] as int]);
                    assert(self.entries@[la[i] as int] == Some(Entry { generation: (g + 1) as usize, ..a.ent(la[i] as int) }));
                    assert forall|s: int| 0 <= s < CAP implies #[trigger] self.entries@[s] == (if la.take(i + 1).contains(s as usize) {
                        Some(Entry { generation: (g + 1) as usize, ..a.ent(s) })
                    } else {
                        a.entries@[s]
                    }) by {
                        assert(la.take(i + 1) =~= la.take(i).push(la[i]));
                        if s != la[i] {
                            assert(self.entries@[s] == before[s]);
                            let t1 = la.take(i + 1);
                            let t0 = la.take(i);
                            if t1.contains(s as usize) {
                                let k = choose|k: int| 0 <= k < t1.len() && t1[k] == s as usize;
                                assert(k < i);
                                assert(t0[k] == s as usize);
                            }
                            if t0.contains(s as usize) {
                                let k = choose|k: int| 0 <= k < t0.len() && t0[k] == s as usize;
                                assert(t1[k] == s as usize);
                            }
                        } else {
                            assert(la.take(i + 1)[i] == la[i]);
                        }
                    }
                    i = i + 1;
                }
            }
            proof {
                if i < la.len() {
                    assert(a.link_ok(g as int, i));
                }
                assert(la.take(i) =~= la);
            }
            let ghost e_gen = self.entries@;
            let dst_head = self.generations[g + 1].head;
            self.entries[src_tail].as_mut().unwrap().next = dst_head;
            let ghost e_tail = self.entries@;
            if dst_head != NONE {
                self.entries[dst_head].as_mut().unwrap().prev = src_tail;
            }
            let dst_new_tail = if self.generations[g + 1].tail != NONE {
                self.generations[g + 1].tail
            } else {
                src_tail
            };
            let dst_new_len = self.generations[g + 1].len + src_len;
            self.generations[g + 1].head = src_head;
            self.generations[g + 1].tail = dst_new_tail;
            self.generations[g + 1].len = dst_new_len;
            self.generations[g] = Generation::empty();
            proof {
                self.lists@ = a.lists@.update(g + 1, la + lb).update(g as int, Seq::empty());
                assert forall|s: int|
                    0 <= s < CAP implies (#[trigger] self.occ(s) <==> a.occ(s)) && (a.occ(s) ==> {
                        &&& self.ent(s).key == a.ent(s).key
                        &&& self.ent(s).value == a.ent(s).value
                        &&& self.ent(s).generation == (if la.contains(s as usize) {
                            g + 1
                        } else {
                            a.ent(s).generation as int
                        })
                        &&& self.ent(s).next == (if s == la.last() {
                            if lb.len() > 0 {
                                lb[0]
                            } else {
                                NONE
                            }
                        } else {
                            a.ent(s).next
                        })
                        &&& self.ent(s).prev == (if lb.len() > 0 && s == lb[0] {
                            la.last()
                        } else {
                            a.ent(s).prev
                        })
                    }) by {
                    if lb.len() > 0 {
                        assert(la.last() != lb[0]) by {
                            assert(a.lists@[g as int][la.len() - 1] != a.lists@[g + 1][0]);
                        }
                    }
                    assert(e_gen[s] == (if la.contains(s as usize) {
                        Some(Entry { generation: (g + 1) as usize, ..a.ent(s) })
                    } else {
                        a.entries@[s]
                    }));
                    assert(la[la.len() - 1] == src_tail);
                    assert(la.contains(src_tail));
                    if lb.len() > 0 {
                        assert(dst_head == lb[0]);
                        if la.contains(lb[0]) {
                            let k = choose|k: int| 0 <= k < la.len() && la[k] == lb[0];
                            assert(a.lists@[g as int][k] != a.lists@[g + 1][0]);
                        }
                    } else {
                        assert(dst_head == NONE);
                    }
                    if s == src_tail {
                        assert(self.entries@[s] == Some(Entry { next: dst_head, ..e_gen[s]->Some_0 }));
                    } else if lb.len() > 0 && s == dst_head {
                        assert(e_tail[s] == e_gen[s]);
                        assert(self.entries@[s] == Some(Entry { prev: src_tail, ..e_gen[s]->Some_0 }));
                    } else {
                        assert(e_tail[s] == e_gen[s]);
                        assert(self.entries@[s] == e_gen[s]);
                    }
                    if la.contains(s as usize) {
                        let k = choose|k: int| 0 <= k < la.len() && la[k] == s as usize;
                        assert(a.link_ok(g as int, k));
                    }
                    assert(self.occ(s) <==> a.occ(s));
                    if a.occ(s) {
                        assert(self.ent(s).key == a.ent(s).key);
                        assert(self.ent(s).value == a.ent(s).value);
                        assert(self.ent(s).generation == (if la.contains(s as usize) {
                            g + 1
                        } else {
                            a.ent(s).generation as int
                        }));
                        assert(self.ent(s).next == (if s == la.last() {
                            if lb.len() > 0 {
                                lb[0]
                            } else {
                                NONE
                            }
                        } else {
                            a.ent(s).next
                        }));
                        assert(self.ent(s).prev == (if lb.len() > 0 && s == lb[0] {
                            la.last()
                        } else {
                            a.ent(s).prev
                        }));
                    }
                }
                Self::lemma_merged(a, *self, g as int);
                lemma_same_kv_trans(e0, a.entries@, self.entries@);
                assert(self.lists@ =~= aged_from(l0, g as int));
            }
        }
        proof {
            assert forall|g2: int, i: int|
                0 <= g2 < self.lists@.len() && 0 <= i < self.lists@[g2].len() implies e0[#[trigger] self.lists@[g2][i] as int]->Some_0.key
                == self.entries@[self.lists@[g2][i] as int]->Some_0.key by {
                assert(self.gen_ok(g2));
                assert(self.link_ok(g2, i));
            }
            lemma_key_lists_frame(e0, self.entries@, self.lists@);
            Self::lemma_map_frame(*old(self), *self);
            let gs = key_lists(e0, l0);
            assert(key_lists(e0, self.lists@)[0] =~= Seq::<K>::empty());
            assert(key_lists(e0, self.lists@)[1] =~= gs[0]);
            assert(key_lists(e0, self.lists@)[2] =~= gs[1]);
            assert(key_lists(e0, self.lists@)[3] =~= gs[2] + gs[3]);
            assert(key_lists(e0, self.lists@) =~= aged(gs));
        }
    }
}

impl<K: Eq + Hash, V, const CAP: usize> MglruCache<K, V, CAP> {
    /// This state differs from `a` only in the value of slot `idx`.
    spec fn differs_in_value(self, a: Self, idx: usize) -> bool {
        &&& self.entries@.len() == a.entries@.len()
        &&& self.occ(idx as int)
        &&& self.ent(idx as int) == (Entry { value: self.ent(idx as int).value, ..a.ent(idx as int) })
        &&& forall|s: int| 0 <= s < CAP && s != idx ==> #[trigger] self.entries@[s] == a.entries@[s]
        &&& self.generations == a.generations
        &&& self.lists == a.lists
        &&& self.same_but_links(a)
    }

    /// `lemma_value_changed`, for every state that differs from `a` only in
    /// the value of slot `idx`.
    proof fn lemma_value_changes(a: Self, idx: usize)
        requires
            a.wf(),
            idx < CAP,
            a.occ(idx as int),
        ensures
            forall|b: Self|
                b.differs_in_value(a, idx) ==> #[trigger] b.wf() && b@.gens == a@.gens && b@.map == a@.map.insert(
                    a.ent(idx as int).key,
                    b.ent(idx as int).value,
                ),
    {
        assert forall|b: Self| b.differs_in_value(a, idx) implies #[trigger] b.wf() && b@.gens == a@.gens
            && b@.map == a@.map.insert(a.ent(idx as int).key, b.ent(idx as int).value) by {
            Self::lemma_value_changed(a, b, idx);
        }
    }

    /// Looks `key` up for writing. A found entry moves to the head of the next
    /// younger generation; what is written through the reference becomes its value.
    pub fn get_mut(&mut self, key: &K) -> (r: Option<&mut V>)
        requires
            old(self).wf(),
            vstd::laws_eq::obeys_concrete_eq::<K>(),
        ensures
            r is Some <==> old(self)@.map.contains_key(*key),
            r is Some ==> *r.unwrap() == old(self)@.map[*key],
            r is Some ==> final(self).wf(),
            r is Some ==> final(self)@.gens == old(self)@.after_get(*key).gens,
            r is Some ==> final(self)@.map == old(self)@.map.insert(*key, *final(r.unwrap())),
            final(self)@.capacity == old(self)@.capacity,
            r is None ==> final(self).wf() && final(self)@ == old(self)@,
    {
        proof {
            self.lemma_view_wf();
        }
        let idx = match self.find_index(key) {
            Some(i) => i,
            None => return None,
        };
        proof {
            assert(self.occ(idx as int));
            assert(self.ent(idx as int).key == *key);
        }
        self.promote(idx);
        let ghost p = *self;
        proof {
            p.lemma_view_wf();
        }
        proof {
            Self::lemma_value_changes(p, idx);
        }
        let r = &mut self.entries[idx].as_mut().unwrap().value;
        Some(r)
    }
}

} // verus!
