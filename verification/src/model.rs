//! The abstract state of a multi-generational LRU cache, the effect of each
//! operation on it, and the laws that the operations obey.
//!
//! A cache is seen as four generations of keys (generation 0 is the youngest;
//! inside a generation the head comes first and the tail last), a map from keys
//! to values, and a fixed capacity.
use vstd::prelude::*;

verus! {

/// How many generations a cache keeps.
pub const MAX_GENERATIONS: usize = 4;

/// What a cache holds, as mathematics.
#[verifier::reject_recursive_types(K)]
pub struct CacheView<K, V> {
    /// `gens[g]` lists the keys of generation `g`, head first.
    pub gens: Seq<Seq<K>>,
    /// The value stored under each key.
    pub map: Map<K, V>,
    /// The most keys the cache holds at once.
    pub capacity: nat,
}

/// All keys, youngest generation first and, inside a generation, head first.
pub open spec fn flat<K>(gens: Seq<Seq<K>>) -> Seq<K> {
    gens[0] + gens[1] + gens[2] + gens[3]
}

/// Whether `k` occurs in one of the four generations.
pub open spec fn in_gens<K>(gens: Seq<Seq<K>>, k: K) -> bool {
    exists|g: int| 0 <= g < 4 && #[trigger] gens[g].contains(k)
}

/// No key occurs twice, neither in one generation nor in two.
pub open spec fn gens_distinct<K>(gens: Seq<Seq<K>>) -> bool {
    forall|g1: int, i1: int, g2: int, i2: int|
        0 <= g1 < 4 && 0 <= g2 < 4 && 0 <= i1 < gens[g1].len() && 0 <= i2 < gens[g2].len() && (g1
            != g2 || i1 != i2) ==> #[trigger] gens[g1][i1] != #[trigger] gens[g2][i2]
}

/// The generation that holds `k`.
pub open spec fn gen_of<K>(gens: Seq<Seq<K>>, k: K) -> int {
    choose|g: int| 0 <= g < 4 && #[trigger] gens[g].contains(k)
}

/// The position of `k` in its generation.
pub open spec fn pos_of<K>(gens: Seq<Seq<K>>, k: K) -> int {
    gens[gen_of(gens, k)].index_of(k)
}

/// The generations with `k` taken out of its own.
pub open spec fn without<K>(gens: Seq<Seq<K>>, k: K) -> Seq<Seq<K>> {
    let g = gen_of(gens, k);
    gens.update(g, gens[g].remove(pos_of(gens, k)))
}

/// The generation that an accessed key in generation `g` moves to.
pub open spec fn younger(g: int) -> int {
    if g == 0 {
        0
    } else {
        g - 1
    }
}

/// The generations after an access of `k`: it leaves its place and becomes the
/// head of the next younger generation (generation 0 stays generation 0).
pub open spec fn promoted<K>(gens: Seq<Seq<K>>, k: K) -> Seq<Seq<K>> {
    let ng = younger(gen_of(gens, k));
    let w = without(gens, k);
    w.update(ng, seq![k] + w[ng])
}

/// The oldest generation that holds a key (0 when all are empty).
pub open spec fn victim_gen<K>(gens: Seq<Seq<K>>) -> int {
    if gens[3].len() > 0 {
        3
    } else if gens[2].len() > 0 {
        2
    } else if gens[1].len() > 0 {
        1
    } else {
        0
    }
}

/// The generations after ageing: every generation moves one older, and the
/// keys already in the oldest stay behind those that join it.
pub open spec fn aged<K>(gens: Seq<Seq<K>>) -> Seq<Seq<K>> {
    seq![Seq::empty(), gens[0], gens[1], gens[2] + gens[3]]
}

impl<K, V> CacheView<K, V> {
    /// The shape every cache has.
    pub open spec fn wf(self) -> bool {
        &&& self.gens.len() == 4
        &&& gens_distinct(self.gens)
        &&& forall|k: K| self.map.contains_key(k) <==> in_gens(self.gens, k)
        &&& self.map.dom().finite()
        &&& self.map.len() <= self.capacity
        &&& self.capacity > 0
    }

    /// An empty cache of the given capacity.
    pub open spec fn empty(capacity: nat) -> Self {
        CacheView {
            gens: seq![Seq::empty(), Seq::empty(), Seq::empty(), Seq::empty()],
            map: Map::empty(),
            capacity,
        }
    }

    /// The key that an eviction takes out: the tail of the oldest non-empty generation.
    pub open spec fn victim(self) -> K {
        self.gens[victim_gen(self.gens)].last()
    }

    /// The cache after an eviction.
    pub open spec fn evicted(self) -> Self {
        let g = victim_gen(self.gens);
        CacheView {
            gens: self.gens.update(g, self.gens[g].drop_last()),
            map: self.map.remove(self.victim()),
            capacity: self.capacity,
        }
    }

    /// The cache after a lookup of `k` (`get`, `get_mut`).
    pub open spec fn after_get(self, k: K) -> Self {
        if self.map.contains_key(k) {
            CacheView { gens: promoted(self.gens, k), map: self.map, capacity: self.capacity }
        } else {
            self
        }
    }

    /// The cache after `insert(k, v)`.
    pub open spec fn after_insert(self, k: K, v: V) -> Self {
        if self.map.contains_key(k) {
            CacheView {
                gens: promoted(self.gens, k),
                map: self.map.insert(k, v),
                capacity: self.capacity,
            }
        } else {
            let e = if self.map.len() >= self.capacity {
                self.evicted()
            } else {
                self
            };
            CacheView {
                gens: e.gens.update(0, seq![k] + e.gens[0]),
                map: e.map.insert(k, v),
                capacity: e.capacity,
            }
        }
    }

    /// The cache after `remove(k)`.
    pub open spec fn after_remove(self, k: K) -> Self {
        if self.map.contains_key(k) {
            CacheView { gens: without(self.gens, k), map: self.map.remove(k), capacity: self.capacity }
        } else {
            self
        }
    }

    /// The cache after `age()`.
    pub open spec fn after_age(self) -> Self {
        CacheView { gens: aged(self.gens), map: self.map, capacity: self.capacity }
    }
}


/// Where `k` sits in well-formed generations, and that it sits nowhere else.
pub proof fn lemma_locate<K>(gens: Seq<Seq<K>>, k: K)
    requires
        gens.len() == 4,
        gens_distinct(gens),
        in_gens(gens, k),
    ensures
        0 <= gen_of(gens, k) < 4,
        0 <= pos_of(gens, k) < gens[gen_of(gens, k)].len(),
        gens[gen_of(gens, k)][pos_of(gens, k)] == k,
        forall|g: int, i: int|
            0 <= g < 4 && 0 <= i < gens[g].len() && #[trigger] gens[g][i] == k ==> g == gen_of(
                gens,
                k,
            ) && i == pos_of(gens, k),
{
    let g = gen_of(gens, k);
    assert(gens[g].contains(k));
    let p = pos_of(gens, k);
    assert(0 <= p < gens[g].len() && gens[g][p] == k);
    assert forall|g2: int, i: int|
        0 <= g2 < 4 && 0 <= i < gens[g2].len() && #[trigger] gens[g2][i] == k implies g2 == g && i
        == p by {
        if g2 != g || i != p {
            assert(gens[g2][i] != gens[g][p]);
        }
    }
}

/// Taking `k` out keeps the generations distinct and drops exactly `k`.
pub proof fn lemma_without<K>(gens: Seq<Seq<K>>, k: K)
    requires
        gens.len() == 4,
        gens_distinct(gens),
        in_gens(gens, k),
    ensures
        without(gens, k).len() == 4,
        gens_distinct(without(gens, k)),
        forall|j: K| in_gens(without(gens, k), j) <==> (in_gens(gens, j) && j != k),
        forall|g: int| 0 <= g < 4 && g != gen_of(gens, k) ==> #[trigger] without(gens, k)[g] == gens[g],
        without(gens, k)[gen_of(gens, k)] == gens[gen_of(gens, k)].remove(pos_of(gens, k)),
{
    lemma_locate(gens, k);
    let g = gen_of(gens, k);
    let p = pos_of(gens, k);
    let w = without(gens, k);
    assert forall|g1: int, i1: int, g2: int, i2: int|
        0 <= g1 < 4 && 0 <= g2 < 4 && 0 <= i1 < w[g1].len() && 0 <= i2 < w[g2].len() && (g1 != g2
            || i1 != i2) implies #[trigger] w[g1][i1] != #[trigger] w[g2][i2] by {
        let j1 = if g1 == g && i1 >= p {
            i1 + 1
        } else {
            i1
        };
        let j2 = if g2 == g && i2 >= p {
            i2 + 1
        } else {
            i2
        };
        assert(w[g1][i1] == gens[g1][j1]);
        assert(w[g2][i2] == gens[g2][j2]);
        assert(gens[g1][j1] != gens[g2][j2]);
    }
    assert forall|j: K| in_gens(w, j) <==> (in_gens(gens, j) && j != k) by {
        if in_gens(w, j) {
            let g2 = choose|g2: int| 0 <= g2 < 4 && #[trigger] w[g2].contains(j);
            let i = choose|i: int| 0 <= i < w[g2].len() && w[g2][i] == j;
            let i2 = if g2 == g && i >= p {
                i + 1
            } else {
                i
            };
            assert(w[g2][i] == gens[g2][i2]);
            assert(gens[g2].contains(j));
            assert(gens[g2][i2] != gens[g][p]);
        }
        if in_gens(gens, j) && j != k {
            let g2 = choose|g2: int| 0 <= g2 < 4 && #[trigger] gens[g2].contains(j);
            let i = choose|i: int| 0 <= i < gens[g2].len() && gens[g2][i] == j;
            if g2 != g {
                assert(w[g2] == gens[g2]);
                assert(w[g2].contains(j));
            } else if i < p {
                assert(w[g2][i] == j);
                assert(w[g2].contains(j));
            } else {
                assert(i != p);
                assert(w[g2][i - 1] == j);
                assert(w[g2].contains(j));
            }
        }
    }
}

/// Putting a key that is in no generation at the head of generation `ng`.
pub proof fn lemma_push_head<K>(w: Seq<Seq<K>>, ng: int, k: K)
    requires
        w.len() == 4,
        gens_distinct(w),
        !in_gens(w, k),
        0 <= ng < 4,
    ensures
        w.update(ng, seq![k] + w[ng]).len() == 4,
        gens_distinct(w.update(ng, seq![k] + w[ng])),
        forall|j: K|
            in_gens(w.update(ng, seq![k] + w[ng]), j) <==> (in_gens(w, j) || j == k),
{
    let n = w.update(ng, seq![k] + w[ng]);
    assert forall|g1: int, i1: int, g2: int, i2: int|
        0 <= g1 < 4 && 0 <= g2 < 4 && 0 <= i1 < n[g1].len() && 0 <= i2 < n[g2].len() && (g1 != g2
            || i1 != i2) implies #[trigger] n[g1][i1] != #[trigger] n[g2][i2] by {
        if g1 == ng && i1 == 0 {
            let j2 = if g2 == ng {
                i2 - 1
            } else {
                i2
            };
            assert(n[g2][i2] == w[g2][j2]);
            assert(w[g2].contains(w[g2][j2]));
        } else if g2 == ng && i2 == 0 {
            let j1 = if g1 == ng {
                i1 - 1
            } else {
                i1
            };
            assert(n[g1][i1] == w[g1][j1]);
            assert(w[g1].contains(w[g1][j1]));
        } else {
            let j1 = if g1 == ng {
                i1 - 1
            } else {
                i1
            };
            let j2 = if g2 == ng {
                i2 - 1
            } else {
                i2
            };
            assert(n[g1][i1] == w[g1][j1]);
            assert(n[g2][i2] == w[g2][j2]);
        }
    }
    assert forall|j: K| in_gens(n, j) <==> (in_gens(w, j) || j == k) by {
        if in_gens(n, j) {
            let g2 = choose|g2: int| 0 <= g2 < 4 && #[trigger] n[g2].contains(j);
            let i = choose|i: int| 0 <= i < n[g2].len() && n[g2][i] == j;
            if g2 == ng && i > 0 {
                assert(w[g2][i - 1] == j);
                assert(w[g2].contains(j));
            } else if g2 != ng {
                assert(w[g2].contains(j));
            }
        }
        if j == k {
            assert(n[ng][0] == k);
            assert(n[ng].contains(k));
        } else if in_gens(w, j) {
            let g2 = choose|g2: int| 0 <= g2 < 4 && #[trigger] w[g2].contains(j);
            let i = choose|i: int| 0 <= i < w[g2].len() && w[g2][i] == j;
            if g2 == ng {
                assert(n[g2][i + 1] == j);
            } else {
                assert(n[g2][i] == j);
            }
            assert(n[g2].contains(j));
        }
    }
}

/// Appending generation `g` in front of generation `g + 1` and emptying `g`
/// keeps the generations distinct and lists the same keys.
pub proof fn lemma_merge_gens<K>(gens: Seq<Seq<K>>, g: int)
    requires
        gens.len() == 4,
        gens_distinct(gens),
        0 <= g < 3,
    ensures
        gens_distinct(gens.update(g + 1, gens[g] + gens[g + 1]).update(g, Seq::empty())),
        forall|j: K|
            in_gens(gens.update(g + 1, gens[g] + gens[g + 1]).update(g, Seq::empty()), j) <==> in_gens(
                gens,
                j,
            ),
{
    let m = gens.update(g + 1, gens[g] + gens[g + 1]).update(g, Seq::empty());
    let la = gens[g].len();
    assert forall|g1: int, i1: int, g2: int, i2: int|
        0 <= g1 < 4 && 0 <= g2 < 4 && 0 <= i1 < m[g1].len() && 0 <= i2 < m[g2].len() && (g1 != g2
            || i1 != i2) implies #[trigger] m[g1][i1] != #[trigger] m[g2][i2] by {
        let s1 = if g1 == g + 1 && i1 < la {
            g
        } else {
            g1
        };
        let j1 = if g1 == g + 1 && i1 >= la {
            i1 - la
        } else {
            i1
        };
        let s2 = if g2 == g + 1 && i2 < la {
            g
        } else {
            g2
        };
        let j2 = if g2 == g + 1 && i2 >= la {
            i2 - la
        } else {
            i2
        };
        assert(m[g1][i1] == gens[s1][j1]);
        assert(m[g2][i2] == gens[s2][j2]);
    }
    assert forall|j: K| in_gens(m, j) <==> in_gens(gens, j) by {
        if in_gens(m, j) {
            let g2 = choose|g2: int| 0 <= g2 < 4 && #[trigger] m[g2].contains(j);
            let i = choose|i: int| 0 <= i < m[g2].len() && m[g2][i] == j;
            if g2 == g + 1 && i < la {
                assert(gens[g][i] == j);
                assert(gens[g].contains(j));
            } else if g2 == g + 1 {
                assert(gens[g + 1][i - la] == j);
                assert(gens[g + 1].contains(j));
            } else {
                assert(gens[g2].contains(j));
            }
        }
        if in_gens(gens, j) {
            let g2 = choose|g2: int| 0 <= g2 < 4 && #[trigger] gens[g2].contains(j);
            let i = choose|i: int| 0 <= i < gens[g2].len() && gens[g2][i] == j;
            if g2 == g {
                assert(m[g + 1][i] == j);
                assert(m[g + 1].contains(j));
            } else if g2 == g + 1 {
                assert(m[g + 1][i + la] == j);
                assert(m[g + 1].contains(j));
            } else {
                assert(m[g2][i] == j);
                assert(m[g2].contains(j));
            }
        }
    }
}

/// A non-empty map of a well-formed cache has a victim, the tail of the oldest
/// non-empty generation, and evicting it is taking it out.
pub proof fn lemma_victim<K, V>(v: CacheView<K, V>)
    requires
        v.wf(),
        v.map.len() > 0,
    ensures
        v.gens[victim_gen(v.gens)].len() > 0,
        0 <= victim_gen(v.gens) < 4,
        in_gens(v.gens, v.victim()),
        v.map.contains_key(v.victim()),
        gen_of(v.gens, v.victim()) == victim_gen(v.gens),
        v.evicted().gens == without(v.gens, v.victim()),
        forall|g: int| victim_gen(v.gens) < g < 4 ==> #[trigger] v.gens[g].len() == 0,
{
    let k0 = v.map.dom().choose();
    assert(v.map.contains_key(k0));
    assert(in_gens(v.gens, k0));
    let g0 = choose|g: int| 0 <= g < 4 && #[trigger] v.gens[g].contains(k0);
    assert(v.gens[g0].len() > 0);
    let vg = victim_gen(v.gens);
    let last = v.gens[vg].len() - 1;
    assert(v.gens[vg][last] == v.victim());
    assert(v.gens[vg].contains(v.victim()));
    assert(in_gens(v.gens, v.victim()));
    lemma_locate(v.gens, v.victim());
    assert(v.gens[vg].remove(last) =~= v.gens[vg].drop_last());
    assert(v.evicted().gens =~= without(v.gens, v.victim()));
}

} // verus!
