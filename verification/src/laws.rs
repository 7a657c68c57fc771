//! Laws of the cache: what every operation keeps, and how operations relate.
//! Both cache types state their operations over `CacheView`, so each law here
//! holds of both.
use vstd::prelude::*;
use crate::model::{
    aged, flat, gen_of, gens_distinct, in_gens, lemma_locate, pos_of, lemma_push_head, lemma_victim,
    lemma_without, promoted, victim_gen, without, younger, CacheView,
};

verus! {

/// Every operation keeps a cache well-formed: no key is listed twice, the
/// listed keys are exactly the stored ones, and the cache never holds more
/// keys than its capacity.
#[verifier::rlimit(50)]
#[verifier::spinoff_prover]
pub proof fn law_operations_keep_wf<K, V>(v: CacheView<K, V>, k: K, x: V)
    requires
        v.wf(),
    ensures
        v.after_get(k).wf(),
        v.after_insert(k, x).wf(),
        v.after_remove(k).wf(),
        v.after_age().wf(),
{
    if v.map.contains_key(k) {
        lemma_promoted(v, k);
        lemma_without(v.gens, k);
        let p = promoted(v.gens, k);
        assert forall|j: K| v.map.insert(k, x).contains_key(j) <==> in_gens(p, j) by {
            assert(in_gens(p, j) <==> in_gens(v.gens, j));
        }
        assert(v.map.insert(k, x).dom() =~= v.map.dom());
        assert forall|j: K| v.map.remove(k).contains_key(j) <==> in_gens(without(v.gens, k), j) by {
            assert(in_gens(without(v.gens, k), j) <==> (in_gens(v.gens, j) && j != k));
        }
    } else {
        let e = if v.map.len() >= v.capacity {
            v.evicted()
        } else {
            v
        };
        if v.map.len() >= v.capacity {
            lemma_evicted(v);
        }
        assert(e.wf());
        assert(!in_gens(e.gens, k));
        lemma_push_head(e.gens, 0, k);
        let n = v.after_insert(k, x);
        assert forall|j: K| n.map.contains_key(j) <==> in_gens(n.gens, j) by {
            assert(in_gens(n.gens, j) <==> (in_gens(e.gens, j) || j == k));
            assert(e.map.contains_key(j) <==> in_gens(e.gens, j));
        }
    }
    let a = aged(v.gens);
    assert forall|g1: int, i1: int, g2: int, i2: int|
        0 <= g1 < 4 && 0 <= g2 < 4 && 0 <= i1 < a[g1].len() && 0 <= i2 < a[g2].len() && (g1 != g2
            || i1 != i2) implies #[trigger] a[g1][i1] != #[trigger] a[g2][i2] by {
        let s1 = if g1 == 3 && i1 >= v.gens[2].len() {
            3int
        } else {
            g1 - 1
        };
        let j1 = if g1 == 3 && i1 >= v.gens[2].len() {
            i1 - v.gens[2].len()
        } else {
            i1
        };
        let s2 = if g2 == 3 && i2 >= v.gens[2].len() {
            3int
        } else {
            g2 - 1
        };
        let j2 = if g2 == 3 && i2 >= v.gens[2].len() {
            i2 - v.gens[2].len()
        } else {
            i2
        };
        assert(a[g1][i1] == v.gens[s1][j1]);
        assert(a[g2][i2] == v.gens[s2][j2]);
    }
    assert forall|j: K| in_gens(a, j) <==> in_gens(v.gens, j) by {
        if in_gens(a, j) {
            let g = choose|g: int| 0 <= g < 4 && #[trigger] a[g].contains(j);
            let i = choose|i: int| 0 <= i < a[g].len() && a[g][i] == j;
            if g == 3 && i >= v.gens[2].len() {
                assert(v.gens[3][i - v.gens[2].len()] == j);
                assert(v.gens[3].contains(j));
            } else {
                assert(v.gens[g - 1][i] == j);
                assert(v.gens[g - 1].contains(j));
            }
        }
        if in_gens(v.gens, j) {
            let g = choose|g: int| 0 <= g < 4 && #[trigger] v.gens[g].contains(j);
            let i = choose|i: int| 0 <= i < v.gens[g].len() && v.gens[g][i] == j;
            if g == 3 {
                assert(a[3][i + v.gens[2].len()] == j);
                assert(a[3].contains(j));
            } else {
                assert(a[g + 1][i] == j);
                assert(a[g + 1].contains(j));
            }
        }
    }
}

/// Eviction from a non-empty cache keeps it well-formed and drops one key.
pub proof fn lemma_evicted<K, V>(v: CacheView<K, V>)
    requires
        v.wf(),
        v.map.len() > 0,
    ensures
        v.evicted().wf(),
        v.evicted().map.len() == v.map.len() - 1,
        v.evicted().map == v.map.remove(v.victim()),
        v.evicted().capacity == v.capacity,
{
    lemma_victim(v);
    lemma_without(v.gens, v.victim());
    let e = v.evicted();
    assert forall|j: K| e.map.contains_key(j) <==> in_gens(e.gens, j) by {
        assert(e.map.contains_key(j) <==> (v.map.contains_key(j) && j != v.victim()));
        assert(v.map.contains_key(j) <==> in_gens(v.gens, j));
        assert(in_gens(without(v.gens, v.victim()), j) <==> (in_gens(v.gens, j) && j != v.victim()));
    }
}

/// After an access, the generations list the same keys, each once.
pub proof fn lemma_promoted<K, V>(v: CacheView<K, V>, k: K)
    requires
        v.wf(),
        v.map.contains_key(k),
    ensures
        promoted(v.gens, k).len() == 4,
        gens_distinct(promoted(v.gens, k)),
        forall|j: K| in_gens(promoted(v.gens, k), j) <==> in_gens(v.gens, j),
        v.after_get(k).wf(),
{
    lemma_without(v.gens, k);
    lemma_locate(v.gens, k);
    let w = without(v.gens, k);
    lemma_push_head(w, younger(gen_of(v.gens, k)), k);
    let p = promoted(v.gens, k);
    assert forall|j: K| in_gens(p, j) <==> in_gens(v.gens, j) by {
        assert(in_gens(p, j) <==> (in_gens(w, j) || j == k));
        assert(in_gens(w, j) <==> (in_gens(v.gens, j) && j != k));
    }
    assert forall|j: K| v.map.contains_key(j) <==> in_gens(p, j) by {
        assert(in_gens(p, j) <==> in_gens(v.gens, j));
    }
}

/// A lookup right after `insert(k, x)` finds `x` under `k`.
pub proof fn law_insert_then_get<K, V>(v: CacheView<K, V>, k: K, x: V)
    requires
        v.wf(),
    ensures
        v.after_insert(k, x).map.contains_key(k),
        v.after_insert(k, x).map[k] == x,
        v.after_insert(k, x).after_get(k).map == v.after_insert(k, x).map,
{
}

/// Writing a key that is already stored changes its value and nothing else
/// stored: no key is evicted, whatever the fill.
pub proof fn law_overwrite_keeps_other_keys<K, V>(v: CacheView<K, V>, k: K, x: V)
    requires
        v.wf(),
        v.map.contains_key(k),
    ensures
        v.after_insert(k, x).map == v.map.insert(k, x),
        v.after_insert(k, x).map.len() == v.map.len(),
{
}

/// Inserting a key that is not stored puts it at the head of the youngest
/// generation. When the cache is full, exactly one key leaves: the last key in
/// the order of all generations, youngest first.
pub proof fn law_fresh_insert_order<K, V>(v: CacheView<K, V>, k: K, x: V)
    requires
        v.wf(),
        !v.map.contains_key(k),
    ensures
        flat(v.after_insert(k, x).gens) == seq![k] + (if v.map.len() >= v.capacity {
            flat(v.gens).drop_last()
        } else {
            flat(v.gens)
        }),
        v.map.len() >= v.capacity ==> v.victim() == flat(v.gens).last() && v.after_insert(
            k,
            x,
        ).map == v.map.remove(v.victim()).insert(k, x),
        v.map.len() < v.capacity ==> v.after_insert(k, x).map == v.map.insert(k, x),
        v.after_insert(k, x).gens[0][0] == k,
{
    let n = v.after_insert(k, x);
    if v.map.len() >= v.capacity {
        lemma_victim(v);
        let e = v.evicted();
        let g = v.gens;
        let vg = victim_gen(g);
        if vg == 3 {
            assert(flat(e.gens) =~= flat(g).drop_last());
        } else if vg == 2 {
            assert(flat(g) =~= g[0] + g[1] + g[2]);
            assert(flat(e.gens) =~= flat(g).drop_last());
        } else if vg == 1 {
            assert(flat(g) =~= g[0] + g[1]);
            assert(flat(e.gens) =~= flat(g).drop_last());
        } else {
            assert(flat(g) =~= g[0]);
            assert(flat(e.gens) =~= flat(g).drop_last());
        }
        assert(flat(n.gens) =~= seq![k] + flat(e.gens));
    } else {
        assert(flat(n.gens) =~= seq![k] + flat(v.gens));
    }
}

/// Ageing keeps every stored value and the order of all keys, youngest first;
/// it leaves the youngest generation empty.
pub proof fn law_age_keeps_contents_and_order<K, V>(v: CacheView<K, V>)
    requires
        v.wf(),
    ensures
        v.after_age().map == v.map,
        flat(v.after_age().gens) == flat(v.gens),
        v.after_age().gens[0].len() == 0,
        v.after_age().gens[1] == v.gens[0],
        v.after_age().gens[2] == v.gens[1],
        v.after_age().gens[3] == v.gens[2] + v.gens[3],
{
    assert(flat(v.after_age().gens) =~= flat(v.gens));
}

/// A lookup keeps every stored value; a found key becomes the head of the
/// next younger generation; a lookup of a key that is not stored changes
/// nothing.
pub proof fn law_get_promotes<K, V>(v: CacheView<K, V>, k: K)
    requires
        v.wf(),
    ensures
        v.after_get(k).map == v.map,
        v.map.contains_key(k) ==> v.after_get(k).gens[younger(gen_of(v.gens, k))][0] == k,
        !v.map.contains_key(k) ==> v.after_get(k) == v,
{
    if v.map.contains_key(k) {
        lemma_locate(v.gens, k);
        lemma_without(v.gens, k);
    }
}

/// After `remove(k)` the key is gone and every other key keeps its value;
/// removing a key that is not stored changes nothing.
pub proof fn law_remove_forgets<K, V>(v: CacheView<K, V>, k: K)
    requires
        v.wf(),
    ensures
        !v.after_remove(k).map.contains_key(k),
        v.after_remove(k).map == v.map.remove(k),
        v.after_remove(k).after_get(k) == v.after_remove(k),
        !v.map.contains_key(k) ==> v.after_remove(k) == v,
{
    assert(v.after_remove(k).map =~= v.map.remove(k));
}

/// Removing a key and inserting it again leaves it as the only key of its
/// value in the youngest generation's head.
pub proof fn law_remove_then_insert<K, V>(v: CacheView<K, V>, k: K, x: V)
    requires
        v.wf(),
        v.map.contains_key(k),
    ensures
        v.after_remove(k).after_insert(k, x).map == v.map.insert(k, x),
        v.after_remove(k).after_insert(k, x).gens[0][0] == k,
{
    law_operations_keep_wf(v, k, x);
    let r = v.after_remove(k);
    assert(r.map.len() < v.map.len());
    assert(r.after_insert(k, x).map =~= v.map.insert(k, x));
}


/// Where a stored key sits: it is stored, and generation `g` is the only one
/// that holds it, at position `p` only.
proof fn lemma_sits_at<K, V>(v: CacheView<K, V>, k: K, g: int, p: int)
    requires
        v.wf(),
        0 <= g < 4,
        0 <= p < v.gens[g].len(),
        v.gens[g][p] == k,
    ensures
        v.map.contains_key(k),
        gen_of(v.gens, k) == g,
        pos_of(v.gens, k) == p,
{
    assert(v.gens[g].contains(k));
    assert(in_gens(v.gens, k));
    lemma_locate(v.gens, k);
}

/// A lookup of the key at position `p` of generation `g` takes it out of
/// there and makes it the head of generation `g - 1` (of generation 0 when
/// `g` is 0). Every other generation and every value stays as it was.
pub proof fn law_get_moves_key_one_younger<K, V>(v: CacheView<K, V>, k: K, g: int, p: int)
    requires
        v.wf(),
        0 <= g < 4,
        0 <= p < v.gens[g].len(),
        v.gens[g][p] == k,
    ensures
        v.after_get(k).map == v.map,
        v.after_get(k).capacity == v.capacity,
        v.after_get(k).gens.len() == 4,
        g > 0 ==> v.after_get(k).gens[g - 1] == seq![k] + v.gens[g - 1],
        g > 0 ==> v.after_get(k).gens[g] == v.gens[g].remove(p),
        g == 0 ==> v.after_get(k).gens[0] == seq![k] + v.gens[0].remove(p),
        forall|h: int|
            0 <= h < 4 && h != g && h != g - 1 ==> #[trigger] v.after_get(k).gens[h] == v.gens[h],
{
    lemma_sits_at(v, k, g, p);
}

/// Writing a new value under the key at position `p` of generation `g` moves
/// the key as a lookup does: to the head of generation `g - 1` (of generation
/// 0 when `g` is 0). Every other generation and every other value stays.
pub proof fn law_overwrite_moves_key_one_younger<K, V>(v: CacheView<K, V>, k: K, x: V, g: int, p: int)
    requires
        v.wf(),
        0 <= g < 4,
        0 <= p < v.gens[g].len(),
        v.gens[g][p] == k,
    ensures
        v.after_insert(k, x).map == v.map.insert(k, x),
        v.after_insert(k, x).capacity == v.capacity,
        v.after_insert(k, x).gens == v.after_get(k).gens,
        v.after_insert(k, x).gens.len() == 4,
        g > 0 ==> v.after_insert(k, x).gens[g - 1] == seq![k] + v.gens[g - 1],
        g > 0 ==> v.after_insert(k, x).gens[g] == v.gens[g].remove(p),
        g == 0 ==> v.after_insert(k, x).gens[0] == seq![k] + v.gens[0].remove(p),
        forall|h: int|
            0 <= h < 4 && h != g && h != g - 1 ==> #[trigger] v.after_insert(k, x).gens[h] == v.gens[h],
{
    lemma_sits_at(v, k, g, p);
}

/// Removing the key at position `p` of generation `g` takes it out of there
/// and moves no other key: every other generation stays as it was.
pub proof fn law_remove_moves_no_other_key<K, V>(v: CacheView<K, V>, k: K, g: int, p: int)
    requires
        v.wf(),
        0 <= g < 4,
        0 <= p < v.gens[g].len(),
        v.gens[g][p] == k,
    ensures
        v.after_remove(k).map == v.map.remove(k),
        v.after_remove(k).capacity == v.capacity,
        v.after_remove(k).gens.len() == 4,
        v.after_remove(k).gens[g] == v.gens[g].remove(p),
        forall|h: int| 0 <= h < 4 && h != g ==> #[trigger] v.after_remove(k).gens[h] == v.gens[h],
{
    lemma_sits_at(v, k, g, p);
    lemma_without(v.gens, k);
}

/// Inserting a key that is not stored into a cache with room makes it the
/// head of generation 0 and moves no other key.
pub proof fn law_fresh_insert_with_room<K, V>(v: CacheView<K, V>, k: K, x: V)
    requires
        v.wf(),
        !v.map.contains_key(k),
        v.map.len() < v.capacity,
    ensures
        v.after_insert(k, x).map == v.map.insert(k, x),
        v.after_insert(k, x).capacity == v.capacity,
        v.after_insert(k, x).gens.len() == 4,
        v.after_insert(k, x).gens[0] == seq![k] + v.gens[0],
        forall|h: int| 1 <= h < 4 ==> #[trigger] v.after_insert(k, x).gens[h] == v.gens[h],
{
}

/// Inserting a key that is not stored into a full cache, whose oldest
/// non-empty generation is `o`, evicts the tail of generation `o`, makes the
/// new key the head of generation 0 and moves no other key.
pub proof fn law_fresh_insert_when_full<K, V>(v: CacheView<K, V>, k: K, x: V, o: int)
    requires
        v.wf(),
        !v.map.contains_key(k),
        v.map.len() >= v.capacity,
        0 <= o < 4,
        v.gens[o].len() > 0,
        forall|h: int| o < h < 4 ==> #[trigger] v.gens[h].len() == 0,
    ensures
        v.after_insert(k, x).map == v.map.remove(v.gens[o].last()).insert(k, x),
        v.after_insert(k, x).capacity == v.capacity,
        v.after_insert(k, x).gens.len() == 4,
        o > 0 ==> v.after_insert(k, x).gens[0] == seq![k] + v.gens[0],
        o > 0 ==> v.after_insert(k, x).gens[o] == v.gens[o].drop_last(),
        o == 0 ==> v.after_insert(k, x).gens[0] == seq![k] + v.gens[0].drop_last(),
        forall|h: int| 0 < h < 4 && h != o ==> #[trigger] v.after_insert(k, x).gens[h] == v.gens[h],
{
    assert(v.gens[3].len() > 0 ==> o == 3);
    assert(victim_gen(v.gens) == o);
}

/// A step of a run of operations that do not look keys up.
pub enum Step<K, V> {
    Insert(K, V),
    Age,
}

/// The cache after each of `steps`, in order.
pub open spec fn run<K, V>(v: CacheView<K, V>, steps: Seq<Step<K, V>>) -> CacheView<K, V>
    decreases steps.len(),
{
    if steps.len() == 0 {
        v
    } else {
        let w = run(v, steps.drop_last());
        match steps.last() {
            Step::Insert(k, x) => w.after_insert(k, x),
            Step::Age => w.after_age(),
        }
    }
}

/// The keys that `steps` insert, in order.
pub open spec fn inserted<K, V>(steps: Seq<Step<K, V>>) -> Seq<K>
    decreases steps.len(),
{
    if steps.len() == 0 {
        Seq::empty()
    } else {
        let ks = inserted(steps.drop_last());
        match steps.last() {
            Step::Insert(k, x) => ks.push(k),
            Step::Age => ks,
        }
    }
}

/// In a well-formed cache, listing all generations lists each stored key once.
#[verifier::rlimit(50)]
#[verifier::spinoff_prover]
pub proof fn lemma_flat_len<K, V>(v: CacheView<K, V>)
    requires
        v.wf(),
    ensures
        flat(v.gens).len() == v.map.len(),
        forall|k: K| v.map.contains_key(k) <==> flat(v.gens).contains(k),
{
    let f = flat(v.gens);
    let g = v.gens;
    let l0 = g[0].len();
    let l1 = g[1].len();
    let l2 = g[2].len();
    // where each position of the flat list comes from
    assert forall|i: int| 0 <= i < f.len() implies #[trigger] f[i] == (if i < l0 {
        g[0][i]
    } else if i < l0 + l1 {
        g[1][i - l0]
    } else if i < l0 + l1 + l2 {
        g[2][i - l0 - l1]
    } else {
        g[3][i - l0 - l1 - l2]
    }) by {}
    assert forall|i: int, j: int| 0 <= i < f.len() && 0 <= j < f.len() && i != j implies f[i] != f[j] by {
        let gi = if i < l0 { 0int } else if i < l0 + l1 { 1int } else if i < l0 + l1 + l2 { 2int } else { 3int };
        let ii = if i < l0 { i } else if i < l0 + l1 { i - l0 } else if i < l0 + l1 + l2 { i - l0 - l1 } else { i - l0 - l1 - l2 };
        let gj = if j < l0 { 0int } else if j < l0 + l1 { 1int } else if j < l0 + l1 + l2 { 2int } else { 3int };
        let jj = if j < l0 { j } else if j < l0 + l1 { j - l0 } else if j < l0 + l1 + l2 { j - l0 - l1 } else { j - l0 - l1 - l2 };
        assert(f[i] == g[gi][ii]);
        assert(f[j] == g[gj][jj]);
        assert(g[gi][ii] != g[gj][jj]);
    }
    assert(f.no_duplicates());
    assert forall|k: K| f.contains(k) implies v.map.contains_key(k) by {
        let i = choose|i: int| 0 <= i < f.len() && f[i] == k;
        let gi = if i < l0 { 0int } else if i < l0 + l1 { 1int } else if i < l0 + l1 + l2 { 2int } else { 3int };
        let ii = if i < l0 { i } else if i < l0 + l1 { i - l0 } else if i < l0 + l1 + l2 { i - l0 - l1 } else { i - l0 - l1 - l2 };
        assert(g[gi][ii] == k);
        assert(g[gi].contains(k));
        assert(in_gens(g, k));
    }
    assert forall|k: K| v.map.contains_key(k) implies f.contains(k) by {
        assert(in_gens(g, k));
        let gi = choose|gi: int| 0 <= gi < 4 && #[trigger] g[gi].contains(k);
        let ii = choose|ii: int| 0 <= ii < g[gi].len() && g[gi][ii] == k;
        let i = if gi == 0 { ii } else if gi == 1 { ii + l0 } else if gi == 2 { ii + l0 + l1 } else { ii + l0 + l1 + l2 };
        assert(0 <= i < f.len());
        assert(f[i] == k);
    }
    f.unique_seq_to_set();
    assert(f.to_set() =~= v.map.dom());
}

/// Over a run of inserts of new, distinct keys, interleaved with ageing, the
/// most recently inserted keys are all stored: as many of them as the
/// capacity holds (or all of them), head first in the order of all
/// generations, newest first. Lookups are what lets an older key outlive a
/// newer one.
#[verifier::rlimit(50)]
#[verifier::spinoff_prover]
pub proof fn law_recent_inserts_survive<K, V>(v: CacheView<K, V>, steps: Seq<Step<K, V>>)
    requires
        v.wf(),
        inserted(steps).no_duplicates(),
        forall|i: int| 0 <= i < inserted(steps).len() ==> !v.map.contains_key(#[trigger] inserted(steps)[i]),
    ensures
        run(v, steps).wf(),
        ({
            let ks = inserted(steps);
            let m = if ks.len() < v.capacity { ks.len() as int } else { v.capacity as int };
            &&& flat(run(v, steps).gens).len() >= m
            &&& flat(run(v, steps).gens).take(m) == ks.reverse().take(m)
            &&& forall|i: int| ks.len() - m <= i < ks.len() ==> run(v, steps).map.contains_key(#[trigger] ks[i])
        }),
    decreases steps.len(),
{
    let ks = inserted(steps);
    let m = if ks.len() < v.capacity { ks.len() as int } else { v.capacity as int };
    if steps.len() == 0 {
        assert(ks.reverse().take(0) =~= flat(v.gens).take(0));
    } else {
        let pre = steps.drop_last();
        let kp = inserted(pre);
        let w = run(v, pre);
        assert forall|i: int| 0 <= i < kp.len() implies !v.map.contains_key(#[trigger] kp[i]) by {
            assert(ks[i] == kp[i]);
        }
        assert(kp.no_duplicates()) by {
            assert forall|i: int, j: int| 0 <= i < kp.len() && 0 <= j < kp.len() && i != j implies kp[i] != kp[j] by {
                assert(ks[i] == kp[i] && ks[j] == kp[j]);
            }
        }
        law_recent_inserts_survive(v, pre);
        lemma_stored_keys(v, pre);
        let mp = if kp.len() < v.capacity { kp.len() as int } else { v.capacity as int };
        assert(w.capacity == v.capacity);
        lemma_flat_len(w);
        match steps.last() {
            Step::Insert(k, x) => {
                assert(ks == kp.push(k));
                assert(ks[ks.len() - 1] == k);
                assert(!v.map.contains_key(k));
                assert(!kp.contains(k)) by {
                    if kp.contains(k) {
                        let j = choose|j: int| 0 <= j < kp.len() && kp[j] == k;
                        assert(ks[j] == k);
                    }
                }
                assert(!w.map.contains_key(k));
                law_operations_keep_wf(w, k, x);
                law_fresh_insert_order(w, k, x);
                let n = run(v, steps);
                lemma_flat_len(n);
                let fw = flat(w.gens);
                assert(ks.reverse() =~= seq![k] + kp.reverse());
                if w.map.len() >= w.capacity {
                    assert(flat(n.gens).take(m) =~= seq![k] + fw.take(m - 1));
                } else {
                    assert(flat(n.gens).take(m) =~= seq![k] + fw.take(m - 1));
                }
                assert(fw.take(m - 1) =~= fw.take(mp).take(m - 1));
                assert(kp.reverse().take(m - 1) =~= kp.reverse().take(mp).take(m - 1));
                assert(ks.reverse().take(m) =~= seq![k] + kp.reverse().take(m - 1));
                assert forall|i: int| ks.len() - m <= i < ks.len() implies n.map.contains_key(#[trigger] ks[i]) by {
                    let j = ks.len() - 1 - i;
                    assert(ks.reverse()[j] == ks[i]);
                    assert(flat(n.gens).take(m)[j] == ks[i]);
                    assert(flat(n.gens).contains(ks[i]));
                }
            },
            Step::Age => {
                assert(ks == kp);
                law_operations_keep_wf(w, arbitrary(), arbitrary());
                law_age_keeps_contents_and_order(w);
                let n = run(v, steps);
                lemma_flat_len(n);
                assert forall|i: int| ks.len() - m <= i < ks.len() implies n.map.contains_key(#[trigger] ks[i]) by {
                    assert(w.map.contains_key(ks[i]));
                }
            },
        }
    }
}

/// Every key stored after a run was stored before it or inserted by it,
/// and the capacity stays.
#[verifier::rlimit(50)]
#[verifier::spinoff_prover]
pub proof fn lemma_stored_keys<K, V>(v: CacheView<K, V>, steps: Seq<Step<K, V>>)
    requires
        v.wf(),
    ensures
        run(v, steps).wf(),
        run(v, steps).capacity == v.capacity,
        forall|k: K| #[trigger] run(v, steps).map.contains_key(k) ==> v.map.contains_key(k) || inserted(steps).contains(k),
    decreases steps.len(),
{
    if steps.len() > 0 {
        let pre = steps.drop_last();
        lemma_stored_keys(v, pre);
        let w = run(v, pre);
        match steps.last() {
            Step::Insert(k, x) => {
                law_operations_keep_wf(w, k, x);
                let ks = inserted(steps);
                assert(ks == inserted(pre).push(k));
                assert forall|j: K| #[trigger] run(v, steps).map.contains_key(j) implies v.map.contains_key(j) || ks.contains(j) by {
                    if j == k {
                        assert(ks[ks.len() - 1] == k);
                    } else {
                        if w.map.len() >= w.capacity && !w.map.contains_key(k) {
                            lemma_evicted(w);
                        }
                        assert(w.map.contains_key(j));
                        if inserted(pre).contains(j) {
                            let i = choose|i: int| 0 <= i < inserted(pre).len() && inserted(pre)[i] == j;
                            assert(ks[i] == j);
                        }
                    }
                }
            },
            Step::Age => {
                law_operations_keep_wf(w, arbitrary(), arbitrary());
            },
        }
    }
}

} // verus!
