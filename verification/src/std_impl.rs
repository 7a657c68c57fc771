//! A cache whose capacity is chosen when it is made. Entries live in the slots
//! of a growing vector; each generation is a doubly linked list of slots; a
//! standard `HashMap` finds the slot of a key; freed slots are kept on a
//! stack for reuse.
use vstd::prelude::*;
use std::collections::HashMap;
use vstd::std_specs::hash::obeys_key_model;
use crate::model::{
    aged, gen_of, gens_distinct, in_gens, lemma_locate, lemma_merge_gens, lemma_push_head,
    lemma_victim, lemma_without, pos_of, promoted, victim_gen, without, younger, CacheView,
    MAX_GENERATIONS,
};

verus! {

/// Cloning a key gives back the same key.
pub open spec fn clone_is_exact<K: Clone>() -> bool {
    forall|a: K, b: K| #[trigger] vstd::pervasive::strictly_cloned(a, b) ==> a == b
}

struct Entry<K, V> {
    key: K,
    value: V,
    generation: usize,
    prev: Option<usize>,
    next: Option<usize>,
}

#[derive(Clone, Copy)]
struct Generation {
    head: Option<usize>,
    tail: Option<usize>,
    len: usize,
}

impl Generation {
    fn new() -> (r: Self)
        ensures
            r.head is None,
            r.tail is None,
            r.len == 0,
    {
        Self { head: None, tail: None, len: 0 }
    }
}

/// A multi-generational LRU cache of at most `capacity` entries.
#[verifier::reject_recursive_types(K)]
pub struct MglruCache<K, V> {
    entries: Vec<Option<Entry<K, V>>>,
    free_list: Vec<usize>,
    map: HashMap<K, usize>,
    generations: [Generation; MAX_GENERATIONS],
    capacity: usize,
    /// The slots of each generation, head first.
    lists: Ghost<Seq<Seq<usize>>>,
}

/// Two slot arrays agree on which slots are occupied and on their keys and values.
spec fn same_kv<K, V>(a: Seq<Option<Entry<K, V>>>, b: Seq<Option<Entry<K, V>>>) -> bool {
    &&& a.len() == b.len()
    &&& forall|s: int|
        0 <= s < a.len() ==> (#[trigger] a[s] is Some <==> b[s] is Some) && (a[s] is Some ==> (
        a[s]->Some_0.key == b[s]->Some_0.key && a[s]->Some_0.value == b[s]->Some_0.value))
}

/// Same keys, values and generations in the same slots.
spec fn same_kvg<K, V>(a: Seq<Option<Entry<K, V>>>, b: Seq<Option<Entry<K, V>>>) -> bool {
    &&& same_kv(a, b)
    &&& forall|s: int|
        0 <= s < a.len() && #[trigger] a[s] is Some ==> a[s]->Some_0.generation
            == b[s]->Some_0.generation
}

/// The keys of the slots listed in each generation.
spec fn key_lists<K, V>(entries: Seq<Option<Entry<K, V>>>, lists: Seq<Seq<usize>>) -> Seq<Seq<K>> {
    Seq::new(lists.len(), |g: int| lists[g].map_values(|s: usize| entries[s as int]->Some_0.key))
}

/// `None` for an empty list, else its first slot.
spec fn first_of(l: Seq<usize>) -> Option<usize> {
    if l.len() == 0 {
        None
    } else {
        Some(l[0])
    }
}

/// `None` for an empty list, else its last slot.
spec fn last_of(l: Seq<usize>) -> Option<usize> {
    if l.len() == 0 {
        None
    } else {
        Some(l.last())
    }
}

proof fn lemma_same_kv_trans<K, V>(
    a: Seq<Option<Entry<K, V>>>,
    b: Seq<Option<Entry<K, V>>>,
    c: Seq<Option<Entry<K, V>>>,
)
    requires
        same_kv(a, b),
        same_kv(b, c),
    ensures
        same_kv(a, c),
{
    assert forall|s: int| 0 <= s < a.len() implies (#[trigger] a[s] is Some <==> c[s] is Some) && (
    a[s] is Some ==> (a[s]->Some_0.key == c[s]->Some_0.key && a[s]->Some_0.value
        == c[s]->Some_0.value)) by {
        assert(b[s] is Some <==> c[s] is Some);
    }
}

/// Keys depend only on the keys in the listed slots.
proof fn lemma_key_lists_frame<K, V>(
    e1: Seq<Option<Entry<K, V>>>,
    e2: Seq<Option<Entry<K, V>>>,
    lists: Seq<Seq<usize>>,
)
    requires
        forall|g: int, i: int|
            0 <= g < lists.len() && 0 <= i < lists[g].len() ==> e1[#[trigger] lists[g][i] as int]->Some_0.key
                == e2[lists[g][i] as int]->Some_0.key,
    ensures
        key_lists(e1, lists) == key_lists(e2, lists),
{
    assert forall|g: int| 0 <= g < lists.len() implies #[trigger] key_lists(e1, lists)[g]
        =~= key_lists(e2, lists)[g] by {
        assert forall|i: int| 0 <= i < lists[g].len() implies key_lists(e1, lists)[g][i]
            == key_lists(e2, lists)[g][i] by {
            assert(e1[lists[g][i] as int]->Some_0.key == e2[lists[g][i] as int]->Some_0.key);
        }
    }
    assert(key_lists(e1, lists) =~= key_lists(e2, lists));
}

/// Taking a slot out of the lists takes its key out of the generations.
proof fn lemma_key_lists_without<K, V>(e: Seq<Option<Entry<K, V>>>, lists: Seq<Seq<usize>>, s: usize)
    requires
        lists.len() == 4,
        gens_distinct(lists),
        in_gens(lists, s),
        gens_distinct(key_lists(e, lists)),
    ensures
        gen_of(key_lists(e, lists), e[s as int]->Some_0.key) == gen_of(lists, s),
        pos_of(key_lists(e, lists), e[s as int]->Some_0.key) == pos_of(lists, s),
        key_lists(e, without(lists, s)) == without(key_lists(e, lists), e[s as int]->Some_0.key),
{
    let gs = key_lists(e, lists);
    let k = e[s as int]->Some_0.key;
    lemma_locate(lists, s);
    let g = gen_of(lists, s);
    let i = pos_of(lists, s);
    assert(gs[g][i] == k);
    assert(gs[g].contains(k));
    lemma_locate(gs, k);
    let w = without(lists, s);
    assert(key_lists(e, w)[g] =~= gs[g].remove(i));
    assert(key_lists(e, w) =~= without(gs, k));
}

/// Putting a slot at the head of a list puts its key at the head of the generation.
proof fn lemma_key_lists_push<K, V>(
    e: Seq<Option<Entry<K, V>>>,
    lists: Seq<Seq<usize>>,
    g: int,
    s: usize,
)
    requires
        0 <= g < lists.len(),
    ensures
        key_lists(e, lists.update(g, seq![s] + lists[g])) == key_lists(e, lists).update(
            g,
            seq![e[s as int]->Some_0.key] + key_lists(e, lists)[g],
        ),
{
    let a = key_lists(e, lists.update(g, seq![s] + lists[g]));
    let b = key_lists(e, lists).update(g, seq![e[s as int]->Some_0.key] + key_lists(e, lists)[g]);
    assert(a[g] =~= b[g]);
    assert(a =~= b);
}

impl<K: Clone + Eq + std::hash::Hash, V> MglruCache<K, V> {
    spec fn occ(self, s: int) -> bool {
        0 <= s < self.entries@.len() && self.entries@[s] is Some
    }

    spec fn ent(self, s: int) -> Entry<K, V> {
        self.entries@[s]->Some_0
    }

    /// Slot `lists[g][i]` is linked to its neighbours in generation `g`.
    spec fn link_ok(self, g: int, i: int) -> bool {
        let l = self.lists@[g];
        let s = l[i];
        &&& self.occ(s as int)
        &&& self.ent(s as int).generation == g
        &&& self.ent(s as int).prev == (if i == 0 {
            None
        } else {
            Some(l[i - 1])
        })
        &&& self.ent(s as int).next == (if i + 1 == l.len() {
            None
        } else {
            Some(l[i + 1])
        })
    }

    /// Generation `g` is the linked list `lists[g]`.
    spec fn gen_ok(self, g: int) -> bool {
        let l = self.lists@[g];
        let gen = self.generations@[g];
        &&& gen.len == l.len()
        &&& gen.head == first_of(l)
        &&& gen.tail == last_of(l)
        &&& forall|i: int| 0 <= i < l.len() ==> #[trigger] self.link_ok(g, i)
    }

    spec fn lists_ok(self) -> bool {
        &&& self.lists@.len() == 4
        &&& forall|g: int| 0 <= g < 4 ==> #[trigger] self.gen_ok(g)
        &&& gens_distinct(self.lists@)
    }

    /// Every occupied slot is listed in its generation.
    spec fn placed(self) -> bool {
        forall|s: int|
            #[trigger] self.occ(s) ==> self.ent(s).generation < 4 && self.lists@[self.ent(
                s,
            ).generation as int].contains(s as usize)
    }

    spec fn total(self) -> int {
        (self.lists@[0].len() + self.lists@[1].len() + self.lists@[2].len()
            + self.lists@[3].len()) as int
    }

    /// The hash map maps the key of each occupied slot to that slot.
    spec fn keys_ok(self) -> bool {
        &&& self.map@.dom().finite()
        &&& forall|k: K|
            #[trigger] self.map@.contains_key(k) ==> self.occ(self.map@[k] as int) && self.ent(
                self.map@[k] as int,
            ).key == k
        &&& forall|s: int|
            #[trigger] self.occ(s) ==> self.map@.contains_key(self.ent(s).key) && self.map@[self.ent(
                s,
            ).key] == s
    }

    /// The stacked slots are free and distinct, and every free slot is stacked.
    spec fn free_ok(self) -> bool {
        &&& self.entries@.len() == self.map@.len() + self.free_list@.len()
        &&& forall|s: int|
            0 <= s < self.entries@.len() && !#[trigger] self.occ(s) ==> self.free_list@.contains(
                s as usize,
            )
        &&& forall|i: int|
            0 <= i < self.free_list@.len() ==> #[trigger] self.free_list@[i] < self.entries@.len()
                && !self.occ(self.free_list@[i] as int)
        &&& forall|i: int, j: int|
            0 <= i < self.free_list@.len() && 0 <= j < self.free_list@.len() && i != j
                ==> #[trigger] self.free_list@[i] != #[trigger] self.free_list@[j]
    }

    /// The cache's invariant.
    pub closed spec fn wf(self) -> bool {
        &&& obeys_key_model::<K>()
        &&& clone_is_exact::<K>()
        &&& self.capacity > 0
        &&& self.lists_ok()
        &&& self.placed()
        &&& self.map@.len() == self.total()
        &&& self.map@.len() <= self.capacity
        &&& self.entries@.len() <= self.capacity
        &&& self.keys_ok()
        &&& self.free_ok()
    }

    /// The fields other than the slot array, the generations and the lists
    /// are as in `other`.
    spec fn same_but_links(self, other: Self) -> bool {
        &&& self.free_list == other.free_list
        &&& self.map == other.map
        &&& self.capacity == other.capacity
    }
}

impl<K: Clone + Eq + std::hash::Hash, V> View for MglruCache<K, V> {
    type V = CacheView<K, V>;

    closed spec fn view(&self) -> CacheView<K, V> {
        CacheView {
            gens: key_lists(self.entries@, self.lists@),
            map: Map::new(
                |k: K| self.map@.contains_key(k),
                |k: K| self.entries@[self.map@[k] as int]->Some_0.value,
            ),
            capacity: self.capacity as nat,
        }
    }
}

impl<K: Clone + Eq + std::hash::Hash, V> MglruCache<K, V> {
    /// A well-formed cache shows a well-formed view, whose generations are
    /// the keys of the listed slots.
    proof fn lemma_view_wf(self)
        requires
            self.wf(),
        ensures
            self@.wf(),
            self@.gens == key_lists(self.entries@, self.lists@),
            self@.map.dom() == self.map@.dom(),
            self@.map.len() == self.map@.len(),
            forall|k: K|
                #[trigger] self.map@.contains_key(k) ==> self@.map[k] == self.ent(
                    self.map@[k] as int,
                ).value,
    {
        let gs = self@.gens;
        let l = self.lists@;
        assert(self@.map.dom() =~= self.map@.dom());
        assert forall|g: int, i: int| 0 <= g < 4 && 0 <= i < l[g].len() implies #[trigger] gs[g][i]
            == self.ent(l[g][i] as int).key && self.occ(l[g][i] as int) by {
            assert(self.gen_ok(g));
            assert(self.link_ok(g, i));
        }
        assert forall|g1: int, i1: int, g2: int, i2: int|
            0 <= g1 < 4 && 0 <= g2 < 4 && 0 <= i1 < gs[g1].len() && 0 <= i2 < gs[g2].len() && (g1
                != g2 || i1 != i2) implies #[trigger] gs[g1][i1] != #[trigger] gs[g2][i2] by {
            assert(l[g1][i1] != l[g2][i2]);
            assert(self.gen_ok(g1));
            assert(self.link_ok(g1, i1));
            assert(self.gen_ok(g2));
            assert(self.link_ok(g2, i2));
            assert(self.map@[self.ent(l[g1][i1] as int).key] == l[g1][i1]);
            assert(self.map@[self.ent(l[g2][i2] as int).key] == l[g2][i2]);
        }
        assert forall|k: K| self@.map.contains_key(k) <==> in_gens(gs, k) by {
            if self@.map.contains_key(k) {
                let s = self.map@[k];
                assert(self.occ(s as int));
                let g = self.ent(s as int).generation as int;
                assert(l[g].contains(s));
                let i = choose|i: int| 0 <= i < l[g].len() && l[g][i] == s;
                assert(gs[g][i] == k);
                assert(gs[g].contains(k));
            }
            if in_gens(gs, k) {
                let g = choose|g: int| 0 <= g < 4 && #[trigger] gs[g].contains(k);
                let i = choose|i: int| 0 <= i < gs[g].len() && gs[g][i] == k;
                assert(self.occ(l[g][i] as int));
                assert(self.map@.contains_key(self.ent(l[g][i] as int).key));
            }
        }
    }

    /// The lists depend only on the slot array, the generations and the lists.
    proof fn lemma_lists_frame(a: Self, b: Self)
        requires
            a.lists_ok(),
            b.entries == a.entries,
            b.generations == a.generations,
            b.lists == a.lists,
        ensures
            b.lists_ok(),
    {
        assert forall|g: int| 0 <= g < 4 implies #[trigger] b.gen_ok(g) by {
            assert(a.gen_ok(g));
            assert forall|i: int| 0 <= i < b.lists@[g].len() implies #[trigger] b.link_ok(g, i) by {
                assert(a.link_ok(g, i));
            }
        }
    }

    /// Parts of the invariant that only look at the keys and values in the
    /// slots, the hash map and the free slots carry over when those stay.
    proof fn lemma_kv_frame(a: Self, b: Self)
        requires
            a.wf(),
            same_kv(a.entries@, b.entries@),
            b.same_but_links(a),
        ensures
            b.keys_ok(),
            b.free_ok(),
    {
        assert forall|s: int| (#[trigger] b.occ(s) <==> a.occ(s)) by {}
        assert forall|k: K| #[trigger] b.map@.contains_key(k) implies b.occ(b.map@[k] as int) && b.ent(
            b.map@[k] as int,
        ).key == k by {
            assert(a.occ(a.map@[k] as int));
        }
        assert forall|s: int| #[trigger] b.occ(s) implies b.map@.contains_key(b.ent(s).key)
            && b.map@[b.ent(s).key] == s by {
            assert(a.occ(s));
        }
        assert forall|i: int| 0 <= i < b.free_list@.len() implies #[trigger] b.free_list@[i]
            < b.entries@.len() && !b.occ(b.free_list@[i] as int) by {
            assert(a.free_list@[i] < a.entries@.len() && !a.occ(a.free_list@[i] as int));
        }
    }

    /// The map of stored values, when slots keep their keys and values.
    proof fn lemma_map_frame(a: Self, b: Self)
        requires
            a.wf(),
            same_kv(a.entries@, b.entries@),
            b.map == a.map,
        ensures
            b@.map == a@.map,
    {
        assert forall|k: K| #[trigger] a.map@.contains_key(k) implies b@.map[k] == a@.map[k] by {
            assert(a.occ(a.map@[k] as int));
        }
        assert(b@.map =~= a@.map);
    }

    /// What every well-formed cache shows: no key listed twice, the listed
    /// keys exactly the stored ones, and no more of them than its capacity.
    pub proof fn view_is_wf(&self)
        requires
            self.wf(),
        ensures
            self@.wf(),
            self@.map.len() <= self@.capacity,
    {
        self.lemma_view_wf();
    }

    /// Creates an empty cache that holds at most `capacity` entries.
    pub fn new(capacity: usize) -> (r: Self)
        requires
            capacity > 0,
            obeys_key_model::<K>(),
            clone_is_exact::<K>(),
        ensures
            r.wf(),
            r@ == CacheView::<K, V>::empty(capacity as nat),
    {
        let ghost lists0: Seq<Seq<usize>> = seq![Seq::empty(), Seq::empty(), Seq::empty(), Seq::empty()];
        let r = Self {
            entries: Vec::with_capacity(capacity),
            free_list: Vec::with_capacity(capacity),
            map: HashMap::with_capacity(capacity),
            generations: [Generation::new(), Generation::new(), Generation::new(), Generation::new()],
            capacity,
            lists: Ghost(lists0),
        };
        proof {
            assert forall|g: int| 0 <= g < 4 implies #[trigger] r.gen_ok(g) by {}
            assert forall|g: int| 0 <= g < 4 implies #[trigger] r@.gens[g] =~= Seq::<K>::empty() by {}
            assert(r@.gens =~= CacheView::<K, V>::empty(capacity as nat).gens);
            assert(r@.map =~= Map::empty());
        }
        r
    }

    /// The number of stored entries.
    pub fn len(&self) -> (n: usize)
        requires
            self.wf(),
        ensures
            n == self@.map.len(),
    {
        proof {
            self.lemma_view_wf();
        }
        self.map.len()
    }

    /// Whether no entry is stored.
    pub fn is_empty(&self) -> (b: bool)
        requires
            self.wf(),
        ensures
            b == (self@.map.len() == 0),
    {
        proof {
            self.lemma_view_wf();
        }
        self.map.is_empty()
    }

    /// The most entries the cache holds.
    pub fn capacity(&self) -> (c: usize)
        ensures
            c == self@.capacity,
    {
        self.capacity
    }

    /// Whether `key` is stored. The cache does not change.
    pub fn contains_key(&self, key: &K) -> (b: bool)
        requires
            self.wf(),
        ensures
            b == self@.map.contains_key(*key),
    {
        self.map.contains_key(key)
    }

    /// Makes slot `idx` the head of generation `g`.
    fn push_front(&mut self, g: usize, idx: usize)
        requires
            old(self).lists_ok(),
            g < 4,
            old(self).occ(idx as int),
            old(self).ent(idx as int).generation == g,
            !in_gens(old(self).lists@, idx),
            old(self).lists@[g as int].len() < usize::MAX,
        ensures
            final(self).lists_ok(),
            final(self).lists@ == old(self).lists@.update(
                g as int,
                seq![idx] + old(self).lists@[g as int],
            ),
            same_kvg(old(self).entries@, final(self).entries@),
            final(self).same_but_links(*old(self)),
    {
        let ghost l = self.lists@[g as int];
        let ghost lists0 = self.lists@;
        proof {
            assert(self.gen_ok(g as int));
            if l.len() > 0 {
                assert(self.link_ok(g as int, 0));
            }
        }
        let old_head = self.generations[g].head;
        let e = self.entries[idx].as_mut().unwrap();
        e.prev = None;
        e.next = old_head;
        if let Some(oh) = old_head {
            self.entries[oh].as_mut().unwrap().prev = Some(idx);
        } else {
            self.generations[g].tail = Some(idx);
        }
        self.generations[g].head = Some(idx);
        self.generations[g].len = self.generations[g].len + 1;
        proof {
            self.lists@ = lists0.update(g as int, seq![idx] + l);
            lemma_push_head(lists0, g as int, idx);
            let nl = self.lists@[g as int];
            assert forall|g2: int| 0 <= g2 < 4 implies #[trigger] self.gen_ok(g2) by {
                assert(old(self).gen_ok(g2));
                if g2 == g {
                    assert forall|i: int| 0 <= i < nl.len() implies #[trigger] self.link_ok(g2, i) by {
                        if i > 0 {
                            assert(old(self).link_ok(g2, i - 1));
                            if i > 1 {
                                assert(l[i - 1] != l[0]);
                            }
                            if l[i - 1] == idx {
                                assert(l.contains(idx));
                                assert(lists0[g as int].contains(idx));
                                assert(in_gens(lists0, idx));
                            }
                        } else {
                            if l.len() > 0 {
                                assert(nl[1] == l[0]);
                            }
                        }
                    }
                    if l.len() > 0 {
                        assert(nl.last() == l.last());
                    }
                } else {
                    assert forall|i: int|
                        0 <= i < self.lists@[g2].len() implies #[trigger] self.link_ok(g2, i) by {
                        assert(old(self).link_ok(g2, i));
                        assert(lists0[g2].contains(lists0[g2][i]));
                        if l.len() > 0 {
                            assert(lists0[g2][i] != lists0[g as int][0]);
                        }
                    }
                }
            }
        }
    }

    /// Takes slot `idx` out of generation `g`.
    fn unlink(&mut self, g: usize, idx: usize)
        requires
            old(self).lists_ok(),
            g < 4,
            old(self).lists@[g as int].contains(idx),
        ensures
            final(self).lists_ok(),
            gen_of(old(self).lists@, idx) == g,
            final(self).lists@ == without(old(self).lists@, idx),
            !in_gens(final(self).lists@, idx),
            forall|j: usize|
                in_gens(final(self).lists@, j) <==> (in_gens(old(self).lists@, j) && j != idx),
            final(self).lists@[g as int].len() == old(self).lists@[g as int].len() - 1,
            forall|g2: int|
                0 <= g2 < 4 && g2 != g ==> #[trigger] final(self).lists@[g2] == old(self).lists@[g2],
            same_kvg(old(self).entries@, final(self).entries@),
            final(self).entries@[idx as int] is Some,
            final(self).entries@[idx as int]->Some_0.prev is None,
            final(self).entries@[idx as int]->Some_0.next is None,
            final(self).same_but_links(*old(self)),
    {
        let ghost lists0 = self.lists@;
        let ghost l = lists0[g as int];
        proof {
            assert(in_gens(lists0, idx));
            lemma_locate(lists0, idx);
            lemma_without(lists0, idx);
        }
        let ghost i = pos_of(lists0, idx);
        proof {
            assert(gen_of(lists0, idx) == g);
            assert(self.gen_ok(g as int));
            assert(self.link_ok(g as int, i));
            if i > 0 {
                assert(self.link_ok(g as int, i - 1));
            }
            if i + 1 < l.len() {
                assert(self.link_ok(g as int, i + 1));
            }
        }
        let e = self.entries[idx].as_ref().unwrap();
        let prev = e.prev;
        let next = e.next;
        if let Some(p) = prev {
            self.entries[p].as_mut().unwrap().next = next;
        } else {
            self.generations[g].head = next;
        }
        if let Some(n) = next {
            self.entries[n].as_mut().unwrap().prev = prev;
        } else {
            self.generations[g].tail = prev;
        }
        let e = self.entries[idx].as_mut().unwrap();
        e.prev = None;
        e.next = None;
        self.generations[g].len = self.generations[g].len - 1;
        proof {
            self.lists@ = without(lists0, idx);
            let nl = self.lists@[g as int];
            assert(nl == l.remove(i));
            assert forall|g2: int| 0 <= g2 < 4 implies #[trigger] self.gen_ok(g2) by {
                assert(old(self).gen_ok(g2));
                if g2 == g {
                    assert forall|j: int| 0 <= j < nl.len() implies #[trigger] self.link_ok(g2, j) by {
                        if j < i {
                            assert(old(self).link_ok(g2, j));
                            assert(l[j] != l[i]);
                            if j + 1 < i {
                                assert(l[j] != l[i - 1]);
                            }
                            if i + 1 < l.len() {
                                assert(l[j] != l[i + 1]);
                            }
                        } else {
                            assert(old(self).link_ok(g2, j + 1));
                            assert(l[j + 1] != l[i]);
                            if i > 0 {
                                assert(l[j + 1] != l[i - 1]);
                            }
                            if j > i {
                                assert(l[j + 1] != l[i + 1]);
                            }
                        }
                    }
                    if nl.len() > 0 {
                        if i == 0 {
                            assert(nl[0] == l[1]);
                        }
                        if i == l.len() - 1 {
                            assert(nl.last() == l[i - 1]);
                        } else {
                            assert(nl.last() == l.last());
                        }
                    }
                } else {
                    assert forall|j: int|
                        0 <= j < self.lists@[g2].len() implies #[trigger] self.link_ok(g2, j) by {
                        assert(old(self).link_ok(g2, j));
                        assert(lists0[g2][j] != l[i]);
                        if i > 0 {
                            assert(lists0[g2][j] != l[i - 1]);
                        }
                        if i + 1 < l.len() {
                            assert(lists0[g2][j] != l[i + 1]);
                        }
                    }
                }
            }
        }
    }

    /// Moves the entry in slot `idx` to the head of the next younger generation.
    fn promote(&mut self, idx: usize)
        requires
            old(self).wf(),
            old(self).occ(idx as int),
        ensures
            final(self).wf(),
            final(self)@ == old(self)@.after_get(old(self).ent(idx as int).key),
            same_kv(old(self).entries@, final(self).entries@),
            final(self).same_but_links(*old(self)),
    {
        let ghost lists0 = self.lists@;
        let ghost k = self.ent(idx as int).key;
        proof {
            self.lemma_view_wf();
            assert(self.map@.contains_key(k));
            assert(self@.map.contains_key(k));
        }
        let cur_gen = self.entries[idx].as_ref().unwrap().generation;
        let new_gen = if cur_gen == 0 {
            0
        } else {
            cur_gen - 1
        };
        self.unlink(cur_gen, idx);
        let ghost e1 = self.entries@;
        let ghost mid = *self;
        if cur_gen != 0 {
            self.entries[idx].as_mut().unwrap().generation = new_gen;
        }
        proof {
            assert(same_kv(e1, self.entries@));
            lemma_same_kv_trans(old(self).entries@, e1, self.entries@);
            assert forall|g: int| 0 <= g < 4 implies #[trigger] self.gen_ok(g) by {
                assert(mid.gen_ok(g));
                assert forall|i: int| 0 <= i < self.lists@[g].len() implies #[trigger] self.link_ok(
                    g,
                    i,
                ) by {
                    assert(mid.link_ok(g, i));
                    assert(self.lists@[g].contains(self.lists@[g][i]));
                }
            }
        }
        let ghost e2 = self.entries@;
        proof {
            assert(self.lists@[new_gen as int].len() < usize::MAX) by {
                assert(old(self).total() == old(self).map@.len());
            }
        }
        self.push_front(new_gen, idx);
        proof {
            lemma_same_kv_trans(old(self).entries@, e2, self.entries@);
            let gs0 = old(self)@.gens;
            lemma_key_lists_without(old(self).entries@, lists0, idx);
            let w = without(lists0, idx);
            lemma_key_lists_push(old(self).entries@, w, new_gen as int, idx);
            assert(new_gen == younger(gen_of(gs0, k)));
            assert forall|g: int, i: int|
                0 <= g < self.lists@.len() && 0 <= i < self.lists@[g].len() implies old(self).entries@[#[trigger] self.lists@[g][i] as int]->Some_0.key
                == self.entries@[self.lists@[g][i] as int]->Some_0.key by {
                assert(self.gen_ok(g));
                assert(self.link_ok(g, i));
            }
            lemma_key_lists_frame(old(self).entries@, self.entries@, self.lists@);
            assert(self@.gens == promoted(gs0, k));
            Self::lemma_kv_frame(*old(self), *self);
            Self::lemma_map_frame(*old(self), *self);
            assert forall|s: int| #[trigger] self.occ(s) implies self.ent(s).generation < 4
                && self.lists@[self.ent(s).generation as int].contains(s as usize) by {
                if s == idx {
                    assert(self.lists@[new_gen as int][0] == idx);
                } else {
                    assert(old(self).occ(s));
                    let g = old(self).ent(s).generation as int;
                    assert(lists0[g].contains(s as usize));
                    assert(in_gens(lists0, s as usize));
                    assert(in_gens(w, s as usize));
                    let g2 = choose|g2: int| 0 <= g2 < 4 && #[trigger] w[g2].contains(s as usize);
                    lemma_locate(lists0, s as usize);
                    let i2 = choose|i2: int| 0 <= i2 < w[g2].len() && w[g2][i2] == s as usize;
                    assert(self.gen_ok(g2));
                    if g2 == new_gen {
                        assert(self.link_ok(g2, i2 + 1));
                        assert(self.lists@[g2][i2 + 1] == s);
                    } else {
                        assert(self.link_ok(g2, i2));
                    }
                }
            }
        }
    }
}

impl<K: Clone + Eq + std::hash::Hash, V> MglruCache<K, V> {
    /// Puts `entry` in a free slot: the last stacked one, else a new one.
    fn alloc_entry(&mut self, entry: Entry<K, V>) -> (idx: usize)
        requires
            old(self).free_ok(),
        ensures
            old(self).free_list@.len() > 0 ==> idx == old(self).free_list@.last(),
            old(self).free_list@.len() > 0 ==> final(self).free_list@ == old(self).free_list@.drop_last(),
            old(self).free_list@.len() > 0 ==> final(self).entries@ == old(self).entries@.update(idx as int, Some(entry)),
            old(self).free_list@.len() == 0 ==> idx == old(self).entries@.len(),
            old(self).free_list@.len() == 0 ==> final(self).free_list@ == old(self).free_list@,
            old(self).free_list@.len() == 0 ==> final(self).entries@ == old(self).entries@.push(Some(entry)),
            idx <= old(self).entries@.len(),
            !old(self).occ(idx as int),
            final(self).map == old(self).map,
            final(self).generations == old(self).generations,
            final(self).lists == old(self).lists,
            final(self).capacity == old(self).capacity,
    {
        if let Some(idx) = self.free_list.pop() {
            proof {
                assert(old(self).free_list@[old(self).free_list@.len() - 1] == idx);
            }
            self.entries.set(idx, Some(entry));
            idx
        } else {
            let idx = self.entries.len();
            self.entries.push(Some(entry));
            idx
        }
    }

    /// The state after a stored slot `idx` has been taken out of the lists,
    /// the slot array and the hash map, and stacked as free.
    #[verifier::rlimit(50)]
    #[verifier::spinoff_prover]
    proof fn lemma_dropped(a: Self, b: Self, idx: usize)
        requires
            a.wf(),
            a.occ(idx as int),
            b.lists_ok(),
            in_gens(a.lists@, idx),
            b.lists@ == without(a.lists@, idx),
            b.entries@.len() == a.entries@.len(),
            b.entries@[idx as int] is None,
            forall|s: int|
                0 <= s < a.entries@.len() && s != idx ==> (#[trigger] b.occ(s) <==> a.occ(s)) && (a.occ(s)
                    ==> b.ent(s).key == a.ent(s).key && b.ent(s).value == a.ent(s).value && b.ent(
                    s,
                ).generation == a.ent(s).generation),
            b.map@ == a.map@.remove(a.ent(idx as int).key),
            b.free_list@ == a.free_list@.push(idx),
            b.capacity == a.capacity,
        ensures
            b.wf(),
            b@.gens == without(a@.gens, a.ent(idx as int).key),
            b@.map == a@.map.remove(a.ent(idx as int).key),
    {
        let k = a.ent(idx as int).key;
        a.lemma_view_wf();
        lemma_without(a.lists@, idx);
        lemma_locate(a.lists@, idx);
        assert forall|s: int| #[trigger] b.occ(s) implies b.ent(s).generation < 4 && b.lists@[b.ent(
            s,
        ).generation as int].contains(s as usize) by {
            assert(s != idx);
            assert(a.occ(s));
            let g = a.ent(s).generation as int;
            assert(a.lists@[g].contains(s as usize));
            assert(in_gens(a.lists@, s as usize));
            assert(in_gens(b.lists@, s as usize));
            let g2 = choose|g2: int| 0 <= g2 < 4 && #[trigger] b.lists@[g2].contains(s as usize);
            let i2 = choose|i2: int| 0 <= i2 < b.lists@[g2].len() && b.lists@[g2][i2] == s as usize;
            assert(b.gen_ok(g2));
            assert(b.link_ok(g2, i2));
        }
        assert(b.total() == a.total() - 1) by {
            let g = gen_of(a.lists@, idx);
            assert(b.lists@[g].len() == a.lists@[g].len() - 1);
        }
        assert(a.map@.contains_key(k));
        assert(b.map@.len() == a.map@.len() - 1);
        assert forall|kk: K| #[trigger] b.map@.contains_key(kk) implies b.occ(b.map@[kk] as int)
            && b.ent(b.map@[kk] as int).key == kk by {
            assert(a.map@.contains_key(kk));
            assert(a.occ(a.map@[kk] as int));
            assert(a.map@[kk] != idx);
        }
        assert forall|s: int| #[trigger] b.occ(s) implies b.map@.contains_key(b.ent(s).key)
            && b.map@[b.ent(s).key] == s by {
            assert(a.occ(s));
            assert(a.map@[a.ent(s).key] == s);
            assert(a.ent(s).key != k);
        }
        assert forall|i: int| 0 <= i < b.free_list@.len() implies #[trigger] b.free_list@[i]
            < b.entries@.len() && !b.occ(b.free_list@[i] as int) by {
            if i < a.free_list@.len() {
                assert(a.free_list@[i] < a.entries@.len() && !a.occ(a.free_list@[i] as int));
            }
        }
        assert forall|i: int, j: int|
            0 <= i < b.free_list@.len() && 0 <= j < b.free_list@.len() && i != j implies #[trigger] b.free_list@[i]
            != #[trigger] b.free_list@[j] by {
            if i < a.free_list@.len() && j < a.free_list@.len() {
                assert(a.free_list@[i] != a.free_list@[j]);
            } else if i < a.free_list@.len() {
                assert(!a.occ(a.free_list@[i] as int));
            } else {
                assert(!a.occ(a.free_list@[j] as int));
            }
        }
        assert forall|s: int| 0 <= s < b.entries@.len() && !#[trigger] b.occ(s) implies b.free_list@.contains(
            s as usize,
        ) by {
            if s == idx {
                assert(b.free_list@[a.free_list@.len() as int] == idx);
            } else {
                assert(!a.occ(s));
                let i = choose|i: int| 0 <= i < a.free_list@.len() && a.free_list@[i] == s as usize;
                assert(b.free_list@[i] == s as usize);
            }
        }
        lemma_key_lists_without(a.entries@, a.lists@, idx);
        assert forall|g: int, i: int|
            0 <= g < b.lists@.len() && 0 <= i < b.lists@[g].len() implies a.entries@[#[trigger] b.lists@[g][i] as int]->Some_0.key
            == b.entries@[b.lists@[g][i] as int]->Some_0.key by {
            assert(b.gen_ok(g));
            assert(b.link_ok(g, i));
        }
        lemma_key_lists_frame(a.entries@, b.entries@, b.lists@);
        assert forall|kk: K| #[trigger] b.map@.contains_key(kk) implies b@.map[kk] == a@.map[kk] by {
            assert(a.occ(a.map@[kk] as int));
        }
        assert(b@.map =~= a@.map.remove(k));
    }

    /// Removes `key`, returning its value if it was stored.
    #[verifier::rlimit(50)]
    #[verifier::spinoff_prover]
    pub fn remove(&mut self, key: &K) -> (r: Option<V>)
        requires
            old(self).wf(),
        ensures
            final(self).wf(),
            final(self)@ == old(self)@.after_remove(*key),
            r == (if old(self)@.map.contains_key(*key) {
                Some(old(self)@.map[*key])
            } else {
                None::<V>
            }),
    {
        proof {
            self.lemma_view_wf();
        }
        let ghost a = *self;
        let idx = match self.map.remove(key) {
            Some(i) => i,
            None => {
                proof {
                    assert(self.map@ =~= a.map@);
                    Self::lemma_same_contents(a, *self);
                }
                return None;
            },
        };
        proof {
            assert(a.occ(idx as int));
            assert(a.ent(idx as int).key == *key);
            assert(a.lists@[a.ent(idx as int).generation as int].contains(idx));
        }
        let g = self.entries[idx].as_ref().unwrap().generation;
        proof {
            Self::lemma_lists_frame(a, *self);
        }
        self.unlink(g, idx);
        let ghost m = *self;
        let entry = self.entries[idx].take().unwrap();
        self.free_list.push(idx);
        proof {
            let ghost b = *self;
            assert forall|gg: int| 0 <= gg < 4 implies #[trigger] b.gen_ok(gg) by {
                assert(m.gen_ok(gg));
                assert forall|i: int| 0 <= i < b.lists@[gg].len() implies #[trigger] b.link_ok(gg, i) by {
                    assert(m.link_ok(gg, i));
                    assert(b.lists@[gg].contains(b.lists@[gg][i]));
                    assert(in_gens(b.lists@, b.lists@[gg][i]));
                    assert(b.lists@[gg][i] != idx);
                    assert(b.entries@[b.lists@[gg][i] as int] == m.entries@[b.lists@[gg][i] as int]);
                }
            }
            Self::lemma_dropped(a, b, idx);
            lemma_key_lists_without(a.entries@, a.lists@, idx);
        }
        Some(entry.value)
    }

    /// A state with the same fields and the same map contents as a
    /// well-formed one is well-formed and shows the same view.
    proof fn lemma_same_contents(a: Self, b: Self)
        requires
            a.wf(),
            b.entries == a.entries,
            b.generations == a.generations,
            b.lists == a.lists,
            b.free_list == a.free_list,
            b.capacity == a.capacity,
            b.map@ == a.map@,
        ensures
            b.wf(),
            b@ == a@,
    {
        Self::lemma_lists_frame(a, b);
        assert forall|s: int| #[trigger] b.occ(s) implies b.ent(s).generation < 4 && b.lists@[b.ent(
            s,
        ).generation as int].contains(s as usize) by {
            assert(a.occ(s));
        }
        assert forall|k: K| #[trigger] b.map@.contains_key(k) implies b.occ(b.map@[k] as int) && b.ent(
            b.map@[k] as int,
        ).key == k by {
            assert(a.map@.contains_key(k));
        }
        assert forall|s: int| #[trigger] b.occ(s) implies b.map@.contains_key(b.ent(s).key)
            && b.map@[b.ent(s).key] == s by {
            assert(a.occ(s));
        }
        assert forall|i: int| 0 <= i < b.free_list@.len() implies #[trigger] b.free_list@[i]
            < b.entries@.len() && !b.occ(b.free_list@[i] as int) by {
            assert(a.free_list@[i] < a.entries@.len() && !a.occ(a.free_list@[i] as int));
        }
        assert forall|s: int| 0 <= s < b.entries@.len() && !#[trigger] b.occ(s) implies b.free_list@.contains(
            s as usize,
        ) by {
            assert(!a.occ(s));
        }
        assert(b@.map =~= a@.map);
    }

    /// Evicts the tail of the oldest non-empty generation.
    #[verifier::rlimit(50)]
    #[verifier::spinoff_prover]
    fn evict(&mut self)
        requires
            old(self).wf(),
            old(self).map@.len() >= old(self).capacity,
        ensures
            final(self).wf(),
            final(self)@ == old(self)@.evicted(),
            final(self).map@.len() == old(self).map@.len() - 1,
            ({
                let v = old(self).map@[old(self)@.victim()];
                &&& old(self).occ(v as int)
                &&& final(self).entries@.len() == old(self).entries@.len()
                &&& final(self).entries@[v as int] is None
                &&& final(self).free_list@ == old(self).free_list@.push(v)
                &&& final(self).map@ == old(self).map@.remove(old(self)@.victim())
                &&& final(self).lists@ == without(old(self).lists@, v)
                &&& forall|s: int|
                    0 <= s < old(self).entries@.len() && s != v ==> (#[trigger] final(self).occ(s)
                        <==> old(self).occ(s)) && (old(self).occ(s) ==> final(self).ent(s).key
                        == old(self).ent(s).key && final(self).ent(s).value == old(self).ent(s).value
                        && final(self).ent(s).generation == old(self).ent(s).generation)
            }),
    {
        let ghost a = *self;
        proof {
            self.lemma_view_wf();
            lemma_victim(self@);
        }
        let mut g: usize = MAX_GENERATIONS;
        while g > 0
            invariant
                *self == a,
                a == *old(self),
                a.wf(),
                a.map@.len() >= a.capacity,
                g <= 4,
                forall|g2: int| g <= g2 < 4 ==> #[trigger] a.lists@[g2].len() == 0,
            decreases g,
        {
            g = g - 1;
            proof {
                assert(a.gen_ok(g as int));
            }
            if let Some(tail) = self.generations[g].tail {
                proof {
                    let l = a.lists@[g as int];
                    assert(l.len() > 0);
                    assert(a.link_ok(g as int, l.len() - 1));
                    assert(l[l.len() - 1] == tail);
                    assert(l.contains(tail));
                    assert(in_gens(a.lists@, tail));
                    a.lemma_view_wf();
                    let gs = a@.gens;
                    assert forall|g2: int| 0 <= g2 < 4 implies #[trigger] gs[g2].len()
                        == a.lists@[g2].len() by {}
                    assert(victim_gen(gs) == g);
                    assert(a@.victim() == a.ent(tail as int).key);
                }
                self.map.remove(&self.entries[tail].as_ref().unwrap().key);
                proof {
                    Self::lemma_lists_frame(a, *self);
                }
                self.unlink(g, tail);
                let ghost m = *self;
                proof {
                    lemma_locate(a.lists@, tail);
                }
                self.entries.set(tail, None);
                self.free_list.push(tail);
                proof {
                    let ghost b = *self;
                    assert forall|gg: int| 0 <= gg < 4 implies #[trigger] b.gen_ok(gg) by {
                        assert(m.gen_ok(gg));
                        assert forall|i: int| 0 <= i < b.lists@[gg].len() implies #[trigger] b.link_ok(
                            gg,
                            i,
                        ) by {
                            assert(m.link_ok(gg, i));
                            assert(b.lists@[gg].contains(b.lists@[gg][i]));
                            assert(in_gens(b.lists@, b.lists@[gg][i]));
                            assert(b.lists@[gg][i] != tail);
                        }
                    }
                    Self::lemma_dropped(a, b, tail);
                    lemma_victim(a@);
                    assert(b@.gens == a@.evicted().gens);
                    assert(b@.map == a@.evicted().map);
                    assert(b@.capacity == a@.evicted().capacity);
                    assert(b@ == a@.evicted());
                }
                return;
            }
            proof {
                if a.lists@[g as int].len() > 0 {
                    assert(a.link_ok(g as int, a.lists@[g as int].len() - 1));
                }
                assert(a.lists@[g as int].len() == 0);
            }
        }
        proof {
            assert(a.total() == 0);
        }
    }
}

impl<K: Clone + Eq + std::hash::Hash, V> MglruCache<K, V> {
    /// The state after a free slot `idx` has been filled with `k` and `v`,
    /// put at the head of generation 0 and entered in the hash map.
    #[verifier::rlimit(50)]
    #[verifier::spinoff_prover]
    proof fn lemma_added(a: Self, b: Self, idx: usize, k: K, v: V)
        requires
            a.wf(),
            !a.map@.contains_key(k),
            a.map@.len() < a.capacity,
            idx <= a.entries@.len(),
            !a.occ(idx as int),
            b.lists_ok(),
            b.lists@ == a.lists@.update(0, seq![idx] + a.lists@[0]),
            b.entries@.len() == (if idx < a.entries@.len() {
                a.entries@.len()
            } else {
                a.entries@.len() + 1
            }),
            b.occ(idx as int),
            b.ent(idx as int).key == k,
            b.ent(idx as int).value == v,
            b.ent(idx as int).generation == 0,
            forall|s: int|
                0 <= s < a.entries@.len() && s != idx ==> (#[trigger] b.occ(s) <==> a.occ(s)) && (a.occ(s)
                    ==> b.ent(s).key == a.ent(s).key && b.ent(s).value == a.ent(s).value && b.ent(
                    s,
                ).generation == a.ent(s).generation),
            b.map@ == a.map@.insert(k, idx),
            a.free_list@.len() > 0 ==> idx == a.free_list@.last() && b.free_list@
                == a.free_list@.drop_last(),
            a.free_list@.len() == 0 ==> idx == a.entries@.len() && b.free_list@ == a.free_list@,
            b.capacity == a.capacity,
        ensures
            b.wf(),
            b@.gens == a@.gens.update(0, seq![k] + a@.gens[0]),
            b@.map == a@.map.insert(k, v),
    {
        a.lemma_view_wf();
        assert forall|s: int| #[trigger] b.occ(s) implies b.ent(s).generation < 4 && b.lists@[b.ent(
            s,
        ).generation as int].contains(s as usize) by {
            if s == idx {
                assert(b.lists@[0][0] == idx);
            } else {
                assert(a.occ(s));
                let g = a.ent(s).generation as int;
                assert(a.lists@[g].contains(s as usize));
                let i = choose|i: int| 0 <= i < a.lists@[g].len() && a.lists@[g][i] == s as usize;
                if g == 0 {
                    assert(b.lists@[0][i + 1] == s);
                } else {
                    assert(b.lists@[g][i] == s);
                }
            }
        }
        assert(b.map@.len() == a.map@.len() + 1);
        assert forall|kk: K| #[trigger] b.map@.contains_key(kk) implies b.occ(b.map@[kk] as int)
            && b.ent(b.map@[kk] as int).key == kk by {
            if kk != k {
                assert(a.map@.contains_key(kk));
                let sl = a.map@[kk];
                assert(b.map@[kk] == sl);
                assert(a.occ(sl as int));
                assert(a.ent(sl as int).key == kk);
                assert(sl != idx);
                assert(0 <= sl < a.entries@.len());
                assert(b.occ(sl as int));
                assert(b.ent(sl as int).key == kk);
            } else {
                assert(b.map@[kk] == idx);
            }
        }
        assert forall|s: int| #[trigger] b.occ(s) implies b.map@.contains_key(b.ent(s).key)
            && b.map@[b.ent(s).key] == s by {
            if s != idx {
                assert(a.occ(s));
                assert(a.map@[a.ent(s).key] == s);
                assert(a.map@.contains_key(a.ent(s).key));
            }
        }
        assert forall|i: int| 0 <= i < b.free_list@.len() implies #[trigger] b.free_list@[i]
            < b.entries@.len() && !b.occ(b.free_list@[i] as int) by {
            assert(a.free_list@[i] < a.entries@.len() && !a.occ(a.free_list@[i] as int));
            if a.free_list@.len() > 0 {
                assert(a.free_list@[i] != a.free_list@[a.free_list@.len() - 1]);
            }
        }
        assert forall|i: int, j: int|
            0 <= i < b.free_list@.len() && 0 <= j < b.free_list@.len() && i != j implies #[trigger] b.free_list@[i]
            != #[trigger] b.free_list@[j] by {
            assert(a.free_list@[i] != a.free_list@[j]);
        }
        assert forall|s: int| 0 <= s < b.entries@.len() && !#[trigger] b.occ(s) implies b.free_list@.contains(
            s as usize,
        ) by {
            assert(s != idx);
            assert(s < a.entries@.len());
            assert(!a.occ(s));
            let i = choose|i: int| 0 <= i < a.free_list@.len() && a.free_list@[i] == s as usize;
            assert(i != a.free_list@.len() - 1);
            assert(b.free_list@[i] == s as usize);
        }
        lemma_key_lists_push(a.entries@, a.lists@, 0, idx);
        let e2 = if idx < a.entries@.len() {
            a.entries@.update(idx as int, b.entries@[idx as int])
        } else {
            a.entries@.push(b.entries@[idx as int])
        };
        assert forall|g: int, i: int|
            0 <= g < b.lists@.len() && 0 <= i < b.lists@[g].len() implies e2[#[trigger] b.lists@[g][i] as int]->Some_0.key
            == b.entries@[b.lists@[g][i] as int]->Some_0.key by {
            assert(b.gen_ok(g));
            assert(b.link_ok(g, i));
        }
        lemma_key_lists_frame(e2, b.entries@, b.lists@);
        assert forall|g: int, i: int|
            0 <= g < a.lists@.len() && 0 <= i < a.lists@[g].len() implies e2[#[trigger] a.lists@[g][i] as int]->Some_0.key
            == a.entries@[a.lists@[g][i] as int]->Some_0.key by {
            assert(a.gen_ok(g));
            assert(a.link_ok(g, i));
        }
        lemma_key_lists_frame(e2, a.entries@, a.lists@);
        lemma_key_lists_push(e2, a.lists@, 0, idx);
        assert forall|kk: K| #[trigger] b.map@.contains_key(kk) implies b@.map[kk] == a@.map.insert(
            k,
            v,
        )[kk] by {
            if kk != k {
                assert(a.occ(a.map@[kk] as int));
            }
        }
        assert(b@.map =~= a@.map.insert(k, v));
    }

    /// Changing the value in a stored slot keeps the invariant and changes
    /// the stored value of its key.
    proof fn lemma_value_changed(a: Self, b: Self, idx: usize)
        requires
            a.wf(),
            a.occ(idx as int),
            b.entries@.len() == a.entries@.len(),
            b.occ(idx as int),
            b.ent(idx as int) == (Entry { value: b.ent(idx as int).value, ..a.ent(idx as int) }),
            forall|s: int|
                0 <= s < a.entries@.len() && s != idx ==> #[trigger] b.entries@[s] == a.entries@[s],
            b.generations == a.generations,
            b.lists == a.lists,
            b.same_but_links(a),
        ensures
            b.wf(),
            b@.gens == a@.gens,
            b@.map == a@.map.insert(a.ent(idx as int).key, b.ent(idx as int).value),
    {
        a.lemma_view_wf();
        assert forall|g: int| 0 <= g < 4 implies #[trigger] b.gen_ok(g) by {
            assert(a.gen_ok(g));
            assert forall|i: int| 0 <= i < b.lists@[g].len() implies #[trigger] b.link_ok(g, i) by {
                assert(a.link_ok(g, i));
            }
        }
        assert forall|s: int| #[trigger] b.occ(s) implies b.ent(s).generation < 4 && b.lists@[b.ent(
            s,
        ).generation as int].contains(s as usize) by {
            assert(a.occ(s));
        }
        assert forall|k: K| #[trigger] b.map@.contains_key(k) implies b.occ(b.map@[k] as int) && b.ent(
            b.map@[k] as int,
        ).key == k by {
            assert(a.occ(a.map@[k] as int));
        }
        assert forall|s: int| #[trigger] b.occ(s) implies b.map@.contains_key(b.ent(s).key)
            && b.map@[b.ent(s).key] == s by {
            assert(a.occ(s));
        }
        assert forall|i: int| 0 <= i < b.free_list@.len() implies #[trigger] b.free_list@[i]
            < b.entries@.len() && !b.occ(b.free_list@[i] as int) by {
            assert(a.free_list@[i] < a.entries@.len() && !a.occ(a.free_list@[i] as int));
        }
        assert forall|s: int| 0 <= s < b.entries@.len() && !#[trigger] b.occ(s) implies b.free_list@.contains(
            s as usize,
        ) by {
            assert(s != idx);
            assert(b.entries@[s] == a.entries@[s]);
            assert(!a.occ(s));
        }
        assert forall|g: int, i: int|
            0 <= g < b.lists@.len() && 0 <= i < b.lists@[g].len() implies a.entries@[#[trigger] b.lists@[g][i] as int]->Some_0.key
            == b.entries@[b.lists@[g][i] as int]->Some_0.key by {
            assert(a.gen_ok(g));
            assert(a.link_ok(g, i));
        }
        lemma_key_lists_frame(a.entries@, b.entries@, b.lists@);
        let k = a.ent(idx as int).key;
        assert forall|kk: K| #[trigger] b.map@.contains_key(kk) implies b@.map[kk] == a@.map.insert(
            k,
            b.ent(idx as int).value,
        )[kk] by {
            assert(a.occ(a.map@[kk] as int));
        }
        assert(b@.map =~= a@.map.insert(k, b.ent(idx as int).value));
    }

    /// This state differs from `a` only in the value of slot `idx`.
    spec fn differs_in_value(self, a: Self, idx: usize) -> bool {
        &&& self.entries@.len() == a.entries@.len()
        &&& self.occ(idx as int)
        &&& self.ent(idx as int) == (Entry { value: self.ent(idx as int).value, ..a.ent(idx as int) })
        &&& forall|s: int| 0 <= s < a.entries@.len() && s != idx ==> #[trigger] self.entries@[s] == a.entries@[s]
        &&& self.generations == a.generations
        &&& self.lists == a.lists
        &&& self.same_but_links(a)
    }

    /// `lemma_value_changed`, for every state that differs from `a` only in
    /// the value of slot `idx`.
    proof fn lemma_value_changes(a: Self, idx: usize)
        requires
            a.wf(),
            a.occ(idx as int),
        ensures
            forall|b: Self|
                b.differs_in_value(a, idx) ==> #[trigger] b.wf() && b@.gens == a@.gens && b@.map == a@.map.insert(
                    a.ent(idx as int).key,
                    b.ent(idx as int).value,
                ),
    {
        assert forall|b: Self| b.differs_in_value(a, idx) implies #[trigger] b.wf() && b@.gens == a@.gens
            && b@.map == a@.map.insert(a.ent(idx as int).key, b.ent(idx as int).value) by {
            Self::lemma_value_changed(a, b, idx);
        }
    }

    /// Inserts `value` under `key`, returning the value it replaces. A new key
    /// evicts first when the cache is full, then becomes the head of generation 0.
    #[verifier::rlimit(50)]
    #[verifier::spinoff_prover]
    pub fn insert(&mut self, key: K, value: V) -> (r: Option<V>)
        requires
            old(self).wf(),
        ensures
            final(self).wf(),
            final(self)@ == old(self)@.after_insert(key, value),
            r == (if old(self)@.map.contains_key(key) {
                Some(old(self)@.map[key])
            } else {
                None::<V>
            }),
    {
        proof {
            self.lemma_view_wf();
        }
        if let Some(i) = self.map.get(&key) {
            let idx = *i;
            let ghost a = *self;
            proof {
                assert(self.occ(idx as int));
            }
            let entry = self.entries[idx].as_mut().unwrap();
            let mut value = value;
            core::mem::swap(&mut entry.value, &mut value);
            proof {
                Self::lemma_value_changed(a, *self, idx);
            }
            self.promote(idx);
            return Some(value);
        }
        if self.map.len() >= self.capacity {
            self.evict();
        }
        let ghost a = *self;
        proof {
            self.lemma_view_wf();
            assert(!self.map@.contains_key(key));
        }
        let k2 = key.clone();
        proof {
            assert(vstd::pervasive::strictly_cloned(key, k2));
        }
        let idx = self.alloc_entry(Entry { key: k2, value, generation: 0, prev: None, next: None });
        let ghost m = *self;
        proof {
            assert(!in_gens(a.lists@, idx)) by {
                if in_gens(a.lists@, idx) {
                    let g = choose|g: int| 0 <= g < 4 && #[trigger] a.lists@[g].contains(idx);
                    let i = choose|i: int| 0 <= i < a.lists@[g].len() && a.lists@[g][i] == idx;
                    assert(a.gen_ok(g));
                    assert(a.link_ok(g, i));
                }
            }
            assert(a.total() == a.map@.len());
            assert forall|g: int| 0 <= g < 4 implies #[trigger] self.gen_ok(g) by {
                assert(a.gen_ok(g));
                assert forall|i: int| 0 <= i < self.lists@[g].len() implies #[trigger] self.link_ok(g, i) by {
                    assert(a.link_ok(g, i));
                }
            }
        }
        self.push_front(0, idx);
        let ghost m2 = *self;
        self.map.insert(key, idx);
        proof {
            let ghost b = *self;
            Self::lemma_lists_frame(m2, b);
            assert forall|s: int| 0 <= s < a.entries@.len() && s != idx implies (#[trigger] b.occ(s) <==> a.occ(s)) && (
            a.occ(s) ==> b.ent(s).key == a.ent(s).key && b.ent(s).value == a.ent(s).value && b.ent(
                s,
            ).generation == a.ent(s).generation) by {
                assert(m.entries@[s] == a.entries@[s]);
                assert(b.entries@[s] is Some <==> m.entries@[s] is Some);
                if m.entries@[s] is Some {
                    assert(b.entries@[s]->Some_0.generation == m.entries@[s]->Some_0.generation);
                }
            }
            assert(b.occ(idx as int)) by {
                assert(m.entries@[idx as int] is Some);
            }
            Self::lemma_added(a, b, idx, key, value);
            assert(b@ == old(self)@.after_insert(key, value)) by {
                if old(self)@.map.len() >= old(self)@.capacity {
                    assert(a@ == old(self)@.evicted());
                } else {
                    assert(a == *old(self));
                }
            }
        }
        None
    }

    /// Looks `key` up. A found entry moves to the head of the next younger generation.
    pub fn get(&mut self, key: &K) -> (r: Option<&V>)
        requires
            old(self).wf(),
        ensures
            final(self).wf(),
            final(self)@ == old(self)@.after_get(*key),
            r == (if old(self)@.map.contains_key(*key) {
                Some(&old(self)@.map[*key])
            } else {
                None::<&V>
            }),
    {
        proof {
            self.lemma_view_wf();
        }
        let idx = match self.map.get(key) {
            Some(i) => *i,
            None => return None,
        };
        proof {
            assert(self.occ(idx as int));
            assert(self.ent(idx as int).key == *key);
        }
        self.promote(idx);
        Some(&self.entries[idx].as_ref().unwrap().value)
    }

    /// Looks `key` up for writing. A found entry moves to the head of the next
    /// younger generation; what is written through the reference becomes its value.
    pub fn get_mut(&mut self, key: &K) -> (r: Option<&mut V>)
        requires
            old(self).wf(),
        ensures
            r is Some <==> old(self)@.map.contains_key(*key),
            r is Some ==> *r.unwrap() == old(self)@.map[*key],
            r is Some ==> final(self).wf(),
            r is Some ==> final(self)@.gens == old(self)@.after_get(*key).gens,
            r is Some ==> final(self)@.map == old(self)@.map.insert(*key, *final(r.unwrap())),
            final(self)@.capacity == old(self)@.capacity,
            r is None ==> final(self).wf() && final(self)@ == old(self)@,
    {
        proof {
            self.lemma_view_wf();
        }
        let idx = match self.map.get(key) {
            Some(i) => *i,
            None => return None,
        };
        proof {
            assert(self.occ(idx as int));
            assert(self.ent(idx as int).key == *key);
        }
        self.promote(idx);
        let ghost p = *self;
        proof {
            p.lemma_view_wf();
            Self::lemma_value_changes(p, idx);
        }
        let r = &mut self.entries[idx].as_mut().unwrap().value;
        Some(r)
    }
}

/// The lists during ageing, once generations `2`, ..., `g` have been moved
/// one older.
spec fn aged_from(l: Seq<Seq<usize>>, g: int) -> Seq<Seq<usize>> {
    if g >= 3 {
        l
    } else if g == 2 {
        seq![l[0], l[1], Seq::empty(), l[2] + l[3]]
    } else if g == 1 {
        seq![l[0], Seq::empty(), l[1], l[2] + l[3]]
    } else {
        seq![Seq::empty(), l[0], l[1], l[2] + l[3]]
    }
}

impl<K: Clone + Eq + std::hash::Hash, V> MglruCache<K, V> {
    /// The state after the list of generation `g` has been put in front of
    /// that of generation `g + 1`.
    #[verifier::rlimit(50)]
    #[verifier::spinoff_prover]
    proof fn lemma_merged(a: Self, b: Self, g: int)
        requires
            a.wf(),
            0 <= g < 3,
            a.lists@[g].len() > 0,
            b.same_but_links(a),
            b.lists@ == a.lists@.update(g + 1, a.lists@[g] + a.lists@[g + 1]).update(g, Seq::empty()),
            b.generations@[g].head is None,
            b.generations@[g].tail is None,
            b.generations@[g].len == 0,
            b.generations@[g + 1].head == Some(a.lists@[g][0]),
            b.generations@[g + 1].tail == (if a.lists@[g + 1].len() > 0 {
                Some(a.lists@[g + 1].last())
            } else {
                Some(a.lists@[g].last())
            }),
            b.generations@[g + 1].len == a.lists@[g].len() + a.lists@[g + 1].len(),
            forall|g2: int| 0 <= g2 < 4 && g2 != g && g2 != g + 1 ==> #[trigger] b.generations@[g2] == a.generations@[g2],
            b.entries@.len() == a.entries@.len(),
            forall|s: int|
                0 <= s < a.entries@.len() ==> (#[trigger] b.occ(s) <==> a.occ(s)) && (a.occ(s) ==> {
                    &&& b.ent(s).key == a.ent(s).key
                    &&& b.ent(s).value == a.ent(s).value
                    &&& b.ent(s).generation == (if a.lists@[g].contains(s as usize) {
                        g + 1
                    } else {
                        a.ent(s).generation as int
                    })
                    &&& b.ent(s).next == (if s == a.lists@[g].last() {
                        if a.lists@[g + 1].len() > 0 {
                            Some(a.lists@[g + 1][0])
                        } else {
                            None
                        }
                    } else {
                        a.ent(s).next
                    })
                    &&& b.ent(s).prev == (if a.lists@[g + 1].len() > 0 && s == a.lists@[g + 1][0] {
                        Some(a.lists@[g].last())
                    } else {
                        a.ent(s).prev
                    })
                }),
        ensures
            b.wf(),
            b@.gens == key_lists(a.entries@, b.lists@),
            b@.map == a@.map,
            same_kv(a.entries@, b.entries@),
    {
        let la = a.lists@[g];
        let lb = a.lists@[g + 1];
        let l = b.lists@[g + 1];
        assert(l == la + lb);
        lemma_merge_gens(a.lists@, g);
        assert forall|s: int| 0 <= s < a.entries@.len() implies (#[trigger] a.entries@[s] is Some <==> b.entries@[s] is Some) && (a.entries@[s] is Some ==> (
        a.entries@[s]->Some_0.key == b.entries@[s]->Some_0.key && a.entries@[s]->Some_0.value == b.entries@[s]->Some_0.value)) by {
            assert(b.occ(s) <==> a.occ(s));
        }
        assert(same_kv(a.entries@, b.entries@));
        assert(a.gen_ok(g));
        assert(a.gen_ok(g + 1));
        assert forall|g2: int| 0 <= g2 < 4 implies #[trigger] b.gen_ok(g2) by {
            assert(a.gen_ok(g2));
            if g2 == g + 1 {
                assert forall|j: int| 0 <= j < l.len() implies #[trigger] b.link_ok(g2, j) by {
                    let s = l[j] as int;
                    if j < la.len() {
                        assert(a.link_ok(g, j));
                        assert(s == la[j]);
                        assert(b.occ(s) <==> a.occ(s));
                        assert(la.contains(la[j]));
                        if lb.len() > 0 {
                            assert(la[j] != lb[0]) by {
                                assert(a.lists@[g][j] != a.lists@[g + 1][0]);
                            }
                        }
                        if j + 1 < la.len() {
                            assert(la[j] != la.last());
                        }
                    } else {
                        let jj = j - la.len();
                        assert(a.link_ok(g + 1, jj));
                        assert(s == lb[jj]);
                        assert(b.occ(s) <==> a.occ(s));
                        assert(lb[jj] != la.last()) by {
                            assert(a.lists@[g + 1][jj] != a.lists@[g][la.len() - 1]);
                        }
                        if !la.contains(lb[jj]) {
                        } else {
                            let k = choose|k: int| 0 <= k < la.len() && la[k] == lb[jj];
                            assert(a.lists@[g + 1][jj] != a.lists@[g][k]);
                        }
                        if jj > 0 {
                            assert(lb[jj] != lb[0]);
                        }
                    }
                }
            } else if g2 != g {
                assert forall|j: int| 0 <= j < b.lists@[g2].len() implies #[trigger] b.link_ok(g2, j) by {
                    assert(a.link_ok(g2, j));
                    let s = a.lists@[g2][j];
                    assert(s != la.last()) by {
                        assert(a.lists@[g2][j] != a.lists@[g][la.len() - 1]);
                    }
                    if lb.len() > 0 {
                        assert(s != lb[0]) by {
                            assert(a.lists@[g2][j] != a.lists@[g + 1][0]);
                        }
                    }
                    if la.contains(s) {
                        let k = choose|k: int| 0 <= k < la.len() && la[k] == s;
                        assert(a.lists@[g2][j] != a.lists@[g][k]);
                    }
                    assert(b.occ(s as int) <==> a.occ(s as int));
                    assert(b.ent(s as int).generation == a.ent(s as int).generation);
                    assert(b.ent(s as int).next == a.ent(s as int).next);
                    assert(b.ent(s as int).prev == a.ent(s as int).prev);
                    assert(b.lists@[g2] == a.lists@[g2]);
                }
            }
        }
        assert(b.total() == a.total());
        assert forall|s: int| #[trigger] b.occ(s) implies b.ent(s).generation < 4
            && b.lists@[b.ent(s).generation as int].contains(s as usize) by {
            assert(a.occ(s));
            if la.contains(s as usize) {
                let k = choose|k: int| 0 <= k < la.len() && la[k] == s as usize;
                assert(l[k] == s);
            } else {
                let gs = a.ent(s).generation as int;
                assert(a.lists@[gs].contains(s as usize));
                assert(gs != g);
                if gs == g + 1 {
                    let k = choose|k: int| 0 <= k < lb.len() && lb[k] == s as usize;
                    assert(l[k + la.len()] == s);
                }
            }
        }
        Self::lemma_kv_frame(a, b);
        Self::lemma_map_frame(a, b);
        assert forall|g2: int, i: int|
            0 <= g2 < b.lists@.len() && 0 <= i < b.lists@[g2].len() implies a.entries@[#[trigger] b.lists@[g2][i] as int]->Some_0.key
            == b.entries@[b.lists@[g2][i] as int]->Some_0.key by {
            assert(b.gen_ok(g2));
            assert(b.link_ok(g2, i));
        }
        lemma_key_lists_frame(a.entries@, b.entries@, b.lists@);
    }

    /// Moves every generation one older; the oldest keeps its keys behind
    /// those of the one before it.
    #[verifier::rlimit(60)]
    #[verifier::spinoff_prover]
    pub fn age(&mut self)
        requires
            old(self).wf(),
        ensures
            final(self).wf(),
            final(self)@ == old(self)@.after_age(),
    {
        let ghost l0 = self.lists@;
        let ghost e0 = self.entries@;
        let mut g: usize = MAX_GENERATIONS - 1;
        while g > 0
            invariant
                self.wf(),
                g <= 3,
                l0.len() == 4,
                self.lists@ == aged_from(l0, g as int),
                same_kv(e0, self.entries@),
                self.map == old(self).map,
                self.capacity == old(self).capacity,
                e0 == old(self).entries@,
                l0 == old(self).lists@,
            decreases g,
        {
            g = g - 1;
            proof {
                assert(self.gen_ok(g as int));
                if self.lists@[g as int].len() > 0 {
                    assert(self.link_ok(g as int, 0));
                }
            }
            let src = &self.generations[g];
            if src.head.is_none() {
                proof {
                    assert(self.lists@[g as int].len() == 0);
                    if g == 2 {
                        assert(aged_from(l0, 2)[3] =~= l0[3]);
                        assert(aged_from(l0, 2)[2] =~= l0[2]);
                    } else if g == 1 {
                        assert(aged_from(l0, 1)[2] =~= aged_from(l0, 2)[2]);
                        assert(aged_from(l0, 1)[1] =~= aged_from(l0, 2)[1]);
                    } else {
                        assert(aged_from(l0, 0)[1] =~= aged_from(l0, 1)[1]);
                        assert(aged_from(l0, 0)[0] =~= aged_from(l0, 1)[0]);
                    }
                    assert(aged_from(l0, g as int) =~= aged_from(l0, g + 1));
                }
                continue;
            }
            let ghost a = *self;
            let ghost la = a.lists@[g as int];
            let ghost lb = a.lists@[g + 1];
            proof {
                assert(a.gen_ok(g + 1));
                if lb.len() > 0 {
                    assert(a.link_ok(g + 1, 0));
                    assert(a.link_ok(g + 1, lb.len() - 1));
                }
                assert(a.link_ok(g as int, la.len() - 1));
                assert(a.total() == a.map@.len());
                assert(a.entries@.len() == a.entries.len());
            }
            let src_head = src.head.unwrap();
            let src_tail = src.tail.unwrap();
            let src_len = src.len;
            let mut cursor = Some(src_head);
            let ghost mut i: int = 0;
            while cursor.is_some()
                invariant
                    a.wf(),
                    la == a.lists@[g as int],
                    g < 3,
                    0 <= i <= la.len(),
                    a.entries@.len() <= usize::MAX,
                    cursor == (if i < la.len() {
                        Some(la[i])
                    } else {
                        None::<usize>
                    }),
                    self.entries@.len() == a.entries@.len(),
                    self.same_but_links(a),
                    self.generations == a.generations,
                    self.lists == a.lists,
                    forall|s: int|
                        0 <= s < a.entries@.len() ==> #[trigger] self.entries@[s] == (if la.take(i).contains(s as usize) {
                            Some(Entry { generation: (g + 1) as usize, ..a.ent(s) })
                        } else {
                            a.entries@[s]
                        }),
                decreases la.len() - i,
            {
                let c = cursor.unwrap();
                proof {
                    assert(a.gen_ok(g as int));
                    assert(a.link_ok(g as int, i));
                    assert(!la.take(i).contains(c)) by {
                        if la.take(i).contains(c) {
                            let k = choose|k: int| 0 <= k < i && la.take(i)[k] == c;
                            assert(la[k] != la[i]);
                        }
                    }
                }
                let ghost before = self.entries@;
                let e = self.entries[c].as_mut().unwrap();
                e.generation = g + 1;
                cursor = e.next;
                proof {
                    assert(before[la[i] as int] == a.entries@[la[i] as int]);
                    assert(self.entries@[la[i] as int] == Some(Entry { generation: (g + 1) as usize, ..a.ent(la[i] as int) }));
                    assert forall|s: int| 0 <= s < a.entries@.len() implies #[trigger] self.entries@[s] == (if la.take(i + 1).contains(s as usize) {
                        Some(Entry { generation: (g + 1) as usize, ..a.ent(s) })
                    } else {
                        a.entries@[s]
                    }) by {
                        assert(la.take(i + 1) =~= la.take(i).push(la[i]));
                        if s != la[i] {
                            assert(self.entries@[s] == before[s]);
                            let t1 = la.take(i + 1);
                            let t0 = la.take(i);
                            if t1.contains(s as usize) {
                                let k = choose|k: int| 0 <= k < t1.len() && t1[k] == s as usize;
                                assert(t1[k] == la[k]);
                                assert(k < i);
                                assert(t0[k] == s as usize);
                            }
                            if t0.contains(s as usize) {
                                let k = choose|k: int| 0 <= k < t0.len() && t0[k] == s as usize;
                                assert(t1[k] == s as usize);
                            }
                        } else {
                            assert(la.take(i + 1)[i] == la[i]);
                        }
                    }
                    i = i + 1;
                }
            }
            proof {
                if i < la.len() {
                    assert(a.link_ok(g as int, i));
                }
                assert(la.take(i) =~= la);
            }
            let ghost e_gen = self.entries@;
            let dst_head = self.generations[g + 1].head;
            self.entries[src_tail].as_mut().unwrap().next = dst_head;
            let ghost e_tail = self.entries@;
            if let Some(dh) = dst_head {
                self.entries[dh].as_mut().unwrap().prev = Some(src_tail);
            }
            let dst_new_tail = if self.generations[g + 1].tail.is_some() {
                self.generations[g + 1].tail
            } else {
                Some(src_tail)
            };
            let dst_new_len = self.generations[g + 1].len + src_len;
            self.generations[g + 1].head = Some(src_head);
            self.generations[g + 1].tail = dst_new_tail;
            self.generations[g + 1].len = dst_new_len;
            self.generations[g] = Generation::new();
            proof {
                self.lists@ = a.lists@.update(g + 1, la + lb).update(g as int, Seq::empty());
                assert forall|s: int|
                    0 <= s < a.entries@.len() implies (#[trigger] self.occ(s) <==> a.occ(s)) && (a.occ(s) ==> {
                        &&& self.ent(s).key == a.ent(s).key
                        &&& self.ent(s).value == a.ent(s).value
                        &&& self.ent(s).generation == (if la.contains(s as usize) {
                            g + 1
                        } else {
                            a.ent(s).generation as int
                        })
                        &&& self.ent(s).next == (if s == la.last() {
                            if lb.len() > 0 {
                                Some(lb[0])
                            } else {
                                None
                            }
                        } else {
                            a.ent(s).next
                        })
                        &&& self.ent(s).prev == (if lb.len() > 0 && s == lb[0] {
                            Some(la.last())
                        } else {
                            a.ent(s).prev
                        })
                    }) by {
                    if lb.len() > 0 {
                        assert(la.last() != lb[0]) by {
                            assert(a.lists@[g as int][la.len() - 1] != a.lists@[g + 1][0]);
                        }
                    }
                    assert(e_gen[s] == (if la.contains(s as usize) {
                        Some(Entry { generation: (g + 1) as usize, ..a.ent(s) })
                    } else {
                        a.entries@[s]
                    }));
                    assert(la[la.len() - 1] == src_tail);
                    assert(la.contains(src_tail));
                    if lb.len() > 0 {
                        assert(dst_head == Some(lb[0]));
                        if la.contains(lb[0]) {
                            let k = choose|k: int| 0 <= k < la.len() && la[k] == lb[0];
                            assert(a.lists@[g as int][k] != a.lists@[g + 1][0]);
                        }
                    } else {
                        assert(dst_head is None);
                    }
                    if s == src_tail {
                        assert(self.entries@[s] == Some(Entry { next: dst_head, ..e_gen[s]->Some_0 }));
                    } else if lb.len() > 0 && s == lb[0] {
                        assert(e_tail[s] == e_gen[s]);
                        assert(self.entries@[s] == Some(Entry { prev: Some(src_tail), ..e_gen[s]->Some_0 }));
                    } else {
                        assert(e_tail[s] == e_gen[s]);
                        assert(self.entries@[s] == e_gen[s]);
                    }
                    if la.contains(s as usize) {
                        let k = choose|k: int| 0 <= k < la.len() && la[k] == s as usize;
                        assert(a.link_ok(g as int, k));
                    }
                    assert(self.occ(s) <==> a.occ(s));
                }
                Self::lemma_merged(a, *self, g as int);
                lemma_same_kv_trans(e0, a.entries@, self.entries@);
                assert(self.lists@ =~= aged_from(l0, g as int));
            }
        }
        proof {
            assert forall|g2: int, i: int|
                0 <= g2 < self.lists@.len() && 0 <= i < self.lists@[g2].len() implies e0[#[trigger] self.lists@[g2][i] as int]->Some_0.key
                == self.entries@[self.lists@[g2][i] as int]->Some_0.key by {
                assert(self.gen_ok(g2));
                assert(self.link_ok(g2, i));
            }
            lemma_key_lists_frame(e0, self.entries@, self.lists@);
            Self::lemma_map_frame(*old(self), *self);
            let gs = key_lists(e0, l0);
            assert(key_lists(e0, self.lists@)[0] =~= Seq::<K>::empty());
            assert(key_lists(e0, self.lists@)[1] =~= gs[0]);
            assert(key_lists(e0, self.lists@)[2] =~= gs[1]);
            assert(key_lists(e0, self.lists@)[3] =~= gs[2] + gs[3]);
            assert(key_lists(e0, self.lists@) =~= aged(gs));
        }
    }
}

} // verus!
