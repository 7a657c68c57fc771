//! Open addressing with linear probing, as mathematics.
//!
//! A table is a sequence of buckets; a bucket holds a slot number or `NONE`.
//! Each stored slot has a home bucket, and probing walks forward from the home,
//! wrapping at the end of the table. A table is sound when every stored slot
//! can be reached from its home without crossing an empty bucket.
use vstd::prelude::*;

verus! {

/// Marks an empty bucket, or a missing neighbour in a list.
pub const NONE: usize = usize::MAX;

/// Index `i` of a table of `n` buckets, for `0 <= i < 2 * n`.
pub open spec fn wrap(i: int, n: int) -> int {
    if i < n {
        i
    } else {
        i - n
    }
}

/// How many steps forward lead from bucket `from` to bucket `to`.
pub open spec fn dist(from: int, to: int, n: int) -> int {
    if from <= to {
        to - from
    } else {
        to + n - from
    }
}

/// The bucket `d` steps after `h`.
pub open spec fn step(h: int, d: int, n: int) -> int {
    wrap(h + d, n)
}

/// The first empty bucket from `h` is `d` steps after it.
pub open spec fn first_empty(b: Seq<usize>, h: int, d: int) -> bool {
    &&& 0 <= d < b.len()
    &&& forall|e: int| 0 <= e < d ==> #[trigger] b[step(h, e, b.len() as int)] != NONE
    &&& b[step(h, d, b.len() as int)] == NONE
}

/// The slot in bucket `x`, if any, is reached from its home without crossing
/// an empty bucket.
pub open spec fn reaches(b: Seq<usize>, home: spec_fn(usize) -> int, x: int) -> bool {
    b[x] != NONE ==> {
        &&& 0 <= home(b[x]) < b.len()
        &&& forall|d: int|
            0 <= d < dist(home(b[x]), x, b.len() as int) ==> #[trigger] b[step(
                home(b[x]),
                d,
                b.len() as int,
            )] != NONE
    }
}

/// There is one first empty bucket from `h`.
pub proof fn lemma_first_empty_unique(b: Seq<usize>, h: int, d1: int, d2: int)
    requires
        first_empty(b, h, d1),
        first_empty(b, h, d2),
    ensures
        d1 == d2,
{
    let n = b.len() as int;
    if d1 < d2 {
        assert(b[step(h, d1, n)] != NONE);
    } else if d2 < d1 {
        assert(b[step(h, d2, n)] != NONE);
    }
}

/// The table after a removal that emptied bucket `x0` has dealt with the
/// buckets from `t` steps after it on: up to the first empty bucket, each
/// slot in turn is taken out of its bucket and put in the first empty bucket
/// from its home.
pub open spec fn shift_back(
    b: Seq<usize>,
    home: spec_fn(usize) -> int,
    x0: int,
    t: int,
    fuel: nat,
) -> Seq<usize>
    decreases fuel,
{
    let n = b.len() as int;
    let z = step(x0, t, n);
    if fuel == 0 || b[z] == NONE {
        b
    } else {
        let s = b[z];
        let c = b.update(z, NONE);
        let d = choose|d: int| #[trigger] first_empty(c, home(s), d);
        shift_back(c.update(step(home(s), d, n), s), home, x0, t + 1, (fuel - 1) as nat)
    }
}

/// The table after the slot in bucket `x0` is removed: the bucket is emptied
/// and the rest of its run is shifted back.
pub open spec fn removed_at(b: Seq<usize>, home: spec_fn(usize) -> int, x0: int) -> Seq<usize> {
    shift_back(b.update(x0, NONE), home, x0, 1, b.len())
}

/// Every stored slot is reached from its home.
pub open spec fn probe_ok(b: Seq<usize>, home: spec_fn(usize) -> int) -> bool {
    forall|x: int| 0 <= x < b.len() ==> #[trigger] reaches(b, home, x)
}

/// Bucket `x` holds slot `s`.
pub open spec fn holds(b: Seq<usize>, s: usize) -> bool {
    exists|x: int| 0 <= x < b.len() && b[x] == s
}

/// No slot is stored twice, and every stored slot is below `m`.
pub open spec fn distinct_below(b: Seq<usize>, m: int) -> bool {
    &&& forall|x: int| 0 <= x < b.len() && b[x] != NONE ==> #[trigger] b[x] < m
    &&& forall|x: int, y: int|
        0 <= x < b.len() && 0 <= y < b.len() && x != y && b[x] != NONE ==> #[trigger] b[x]
            != #[trigger] b[y]
}

/// Emptying the bucket of slot `s` takes `s`, and only `s`, out of the table.
pub proof fn lemma_take(b: Seq<usize>, m: int, x: int)
    requires
        distinct_below(b, m),
        0 <= x < b.len(),
        b[x] != NONE,
    ensures
        distinct_below(b.update(x, NONE), m),
        forall|t: usize| t != NONE ==> (holds(b.update(x, NONE), t) <==> (holds(b, t) && t != b[x])),
{
    let b1 = b.update(x, NONE);
    assert forall|t: usize| t != NONE implies (holds(b1, t) <==> (holds(b, t) && t != b[x])) by {
        if holds(b1, t) {
            let y = choose|y: int| 0 <= y < b1.len() && b1[y] == t;
            assert(b[y] == t);
            if t == b[x] {
                assert(b[x] != b[y]);
            }
        }
        if holds(b, t) && t != b[x] {
            let y = choose|y: int| 0 <= y < b.len() && b[y] == t;
            assert(b1[y] == t);
        }
    }
}

/// Moving slot `b[x]` to the empty bucket `y` keeps the table's contents.
pub proof fn lemma_move(b: Seq<usize>, m: int, x: int, y: int)
    requires
        distinct_below(b, m),
        0 <= x < b.len(),
        0 <= y < b.len(),
        b[x] != NONE,
        b.update(x, NONE)[y] == NONE,
    ensures
        distinct_below(b.update(x, NONE).update(y, b[x]), m),
        forall|t: usize| t != NONE ==> (holds(b.update(x, NONE).update(y, b[x]), t) <==> holds(b, t)),
        forall|z: int|
            0 <= z < b.len() && #[trigger] b.update(x, NONE).update(y, b[x])[z] != NONE ==> (z == y
                || b[z] == b.update(x, NONE).update(y, b[x])[z]),
{
    let s = b[x];
    let b1 = b.update(x, NONE);
    let b2 = b1.update(y, s);
    lemma_take(b, m, x);
    assert forall|t: usize| t != NONE implies (holds(b2, t) <==> holds(b, t)) by {
        if holds(b2, t) {
            let z = choose|z: int| 0 <= z < b2.len() && b2[z] == t;
            if z == y {
                assert(b[x] == t);
            } else {
                assert(holds(b1, t));
            }
        }
        if holds(b, t) {
            if t == s {
                assert(b2[y] == t);
            } else {
                assert(holds(b1, t));
                let z = choose|z: int| 0 <= z < b1.len() && b1[z] == t;
                assert(b2[z] == t);
            }
        }
    }
    assert forall|z1: int, z2: int|
        0 <= z1 < b2.len() && 0 <= z2 < b2.len() && z1 != z2 && b2[z1] != NONE implies #[trigger] b2[z1]
        != #[trigger] b2[z2] by {
        if z1 == y {
            if b2[z2] == s {
                assert(holds(b1, s));
            }
        } else if z2 == y {
            if b2[z1] == s {
                assert(holds(b1, s));
            }
        }
    }
}

/// Storing a new slot in an empty bucket adds it, and only it, to the table.
pub proof fn lemma_put(b: Seq<usize>, m: int, y: int, s: usize)
    requires
        distinct_below(b, m),
        0 <= y < b.len(),
        b[y] == NONE,
        !holds(b, s),
        s < m,
    ensures
        distinct_below(b.update(y, s), m),
        forall|t: usize| t != NONE ==> (holds(b.update(y, s), t) <==> (holds(b, t) || t == s)),
{
    let b1 = b.update(y, s);
    assert forall|t: usize| t != NONE implies (holds(b1, t) <==> (holds(b, t) || t == s)) by {
        if holds(b1, t) && t != s {
            let z = choose|z: int| 0 <= z < b1.len() && b1[z] == t;
            assert(b[z] == t);
        }
        if holds(b, t) {
            let z = choose|z: int| 0 <= z < b.len() && b[z] == t;
            assert(z != y);
            assert(b1[z] == t);
        }
        if t == s {
            assert(b1[y] == s);
        }
    }
    assert forall|z1: int, z2: int|
        0 <= z1 < b1.len() && 0 <= z2 < b1.len() && z1 != z2 && b1[z1] != NONE implies #[trigger] b1[z1]
        != #[trigger] b1[z2] by {
        if z1 == y && b1[z2] == s {
            assert(holds(b, s));
        }
        if z2 == y && b1[z1] == s {
            assert(holds(b, s));
        }
    }
}

/// Walking `dist(h, x)` steps from `h` ends at `x`, and distinct step counts
/// below `n` end at distinct buckets.
pub proof fn lemma_step(h: int, x: int, n: int)
    requires
        0 <= h < n,
        0 <= x < n,
    ensures
        0 <= dist(h, x, n) < n,
        step(h, dist(h, x, n), n) == x,
        forall|d: int| 0 <= d < n ==> 0 <= #[trigger] step(h, d, n) < n,
        forall|d1: int, d2: int|
            0 <= d1 < n && 0 <= d2 < n && d1 != d2 ==> #[trigger] step(h, d1, n) != #[trigger] step(
                h,
                d2,
                n,
            ),
        forall|d: int| 0 <= d < n ==> dist(h, #[trigger] step(h, d, n), n) == d,
{
}

/// A table whose buckets are all full cannot hold more distinct slots than
/// there are slot numbers.
pub proof fn lemma_not_full(b: Seq<usize>, m: int)
    requires
        0 <= m,
        distinct_below(b, m),
        b.len() > m,
    ensures
        exists|x: int| 0 <= x < b.len() && b[x] == NONE,
{
    if forall|x: int| 0 <= x < b.len() ==> b[x] != NONE {
        let s = b.map_values(|u: usize| u as int);
        assert forall|i: int, j: int| 0 <= i < s.len() && 0 <= j < s.len() && i != j implies s[i]
            != s[j] by {
            assert(b[i] != b[j]);
        }
        assert(s.no_duplicates());
        s.unique_seq_to_set();
        let r = vstd::set_lib::set_int_range(0, m);
        assert forall|v: int| s.to_set().contains(v) implies r.contains(v) by {
            let i = choose|i: int| 0 <= i < s.len() && s[i] == v;
            assert(b[i] < m);
        }
        vstd::set_lib::lemma_int_range(0, m);
        vstd::set_lib::lemma_len_subset(s.to_set(), r);
        assert(false);
    }
}

/// A probe from `h` that stops at step `d` on an empty bucket (or after the
/// whole table) has met, before that step, every bucket `y` whose slot has
/// home `h`.
pub proof fn lemma_probe_meets(b: Seq<usize>, home: spec_fn(usize) -> int, h: int, y: int, d: int)
    requires
        probe_ok(b, home),
        0 <= y < b.len(),
        b[y] != NONE,
        home(b[y]) == h,
        0 <= d <= b.len(),
        d < b.len() ==> b[step(h, d, b.len() as int)] == NONE,
    ensures
        dist(h, y, b.len() as int) < d,
        step(h, dist(h, y, b.len() as int), b.len() as int) == y,
{
    let n = b.len() as int;
    assert(reaches(b, home, y));
    lemma_step(h, y, n);
    let dd = dist(h, y, n);
    if dd > d {
        assert(b[step(h, d, n)] != NONE);
    }
}

/// Filling an empty bucket keeps every other bucket reached.
pub proof fn lemma_fill_keeps(
    b: Seq<usize>,
    home: spec_fn(usize) -> int,
    pos: int,
    s: usize,
    x: int,
)
    requires
        0 <= pos < b.len(),
        0 <= x < b.len(),
        x != pos,
        b[pos] == NONE,
        reaches(b, home, x),
    ensures
        reaches(b.update(pos, s), home, x),
{
    let b2 = b.update(pos, s);
    if b2[x] != NONE {
        assert forall|d: int|
            0 <= d < dist(home(b2[x]), x, b2.len() as int) implies #[trigger] b2[step(
                home(b2[x]),
                d,
                b2.len() as int,
            )] != NONE by {
            assert(b[step(home(b[x]), d, b.len() as int)] != NONE);
        }
    }
}

/// The bucket found as the first empty one from the home of `s` reaches `s`.
pub proof fn lemma_fill_reaches(b: Seq<usize>, home: spec_fn(usize) -> int, s: usize, d: int)
    requires
        0 <= home(s) < b.len(),
        0 <= d < b.len(),
        forall|e: int| 0 <= e < d ==> #[trigger] b[step(home(s), e, b.len() as int)] != NONE,
        s != NONE,
    ensures
        reaches(b.update(step(home(s), d, b.len() as int), s), home, step(home(s), d, b.len() as int)),
{
    let n = b.len() as int;
    let h = home(s);
    lemma_step(h, 0, n);
    let y = step(h, d, n);
    let b2 = b.update(y, s);
    assert(dist(h, y, n) == d);
    assert forall|e: int| 0 <= e < dist(home(b2[y]), y, n) implies #[trigger] b2[step(
        home(b2[y]),
        e,
        n,
    )] != NONE by {
        assert(step(h, e, n) != y);
        assert(b[step(h, e, n)] != NONE);
    }
}

/// Filling the first empty bucket from the home of a new slot keeps a sound
/// table sound.
pub proof fn lemma_fill(b: Seq<usize>, home: spec_fn(usize) -> int, s: usize, d: int)
    requires
        probe_ok(b, home),
        0 <= home(s) < b.len(),
        0 <= d < b.len(),
        forall|e: int| 0 <= e < d ==> #[trigger] b[step(home(s), e, b.len() as int)] != NONE,
        b[step(home(s), d, b.len() as int)] == NONE,
        s != NONE,
    ensures
        probe_ok(b.update(step(home(s), d, b.len() as int), s), home),
{
    let n = b.len() as int;
    lemma_step(home(s), 0, n);
    let y = step(home(s), d, n);
    lemma_fill_reaches(b, home, s, d);
    assert forall|x: int| 0 <= x < b.len() implies #[trigger] reaches(b.update(y, s), home, x) by {
        if x != y {
            assert(reaches(b, home, x));
            lemma_fill_keeps(b, home, y, s, x);
        }
    }
}

/// The state of a removal that emptied bucket `x0`: the buckets `1 .. e`
/// steps after `x0` were full before it and the bucket `e` steps after was
/// empty. The first `t` of them have been dealt with; the others still wait
/// and their homes do not lie between them and the empty bucket. Every other
/// stored slot is reached.
pub open spec fn removal_inv(
    b: Seq<usize>,
    home: spec_fn(usize) -> int,
    x0: int,
    e: int,
    t: int,
) -> bool {
    let n = b.len() as int;
    &&& 0 <= x0 < n
    &&& 1 <= t <= e < n
    &&& b[step(x0, e, n)] == NONE
    &&& forall|u: int|
        t <= u < e ==> {
            &&& #[trigger] b[step(x0, u, n)] != NONE
            &&& 0 <= home(b[step(x0, u, n)]) < n
            &&& !(u < dist(x0, home(b[step(x0, u, n)]), n) <= e)
        }
    &&& forall|x: int|
        0 <= x < n && b[x] != NONE && !(t <= dist(x0, x, n) < e) ==> #[trigger] reaches(b, home, x)
}

/// Finds the first empty bucket after `x0`, searching from `d` steps on.
proof fn first_empty_after(b: Seq<usize>, x0: int, d: int) -> (e: int)
    requires
        0 <= x0 < b.len(),
        1 <= d <= b.len(),
        exists|z: int| 0 <= z < b.len() && b[z] == NONE && dist(x0, z, b.len() as int) >= d,
    ensures
        d <= e < b.len(),
        b[step(x0, e, b.len() as int)] == NONE,
        forall|u: int| d <= u < e ==> #[trigger] b[step(x0, u, b.len() as int)] != NONE,
    decreases b.len() - d,
{
    let n = b.len() as int;
    let z = choose|z: int| 0 <= z < b.len() && b[z] == NONE && dist(x0, z, n) >= d;
    lemma_step(x0, z, n);
    if b[step(x0, d, n)] == NONE {
        d
    } else {
        assert(dist(x0, z, n) != d);
        first_empty_after(b, x0, d + 1)
    }
}

/// Emptying the bucket of a stored slot starts a removal.
pub proof fn lemma_removal_start(b: Seq<usize>, home: spec_fn(usize) -> int, x0: int) -> (e: int)
    requires
        probe_ok(b, home),
        0 <= x0 < b.len(),
        b[x0] != NONE,
        exists|z: int| 0 <= z < b.len() && b[z] == NONE,
    ensures
        removal_inv(b.update(x0, NONE), home, x0, e, 1),
{
    let n = b.len() as int;
    lemma_step(x0, 0, n);
    let z = choose|z: int| 0 <= z < b.len() && b[z] == NONE;
    lemma_step(x0, z, n);
    assert(z != x0);
    let e = first_empty_after(b, x0, 1);
    let b1 = b.update(x0, NONE);
    let ex = step(x0, e, n);
    assert forall|u: int| 1 <= u < e implies {
        &&& #[trigger] b1[step(x0, u, n)] != NONE
        &&& 0 <= home(b1[step(x0, u, n)]) < n
        &&& !(u < dist(x0, home(b1[step(x0, u, n)]), n) <= e)
    } by {
        let x = step(x0, u, n);
        assert(b[x] != NONE);
        assert(reaches(b, home, x));
        let h = home(b[x]);
        if u < dist(x0, h, n) <= e {
            lemma_step(h, ex, n);
            assert(b[step(h, dist(h, ex, n), n)] != NONE);
        }
    }
    assert forall|x: int|
        0 <= x < n && b1[x] != NONE && !(1 <= dist(x0, x, n) < e) implies #[trigger] reaches(
        b1,
        home,
        x,
    ) by {
        assert(reaches(b, home, x));
        let h = home(b[x]);
        lemma_step(h, x, n);
        lemma_step(h, x0, n);
        assert forall|d: int| 0 <= d < dist(h, x, n) implies #[trigger] b1[step(h, d, n)] != NONE by {
            if step(h, d, n) == x0 {
                let d2 = d + e;
                assert(b[step(h, d2, n)] != NONE);
            }
        }
    }
    e
}

/// Taking the next waiting slot out and filling the first empty bucket from
/// its home moves a removal one step on.
pub proof fn lemma_removal_step(
    b: Seq<usize>,
    home: spec_fn(usize) -> int,
    x0: int,
    e: int,
    t: int,
    d: int,
)
    requires
        removal_inv(b, home, x0, e, t),
        t < e,
        0 <= d < b.len(),
        forall|k: int|
            0 <= k < d ==> #[trigger] b.update(step(x0, t, b.len() as int), NONE)[step(
                home(b[step(x0, t, b.len() as int)]),
                k,
                b.len() as int,
            )] != NONE,
        b.update(step(x0, t, b.len() as int), NONE)[step(
            home(b[step(x0, t, b.len() as int)]),
            d,
            b.len() as int,
        )] == NONE,
    ensures
        ({
            let n = b.len() as int;
            let x = step(x0, t, n);
            let s = b[x];
            let b2 = b.update(x, NONE);
            let y = step(home(s), d, n);
            &&& y != step(x0, e, n)
            &&& !(t < dist(x0, y, n) <= e)
            &&& removal_inv(b2.update(y, s), home, x0, e, t + 1)
        }),
{
    let n = b.len() as int;
    let x = step(x0, t, n);
    let s = b[x];
    let h = home(s);
    let b2 = b.update(x, NONE);
    let y = step(h, d, n);
    let b3 = b2.update(y, s);
    lemma_step(x0, 0, n);
    lemma_step(h, x, n);
    lemma_step(h, 0, n);
    lemma_step(x0, h, n);
    // The first empty bucket from the home comes no later than `x`.
    assert(d <= dist(h, x, n)) by {
        if d > dist(h, x, n) {
            assert(b2[step(h, dist(h, x, n), n)] != NONE);
        }
    }
    lemma_step(x0, y, n);
    assert(!(t < dist(x0, y, n) <= e));
    assert forall|u: int| t + 1 <= u < e implies {
        &&& #[trigger] b3[step(x0, u, n)] != NONE
        &&& 0 <= home(b3[step(x0, u, n)]) < n
        &&& !(u < dist(x0, home(b3[step(x0, u, n)]), n) <= e)
    } by {
        assert(step(x0, u, n) != x);
        assert(dist(x0, step(x0, u, n), n) == u);
        assert(b3[step(x0, u, n)] == b[step(x0, u, n)]);
    }
    assert forall|z: int|
        0 <= z < n && b3[z] != NONE && !(t + 1 <= dist(x0, z, n) < e) implies #[trigger] reaches(
        b3,
        home,
        z,
    ) by {
        if z == y {
            assert(forall|k: int| 0 <= k < d ==> #[trigger] b2[step(h, k, n)] != NONE);
            lemma_fill_reaches(b2, home, s, d);
        } else {
            assert(b[z] != NONE);
            assert(z != x);
            lemma_step(x0, z, n);
            assert(dist(x0, z, n) != t);
            assert(reaches(b, home, z));
            let hz = home(b[z]);
            lemma_step(hz, z, n);
            lemma_step(hz, x, n);
            assert(reaches(b2, home, z)) by {
                assert forall|k: int| 0 <= k < dist(hz, z, n) implies #[trigger] b2[step(
                    hz,
                    k,
                    n,
                )] != NONE by {
                    if step(hz, k, n) == x {
                        let k2 = k + (e - t);
                        assert(b[step(hz, k2, n)] != NONE);
                    }
                }
            }
            lemma_fill_keeps(b2, home, y, s, z);
        }
    }
}

/// A removal that has dealt with every waiting slot leaves a sound table.
pub proof fn lemma_removal_end(b: Seq<usize>, home: spec_fn(usize) -> int, x0: int, e: int)
    requires
        removal_inv(b, home, x0, e, e),
    ensures
        probe_ok(b, home),
{
    assert forall|x: int| 0 <= x < b.len() implies #[trigger] reaches(b, home, x) by {
        if b[x] != NONE {
            assert(reaches(b, home, x));
        }
    }
}

} // verus!
