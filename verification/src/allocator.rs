//! Bookkeeping of the free sectors of a region file.
//!
//! The free space is a map from the first sector of each free run to the
//! length of that run. It is kept as a vector sorted by first sector, which
//! answers the same ordered queries as a search tree.
use vstd::prelude::*;

verus! {

/// Keys strictly increase along the vector.
pub open spec fn sorted_keys(s: Seq<(usize, usize)>) -> bool {
    forall|i: int, j: int| 0 <= i < j < s.len() ==> s[i].0 < s[j].0
}

pub open spec fn seq_has_key(s: Seq<(usize, usize)>, k: usize) -> bool {
    exists|i: int| 0 <= i < s.len() && s[i].0 == k
}

/// The map that a vector of `(key, value)` pairs stands for.
pub open spec fn seq_to_map(s: Seq<(usize, usize)>) -> Map<usize, usize> {
    Map::new(
        |k: usize| seq_has_key(s, k),
        |k: usize| s[choose|i: int| 0 <= i < s.len() && s[i].0 == k].1,
    )
}

/// No run reaches past the last addressable sector.
pub open spec fn runs_in_range(m: Map<usize, usize>) -> bool {
    forall|k: usize| m.dom().contains(k) ==> k + m[k] <= usize::MAX
}

/// `k` is the greatest key that is at most `b`.
pub open spec fn is_floor_key(m: Map<usize, usize>, b: usize, k: usize) -> bool {
    &&& m.dom().contains(k)
    &&& k <= b
    &&& forall|k2: usize| m.dom().contains(k2) && k2 <= b ==> k2 <= k
}

pub open spec fn has_key_at_most(m: Map<usize, usize>, b: usize) -> bool {
    exists|k: usize| m.dom().contains(k) && k <= b
}

/// `k` is the greatest key strictly below `o`.
pub open spec fn is_strict_floor_key(m: Map<usize, usize>, o: usize, k: usize) -> bool {
    &&& m.dom().contains(k)
    &&& k < o
    &&& forall|k2: usize| m.dom().contains(k2) && k2 < o ==> k2 <= k
}

pub open spec fn has_key_below(m: Map<usize, usize>, o: usize) -> bool {
    exists|k: usize| m.dom().contains(k) && k < o
}

/// `k` is the least key that is at least `o`.
pub open spec fn is_ceil_key(m: Map<usize, usize>, o: usize, k: usize) -> bool {
    &&& m.dom().contains(k)
    &&& o <= k
    &&& forall|k2: usize| m.dom().contains(k2) && o <= k2 ==> k <= k2
}

pub open spec fn has_key_at_least(m: Map<usize, usize>, o: usize) -> bool {
    exists|k: usize| m.dom().contains(k) && o <= k
}

/// `k` starts the first run, in key order, that holds at least `c` sectors.
pub open spec fn is_first_fit(m: Map<usize, usize>, c: usize, k: usize) -> bool {
    &&& m.dom().contains(k)
    &&& c <= m[k]
    &&& forall|k2: usize| m.dom().contains(k2) && k2 < k ==> m[k2] < c
}

pub open spec fn has_fit(m: Map<usize, usize>, c: usize) -> bool {
    exists|k: usize| m.dom().contains(k) && c <= m[k]
}

/// Outcome of `mark_allocated`: whether `[b, b + c)` lay inside the run that
/// starts at the greatest key at most `b`, and the free map afterwards.
pub open spec fn spec_mark_allocated(m: Map<usize, usize>, b: usize, c: usize) -> (bool, Map<usize, usize>) {
    if c == 0 || !has_key_at_most(m, b) {
        (false, m)
    } else {
        let k = choose|k: usize| is_floor_key(m, b, k);
        let end = k + m[k];
        if b + c > end {
            (false, m)
        } else {
            let m1 = m.remove(k);
            let m2 = if b > k {
                m1.insert(k, (b - k) as usize)
            } else {
                m1
            };
            let m3 = if b + c < end {
                m2.insert((b + c) as usize, (end - (b + c)) as usize)
            } else {
                m2
            };
            (true, m3)
        }
    }
}

/// Outcome of `allocate`: the first run in key order with room for `c`
/// sectors gives up its first `c` sectors.
pub open spec fn spec_allocate(m: Map<usize, usize>, c: usize) -> (Option<usize>, Map<usize, usize>) {
    if c == 0 || !has_fit(m, c) {
        (None, m)
    } else {
        let k = choose|k: usize| is_first_fit(m, c, k);
        let len = m[k];
        if len > c {
            (Some(k), m.remove(k).insert((k + c) as usize, (len - c) as usize))
        } else {
            (Some(k), m.remove(k))
        }
    }
}

/// Outcome of `free`: `[o, o + c)` becomes a run, merged with the run that
/// ends exactly at `o` (the one with the greatest key below `o`) and with the
/// run that starts exactly at `o + c` (the one with the least key at least `o`).
pub open spec fn spec_free(m: Map<usize, usize>, o: usize, c: usize) -> Map<usize, usize> {
    if c == 0 {
        m
    } else {
        let p = choose|k: usize| is_strict_floor_key(m, o, k);
        let merge_prev = has_key_below(m, o) && p + m[p] == o;
        let q = choose|k: usize| is_ceil_key(m, o, k);
        let merge_next = has_key_at_least(m, o) && o + c == q;
        let start = if merge_prev {
            p
        } else {
            o
        };
        let len1 = if merge_prev {
            c + m[p]
        } else {
            c as int
        };
        let len2 = if merge_next {
            len1 + m[q]
        } else {
            len1
        };
        let m1 = if merge_prev {
            m.remove(p)
        } else {
            m
        };
        let m2 = if merge_next {
            m1.remove(q)
        } else {
            m1
        };
        m2.insert(start, len2 as usize)
    }
}


/// Sectors that the free runs of `m` cover.
pub open spec fn free_sectors(m: Map<usize, usize>) -> Set<int> {
    Set::new(|x: int| exists|k: usize| m.dom().contains(k) && k <= x < k + m[k])
}

/// The sectors `[a, a + c)`.
pub open spec fn sector_range(a: int, c: int) -> Set<int> {
    Set::new(|x: int| a <= x < a + c)
}

/// Runs are non-empty, pairwise disjoint and never touch one another, so
/// that each free stretch of sectors is exactly one run.
pub open spec fn canonical(m: Map<usize, usize>) -> bool {
    &&& forall|k: usize| m.dom().contains(k) ==> m[k] > 0
    &&& forall|k1: usize, k2: usize|
        m.dom().contains(k1) && m.dom().contains(k2) && k1 < k2 ==> k1 + m[k1] < k2
}


/// The least key with room for `c` sectors exists once some key has room.
proof fn lemma_first_fit_exists(m: Map<usize, usize>, c: usize, k0: usize) -> (k: usize)
    requires
        m.dom().contains(k0),
        c <= m[k0],
    ensures
        is_first_fit(m, c, k),
    decreases k0,
{
    if exists|k2: usize| m.dom().contains(k2) && k2 < k0 && c <= m[k2] {
        let k2 = choose|k2: usize| m.dom().contains(k2) && k2 < k0 && c <= m[k2];
        lemma_first_fit_exists(m, c, k2)
    } else {
        k0
    }
}

/// The greatest key at most `b` exists once some key is at most `b`.
proof fn lemma_floor_exists(m: Map<usize, usize>, b: usize, k0: usize) -> (k: usize)
    requires
        m.dom().contains(k0),
        k0 <= b,
    ensures
        is_floor_key(m, b, k),
    decreases b - k0,
{
    if exists|k2: usize| m.dom().contains(k2) && k0 < k2 <= b {
        let k2 = choose|k2: usize| m.dom().contains(k2) && k0 < k2 <= b;
        lemma_floor_exists(m, b, k2)
    } else {
        k0
    }
}

/// The greatest key below `o` exists once some key is below `o`.
proof fn lemma_strict_floor_exists(m: Map<usize, usize>, o: usize, k0: usize) -> (k: usize)
    requires
        m.dom().contains(k0),
        k0 < o,
    ensures
        is_strict_floor_key(m, o, k),
    decreases o - k0,
{
    if exists|k2: usize| m.dom().contains(k2) && k0 < k2 < o {
        let k2 = choose|k2: usize| m.dom().contains(k2) && k0 < k2 < o;
        lemma_strict_floor_exists(m, o, k2)
    } else {
        k0
    }
}

/// The least key at least `o` exists once some key is at least `o`.
proof fn lemma_ceil_exists(m: Map<usize, usize>, o: usize, k0: usize) -> (k: usize)
    requires
        m.dom().contains(k0),
        o <= k0,
    ensures
        is_ceil_key(m, o, k),
    decreases k0,
{
    if exists|k2: usize| m.dom().contains(k2) && o <= k2 < k0 {
        let k2 = choose|k2: usize| m.dom().contains(k2) && o <= k2 < k0;
        lemma_ceil_exists(m, o, k2)
    } else {
        k0
    }
}

proof fn lemma_in_free(m: Map<usize, usize>, k: usize, x: int)
    requires
        m.dom().contains(k),
        k <= x < k + m[k],
    ensures
        free_sectors(m).contains(x),
{
}

/// In a canonical map a sector lies in at most one run.
proof fn lemma_unique_run(m: Map<usize, usize>, k1: usize, k2: usize, x: int)
    requires
        canonical(m),
        m.dom().contains(k1),
        m.dom().contains(k2),
        k1 <= x < k1 + m[k1],
        k2 <= x < k2 + m[k2],
    ensures
        k1 == k2,
{
    if k1 < k2 {
        assert(k1 + m[k1] < k2);
    } else if k2 < k1 {
        assert(k2 + m[k2] < k1);
    }
}

/// In a canonical map a stretch of free sectors lies inside one run.
proof fn lemma_stretch_in_one_run(m: Map<usize, usize>, s: int, c: int) -> (k: usize)
    requires
        canonical(m),
        c > 0,
        sector_range(s, c).subset_of(free_sectors(m)),
    ensures
        m.dom().contains(k),
        k <= s,
        s + c <= k + m[k],
{
    assert(sector_range(s, c).contains(s));
    let k = choose|k: usize| m.dom().contains(k) && k <= s < k + m[k];
    if s + c > k + m[k] {
        let x = k + m[k];
        assert(sector_range(s, c).contains(x));
        let k2 = choose|k2: usize| m.dom().contains(k2) && k2 <= x < k2 + m[k2];
        if k2 > k {
            assert(k + m[k] < k2);
        } else if k2 < k {
            assert(k2 + m[k2] < k);
        }
    }
    k
}

/// `allocate` on a canonical map hands out sectors that were free, takes
/// exactly those out of the free set, keeps the map canonical, and fails only
/// when no stretch of `c` free sectors exists (or `c` is zero).
pub proof fn lemma_allocate_takes_free_sectors(m: Map<usize, usize>, c: usize)
    requires
        canonical(m),
        runs_in_range(m),
    ensures
        canonical(spec_allocate(m, c).1),
        spec_allocate(m, c).0 is None <==> (c == 0 || !exists|s: int|
            sector_range(s, c as int).subset_of(free_sectors(m))),
        spec_allocate(m, c).0 matches Some(s) ==> {
            &&& sector_range(s as int, c as int).subset_of(free_sectors(m))
            &&& free_sectors(spec_allocate(m, c).1) =~= free_sectors(m).difference(
                sector_range(s as int, c as int),
            )
        },
        spec_allocate(m, c).0 is None ==> spec_allocate(m, c).1 == m,
{
    if c == 0 {
        return;
    }
    if !has_fit(m, c) {
        assert forall|s: int| !sector_range(s, c as int).subset_of(free_sectors(m)) by {
            if sector_range(s, c as int).subset_of(free_sectors(m)) {
                let k = lemma_stretch_in_one_run(m, s, c as int);
                assert(m.dom().contains(k) && c <= m[k]);
            }
        }
        return;
    }
    let w = choose|k: usize| m.dom().contains(k) && c <= m[k];
    let k0 = lemma_first_fit_exists(m, c, w);
    let k = choose|k: usize| is_first_fit(m, c, k);
    assert(k == k0) by {
        if k < k0 {
        } else if k > k0 {
        }
    }
    let len = m[k];
    let m2 = spec_allocate(m, c).1;
    assert(k + len <= usize::MAX);
    assert(m2 == if len > c {
        m.remove(k).insert((k + c) as usize, (len - c) as usize)
    } else {
        m.remove(k)
    });
    assert(sector_range(k as int, c as int).subset_of(free_sectors(m))) by {
        assert forall|x: int| sector_range(k as int, c as int).contains(x) implies free_sectors(
            m,
        ).contains(x) by {
            lemma_in_free(m, k, x);
        }
    }
    assert(exists|s: int| sector_range(s, c as int).subset_of(free_sectors(m)));
    let r = sector_range(k as int, c as int);
    assert forall|x: int| free_sectors(m2).contains(x) implies free_sectors(m).difference(r).contains(
        x,
    ) by {
        let k2 = choose|k2: usize| m2.dom().contains(k2) && k2 <= x < k2 + m2[k2];
        if len > c && k2 == k + c {
            lemma_in_free(m, k, x);
        } else {
            assert(m.dom().contains(k2) && k2 != k && m2[k2] == m[k2]);
            lemma_in_free(m, k2, x);
            if k <= x < k + c {
                lemma_unique_run(m, k, k2, x);
            }
        }
    }
    assert forall|x: int| free_sectors(m).difference(r).contains(x) implies free_sectors(m2).contains(
        x,
    ) by {
        let k2 = choose|k2: usize| m.dom().contains(k2) && k2 <= x < k2 + m[k2];
        if k2 == k {
            assert(len > c);
            lemma_in_free(m2, (k + c) as usize, x);
        } else {
            if len > c && k2 == k + c {
                assert(k + m[k] < k2);
            }
            lemma_in_free(m2, k2, x);
        }
    }
    assert forall|k1: usize, k2: usize|
        m2.dom().contains(k1) && m2.dom().contains(k2) && k1 < k2 implies k1 + m2[k1] < k2 by {
        if len > c && k1 == k + c {
            assert(k < k2);
            assert(k + m[k] < k2);
        } else if len > c && k2 == k + c {
            assert(k1 < k);
            assert(k1 + m[k1] < k);
        }
    }
}

/// On a canonical map, `mark_allocated` succeeds exactly when the whole
/// stretch is free; it then takes exactly that stretch out of the free set
/// and keeps the map canonical, and otherwise changes nothing.
pub proof fn lemma_mark_allocated_takes_free_sectors(m: Map<usize, usize>, b: usize, c: usize)
    requires
        canonical(m),
        runs_in_range(m),
        b + c <= usize::MAX,
    ensures
        canonical(spec_mark_allocated(m, b, c).1),
        spec_mark_allocated(m, b, c).0 <==> (c > 0 && sector_range(b as int, c as int).subset_of(
            free_sectors(m),
        )),
        spec_mark_allocated(m, b, c).0 ==> free_sectors(spec_mark_allocated(m, b, c).1)
            =~= free_sectors(m).difference(sector_range(b as int, c as int)),
        !spec_mark_allocated(m, b, c).0 ==> spec_mark_allocated(m, b, c).1 == m,
{
    let r = sector_range(b as int, c as int);
    if c == 0 {
        return;
    }
    if !has_key_at_most(m, b) {
        if r.subset_of(free_sectors(m)) {
            assert(r.contains(b as int));
            let k = choose|k: usize| m.dom().contains(k) && k <= b < k + m[k];
        }
        return;
    }
    let w = choose|k: usize| m.dom().contains(k) && k <= b;
    let k0 = lemma_floor_exists(m, b, w);
    let k = choose|k: usize| is_floor_key(m, b, k);
    assert(k == k0);
    let end = k + m[k];
    if b + c > end {
        if r.subset_of(free_sectors(m)) {
            let k3 = lemma_stretch_in_one_run(m, b as int, c as int);
            assert(k3 <= k);
            if k3 < k {
                assert(k3 + m[k3] < k);
            }
        }
        return;
    }
    let m2 = spec_mark_allocated(m, b, c).1;
    assert(r.subset_of(free_sectors(m))) by {
        assert forall|x: int| r.contains(x) implies free_sectors(m).contains(x) by {
            lemma_in_free(m, k, x);
        }
    }
    assert forall|x: int| free_sectors(m2).contains(x) implies free_sectors(m).difference(r).contains(
        x,
    ) by {
        let k2 = choose|k2: usize| m2.dom().contains(k2) && k2 <= x < k2 + m2[k2];
        if (b > k && k2 == k) || (b + c < end && k2 == b + c) {
            lemma_in_free(m, k, x);
        } else {
            assert(m.dom().contains(k2) && k2 != k && m2[k2] == m[k2]);
            lemma_in_free(m, k2, x);
            if b <= x < b + c {
                lemma_unique_run(m, k, k2, x);
            }
        }
    }
    assert forall|x: int| free_sectors(m).difference(r).contains(x) implies free_sectors(m2).contains(
        x,
    ) by {
        let k2 = choose|k2: usize| m.dom().contains(k2) && k2 <= x < k2 + m[k2];
        if k2 == k {
            if x < b {
                lemma_in_free(m2, k, x);
            } else {
                lemma_in_free(m2, (b + c) as usize, x);
            }
        } else {
            if b + c < end && k2 == b + c {
                assert(k < k2);
                assert(k + m[k] < k2);
            }
            lemma_in_free(m2, k2, x);
        }
    }
    assert forall|k1: usize, k2: usize|
        m2.dom().contains(k1) && m2.dom().contains(k2) && k1 < k2 implies k1 + m2[k1] < k2 by {
        let left = b > k && k1 == k;
        let right = b + c < end && k1 == b + c;
        if m.dom().contains(k2) && k2 != k && !(b + c < end && k2 == b + c) {
            if k2 > k {
                assert(k + m[k] < k2);
            }
            if !left && !right {
                assert(m2[k1] == m[k1]);
                if k1 != k {
                    assert(m.dom().contains(k1));
                }
            }
            if k2 < k && !left && !right {
            }
        }
        if b + c < end && k2 == b + c && !left {
            assert(m.dom().contains(k1) && k1 != k);
            assert(k1 < k) by {
                if k1 > k {
                    assert(k + m[k] < k1);
                }
            }
            assert(k1 + m[k1] < k);
        }
        if m.dom().contains(k2) && k2 != k && k2 < k && (left || right) {
            assert(k2 <= b);
        }
    }
}

/// On a canonical map, freeing a stretch that holds no free sector adds
/// exactly that stretch to the free set and keeps the map canonical.
pub proof fn lemma_free_returns_sectors(m: Map<usize, usize>, o: usize, c: usize)
    requires
        canonical(m),
        runs_in_range(m),
        c > 0,
        o + c <= usize::MAX,
        sector_range(o as int, c as int).disjoint(free_sectors(m)),
    ensures
        canonical(spec_free(m, o, c)),
        free_sectors(spec_free(m, o, c)) =~= free_sectors(m).union(sector_range(o as int, c as int)),
{
    let r = sector_range(o as int, c as int);
    let p = choose|k: usize| is_strict_floor_key(m, o, k);
    let has_prev = has_key_below(m, o);
    let merge_prev = has_prev && p + m[p] == o;
    let q = choose|k: usize| is_ceil_key(m, o, k);
    let has_next = has_key_at_least(m, o);
    let merge_next = has_next && o + c == q;
    let start = if merge_prev {
        p
    } else {
        o
    };
    let m2 = spec_free(m, o, c);
    if has_prev {
        let w = choose|k: usize| m.dom().contains(k) && k < o;
        let p0 = lemma_strict_floor_exists(m, o, w);
        assert(p == p0);
        if p + m[p] > o {
            assert(r.contains(o as int));
            lemma_in_free(m, p, o as int);
        }
    }
    if has_next {
        let w = choose|k: usize| m.dom().contains(k) && o <= k;
        let q0 = lemma_ceil_exists(m, o, w);
        assert(q == q0);
        if q < o + c {
            assert(r.contains(q as int));
            lemma_in_free(m, q, q as int);
        }
    }
    assert(!m.dom().contains(o)) by {
        if m.dom().contains(o) {
            assert(r.contains(o as int));
            lemma_in_free(m, o, o as int);
        }
    }
    let new_end = if merge_next {
        q + m[q]
    } else {
        o + c
    };
    let len1 = if merge_prev {
        c + m[p]
    } else {
        c as int
    };
    let len2 = if merge_next {
        len1 + m[q]
    } else {
        len1
    };
    assert(start + len2 == new_end);
    assert(new_end <= usize::MAX);
    let m1 = if merge_prev {
        m.remove(p)
    } else {
        m
    };
    let m1b = if merge_next {
        m1.remove(q)
    } else {
        m1
    };
    assert(m2 == m1b.insert(start, len2 as usize));
    assert(m2.dom().contains(start) && start + m2[start] == new_end);
    assert forall|x: int| free_sectors(m2).contains(x) implies free_sectors(m).union(r).contains(x) by {
        let k2 = choose|k2: usize| m2.dom().contains(k2) && k2 <= x < k2 + m2[k2];
        if k2 == start {
            if merge_prev && x < o {
                lemma_in_free(m, p, x);
            } else if merge_next && x >= o + c {
                lemma_in_free(m, q, x);
            }
        } else {
            lemma_in_free(m, k2, x);
        }
    }
    assert forall|x: int| free_sectors(m).union(r).contains(x) implies free_sectors(m2).contains(x) by {
        if r.contains(x) {
            lemma_in_free(m2, start, x);
        } else {
            let k2 = choose|k2: usize| m.dom().contains(k2) && k2 <= x < k2 + m[k2];
            if (merge_prev && k2 == p) || (merge_next && k2 == q) {
                lemma_in_free(m2, start, x);
            } else {
                assert(k2 != start);
                lemma_in_free(m2, k2, x);
            }
        }
    }
    assert forall|k1: usize, k2: usize|
        m2.dom().contains(k1) && m2.dom().contains(k2) && k1 < k2 implies k1 + m2[k1] < k2 by {
        if k1 == start {
            assert(m.dom().contains(k2));
            assert(k2 >= o) by {
                if k2 < o {
                    assert(is_strict_floor_key(m, o, p));
                    assert(k2 <= p);
                }
            }
            assert(k2 >= q);
            if k2 > q {
                assert(q + m[q] < k2);
            }
        } else if k2 == start {
            assert(m.dom().contains(k1));
            assert(k1 < o);
            assert(k1 <= p);
            if k1 < p {
                assert(k1 + m[k1] < p);
            }
        }
    }
}

/// Freeing `[o, o + c)` frees no sector outside that stretch that was not
/// free already, whatever the map.
pub proof fn lemma_free_within(m: Map<usize, usize>, o: usize, c: usize)
    ensures
        free_sectors(spec_free(m, o, c)).subset_of(
            free_sectors(m).union(sector_range(o as int, c as int)),
        ),
{
    if c == 0 {
        return;
    }
    let p = choose|k: usize| is_strict_floor_key(m, o, k);
    let merge_prev = has_key_below(m, o) && p + m[p] == o;
    let q = choose|k: usize| is_ceil_key(m, o, k);
    let merge_next = has_key_at_least(m, o) && o + c == q;
    if has_key_below(m, o) {
        let w = choose|k: usize| m.dom().contains(k) && k < o;
        lemma_strict_floor_exists(m, o, w);
    }
    if has_key_at_least(m, o) {
        let w = choose|k: usize| m.dom().contains(k) && o <= k;
        lemma_ceil_exists(m, o, w);
    }
    let start = if merge_prev {
        p
    } else {
        o
    };
    let m2 = spec_free(m, o, c);
    assert forall|x: int| free_sectors(m2).contains(x) implies free_sectors(m).union(
        sector_range(o as int, c as int),
    ).contains(x) by {
        let k = choose|k: usize| m2.dom().contains(k) && k <= x < k + m2[k];
        if k == start {
            if merge_prev && x < o {
                lemma_in_free(m, p, x);
            } else if x < o + c {
                assert(sector_range(o as int, c as int).contains(x));
            } else {
                assert(merge_next);
                lemma_in_free(m, q, x);
            }
        } else {
            lemma_in_free(m, k, x);
        }
    }
}

/// Freeing a stretch that holds no free sector adds exactly that stretch to
/// the free sectors, whatever the map.
pub proof fn lemma_free_union(m: Map<usize, usize>, o: usize, c: usize)
    requires
        runs_in_range(m),
        c == 0 || o + c <= usize::MAX,
        sector_range(o as int, c as int).disjoint(free_sectors(m)),
    ensures
        free_sectors(spec_free(m, o, c)) =~= free_sectors(m).union(sector_range(o as int, c as int)),
{
    lemma_free_within(m, o, c);
    if c == 0 {
        return;
    }
    let p = choose|k: usize| is_strict_floor_key(m, o, k);
    let merge_prev = has_key_below(m, o) && p + m[p] == o;
    let q = choose|k: usize| is_ceil_key(m, o, k);
    let merge_next = has_key_at_least(m, o) && o + c == q;
    if has_key_below(m, o) {
        let w = choose|k: usize| m.dom().contains(k) && k < o;
        lemma_strict_floor_exists(m, o, w);
    }
    if has_key_at_least(m, o) {
        let w = choose|k: usize| m.dom().contains(k) && o <= k;
        lemma_ceil_exists(m, o, w);
    }
    let start = if merge_prev {
        p
    } else {
        o
    };
    let m2 = spec_free(m, o, c);
    let len1: int = if merge_prev {
        c + m[p]
    } else {
        c as int
    };
    let len2: int = if merge_next {
        len1 + m[q]
    } else {
        len1
    };
    assert(start + len1 == o + c);
    assert(start + len2 <= usize::MAX);
    assert(m2.dom().contains(start) && m2[start] == len2);
    assert forall|x: int| free_sectors(m).union(sector_range(o as int, c as int)).contains(
        x,
    ) implies free_sectors(m2).contains(x) by {
        if sector_range(o as int, c as int).contains(x) {
            lemma_in_free(m2, start, x);
        } else {
            let k = choose|k: usize| m.dom().contains(k) && k <= x < k + m[k];
            if merge_prev && k == p {
                lemma_in_free(m2, start, x);
            } else if merge_next && k == q {
                lemma_in_free(m2, start, x);
            } else {
                if k == start {
                    assert(sector_range(o as int, c as int).contains(o as int));
                    assert(free_sectors(m).contains(o as int)) by {
                        lemma_in_free(m, k, o as int);
                    }
                }
                assert(m2.dom().contains(k) && m2[k] == m[k]);
                lemma_in_free(m2, k, x);
            }
        }
    }
}

/// Freeing what `allocate` just handed out gives back the free set that was
/// there before.
pub proof fn lemma_allocate_then_free(m: Map<usize, usize>, c: usize)
    requires
        canonical(m),
        runs_in_range(m),
        spec_allocate(m, c).0 is Some,
    ensures
        free_sectors(
            spec_free(spec_allocate(m, c).1, spec_allocate(m, c).0->0, c),
        ) =~= free_sectors(m),
        canonical(spec_free(spec_allocate(m, c).1, spec_allocate(m, c).0->0, c)),
{
    lemma_allocate_takes_free_sectors(m, c);
    let s = spec_allocate(m, c).0->0;
    let m2 = spec_allocate(m, c).1;
    let w = choose|k: usize| m.dom().contains(k) && c <= m[k];
    let k0 = lemma_first_fit_exists(m, c, w);
    let k = choose|k: usize| is_first_fit(m, c, k);
    assert(k == k0) by {
        if k < k0 {
        } else if k > k0 {
        }
    }
    assert(s == k);
    assert(s + c <= usize::MAX);
    lemma_free_returns_sectors(m2, s, c);
}

/// A fresh allocator is canonical exactly when it has sectors, and its free
/// set is `[0, sector_count)`.
pub proof fn lemma_new_allocator(n: usize)
    ensures
        canonical(map![0usize => n]) <==> n > 0,
        free_sectors(map![0usize => n]) =~= sector_range(0, n as int),
{
    let m = map![0usize => n];
    assert(forall|k: usize| m.dom().contains(k) ==> k == 0);
    if n > 0 {
        assert(canonical(m));
    } else {
        assert(m.dom().contains(0usize) && m[0usize] == 0);
    }
    assert forall|x: int| sector_range(0, n as int).contains(x) implies free_sectors(m).contains(x) by {
        lemma_in_free(m, 0, x);
    }
}


/// One call on the free runs: `mark_allocated`, `allocate` or `free`, with
/// its arguments.
#[derive(Clone, Copy, Debug, PartialEq, Eq, Structural)]
pub enum AllocatorOp {
    MarkAllocated(usize, usize),
    Allocate(usize),
    Free(usize, usize),
}

/// The free map after one call.
pub open spec fn spec_apply(m: Map<usize, usize>, op: AllocatorOp) -> Map<usize, usize> {
    match op {
        AllocatorOp::MarkAllocated(b, c) => spec_mark_allocated(m, b, c).1,
        AllocatorOp::Allocate(c) => spec_allocate(m, c).1,
        AllocatorOp::Free(o, c) => spec_free(m, o, c),
    }
}

/// The call meets what its method requires, and a `free` gives back only
/// sectors that are not free already.
pub open spec fn op_allowed(m: Map<usize, usize>, op: AllocatorOp) -> bool {
    match op {
        AllocatorOp::MarkAllocated(b, c) => c == 0 || !has_key_at_most(m, b) || b + c
            <= usize::MAX,
        AllocatorOp::Allocate(_) => true,
        AllocatorOp::Free(o, c) => (c == 0 || o + c <= usize::MAX) && sector_range(
            o as int,
            c as int,
        ).disjoint(free_sectors(m)),
    }
}

/// The free map after a series of calls.
pub open spec fn spec_run(m: Map<usize, usize>, ops: Seq<AllocatorOp>) -> Map<usize, usize>
    decreases ops.len(),
{
    if ops.len() == 0 {
        m
    } else {
        spec_run(spec_apply(m, ops[0]), ops.drop_first())
    }
}

/// Every call of the series is allowed on the map it meets.
pub open spec fn run_allowed(m: Map<usize, usize>, ops: Seq<AllocatorOp>) -> bool
    decreases ops.len(),
{
    ops.len() == 0 || (op_allowed(m, ops[0]) && run_allowed(spec_apply(m, ops[0]), ops.drop_first()))
}

/// Free sectors of a map whose runs stay in range are below `usize::MAX`.
proof fn lemma_free_below_max(m: Map<usize, usize>)
    requires
        runs_in_range(m),
    ensures
        forall|x: int| free_sectors(m).contains(x) ==> x < usize::MAX,
{
    assert forall|x: int| free_sectors(m).contains(x) implies x < usize::MAX by {
        let k = choose|k: usize| m.dom().contains(k) && k <= x < k + m[k];
    }
}

/// A canonical map whose free sectors are below `usize::MAX` keeps its runs
/// in range.
proof fn lemma_runs_in_range_of_free(m: Map<usize, usize>)
    requires
        canonical(m),
        forall|x: int| free_sectors(m).contains(x) ==> x < usize::MAX,
    ensures
        runs_in_range(m),
{
    assert forall|k: usize| m.dom().contains(k) implies k + m[k] <= usize::MAX by {
        lemma_in_free(m, k, k + m[k] - 1);
    }
}

/// One allowed call keeps the runs coalesced and in range.
proof fn lemma_step_stays_coalesced(m: Map<usize, usize>, op: AllocatorOp)
    requires
        canonical(m),
        runs_in_range(m),
        op_allowed(m, op),
    ensures
        canonical(spec_apply(m, op)),
        runs_in_range(spec_apply(m, op)),
{
    lemma_free_below_max(m);
    let m2 = spec_apply(m, op);
    match op {
        AllocatorOp::MarkAllocated(b, c) => {
            if c > 0 && has_key_at_most(m, b) {
                lemma_mark_allocated_takes_free_sectors(m, b, c);
            }
        },
        AllocatorOp::Allocate(c) => {
            lemma_allocate_takes_free_sectors(m, c);
        },
        AllocatorOp::Free(o, c) => {
            if c > 0 {
                lemma_free_returns_sectors(m, o, c);
            }
        },
    }
    assert forall|x: int| free_sectors(m2).contains(x) implies x < usize::MAX by {
        if let AllocatorOp::Free(o, c) = op {
            if c > 0 && sector_range(o as int, c as int).contains(x) {
            } else if c > 0 {
                assert(free_sectors(m).contains(x));
            }
        }
    }
    lemma_runs_in_range_of_free(m2);
}

/// Any series of allowed calls on coalesced runs leaves them coalesced: the
/// runs stay non-empty, apart and maximal.
pub proof fn lemma_run_stays_coalesced(m: Map<usize, usize>, ops: Seq<AllocatorOp>)
    requires
        canonical(m),
        runs_in_range(m),
        run_allowed(m, ops),
    ensures
        canonical(spec_run(m, ops)),
        runs_in_range(spec_run(m, ops)),
    decreases ops.len(),
{
    if ops.len() > 0 {
        lemma_step_stays_coalesced(m, ops[0]);
        lemma_run_stays_coalesced(spec_apply(m, ops[0]), ops.drop_first());
    }
}

/// An allocator made over `n > 0` sectors keeps its free runs coalesced
/// through any series of allowed calls.
pub proof fn lemma_allocator_stays_coalesced(n: usize, ops: Seq<AllocatorOp>)
    requires
        n > 0,
        run_allowed(map![0usize => n], ops),
    ensures
        canonical(spec_run(map![0usize => n], ops)),
{
    lemma_new_allocator(n);
    let m = map![0usize => n];
    assert(runs_in_range(m)) by {
        assert forall|k: usize| m.dom().contains(k) implies k + m[k] <= usize::MAX by {
            assert(k == 0);
        }
    }
    lemma_run_stays_coalesced(m, ops);
}

/// Every key is at least `lo`.
pub open spec fn keys_at_least(m: Map<usize, usize>, lo: int) -> bool {
    forall|k: usize| m.dom().contains(k) ==> k >= lo
}

/// What `allocate` hands out is the start of a run with room for the request.
pub proof fn lemma_allocate_result(m: Map<usize, usize>, c: usize)
    ensures
        spec_allocate(m, c).0 matches Some(s) ==> m.dom().contains(s) && c <= m[s] && c > 0,
{
    if c > 0 && has_fit(m, c) {
        let w = choose|k: usize| m.dom().contains(k) && c <= m[k];
        let k0 = lemma_first_fit_exists(m, c, w);
    }
}

/// Allocating, marking and freeing at or above `lo` keep every key at or
/// above `lo`.
pub proof fn lemma_keys_at_least_preserved(m: Map<usize, usize>, lo: int, b: usize, c: usize)
    requires
        keys_at_least(m, lo),
        runs_in_range(m),
    ensures
        keys_at_least(spec_allocate(m, c).1, lo),
        spec_allocate(m, c).0 matches Some(s) ==> s >= lo,
        keys_at_least(spec_mark_allocated(m, b, c).1, lo),
        b >= lo ==> keys_at_least(spec_free(m, b, c), lo),
{
    lemma_allocate_result(m, c);
    if let Some(s) = spec_allocate(m, c).0 {
        assert(s + m[s] <= usize::MAX);
    }
    if c > 0 && has_key_at_most(m, b) {
        let w = choose|k: usize| m.dom().contains(k) && k <= b;
        let k0 = lemma_floor_exists(m, b, w);
        let k = choose|k: usize| is_floor_key(m, b, k);
        assert(k == k0);
        assert(k + m[k] <= usize::MAX);
    }
    if c > 0 && has_key_below(m, b) {
        let w = choose|k: usize| m.dom().contains(k) && k < b;
        let p0 = lemma_strict_floor_exists(m, b, w);
    }
    if c > 0 && has_key_at_least(m, b) {
        let w = choose|k: usize| m.dom().contains(k) && b <= k;
        let q0 = lemma_ceil_exists(m, b, w);
    }
}

proof fn lemma_map_at(s: Seq<(usize, usize)>, i: int)
    requires
        sorted_keys(s),
        0 <= i < s.len(),
    ensures
        seq_to_map(s).dom().contains(s[i].0),
        seq_to_map(s)[s[i].0] == s[i].1,
{
    assert(seq_has_key(s, s[i].0));
    let j = choose|j: int| 0 <= j < s.len() && s[j].0 == s[i].0;
    if j < i {
        assert(s[j].0 < s[i].0);
    } else if j > i {
        assert(s[i].0 < s[j].0);
    }
}

proof fn lemma_map_remove(s: Seq<(usize, usize)>, i: int)
    requires
        sorted_keys(s),
        0 <= i < s.len(),
    ensures
        sorted_keys(s.remove(i)),
        seq_to_map(s.remove(i)) =~= seq_to_map(s).remove(s[i].0),
{
    let t = s.remove(i);
    assert(sorted_keys(t)) by {
        assert forall|a: int, b: int| 0 <= a < b < t.len() implies t[a].0 < t[b].0 by {
            let a2 = if a < i {
                a
            } else {
                a + 1
            };
            let b2 = if b < i {
                b
            } else {
                b + 1
            };
            assert(t[a] == s[a2]);
            assert(t[b] == s[b2]);
        }
    }
    let m = seq_to_map(s);
    let n = seq_to_map(t);
    assert forall|k: usize| n.dom().contains(k) <==> m.remove(s[i].0).dom().contains(k) by {
        if seq_has_key(t, k) {
            let j = choose|j: int| 0 <= j < t.len() && t[j].0 == k;
            let j2 = if j < i {
                j
            } else {
                j + 1
            };
            assert(t[j] == s[j2]);
            assert(seq_has_key(s, k));
            if j2 < i {
                assert(s[j2].0 < s[i].0);
            } else {
                assert(s[i].0 < s[j2].0);
            }
        }
        if seq_has_key(s, k) && k != s[i].0 {
            let j = choose|j: int| 0 <= j < s.len() && s[j].0 == k;
            assert(j != i);
            let j2 = if j < i {
                j
            } else {
                j - 1
            };
            assert(t[j2] == s[j]);
            assert(seq_has_key(t, k));
        }
    }
    assert forall|k: usize| #[trigger] n.dom().contains(k) implies n[k] == m.remove(s[i].0)[k] by {
        let j = choose|j: int| 0 <= j < t.len() && t[j].0 == k;
        lemma_map_at(t, j);
        let j2 = if j < i {
            j
        } else {
            j + 1
        };
        assert(t[j] == s[j2]);
        lemma_map_at(s, j2);
    }
}

proof fn lemma_map_insert(s: Seq<(usize, usize)>, p: int, k: usize, v: usize)
    requires
        sorted_keys(s),
        0 <= p <= s.len(),
        forall|i: int| 0 <= i < p ==> s[i].0 < k,
        forall|i: int| p <= i < s.len() ==> s[i].0 > k,
    ensures
        sorted_keys(s.insert(p, (k, v))),
        seq_to_map(s.insert(p, (k, v))) =~= seq_to_map(s).insert(k, v),
{
    let t = s.insert(p, (k, v));
    assert forall|a: int, b: int| 0 <= a < b < t.len() implies t[a].0 < t[b].0 by {
        if a < p {
            assert(t[a] == s[a]);
        } else if a > p {
            assert(t[a] == s[a - 1]);
        }
        if b < p {
            assert(t[b] == s[b]);
        } else if b > p {
            assert(t[b] == s[b - 1]);
        }
    }
    let m = seq_to_map(s);
    let n = seq_to_map(t);
    assert forall|key: usize| n.dom().contains(key) <==> m.insert(k, v).dom().contains(key) by {
        if seq_has_key(t, key) && key != k {
            let j = choose|j: int| 0 <= j < t.len() && t[j].0 == key;
            assert(j != p);
            let j2 = if j < p {
                j
            } else {
                j - 1
            };
            assert(t[j] == s[j2]);
            assert(seq_has_key(s, key));
        }
        if seq_has_key(s, key) {
            let j = choose|j: int| 0 <= j < s.len() && s[j].0 == key;
            let j2 = if j < p {
                j
            } else {
                j + 1
            };
            assert(t[j2] == s[j]);
            assert(seq_has_key(t, key));
        }
        if key == k {
            assert(t[p].0 == k);
            assert(seq_has_key(t, key));
        }
    }
    assert forall|key: usize| #[trigger] n.dom().contains(key) implies n[key] == m.insert(k, v)[key] by {
        let j = choose|j: int| 0 <= j < t.len() && t[j].0 == key;
        lemma_map_at(t, j);
        if j != p {
            let j2 = if j < p {
                j
            } else {
                j - 1
            };
            assert(t[j] == s[j2]);
            lemma_map_at(s, j2);
        }
    }
}

proof fn lemma_map_update(s: Seq<(usize, usize)>, i: int, v: usize)
    requires
        sorted_keys(s),
        0 <= i < s.len(),
    ensures
        sorted_keys(s.update(i, (s[i].0, v))),
        seq_to_map(s.update(i, (s[i].0, v))) =~= seq_to_map(s).insert(s[i].0, v),
{
    let t = s.update(i, (s[i].0, v));
    assert(sorted_keys(t)) by {
        assert forall|a: int, b: int| 0 <= a < b < t.len() implies t[a].0 < t[b].0 by {
            assert(t[a].0 == s[a].0);
            assert(t[b].0 == s[b].0);
        }
    }
    let m = seq_to_map(s);
    let n = seq_to_map(t);
    assert forall|key: usize| n.dom().contains(key) <==> m.insert(s[i].0, v).dom().contains(key) by {
        if seq_has_key(t, key) {
            let j = choose|j: int| 0 <= j < t.len() && t[j].0 == key;
            assert(t[j].0 == s[j].0);
            assert(seq_has_key(s, key));
        }
        if seq_has_key(s, key) {
            let j = choose|j: int| 0 <= j < s.len() && s[j].0 == key;
            assert(t[j].0 == s[j].0);
            assert(seq_has_key(t, key));
        }
    }
    assert forall|key: usize| #[trigger] n.dom().contains(key) implies n[key] == m.insert(
        s[i].0,
        v,
    )[key] by {
        let j = choose|j: int| 0 <= j < t.len() && t[j].0 == key;
        lemma_map_at(t, j);
        if j != i {
            lemma_map_at(s, j);
        }
    }
}

/// Free runs of a region file, keyed by their first sector.
pub struct BTreeFreeSectorAllocator {
    tree: Vec<(usize, usize)>,
}

impl View for BTreeFreeSectorAllocator {
    type V = Map<usize, usize>;

    closed spec fn view(&self) -> Map<usize, usize> {
        seq_to_map(self.tree@)
    }
}

impl BTreeFreeSectorAllocator {
    /// The free map is finite and no run reaches past `usize::MAX`.
    pub closed spec fn wf(&self) -> bool {
        &&& sorted_keys(self.tree@)
        &&& runs_in_range(self@)
    }

    /// A well-formed allocator keeps every run inside the addressable sectors.
    pub proof fn lemma_wf_runs_in_range(&self)
        requires
            self.wf(),
        ensures
            runs_in_range(self@),
    {
    }

    proof fn lemma_entry(&self, i: int)
        requires
            sorted_keys(self.tree@),
            0 <= i < self.tree@.len(),
        ensures
            self@.dom().contains(self.tree@[i].0),
            self@[self.tree@[i].0] == self.tree@[i].1,
    {
        lemma_map_at(self.tree@, i);
    }

    proof fn lemma_key_index(&self, k: usize) -> (i: int)
        requires
            self@.dom().contains(k),
        ensures
            0 <= i < self.tree@.len(),
            self.tree@[i].0 == k,
    {
        choose|i: int| 0 <= i < self.tree@.len() && self.tree@[i].0 == k
    }

    /// First index whose key is at least `k`.
    fn lower_bound(&self, k: usize) -> (p: usize)
        requires
            sorted_keys(self.tree@),
        ensures
            p <= self.tree@.len(),
            forall|i: int| 0 <= i < p ==> self.tree@[i].0 < k,
            forall|i: int| p <= i < self.tree@.len() ==> self.tree@[i].0 >= k,
    {
        let mut p: usize = 0;
        while p < self.tree.len() && self.tree[p].0 < k
            invariant
                p <= self.tree@.len(),
                sorted_keys(self.tree@),
                forall|i: int| 0 <= i < p ==> self.tree@[i].0 < k,
            decreases self.tree@.len() - p,
        {
            p = p + 1;
        }
        assert forall|i: int| p <= i < self.tree@.len() implies self.tree@[i].0 >= k by {
            if i > p {
                assert(self.tree@[p as int].0 < self.tree@[i].0);
            }
        }
        p
    }

    /// First index whose key is greater than `k`.
    fn upper_bound(&self, k: usize) -> (p: usize)
        requires
            sorted_keys(self.tree@),
        ensures
            p <= self.tree@.len(),
            forall|i: int| 0 <= i < p ==> self.tree@[i].0 <= k,
            forall|i: int| p <= i < self.tree@.len() ==> self.tree@[i].0 > k,
    {
        let mut p: usize = 0;
        while p < self.tree.len() && self.tree[p].0 <= k
            invariant
                p <= self.tree@.len(),
                sorted_keys(self.tree@),
                forall|i: int| 0 <= i < p ==> self.tree@[i].0 <= k,
            decreases self.tree@.len() - p,
        {
            p = p + 1;
        }
        assert forall|i: int| p <= i < self.tree@.len() implies self.tree@[i].0 > k by {
            if i > p {
                assert(self.tree@[p as int].0 < self.tree@[i].0);
            }
        }
        p
    }

    fn insert_key(&mut self, k: usize, v: usize)
        requires
            sorted_keys(old(self).tree@),
        ensures
            sorted_keys(final(self).tree@),
            final(self)@ == old(self)@.insert(k, v),
    {
        let p = self.lower_bound(k);
        if p < self.tree.len() && self.tree[p].0 == k {
            proof {
                lemma_map_update(self.tree@, p as int, v);
            }
            self.tree.set(p, (k, v));
        } else {
            proof {
                assert forall|i: int| p <= i < self.tree@.len() implies self.tree@[i].0 > k by {
                    if i > p {
                        assert(self.tree@[p as int].0 < self.tree@[i].0);
                    }
                }
                lemma_map_insert(self.tree@, p as int, k, v);
            }
            self.tree.insert(p, (k, v));
        }
    }

    fn remove_at(&mut self, i: usize) -> (r: (usize, usize))
        requires
            sorted_keys(old(self).tree@),
            i < old(self).tree@.len(),
        ensures
            r == old(self).tree@[i as int],
            sorted_keys(final(self).tree@),
            final(self).tree@ == old(self).tree@.remove(i as int),
            final(self)@ == old(self)@.remove(r.0),
    {
        proof {
            lemma_map_remove(self.tree@, i as int);
        }
        self.tree.remove(i)
    }

    /// An allocator whose only free run is `[0, sector_count)`, if
    /// `sector_count` fits in an `isize`.
    pub fn new(sector_count: usize) -> (r: Option<Self>)
        ensures
            r is Some <==> sector_count <= isize::MAX,
            r matches Some(a) ==> a.wf() && a@ == map![0usize => sector_count],
            r matches Some(a) ==> (canonical(a@) <==> sector_count > 0),
            r matches Some(a) ==> free_sectors(a@) == sector_range(0, sector_count as int),
    {
        proof {
            lemma_new_allocator(sector_count);
        }
        if sector_count > isize::MAX as usize {
            None
        } else {
            let mut tree: Vec<(usize, usize)> = Vec::new();
            tree.push((0, sector_count));
            let a = Self { tree };
            proof {
                lemma_map_at(a.tree@, 0);
                assert(a@ =~= map![0usize => sector_count]) by {
                    assert forall|k: usize| a@.dom().contains(k) implies k == 0 by {
                        let i = a.lemma_key_index(k);
                    }
                }
            }
            Some(a)
        }
    }

    /// Takes `[begin_sector, begin_sector + count)` out of the free run that
    /// holds it; returns whether it was free.
    pub fn mark_allocated(&mut self, begin_sector: usize, count: usize) -> (r: bool)
        requires
            old(self).wf(),
            count == 0 || !has_key_at_most(old(self)@, begin_sector) || begin_sector + count
                <= usize::MAX,
        ensures
            final(self).wf(),
            (r, final(self)@) == spec_mark_allocated(old(self)@, begin_sector, count),
            canonical(old(self)@) ==> canonical(final(self)@),
            canonical(old(self)@) ==> (r <==> (count > 0 && sector_range(
                begin_sector as int,
                count as int,
            ).subset_of(free_sectors(old(self)@)))),
            canonical(old(self)@) && r ==> free_sectors(final(self)@) == free_sectors(
                old(self)@,
            ).difference(sector_range(begin_sector as int, count as int)),
    {
        proof {
            self.lemma_wf_runs_in_range();
            if canonical(self@) && count > 0 && has_key_at_most(self@, begin_sector) {
                lemma_mark_allocated_takes_free_sectors(self@, begin_sector, count);
            } else if canonical(self@) && count > 0 {
                assert(!sector_range(begin_sector as int, count as int).subset_of(free_sectors(self@))) by {
                    assert(sector_range(begin_sector as int, count as int).contains(begin_sector as int));
                    if free_sectors(self@).contains(begin_sector as int) {
                        let k = choose|k: usize| self@.dom().contains(k) && k <= begin_sector < k + self@[k];
                    }
                }
            }
        }
        if count == 0 {
            return false;
        }
        let p = self.upper_bound(begin_sector);
        if p == 0 {
            proof {
                assert forall|k: usize| self@.dom().contains(k) implies k > begin_sector by {
                    let i = self.lemma_key_index(k);
                }
            }
            return false;
        }
        let ghost m = self@;
        let (free_begin, free_len) = self.tree[p - 1];
        proof {
            self.lemma_entry(p - 1);
            assert(is_floor_key(m, begin_sector, free_begin)) by {
                assert forall|k2: usize| m.dom().contains(k2) && k2 <= begin_sector implies k2
                    <= free_begin by {
                    let j = self.lemma_key_index(k2);
                    if j > p - 1 {
                        assert(self.tree@[p - 1].0 < self.tree@[j].0);
                    }
                }
            }
            let k = choose|k: usize| is_floor_key(m, begin_sector, k);
            assert(k == free_begin);
        }
        let free_end = free_begin + free_len;
        let alloc_end = begin_sector + count;
        if alloc_end > free_end {
            return false;
        }
        self.remove_at(p - 1);
        if begin_sector > free_begin {
            self.insert_key(free_begin, begin_sector - free_begin);
        }
        if alloc_end < free_end {
            self.insert_key(alloc_end, free_end - alloc_end);
        }
        true
    }

    /// Takes `count` sectors from the start of the first run, in key order,
    /// that has room for them, and returns where they start.
    pub fn allocate(&mut self, count: usize) -> (r: Option<usize>)
        requires
            old(self).wf(),
        ensures
            final(self).wf(),
            (r, final(self)@) == spec_allocate(old(self)@, count),
            canonical(old(self)@) ==> canonical(final(self)@),
            canonical(old(self)@) ==> (r is None <==> (count == 0 || !exists|s: int|
                sector_range(s, count as int).subset_of(free_sectors(old(self)@)))),
            canonical(old(self)@) ==> (r matches Some(s) ==> sector_range(
                s as int,
                count as int,
            ).subset_of(free_sectors(old(self)@)) && free_sectors(final(self)@) == free_sectors(
                old(self)@,
            ).difference(sector_range(s as int, count as int))),
    {
        proof {
            self.lemma_wf_runs_in_range();
            if canonical(self@) {
                lemma_allocate_takes_free_sectors(self@, count);
            }
        }
        if count == 0 {
            return None;
        }
        let ghost m = self@;
        let mut i: usize = 0;
        while i < self.tree.len() && self.tree[i].1 < count
            invariant
                i <= self.tree@.len(),
                forall|j: int| 0 <= j < i ==> self.tree@[j].1 < count,
            decreases self.tree@.len() - i,
        {
            i = i + 1;
        }
        if i == self.tree.len() {
            proof {
                assert forall|k: usize| m.dom().contains(k) implies m[k] < count by {
                    let j = self.lemma_key_index(k);
                    self.lemma_entry(j);
                }
            }
            return None;
        }
        proof {
            self.lemma_entry(i as int);
            let start = self.tree@[i as int].0;
            assert(is_first_fit(m, count, start)) by {
                assert forall|k2: usize| m.dom().contains(k2) && k2 < start implies m[k2]
                    < count by {
                    let j = self.lemma_key_index(k2);
                    self.lemma_entry(j);
                    if j >= i {
                        if j > i {
                            assert(self.tree@[i as int].0 < self.tree@[j].0);
                        }
                    }
                }
            }
            let k = choose|k: usize| is_first_fit(m, count, k);
            if k < start {
            } else if k > start {
            }
            assert(k == start);
        }
        let (start, len) = self.remove_at(i);
        if len > count {
            self.insert_key(start + count, len - count);
        }
        Some(start)
    }

    /// Returns `[offset, offset + count)` to the free runs, merging it with
    /// the run just before and the run just after when they touch it.
    pub fn free(&mut self, offset: usize, count: usize)
        requires
            old(self).wf(),
            count == 0 || offset + count <= usize::MAX,
        ensures
            sector_range(offset as int, count as int).disjoint(free_sectors(old(self)@))
                ==> free_sectors(final(self)@) == free_sectors(old(self)@).union(
                sector_range(offset as int, count as int),
            ),
            canonical(old(self)@) && sector_range(offset as int, count as int).disjoint(
                free_sectors(old(self)@),
            ) ==> canonical(final(self)@),
            final(self).wf(),
            final(self)@ == spec_free(old(self)@, offset, count),
    {
        proof {
            self.lemma_wf_runs_in_range();
            if canonical(self@) && count > 0 && sector_range(offset as int, count as int).disjoint(free_sectors(self@)) {
                lemma_free_returns_sectors(self@, offset, count);
            }
            if sector_range(offset as int, count as int).disjoint(free_sectors(self@)) {
                lemma_free_union(self@, offset, count);
            }
        }
        if count == 0 {
            return;
        }
        let ghost m = self@;
        let ghost s = self.tree@;
        let mut start = offset;
        let mut len = count;
        let p = self.lower_bound(offset);
        let mut next_idx = p;
        let ghost mut merged_prev = false;
        proof {
            if p > 0 {
                self.lemma_entry(p - 1);
                assert(is_strict_floor_key(m, offset, s[p - 1].0)) by {
                    assert forall|k2: usize| m.dom().contains(k2) && k2 < offset implies k2
                        <= s[p - 1].0 by {
                        let j = self.lemma_key_index(k2);
                        if j > p - 1 {
                            assert(s[p - 1].0 < s[j].0);
                        }
                    }
                }
                let k = choose|k: usize| is_strict_floor_key(m, offset, k);
                assert(k == s[p - 1].0);
            } else {
                assert forall|k: usize| m.dom().contains(k) implies k >= offset by {
                    let j = self.lemma_key_index(k);
                }
            }
            if p < s.len() {
                self.lemma_entry(p as int);
                assert(is_ceil_key(m, offset, s[p as int].0)) by {
                    assert forall|k2: usize| m.dom().contains(k2) && offset <= k2 implies s[p as int].0
                        <= k2 by {
                        let j = self.lemma_key_index(k2);
                        if j < p {
                        } else if j > p {
                            assert(s[p as int].0 < s[j].0);
                        }
                    }
                }
                let k = choose|k: usize| is_ceil_key(m, offset, k);
                assert(k == s[p as int].0);
            } else {
                assert forall|k: usize| m.dom().contains(k) implies k < offset by {
                    let j = self.lemma_key_index(k);
                }
            }
        }
        if p > 0 {
            let (prev_start, prev_len) = self.tree[p - 1];
            if prev_start + prev_len == offset {
                start = prev_start;
                len = len + prev_len;
                self.remove_at(p - 1);
                next_idx = p - 1;
                proof {
                    merged_prev = true;
                }
            }
        }
        assert(next_idx < self.tree@.len() ==> self.tree@[next_idx as int] == s[p as int]);
        if next_idx < self.tree.len() {
            let (next_start, next_len) = self.tree[next_idx];
            if offset + count == next_start {
                proof {
                    self.lemma_entry(next_idx as int);
                }
                len = len + next_len;
                self.remove_at(next_idx);
            }
        }
        self.insert_key(start, len);
    }
}

} // verus!
