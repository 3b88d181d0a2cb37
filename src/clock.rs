//! The eviction rules over the cache's slots: which entry a sweep of the
//! clock hand picks, and what admission and removal leave behind.
use vstd::prelude::*;

verus! {

/// A cache slot as the eviction rules see it: a path and its used bit.
pub type Slot = (Seq<char>, bool);

/// Some slot holds the path `p`.
pub open spec fn has_path(s: Seq<Slot>, p: Seq<char>) -> bool {
    exists|i: int| 0 <= i < s.len() && #[trigger] s[i].0 == p
}

/// No two slots hold the same path.
pub open spec fn distinct_paths(s: Seq<Slot>) -> bool {
    forall|i: int, j: int|
        0 <= i < s.len() && 0 <= j < s.len() && i != j ==> #[trigger] s[i].0 != #[trigger] s[j].0
}

/// The position of the slot that holds `p` (meaningful when `has_path(s, p)`).
pub open spec fn index_of(s: Seq<Slot>, p: Seq<char>) -> int {
    choose|i: int| 0 <= i < s.len() && s[i].0 == p
}

/// The same slots with every used bit cleared.
pub open spec fn cleared(s: Seq<Slot>) -> Seq<Slot> {
    Seq::new(s.len(), |i: int| (s[i].0, false))
}

/// The last slot in `[lo, hi)` whose used bit is clear, if any.
pub open spec fn last_unused_in(s: Seq<Slot>, lo: int, hi: int) -> Option<int>
    decreases hi - lo,
{
    if hi <= lo {
        None
    } else if !s[hi - 1].1 {
        Some(hi - 1)
    } else {
        last_unused_in(s, lo, hi - 1)
    }
}

/// The victim of one sweep that starts at `start` and visits
/// `start, start + 1, ..., len - 1, 0, ..., start - 1`: the last slot seen
/// whose used bit was clear, or `None` when every slot was in use.
pub open spec fn victim(s: Seq<Slot>, start: int) -> Option<int> {
    match last_unused_in(s, 0, start) {
        Some(i) => Some(i),
        None => last_unused_in(s, start, s.len() as int),
    }
}

/// What one sweep leaves: every used bit cleared and the victim, if any, gone.
pub open spec fn swept(s: Seq<Slot>, start: int) -> Seq<Slot> {
    match victim(s, start) {
        Some(i) => cleared(s).remove(i),
        None => cleared(s),
    }
}

/// The slots once room was made for a new path under the bound `max`:
/// a sweep runs only when the cache is full.
pub open spec fn made_room(s: Seq<Slot>, start: int, max: nat) -> Seq<Slot> {
    if s.len() >= max {
        swept(s, start)
    } else {
        s
    }
}

/// The slots after admitting `p`: unchanged when `p` is already held, else
/// room is made and `p` is appended with its used bit set.
pub open spec fn admitted(s: Seq<Slot>, start: int, max: nat, p: Seq<char>) -> Seq<Slot> {
    if has_path(s, p) {
        s
    } else {
        made_room(s, start, max).push((p, true))
    }
}

/// The slots after removing `p`; unchanged when `p` is not held.
pub open spec fn without(s: Seq<Slot>, p: Seq<char>) -> Seq<Slot> {
    if has_path(s, p) {
        s.remove(index_of(s, p))
    } else {
        s
    }
}

/// The slots after an access to `p` set its used bit.
pub open spec fn touched(s: Seq<Slot>, p: Seq<char>) -> Seq<Slot> {
    if has_path(s, p) {
        s.update(index_of(s, p), (p, true))
    } else {
        s
    }
}

/// How many slots have their used bit set.
pub open spec fn used_count(s: Seq<Slot>) -> nat
    decreases s.len(),
{
    if s.len() == 0 {
        0
    } else {
        used_count(s.drop_last()) + if s.last().1 { 1nat } else { 0nat }
    }
}

/// `last_unused_in` picks a slot of `[lo, hi)` whose used bit is clear, and
/// finds none only when every slot there is in use.
pub proof fn lemma_last_unused_in(s: Seq<Slot>, lo: int, hi: int)
    requires
        0 <= lo,
        hi <= s.len(),
    ensures
        last_unused_in(s, lo, hi) matches Some(i) ==> lo <= i < hi && !s[i].1
            && forall|j: int| i < j < hi ==> #[trigger] s[j].1,
        last_unused_in(s, lo, hi) is None ==> forall|j: int| lo <= j < hi ==> #[trigger] s[j].1,
    decreases hi - lo,
{
    if hi > lo && s[hi - 1].1 {
        lemma_last_unused_in(s, lo, hi - 1);
    }
}

/// The victim of a sweep is a slot whose used bit was clear; there is none
/// only when every slot was in use.
pub proof fn lemma_victim(s: Seq<Slot>, start: int)
    requires
        0 <= start <= s.len(),
    ensures
        victim(s, start) matches Some(i) ==> 0 <= i < s.len() && !s[i].1,
        victim(s, start) is None ==> forall|j: int| 0 <= j < s.len() ==> #[trigger] s[j].1,
{
    lemma_last_unused_in(s, 0, start);
    lemma_last_unused_in(s, start, s.len() as int);
}

/// Clearing the used bits keeps the paths distinct.
pub proof fn lemma_cleared_distinct(s: Seq<Slot>)
    requires
        distinct_paths(s),
    ensures
        distinct_paths(cleared(s)),
        forall|q: Seq<char>| has_path(cleared(s), q) == has_path(s, q),
{
    assert forall|q: Seq<char>| has_path(cleared(s), q) == has_path(s, q) by {
        if has_path(s, q) {
            let i = choose|i: int| 0 <= i < s.len() && #[trigger] s[i].0 == q;
            assert(cleared(s)[i].0 == q);
        }
        if has_path(cleared(s), q) {
            let i = choose|i: int| 0 <= i < cleared(s).len() && #[trigger] cleared(s)[i].0 == q;
            assert(s[i].0 == q);
        }
    }
}

/// Removing a slot keeps the paths distinct, and drops exactly its path.
pub proof fn lemma_remove_distinct(s: Seq<Slot>, i: int)
    requires
        distinct_paths(s),
        0 <= i < s.len(),
    ensures
        distinct_paths(s.remove(i)),
        forall|q: Seq<char>| has_path(s.remove(i), q) == (has_path(s, q) && q != s[i].0),
{
    let r = s.remove(i);
    assert forall|a: int, b: int| 0 <= a < r.len() && 0 <= b < r.len() && a != b implies
        #[trigger] r[a].0 != #[trigger] r[b].0 by {
        let a0 = if a < i { a } else { a + 1 };
        let b0 = if b < i { b } else { b + 1 };
        assert(r[a] == s[a0] && r[b] == s[b0]);
    }
    assert forall|q: Seq<char>| has_path(r, q) == (has_path(s, q) && q != s[i].0) by {
        if has_path(r, q) {
            let a = choose|a: int| 0 <= a < r.len() && #[trigger] r[a].0 == q;
            let a0 = if a < i { a } else { a + 1 };
            assert(r[a] == s[a0]);
        }
        if has_path(s, q) && q != s[i].0 {
            let a0 = choose|a: int| 0 <= a < s.len() && #[trigger] s[a].0 == q;
            let a = if a0 < i { a0 } else { a0 - 1 };
            assert(r[a] == s[a0]);
        }
    }
}

/// Appending a path that is not held keeps the paths distinct.
pub proof fn lemma_push_distinct(s: Seq<Slot>, p: Seq<char>, b: bool)
    requires
        distinct_paths(s),
        !has_path(s, p),
    ensures
        distinct_paths(s.push((p, b))),
        has_path(s.push((p, b)), p),
{
    let r = s.push((p, b));
    assert(r[s.len() as int].0 == p);
    assert forall|x: int, y: int| 0 <= x < r.len() && 0 <= y < r.len() && x != y implies
        #[trigger] r[x].0 != #[trigger] r[y].0 by {
        if x < s.len() && y < s.len() {
            assert(r[x] == s[x] && r[y] == s[y]);
        } else if x < s.len() {
            assert(r[x] == s[x]);
        } else {
            assert(r[y] == s[y]);
        }
    }
}

/// `last_unused_in` reads only the used bits of `[lo, hi)`.
pub proof fn lemma_last_unused_in_frame(s: Seq<Slot>, t: Seq<Slot>, lo: int, hi: int)
    requires
        0 <= lo,
        hi <= s.len(),
        hi <= t.len(),
        forall|j: int| lo <= j < hi ==> #[trigger] s[j].1 == t[j].1,
    ensures
        last_unused_in(s, lo, hi) == last_unused_in(t, lo, hi),
    decreases hi - lo,
{
    if hi > lo {
        lemma_last_unused_in_frame(s, t, lo, hi - 1);
    }
}

proof fn lemma_used_count_push(s: Seq<Slot>, x: Slot)
    ensures
        used_count(s.push(x)) == used_count(s) + if x.1 { 1nat } else { 0nat },
{
    assert(s.push(x).drop_last() =~= s);
}

proof fn lemma_used_count_bounds(s: Seq<Slot>)
    ensures
        (forall|j: int| 0 <= j < s.len() ==> #[trigger] s[j].1) ==> used_count(s) == s.len(),
        (forall|j: int| 0 <= j < s.len() ==> !#[trigger] s[j].1) ==> used_count(s) == 0,
    decreases s.len(),
{
    if s.len() > 0 {
        let t = s.drop_last();
        assert forall|j: int| 0 <= j < t.len() implies #[trigger] t[j] == s[j] by {}
        lemma_used_count_bounds(t);
    }
}

/// The soft capacity bound: at most `max` entries, or `max + 1` of which at
/// most one is in use.
pub open spec fn within_soft_bound(s: Seq<Slot>, max: nat) -> bool {
    s.len() <= max || (s.len() == max + 1 && used_count(s) <= 1)
}

/// Admitting new paths one after another never takes the cache beyond one
/// entry over its capacity: the soft bound is kept by every admission of a
/// path that is not held, for any capacity of at least one.
pub proof fn lemma_capacity_bound(s: Seq<Slot>, start: int, max: nat, p: Seq<char>)
    requires
        max >= 1,
        0 <= start <= s.len(),
        within_soft_bound(s, max),
        !has_path(s, p),
    ensures
        within_soft_bound(admitted(s, start, max, p), max),
        admitted(s, start, max, p).len() <= max + 1,
{
    let a = admitted(s, start, max, p);
    if s.len() >= max {
        lemma_victim(s, start);
        let c = cleared(s);
        lemma_used_count_bounds(c);
        match victim(s, start) {
            Some(v) => {
                let r = c.remove(v);
                assert forall|j: int| 0 <= j < r.len() implies !#[trigger] r[j].1 by {
                    if j < v {
                        assert(r[j] == c[j]);
                    } else {
                        assert(r[j] == c[j + 1]);
                    }
                }
                lemma_used_count_bounds(r);
                lemma_used_count_push(r, (p, true));
            },
            None => {
                lemma_used_count_bounds(s);
                lemma_used_count_push(c, (p, true));
            },
        }
    }
}

/// A slot in use when a sweep starts is not its victim and is still held
/// afterwards; whenever some slot is not in use, the sweep does pick a victim,
/// and that victim is a slot not in use.
pub proof fn lemma_second_chance(s: Seq<Slot>, start: int, i: int)
    requires
        0 <= start <= s.len(),
        0 <= i < s.len(),
        s[i].1,
    ensures
        victim(s, start) != Some(i),
        has_path(swept(s, start), s[i].0),
        (exists|j: int| 0 <= j < s.len() && !#[trigger] s[j].1) ==> (victim(s, start) matches Some(
            v,
        ) && !s[v].1),
{
    lemma_victim(s, start);
    let c = cleared(s);
    assert(c[i].0 == s[i].0);
    match victim(s, start) {
        Some(v) => {
            let r = c.remove(v);
            if i < v {
                assert(r[i] == c[i]);
            } else {
                assert(r[i - 1] == c[i]);
            }
        },
        None => {},
    }
}

/// Removing a path that is not held changes nothing, and removing the same
/// path twice leaves what removing it once leaves.
pub proof fn lemma_remove_idempotent(s: Seq<Slot>, p: Seq<char>)
    requires
        distinct_paths(s),
    ensures
        !has_path(s, p) ==> without(s, p) == s,
        without(without(s, p), p) == without(s, p),
{
    if has_path(s, p) {
        let i = index_of(s, p);
        lemma_remove_distinct(s, i);
    }
}

} // verus!
