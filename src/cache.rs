//! The file cache: a bounded registry from paths to open handles, with a
//! used bit per entry and a rotating clock hand for eviction.
use vstd::prelude::*;
use crate::clock::{
    lemma_cleared_distinct, lemma_remove_distinct, lemma_push_distinct, lemma_victim, lemma_last_unused_in_frame,
    Slot, has_path, distinct_paths, index_of, cleared, last_unused_in, victim, swept,
    made_room, without, touched,
};

verus! {

/// One cached backing file: its path, its second-chance bit, and the open
/// handle (a mapping, or a file) that the cache's owner created for it.
pub struct Entry<T> {
    pub path: String,
    pub used: bool,
    pub handle: T,
}

/// A bounded set of open files keyed by path.
///
/// The handles are opaque to the cache: its owner opens and maps files,
/// hands them over on admission, and flushes the ones that the cache gives back.
pub struct FileCache<T> {
    entries: Vec<Entry<T>>,
    max_open_files: usize,
    hand: usize,
}

pub open spec fn slot_of<T>(e: Entry<T>) -> Slot {
    (e.path@, e.used)
}

impl<T> FileCache<T> {
    /// The paths held and their used bits, in storage order.
    pub closed spec fn slots(&self) -> Seq<Slot> {
        self.entries@.map_values(|e: Entry<T>| slot_of(e))
    }

    /// The handles held, in the same order as `slots`.
    pub closed spec fn handles(&self) -> Seq<T> {
        self.entries@.map_values(|e: Entry<T>| e.handle)
    }

    /// The capacity the cache was built with.
    pub closed spec fn capacity(&self) -> nat {
        self.max_open_files as nat
    }

    /// Where the next sweep begins.
    pub closed spec fn sweep_start(&self) -> int {
        if self.entries@.len() == 0 {
            0
        } else {
            (self.hand as int) % (self.entries@.len() as int)
        }
    }

    /// The next sweep starts at a slot of the cache, so the eviction laws apply to it.
    pub proof fn lemma_sweep_start(&self)
        ensures
            0 <= self.sweep_start() <= self.slots().len(),
            self.slots().len() > 0 ==> self.sweep_start() < self.slots().len(),
    {
    }

    /// No path is held twice.
    pub open spec fn wf(&self) -> bool {
        distinct_paths(self.slots())
    }

    /// An empty cache that holds at most `max_open_files` entries in the common case.
    pub fn new(max_open_files: usize) -> (r: Self)
        ensures
            r.wf(),
            r.slots() == Seq::<Slot>::empty(),
            r.handles() == Seq::<T>::empty(),
            r.capacity() == max_open_files,
    {
        let r = FileCache { entries: Vec::new(), max_open_files, hand: 0 };
        proof {
            assert(r.slots() =~= Seq::<Slot>::empty());
            assert(r.handles() =~= Seq::<T>::empty());
        }
        r
    }

    /// The number of entries held.
    pub fn len(&self) -> (r: usize)
        ensures
            r == self.slots().len(),
    {
        self.entries.len()
    }

    /// The capacity the cache was built with.
    pub fn max_open_files(&self) -> (r: usize)
        ensures
            r == self.capacity(),
    {
        self.max_open_files
    }

    /// The position of the entry for `path`, if it is held.
    pub fn find(&self, path: &String) -> (r: Option<usize>)
        requires
            self.wf(),
        ensures
            r is None <==> !has_path(self.slots(), path@),
            r matches Some(i) ==> i < self.slots().len() && self.slots()[i as int].0 == path@
                && index_of(self.slots(), path@) == i,
    {
        let mut i: usize = 0;
        while i < self.entries.len()
            invariant
                self.wf(),
                i <= self.entries@.len(),
                forall|j: int| 0 <= j < i ==> self.slots()[j].0 != path@,
            decreases self.entries@.len() - i,
        {
            if self.entries[i].path == *path {
                proof {
                    assert(self.slots()[i as int].0 == path@);
                    let k = index_of(self.slots(), path@);
                    assert(0 <= k < self.slots().len() && self.slots()[k].0 == path@);
                    if k != i as int {
                        assert(self.slots()[k].0 != self.slots()[i as int].0);
                    }
                }
                return Some(i);
            }
            i = i + 1;
        }
        proof {
            assert forall|j: int| 0 <= j < self.slots().len() implies #[trigger] self.slots()[j].0
                != path@ by {}
        }
        None
    }

    /// Whether an entry for `path` is held.
    pub fn contains(&self, path: &String) -> (r: bool)
        requires
            self.wf(),
        ensures
            r == has_path(self.slots(), path@),
    {
        self.find(path).is_some()
    }
}

/// The position `o` as a mathematical integer.
pub open spec fn opt_int(o: Option<usize>) -> Option<int> {
    match o {
        Some(v) => Some(v as int),
        None => None,
    }
}

impl<T> FileCache<T> {
    /// Clears the used bits of `[lo, hi)`, and returns the last of them that was clear.
    fn clear_span(&mut self, lo: usize, hi: usize) -> (r: Option<usize>)
        requires
            lo <= hi <= old(self).entries@.len(),
        ensures
            final(self).entries@.len() == old(self).entries@.len(),
            final(self).max_open_files == old(self).max_open_files,
            final(self).hand == old(self).hand,
            forall|j: int| 0 <= j < old(self).entries@.len() ==> {
                &&& (#[trigger] final(self).entries@[j]).path == old(self).entries@[j].path
                &&& final(self).entries@[j].handle == old(self).entries@[j].handle
                &&& final(self).entries@[j].used == if lo <= j < hi { false } else {
                    old(self).entries@[j].used
                }
            },
            opt_int(r) == last_unused_in(old(self).slots(), lo as int, hi as int),
    {
        let ghost s0 = old(self).slots();
        let ghost e0 = old(self).entries@;
        let mut last: Option<usize> = None;
        let mut i: usize = lo;
        while i < hi
            invariant
                lo <= i <= hi <= e0.len(),
                self.entries@.len() == e0.len(),
                self.max_open_files == old(self).max_open_files,
                self.hand == old(self).hand,
                s0 == e0.map_values(|e: Entry<T>| slot_of(e)),
                forall|j: int| 0 <= j < e0.len() ==> {
                    &&& (#[trigger] self.entries@[j]).path == e0[j].path
                    &&& self.entries@[j].handle == e0[j].handle
                    &&& self.entries@[j].used == if lo <= j < i { false } else { e0[j].used }
                },
                opt_int(last) == last_unused_in(s0, lo as int, i as int),
            decreases hi - i,
        {
            proof {
                assert(s0[i as int] == slot_of(e0[i as int]));
            }
            if !self.entries[i].used {
                last = Some(i);
            }
            self.entries[i].used = false;
            i = i + 1;
        }
        last
    }

    /// One pass of the clock hand: clears every used bit and returns the
    /// position of the victim, starting from `sweep_start` and advancing it.
    fn sweep(&mut self) -> (r: Option<usize>)
        requires
            old(self).entries@.len() > 0,
        ensures
            final(self).slots() == cleared(old(self).slots()),
            final(self).handles() == old(self).handles(),
            final(self).max_open_files == old(self).max_open_files,
            opt_int(r) == victim(old(self).slots(), old(self).sweep_start()),
    {
        let ghost s0 = old(self).slots();
        let ghost e0 = old(self).entries@;
        let n = self.entries.len();
        let start = self.hand % n;
        let late = self.clear_span(start, n);
        let ghost s1 = self.slots();
        proof {
            assert forall|j: int| 0 <= j < start implies #[trigger] s1[j].1 == s0[j].1 by {
                assert(s1[j] == slot_of(self.entries@[j]));
                assert(s0[j] == slot_of(e0[j]));
            }
            lemma_last_unused_in_frame(s1, s0, 0, start as int);
        }
        let early = self.clear_span(0, start);
        self.hand = start + 1;
        proof {
            assert forall|j: int| 0 <= j < n implies #[trigger] self.entries@[j].path == e0[j].path
                && self.entries@[j].handle == e0[j].handle && !self.entries@[j].used by {}
            assert(self.slots() =~= cleared(s0));
            assert(self.handles() =~= old(self).handles());
        }
        if early.is_some() {
            early
        } else {
            late
        }
    }
}

impl<T> FileCache<T> {
    /// Takes out the entry at position `i`, keeping the order of the others.
    fn remove_at(&mut self, i: usize) -> (r: Entry<T>)
        requires
            old(self).wf(),
            i < old(self).entries@.len(),
        ensures
            final(self).wf(),
            final(self).slots() == old(self).slots().remove(i as int),
            final(self).handles() == old(self).handles().remove(i as int),
            final(self).max_open_files == old(self).max_open_files,
            slot_of(r) == old(self).slots()[i as int],
            r.handle == old(self).handles()[i as int],
    {
        let r = self.entries.remove(i);
        proof {
            assert(self.slots() =~= old(self).slots().remove(i as int));
            assert(self.handles() =~= old(self).handles().remove(i as int));
            lemma_remove_distinct(old(self).slots(), i as int);
        }
        r
    }

    /// Makes room to admit `path`. When `path` is not held and the cache is
    /// full, one sweep of the clock hand runs and its victim, if any, is taken
    /// out and handed back so that its owner can flush it. When every entry was
    /// in use no victim is chosen, and the next admission goes one over the capacity.
    pub fn make_room_for(&mut self, path: &String) -> (r: Option<Entry<T>>)
        requires
            old(self).wf(),
        ensures
            final(self).wf(),
            final(self).capacity() == old(self).capacity(),
            final(self).slots() == if has_path(old(self).slots(), path@) {
                old(self).slots()
            } else {
                made_room(old(self).slots(), old(self).sweep_start(), old(self).capacity())
            },
            has_path(final(self).slots(), path@) == has_path(old(self).slots(), path@),
            r is Some <==> !has_path(old(self).slots(), path@)
                && old(self).slots().len() >= old(self).capacity()
                && victim(old(self).slots(), old(self).sweep_start()) is Some,
            r matches Some(e) ==> {
                let v = victim(old(self).slots(), old(self).sweep_start())->Some_0;
                &&& e.path@ == old(self).slots()[v].0
                &&& e.handle == old(self).handles()[v]
                &&& final(self).handles() == old(self).handles().remove(v)
            },
            r is None ==> final(self).handles() == old(self).handles(),
    {
        if self.contains(path) || self.entries.len() < self.max_open_files {
            return None;
        }
        let ghost s0 = self.slots();
        let ghost start = self.sweep_start();
        if self.entries.len() == 0 {
            proof {
                assert(cleared(s0) =~= s0);
            }
            return None;
        }
        proof {
            lemma_victim(s0, start);
        }
        let v = self.sweep();
        proof {
            lemma_cleared_distinct(s0);
        }
        match v {
            Some(i) => {
                proof {
                    assert(self.slots().len() == cleared(s0).len());
                    assert(self.entries@.len() == self.slots().len());
                }
                let e = self.remove_at(i);
                proof {
                    lemma_remove_distinct(cleared(s0), i as int);
                }
                Some(e)
            },
            None => None,
        }
    }

    /// Admits `path` with its open handle; the new entry starts out used.
    pub fn insert(&mut self, path: String, handle: T)
        requires
            old(self).wf(),
            !has_path(old(self).slots(), path@),
        ensures
            final(self).wf(),
            final(self).capacity() == old(self).capacity(),
            final(self).slots() == old(self).slots().push((path@, true)),
            final(self).handles() == old(self).handles().push(handle),
    {
        let ghost p = path@;
        self.entries.push(Entry { path, used: true, handle });
        proof {
            assert(self.slots() =~= old(self).slots().push((p, true)));
            assert(self.handles() =~= old(self).handles().push(handle));
            lemma_push_distinct(old(self).slots(), p, true);
        }
    }

    /// Drops the entry for `path` and hands its handle back for flushing;
    /// nothing changes when `path` is not held.
    pub fn remove_file(&mut self, path: &String) -> (r: Option<T>)
        requires
            old(self).wf(),
        ensures
            final(self).wf(),
            final(self).capacity() == old(self).capacity(),
            final(self).slots() == without(old(self).slots(), path@),
            r is Some <==> has_path(old(self).slots(), path@),
            r matches Some(h) ==> {
                let i = index_of(old(self).slots(), path@);
                &&& h == old(self).handles()[i]
                &&& final(self).handles() == old(self).handles().remove(i)
            },
            r is None ==> final(self).handles() == old(self).handles(),
    {
        match self.find(path) {
            Some(i) => {
                let e = self.remove_at(i);
                Some(e.handle)
            },
            None => None,
        }
    }

    /// Marks the entry for `path` used, as every access does, and returns its
    /// position; nothing changes when `path` is not held.
    pub fn get_file_range(&mut self, path: &String) -> (r: Option<usize>)
        requires
            old(self).wf(),
        ensures
            final(self).wf(),
            final(self).capacity() == old(self).capacity(),
            final(self).slots() == touched(old(self).slots(), path@),
            final(self).handles() == old(self).handles(),
            r is Some <==> has_path(old(self).slots(), path@),
            r matches Some(i) ==> i as int == index_of(old(self).slots(), path@) && i
                < final(self).slots().len(),
    {
        match self.find(path) {
            Some(i) => {
                self.entries[i].used = true;
                proof {
                    assert(self.slots() =~= touched(old(self).slots(), path@));
                    assert(self.handles() =~= old(self).handles());
                    let s = self.slots();
                    assert forall|a: int, b: int| 0 <= a < s.len() && 0 <= b < s.len() && a
                        != b implies #[trigger] s[a].0 != #[trigger] s[b].0 by {
                        assert(s[a].0 == old(self).slots()[a].0);
                        assert(s[b].0 == old(self).slots()[b].0);
                    }
                }
                Some(i)
            },
            None => None,
        }
    }

    /// The handle at position `i`, to read or write through.
    pub fn handle_mut(&mut self, i: usize) -> (r: &mut T)
        requires
            i < old(self).slots().len(),
        ensures
            *r == old(self).handles()[i as int],
            final(self).handles() == old(self).handles().update(i as int, *final(r)),
            final(self).slots() == old(self).slots(),
            final(self).capacity() == old(self).capacity(),
            final(self).sweep_start() == old(self).sweep_start(),
    {
        &mut self.entries[i].handle
    }
}

impl<T> FileCache<T> {
    /// The handle for `path`, for its owner to flush; the cache itself is not
    /// changed, and an unknown path gives `None`.
    pub fn flush_file(&self, path: &String) -> (r: Option<&T>)
        requires
            self.wf(),
        ensures
            r is Some <==> has_path(self.slots(), path@),
            r matches Some(h) ==> *h == self.handles()[index_of(self.slots(), path@)],
    {
        match self.find(path) {
            Some(i) => Some(&self.entries[i].handle),
            None => None,
        }
    }

    /// The used bit of the entry for `path`, if it is held.
    pub fn is_used(&self, path: &String) -> (r: Option<bool>)
        requires
            self.wf(),
        ensures
            r is Some <==> has_path(self.slots(), path@),
            r matches Some(b) ==> b == self.slots()[index_of(self.slots(), path@)].1,
    {
        match self.find(path) {
            Some(i) => Some(self.entries[i].used),
            None => None,
        }
    }

    /// Takes every entry out, in storage order, for its owner to flush at teardown.
    pub fn drain(&mut self) -> (r: Vec<Entry<T>>)
        ensures
            final(self).wf(),
            final(self).capacity() == old(self).capacity(),
            final(self).slots() == Seq::<Slot>::empty(),
            r@.map_values(|e: Entry<T>| slot_of(e)) == old(self).slots(),
            r@.map_values(|e: Entry<T>| e.handle) == old(self).handles(),
    {
        let mut r: Vec<Entry<T>> = Vec::new();
        core::mem::swap(&mut self.entries, &mut r);
        proof {
            assert(self.slots() =~= Seq::<Slot>::empty());
        }
        r
    }
}

} // verus!
