//! The retention manager: the ordered indices of the rotated files of one
//! prefix, which names the next file and chooses which old files go.
use vstd::prelude::*;

use crate::naming::{log_filename, log_index, log_index_of, log_name};

verus! {

/// Every element is smaller than the next: sorted, with no duplicates.
pub open spec fn strictly_increasing(s: Seq<u32>) -> bool {
    forall|i: int, j: int| 0 <= i < j < s.len() ==> s[i] < s[j]
}

/// The index that the next rotation is given: one more than the largest
/// known index, or 1 when there is none.
pub open spec fn next_index_after(s: Seq<u32>) -> nat {
    if s.len() == 0 {
        1
    } else {
        s.last() as nat + 1
    }
}

/// The indices that remain after retention keeps the newest `to_keep`.
pub open spec fn kept(s: Seq<u32>, to_keep: nat) -> Seq<u32> {
    if s.len() > to_keep {
        s.subrange(s.len() - to_keep, s.len() as int)
    } else {
        s
    }
}

/// The oldest indices that retention drops, oldest first.
pub open spec fn dropped(s: Seq<u32>, to_keep: nat) -> Seq<u32> {
    if s.len() > to_keep {
        s.subrange(0, s.len() - to_keep)
    } else {
        seq![]
    }
}

/// The indices that a directory holding the entries `names` shows for `prefix`.
pub open spec fn listed_indices(names: Seq<Seq<char>>, prefix: Seq<char>) -> Set<u32> {
    Set::new(|i: u32| exists|j: int| 0 <= j < names.len() && log_index_of(#[trigger] names[j], prefix) == Some(i))
}

pub struct LogManager {
    prefix: String,
    log_indices: Vec<u32>,
}

impl LogManager {
    /// The prefix of every rotated file name.
    pub closed spec fn prefix(&self) -> Seq<char> {
        self.prefix@
    }

    /// The indices of the rotated files, oldest first.
    pub closed spec fn indices(&self) -> Seq<u32> {
        self.log_indices@
    }

    pub open spec fn wf(&self) -> bool {
        strictly_increasing(self.indices())
    }

    /// Whether a further index can be handed out: the largest index in use
    /// is below `u32::MAX`.
    pub open spec fn can_advance(&self) -> bool {
        next_index_after(self.indices()) <= u32::MAX
    }

    /// Builds the manager from the names of the entries of the log directory.
    /// Entries that are not `{prefix}{digits}.log` are ignored; the indices
    /// are kept in ascending order, each once.
    pub fn new(prefix: String, names: &Vec<String>) -> (r: LogManager)
        ensures
            r.wf(),
            r.prefix() == prefix@,
            r.indices().to_set() == listed_indices(names@.map_values(|s: String| s@), prefix@),
    {
        let ghost views = names@.map_values(|s: String| s@);
        let mut log_indices: Vec<u32> = Vec::new();
        let mut k: usize = 0;
        while k < names.len()
            invariant
                0 <= k <= names.len(),
                views == names@.map_values(|s: String| s@),
                strictly_increasing(log_indices@),
                forall|x: u32| log_indices@.contains(x) <==> exists|j: int|
                    0 <= j < k && log_index_of(#[trigger] views[j], prefix@) == Some(x),
            decreases names.len() - k,
        {
            let found = log_index(names[k].as_str(), prefix.as_str());
            assert(views[k as int] == names@[k as int]@);
            if let Some(x) = found {
                insert_sorted(&mut log_indices, x);
            }
            assert forall|y: u32| log_indices@.contains(y) <==> exists|j: int|
                0 <= j < k + 1 && log_index_of(#[trigger] views[j], prefix@) == Some(y) by {
                if log_indices@.contains(y) && found != Some(y) {
                    let j = choose|j: int| 0 <= j < k && log_index_of(#[trigger] views[j], prefix@) == Some(y);
                    assert(0 <= j < k + 1);
                }
                if exists|j: int| 0 <= j < k + 1 && log_index_of(#[trigger] views[j], prefix@) == Some(y) {
                    let j = choose|j: int| 0 <= j < k + 1 && log_index_of(#[trigger] views[j], prefix@) == Some(y);
                    if j < k {
                        assert(exists|j: int| 0 <= j < k && log_index_of(#[trigger] views[j], prefix@) == Some(y));
                    }
                }
            }
            k += 1;
        }
        let r = LogManager { prefix, log_indices };
        assert(r.indices().to_set() =~= listed_indices(views, r.prefix())) by {
            assert forall|x: u32| r.indices().to_set().contains(x) <==> listed_indices(views, r.prefix()).contains(x) by {
                if r.indices().contains(x) {
                    let j = choose|j: int| 0 <= j < k && log_index_of(#[trigger] views[j], prefix@) == Some(x);
                    assert(0 <= j < views.len());
                }
            }
        }
        r
    }

    /// The indices of the rotated files, oldest first.
    pub fn log_indices(&self) -> (r: Vec<u32>)
        ensures
            r@ == self.indices(),
    {
        let mut r: Vec<u32> = Vec::new();
        let mut i: usize = 0;
        while i < self.log_indices.len()
            invariant
                0 <= i <= self.log_indices@.len(),
                r@ == self.log_indices@.subrange(0, i as int),
            decreases self.log_indices@.len() - i,
        {
            r.push(self.log_indices[i]);
            i += 1;
            assert(r@ =~= self.log_indices@.subrange(0, i as int));
        }
        assert(r@ =~= self.log_indices@);
        r
    }

    /// Whether a further index can be handed out.
    pub fn has_next_index(&self) -> (r: bool)
        ensures
            r == self.can_advance(),
    {
        match self.log_indices.last() {
            Some(x) => *x < u32::MAX,
            None => true,
        }
    }

    /// Hands out the next index: one more than the largest known index, or 1
    /// when there is none; it joins the tracked indices at the back.
    pub fn next_index(&mut self) -> (r: u32)
        requires
            old(self).wf(),
            old(self).can_advance(),
        ensures
            final(self).wf(),
            r == next_index_after(old(self).indices()),
            final(self).indices() == old(self).indices().push(r),
            final(self).prefix() == old(self).prefix(),
    {
        let i: u32 = match self.log_indices.last() {
            Some(x) => *x + 1,
            None => 1,
        };
        self.log_indices.push(i);
        i
    }

    /// Hands out the next index as `next_index` does and returns the name of
    /// the file that carries it.
    pub fn next_logfile(&mut self) -> (r: String)
        requires
            old(self).wf(),
            old(self).can_advance(),
        ensures
            final(self).wf(),
            final(self).indices() == old(self).indices().push(next_index_after(old(self).indices()) as u32),
            final(self).prefix() == old(self).prefix(),
            r@ == log_name(old(self).prefix(), next_index_after(old(self).indices())),
    {
        let i = self.next_index();
        self.filename(i)
    }

    /// The name of the rotated file with the given index: `{prefix}{index}.log`.
    pub fn filename(&self, index: u32) -> (r: String)
        ensures
            r@ == log_name(self.prefix(), index as nat),
    {
        log_filename(self.prefix.as_str(), index)
    }

    /// Drops the oldest indices until at most `to_keep` remain, and returns
    /// the names of the files they stand for, oldest first, for deletion.
    pub fn cleanup_old(&mut self, to_keep: usize) -> (r: Vec<String>)
        requires
            old(self).wf(),
        ensures
            final(self).wf(),
            final(self).prefix() == old(self).prefix(),
            final(self).indices() == kept(old(self).indices(), to_keep as nat),
            r@.len() == dropped(old(self).indices(), to_keep as nat).len(),
            forall|k: int| 0 <= k < r@.len() ==>
                #[trigger] r@[k]@ == log_name(old(self).prefix(), dropped(old(self).indices(), to_keep as nat)[k] as nat),
    {
        let ghost s = self.log_indices@;
        let mut removed: Vec<String> = Vec::new();
        while self.log_indices.len() > to_keep
            invariant
                self.prefix@ == old(self).prefix@,
                s == old(self).log_indices@,
                removed@.len() <= s.len(),
                s.len() > to_keep ==> removed@.len() <= s.len() - to_keep,
                s.len() <= to_keep ==> removed@.len() == 0,
                self.log_indices@ == s.subrange(removed@.len() as int, s.len() as int),
                forall|k: int| 0 <= k < removed@.len() ==>
                    #[trigger] removed@[k]@ == log_name(self.prefix@, s[k] as nat),
            decreases self.log_indices@.len(),
        {
            let index = self.log_indices.remove(0);
            let name = self.filename(index);
            removed.push(name);
            assert(self.log_indices@ =~= s.subrange(removed@.len() as int, s.len() as int));
        }
        proof {
            if s.len() > to_keep {
                assert(removed@.len() == s.len() - to_keep);
            } else {
                assert(self.log_indices@ =~= s);
            }
            assert forall|k: int| 0 <= k < removed@.len() implies
                #[trigger] removed@[k]@ == log_name(old(self).prefix(), dropped(s, to_keep as nat)[k] as nat) by {
                assert(dropped(s, to_keep as nat)[k] == s[k]);
            }
        }
        removed
    }
}

/// Inserts `x` into an ascending vector of distinct values, unless it is
/// there already.
fn insert_sorted(v: &mut Vec<u32>, x: u32)
    requires
        strictly_increasing(old(v)@),
    ensures
        strictly_increasing(final(v)@),
        forall|y: u32| final(v)@.contains(y) <==> (old(v)@.contains(y) || y == x),
{
    let mut i: usize = 0;
    while i < v.len() && v[i] < x
        invariant
            0 <= i <= v.len(),
            v@ == old(v)@,
            strictly_increasing(v@),
            forall|j: int| 0 <= j < i ==> v@[j] < x,
        decreases v.len() - i,
    {
        i += 1;
    }
    if i < v.len() && v[i] == x {
        assert(v@[i as int] == x);
        return;
    }
    let ghost s = v@;
    v.insert(i, x);
    assert forall|a: int, b: int| 0 <= a < b < v@.len() implies v@[a] < v@[b] by {
        if b < i {
        } else if b == i {
        } else if a < i {
            assert(v@[b] == s[b - 1]);
        } else if a == i {
            assert(v@[b] == s[b - 1]);
            if b - 1 > i {
                assert(s[i as int] < s[b - 1]);
            }
        } else {
            assert(v@[a] == s[a - 1]);
            assert(v@[b] == s[b - 1]);
        }
    }
    assert forall|y: u32| v@.contains(y) <==> (s.contains(y) || y == x) by {
        if v@.contains(y) {
            let j = choose|j: int| 0 <= j < v@.len() && v@[j] == y;
            if j < i {
                assert(s[j] == y);
                assert(s.contains(y));
            } else if j > i {
                assert(s[j - 1] == y);
                assert(s.contains(y));
            }
        }
        if s.contains(y) {
            let j = choose|j: int| 0 <= j < s.len() && s[j] == y;
            if j < i {
                assert(v@[j] == y);
            } else {
                assert(v@[j + 1] == y);
            }
            assert(v@.contains(y));
        }
        if y == x {
            assert(v@[i as int] == y);
            assert(v@.contains(y));
        }
    }
}

} // verus!
