//! The stream rotator: how each chunk read from the input is written, and
//! when the `current` file is rotated into the numbered history.
//!
//! The rotator only decides. Whoever owns the files performs each
//! `Decision`: it writes `chunk[..split]` to `current`, renames `current` to
//! the rotation's target, deletes the removed files, opens a fresh `current`
//! and writes `chunk[split..]` there.
use vstd::prelude::*;

use crate::manager::{dropped, kept, next_index_after, LogManager};
use crate::naming::log_name;

verus! {

/// The newline byte, the only place where a file is split.
pub const NEWLINE: u8 = 10;

/// The size of the read buffer: how many bytes one read hands over at most.
pub const READ_BUFFER_SIZE: usize = 1024;

/// The position of the first newline in `s`.
pub open spec fn newline_index(s: Seq<u8>) -> Option<nat>
    decreases s.len(),
{
    if s.len() == 0 {
        None
    } else if s[0] == NEWLINE {
        Some(0)
    } else {
        match newline_index(s.drop_first()) {
            Some(i) => Some(i + 1),
            None => None,
        }
    }
}

/// Where a chunk is split when `counter` bytes were counted for `current`
/// before it: right after its first newline, once the count with the chunk
/// reaches the threshold; nowhere otherwise.
pub open spec fn split_after(counter: nat, threshold: nat, chunk: Seq<u8>) -> Option<nat> {
    if counter + chunk.len() >= threshold {
        match newline_index(chunk) {
            Some(i) => Some(i + 1),
            None => None,
        }
    } else {
        None
    }
}

/// The byte count after `len` more bytes, held at `u64::MAX`.
pub open spec fn grown(counter: u64, len: nat) -> u64 {
    if counter + len > u64::MAX {
        u64::MAX
    } else {
        (counter + len) as u64
    }
}

/// The first newline of `s`, described by its properties.
pub proof fn lemma_newline_index(s: Seq<u8>)
    ensures
        newline_index(s) is Some ==> {
            let i = newline_index(s)->0;
            &&& i < s.len()
            &&& s[i as int] == NEWLINE
            &&& forall|j: int| 0 <= j < i ==> s[j] != NEWLINE
        },
        newline_index(s) is None ==> forall|j: int| 0 <= j < s.len() ==> s[j] != NEWLINE,
    decreases s.len(),
{
    if s.len() > 0 && s[0] != NEWLINE {
        let t = s.drop_first();
        lemma_newline_index(t);
        assert forall|j: int| 0 < j < s.len() implies s[j] == t[j - 1] by {}
        match newline_index(t) {
            Some(i) => {
                assert forall|j: int| 0 <= j < i + 1 implies s[j] != NEWLINE by {
                    if j > 0 {
                        assert(s[j] == t[j - 1]);
                    }
                }
            },
            None => {
                assert forall|j: int| 0 <= j < s.len() implies s[j] != NEWLINE by {
                    if j > 0 {
                        assert(s[j] == t[j - 1]);
                    }
                }
            },
        }
    }
}

/// The position of the first newline in `chunk`, if there is one.
pub fn find_newline(chunk: &[u8]) -> (r: Option<usize>)
    ensures
        match r {
            Some(i) => i < chunk@.len() && newline_index(chunk@) == Some(i as nat),
            None => newline_index(chunk@) is None,
        },
{
    let mut i: usize = 0;
    while i < chunk.len()
        invariant
            0 <= i <= chunk@.len(),
            forall|j: int| 0 <= j < i ==> chunk@[j] != NEWLINE,
        decreases chunk@.len() - i,
    {
        if chunk[i] == NEWLINE {
            proof {
                lemma_newline_index(chunk@);
                if newline_index(chunk@) is Some {
                    let k = newline_index(chunk@)->0;
                    if k < i {
                        assert(chunk@[k as int] != NEWLINE);
                    } else if k > i {
                        assert(chunk@[i as int] != NEWLINE);
                    }
                } else {
                    assert(chunk@[i as int] != NEWLINE);
                }
            }
            return Some(i);
        }
        i += 1;
    }
    proof {
        lemma_newline_index(chunk@);
        if let Some(k) = newline_index(chunk@) {
            assert(chunk@[k as int] != NEWLINE);
        }
    }
    None
}

/// Where a chunk is split, given the bytes counted for `current` before it
/// and the size threshold: right after its first newline when the count with
/// the chunk reaches the threshold, and nowhere when the chunk holds no
/// newline or the threshold is not reached.
pub fn split_point(counter: u64, threshold: u64, chunk: &[u8]) -> (r: Option<usize>)
    ensures
        match r {
            Some(k) => k <= chunk@.len() && split_after(counter as nat, threshold as nat, chunk@) == Some(k as nat),
            None => split_after(counter as nat, threshold as nat, chunk@) is None,
        },
{
    let len = chunk.len() as u64;
    let reached = if counter > threshold { true } else { len >= threshold - counter };
    if !reached {
        return None;
    }
    match find_newline(chunk) {
        Some(i) => Some(i + 1),
        None => None,
    }
}

/// What one rotation does on disk: `current` is renamed to `target`, the
/// files in `removed` are deleted (a failed deletion is ignored), and a
/// fresh, empty `current` is opened.
pub struct Rotation {
    pub target: String,
    pub removed: Vec<String>,
}

/// What to do with a chunk that was read (or, at startup, with no chunk).
pub enum Decision {
    /// Write the whole chunk to `current`.
    Keep,
    /// Write `chunk[..split]` to `current`, perform the rotation, then write
    /// `chunk[split..]` to the fresh `current`.
    Rotate { split: usize, rotation: Rotation },
    /// A rotation is due but every index up to `u32::MAX` is in use; this is
    /// a fatal condition.
    OutOfIndices,
}

/// `rotation`, and the manager going from `before` to `after`, are one
/// rotation that keeps at most `to_keep` rotated files: the next index is
/// handed out, its file name is the target, and the oldest indices beyond
/// `to_keep` are dropped and their files removed.
pub open spec fn is_rotation(before: LogManager, after: LogManager, to_keep: nat, rotation: Rotation) -> bool {
    let next = next_index_after(before.indices());
    let grown_indices = before.indices().push(next as u32);
    &&& after.wf()
    &&& after.prefix() == before.prefix()
    &&& after.indices() == kept(grown_indices, to_keep)
    &&& rotation.target@ == log_name(before.prefix(), next)
    &&& rotation.removed@.len() == dropped(grown_indices, to_keep).len()
    &&& forall|k: int| 0 <= k < rotation.removed@.len() ==>
        #[trigger] rotation.removed@[k]@ == log_name(before.prefix(), dropped(grown_indices, to_keep)[k] as nat)
}

/// The rotation engine's state: the retention manager, the configuration,
/// and the bytes written to `current` since it was last opened fresh.
pub struct Rotator {
    manager: LogManager,
    size_threshold: u64,
    to_keep: u32,
    file_size: u64,
}

impl Rotator {
    pub closed spec fn manager(&self) -> LogManager {
        self.manager
    }

    /// The size in bytes at which `current` is due for rotation.
    pub closed spec fn threshold(&self) -> u64 {
        self.size_threshold
    }

    /// How many rotated files are retained.
    pub closed spec fn keep(&self) -> u32 {
        self.to_keep
    }

    /// The bytes counted for `current`.
    pub closed spec fn counter(&self) -> u64 {
        self.file_size
    }

    pub open spec fn wf(&self) -> bool {
        self.manager().wf()
    }

    /// Starts the engine over the retention manager, with `current` holding
    /// `current_size` bytes already.
    pub fn new(manager: LogManager, size_threshold: u64, to_keep: u32, current_size: u64) -> (r: Rotator)
        requires
            manager.wf(),
        ensures
            r.wf(),
            r.manager() == manager,
            r.threshold() == size_threshold,
            r.keep() == to_keep,
            r.counter() == current_size,
    {
        Rotator { manager, size_threshold, to_keep, file_size: current_size }
    }

    /// The bytes counted for `current`.
    pub fn current_size(&self) -> (r: u64)
        ensures
            r == self.counter(),
    {
        self.file_size
    }

    /// The retention manager.
    pub fn log_manager(&self) -> (r: &LogManager)
        ensures
            *r == self.manager(),
    {
        &self.manager
    }

    /// Hands out the next file name and applies retention.
    fn next_rotation(&mut self) -> (r: Option<Rotation>)
        requires
            old(self).wf(),
        ensures
            final(self).threshold() == old(self).threshold(),
            final(self).keep() == old(self).keep(),
            final(self).counter() == old(self).counter(),
            match r {
                Some(rotation) => old(self).manager().can_advance()
                    && is_rotation(old(self).manager(), final(self).manager(), old(self).keep() as nat, rotation),
                None => !old(self).manager().can_advance() && *final(self) == *old(self),
            },
    {
        if !self.manager.has_next_index() {
            return None;
        }
        let target = self.manager.next_logfile();
        let removed = self.manager.cleanup_old(self.to_keep as usize);
        Some(Rotation { target, removed })
    }

    /// At startup: with `rotate_on_start` and a non-empty `current`, a
    /// rotation comes before any input is read; an empty `current` is never
    /// rotated.
    pub fn on_start(&mut self, rotate_on_start: bool) -> (r: Decision)
        requires
            old(self).wf(),
        ensures
            final(self).wf(),
            final(self).threshold() == old(self).threshold(),
            final(self).keep() == old(self).keep(),
            !(rotate_on_start && old(self).counter() > 0) ==> r is Keep && *final(self) == *old(self),
            rotate_on_start && old(self).counter() > 0 && old(self).manager().can_advance() ==>
                match r {
                    Decision::Rotate { split, rotation } => split == 0 && final(self).counter() == 0
                        && is_rotation(old(self).manager(), final(self).manager(), old(self).keep() as nat, rotation),
                    _ => false,
                },
            rotate_on_start && old(self).counter() > 0 && !old(self).manager().can_advance() ==>
                r is OutOfIndices && *final(self) == *old(self),
    {
        if !(rotate_on_start && self.file_size > 0) {
            return Decision::Keep;
        }
        match self.next_rotation() {
            Some(rotation) => {
                self.file_size = 0;
                Decision::Rotate { split: 0, rotation }
            },
            None => Decision::OutOfIndices,
        }
    }

    /// After a read of `chunk`: the chunk is counted for `current`; once the
    /// count reaches the threshold, a rotation follows the first newline of
    /// the chunk, and the count restarts with the bytes after it. A chunk
    /// without a newline defers the rotation.
    pub fn on_read(&mut self, chunk: &[u8]) -> (r: Decision)
        requires
            old(self).wf(),
        ensures
            final(self).wf(),
            final(self).threshold() == old(self).threshold(),
            final(self).keep() == old(self).keep(),
            match split_after(old(self).counter() as nat, old(self).threshold() as nat, chunk@) {
                None => r is Keep && final(self).manager() == old(self).manager()
                    && final(self).counter() == grown(old(self).counter(), chunk@.len()),
                Some(k) => if old(self).manager().can_advance() {
                    match r {
                        Decision::Rotate { split, rotation } => split == k
                            && final(self).counter() == chunk@.len() - k
                            && is_rotation(old(self).manager(), final(self).manager(), old(self).keep() as nat, rotation),
                        _ => false,
                    }
                } else {
                    r is OutOfIndices && *final(self) == *old(self)
                },
            },
    {
        match split_point(self.file_size, self.size_threshold, chunk) {
            None => {
                let len = chunk.len() as u64;
                self.file_size = self.file_size.saturating_add(len);
                Decision::Keep
            },
            Some(k) => match self.next_rotation() {
                Some(rotation) => {
                    self.file_size = (chunk.len() - k) as u64;
                    Decision::Rotate { split: k, rotation }
                },
                None => Decision::OutOfIndices,
            },
        }
    }
}

/// The bytes of `files`, one after the other.
pub open spec fn concat(files: Seq<Seq<u8>>) -> Seq<u8>
    decreases files.len(),
{
    if files.len() == 0 {
        seq![]
    } else {
        concat(files.drop_last()) + files.last()
    }
}

/// `files` with `bytes` written at the end of the last file.
pub open spec fn append_to_last(files: Seq<Seq<u8>>, bytes: Seq<u8>) -> Seq<Seq<u8>> {
    files.update(files.len() - 1, files.last() + bytes)
}

/// The contents of the files after one read of `chunk`, and the new count:
/// `files` holds the rotated files, oldest first, then `current`, whose
/// count is `counter`. A rotation closes `current` after the split and
/// starts a new one with the rest of the chunk.
pub open spec fn feed(files: Seq<Seq<u8>>, counter: nat, threshold: nat, chunk: Seq<u8>) -> (Seq<Seq<u8>>, nat) {
    match split_after(counter, threshold, chunk) {
        Some(k) => (
            append_to_last(files, chunk.subrange(0, k as int)).push(chunk.subrange(k as int, chunk.len() as int)),
            (chunk.len() - k) as nat,
        ),
        None => (append_to_last(files, chunk), counter + chunk.len()),
    }
}

/// The contents of the files after reading `chunks` in order.
pub open spec fn feed_all(files: Seq<Seq<u8>>, counter: nat, threshold: nat, chunks: Seq<Seq<u8>>) -> (Seq<Seq<u8>>, nat)
    decreases chunks.len(),
{
    if chunks.len() == 0 {
        (files, counter)
    } else {
        let before = feed_all(files, counter, threshold, chunks.drop_last());
        feed(before.0, before.1, threshold, chunks.last())
    }
}

proof fn lemma_concat_append_to_last(files: Seq<Seq<u8>>, bytes: Seq<u8>)
    requires
        files.len() > 0,
    ensures
        concat(append_to_last(files, bytes)) == concat(files) + bytes,
{
    let f = append_to_last(files, bytes);
    assert(f.drop_last() =~= files.drop_last());
    assert(concat(f) =~= concat(files) + bytes);
}

/// One read loses no byte and invents none: the files hold, one after the
/// other, what they held before and then the chunk.
pub proof fn lemma_feed_keeps_bytes(files: Seq<Seq<u8>>, counter: nat, threshold: nat, chunk: Seq<u8>)
    requires
        files.len() > 0,
    ensures
        feed(files, counter, threshold, chunk).0.len() > 0,
        concat(feed(files, counter, threshold, chunk).0) == concat(files) + chunk,
{
    lemma_concat_append_to_last(files, chunk);
    if let Some(k) = split_after(counter, threshold, chunk) {
        lemma_newline_index(chunk);
        let first = chunk.subrange(0, k as int);
        let second = chunk.subrange(k as int, chunk.len() as int);
        lemma_concat_append_to_last(files, first);
        let f = append_to_last(files, first).push(second);
        assert(f.drop_last() =~= append_to_last(files, first));
        assert(first + second =~= chunk);
        assert(concat(f) =~= concat(files) + chunk);
    }
}

/// Across any sequence of reads, no byte is lost or invented by rotation:
/// the rotated files followed by `current` hold exactly what they held at
/// the start followed by every byte read, in order.
pub proof fn lemma_stream_keeps_every_byte(files: Seq<Seq<u8>>, counter: nat, threshold: nat, chunks: Seq<Seq<u8>>)
    requires
        files.len() > 0,
    ensures
        feed_all(files, counter, threshold, chunks).0.len() > 0,
        concat(feed_all(files, counter, threshold, chunks).0) == concat(files) + concat(chunks),
    decreases chunks.len(),
{
    if chunks.len() > 0 {
        lemma_stream_keeps_every_byte(files, counter, threshold, chunks.drop_last());
        let before = feed_all(files, counter, threshold, chunks.drop_last());
        lemma_feed_keeps_bytes(before.0, before.1, threshold, chunks.last());
        assert(concat(files) + concat(chunks.drop_last()) + chunks.last() =~= concat(files) + concat(chunks));
    } else {
        assert(concat(files) + concat(chunks) =~= concat(files));
    }
}

/// A read whose chunk holds exactly one newline, at `k`, and is longer than
/// the threshold rotates exactly once, right after that newline: the old
/// `current` ends with the chunk up to and including the newline, and the
/// new `current` holds the rest.
pub proof fn lemma_single_newline_rotates_once(
    files: Seq<Seq<u8>>,
    counter: nat,
    threshold: nat,
    chunk: Seq<u8>,
    k: int,
)
    requires
        files.len() > 0,
        threshold < chunk.len(),
        0 <= k < chunk.len(),
        chunk[k] == NEWLINE,
        forall|j: int| 0 <= j < chunk.len() && j != k ==> chunk[j] != NEWLINE,
    ensures
        split_after(counter, threshold, chunk) == Some((k + 1) as nat),
        feed(files, counter, threshold, chunk).0 == append_to_last(files, chunk.subrange(0, k + 1)).push(
            chunk.subrange(k + 1, chunk.len() as int),
        ),
        feed(files, counter, threshold, chunk).0.len() == files.len() + 1,
        concat(feed(files, counter, threshold, chunk).0) == concat(files) + chunk,
{
    lemma_newline_index(chunk);
    lemma_feed_keeps_bytes(files, counter, threshold, chunk);
    if let Some(i) = newline_index(chunk) {
        assert(i == k) by {
            if i < k {
                assert(chunk[i as int] != NEWLINE);
            } else if i > k {
                assert(chunk[k] != NEWLINE);
            }
        }
    } else {
        assert(chunk[k] != NEWLINE);
    }
}

/// A chunk that crosses the threshold without a newline rotates nothing and
/// only grows the count; the next chunk that holds a newline then rotates
/// exactly once, right after its first newline at `k`.
pub proof fn lemma_rotation_waits_for_newline(
    files: Seq<Seq<u8>>,
    counter: nat,
    threshold: nat,
    first: Seq<u8>,
    second: Seq<u8>,
    k: int,
)
    requires
        files.len() > 0,
        counter + first.len() >= threshold,
        forall|j: int| 0 <= j < first.len() ==> first[j] != NEWLINE,
        0 <= k < second.len(),
        second[k] == NEWLINE,
        forall|j: int| 0 <= j < k ==> second[j] != NEWLINE,
    ensures
        feed(files, counter, threshold, first) == (append_to_last(files, first), counter + first.len()),
        feed_all(files, counter, threshold, seq![first, second]) == (
            append_to_last(append_to_last(files, first), second.subrange(0, k + 1)).push(
                second.subrange(k + 1, second.len() as int),
            ),
            (second.len() - k - 1) as nat,
        ),
{
    lemma_newline_index(first);
    lemma_newline_index(second);
    if let Some(i) = newline_index(first) {
        assert(first[i as int] != NEWLINE);
    }
    if let Some(i) = newline_index(second) {
        assert(i == k) by {
            if i < k {
                assert(second[i as int] != NEWLINE);
            } else if i > k {
                assert(second[k] != NEWLINE);
            }
        }
    } else {
        assert(second[k] != NEWLINE);
    }
    let chunks = seq![first, second];
    assert(chunks.drop_last() =~= seq![first]);
    assert(seq![first].drop_last() =~= Seq::<Seq<u8>>::empty());
    assert(feed_all(files, counter, threshold, Seq::<Seq<u8>>::empty()) == (files, counter));
    assert(seq![first].last() == first);
    assert(feed_all(files, counter, threshold, seq![first]) == feed(files, counter, threshold, first));
    assert(chunks.last() == second);
    assert(split_after(counter + first.len(), threshold, second) == Some((k + 1) as nat));
}

/// After a rotation at most `to_keep` rotated files remain.
pub proof fn lemma_rotation_retains_at_most(before: LogManager, after: LogManager, to_keep: nat, rotation: Rotation)
    requires
        is_rotation(before, after, to_keep, rotation),
    ensures
        after.indices().len() <= to_keep,
{
}

/// A split always falls right after a newline, and the part before it holds
/// no other newline: every file closed by a read ends with a whole line.
pub proof fn lemma_split_ends_at_newline(counter: nat, threshold: nat, chunk: Seq<u8>)
    requires
        split_after(counter, threshold, chunk) is Some,
    ensures
        ({
            let k = split_after(counter, threshold, chunk)->0;
            &&& 1 <= k <= chunk.len()
            &&& chunk[k - 1] == NEWLINE
            &&& forall|j: int| 0 <= j < k - 1 ==> chunk[j] != NEWLINE
        }),
{
    lemma_newline_index(chunk);
}

} // verus!
