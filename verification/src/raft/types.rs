//! Core Raft value types: terms, node ids, the log, and node roles.

use vstd::prelude::*;
use vstd::slice::slice_subrange;

verus! {

/// A Raft term: a logical clock that increases across elections.
pub type Term = u64;

/// A 1-based position in the replicated log. Index 0 is the synthetic origin.
pub type LogIndex = u64;

/// Identifies a node in the cluster.
pub type NodeId = u64;

/// A node's role in the current term.
#[derive(Clone, Copy, Debug, PartialEq, Eq, Structural)]
pub enum Role {
    /// Passive: responds to leaders and candidates. The default on startup.
    Follower,
    /// Actively soliciting votes to become leader for a new term.
    Candidate,
    /// The single node driving replication for the term.
    Leader,
}

/// Copies a byte string.
pub fn copy_bytes(bytes: &Vec<u8>) -> (r: Vec<u8>)
    ensures
        r@ == bytes@,
{
    let r: Vec<u8> = bytes.clone();
    assert(r@ =~= bytes@);
    r
}

/// One entry in the replicated log: a state-machine command tagged with the
/// term in which the leader created it. The entry's index is its position
/// within [`Log`], not a stored field.
#[derive(Debug, PartialEq, Eq)]
pub struct LogEntry {
    /// Term of the leader that first appended this entry.
    pub term: Term,
    /// Opaque bytes handed to the state machine when the entry commits.
    pub command: Vec<u8>,
}

/// What a [`LogEntry`] stands for.
#[verifier::ext_equal]
pub struct EntryView {
    pub term: Term,
    pub command: Seq<u8>,
}

impl View for LogEntry {
    type V = EntryView;

    open spec fn view(&self) -> EntryView {
        EntryView { term: self.term, command: self.command@ }
    }
}

impl LogEntry {
    pub fn new(term: Term, command: Vec<u8>) -> (r: Self)
        ensures
            r.term == term,
            r.command == command,
            r@ == (EntryView { term, command: command@ }),
    {
        Self { term, command }
    }
}

impl Clone for LogEntry {
    fn clone(&self) -> (r: Self)
        ensures
            r@ == self@,
    {
        LogEntry { term: self.term, command: copy_bytes(&self.command) }
    }
}

/// The contents of an optional byte string.
pub open spec fn bytes_view(bytes: Option<Vec<u8>>) -> Option<Seq<u8>> {
    match bytes {
        Some(b) => Some(b@),
        None => None,
    }
}

/// Copies an optional byte string.
pub fn copy_optional_bytes(bytes: &Option<Vec<u8>>) -> (r: Option<Vec<u8>>)
    ensures
        bytes_view(r) == bytes_view(*bytes),
{
    match bytes {
        Some(b) => Some(copy_bytes(b)),
        None => None,
    }
}

/// The entries that a slice of [`LogEntry`] values stands for.
pub open spec fn entries_view(entries: Seq<LogEntry>) -> Seq<EntryView> {
    Seq::new(entries.len(), |i: int| entries[i]@)
}

/// Copies a run of entries.
pub fn copy_entries(entries: &[LogEntry]) -> (r: Vec<LogEntry>)
    ensures
        entries_view(r@) == entries_view(entries@),
        r.len() == entries.len(),
{
    let mut r: Vec<LogEntry> = Vec::new();
    let mut i: usize = 0;
    while i < entries.len()
        invariant
            i <= entries.len(),
            r.len() == i,
            forall|j: int| 0 <= j < i ==> (#[trigger] r@[j])@ == entries@[j]@,
        decreases entries.len() - i,
    {
        r.push(entries[i].clone());
        i += 1;
    }
    assert(entries_view(r@) =~= entries_view(entries@));
    r
}

/// The replicated log: an ordered list of [`LogEntry`] values addressed by
/// absolute 1-based index, of which a prefix may have been compacted into a
/// state-machine snapshot.
///
/// All index arithmetic is centralized here so the election and replication
/// logic never does raw `Vec` indexing.
#[derive(Debug, PartialEq, Eq)]
pub struct Log {
    /// Highest index covered by the snapshot, or 0 if nothing was compacted.
    snapshot_index: LogIndex,
    /// Term of the entry at `snapshot_index`, or 0 if nothing was compacted.
    snapshot_term: Term,
    /// The tail: entries `snapshot_index + 1 ..= last_index`.
    entries: Vec<LogEntry>,
}

/// What a [`Log`] stands for: the boundary of its snapshot and the entries
/// after it.
#[verifier::ext_equal]
pub struct LogView {
    pub snapshot_index: LogIndex,
    pub snapshot_term: Term,
    pub entries: Seq<EntryView>,
}

impl LogView {
    /// The log of a node that has never stored anything.
    pub open spec fn empty() -> Self {
        LogView { snapshot_index: 0, snapshot_term: 0, entries: Seq::empty() }
    }

    /// Every index, and the one after the last, fits in a [`LogIndex`], and the
    /// origin has term 0.
    pub open spec fn wf(self) -> bool {
        &&& self.last_index() < LogIndex::MAX
        &&& self.snapshot_index == 0 ==> self.snapshot_term == 0
    }

    /// Index of the last entry; the snapshot boundary if the tail is empty.
    pub open spec fn last_index(self) -> int {
        self.snapshot_index + self.entries.len()
    }

    /// Term of the last entry; the boundary's term if the tail is empty.
    pub open spec fn last_term(self) -> Term {
        if self.entries.len() == 0 {
            self.snapshot_term
        } else {
            self.entries.last().term
        }
    }

    /// Whether the entry at `index` is physically held in the tail.
    pub open spec fn holds(self, index: int) -> bool {
        self.snapshot_index < index <= self.last_index()
    }

    /// The entry at `index`, for an index that the tail holds.
    pub open spec fn entry(self, index: int) -> EntryView {
        self.entries[index - self.snapshot_index - 1]
    }

    /// Term of the entry at `index`: 0 at the origin, the boundary's term at the
    /// snapshot boundary, and unknown for an index compacted away or past the end.
    pub open spec fn term_at(self, index: int) -> Option<Term> {
        if index == 0 {
            Some(0)
        } else if index == self.snapshot_index {
            Some(self.snapshot_term)
        } else if self.holds(index) {
            Some(self.entry(index).term)
        } else {
            None
        }
    }

    /// `index` is the first tail position whose entry has term `term`.
    pub open spec fn is_first_of_term(self, index: LogIndex, term: Term) -> bool {
        &&& self.holds(index as int)
        &&& self.entry(index as int).term == term
        &&& forall|j: int| self.snapshot_index < j < index ==> (#[trigger] self.entry(j)).term != term
    }

    /// `index` is the last tail position whose entry has term `term`.
    pub open spec fn is_last_of_term(self, index: LogIndex, term: Term) -> bool {
        &&& self.holds(index as int)
        &&& self.entry(index as int).term == term
        &&& forall|j: int| index < j <= self.last_index() ==> (#[trigger] self.entry(j)).term != term
    }

    /// Whether some tail entry has term `term`.
    pub open spec fn has_term(self, term: Term) -> bool {
        exists|j: int| self.holds(j) && (#[trigger] self.entry(j)).term == term
    }

    /// First tail position with term `term`, if there is one.
    pub open spec fn first_index_of_term(self, term: Term) -> Option<LogIndex> {
        if self.has_term(term) {
            Some(choose|i: LogIndex| self.is_first_of_term(i, term))
        } else {
            None
        }
    }

    /// Last tail position with term `term`, if there is one.
    pub open spec fn last_index_of_term(self, term: Term) -> Option<LogIndex> {
        if self.has_term(term) {
            Some(choose|i: LogIndex| self.is_last_of_term(i, term))
        } else {
            None
        }
    }

    /// The log with `entry` added at the end.
    pub open spec fn append(self, entry: EntryView) -> Self {
        LogView { entries: self.entries.push(entry), ..self }
    }

    /// Tail entries at positions strictly after `index`.
    pub open spec fn entries_after(self, index: int) -> Seq<EntryView> {
        if index <= self.snapshot_index {
            self.entries
        } else if index >= self.last_index() {
            Seq::empty()
        } else {
            self.entries.skip(index - self.snapshot_index)
        }
    }

    /// The log without the entries at positions strictly after `index`.
    pub open spec fn truncate_after(self, index: int) -> Self {
        if index <= self.snapshot_index {
            LogView { entries: Seq::empty(), ..self }
        } else if index >= self.last_index() {
            self
        } else {
            LogView { entries: self.entries.take(index - self.snapshot_index), ..self }
        }
    }

    /// The log compacted against a snapshot through `index`, whose last entry had
    /// term `term`. A tail that agrees with the boundary is retained past it; one
    /// that does not is dropped wholesale. A boundary that the log has already
    /// reached changes nothing.
    pub open spec fn compact(self, index: LogIndex, term: Term) -> Self {
        if index <= self.snapshot_index {
            self
        } else {
            LogView {
                snapshot_index: index,
                snapshot_term: term,
                entries: if self.term_at(index as int) == Some(term) {
                    self.entries_after(index as int)
                } else {
                    Seq::empty()
                },
            }
        }
    }
}

impl View for Log {
    type V = LogView;

    closed spec fn view(&self) -> LogView {
        LogView {
            snapshot_index: self.snapshot_index,
            snapshot_term: self.snapshot_term,
            entries: entries_view(self.entries@),
        }
    }
}

impl Clone for Log {
    fn clone(&self) -> (r: Self)
        ensures
            r@ == self@,
    {
        Log {
            snapshot_index: self.snapshot_index,
            snapshot_term: self.snapshot_term,
            entries: copy_entries(self.entries.as_slice()),
        }
    }
}

impl Default for Log {
    fn default() -> (r: Self)
        ensures
            r@ == LogView::empty(),
            r.wf(),
    {
        Log::new()
    }
}

impl Log {
    /// Every index, and the one after the last, fits in a [`LogIndex`], and the
    /// origin has term 0.
    pub open spec fn wf(&self) -> bool {
        self@.wf()
    }

    pub fn new() -> (r: Self)
        ensures
            r@ == LogView::empty(),
            r.wf(),
    {
        let r = Self { snapshot_index: 0, snapshot_term: 0, entries: Vec::new() };
        assert(r@.entries =~= Seq::<EntryView>::empty());
        r
    }

    /// Reconstruct an uncompacted log from stored entries.
    pub fn from_entries(entries: Vec<LogEntry>) -> (r: Self)
        requires
            entries.len() < LogIndex::MAX,
        ensures
            r@ == (LogView { snapshot_index: 0, snapshot_term: 0, entries: entries_view(entries@) }),
            r.wf(),
    {
        Self { snapshot_index: 0, snapshot_term: 0, entries }
    }

    /// Reconstruct a log from a snapshot boundary and the entries after it.
    pub fn from_parts(
        snapshot_index: LogIndex,
        snapshot_term: Term,
        entries: Vec<LogEntry>,
    ) -> (r: Self)
        requires
            snapshot_index + entries.len() < LogIndex::MAX,
            snapshot_index == 0 ==> snapshot_term == 0,
        ensures
            r@ == (LogView { snapshot_index, snapshot_term, entries: entries_view(entries@) }),
            r.wf(),
    {
        Self { snapshot_index, snapshot_term, entries }
    }

    /// Borrow the entries of the tail, e.g. to serialize for persistence.
    pub fn entries(&self) -> (r: &[LogEntry])
        ensures
            entries_view(r@) == self@.entries,
    {
        self.entries.as_slice()
    }

    /// Whether the tail holds no entry.
    pub fn is_empty(&self) -> (r: bool)
        ensures
            r == (self@.entries.len() == 0),
    {
        self.entries.is_empty()
    }

    /// Number of entries held in the tail.
    pub fn len(&self) -> (r: usize)
        ensures
            r == self@.entries.len(),
    {
        self.entries.len()
    }

    /// Highest index covered by the snapshot, or 0 if nothing was compacted.
    pub fn snapshot_index(&self) -> (r: LogIndex)
        ensures
            r == self@.snapshot_index,
    {
        self.snapshot_index
    }

    /// Term of the entry at the snapshot boundary, or 0 if nothing was compacted.
    pub fn snapshot_term(&self) -> (r: Term)
        ensures
            r == self@.snapshot_term,
    {
        self.snapshot_term
    }

    /// Index of the last entry, or the snapshot boundary if the tail is empty.
    pub fn last_index(&self) -> (r: LogIndex)
        requires
            self.wf(),
        ensures
            r == self@.last_index(),
    {
        self.snapshot_index + self.entries.len() as u64
    }

    /// Term of the last entry, or the boundary's term if the tail is empty.
    pub fn last_term(&self) -> (r: Term)
        ensures
            r == self@.last_term(),
    {
        let n: usize = self.entries.len();
        if n == 0 {
            self.snapshot_term
        } else {
            self.entries[n - 1].term
        }
    }

    /// Term of the entry at `index`. Index 0 yields the origin term 0; an index
    /// compacted away or past the end yields `None`.
    pub fn term_at(&self, index: LogIndex) -> (r: Option<Term>)
        requires
            self.wf(),
        ensures
            r == self@.term_at(index as int),
    {
        if index == 0 {
            Some(0)
        } else if index == self.snapshot_index {
            Some(self.snapshot_term)
        } else if self.snapshot_index < index && index <= self.last_index() {
            assert(self@.entries.len() == self.entries.len());
            let at: usize = (index - self.snapshot_index - 1) as usize;
            Some(self.entries[at].term)
        } else {
            None
        }
    }

    /// The entry at `index`, or `None` for an index that the tail does not hold.
    pub fn get(&self, index: LogIndex) -> (r: Option<&LogEntry>)
        requires
            self.wf(),
        ensures
            match r {
                Some(e) => self@.holds(index as int) && e@ == self@.entry(index as int),
                None => !self@.holds(index as int),
            },
    {
        if index <= self.snapshot_index || index > self.last_index() {
            None
        } else {
            assert(self@.entries.len() == self.entries.len());
            let at: usize = (index - self.snapshot_index - 1) as usize;
            Some(&self.entries[at])
        }
    }

    /// Append one entry, returning its new index.
    pub fn append(&mut self, entry: LogEntry) -> (r: LogIndex)
        requires
            old(self).wf(),
            old(self)@.last_index() + 1 < LogIndex::MAX,
        ensures
            final(self).wf(),
            final(self)@ == old(self)@.append(entry@),
            r == final(self)@.last_index(),
    {
        self.entries.push(entry);
        assert(self@.entries =~= old(self)@.entries.push(entry@));
        self.last_index()
    }

    /// Append a run of entries.
    pub fn extend(&mut self, entries: Vec<LogEntry>)
        requires
            old(self).wf(),
            old(self)@.last_index() + entries.len() < LogIndex::MAX,
        ensures
            final(self).wf(),
            final(self)@ == (LogView {
                entries: old(self)@.entries + entries_view(entries@),
                ..old(self)@
            }),
    {
        let mut entries = entries;
        let ghost added = entries@;
        self.entries.append(&mut entries);
        assert(self@.entries =~= old(self)@.entries + entries_view(added));
    }

    /// Entries strictly after `index`. An `index` at or beyond the end yields an
    /// empty slice; one at or before the snapshot boundary yields the whole tail.
    pub fn entries_after(&self, index: LogIndex) -> (r: &[LogEntry])
        requires
            self.wf(),
        ensures
            entries_view(r@) == self@.entries_after(index as int),
    {
        let n: usize = self.entries.len();
        let start: usize = if index <= self.snapshot_index {
            0
        } else if index >= self.last_index() {
            n
        } else {
            (index - self.snapshot_index) as usize
        };
        let r = slice_subrange(self.entries.as_slice(), start, n);
        assert(entries_view(r@) =~= self@.entries_after(index as int));
        r
    }

    /// Drop every entry after `index`. An `index` at or before the snapshot
    /// boundary clears the tail.
    pub fn truncate_after(&mut self, index: LogIndex)
        requires
            old(self).wf(),
        ensures
            final(self).wf(),
            final(self)@ == old(self)@.truncate_after(index as int),
    {
        if index <= self.snapshot_index {
            self.entries.truncate(0);
        } else if index < self.last_index() {
            assert(self@.entries.len() == self.entries.len());
            self.entries.truncate((index - self.snapshot_index) as usize);
        }
        assert(self@.entries =~= old(self)@.truncate_after(index as int).entries);
    }

    /// Compact the log against a snapshot whose last entry sits at `index` with
    /// term `term`: retain the tail past it if that entry is ours, else drop the
    /// log wholesale. A boundary already reached changes nothing.
    pub fn compact(&mut self, index: LogIndex, term: Term)
        requires
            old(self).wf(),
            index < LogIndex::MAX,
        ensures
            final(self).wf(),
            final(self)@ == old(self)@.compact(index, term),
    {
        if index <= self.snapshot_index {
            return;
        }
        let agrees: bool = match self.term_at(index) {
            Some(t) => t == term,
            None => false,
        };
        if agrees {
            assert(self@.entries.len() == self.entries.len());
            let cut: usize = (index - self.snapshot_index) as usize;
            let tail = self.entries.split_off(cut);
            self.entries = tail;
        } else {
            self.entries.truncate(0);
        }
        self.snapshot_index = index;
        self.snapshot_term = term;
        assert(self@.entries =~= old(self)@.compact(index, term).entries);
    }

    /// First index of the tail whose entry has term `term`.
    pub fn first_index_of_term(&self, term: Term) -> (r: Option<LogIndex>)
        requires
            self.wf(),
        ensures
            r == self@.first_index_of_term(term),
            r matches Some(i) ==> self@.is_first_of_term(i, term),
            r is None ==> !self@.has_term(term),
    {
        let mut i: usize = 0;
        while i < self.entries.len()
            invariant
                self.wf(),
                i <= self.entries.len(),
                forall|j: int|
                    self@.snapshot_index < j <= self@.snapshot_index + i ==> (#[trigger] self@.entry(j)).term
                        != term,
            decreases self.entries.len() - i,
        {
            if self.entries[i].term == term {
                let index: LogIndex = self.snapshot_index + i as u64 + 1;
                proof {
                    assert(self@.entry(index as int).term == term);
                    assert(self@.is_first_of_term(index, term));
                    lemma_first_of_term_unique(self@, index, term);
                }
                return Some(index);
            }
            assert(self@.entry(self@.snapshot_index + i + 1).term != term);
            i += 1;
        }
        None
    }

    /// Last index of the tail whose entry has term `term`.
    pub fn last_index_of_term(&self, term: Term) -> (r: Option<LogIndex>)
        requires
            self.wf(),
        ensures
            r == self@.last_index_of_term(term),
            r matches Some(i) ==> self@.is_last_of_term(i, term),
            r is None ==> !self@.has_term(term),
    {
        let mut i: usize = self.entries.len();
        while i > 0
            invariant
                self.wf(),
                i <= self.entries.len(),
                forall|j: int|
                    self@.snapshot_index + i < j <= self@.last_index() ==> (#[trigger] self@.entry(j)).term
                        != term,
            decreases i,
        {
            i -= 1;
            if self.entries[i].term == term {
                let index: LogIndex = self.snapshot_index + i as u64 + 1;
                proof {
                    assert(self@.entry(index as int).term == term);
                    assert(self@.is_last_of_term(index, term));
                    lemma_last_of_term_unique(self@, index, term);
                }
                return Some(index);
            }
            assert(self@.entry(self@.snapshot_index + i + 1).term != term);
        }
        None
    }
}

/// A term has at most one first position.
pub proof fn lemma_first_of_term_unique(log: LogView, index: LogIndex, term: Term)
    requires
        log.is_first_of_term(index, term),
    ensures
        log.first_index_of_term(term) == Some(index),
{
    assert(log.entry(index as int).term == term);
    assert(log.has_term(term));
    let i = choose|i: LogIndex| log.is_first_of_term(i, term);
    assert(log.is_first_of_term(i, term));
    assert(log.entry(i as int).term == term);
}

/// A term has at most one last position.
pub proof fn lemma_last_of_term_unique(log: LogView, index: LogIndex, term: Term)
    requires
        log.is_last_of_term(index, term),
    ensures
        log.last_index_of_term(term) == Some(index),
{
    assert(log.entry(index as int).term == term);
    assert(log.has_term(term));
    let i = choose|i: LogIndex| log.is_last_of_term(i, term);
    assert(log.is_last_of_term(i, term));
    assert(log.entry(i as int).term == term);
}

/// A term that the tail holds at `k` has a first position, no later than `k`.
pub proof fn lemma_first_of_term(log: LogView, term: Term, k: LogIndex)
    requires
        log.wf(),
        log.holds(k as int),
        log.entry(k as int).term == term,
    ensures
        log.first_index_of_term(term) is Some,
        log.is_first_of_term(log.first_index_of_term(term)->0, term),
        log.first_index_of_term(term)->0 <= k,
    decreases k,
{
    if forall|j: int| log.snapshot_index < j < k ==> (#[trigger] log.entry(j)).term != term {
        assert(log.is_first_of_term(k, term));
        lemma_first_of_term_unique(log, k, term);
    } else {
        let j = choose|j: int|
            log.snapshot_index < j < k && (#[trigger] log.entry(j)).term == term;
        lemma_first_of_term(log, term, j as LogIndex);
    }
}

/// A term that the tail holds has a last position.
pub proof fn lemma_last_of_term(log: LogView, term: Term, k: LogIndex)
    requires
        log.wf(),
        log.holds(k as int),
        log.entry(k as int).term == term,
    ensures
        log.last_index_of_term(term) is Some,
        log.is_last_of_term(log.last_index_of_term(term)->0, term),
    decreases log.last_index() - k,
{
    if forall|j: int| k < j <= log.last_index() ==> (#[trigger] log.entry(j)).term != term {
        assert(log.is_last_of_term(k, term));
        lemma_last_of_term_unique(log, k, term);
    } else {
        let j = choose|j: int| k < j <= log.last_index() && (#[trigger] log.entry(j)).term == term;
        lemma_last_of_term(log, term, j as LogIndex);
    }
}

/// A state-machine snapshot: the opaque image of everything applied through
/// `last_included_index`.
#[derive(Debug, PartialEq, Eq)]
pub struct Snapshot {
    /// Index of the last entry that the image covers.
    pub last_included_index: LogIndex,
    /// Term of that entry.
    pub last_included_term: Term,
    /// The image, opaque to Raft.
    pub data: Vec<u8>,
}

/// What a [`Snapshot`] stands for.
#[verifier::ext_equal]
pub struct SnapshotView {
    pub last_included_index: LogIndex,
    pub last_included_term: Term,
    pub data: Seq<u8>,
}

impl View for Snapshot {
    type V = SnapshotView;

    open spec fn view(&self) -> SnapshotView {
        SnapshotView {
            last_included_index: self.last_included_index,
            last_included_term: self.last_included_term,
            data: self.data@,
        }
    }
}

/// A committed entry on its way to the state machine.
#[derive(Debug, PartialEq, Eq)]
pub struct Applied {
    pub index: LogIndex,
    pub term: Term,
    pub command: Vec<u8>,
}

/// One item for the state machine to consume, in order.
#[derive(Debug, PartialEq, Eq)]
pub enum Apply {
    /// Reset the machine to this image.
    Snapshot(Snapshot),
    /// Apply this committed entry.
    Command(Applied),
}

/// What an [`Apply`] stands for.
#[verifier::ext_equal]
pub enum ApplyView {
    Snapshot(SnapshotView),
    Command { index: LogIndex, term: Term, command: Seq<u8> },
}

impl View for Apply {
    type V = ApplyView;

    open spec fn view(&self) -> ApplyView {
        match self {
            Apply::Snapshot(s) => ApplyView::Snapshot(s@),
            Apply::Command(a) => ApplyView::Command {
                index: a.index,
                term: a.term,
                command: a.command@,
            },
        }
    }
}

/// The items that a vector of [`Apply`] values stands for.
pub open spec fn applies_view(items: Seq<Apply>) -> Seq<ApplyView> {
    Seq::new(items.len(), |i: int| items[i]@)
}

/// A list of entries stands for the entries one by one, each with its term and command; a
/// list of items for the state machine likewise.
pub proof fn lists_stand_for_their_items(entries: Seq<LogEntry>, items: Seq<Apply>, k: int)
    ensures
        entries_view(entries).len() == entries.len(),
        0 <= k < entries.len() ==> entries_view(entries)[k].term == entries[k].term
            && entries_view(entries)[k].command == entries[k].command@,
        applies_view(items).len() == items.len(),
        0 <= k < items.len() ==> match items[k] {
            Apply::Snapshot(s) => applies_view(items)[k] == ApplyView::Snapshot(
                SnapshotView {
                    last_included_index: s.last_included_index,
                    last_included_term: s.last_included_term,
                    data: s.data@,
                },
            ),
            Apply::Command(a) => applies_view(items)[k] == (ApplyView::Command {
                index: a.index,
                term: a.term,
                command: a.command@,
            }),
        },
{
}

/// What is appended is found at the index that is handed back, which is one past the last
/// before; every other entry is found where it was.
pub proof fn appended_entries_are_found(
    log: &mut Log,
    entry: LogEntry,
    at: LogIndex,
    index: LogIndex,
    before: Option<&LogEntry>,
    found: Option<&LogEntry>,
)
    requires
        old(log).wf(),
        call_ensures(Log::append, (log, entry), at),
        call_ensures(Log::get, (old(log), index), before),
        call_ensures(Log::get, (final(log), index), found),
    ensures
        at == old(log)@.snapshot_index + old(log)@.entries.len() + 1,
        index == at ==> before is None && found is Some && found->Some_0@ == entry@,
        index != at ==> (before is Some <==> found is Some),
        index != at && found is Some ==> found->Some_0@ == before->Some_0@,
{
}

/// A run of entries goes behind the last, in order.
pub proof fn extended_logs_end_with_the_run(log: &mut Log, entries: Vec<LogEntry>, k: int, r: ())
    requires
        call_ensures(Log::extend, (log, entries), r),
        0 <= k < entries@.len(),
    ensures
        final(log)@.entries.len() == old(log)@.entries.len() + entries@.len(),
        final(log)@.entries[old(log)@.entries.len() + k] == entries@[k]@,
        final(log)@.entries.take(old(log)@.entries.len() as int) == old(log)@.entries,
        final(log)@.snapshot_index == old(log)@.snapshot_index,
        final(log)@.snapshot_term == old(log)@.snapshot_term,
{
    assert(final(log)@.entries.take(old(log)@.entries.len() as int) =~= old(log)@.entries);
}

/// A log that is put together from its parts holds them, and says so: the boundary, its
/// term, and the entries behind it, as many as there are.
pub proof fn logs_hold_their_parts(
    index: LogIndex,
    term: Term,
    entries: Vec<LogEntry>,
    log: Log,
    whole: Log,
    boundary: LogIndex,
    boundary_term: Term,
    last: LogIndex,
    len: usize,
    empty: bool,
    k: int,
)
    requires
        call_ensures(Log::from_parts, (index, term, entries), log),
        call_ensures(Log::from_entries, (entries,), whole),
        call_ensures(Log::snapshot_index, (&log,), boundary),
        call_ensures(Log::snapshot_term, (&log,), boundary_term),
        call_ensures(Log::last_index, (&log,), last),
        call_ensures(Log::len, (&log,), len),
        call_ensures(Log::is_empty, (&log,), empty),
        0 <= k < entries@.len(),
    ensures
        boundary == index,
        boundary_term == term,
        last == index + entries@.len(),
        len == entries@.len(),
        !empty,
        log@.entries[k] == entries@[k]@,
        whole@.entries == log@.entries,
        whole@.snapshot_index == 0,
        whole@.snapshot_term == 0,
{
}

/// What a log tells of the term at an index goes with the entry there.
pub proof fn logs_tell_the_terms_of_their_entries(
    log: &Log,
    index: LogIndex,
    term: Option<Term>,
    entry: Option<&LogEntry>,
    last_term: Term,
    entries: &[LogEntry],
)
    requires
        log.wf(),
        call_ensures(Log::term_at, (log, index), term),
        call_ensures(Log::get, (log, index), entry),
        call_ensures(Log::last_term, (log,), last_term),
        call_ensures(Log::entries, (log,), entries),
    ensures
        entry matches Some(e) ==> term == Some(e.term),
        entry is None && index != 0 && index != log@.snapshot_index ==> term is None,
        index == log@.snapshot_index ==> term == Some(log@.snapshot_term),
        index == 0 ==> term == Some(0u64),
        entry is Some <==> log@.snapshot_index < index <= log@.snapshot_index + entries@.len(),
        entry matches Some(e) ==> e@ == entries@[index - log@.snapshot_index - 1]@,
        index == log@.snapshot_index + entries@.len() ==> term == Some(last_term),
{
    assert(entries_view(entries@).len() == entries@.len());
    if log@.snapshot_index < index <= log@.snapshot_index + entries@.len() {
        let k = index - log@.snapshot_index - 1;
        assert(entries_view(entries@)[k] == entries@[k]@);
    }
}

} // verus!
