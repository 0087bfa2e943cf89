//! Raft's persistent state and the storage abstraction behind it.
//!
//! Raft requires `current_term`, `voted_for` and the `log` to survive crashes
//! and be flushed to stable storage *before* a node responds to any RPC that
//! depends on them. Everything else is volatile and rebuilt after a restart.

use vstd::prelude::*;

use crate::codec::{
    read_block, read_list, read_number, read_optional_block, read_optional_number, write_block,
    write_list, write_number, write_optional_block, write_optional_number, Record,
};

use super::types::{
    copy_optional_bytes, EntryView, Log, LogEntry, LogIndex, LogView, NodeId, Term,
};

verus! {

/// Why stable storage could not be read or written.
#[derive(Clone, Debug, PartialEq, Eq)]
pub struct StorageError {
    pub message: String,
}

/// The state Raft must persist. Saved as a unit; see [`RaftStorage`].
#[derive(Debug, PartialEq, Eq)]
pub struct PersistentState {
    /// Latest term this node has seen (starts at 0, monotonically increasing).
    pub current_term: Term,
    /// Candidate voted for in the current term, if any. Reset each new term.
    pub voted_for: Option<NodeId>,
    /// The replicated log.
    pub log: Log,
    /// The state-machine image that the log was last compacted against.
    pub snapshot: Option<Vec<u8>>,
}

/// What a [`PersistentState`] stands for.
#[verifier::ext_equal]
pub struct PersistentView {
    pub current_term: Term,
    pub voted_for: Option<NodeId>,
    pub log: LogView,
    pub snapshot: Option<Seq<u8>>,
}

impl PersistentView {
    /// The state of a node that starts for the first time.
    pub open spec fn initial() -> Self {
        PersistentView {
            current_term: 0,
            voted_for: None,
            log: LogView::empty(),
            snapshot: None,
        }
    }

    /// The bytes of the state, as they are kept on disk.
    pub open spec fn bytes(self) -> Seq<u8> {
        crate::codec::number(self.current_term) + crate::codec::optional_number(self.voted_for)
            + crate::codec::number(self.log.snapshot_index) + crate::codec::number(
            self.log.snapshot_term,
        ) + crate::codec::list::<LogEntry>(self.log.entries) + crate::codec::optional_block(
            self.snapshot,
        )
    }

    /// The state whose bytes these are, if its log is sound.
    pub open spec fn of(bytes: Seq<u8>) -> Option<Self> {
        match crate::codec::number_at(bytes) {
            Some((current_term, rest)) => match crate::codec::optional_number_at(rest) {
                Some((voted_for, rest)) => match crate::codec::number_at(rest) {
                    Some((snapshot_index, rest)) => match crate::codec::number_at(rest) {
                        Some((snapshot_term, rest)) => match crate::codec::list_at::<LogEntry>(
                            rest,
                        ) {
                            Some((entries, rest)) => match crate::codec::optional_block_at(rest) {
                                Some((snapshot, rest)) => {
                                    let log = LogView { snapshot_index, snapshot_term, entries };
                                    if rest.len() == 0 && log.wf() {
                                        Some(
                                            PersistentView {
                                                current_term,
                                                voted_for,
                                                log,
                                                snapshot,
                                            },
                                        )
                                    } else {
                                        None
                                    }
                                },
                                None => None,
                            },
                            None => None,
                        },
                        None => None,
                    },
                    None => None,
                },
                None => None,
            },
            None => None,
        }
    }
}

impl View for PersistentState {
    type V = PersistentView;

    open spec fn view(&self) -> PersistentView {
        PersistentView {
            current_term: self.current_term,
            voted_for: self.voted_for,
            log: self.log@,
            snapshot: super::types::bytes_view(self.snapshot),
        }
    }
}

impl Default for PersistentState {
    fn default() -> (r: Self)
        ensures
            r@ == PersistentView::initial(),
            r.wf(),
    {
        PersistentState::new()
    }
}

impl Clone for PersistentState {
    fn clone(&self) -> (r: Self)
        ensures
            r@ == self@,
    {
        PersistentState {
            current_term: self.current_term,
            voted_for: self.voted_for,
            log: self.log.clone(),
            snapshot: copy_optional_bytes(&self.snapshot),
        }
    }
}

impl PersistentState {
    /// The log's indices are representable.
    pub open spec fn wf(&self) -> bool {
        self.log.wf()
    }

    pub fn new() -> (r: Self)
        ensures
            r@ == PersistentView::initial(),
            r.wf(),
    {
        PersistentState { current_term: 0, voted_for: None, log: Log::new(), snapshot: None }
    }
}

impl Record for LogEntry {
    open spec fn fits(e: EntryView) -> bool {
        e.command.len() <= u64::MAX
    }

    open spec fn bytes(e: EntryView) -> Seq<u8> {
        crate::codec::number(e.term) + crate::codec::block(e.command)
    }

    open spec fn at(bytes: Seq<u8>) -> Option<(EntryView, Seq<u8>)> {
        match crate::codec::number_at(bytes) {
            Some((term, rest)) => match crate::codec::block_at(rest) {
                Some((command, rest)) => Some((EntryView { term, command }, rest)),
                None => None,
            },
            None => None,
        }
    }

    fn write(&self, out: &mut Vec<u8>) {
        write_number(self.term, out);
        write_block(&self.command, out);
        assert(out@ =~= old(out)@ + Self::bytes(self@));
    }

    fn read(input: &mut &[u8]) -> (r: Option<Self>) {
        let term: u64 = match read_number(input) {
            Some(term) => term,
            None => return None,
        };
        match read_block(input) {
            Some(command) => Some(LogEntry { term, command }),
            None => None,
        }
    }

    proof fn reads_back(e: EntryView, rest: Seq<u8>) {
        assert(Self::bytes(e) + rest =~= crate::codec::number(e.term) + (crate::codec::block(
            e.command,
        ) + rest));
        crate::codec::numbers_read_back(e.term, crate::codec::block(e.command) + rest);
        crate::codec::blocks_read_back(e.command, rest);
    }
}

impl PersistentState {
    /// The bytes of the state, as they are kept on disk.
    pub fn to_bytes(&self) -> (r: Vec<u8>)
        ensures
            r@ == self@.bytes(),
    {
        let mut out: Vec<u8> = Vec::new();
        write_number(self.current_term, &mut out);
        write_optional_number(self.voted_for, &mut out);
        write_number(self.log.snapshot_index(), &mut out);
        write_number(self.log.snapshot_term(), &mut out);
        let entries = self.log.entries();
        write_list(entries, &mut out);
        proof {
            assert(crate::codec::views(entries@) =~= self@.log.entries);
        }
        write_optional_block(&self.snapshot, &mut out);
        out
    }

    /// The state whose bytes these are. Fails on bytes that [`Self::to_bytes`] never
    /// gives.
    pub fn from_bytes(bytes: &[u8]) -> (r: Result<Self, StorageError>)
        ensures
            match PersistentView::of(bytes@) {
                Some(v) => r matches Ok(state) && state@ == v && state.wf(),
                None => r matches Err(e) && e.message@ == "corrupt raft state"@,
            },
    {
        match PersistentState::read_all(bytes) {
            Some(state) => Ok(state),
            None => Err(StorageError { message: "corrupt raft state".to_string() }),
        }
    }

    fn read_all(bytes: &[u8]) -> (r: Option<Self>)
        ensures
            match PersistentView::of(bytes@) {
                Some(v) => r matches Some(state) && state@ == v && state.wf(),
                None => r is None,
            },
    {
        let mut input = bytes;
        let current_term: Term = read_number(&mut input)?;
        let voted_for: Option<NodeId> = read_optional_number(&mut input)?;
        let snapshot_index: LogIndex = read_number(&mut input)?;
        let snapshot_term: Term = read_number(&mut input)?;
        let entries: Vec<LogEntry> = read_list(&mut input)?;
        let snapshot: Option<Vec<u8>> = read_optional_block(&mut input)?;
        proof {
            assert(crate::codec::views(entries@) =~= super::types::entries_view(entries@));
            assert(entries.len() == entries@.len());
        }
        if input.len() > 0 || snapshot_index == 0 && snapshot_term != 0 || entries.len() as u64
            >= LogIndex::MAX - snapshot_index {
            return None;
        }
        let log = Log::from_parts(snapshot_index, snapshot_term, entries);
        Some(PersistentState { current_term, voted_for, log, snapshot })
    }
}

/// What was saved is what is loaded: every sound state survives the trip
/// through bytes.
pub proof fn states_round_trip(v: PersistentView)
    requires
        v.log.wf(),
        forall|i: int|
            0 <= i < v.log.entries.len() ==> (#[trigger] v.log.entries[i]).command.len()
                <= usize::MAX,
        v.snapshot matches Some(s) ==> s.len() <= usize::MAX,
    ensures
        PersistentView::of(v.bytes()) == Some(v),
{
    let f1 = crate::codec::number(v.current_term);
    let f2 = crate::codec::optional_number(v.voted_for);
    let f3 = crate::codec::number(v.log.snapshot_index);
    let f4 = crate::codec::number(v.log.snapshot_term);
    let f5 = crate::codec::list::<LogEntry>(v.log.entries);
    let f6 = crate::codec::optional_block(v.snapshot);
    let none = Seq::<u8>::empty();
    assert(v.bytes() =~= f1 + (f2 + (f3 + (f4 + (f5 + (f6 + none))))));
    crate::codec::numbers_read_back(v.current_term, f2 + (f3 + (f4 + (f5 + (f6 + none)))));
    crate::codec::optional_numbers_read_back(v.voted_for, f3 + (f4 + (f5 + (f6 + none))));
    crate::codec::numbers_read_back(v.log.snapshot_index, f4 + (f5 + (f6 + none)));
    crate::codec::numbers_read_back(v.log.snapshot_term, f5 + (f6 + none));
    assert forall|i: int| 0 <= i < v.log.entries.len() implies <LogEntry as Record>::fits(
        #[trigger] v.log.entries[i],
    ) by {
        assert(v.log.entries[i].command.len() <= usize::MAX);
    }
    crate::codec::lists_read_back::<LogEntry>(v.log.entries, f6 + none);
    crate::codec::optional_blocks_read_back(v.snapshot, none);
}

/// Durable storage for [`PersistentState`].
///
/// The whole state is saved at once: simple and always consistent.
pub trait RaftStorage: Send + Sync + 'static {
    /// What a successful load would hand back.
    spec fn stored(&self) -> PersistentView;

    /// Load persisted state, returning defaults on first-ever startup.
    fn load(&self) -> (r: Result<PersistentState, StorageError>)
        ensures
            r matches Ok(state) ==> state@ == self.stored() && state.wf(),
    ;

    /// Durably persist `state`. Must not return until the data is stable.
    fn save(&mut self, state: &PersistentState) -> (r: Result<(), StorageError>)
        requires
            state.wf(),
        ensures
            r is Ok ==> final(self).stored() == state@,
    ;
}

/// A volatile, in-process [`RaftStorage`].
pub struct InMemoryStorage {
    state: PersistentState,
}

impl InMemoryStorage {
    #[verifier::type_invariant]
    spec fn state_wf(&self) -> bool {
        self.state.wf()
    }

    pub fn new() -> (r: Self)
        ensures
            r.stored() == PersistentView::initial(),
    {
        InMemoryStorage { state: PersistentState::new() }
    }
}

impl Default for InMemoryStorage {
    fn default() -> (r: Self)
        ensures
            r.stored() == PersistentView::initial(),
    {
        InMemoryStorage::new()
    }
}

impl RaftStorage for InMemoryStorage {
    closed spec fn stored(&self) -> PersistentView {
        self.state@
    }

    fn load(&self) -> (r: Result<PersistentState, StorageError>)
        ensures
            r is Ok,
    {
        proof {
            use_type_invariant(self);
        }
        Ok(self.state.clone())
    }

    fn save(&mut self, state: &PersistentState) -> (r: Result<(), StorageError>)
        ensures
            r is Ok,
    {
        self.state = state.clone();
        Ok(())
    }
}

} // verus!
