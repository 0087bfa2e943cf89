//! Snapshots of the state machine: the dedup table and a full image of the store,
//! as bytes that a lagging replica can start from.

use vstd::prelude::*;

use crate::codec::{
    read_block, read_list, read_number, read_optional_block, write_block, write_list, write_number,
    write_optional_block, Record,
};
use crate::raft::types::copy_bytes;
use crate::store::Data;
use crate::wire::DecodeError;

use super::directory::{rank, KeyDirectory, Rank};
use super::machine::{Machine, MachineView};
use super::outcome::{Outcome, OutcomeView};
use super::sessions::{Session, SessionView, Sessions};

verus! {

/// A key and its value.
#[derive(Debug, PartialEq, Eq)]
pub struct Pair {
    pub key: Vec<u8>,
    pub value: Vec<u8>,
}

/// What a [`Pair`] stands for.
#[verifier::ext_equal]
pub struct PairView {
    pub key: Seq<u8>,
    pub value: Seq<u8>,
}

impl View for Pair {
    type V = PairView;

    open spec fn view(&self) -> PairView {
        PairView { key: self.key@, value: self.value@ }
    }
}

impl Record for Pair {
    open spec fn fits(p: PairView) -> bool {
        p.key.len() <= u64::MAX && p.value.len() <= u64::MAX
    }

    open spec fn bytes(p: PairView) -> Seq<u8> {
        crate::codec::block(p.key) + crate::codec::block(p.value)
    }

    open spec fn at(bytes: Seq<u8>) -> Option<(PairView, Seq<u8>)> {
        match crate::codec::block_at(bytes) {
            Some((key, rest)) => match crate::codec::block_at(rest) {
                Some((value, rest)) => Some((PairView { key, value }, rest)),
                None => None,
            },
            None => None,
        }
    }

    fn write(&self, out: &mut Vec<u8>) {
        write_block(&self.key, out);
        write_block(&self.value, out);
        assert(out@ =~= old(out)@ + Self::bytes(self@));
    }

    fn read(input: &mut &[u8]) -> (r: Option<Self>) {
        let key: Vec<u8> = match read_block(input) {
            Some(key) => key,
            None => return None,
        };
        match read_block(input) {
            Some(value) => Some(Pair { key, value }),
            None => None,
        }
    }

    proof fn reads_back(p: PairView, rest: Seq<u8>) {
        assert(Self::bytes(p) + rest =~= crate::codec::block(p.key) + (crate::codec::block(p.value)
            + rest));
        crate::codec::blocks_read_back(p.key, crate::codec::block(p.value) + rest);
        crate::codec::blocks_read_back(p.value, rest);
    }
}

/// An outcome as an image carries it. A failure, which is never remembered, has
/// no form that reads back.
pub open spec fn outcome_bytes(outcome: OutcomeView) -> Seq<u8> {
    match outcome {
        OutcomeView::Done => crate::codec::number(0),
        OutcomeView::Value(value) => crate::codec::number(1) + crate::codec::optional_block(value),
        OutcomeView::Failed(_) => crate::codec::number(2),
    }
}

/// The outcome at the front of `bytes`, and what follows.
pub open spec fn outcome_at(bytes: Seq<u8>) -> Option<(OutcomeView, Seq<u8>)> {
    match crate::codec::number_at(bytes) {
        Some((kind, rest)) => if kind == 0 {
            Some((OutcomeView::Done, rest))
        } else if kind == 1 {
            match crate::codec::optional_block_at(rest) {
                Some((value, rest)) => Some((OutcomeView::Value(value), rest)),
                None => None,
            }
        } else {
            None
        },
        None => None,
    }
}

impl Record for Session {
    open spec fn fits(s: SessionView) -> bool {
        match s.outcome {
            OutcomeView::Value(Some(value)) => value.len() <= u64::MAX,
            OutcomeView::Failed(_) => false,
            _ => true,
        }
    }

    open spec fn bytes(s: SessionView) -> Seq<u8> {
        crate::codec::number(s.client_id) + crate::codec::number(s.seq) + outcome_bytes(s.outcome)
    }

    open spec fn at(bytes: Seq<u8>) -> Option<(SessionView, Seq<u8>)> {
        match crate::codec::number_at(bytes) {
            Some((client_id, rest)) => match crate::codec::number_at(rest) {
                Some((seq, rest)) => match outcome_at(rest) {
                    Some((outcome, rest)) => Some((SessionView { client_id, seq, outcome }, rest)),
                    None => None,
                },
                None => None,
            },
            None => None,
        }
    }

    fn write(&self, out: &mut Vec<u8>) {
        write_number(self.client_id, out);
        write_number(self.seq, out);
        let ghost before = out@;
        match &self.outcome {
            Outcome::Done => write_number(0, out),
            Outcome::Value(value) => {
                write_number(1, out);
                write_optional_block(value, out);
            },
            Outcome::Failed(_) => write_number(2, out),
        }
        assert(out@ =~= before + outcome_bytes(self.outcome@));
        assert(out@ =~= old(out)@ + Self::bytes(self@));
    }

    fn read(input: &mut &[u8]) -> (r: Option<Self>) {
        let client_id: u64 = match read_number(input) {
            Some(client_id) => client_id,
            None => return None,
        };
        let seq: u64 = match read_number(input) {
            Some(seq) => seq,
            None => return None,
        };
        match read_number(input) {
            Some(0) => Some(Session { client_id, seq, outcome: Outcome::Done }),
            Some(1) => match read_optional_block(input) {
                Some(value) => Some(Session { client_id, seq, outcome: Outcome::Value(value) }),
                None => None,
            },
            _ => None,
        }
    }

    proof fn reads_back(s: SessionView, rest: Seq<u8>) {
        let f1 = crate::codec::number(s.client_id);
        let f2 = crate::codec::number(s.seq);
        let f3 = outcome_bytes(s.outcome);
        assert(Self::bytes(s) + rest =~= f1 + (f2 + (f3 + rest)));
        crate::codec::numbers_read_back(s.client_id, f2 + (f3 + rest));
        crate::codec::numbers_read_back(s.seq, f3 + rest);
        match s.outcome {
            OutcomeView::Done => crate::codec::numbers_read_back(0, rest),
            OutcomeView::Value(value) => {
                let v = crate::codec::optional_block(value);
                assert(f3 + rest =~= crate::codec::number(1) + (v + rest));
                crate::codec::numbers_read_back(1, v + rest);
                crate::codec::optional_blocks_read_back(value, rest);
            },
            OutcomeView::Failed(_) => {},
        }
    }
}

/// A snapshot of the state machine.
#[verifier::ext_equal]
pub struct ImageView {
    pub sessions: Seq<SessionView>,
    pub pairs: Seq<PairView>,
}

/// The keys of a run of pairs.
pub open spec fn keys_of(pairs: Seq<PairView>) -> Seq<Seq<u8>> {
    Seq::new(pairs.len(), |i: int| pairs[i].key)
}

impl ImageView {
    /// No client is in it twice and the keys are in order, none twice.
    pub open spec fn wf(self) -> bool {
        &&& super::sessions::distinct(self.sessions)
        &&& super::directory::ascending(keys_of(self.pairs))
    }

    /// The bytes of the image.
    pub open spec fn bytes(self) -> Seq<u8> {
        crate::codec::list::<Session>(self.sessions) + crate::codec::list::<Pair>(self.pairs)
    }

    /// The image whose bytes these are.
    pub open spec fn of(bytes: Seq<u8>) -> Option<Self> {
        match crate::codec::list_at::<Session>(bytes) {
            Some((sessions, rest)) => match crate::codec::list_at::<Pair>(rest) {
                Some((pairs, rest)) => {
                    let image = ImageView { sessions, pairs };
                    if rest.len() == 0 && image.wf() {
                        Some(image)
                    } else {
                        None
                    }
                },
                None => None,
            },
            None => None,
        }
    }

    /// The store that the image shows.
    pub open spec fn data(self) -> Data {
        Map::new(
            |k: Seq<u8>| keys_of(self.pairs).contains(k),
            |k: Seq<u8>| self.pairs[keys_of(self.pairs).index_of(k)].value,
        )
    }
}

/// The keys that have a value, each with its value.
pub open spec fn present(keys: Seq<Seq<u8>>, values: Seq<Option<Seq<u8>>>) -> Seq<PairView>
    decreases keys.len(),
{
    if keys.len() == 0 || values.len() == 0 {
        Seq::empty()
    } else {
        let front = present(keys.drop_last(), values.drop_last());
        match values.last() {
            Some(value) => front.push(PairView { key: keys.last(), value }),
            None => front,
        }
    }
}

/// The values that a list of optional byte strings stands for.
pub open spec fn values_view(values: Seq<Option<Vec<u8>>>) -> Seq<Option<Seq<u8>>> {
    Seq::new(values.len(), |i: int| crate::raft::types::bytes_view(values[i]))
}

/// What it takes to make the store equal to an image.
#[derive(Debug)]
pub struct Reset {
    /// The keys to remove.
    pub remove: Vec<Vec<u8>>,
    /// The pairs to put.
    pub write: Vec<Pair>,
}

/// Whether keys are in order, none twice.
fn in_order(keys: &Vec<Vec<u8>>) -> (r: bool)
    ensures
        r == super::directory::ascending(super::directory::contents(keys@)),
{
    let ghost all = super::directory::contents(keys@);
    let mut i: usize = 1;
    while i < keys.len()
        invariant
            1 <= i,
            all == super::directory::contents(keys@),
            forall|a: int, b: int|
                0 <= a < b < i && b < all.len() ==> super::directory::precedes(
                    #[trigger] all[a],
                    #[trigger] all[b],
                ),
        decreases keys.len() - i,
    {
        let order = rank(&keys[i - 1], &keys[i]);
        if order != Rank::Before {
            proof {
                assert(!super::directory::precedes(all[i - 1], all[i as int]));
            }
            return false;
        }
        proof {
            assert forall|a: int, b: int|
                0 <= a < b < i + 1 && b < all.len() implies super::directory::precedes(
                #[trigger] all[a],
                #[trigger] all[b],
            ) by {
                if b == i && a < i - 1 {
                    assert(super::directory::precedes(all[a], all[i - 1]));
                    super::directory::lemma_transitive(all[a], all[i - 1], all[i as int]);
                }
            }
        }
        i += 1;
    }
    true
}

/// Copies the keys of a run of pairs.
fn copy_keys(pairs: &Vec<Pair>) -> (r: Vec<Vec<u8>>)
    ensures
        super::directory::contents(r@) == keys_of(crate::codec::views(pairs@)),
{
    let mut r: Vec<Vec<u8>> = Vec::new();
    let mut i: usize = 0;
    while i < pairs.len()
        invariant
            i <= pairs.len(),
            r.len() == i,
            forall|j: int| 0 <= j < i ==> (#[trigger] r@[j])@ == pairs@[j].key@,
        decreases pairs.len() - i,
    {
        r.push(copy_bytes(&pairs[i].key));
        i += 1;
    }
    assert(super::directory::contents(r@) =~= keys_of(crate::codec::views(pairs@)));
    r
}

/// The sessions and pairs of an image.
fn read_image(bytes: &[u8]) -> (r: Option<(Vec<Session>, Vec<Pair>)>)
    ensures
        match r {
            Some((sessions, pairs)) => crate::codec::list_at::<Session>(bytes@) matches Some(
                (s, rest),
            ) && s == crate::codec::views(sessions@) && crate::codec::list_at::<Pair>(rest) == Some(
                (crate::codec::views(pairs@), Seq::<u8>::empty()),
            ),
            None => ImageView::of(bytes@) is None,
        },
{
    let mut input = bytes;
    let sessions: Vec<Session> = match read_list(&mut input) {
        Some(sessions) => sessions,
        None => return None,
    };
    let pairs: Vec<Pair> = match read_list(&mut input) {
        Some(pairs) => pairs,
        None => return None,
    };
    if input.len() > 0 {
        return None;
    }
    assert(input@ =~= Seq::<u8>::empty());
    Some((sessions, pairs))
}

impl Machine {
    /// A snapshot of the state machine. `values` is what the engine holds at each of
    /// [`Self::keys`], in that order; `None` if it is for other keys. The count
    /// towards the next snapshot starts anew.
    pub fn snapshot(&mut self, values: Vec<Option<Vec<u8>>>) -> (r: Option<Vec<u8>>)
        requires
            old(self).wf(),
        ensures
            final(self).wf(),
            final(self).key_list() == old(self).key_list(),
            match r {
                Some(bytes) => {
                    let image = ImageView {
                        sessions: old(self)@.sessions,
                        pairs: present(old(self).key_list(), values_view(values@)),
                    };
                    &&& values.len() == old(self).key_list().len()
                    &&& bytes@ == image.bytes()
                    &&& final(self)@ == (MachineView { since_snapshot: 0, ..old(self)@ })
                },
                None => values.len() != old(self).key_list().len() && *final(self) == *old(self),
            },
    {
        let keys = self.keys();
        if values.len() != keys.len() {
            return None;
        }
        let ghost ks = self.key_list();
        let ghost vs = values_view(values@);
        let mut pairs: Vec<Pair> = Vec::new();
        let mut i: usize = 0;
        assert(present(ks.take(0), vs.take(0)) =~= crate::codec::views(pairs@));
        while i < keys.len()
            invariant
                i <= keys.len(),
                values.len() == keys.len(),
                super::directory::contents(keys@) == ks,
                vs == values_view(values@),
                crate::codec::views(pairs@) == present(ks.take(i as int), vs.take(i as int)),
            decreases keys.len() - i,
        {
            let ghost before = crate::codec::views(pairs@);
            proof {
                assert(ks.take(i + 1).drop_last() =~= ks.take(i as int));
                assert(vs.take(i + 1).drop_last() =~= vs.take(i as int));
            }
            match &values[i] {
                Some(value) => {
                    pairs.push(Pair { key: copy_bytes(&keys[i]), value: copy_bytes(value) });
                    assert(crate::codec::views(pairs@) =~= before.push(
                        PairView { key: ks[i as int], value: value@ },
                    ));
                },
                None => {},
            }
            i += 1;
        }
        assert(ks.take(i as int) =~= ks);
        assert(vs.take(i as int) =~= vs);
        let mut out: Vec<u8> = Vec::new();
        let slots = self.sessions();
        proof {
            assert(crate::codec::views(slots@) =~= self@.sessions);
        }
        write_list(slots, &mut out);
        write_list(pairs.as_slice(), &mut out);
        self.start_count();
        Some(out)
    }

    /// Start over from a snapshot: hand back what makes the store equal to it.
    /// Fails, with nothing changed, on bytes that are no snapshot.
    pub fn restore(&mut self, bytes: &[u8]) -> (r: Result<Reset, DecodeError>)
        requires
            old(self).wf(),
            old(self)@.running is None,
        ensures
            final(self).wf(),
            match ImageView::of(bytes@) {
                Some(image) => {
                    &&& r matches Ok(reset)
                    &&& crate::codec::views(reset.write@) == image.pairs
                    &&& forall|k: Seq<u8>| #[trigger]
                        super::directory::contents(reset.remove@).contains(k) <==> old(
                            self,
                        )@.keys.contains(k) && !keys_of(image.pairs).contains(k)
                    &&& final(self)@ == (MachineView {
                        sessions: image.sessions,
                        keys: keys_of(image.pairs).to_set(),
                        running: None,
                        since_snapshot: 0,
                    })
                },
                None => r is Err && *final(self) == *old(self),
            },
    {
        let bad = DecodeError { description: "not a snapshot".to_string() };
        let (slots, pairs) = match read_image(bytes) {
            Some(parts) => parts,
            None => return Err(bad),
        };
        let keys: Vec<Vec<u8>> = copy_keys(&pairs);
        if !in_order(&keys) {
            return Err(bad);
        }
        proof {
            assert(super::sessions::sessions_view(slots@) =~= crate::codec::views(slots@));
        }
        let sessions: Sessions = match Sessions::from_slots(slots) {
            Some(sessions) => sessions,
            None => return Err(bad),
        };
        proof {
            lemma_list_fits(bytes@);
        }
        let kept = KeyDirectory::from_sorted(keys);
        let stale = self.keys();
        let ghost all = super::directory::contents(stale@);
        let mut remove: Vec<Vec<u8>> = Vec::new();
        let mut i: usize = 0;
        while i < stale.len()
            invariant
                i <= stale.len(),
                kept.wf(),
                all == super::directory::contents(stale@),
                forall|k: Seq<u8>| #[trigger]
                    super::directory::contents(remove@).contains(k) <==> all.take(
                        i as int,
                    ).contains(k) && !kept@.contains(k),
            decreases stale.len() - i,
        {
            let ghost before = super::directory::contents(remove@);
            let ghost next = all[i as int];
            proof {
                assert(all.take(i + 1) =~= all.take(i as int).push(next));
            }
            if !kept.contains(&stale[i]) {
                remove.push(copy_bytes(&stale[i]));
                proof {
                    assert(super::directory::contents(remove@) =~= before.push(next));
                }
            }
            proof {
                let after = super::directory::contents(remove@);
                assert forall|k: Seq<u8>| #[trigger] after.contains(k) <==> all.take(
                    i + 1,
                ).contains(k) && !kept@.contains(k) by {
                    lemma_push_contains(all.take(i as int), next, k);
                    lemma_push_contains(before, next, k);
                    assert(before.contains(k) <==> all.take(i as int).contains(k) && !kept@.contains(
                        k,
                    ));
                }
            }
            i += 1;
        }
        proof {
            assert(all.take(i as int) =~= all);
            self.lemma_wf();
        }
        self.assemble(sessions, kept);
        Ok(Reset { remove, write: pairs })
    }
}

proof fn lemma_push_contains(s: Seq<Seq<u8>>, x: Seq<u8>, k: Seq<u8>)
    ensures
        s.push(x).contains(k) <==> s.contains(k) || k == x,
{
    if s.contains(k) {
        let i = choose|i: int| 0 <= i < s.len() && s[i] == k;
        assert(s.push(x)[i] == k);
    }
    if k == x {
        assert(s.push(x)[s.len() as int] == k);
    }
}

/// No outcome that was read is a failure.
proof fn lemma_run_fits(n: nat, bytes: Seq<u8>)
    ensures
        crate::codec::run_at::<Session>(n, bytes) matches Some((sessions, rest)) ==> forall|i: int|
            0 <= i < sessions.len() ==> !((#[trigger] sessions[i]).outcome is Failed),
    decreases n,
{
    if n > 0 {
        match <Session as Record>::at(bytes) {
            Some((s, rest)) => {
                lemma_run_fits((n - 1) as nat, rest);
                match crate::codec::run_at::<Session>((n - 1) as nat, rest) {
                    Some((more, rest)) => {
                        let all = seq![s] + more;
                        assert forall|i: int| 0 <= i < all.len() implies !((
                        #[trigger] all[i]).outcome is Failed) by {
                            if i > 0 {
                                assert(all[i] == more[i - 1]);
                            }
                        }
                    },
                    None => {},
                }
            },
            None => {},
        }
    }
}

proof fn lemma_list_fits(bytes: Seq<u8>)
    ensures
        crate::codec::list_at::<Session>(bytes) matches Some((sessions, rest)) ==> forall|i: int|
            0 <= i < sessions.len() ==> !((#[trigger] sessions[i]).outcome is Failed),
{
    match crate::codec::number_at(bytes) {
        Some((n, rest)) => lemma_run_fits(n as nat, rest),
        None => {},
    }
}

} // verus!
