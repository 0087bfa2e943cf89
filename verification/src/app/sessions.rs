//! The dedup table: for each client, its last mutation and what became of it.

use std::collections::HashMap;

use vstd::prelude::*;

use super::outcome::{Outcome, OutcomeView};

verus! {

broadcast use vstd::std_specs::hash::group_hash_axioms;

/// A client's last mutation and its outcome.
#[derive(Debug)]
pub struct Session {
    pub client_id: u64,
    pub seq: u64,
    pub outcome: Outcome,
}

/// What a [`Session`] stands for.
pub struct SessionView {
    pub client_id: u64,
    pub seq: u64,
    pub outcome: OutcomeView,
}

impl View for Session {
    type V = SessionView;

    open spec fn view(&self) -> SessionView {
        SessionView { client_id: self.client_id, seq: self.seq, outcome: self.outcome@ }
    }
}

/// The sessions that a list of them stands for.
pub open spec fn sessions_view(sessions: Seq<Session>) -> Seq<SessionView> {
    Seq::new(sessions.len(), |i: int| sessions[i]@)
}

/// No client has two sessions.
pub open spec fn distinct(sessions: Seq<SessionView>) -> bool {
    forall|i: int, j: int|
        0 <= i < j < sessions.len() ==> (#[trigger] sessions[i]).client_id != (
        #[trigger] sessions[j]).client_id
}

/// The client has a session.
pub open spec fn knows(sessions: Seq<SessionView>, client_id: u64) -> bool {
    exists|i: int| 0 <= i < sessions.len() && (#[trigger] sessions[i]).client_id == client_id
}

/// The position of a client's session.
pub open spec fn position(sessions: Seq<SessionView>, client_id: u64) -> int {
    choose|i: int| 0 <= i < sessions.len() && (#[trigger] sessions[i]).client_id == client_id
}

/// A client's session.
pub open spec fn session(sessions: Seq<SessionView>, client_id: u64) -> SessionView {
    sessions[position(sessions, client_id)]
}

/// The table after a client's session was replaced, or added at the end.
pub open spec fn with_session(sessions: Seq<SessionView>, s: SessionView) -> Seq<SessionView> {
    if knows(sessions, s.client_id) {
        sessions.update(position(sessions, s.client_id), s)
    } else {
        sessions.push(s)
    }
}

/// The dedup table.
#[derive(Debug)]
pub struct Sessions {
    slots: Vec<Session>,
    /// Where each client's slot is.
    index: HashMap<u64, usize>,
}

impl View for Sessions {
    type V = Seq<SessionView>;

    closed spec fn view(&self) -> Seq<SessionView> {
        sessions_view(self.slots@)
    }
}

impl Sessions {
    /// Every slot is indexed, and nothing else.
    pub closed spec fn wf(&self) -> bool {
        &&& forall|i: int|
            0 <= i < self.slots.len() ==> self.index@.contains_key(
                (#[trigger] self.slots[i]).client_id,
            ) && self.index@[self.slots[i].client_id] == i
        &&& forall|c: u64| #[trigger]
            self.index@.contains_key(c) ==> self.index@[c] < self.slots.len()
                && self.slots[self.index@[c] as int].client_id == c
    }

    /// No client has two sessions.
    pub proof fn lemma_distinct(&self)
        requires
            self.wf(),
        ensures
            distinct(self@),
    {
        assert forall|i: int, j: int| 0 <= i < j < self@.len() implies (
        #[trigger] self@[i]).client_id != (#[trigger] self@[j]).client_id by {
            assert(self.index@[self.slots[i].client_id] == i);
            assert(self.index@[self.slots[j].client_id] == j);
        }
    }

    /// An empty table.
    pub fn new() -> (r: Self)
        ensures
            r.wf(),
            r@ == Seq::<SessionView>::empty(),
    {
        let r = Sessions { slots: Vec::new(), index: HashMap::new() };
        assert(r@ =~= Seq::<SessionView>::empty());
        r
    }

    /// A table of these sessions; none if a client has two.
    pub fn from_slots(slots: Vec<Session>) -> (r: Option<Self>)
        ensures
            match r {
                Some(table) => table.wf() && table@ == sessions_view(slots@) && distinct(table@),
                None => !distinct(sessions_view(slots@)),
            },
    {
        let mut index: HashMap<u64, usize> = HashMap::new();
        let ghost all = sessions_view(slots@);
        let mut i: usize = 0;
        while i < slots.len()
            invariant
                i <= slots.len(),
                all == sessions_view(slots@),
                forall|j: int|
                    0 <= j < i ==> index@.contains_key((#[trigger] slots[j]).client_id)
                        && index@[slots[j].client_id] == j,
                forall|c: u64| #[trigger]
                    index@.contains_key(c) ==> index@[c] < i && slots[index@[c] as int].client_id
                        == c,
            decreases slots.len() - i,
        {
            let client_id: u64 = slots[i].client_id;
            if index.contains_key(&client_id) {
                proof {
                    let j = index@[client_id] as int;
                    assert(all[j].client_id == all[i as int].client_id);
                }
                return None;
            }
            index.insert(client_id, i);
            i += 1;
        }
        let r = Sessions { slots, index };
        proof {
            r.lemma_distinct();
        }
        Some(r)
    }

    /// The sessions, in the order in which their clients first appeared.
    pub fn slots(&self) -> (r: &[Session])
        ensures
            sessions_view(r@) == self@,
    {
        self.slots.as_slice()
    }

    /// A client's session.
    pub fn find(&self, client_id: u64) -> (r: Option<&Session>)
        requires
            self.wf(),
        ensures
            match r {
                Some(s) => knows(self@, client_id) && s@ == session(self@, client_id),
                None => !knows(self@, client_id),
            },
    {
        match self.index.get(&client_id) {
            Some(at) => {
                proof {
                    self.lemma_position(client_id, *at as int);
                }
                Some(&self.slots[*at])
            },
            None => {
                proof {
                    if knows(self@, client_id) {
                        let i = position(self@, client_id);
                        assert(self.index@.contains_key(self.slots[i].client_id));
                    }
                }
                None
            },
        }
    }

    proof fn lemma_position(&self, client_id: u64, at: int)
        requires
            self.wf(),
            0 <= at < self.slots.len(),
            self.slots[at].client_id == client_id,
        ensures
            knows(self@, client_id),
            position(self@, client_id) == at,
    {
        assert(self@[at].client_id == client_id);
        let i = position(self@, client_id);
        assert(self@[i].client_id == client_id);
        assert(self.index@[self.slots[i].client_id] == i);
        assert(self.index@[self.slots[at].client_id] == at);
    }

    /// Remember a client's mutation in place of its last one.
    pub fn record(&mut self, s: Session)
        requires
            old(self).wf(),
        ensures
            final(self).wf(),
            final(self)@ == with_session(old(self)@, s@),
    {
        let ghost before = self@;
        let ghost v = s@;
        match self.index.get(&s.client_id) {
            Some(at) => {
                let at: usize = *at;
                proof {
                    self.lemma_position(s.client_id, at as int);
                }
                self.slots.set(at, s);
                assert(self@ =~= before.update(at as int, v));
            },
            None => {
                proof {
                    if knows(self@, s.client_id) {
                        let i = position(self@, s.client_id);
                        assert(self.index@.contains_key(self.slots[i].client_id));
                    }
                }
                self.index.insert(s.client_id, self.slots.len());
                self.slots.push(s);
                assert(self@ =~= before.push(v));
            },
        }
    }
}

// ---- laws ----
/// What was recorded of a client last is what is found of it, and what is found of another
/// is what was found before.
pub proof fn the_last_mutation_is_remembered(
    table: &mut Sessions,
    s: Session,
    r: (),
    other: u64,
    mine: Option<&Session>,
    before: Option<&Session>,
    after: Option<&Session>,
)
    requires
        old(table).wf(),
        call_ensures(Sessions::record, (table, s), r),
        call_ensures(Sessions::find, (final(table), s.client_id), mine),
        call_ensures(Sessions::find, (old(table), other), before),
        call_ensures(Sessions::find, (final(table), other), after),
    ensures
        mine is Some && mine->Some_0@ == s@,
        other != s.client_id ==> (before is Some <==> after is Some),
        other != s.client_id && after is Some ==> after->Some_0@ == before->Some_0@,
{
    old(table).lemma_distinct();
    final(table).lemma_distinct();
    lemma_found_again(old(table)@, s@, s.client_id);
    lemma_found_again(old(table)@, s@, other);
}

proof fn lemma_found_again(sessions: Seq<SessionView>, s: SessionView, client_id: u64)
    requires
        distinct(sessions),
        distinct(with_session(sessions, s)),
    ensures
        ({
            let after = with_session(sessions, s);
            &&& client_id == s.client_id ==> knows(after, client_id) && session(after, client_id)
                == s
            &&& client_id != s.client_id ==> (knows(sessions, client_id) <==> knows(
                after,
                client_id,
            ))
            &&& client_id != s.client_id && knows(after, client_id) ==> session(after, client_id)
                == session(sessions, client_id)
        }),
{
    let after = with_session(sessions, s);
    let at = if knows(sessions, s.client_id) {
        position(sessions, s.client_id)
    } else {
        sessions.len() as int
    };
    if knows(sessions, s.client_id) {
        assert(0 <= at < sessions.len() && sessions[at].client_id == s.client_id);
    }
    assert(after[at] == s);
    if client_id == s.client_id {
        let p = position(after, client_id);
        assert(0 <= p < after.len() && after[p].client_id == client_id);
        if p < at {
            assert(after[p].client_id != after[at].client_id);
        } else if at < p {
            assert(after[at].client_id != after[p].client_id);
        }
    } else {
        if knows(sessions, client_id) {
            let p = position(sessions, client_id);
            assert(after[p] == sessions[p]);
        }
        if knows(after, client_id) {
            let q = position(after, client_id);
            assert(sessions[q] == after[q]);
            let p = position(sessions, client_id);
            assert(0 <= p < sessions.len() && sessions[p].client_id == client_id);
            if p < q {
                assert(sessions[p].client_id != sessions[q].client_id);
            } else if q < p {
                assert(sessions[q].client_id != sessions[p].client_id);
            }
        }
    }
}

/// A table can be made of any sessions in which no client is twice, and of no others; it
/// holds them, in order.
pub proof fn tables_hold_their_sessions(
    slots: Vec<Session>,
    r: Option<Sessions>,
    i: int,
    j: int,
)
    requires
        call_ensures(Sessions::from_slots, (slots,), r),
        0 <= i < j < slots@.len(),
    ensures
        slots@[i].client_id == slots@[j].client_id ==> r is None,
        r matches Some(table) ==> table@.len() == slots@.len() && table@[i] == slots@[i]@,
        r is None ==> exists|a: int, b: int|
            0 <= a < b < slots@.len() && (#[trigger] slots@[a]).client_id == (
            #[trigger] slots@[b]).client_id,
{
    let all = sessions_view(slots@);
    assert(all[i].client_id == slots@[i].client_id);
    assert(all[j].client_id == slots@[j].client_id);
    if r is None {
        let (a, b) = choose|a: int, b: int|
            0 <= a < b < all.len() && (#[trigger] all[a]).client_id == (#[trigger] all[b]).client_id;
        assert(slots@[a].client_id == slots@[b].client_id);
    }
}

} // verus!
