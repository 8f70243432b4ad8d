use vstd::prelude::*;

verus! {

/// An opaque identifier of one connection, ordered by its counter value.
#[derive(Debug, Copy, Clone, PartialEq, Eq, Structural, PartialOrd, Ord, Hash)]
pub struct ClientID(pub u64);

impl ClientID {
    /// The counter value behind the identifier.
    pub fn value(&self) -> (r: u64)
        ensures
            r == self.0,
    {
        self.0
    }
}

/// Issues identifiers from a counter that starts at zero and wraps on overflow.
pub struct ClientIDFactory {
    state: u64,
}

impl ClientIDFactory {
    /// The value that the next call of `create_id` hands out.
    pub closed spec fn next(&self) -> u64 {
        self.state
    }

    pub fn new() -> (r: Self)
        ensures
            r.next() == 0,
    {
        ClientIDFactory { state: 0 }
    }

    /// Returns the current counter value as an identifier and advances the
    /// counter by one, wrapping from `u64::MAX` to zero.
    pub fn create_id(&mut self) -> (id: ClientID)
        ensures
            id.0 == old(self).next(),
            final(self).next() == advance(old(self).next()),
    {
        let id = ClientID(self.state);
        self.state = self.state.wrapping_add(1);
        id
    }
}

impl Default for ClientIDFactory {
    fn default() -> (r: Self)
        ensures
            r.next() == 0,
    {
        ClientIDFactory::new()
    }
}

/// The counter value after one allocation from `v`: one more, wrapping from
/// `u64::MAX` to zero.
pub open spec fn advance(v: u64) -> u64 {
    if v == u64::MAX {
        0
    } else {
        (v + 1) as u64
    }
}

proof fn lemma_counter_after(states: Seq<ClientIDFactory>, ids: Seq<ClientID>, i: int)
    requires
        states.len() == ids.len() + 1,
        forall|k: int|
            0 <= k < ids.len() ==> (#[trigger] ids[k]).0 == states[k].next() && states[k
                + 1].next() == advance(states[k].next()),
        states[0].next() + ids.len() <= u64::MAX + 1,
        0 <= i < ids.len(),
    ensures
        states[i].next() == states[0].next() + i,
    decreases i,
{
    if i > 0 {
        lemma_counter_after(states, ids, i - 1);
        let k = i - 1;
        assert(ids[k].0 == states[k].next() && states[k + 1].next() == advance(states[k].next()));
        assert(k + 1 == i);
        assert(states[k].next() < u64::MAX);
    }
}

/// Sequential allocation: `n` calls of `create_id` in a row, each on the
/// factory that the one before left (`states[k]` before call `k`, which
/// returned `ids[k]`), give `n` distinct identifiers in strictly increasing
/// order, as long as the counter does not wrap.
pub proof fn lemma_ids_strictly_increase(states: Seq<ClientIDFactory>, ids: Seq<ClientID>)
    requires
        states.len() == ids.len() + 1,
        forall|k: int|
            0 <= k < ids.len() ==> (#[trigger] ids[k]).0 == states[k].next() && states[k
                + 1].next() == advance(states[k].next()),
        states[0].next() + ids.len() <= u64::MAX + 1,
    ensures
        forall|i: int, j: int| 0 <= i < j < ids.len() ==> ids[i].0 < ids[j].0,
        forall|i: int, j: int| 0 <= i < ids.len() && 0 <= j < ids.len() && i != j ==> ids[i] != ids[j],
{
    assert forall|i: int| 0 <= i < ids.len() implies #[trigger] ids[i].0 == states[0].next() + i by {
        lemma_counter_after(states, ids, i);
    }
}

} // verus!
