use vstd::prelude::*;

use crate::client_id::ClientID;

verus! {

/// The map that a list of entries stands for, later entries winning.
pub open spec fn entries_map<S>(s: Seq<(ClientID, S)>) -> Map<ClientID, S>
    decreases s.len(),
{
    if s.len() == 0 {
        Map::empty()
    } else {
        entries_map(s.drop_last()).insert(s.last().0, s.last().1)
    }
}

/// No identifier occurs twice among the entries.
pub open spec fn unique_ids<S>(s: Seq<(ClientID, S)>) -> bool {
    forall|i: int, j: int| 0 <= i < j < s.len() ==> s[i].0 != s[j].0
}

proof fn lemma_entries_map_dom<S>(s: Seq<(ClientID, S)>, id: ClientID)
    ensures
        entries_map(s).contains_key(id) <==> exists|i: int| 0 <= i < s.len() && s[i].0 == id,
    decreases s.len(),
{
    if s.len() > 0 {
        lemma_entries_map_dom(s.drop_last(), id);
        if entries_map(s.drop_last()).contains_key(id) {
            let i = choose|i: int| 0 <= i < s.len() - 1 && s.drop_last()[i].0 == id;
            assert(s[i].0 == id);
        }
        if exists|i: int| 0 <= i < s.len() && s[i].0 == id {
            let i = choose|i: int| 0 <= i < s.len() && s[i].0 == id;
            if i < s.len() - 1 {
                assert(s.drop_last()[i].0 == id);
            }
        }
    }
}

proof fn lemma_entries_map_at<S>(s: Seq<(ClientID, S)>, k: int)
    requires
        unique_ids(s),
        0 <= k < s.len(),
    ensures
        entries_map(s).contains_key(s[k].0),
        entries_map(s)[s[k].0] == s[k].1,
    decreases s.len(),
{
    if k < s.len() - 1 {
        lemma_entries_map_at(s.drop_last(), k);
    }
}

proof fn lemma_entries_map_remove<S>(s: Seq<(ClientID, S)>, k: int)
    requires
        unique_ids(s),
        0 <= k < s.len(),
    ensures
        entries_map(s.remove(k)) == entries_map(s).remove(s[k].0),
        unique_ids(s.remove(k)),
    decreases s.len(),
{
    let id = s[k].0;
    if k == s.len() - 1 {
        assert(s.remove(k) =~= s.drop_last());
        lemma_entries_map_dom(s.drop_last(), id);
        assert(entries_map(s.drop_last()) =~= entries_map(s).remove(id));
    } else {
        let d = s.drop_last();
        assert(unique_ids(d));
        assert(d[k] == s[k]);
        lemma_entries_map_remove(d, k);
        let t = s.remove(k);
        assert(t.drop_last() =~= d.remove(k));
        assert(t.last() == s.last());
        assert(s.last().0 != id);
        assert(entries_map(t) == entries_map(d.remove(k)).insert(s.last().0, s.last().1));
        assert(entries_map(t) =~= entries_map(s).remove(id));
    }
    let t = s.remove(k);
    assert forall|i: int, j: int| 0 <= i < j < t.len() implies t[i].0 != t[j].0 by {
        let si = if i < k {
            i
        } else {
            i + 1
        };
        let sj = if j < k {
            j
        } else {
            j + 1
        };
        assert(t[i] == s[si] && t[j] == s[sj]);
    }
}

/// The connection registry: for each connected peer, the sending half of its
/// outbound channel.
pub struct Registry<S> {
    entries: Vec<(ClientID, S)>,
}

impl<S> Registry<S> {
    /// Each registered identifier with its sender.
    pub closed spec fn view(&self) -> Map<ClientID, S> {
        entries_map(self.entries@)
    }

    /// At most one entry per identifier.
    pub closed spec fn wf(&self) -> bool {
        unique_ids(self.entries@)
    }

    pub fn new() -> (r: Self)
        ensures
            r.wf(),
            r.view() == Map::<ClientID, S>::empty(),
    {
        Registry { entries: Vec::new() }
    }

    fn find(&self, id: ClientID) -> (r: Option<usize>)
        requires
            self.wf(),
        ensures
            match r {
                Some(k) => k < self.entries@.len() && self.entries@[k as int].0 == id,
                None => !self.view().contains_key(id),
            },
    {
        let n: usize = self.entries.len();
        let mut k: usize = 0;
        while k < n
            invariant
                k <= n,
                n == self.entries@.len(),
                forall|i: int| 0 <= i < k ==> self.entries@[i].0 != id,
            decreases n - k,
        {
            if self.entries[k].0.0 == id.0 {
                return Some(k);
            }
            k = k + 1;
        }
        proof {
            lemma_entries_map_dom(self.entries@, id);
        }
        None
    }

    /// Whether `id` has an entry.
    pub fn contains(&self, id: ClientID) -> (r: bool)
        requires
            self.wf(),
        ensures
            r == self.view().contains_key(id),
    {
        match self.find(id) {
            Some(k) => {
                proof {
                    lemma_entries_map_at(self.entries@, k as int);
                }
                true
            },
            None => false,
        }
    }

    /// Adds the sender of a newly accepted connection. An identifier that is
    /// already registered is refused with `false`, the registry unchanged.
    pub fn register(&mut self, id: ClientID, sender: S) -> (r: bool)
        requires
            old(self).wf(),
        ensures
            final(self).wf(),
            r == !old(self).view().contains_key(id),
            final(self).view() == if r {
                old(self).view().insert(id, sender)
            } else {
                old(self).view()
            },
    {
        if let Some(k) = self.find(id) {
            proof {
                lemma_entries_map_at(self.entries@, k as int);
            }
            return false;
        }
        proof {
            lemma_entries_map_dom(self.entries@, id);
        }
        self.entries.push((id, sender));
        proof {
            assert(self.entries@.drop_last() =~= old(self).entries@);
        }
        true
    }

    /// Takes out the entry of a peer that is gone and hands back its sender.
    pub fn remove(&mut self, id: ClientID) -> (r: Option<S>)
        requires
            old(self).wf(),
        ensures
            final(self).wf(),
            final(self).view() == old(self).view().remove(id),
            match r {
                Some(s) => old(self).view().contains_key(id) && s == old(self).view()[id],
                None => !old(self).view().contains_key(id),
            },
    {
        match self.find(id) {
            Some(k) => {
                proof {
                    lemma_entries_map_at(self.entries@, k as int);
                    lemma_entries_map_remove(self.entries@, k as int);
                }
                let (_, s) = self.entries.remove(k);
                Some(s)
            },
            None => {
                proof {
                    assert(old(self).view().remove(id) =~= old(self).view());
                }
                None
            },
        }
    }

    /// The sender registered for `id`, if any.
    pub fn get(&self, id: ClientID) -> (r: Option<&S>)
        requires
            self.wf(),
        ensures
            match r {
                Some(s) => self.view().contains_key(id) && *s == self.view()[id],
                None => !self.view().contains_key(id),
            },
    {
        match self.find(id) {
            Some(k) => {
                proof {
                    lemma_entries_map_at(self.entries@, k as int);
                }
                Some(&self.entries[k].1)
            },
            None => None,
        }
    }

    /// Every registered identifier, each once, in no promised order.
    pub fn ids(&self) -> (r: Vec<ClientID>)
        requires
            self.wf(),
        ensures
            r@.no_duplicates(),
            forall|id: ClientID| r@.contains(id) <==> self.view().contains_key(id),
    {
        let n: usize = self.entries.len();
        let mut r: Vec<ClientID> = Vec::new();
        let mut k: usize = 0;
        while k < n
            invariant
                k <= n,
                n == self.entries@.len(),
                unique_ids(self.entries@),
                r@.len() == k,
                forall|i: int| 0 <= i < k ==> r@[i] == self.entries@[i].0,
            decreases n - k,
        {
            r.push(self.entries[k].0);
            k = k + 1;
        }
        assert forall|id: ClientID| r@.contains(id) <==> self.view().contains_key(id) by {
            lemma_entries_map_dom(self.entries@, id);
            if self.view().contains_key(id) {
                let i = choose|i: int| 0 <= i < self.entries@.len() && self.entries@[i].0 == id;
                assert(r@[i] == id);
            }
        }
        r
    }

    /// The identifiers of every peer but `from`: where a message from `from`
    /// is relayed to.
    pub fn others(&self, from: ClientID) -> (r: Vec<ClientID>)
        requires
            self.wf(),
        ensures
            r@.no_duplicates(),
            forall|id: ClientID| r@.contains(id) <==> (self.view().contains_key(id) && id != from),
    {
        let n: usize = self.entries.len();
        let mut r: Vec<ClientID> = Vec::new();
        let mut k: usize = 0;
        while k < n
            invariant
                k <= n,
                n == self.entries@.len(),
                unique_ids(self.entries@),
                r@.no_duplicates(),
                forall|id: ClientID| r@.contains(id) <==> (exists|i: int| 0 <= i < k
                    && self.entries@[i].0 == id && id != from),
            decreases n - k,
        {
            let id = self.entries[k].0;
            if id.0 != from.0 {
                let ghost prev = r@;
                proof {
                    if prev.contains(id) {
                        let i = choose|i: int| 0 <= i < k && self.entries@[i].0 == id && id != from;
                        assert(self.entries@[i].0 != self.entries@[k as int].0);
                    }
                }
                r.push(id);
                assert forall|x: ClientID| r@.contains(x) <==> (exists|i: int| 0 <= i < k + 1
                    && self.entries@[i].0 == x && x != from) by {
                    if x == id {
                        assert(self.entries@[k as int].0 == x);
                        assert(r@[prev.len() as int] == x);
                    } else {
                        if r@.contains(x) {
                            let j = choose|j: int| 0 <= j < r@.len() && r@[j] == x;
                            assert(prev[j] == x);
                            assert(prev.contains(x));
                        }
                        if prev.contains(x) {
                            let j = choose|j: int| 0 <= j < prev.len() && prev[j] == x;
                            assert(r@[j] == x);
                        }
                        if exists|i: int| 0 <= i < k + 1 && self.entries@[i].0 == x && x != from {
                            let i = choose|i: int| 0 <= i < k + 1 && self.entries@[i].0 == x && x != from;
                            assert(i < k);
                        }
                    }
                }
            } else {
                assert forall|x: ClientID| r@.contains(x) <==> (exists|i: int| 0 <= i < k + 1
                    && self.entries@[i].0 == x && x != from) by {
                    if exists|i: int| 0 <= i < k + 1 && self.entries@[i].0 == x && x != from {
                        let i = choose|i: int| 0 <= i < k + 1 && self.entries@[i].0 == x && x != from;
                        assert(i < k);
                    }
                }
            }
            k = k + 1;
        }
        assert forall|id: ClientID| r@.contains(id) <==> (self.view().contains_key(id) && id != from) by {
            lemma_entries_map_dom(self.entries@, id);
        }
        r
    }
}

/// Entries of distinct peers do not touch: registering or removing one peer
/// leaves the entry of every other peer as it was, so a send looked up for one
/// peer never reaches another's channel, and a departure does not disturb
/// delivery to those that remain.
pub proof fn lemma_peers_isolated<S>(reg: Map<ClientID, S>, a: ClientID, sender: S, b: ClientID)
    requires
        a != b,
    ensures
        reg.insert(a, sender).contains_key(b) == reg.contains_key(b),
        reg.remove(a).contains_key(b) == reg.contains_key(b),
        reg.contains_key(b) ==> reg.insert(a, sender)[b] == reg[b] && reg.remove(a)[b] == reg[b],
        reg.insert(a, sender)[a] == sender,
{
}

} // verus!
