//! The routing table: the root of the trie.

use vstd::prelude::*;
use crate::key::{NodeID, NodeValidator};
use crate::node::{
    contents, nearest_of, ping_target, prefix_of, trie_insert, utc_now, views, Contact,
    ContactView, Node, Trie,
};
use crate::K_MAX_ENTRIES;

verus! {

/// The routing table of the local node.
#[derive(Debug)]
pub struct Rtable {
    pub head: Node,
}

impl View for Rtable {
    type V = Trie;

    open spec fn view(&self) -> Trie {
        self.head@
    }
}

impl Default for Rtable {
    fn default() -> (table: Rtable)
        ensures
            table.wf(),
            table@ == Trie::Leaf(Seq::<ContactView>::empty()),
    {
        Rtable::new()
    }
}

impl Rtable {
    /// The table's trie is well formed from the root: every bucket holds at
    /// most `K_MAX_ENTRIES` contacts, none twice, each where the bits of its
    /// identifier lead.
    pub open spec fn wf(&self) -> bool {
        self.head.wf_at(Seq::<bool>::empty())
    }

    /// A table with one empty bucket.
    pub fn new() -> (table: Rtable)
        ensures
            table.wf(),
            table@ == Trie::Leaf(Seq::<ContactView>::empty()),
    {
        Rtable { head: Node::new() }
    }

    /// Offers a contact to the table at time `now`. `head_alive` is read
    /// only where the contact is led to a full bucket that may not split
    /// and does not know it: it says whether that bucket's head answered a
    /// ping.
    pub fn insert_at(
        &mut self,
        con: Contact,
        validator: &NodeValidator,
        head_alive: bool,
        now: i64,
    )
        requires
            old(self).wf(),
        ensures
            final(self)@ == trie_insert(
                old(self)@,
                con@,
                validator.spec_node_id(),
                0,
                head_alive,
                now,
            ),
            final(self).wf(),
    {
        proof {
            assert(prefix_of(con@.uid@, 0) =~= Seq::<bool>::empty());
        }
        self.head.insert(con, validator, 0, 0, head_alive, now);
    }

    /// Offers a contact to the table, at the time the clock gives.
    pub fn insert(&mut self, con: Contact, validator: &NodeValidator, head_alive: bool)
        requires
            old(self).wf(),
        ensures
            exists|now: i64|
                final(self)@ == #[trigger] trie_insert(
                    old(self)@,
                    con@,
                    validator.spec_node_id(),
                    0,
                    head_alive,
                    now,
                ),
            final(self).wf(),
    {
        let now = utc_now();
        self.insert_at(con, validator, head_alive, now);
    }

    /// The contact that has to be pinged before `uid` is offered to the
    /// table, if there is one. Where nothing is returned, `insert` does not
    /// read `head_alive`.
    pub fn ping_candidate(&self, uid: &NodeID, validator: &NodeValidator) -> (head: Option<Contact>)
        requires
            self.wf(),
        ensures
            match head {
                Some(c) => ping_target(self@, *uid, validator.spec_node_id(), 0) == Some(c@),
                None => ping_target(self@, *uid, validator.spec_node_id(), 0) is None,
            },
    {
        proof {
            assert(prefix_of(uid@, 0) =~= Seq::<bool>::empty());
        }
        self.head.ping_candidate(uid, validator, 0, 0)
    }

    /// The `K_MAX_ENTRIES` contacts of the table that are nearest to `id`
    /// by XOR distance, nearest first; all contacts where the table holds
    /// fewer.
    pub fn lookup(&self, id: NodeID) -> (closest: Vec<Contact>)
        requires
            self.wf(),
        ensures
            nearest_of(views(closest@), contents(self@), id, K_MAX_ENTRIES as int),
    {
        let mut closest: Vec<Contact> = Vec::new();
        self.head.closest_into(&id, 0, 0, Ghost(Seq::<bool>::empty()), &mut closest);
        assert(views(closest@).skip(0) =~= views(closest@));
        closest
    }
}

} // verus!
