//! Contacts, buckets and the routing trie.

use vstd::prelude::*;
use std::collections::VecDeque;
use chrono::Utc;
use crate::crypto::append_bytes;
use crate::kademlia::Kcontact;
use crate::key::{
    closer_to, id_bit, lemma_bits_determine_id, lemma_closer_total, lemma_closer_transitive,
    lemma_split_order, NodeID, NodeValidator,
};
use crate::K_MAX_ENTRIES;

verus! {

/// When a contact was last heard from, in seconds since the Unix epoch.
#[derive(Debug, Clone, Copy, Hash, PartialEq, Eq, Structural, Ord, PartialOrd)]
pub enum LastSeen {
    Never,
    Seen(i64),
}

/// What a contact is, as a mathematical value.
pub struct ContactView {
    pub uid: NodeID,
    pub address: Seq<char>,
    pub last_seen: LastSeen,
    pub pub_key: Seq<u8>,
}

impl ContactView {
    /// The contact after it was heard from at time `now`: the later of its
    /// last-seen time and `now` is kept.
    pub open spec fn seen_at(self, now: i64) -> ContactView {
        ContactView {
            uid: self.uid,
            address: self.address,
            last_seen: match self.last_seen {
                LastSeen::Never => LastSeen::Seen(now),
                LastSeen::Seen(t) => if t > now {
                    LastSeen::Seen(t)
                } else {
                    LastSeen::Seen(now)
                },
            },
            pub_key: self.pub_key,
        }
    }
}

/// A remote peer as known locally.
#[derive(Debug, Hash, PartialEq, Eq, Ord, PartialOrd)]
pub struct Contact {
    pub uid: NodeID,
    pub address: String,
    pub last_seen: LastSeen,
    pub pub_key: Vec<u8>,
}

impl View for Contact {
    type V = ContactView;

    open spec fn view(&self) -> ContactView {
        ContactView {
            uid: self.uid,
            address: self.address@,
            last_seen: self.last_seen,
            pub_key: self.pub_key@,
        }
    }
}

impl Clone for Contact {
    fn clone(&self) -> (c: Contact)
        ensures
            c@ == self@,
    {
        Contact {
            uid: self.uid,
            address: self.address.clone(),
            last_seen: self.last_seen,
            pub_key: self.pub_key.clone(),
        }
    }
}

/// Reads the clock with `chrono::Utc::now()` and hands out the seconds since
/// the Unix epoch. Nothing is claimed of the number.
#[verifier::external_body]
pub(crate) fn utc_now() -> i64 {
    Utc::now().timestamp()
}

/// Reads the clock with `chrono::Utc::now()` and hands out the seconds since
/// the Unix epoch together with the text that chrono's `to_string` gives
/// for the same instant. Nothing is claimed of either.
#[verifier::external_body]
pub(crate) fn utc_now_text() -> (i64, String) {
    let now = Utc::now();
    (now.timestamp(), now.to_string())
}

impl Contact {
    /// A contact that was never heard from.
    pub fn new(uid: NodeID, address: String, pub_key: Vec<u8>) -> (c: Contact)
        ensures
            c@ == (ContactView {
                uid,
                address: address@,
                last_seen: LastSeen::Never,
                pub_key: pub_key@,
            }),
    {
        Contact { uid, address, pub_key, last_seen: LastSeen::Never }
    }

    /// The contact's public key, in PEM form.
    pub fn get_pubkey(&self) -> (key: &[u8])
        ensures
            key@ == self@.pub_key,
    {
        self.pub_key.as_slice()
    }

    /// The contact as it travels.
    pub fn as_kcontact(&self) -> (k: Kcontact)
        ensures
            k.uid@ == self@.uid@,
            k.address@ == self@.address,
            k.pub_key@ == self@.pub_key,
    {
        let mut uid: Vec<u8> = Vec::new();
        append_bytes(&mut uid, self.uid.as_bytes());
        assert(uid@ =~= self@.uid@);
        Kcontact { uid, address: self.address.clone(), pub_key: self.pub_key.clone() }
    }

    /// Records that the contact was heard from at time `now`. The last-seen
    /// time never goes back.
    pub fn see_at(&mut self, now: i64)
        ensures
            final(self)@ == old(self)@.seen_at(now),
    {
        let kept = match self.last_seen {
            LastSeen::Never => now,
            LastSeen::Seen(t) => if t > now {
                t
            } else {
                now
            },
        };
        self.last_seen = LastSeen::Seen(kept);
    }

    /// Records that the contact was heard from just now, by the clock.
    pub fn see(&mut self)
        ensures
            exists|now: i64| final(self)@ == old(self)@.seen_at(now),
    {
        let now = utc_now();
        self.see_at(now);
    }
}

/// Some contact of `s` has the identifier `uid`.
pub open spec fn has_uid(s: Seq<ContactView>, uid: NodeID) -> bool {
    exists|i: int| 0 <= i < s.len() && (#[trigger] s[i]).uid == uid
}

/// Where in `s` the contact with the identifier `uid` stands.
pub open spec fn index_of(s: Seq<ContactView>, uid: NodeID) -> int {
    choose|i: int| 0 <= i < s.len() && (#[trigger] s[i]).uid == uid
}

/// No two contacts of `s` have the same identifier.
pub open spec fn distinct(s: Seq<ContactView>) -> bool {
    forall|i: int, j: int| 0 <= i < j < s.len() ==> (#[trigger] s[i]).uid != (#[trigger] s[j]).uid
}

/// A bucket's contents: at most `K_MAX_ENTRIES` contacts, no identifier
/// twice.
pub open spec fn bucket_wf(s: Seq<ContactView>) -> bool {
    s.len() <= K_MAX_ENTRIES && distinct(s)
}

/// The contact with the identifier `uid` is heard from at `now` and moves to
/// the tail.
pub open spec fn refreshed(s: Seq<ContactView>, uid: NodeID, now: i64) -> Seq<ContactView> {
    let i = index_of(s, uid);
    s.remove(i).push(s[i].seen_at(now))
}

/// The contact with the identifier `uid` moves to the tail.
pub open spec fn moved_to_tail(s: Seq<ContactView>, uid: NodeID) -> Seq<ContactView> {
    if has_uid(s, uid) {
        let i = index_of(s, uid);
        s.remove(i).push(s[i])
    } else {
        s
    }
}

/// The contact with the identifier `uid` leaves.
pub open spec fn without(s: Seq<ContactView>, uid: NodeID) -> Seq<ContactView> {
    if has_uid(s, uid) {
        s.remove(index_of(s, uid))
    } else {
        s
    }
}

/// A bucket after `c` was offered at time `now`: a known contact is
/// refreshed, a new one is appended while there is room, and dropped when
/// there is none.
pub open spec fn bucket_insert(s: Seq<ContactView>, c: ContactView, now: i64) -> Seq<ContactView> {
    if has_uid(s, c.uid) {
        refreshed(s, c.uid, now)
    } else if s.len() < K_MAX_ENTRIES {
        s.push(c.seen_at(now))
    } else {
        s
    }
}

/// A bucket after `c` was offered while the bucket may not split: a known
/// contact is refreshed; otherwise the head stays if it answered the ping,
/// and else leaves, and `c` is appended.
pub open spec fn bucket_insert_full(
    s: Seq<ContactView>,
    c: ContactView,
    head_alive: bool,
    now: i64,
) -> Seq<ContactView> {
    if has_uid(s, c.uid) {
        refreshed(s, c.uid, now)
    } else if head_alive {
        s
    } else {
        s.drop_first().push(c.seen_at(now))
    }
}

/// In a bucket without doubles, the place of an identifier is the only place
/// where it stands.
pub proof fn lemma_index_of(s: Seq<ContactView>, uid: NodeID, i: int)
    requires
        distinct(s),
        0 <= i < s.len(),
        s[i].uid == uid,
    ensures
        has_uid(s, uid),
        index_of(s, uid) == i,
{
    let j = index_of(s, uid);
    if j < i {
        assert(s[j].uid != s[i].uid);
    } else if i < j {
        assert(s[i].uid != s[j].uid);
    }
}

/// A bucket without doubles stays so when a contact leaves, and no longer
/// holds that contact's identifier.
pub proof fn lemma_remove_distinct(s: Seq<ContactView>, i: int)
    requires
        distinct(s),
        0 <= i < s.len(),
    ensures
        distinct(s.remove(i)),
        !has_uid(s.remove(i), s[i].uid),
        forall|uid: NodeID| has_uid(s.remove(i), uid) ==> has_uid(s, uid),
{
    let r = s.remove(i);
    assert forall|a: int, b: int| 0 <= a < b < r.len() implies (#[trigger] r[a]).uid != (
    #[trigger] r[b]).uid by {
        let a0 = if a < i { a } else { a + 1 };
        let b0 = if b < i { b } else { b + 1 };
        assert(r[a] == s[a0]);
        assert(r[b] == s[b0]);
    }
    if has_uid(r, s[i].uid) {
        let a = index_of(r, s[i].uid);
        let a0 = if a < i { a } else { a + 1 };
        assert(r[a] == s[a0]);
        if a0 < i {
            assert(s[a0].uid != s[i].uid);
        } else {
            assert(s[i].uid != s[a0].uid);
        }
    }
    assert forall|uid: NodeID| has_uid(r, uid) implies has_uid(s, uid) by {
        let a = index_of(r, uid);
        let a0 = if a < i { a } else { a + 1 };
        assert(r[a] == s[a0]);
    }
}

/// A bucket without doubles stays so when a contact with a new identifier
/// is appended.
pub proof fn lemma_push_distinct(s: Seq<ContactView>, c: ContactView)
    requires
        distinct(s),
        !has_uid(s, c.uid),
    ensures
        distinct(s.push(c)),
{
    let r = s.push(c);
    assert forall|a: int, b: int| 0 <= a < b < r.len() implies (#[trigger] r[a]).uid != (
    #[trigger] r[b]).uid by {
        assert(r[a] == s[a]);
        if b < s.len() {
            assert(r[b] == s[b]);
        }
    }
}

/// Offering a contact to a bucket keeps the bucket well formed.
pub proof fn lemma_bucket_insert_wf(s: Seq<ContactView>, c: ContactView, now: i64)
    requires
        bucket_wf(s),
    ensures
        bucket_wf(bucket_insert(s, c, now)),
{
    if has_uid(s, c.uid) {
        let i = index_of(s, c.uid);
        lemma_remove_distinct(s, i);
        lemma_push_distinct(s.remove(i), s[i].seen_at(now));
    } else if s.len() < K_MAX_ENTRIES {
        lemma_push_distinct(s, c.seen_at(now));
    }
}

/// Offering a contact to a bucket that may not split keeps it well formed.
pub proof fn lemma_bucket_insert_full_wf(
    s: Seq<ContactView>,
    c: ContactView,
    head_alive: bool,
    now: i64,
)
    requires
        bucket_wf(s),
        s.len() > 0,
    ensures
        bucket_wf(bucket_insert_full(s, c, head_alive, now)),
{
    if has_uid(s, c.uid) {
        let i = index_of(s, c.uid);
        lemma_remove_distinct(s, i);
        lemma_push_distinct(s.remove(i), s[i].seen_at(now));
    } else if !head_alive {
        lemma_remove_distinct(s, 0);
        assert(s.remove(0) =~= s.drop_first());
        lemma_push_distinct(s.drop_first(), c.seen_at(now));
    }
}

/// The contacts of `s` whose identifier has `bit` at position `d`, in their
/// order.
pub open spec fn with_bit(s: Seq<ContactView>, d: int, bit: bool) -> Seq<ContactView>
    decreases s.len(),
{
    if s.len() == 0 {
        s
    } else {
        let rest = with_bit(s.drop_last(), d, bit);
        if id_bit(s.last().uid@, d) == bit {
            rest.push(s.last())
        } else {
            rest
        }
    }
}

/// What `with_bit` keeps: contacts of `s` with that bit, each once, and all
/// of them.
pub proof fn lemma_with_bit(s: Seq<ContactView>, d: int, bit: bool)
    ensures
        with_bit(s, d, bit).len() <= s.len(),
        with_bit(s, d, bit).len() + with_bit(s, d, !bit).len() == s.len(),
        forall|i: int|
            0 <= i < with_bit(s, d, bit).len() ==> {
                &&& id_bit((#[trigger] with_bit(s, d, bit)[i]).uid@, d) == bit
                &&& s.contains(with_bit(s, d, bit)[i])
            },
        forall|i: int|
            0 <= i < s.len() && id_bit((#[trigger] s[i]).uid@, d) == bit ==> with_bit(
                s,
                d,
                bit,
            ).contains(s[i]),
        distinct(s) ==> distinct(with_bit(s, d, bit)),
    decreases s.len(),
{
    if s.len() > 0 {
        let t = s.drop_last();
        lemma_with_bit(t, d, bit);
        let rt = with_bit(t, d, bit);
        let r = with_bit(s, d, bit);
        assert forall|i: int| 0 <= i < r.len() implies {
            &&& id_bit((#[trigger] r[i]).uid@, d) == bit
            &&& s.contains(r[i])
        } by {
            if i < rt.len() {
                assert(r[i] == rt[i]);
                assert(t.contains(rt[i]));
                let k = choose|k: int| 0 <= k < t.len() && t[k] == rt[i];
                assert(s[k] == r[i]);
            } else {
                assert(r[i] == s[s.len() - 1]);
            }
        }
        assert forall|i: int|
            0 <= i < s.len() && id_bit((#[trigger] s[i]).uid@, d) == bit implies r.contains(
            s[i],
        ) by {
            if i < t.len() {
                assert(t[i] == s[i]);
                assert(rt.contains(t[i]));
                let k = choose|k: int| 0 <= k < rt.len() && rt[k] == t[i];
                assert(r[k] == s[i]);
            } else {
                assert(r[r.len() - 1] == s[i]);
            }
        }
        if distinct(s) {
            assert(distinct(t)) by {
                assert forall|a: int, b: int| 0 <= a < b < t.len() implies (#[trigger] t[a]).uid != (
                #[trigger] t[b]).uid by {
                    assert(t[a] == s[a]);
                    assert(t[b] == s[b]);
                }
            }
            if id_bit(s.last().uid@, d) == bit {
                if has_uid(rt, s.last().uid) {
                    let a = index_of(rt, s.last().uid);
                    assert(t.contains(rt[a]));
                    let k = choose|k: int| 0 <= k < t.len() && t[k] == rt[a];
                    assert(s[k].uid != s[s.len() - 1].uid);
                }
                lemma_push_distinct(rt, s.last());
            }
        }
    }
}

/// Where `with_bit` keeps as many contacts as there are, it keeps them all.
pub proof fn lemma_with_bit_all(s: Seq<ContactView>, d: int, bit: bool)
    requires
        with_bit(s, d, bit).len() == s.len(),
    ensures
        with_bit(s, d, bit) == s,
    decreases s.len(),
{
    if s.len() > 0 {
        lemma_with_bit(s.drop_last(), d, bit);
        lemma_with_bit_all(s.drop_last(), d, bit);
        assert(with_bit(s, d, bit) =~= s);
    }
}

/// The views of a list of contacts.
pub open spec fn views(s: Seq<Contact>) -> Seq<ContactView> {
    Seq::new(s.len(), |i: int| s[i]@)
}

/// Each contact of `s` is strictly closer to `target` than those after it.
pub open spec fn strictly_ascending(s: Seq<ContactView>, target: NodeID) -> bool {
    forall|i: int, j: int|
        0 <= i < j < s.len() ==> closer_to(target@, (#[trigger] s[i]).uid@, (#[trigger] s[j]).uid@)
}

/// A list in strictly ascending order of distance holds no identifier twice.
pub proof fn lemma_ascending_distinct(s: Seq<ContactView>, target: NodeID)
    requires
        strictly_ascending(s, target),
    ensures
        distinct(s),
{
    assert forall|i: int, j: int| 0 <= i < j < s.len() implies (#[trigger] s[i]).uid != (
    #[trigger] s[j]).uid by {
        lemma_closer_total(target@, s[i].uid@, s[j].uid@);
    }
}

/// Inserts `c` into a list sorted by distance to `target`, at its place,
/// and says where.
pub(crate) fn insert_sorted(out: &mut Vec<Contact>, c: Contact, target: &NodeID) -> (pos: usize)
    requires
        strictly_ascending(views(old(out)@), *target),
        !has_uid(views(old(out)@), c@.uid),
    ensures
        pos <= old(out)@.len(),
        views(final(out)@) == views(old(out)@).insert(pos as int, c@),
        strictly_ascending(views(final(out)@), *target),
        forall|m: int| 0 <= m < pos ==> closer_to(target@, (#[trigger] views(old(out)@)[m]).uid@, c@.uid@),
        forall|m: int|
            pos <= m < old(out)@.len() ==> closer_to(
                target@,
                c@.uid@,
                (#[trigger] views(old(out)@)[m]).uid@,
            ),
{
    let ghost before = views(out@);
    let mut pos: usize = 0;
    while pos < out.len() && !target.closer(&c.uid, &out[pos].uid)
        invariant
            0 <= pos <= out@.len(),
            out@ == old(out)@,
            before == views(out@),
            !has_uid(before, c@.uid),
            forall|m: int| 0 <= m < pos ==> closer_to(target@, (#[trigger] before[m]).uid@, c@.uid@),
        decreases out@.len() - pos,
    {
        proof {
            assert(before[pos as int].uid != c@.uid);
            assert(before[pos as int].uid@ != c@.uid@) by {
                if before[pos as int].uid@ == c@.uid@ {
                    assert(before[pos as int].uid.0 =~= c@.uid.0);
                }
            }
            lemma_closer_total(target@, c@.uid@, before[pos as int].uid@);
        }
        pos += 1;
    }
    proof {
        assert forall|m: int| pos <= m < before.len() implies closer_to(
            target@,
            c@.uid@,
            (#[trigger] before[m]).uid@,
        ) by {
            if m > pos {
                assert(closer_to(target@, before[pos as int].uid@, before[m].uid@));
                lemma_closer_transitive(
                    target@,
                    c@.uid@,
                    before[pos as int].uid@,
                    before[m].uid@,
                );
            }
        }
    }
    let ghost cv = c@;
    out.insert(pos, c);
    proof {
        let after = views(out@);
        assert(after =~= before.insert(pos as int, cv));
        assert forall|i: int, j: int| 0 <= i < j < after.len() implies closer_to(
            target@,
            (#[trigger] after[i]).uid@,
            (#[trigger] after[j]).uid@,
        ) by {
            if j < pos {
                assert(after[i] == before[i] && after[j] == before[j]);
            } else if j == pos {
                assert(after[i] == before[i]);
            } else if i < pos {
                assert(after[i] == before[i] && after[j] == before[j - 1]);
            } else if i == pos {
                assert(after[j] == before[j - 1]);
            } else {
                assert(after[i] == before[i - 1] && after[j] == before[j - 1]);
            }
        }
    }
    pos
}

/// A bounded list of contacts, least recently seen first.
#[derive(Debug, Default)]
pub struct Bucket(VecDeque<Contact>);

impl Clone for Bucket {
    fn clone(&self) -> (copy: Bucket)
        ensures
            copy@ == self@,
    {
        let mut copy = Bucket(VecDeque::with_capacity(K_MAX_ENTRIES));
        let mut i: usize = 0;
        while i < self.0.len()
            invariant
                0 <= i <= self.0@.len(),
                copy.0@.len() == i,
                forall|m: int| 0 <= m < i ==> copy.0@[m]@ == self.0@[m]@,
            decreases self.0@.len() - i,
        {
            copy.0.push_back(self.0[i].clone());
            i += 1;
        }
        assert(copy@ =~= self@);
        copy
    }
}

impl View for Bucket {
    type V = Seq<ContactView>;

    closed spec fn view(&self) -> Seq<ContactView> {
        Seq::new(self.0@.len(), |i: int| self.0@[i]@)
    }
}

impl Bucket {
    /// The bucket holds at most `K_MAX_ENTRIES` contacts and no identifier
    /// twice.
    pub open spec fn wf(&self) -> bool {
        bucket_wf(self@)
    }

    /// An empty bucket.
    pub fn new() -> (b: Bucket)
        ensures
            b@ == Seq::<ContactView>::empty(),
            b.wf(),
    {
        let b = Bucket(VecDeque::with_capacity(K_MAX_ENTRIES));
        assert(b@ =~= Seq::<ContactView>::empty());
        b
    }

    /// Where the contact with the identifier `uid` stands, if it is here.
    fn find(&self, uid: &NodeID) -> (at: Option<usize>)
        ensures
            match at {
                Some(i) => i < self@.len() && self@[i as int].uid == *uid,
                None => !has_uid(self@, *uid),
            },
    {
        let mut i: usize = 0;
        while i < self.0.len()
            invariant
                0 <= i <= self.0@.len(),
                forall|m: int| 0 <= m < i ==> (#[trigger] self@[m]).uid != *uid,
            decreases self.0@.len() - i,
        {
            if self.0[i].uid.same(uid) {
                return Some(i);
            }
            i += 1;
        }
        None
    }

    /// Whether a contact with the identifier `uid` is in the bucket.
    pub fn contains(&self, uid: &NodeID) -> (r: bool)
        ensures
            r == has_uid(self@, *uid),
    {
        self.find(uid).is_some()
    }

    /// The least recently seen contact, if the bucket holds any.
    pub fn head(&self) -> (c: Option<Contact>)
        ensures
            self@.len() == 0 ==> c is None,
            self@.len() > 0 ==> c is Some && c->0@ == self@[0],
    {
        if self.0.len() == 0 {
            None
        } else {
            Some(self.0[0].clone())
        }
    }

    /// Moves the contact at `i` to the tail and records that it was heard
    /// from at `now`.
    fn refresh_at(&mut self, i: usize, now: i64)
        requires
            i < old(self)@.len(),
        ensures
            final(self)@ == old(self)@.remove(i as int).push(old(self)@[i as int].seen_at(now)),
    {
        match self.0.remove(i) {
            Some(mut known) => {
                known.see_at(now);
                self.0.push_back(known);
            },
            None => {},
        }
        assert(self@ =~= old(self)@.remove(i as int).push(old(self)@[i as int].seen_at(now)));
    }

    /// Offers a contact to the bucket at time `now`. A contact that is known
    /// by its identifier is refreshed and moves to the tail; a new one is
    /// appended while there is room, and dropped when the bucket is full.
    pub fn insert(&mut self, node: Contact, now: i64)
        requires
            old(self).wf(),
        ensures
            final(self)@ == bucket_insert(old(self)@, node@, now),
            final(self).wf(),
    {
        proof {
            lemma_bucket_insert_wf(self@, node@, now);
        }
        match self.find(&node.uid) {
            Some(i) => {
                proof {
                    lemma_index_of(self@, node.uid, i as int);
                }
                self.refresh_at(i, now);
            },
            None => {
                if self.0.len() < K_MAX_ENTRIES {
                    let mut node = node;
                    node.see_at(now);
                    self.0.push_back(node);
                    assert(self@ =~= old(self)@.push(node@));
                }
            },
        }
    }

    /// Removes the contact with the identifier of `node`, if it is here.
    pub fn remove(&mut self, node: &Contact)
        requires
            old(self).wf(),
        ensures
            final(self)@ == without(old(self)@, node@.uid),
            final(self).wf(),
    {
        match self.find(&node.uid) {
            Some(i) => {
                proof {
                    lemma_index_of(self@, node.uid, i as int);
                    lemma_remove_distinct(self@, i as int);
                }
                let _ = self.0.remove(i);
                assert(self@ =~= old(self)@.remove(i as int));
            },
            None => {},
        }
    }

    /// Moves the contact with the identifier of `node` to the tail, if it is
    /// here.
    pub fn move_to_tail(&mut self, node: &Contact)
        requires
            old(self).wf(),
        ensures
            final(self)@ == moved_to_tail(old(self)@, node@.uid),
            final(self).wf(),
    {
        match self.find(&node.uid) {
            Some(i) => {
                proof {
                    lemma_index_of(self@, node.uid, i as int);
                    lemma_remove_distinct(self@, i as int);
                    lemma_push_distinct(self@.remove(i as int), self@[i as int]);
                }
                match self.0.remove(i) {
                    Some(known) => {
                        self.0.push_back(known);
                    },
                    None => {},
                }
                assert(self@ =~= old(self)@.remove(i as int).push(old(self)@[i as int]));
            },
            None => {},
        }
    }

    /// Whether the bucket holds `K_MAX_ENTRIES` contacts.
    pub fn is_full(&self) -> (r: bool)
        ensures
            r == (self@.len() == K_MAX_ENTRIES),
    {
        self.0.len() == K_MAX_ENTRIES
    }

    /// The number of contacts in the bucket.
    pub fn len(&self) -> (n: usize)
        ensures
            n == self@.len(),
    {
        self.0.len()
    }

    /// Offers a contact to a bucket that may not split. A contact that is
    /// known by its identifier is refreshed. For a new one, `head_alive`
    /// says whether the least recently seen contact answered a ping: if it
    /// did, the new contact is dropped; if not, the head leaves and the new
    /// contact is appended.
    pub fn insert_full(&mut self, head_alive: bool, con: Contact, now: i64)
        requires
            old(self).wf(),
            old(self)@.len() > 0,
        ensures
            final(self)@ == bucket_insert_full(old(self)@, con@, head_alive, now),
            final(self).wf(),
    {
        proof {
            lemma_bucket_insert_full_wf(self@, con@, head_alive, now);
        }
        match self.find(&con.uid) {
            Some(i) => {
                proof {
                    lemma_index_of(self@, con.uid, i as int);
                }
                self.refresh_at(i, now);
            },
            None => {
                if !head_alive {
                    let _ = self.0.pop_front();
                    let mut con = con;
                    con.see_at(now);
                    self.0.push_back(con);
                    assert(self@ =~= old(self)@.drop_first().push(con@));
                }
            },
        }
    }
    /// How many contacts of the bucket have `bit` at position
    /// `8 * chunk + index` of their identifier.
    pub fn count_with_bit(&self, index: usize, chunk: usize, bit: bool) -> (n: usize)
        requires
            index < 8,
            chunk < 32,
        ensures
            n == with_bit(self@, 8 * chunk + index, bit).len(),
    {
        let ghost d: int = 8 * chunk + index;
        let mut n: usize = 0;
        let mut i: usize = 0;
        assert(self@.take(0) =~= Seq::<ContactView>::empty());
        while i < self.0.len()
            invariant
                0 <= i <= self@.len(),
                index < 8,
                chunk < 32,
                d == 8 * chunk + index,
                n <= i,
                n == with_bit(self@.take(i as int), d, bit).len(),
            decreases self@.len() - i,
        {
            proof {
                assert(self@.take(i + 1).drop_last() =~= self@.take(i as int));
                assert(self@.take(i + 1).last() == self@[i as int]);
            }
            if self.0[i].uid.bit(index, chunk) == bit {
                n += 1;
            }
            i += 1;
        }
        assert(self@.take(i as int) =~= self@);
        n
    }

    /// Empties the bucket and parts its contacts by the bit at position
    /// `8 * chunk + index`: first those that differ from `id` there, then
    /// those that agree with it, each in their order.
    pub fn split(&mut self, id: NodeID, index: usize, chunk: usize) -> (parts: (Bucket, Bucket))
        requires
            old(self).wf(),
            index < 8,
            chunk < 32,
        ensures
            final(self)@ == Seq::<ContactView>::empty(),
            parts.0@ == with_bit(old(self)@, 8 * chunk + index, !id_bit(id@, 8 * chunk + index)),
            parts.1@ == with_bit(old(self)@, 8 * chunk + index, id_bit(id@, 8 * chunk + index)),
            parts.0.wf(),
            parts.1.wf(),
    {
        let ghost d: int = 8 * chunk + index;
        let mine = id.bit(index, chunk);
        let mut bucket0 = Bucket::new();
        let mut bucket1 = Bucket::new();
        let ghost whole = self@;
        let ghost mut done: int = 0;
        assert(whole.take(0) =~= Seq::<ContactView>::empty());
        while self.0.len() > 0
            invariant
                0 <= done <= whole.len(),
                index < 8,
                chunk < 32,
                d == 8 * chunk + index,
                mine == id_bit(id@, d),
                self@ == whole.skip(done),
                bucket0@ == with_bit(whole.take(done), d, mine),
                bucket1@ == with_bit(whole.take(done), d, !mine),
            decreases self.0@.len(),
        {
            let ghost before = self@;
            let ghost raw = self.0@;
            match self.0.pop_front() {
                Some(con) => {
                    proof {
                        assert(before.len() == self.0@.len() + 1);
                        assert(whole.skip(done).len() == whole.len() - done);
                        assert(con@ == before[0]);
                        assert(before[0] == whole[done]);
                        assert(whole.take(done + 1).drop_last() =~= whole.take(done));
                        assert(whole.take(done + 1).last() == whole[done]);
                    }
                    let ghost b0 = bucket0@;
                    let ghost b1 = bucket1@;
                    if con.uid.bit(index, chunk) == mine {
                        bucket0.0.push_back(con);
                        assert(bucket0@ =~= b0.push(whole[done]));
                    } else {
                        bucket1.0.push_back(con);
                        assert(bucket1@ =~= b1.push(whole[done]));
                    }
                    proof {
                        assert(self.0@ == raw.subrange(1, raw.len() as int));
                        assert forall|k: int| 0 <= k < self@.len() implies self@[k] == whole.skip(
                            done + 1,
                        )[k] by {
                            assert(self.0@[k] == raw[k + 1]);
                            assert(before[k + 1] == raw[k + 1]@);
                            assert(whole.skip(done)[k + 1] == whole[done + k + 1]);
                        }
                        assert(self@ =~= whole.skip(done + 1));
                        done = done + 1;
                    }
                },
                None => {},
            }
        }
        proof {
            assert(whole.take(done) =~= whole);
            assert(self@ =~= Seq::<ContactView>::empty());
            lemma_with_bit(whole, d, mine);
            lemma_with_bit(whole, d, !mine);
        }
        (bucket1, bucket0)
    }

    /// The bucket's contacts in ascending order of XOR distance to `id`.
    pub fn get_sorted(&self, id: NodeID) -> (sorted: Vec<Contact>)
        requires
            self.wf(),
        ensures
            sorted@.len() == self@.len(),
            strictly_ascending(views(sorted@), id),
            forall|i: int| 0 <= i < sorted@.len() ==> self@.contains(#[trigger] views(sorted@)[i]),
            forall|i: int| 0 <= i < self@.len() ==> views(sorted@).contains(#[trigger] self@[i]),
    {
        let mut sorted: Vec<Contact> = Vec::new();
        let mut i: usize = 0;
        while i < self.0.len()
            invariant
                0 <= i <= self@.len(),
                self.wf(),
                sorted@.len() == i,
                strictly_ascending(views(sorted@), id),
                forall|k: int|
                    0 <= k < sorted@.len() ==> exists|m: int|
                        0 <= m < i && self@[m] == #[trigger] views(sorted@)[k],
                forall|m: int| 0 <= m < i ==> views(sorted@).contains(#[trigger] self@[m]),
            decreases self@.len() - i,
        {
            let c = self.0[i].clone();
            let ghost before = views(sorted@);
            proof {
                if has_uid(before, c@.uid) {
                    let k = index_of(before, c@.uid);
                    let m = choose|m: int| 0 <= m < i && self@[m] == before[k];
                    assert(self@[m].uid != self@[i as int].uid);
                }
            }
            let pos = insert_sorted(&mut sorted, c, &id);
            proof {
                let after = views(sorted@);
                assert forall|k: int| 0 <= k < after.len() implies exists|m: int|
                    0 <= m < i + 1 && self@[m] == #[trigger] after[k] by {
                    if k < pos {
                        assert(after[k] == before[k]);
                        let m = choose|m: int| 0 <= m < i && self@[m] == before[k];
                        assert(self@[m] == after[k]);
                    } else if k == pos {
                        assert(self@[i as int] == after[k]);
                    } else {
                        assert(after[k] == before[k - 1]);
                        let m = choose|m: int| 0 <= m < i && self@[m] == before[k - 1];
                        assert(self@[m] == after[k]);
                    }
                }
                assert forall|m: int| 0 <= m < i + 1 implies after.contains(
                    #[trigger] self@[m],
                ) by {
                    if m < i {
                        assert(before.contains(self@[m]));
                        let k = choose|k: int| 0 <= k < before.len() && before[k] == self@[m];
                        if k < pos {
                            assert(after[k] == self@[m]);
                        } else {
                            assert(after[k + 1] == self@[m]);
                        }
                    } else {
                        assert(after[pos as int] == self@[m]);
                    }
                }
            }
            i += 1;
        }
        proof {
            assert forall|k: int| 0 <= k < sorted@.len() implies self@.contains(
                #[trigger] views(sorted@)[k],
            ) by {
                let m = choose|m: int| 0 <= m < i && self@[m] == views(sorted@)[k];
                assert(self@[m] == views(sorted@)[k]);
            }
        }
        sorted
    }
}

/// The routing trie as a mathematical value: a leaf holds a bucket's
/// contacts, a fork holds the subtrie of the identifiers whose next bit is 0
/// and that of those whose next bit is 1.
pub enum Trie {
    Leaf(Seq<ContactView>),
    Fork(Box<Trie>, Box<Trie>),
}

/// The first `depth` bits of an identifier.
pub open spec fn prefix_of(id: Seq<u8>, depth: int) -> Seq<bool> {
    Seq::new(depth as nat, |j: int| id_bit(id, j))
}

/// The identifier starts with the bits of `path`.
pub open spec fn matches_path(id: Seq<u8>, path: Seq<bool>) -> bool {
    forall|j: int| 0 <= j < path.len() ==> id_bit(id, j) == #[trigger] path[j]
}

/// Every contact of `s` starts with the bits of `path`.
pub open spec fn all_match(s: Seq<ContactView>, path: Seq<bool>) -> bool {
    forall|i: int| 0 <= i < s.len() ==> matches_path((#[trigger] s[i]).uid@, path)
}

/// All contacts of a trie: those of the 0-side before those of the 1-side.
pub open spec fn contents(t: Trie) -> Seq<ContactView>
    decreases t,
{
    match t {
        Trie::Leaf(b) => b,
        Trie::Fork(l, r) => contents(*l) + contents(*r),
    }
}

/// A trie that stands below the bits of `path` is well formed: every leaf is
/// a well-formed bucket whose contacts start with the bits that lead to it,
/// and no fork stands below all 256 bits.
pub open spec fn trie_wf(t: Trie, path: Seq<bool>) -> bool
    decreases t,
{
    match t {
        Trie::Leaf(b) => bucket_wf(b) && path.len() <= 256 && all_match(b, path),
        Trie::Fork(l, r) => path.len() < 256 && trie_wf(*l, path.push(false)) && trie_wf(
            *r,
            path.push(true),
        ),
    }
}

/// The leaf that the bits of `id` lead to, from bit `depth` on.
pub open spec fn leaf_for(t: Trie, id: Seq<u8>, depth: int) -> Seq<ContactView>
    decreases t,
{
    match t {
        Trie::Leaf(b) => b,
        Trie::Fork(l, r) => if id_bit(id, depth) {
            leaf_for(*r, id, depth + 1)
        } else {
            leaf_for(*l, id, depth + 1)
        },
    }
}

/// A leaf that has become a fork: its contacts parted by the bit at `depth`.
pub open spec fn split_leaf(b: Seq<ContactView>, depth: int) -> Trie {
    Trie::Fork(
        Box::new(Trie::Leaf(with_bit(b, depth, false))),
        Box::new(Trie::Leaf(with_bit(b, depth, true))),
    )
}

/// The trie after contact `c` was offered at bit `depth`, on the way that
/// the bits of its identifier lead.
///
/// At a leaf, a known contact or one for which there is room goes into the
/// bucket. A full leaf whose range the local node does not share (the
/// contact differs from `local` at bit `depth`) keeps or evicts its head by
/// `head_alive`. A full leaf in the local node's range splits by the bit at
/// `depth`, and the contact is offered to the fork.
pub open spec fn trie_insert(
    t: Trie,
    c: ContactView,
    local: NodeID,
    depth: int,
    head_alive: bool,
    now: i64,
) -> Trie
    decreases 256 - depth, (if t is Leaf { 1int } else { 0int }), t,
{
    if depth < 0 || depth > 256 {
        t
    } else {
        match t {
            Trie::Fork(l, r) => if depth == 256 {
                t
            } else if id_bit(c.uid@, depth) {
                Trie::Fork(l, Box::new(trie_insert(*r, c, local, depth + 1, head_alive, now)))
            } else {
                Trie::Fork(Box::new(trie_insert(*l, c, local, depth + 1, head_alive, now)), r)
            },
            Trie::Leaf(b) => if has_uid(b, c.uid) || b.len() < K_MAX_ENTRIES {
                Trie::Leaf(bucket_insert(b, c, now))
            } else if depth == 256 {
                t
            } else if id_bit(c.uid@, depth) != id_bit(local@, depth) {
                Trie::Leaf(bucket_insert_full(b, c, head_alive, now))
            } else {
                trie_insert(split_leaf(b, depth), c, local, depth, head_alive, now)
            },
        }
    }
}

/// Whether offering `c` needs to know if a bucket's head is alive, and of
/// which contact: the head of the full leaf that `c` is led to, where that
/// leaf may not split and does not know `c`.
pub open spec fn ping_target(t: Trie, c: NodeID, local: NodeID, depth: int) -> Option<ContactView>
    decreases 256 - depth, (if t is Leaf { 1int } else { 0int }), t,
{
    if depth < 0 || depth > 256 {
        None
    } else {
        match t {
            Trie::Fork(l, r) => if depth == 256 {
                None
            } else if id_bit(c@, depth) {
                ping_target(*r, c, local, depth + 1)
            } else {
                ping_target(*l, c, local, depth + 1)
            },
            Trie::Leaf(b) => if has_uid(b, c) || b.len() < K_MAX_ENTRIES {
                None
            } else if depth == 256 {
                None
            } else if id_bit(c@, depth) != id_bit(local@, depth) {
                Some(b[0])
            } else {
                ping_target(split_leaf(b, depth), c, local, depth, )
            },
        }
    }
}

/// The first `depth + 1` bits of an identifier are its first `depth` bits
/// and the bit at `depth`.
pub proof fn lemma_prefix_step(id: Seq<u8>, depth: int)
    requires
        0 <= depth,
    ensures
        prefix_of(id, depth + 1) == prefix_of(id, depth).push(id_bit(id, depth)),
        matches_path(id, prefix_of(id, depth)),
{
    assert(prefix_of(id, depth + 1) =~= prefix_of(id, depth).push(id_bit(id, depth)));
}

/// The contacts of a bucket keep to the bucket's path when one is offered
/// that keeps to it.
proof fn lemma_bucket_insert_match(s: Seq<ContactView>, c: ContactView, now: i64, path: Seq<bool>)
    requires
        bucket_wf(s),
        all_match(s, path),
        matches_path(c.uid@, path),
    ensures
        all_match(bucket_insert(s, c, now), path),
{
    let r = bucket_insert(s, c, now);
    if has_uid(s, c.uid) {
        let i = index_of(s, c.uid);
        assert forall|k: int| 0 <= k < r.len() implies matches_path((#[trigger] r[k]).uid@, path) by {
            if k < i {
                assert(r[k] == s[k]);
            } else if k < r.len() - 1 {
                assert(r[k] == s[k + 1]);
            } else {
                assert(r[k].uid == s[i].uid);
            }
        }
    } else if s.len() < K_MAX_ENTRIES {
        assert forall|k: int| 0 <= k < r.len() implies matches_path((#[trigger] r[k]).uid@, path) by {
            if k < s.len() {
                assert(r[k] == s[k]);
            }
        }
    }
}

proof fn lemma_bucket_insert_full_match(
    s: Seq<ContactView>,
    c: ContactView,
    head_alive: bool,
    now: i64,
    path: Seq<bool>,
)
    requires
        bucket_wf(s),
        s.len() > 0,
        all_match(s, path),
        matches_path(c.uid@, path),
    ensures
        all_match(bucket_insert_full(s, c, head_alive, now), path),
{
    let r = bucket_insert_full(s, c, head_alive, now);
    if has_uid(s, c.uid) {
        let i = index_of(s, c.uid);
        assert forall|k: int| 0 <= k < r.len() implies matches_path((#[trigger] r[k]).uid@, path) by {
            if k < i {
                assert(r[k] == s[k]);
            } else if k < r.len() - 1 {
                assert(r[k] == s[k + 1]);
            } else {
                assert(r[k].uid == s[i].uid);
            }
        }
    } else if !head_alive {
        assert forall|k: int| 0 <= k < r.len() implies matches_path((#[trigger] r[k]).uid@, path) by {
            if k < r.len() - 1 {
                assert(r[k] == s[k + 1]);
            }
        }
    }
}

/// A well-formed leaf parted by the bit at its depth is a well-formed fork.
proof fn lemma_split_wf(b: Seq<ContactView>, path: Seq<bool>)
    requires
        trie_wf(Trie::Leaf(b), path),
        path.len() < 256,
    ensures
        trie_wf(split_leaf(b, path.len() as int), path),
{
    let d = path.len() as int;
    lemma_with_bit(b, d, false);
    lemma_with_bit(b, d, true);
    let zeros = with_bit(b, d, false);
    let ones = with_bit(b, d, true);
    assert forall|i: int| 0 <= i < zeros.len() implies matches_path(
        (#[trigger] zeros[i]).uid@,
        path.push(false),
    ) by {
        assert(b.contains(zeros[i]));
        let k = choose|k: int| 0 <= k < b.len() && b[k] == zeros[i];
        assert(matches_path(b[k].uid@, path));
        assert forall|j: int| 0 <= j < path.push(false).len() implies id_bit(zeros[i].uid@, j)
            == #[trigger] path.push(false)[j] by {
            if j < d {
                assert(path.push(false)[j] == path[j]);
            }
        }
    }
    assert forall|i: int| 0 <= i < ones.len() implies matches_path(
        (#[trigger] ones[i]).uid@,
        path.push(true),
    ) by {
        assert(b.contains(ones[i]));
        let k = choose|k: int| 0 <= k < b.len() && b[k] == ones[i];
        assert(matches_path(b[k].uid@, path));
        assert forall|j: int| 0 <= j < path.push(true).len() implies id_bit(ones[i].uid@, j)
            == #[trigger] path.push(true)[j] by {
            if j < d {
                assert(path.push(true)[j] == path[j]);
            }
        }
    }
    assert(bucket_wf(zeros) && bucket_wf(ones));
    assert(all_match(zeros, path.push(false)));
    assert(all_match(ones, path.push(true)));
    assert(trie_wf(Trie::Leaf(zeros), path.push(false)));
    assert(trie_wf(Trie::Leaf(ones), path.push(true)));
}

/// Offering a contact to a well-formed trie, on the way that its
/// identifier leads, leaves a well-formed trie: no bucket ever holds more
/// than `K_MAX_ENTRIES` contacts, and every contact stays where its bits
/// lead.
pub proof fn lemma_trie_insert_wf(
    t: Trie,
    c: ContactView,
    local: NodeID,
    path: Seq<bool>,
    head_alive: bool,
    now: i64,
)
    requires
        trie_wf(t, path),
        matches_path(c.uid@, path),
    ensures
        trie_wf(trie_insert(t, c, local, path.len() as int, head_alive, now), path),
    decreases 256 - path.len(), (if t is Leaf { 1int } else { 0int }), t,
{
    let depth = path.len() as int;
    match t {
        Trie::Fork(l, r) => {
            let bit = id_bit(c.uid@, depth);
            assert forall|j: int| 0 <= j < path.push(bit).len() implies id_bit(c.uid@, j)
                == #[trigger] path.push(bit)[j] by {
                if j < depth {
                    assert(path.push(bit)[j] == path[j]);
                }
            }
            if bit {
                lemma_trie_insert_wf(*r, c, local, path.push(true), head_alive, now);
            } else {
                lemma_trie_insert_wf(*l, c, local, path.push(false), head_alive, now);
            }
        },
        Trie::Leaf(b) => {
            if has_uid(b, c.uid) || b.len() < K_MAX_ENTRIES {
                lemma_bucket_insert_wf(b, c, now);
                lemma_bucket_insert_match(b, c, now, path);
            } else if depth == 256 {
            } else if id_bit(c.uid@, depth) != id_bit(local@, depth) {
                lemma_bucket_insert_full_wf(b, c, head_alive, now);
                lemma_bucket_insert_full_match(b, c, head_alive, now, path);
            } else {
                lemma_split_wf(b, path);
                lemma_trie_insert_wf(split_leaf(b, depth), c, local, path, head_alive, now);
            }
        },
    }
}

/// Where no contact has to be pinged, what a ping would have shown makes
/// no difference to the trie.
pub proof fn lemma_insert_without_ping(
    t: Trie,
    c: ContactView,
    local: NodeID,
    depth: int,
    now: i64,
)
    requires
        ping_target(t, c.uid, local, depth) is None,
    ensures
        trie_insert(t, c, local, depth, true, now) == trie_insert(t, c, local, depth, false, now),
    decreases 256 - depth, (if t is Leaf { 1int } else { 0int }), t,
{
    if 0 <= depth <= 256 {
        match t {
            Trie::Fork(l, r) => {
                if depth < 256 {
                    if id_bit(c.uid@, depth) {
                        lemma_insert_without_ping(*r, c, local, depth + 1, now);
                    } else {
                        lemma_insert_without_ping(*l, c, local, depth + 1, now);
                    }
                }
            },
            Trie::Leaf(b) => {
                if has_uid(b, c.uid) || b.len() < K_MAX_ENTRIES {
                } else if depth == 256 {
                } else if id_bit(c.uid@, depth) != id_bit(local@, depth) {
                } else {
                    lemma_insert_without_ping(split_leaf(b, depth), c, local, depth, now);
                }
            },
        }
    }
}

/// A bucket below all 256 bits holds one contact at most.
proof fn lemma_bottom_leaf(b: Seq<ContactView>, path: Seq<bool>)
    requires
        bucket_wf(b),
        all_match(b, path),
        path.len() == 256,
    ensures
        b.len() <= 1,
{
    if b.len() >= 2 {
        let x = b[0].uid@;
        let y = b[1].uid@;
        assert(matches_path(x, path) && matches_path(y, path));
        assert forall|j: int| 0 <= j < 256 implies id_bit(x, j) == id_bit(y, j) by {
            assert(id_bit(x, j) == path[j]);
            assert(id_bit(y, j) == path[j]);
        }
        lemma_bits_determine_id(x, y);
        assert(b[0].uid.0 =~= b[1].uid.0);
        assert(b[0].uid != b[1].uid);
    }
}

/// A contact that is offered to a well-formed trie is stored in the leaf
/// that its bits lead to, unless it was led to a full bucket that may not
/// split and whose head answered the ping.
pub proof fn lemma_insert_stores(
    t: Trie,
    c: ContactView,
    local: NodeID,
    path: Seq<bool>,
    head_alive: bool,
    now: i64,
)
    requires
        trie_wf(t, path),
        matches_path(c.uid@, path),
        ping_target(t, c.uid, local, path.len() as int) is None || !head_alive,
    ensures
        has_uid(
            leaf_for(
                trie_insert(t, c, local, path.len() as int, head_alive, now),
                c.uid@,
                path.len() as int,
            ),
            c.uid,
        ),
    decreases 256 - path.len(), (if t is Leaf { 1int } else { 0int }), t,
{
    let depth = path.len() as int;
    match t {
        Trie::Fork(l, r) => {
            let bit = id_bit(c.uid@, depth);
            assert forall|j: int| 0 <= j < path.push(bit).len() implies id_bit(c.uid@, j)
                == #[trigger] path.push(bit)[j] by {
                if j < depth {
                    assert(path.push(bit)[j] == path[j]);
                }
            }
            if bit {
                lemma_insert_stores(*r, c, local, path.push(true), head_alive, now);
            } else {
                lemma_insert_stores(*l, c, local, path.push(false), head_alive, now);
            }
        },
        Trie::Leaf(b) => {
            if has_uid(b, c.uid) {
                let i = index_of(b, c.uid);
                let r = bucket_insert(b, c, now);
                assert(r[r.len() - 1].uid == c.uid);
            } else if b.len() < K_MAX_ENTRIES {
                let r = bucket_insert(b, c, now);
                assert(r[r.len() - 1].uid == c.uid);
            } else if depth == 256 {
                lemma_bottom_leaf(b, path);
            } else if id_bit(c.uid@, depth) != id_bit(local@, depth) {
                let r = bucket_insert_full(b, c, head_alive, now);
                assert(r[r.len() - 1].uid == c.uid);
            } else {
                lemma_split_wf(b, path);
                lemma_insert_stores(split_leaf(b, depth), c, local, path, head_alive, now);
            }
        },
    }
}

/// Every contact of a well-formed trie starts with the bits that lead to
/// the trie.
pub proof fn lemma_contents_match(t: Trie, path: Seq<bool>)
    requires
        trie_wf(t, path),
    ensures
        all_match(contents(t), path),
    decreases t,
{
    match t {
        Trie::Leaf(b) => {},
        Trie::Fork(l, r) => {
            lemma_contents_match(*l, path.push(false));
            lemma_contents_match(*r, path.push(true));
            let all = contents(t);
            assert forall|i: int| 0 <= i < all.len() implies matches_path(
                (#[trigger] all[i]).uid@,
                path,
            ) by {
                if i < contents(*l).len() {
                    assert(all[i] == contents(*l)[i]);
                    assert forall|j: int| 0 <= j < path.len() implies id_bit(all[i].uid@, j)
                        == #[trigger] path[j] by {
                        assert(path.push(false)[j] == path[j]);
                    }
                } else {
                    assert(all[i] == contents(*r)[i - contents(*l).len()]);
                    assert forall|j: int| 0 <= j < path.len() implies id_bit(all[i].uid@, j)
                        == #[trigger] path[j] by {
                        assert(path.push(true)[j] == path[j]);
                    }
                }
            }
        },
    }
}

/// In a well-formed trie, the bits of a contact's identifier lead to the
/// leaf that holds the contact.
pub proof fn lemma_trie_placement(t: Trie, path: Seq<bool>, c: ContactView)
    requires
        trie_wf(t, path),
        contents(t).contains(c),
    ensures
        leaf_for(t, c.uid@, path.len() as int).contains(c),
    decreases t,
{
    match t {
        Trie::Leaf(b) => {},
        Trie::Fork(l, r) => {
            let d = path.len() as int;
            let k = choose|k: int| 0 <= k < contents(t).len() && contents(t)[k] == c;
            lemma_contents_match(*l, path.push(false));
            lemma_contents_match(*r, path.push(true));
            if k < contents(*l).len() {
                assert(contents(*l)[k] == c);
                assert(matches_path(c.uid@, path.push(false)));
                assert(path.push(false)[d] == false);
                assert(!id_bit(c.uid@, d));
                lemma_trie_placement(*l, path.push(false), c);
            } else {
                assert(contents(*r)[k - contents(*l).len()] == c);
                assert(matches_path(c.uid@, path.push(true)));
                assert(path.push(true)[d] == true);
                assert(id_bit(c.uid@, d));
                lemma_trie_placement(*r, path.push(true), c);
            }
        },
    }
}

/// The leaf that any identifier leads to in a well-formed trie holds at
/// most `K_MAX_ENTRIES` contacts.
pub proof fn lemma_leaf_capacity(t: Trie, path: Seq<bool>, id: Seq<u8>)
    requires
        trie_wf(t, path),
    ensures
        leaf_for(t, id, path.len() as int).len() <= K_MAX_ENTRIES,
    decreases t,
{
    match t {
        Trie::Leaf(b) => {},
        Trie::Fork(l, r) => {
            lemma_leaf_capacity(*l, path.push(false), id);
            lemma_leaf_capacity(*r, path.push(true), id);
        },
    }
}

/// Every leaf of the trie holds at most `K_MAX_ENTRIES` contacts.
pub open spec fn leaves_bounded(t: Trie) -> bool
    decreases t,
{
    match t {
        Trie::Leaf(b) => b.len() <= K_MAX_ENTRIES,
        Trie::Fork(l, r) => leaves_bounded(*l) && leaves_bounded(*r),
    }
}

/// One offer to the routing table: the contact, whether the head of a full
/// bucket answered the ping, and the time.
pub struct Offer {
    pub contact: ContactView,
    pub head_alive: bool,
    pub now: i64,
}

/// The table that starts as one empty bucket, after the offers were made
/// one after the other.
pub open spec fn after_offers(offers: Seq<Offer>, local: NodeID) -> Trie
    decreases offers.len(),
{
    if offers.len() == 0 {
        Trie::Leaf(Seq::<ContactView>::empty())
    } else {
        trie_insert(
            after_offers(offers.drop_last(), local),
            offers.last().contact,
            local,
            0,
            offers.last().head_alive,
            offers.last().now,
        )
    }
}

/// In a well-formed trie every leaf is within its capacity.
pub proof fn lemma_wf_bounded(t: Trie, path: Seq<bool>)
    requires
        trie_wf(t, path),
    ensures
        leaves_bounded(t),
    decreases t,
{
    match t {
        Trie::Leaf(b) => {},
        Trie::Fork(l, r) => {
            lemma_wf_bounded(*l, path.push(false));
            lemma_wf_bounded(*r, path.push(true));
        },
    }
}

/// After any sequence of offers the table is well formed: every leaf holds
/// at most `K_MAX_ENTRIES` contacts, and every contact stands in the leaf
/// that the bits of its identifier lead to.
pub proof fn lemma_offers_keep_capacity(offers: Seq<Offer>, local: NodeID)
    ensures
        trie_wf(after_offers(offers, local), Seq::<bool>::empty()),
        leaves_bounded(after_offers(offers, local)),
        forall|c: ContactView|
            contents(after_offers(offers, local)).contains(c) ==> leaf_for(
                after_offers(offers, local),
                c.uid@,
                0,
            ).contains(c),
    decreases offers.len(),
{
    let root = Seq::<bool>::empty();
    if offers.len() > 0 {
        lemma_offers_keep_capacity(offers.drop_last(), local);
        lemma_trie_insert_wf(
            after_offers(offers.drop_last(), local),
            offers.last().contact,
            local,
            root,
            offers.last().head_alive,
            offers.last().now,
        );
    }
    let t = after_offers(offers, local);
    lemma_wf_bounded(t, root);
    assert forall|c: ContactView| contents(t).contains(c) implies leaf_for(t, c.uid@, 0).contains(
        c,
    ) by {
        lemma_trie_placement(t, root, c);
    }
}

/// `added` holds the `room` contacts of `pool` that are nearest to
/// `target`, nearest first, or all of `pool` where it holds fewer.
pub open spec fn nearest_of(
    added: Seq<ContactView>,
    pool: Seq<ContactView>,
    target: NodeID,
    room: int,
) -> bool {
    &&& added.len() == if pool.len() < room {
        pool.len() as int
    } else {
        room
    }
    &&& strictly_ascending(added, target)
    &&& forall|i: int| 0 <= i < added.len() ==> pool.contains(#[trigger] added[i])
    &&& forall|j: int|
        0 <= j < pool.len() && !added.contains(#[trigger] pool[j]) ==> added.len() == room
            && farther_than_all(pool[j], added, target)
}

/// Every contact of `s` is strictly closer to `target` than `c` is.
pub open spec fn farther_than_all(c: ContactView, s: Seq<ContactView>, target: NodeID) -> bool {
    forall|i: int| 0 <= i < s.len() ==> closer_to(target@, (#[trigger] s[i]).uid@, c.uid@)
}

/// Every contact of `near` is strictly closer to `target` than every
/// contact of `far`.
pub open spec fn all_closer(near: Seq<ContactView>, far: Seq<ContactView>, target: NodeID) -> bool {
    forall|i: int, j: int|
        0 <= i < near.len() && 0 <= j < far.len() ==> closer_to(
            target@,
            (#[trigger] near[i]).uid@,
            (#[trigger] far[j]).uid@,
        )
}

/// The nearest contacts of two pools, of which one is nearer as a whole,
/// are the nearest of the first followed by the nearest of the second.
proof fn lemma_nearest_combine(
    a1: Seq<ContactView>,
    a2: Seq<ContactView>,
    near: Seq<ContactView>,
    far: Seq<ContactView>,
    pool: Seq<ContactView>,
    target: NodeID,
    room: int,
)
    requires
        0 <= room,
        nearest_of(a1, near, target, room),
        nearest_of(a2, far, target, room - a1.len()),
        all_closer(near, far, target),
        pool == near + far || pool == far + near,
    ensures
        nearest_of(a1 + a2, pool, target, room),
{
    let added = a1 + a2;
    assert forall|i: int| 0 <= i < added.len() implies pool.contains(#[trigger] added[i]) by {
        if i < a1.len() {
            assert(added[i] == a1[i]);
            assert(near.contains(a1[i]));
            let k = choose|k: int| 0 <= k < near.len() && near[k] == a1[i];
            if pool == near + far {
                assert(pool[k] == added[i]);
            } else {
                assert(pool[far.len() + k] == added[i]);
            }
        } else {
            assert(added[i] == a2[i - a1.len()]);
            assert(far.contains(a2[i - a1.len()]));
            let k = choose|k: int| 0 <= k < far.len() && far[k] == a2[i - a1.len()];
            if pool == near + far {
                assert(pool[near.len() + k] == added[i]);
            } else {
                assert(pool[k] == added[i]);
            }
        }
    }
    assert forall|i: int, j: int| 0 <= i < j < added.len() implies closer_to(
        target@,
        (#[trigger] added[i]).uid@,
        (#[trigger] added[j]).uid@,
    ) by {
        if j < a1.len() {
            assert(added[i] == a1[i] && added[j] == a1[j]);
        } else if i >= a1.len() {
            assert(added[i] == a2[i - a1.len()] && added[j] == a2[j - a1.len()]);
        } else {
            assert(added[i] == a1[i] && added[j] == a2[j - a1.len()]);
            assert(near.contains(a1[i]));
            assert(far.contains(a2[j - a1.len()]));
            let k = choose|k: int| 0 <= k < near.len() && near[k] == a1[i];
            let m = choose|m: int| 0 <= m < far.len() && far[m] == a2[j - a1.len()];
            assert(closer_to(target@, near[k].uid@, far[m].uid@));
        }
    }
    assert forall|j: int| 0 <= j < pool.len() && !added.contains(#[trigger] pool[j]) implies added.len()
        == room && farther_than_all(pool[j], added, target) by {
        let from_near = (pool == near + far && j < near.len()) || (pool != near + far && j
            >= far.len());
        if from_near {
            let k = if pool == near + far { j } else { j - far.len() };
            assert(near[k] == pool[j]);
            if a1.contains(near[k]) {
                let i = choose|i: int| 0 <= i < a1.len() && a1[i] == near[k];
                assert(added[i] == pool[j]);
            }
            assert(a1.len() == room);
            assert(a2.len() == 0);
            assert(added =~= a1);
        } else {
            let k = if pool == near + far { j - near.len() } else { j };
            assert(far[k] == pool[j]);
            if a2.contains(far[k]) {
                let i = choose|i: int| 0 <= i < a2.len() && a2[i] == far[k];
                assert(added[a1.len() + i] == pool[j]);
            }
            assert(a2.len() == room - a1.len());
            assert forall|i: int| 0 <= i < added.len() implies closer_to(
                target@,
                (#[trigger] added[i]).uid@,
                pool[j].uid@,
            ) by {
                if i < a1.len() {
                    assert(added[i] == a1[i]);
                    assert(near.contains(a1[i]));
                    let m = choose|m: int| 0 <= m < near.len() && near[m] == a1[i];
                    assert(closer_to(target@, near[m].uid@, far[k].uid@));
                } else {
                    assert(added[i] == a2[i - a1.len()]);
                }
            }
        }
    }
}

/// Below one path, the contacts on the side of the target's next bit are
/// all closer to the target than those on the other side.
proof fn lemma_sides_ordered(
    near: Seq<ContactView>,
    far: Seq<ContactView>,
    path: Seq<bool>,
    target: NodeID,
)
    requires
        path.len() < 256,
        all_match(near, path.push(id_bit(target@, path.len() as int))),
        all_match(far, path.push(!id_bit(target@, path.len() as int))),
    ensures
        all_closer(near, far, target),
{
    let d = path.len() as int;
    let bit = id_bit(target@, d);
    assert forall|i: int, j: int| 0 <= i < near.len() && 0 <= j < far.len() implies closer_to(
        target@,
        (#[trigger] near[i]).uid@,
        (#[trigger] far[j]).uid@,
    ) by {
        let x = near[i].uid@;
        let y = far[j].uid@;
        assert(matches_path(x, path.push(bit)));
        assert(matches_path(y, path.push(!bit)));
        assert forall|k: int| 0 <= k < d implies id_bit(x, k) == id_bit(y, k) by {
            assert(path.push(bit)[k] == path[k]);
            assert(path.push(!bit)[k] == path[k]);
        }
        assert(path.push(bit)[d] == bit);
        assert(path.push(!bit)[d] == !bit);
        lemma_split_order(target@, x, y, d);
    }
}

/// One node of the routing trie: a leaf with a bucket, or a fork with two
/// children.
#[derive(Debug)]
pub struct Node {
    pub left: Option<Box<Node>>,
    pub right: Option<Box<Node>>,
    pub bucket: Option<Bucket>,
}

impl View for Node {
    type V = Trie;

    open spec fn view(&self) -> Trie {
        self.spec_trie()
    }
}

impl Clone for Node {
    fn clone(&self) -> (copy: Node)
        ensures
            copy@ == self@,
            copy.shaped() == self.shaped(),
        decreases self,
    {
        let left = match &self.left {
            Some(child) => Some(Box::new((**child).clone())),
            None => None,
        };
        let right = match &self.right {
            Some(child) => Some(Box::new((**child).clone())),
            None => None,
        };
        let bucket = match &self.bucket {
            Some(b) => Some(b.clone()),
            None => None,
        };
        Node { left, right, bucket }
    }
}

impl Default for Node {
    fn default() -> (node: Node)
        ensures
            node@ == Trie::Leaf(Seq::<ContactView>::empty()),
            node.wf_at(Seq::<bool>::empty()),
    {
        Node::new()
    }
}

impl Node {
    /// The trie that the node stands for. A node with a bucket is a leaf; a
    /// missing child counts as an empty leaf.
    pub open spec fn spec_trie(self) -> Trie
        decreases self,
    {
        match self.bucket {
            Some(b) => Trie::Leaf(b@),
            None => Trie::Fork(
                Box::new(
                    match self.left {
                        Some(n) => n.spec_trie(),
                        None => Trie::Leaf(Seq::<ContactView>::empty()),
                    },
                ),
                Box::new(
                    match self.right {
                        Some(n) => n.spec_trie(),
                        None => Trie::Leaf(Seq::<ContactView>::empty()),
                    },
                ),
            ),
        }
    }

    /// A node holds either a bucket and no child, or two children and no
    /// bucket, and so do its children.
    pub open spec fn shaped(self) -> bool
        decreases self,
    {
        match self.bucket {
            Some(b) => self.left is None && self.right is None,
            None => {
                &&& match self.left {
                    Some(n) => n.shaped(),
                    None => false,
                }
                &&& match self.right {
                    Some(n) => n.shaped(),
                    None => false,
                }
            },
        }
    }

    /// The node is the root of a well-formed trie below the bits of `path`.
    pub open spec fn wf_at(self, path: Seq<bool>) -> bool {
        self.shaped() && trie_wf(self@, path)
    }

    /// A leaf with an empty bucket.
    pub fn new() -> (node: Node)
        ensures
            node@ == Trie::Leaf(Seq::<ContactView>::empty()),
            node.wf_at(Seq::<bool>::empty()),
            node.left is None,
            node.right is None,
    {
        Node { left: None, right: None, bucket: Some(Bucket::new()) }
    }

    /// A leaf that holds `bucket`.
    fn leaf(bucket: Bucket) -> (node: Node)
        ensures
            node@ == Trie::Leaf(bucket@),
            node.shaped(),
            node.bucket == Some(bucket),
    {
        Node { left: None, right: None, bucket: Some(bucket) }
    }

    #[inline]
    pub fn set_left(&mut self, left: Node)
        ensures
            final(self).left == Some(Box::new(left)),
            final(self).right == old(self).right,
            final(self).bucket == old(self).bucket,
    {
        self.left = Some(Box::new(left));
    }

    #[inline]
    pub fn set_right(&mut self, right: Node)
        ensures
            final(self).right == Some(Box::new(right)),
            final(self).left == old(self).left,
            final(self).bucket == old(self).bucket,
    {
        self.right = Some(Box::new(right));
    }

    #[inline]
    pub fn get_left(&self) -> (r: Option<&Box<Node>>)
        ensures
            match r {
                Some(inner) => self.left == Some(*inner),
                None => self.left is None,
            },
    {
        self.left.as_ref()
    }

    #[inline]
    pub fn get_right(&self) -> (r: Option<&Box<Node>>)
        ensures
            match r {
                Some(inner) => self.right == Some(*inner),
                None => self.right is None,
            },
    {
        self.right.as_ref()
    }

    #[inline]
    pub fn get_bucket(&self) -> (r: Option<&Bucket>)
        ensures
            match r {
                Some(inner) => self.bucket == Some(*inner),
                None => self.bucket is None,
            },
    {
        self.bucket.as_ref()
    }

    #[inline]
    pub fn get_mut_bucket(&mut self) -> (r: Option<&mut Bucket>)
        ensures
            match r {
                Some(inner) => old(self).bucket == Some(*inner) && final(self).bucket == Some(
                    *final(inner),
                ),
                None => old(self).bucket is None && final(self).bucket is None,
            },
            final(self).left == old(self).left,
            final(self).right == old(self).right,
    {
        self.bucket.as_mut()
    }

    /// Offers a contact to the trie below this node, which stands at bit
    /// `8 * chunk + index` on the way that the contact's identifier leads.
    /// `validator` holds the local identifier, which decides whether a full
    /// bucket splits; `head_alive` says whether the head of a full bucket
    /// that may not split answered a ping; `now` is the time.
    pub fn insert(
        &mut self,
        con: Contact,
        validator: &NodeValidator,
        index: usize,
        chunk: usize,
        head_alive: bool,
        now: i64,
    )
        requires
            index <= 8,
            chunk < 32,
            old(self).wf_at(prefix_of(con@.uid@, 8 * chunk + index)),
        ensures
            final(self)@ == trie_insert(
                old(self)@,
                con@,
                validator.spec_node_id(),
                8 * chunk + index,
                head_alive,
                now,
            ),
            final(self).wf_at(prefix_of(con@.uid@, 8 * chunk + index)),
        decreases 256 - (8 * chunk + index), (if old(self).bucket is Some { 1int } else { 0int }),
    {
        let ghost depth: int = 8 * chunk + index;
        let ghost path = prefix_of(con@.uid@, depth);
        let ghost before = self@;
        let ghost local = validator.spec_node_id();
        proof {
            lemma_prefix_step(con@.uid@, depth);
            lemma_trie_insert_wf(before, con@, local, path, head_alive, now);
        }
        let at_end = index == 8 && chunk == 31;
        let (index, chunk) = if index == 8 && chunk < 31 {
            (0, chunk + 1)
        } else {
            (index, chunk)
        };
        match self.bucket.take() {
            Some(mut bucket) => {
                if !bucket.is_full() || bucket.contains(&con.uid) {
                    bucket.insert(con, now);
                    self.bucket = Some(bucket);
                    return ;
                }
                if at_end {
                    self.bucket = Some(bucket);
                    return ;
                }
                let local_id = validator.get_nodeid();
                let mine = local_id.bit(index, chunk);
                if con.uid.bit(index, chunk) != mine {
                    bucket.insert_full(head_alive, con, now);
                    self.bucket = Some(bucket);
                    return ;
                }
                let ghost whole = bucket@;
                let (b1, b0) = bucket.split(local_id, index, chunk);
                let (zeros, ones) = if mine {
                    (b1, b0)
                } else {
                    (b0, b1)
                };
                self.left = Some(Box::new(Node::leaf(zeros)));
                self.right = Some(Box::new(Node::leaf(ones)));
                self.bucket = None;
                proof {
                    assert(self@ == split_leaf(whole, depth));
                    lemma_split_wf(whole, path);
                    assert(self.shaped());
                }
                self.insert(con, validator, index, chunk, head_alive, now);
            },
            None => {
                if at_end {
                    return ;
                }
                if con.uid.bit(index, chunk) {
                    match self.right.take() {
                        Some(mut child) => {
                            (&mut *child).insert(con, validator, index + 1, chunk, head_alive, now);
                            self.right = Some(child);
                        },
                        None => {},
                    }
                } else {
                    match self.left.take() {
                        Some(mut child) => {
                            (&mut *child).insert(con, validator, index + 1, chunk, head_alive, now);
                            self.left = Some(child);
                        },
                        None => {},
                    }
                }
            },
        }
    }

    /// The bucket of the leaf that the bits of `id` lead to, from this node
    /// at bit `8 * chunk + index`.
    pub fn lookup(&self, id: NodeID, index: usize, chunk: usize) -> (found: Option<&Bucket>)
        requires
            index <= 8,
            chunk < 32,
            self.wf_at(prefix_of(id@, 8 * chunk + index)),
        ensures
            found is Some,
            found->0@ == leaf_for(self@, id@, 8 * chunk + index),
            found->0.wf(),
        decreases self,
    {
        let ghost depth: int = 8 * chunk + index;
        proof {
            lemma_prefix_step(id@, depth);
        }
        let (index, chunk) = if index == 8 && chunk < 31 {
            (0, chunk + 1)
        } else {
            (index, chunk)
        };
        match &self.bucket {
            Some(bucket) => Some(bucket),
            None => {
                if id.bit(index, chunk) {
                    match &self.right {
                        Some(child) => child.lookup(id, index + 1, chunk),
                        None => None,
                    }
                } else {
                    match &self.left {
                        Some(child) => child.lookup(id, index + 1, chunk),
                        None => None,
                    }
                }
            },
        }
    }

    /// The contact that has to be pinged before `uid` is offered to the
    /// trie below this node, if there is one: the head of the full bucket
    /// that `uid` is led to, where that bucket may not split and does not
    /// know `uid`. What the ping shows is the `head_alive` of `insert`; where
    /// nothing is returned, `insert` does not read it.
    pub fn ping_candidate(
        &self,
        uid: &NodeID,
        validator: &NodeValidator,
        index: usize,
        chunk: usize,
    ) -> (head: Option<Contact>)
        requires
            index <= 8,
            chunk < 32,
            self.wf_at(prefix_of(uid@, 8 * chunk + index)),
        ensures
            match head {
                Some(c) => ping_target(self@, *uid, validator.spec_node_id(), 8 * chunk + index)
                    == Some(c@),
                None => ping_target(self@, *uid, validator.spec_node_id(), 8 * chunk + index)
                    is None,
            },
        decreases self,
    {
        let ghost depth: int = 8 * chunk + index;
        let ghost local = validator.spec_node_id();
        proof {
            lemma_prefix_step(uid@, depth);
        }
        let at_end = index == 8 && chunk == 31;
        let (bit_index, bit_chunk) = if index == 8 && chunk < 31 {
            (0, chunk + 1)
        } else {
            (index, chunk)
        };
        match &self.bucket {
            Some(bucket) => {
                if !bucket.is_full() || bucket.contains(uid) || at_end {
                    return None;
                }
                let local_id = validator.get_nodeid();
                let ghost whole = bucket@;
                let mut at_index = bit_index;
                let mut at_chunk = bit_chunk;
                loop
                    invariant
                        at_index < 8,
                        at_chunk < 32,
                        whole == bucket@,
                        whole.len() == K_MAX_ENTRIES,
                        !has_uid(whole, *uid),
                        local_id == local,
                        local == validator.spec_node_id(),
                        depth == 8 * chunk + index,
                        ping_target(self@, *uid, local, depth) == ping_target(
                            Trie::Leaf(whole),
                            *uid,
                            local,
                            8 * at_chunk + at_index,
                        ),
                    decreases 256 - (8 * at_chunk + at_index),
                {
                    let ghost d: int = 8 * at_chunk + at_index;
                    let bit = uid.bit(at_index, at_chunk);
                    if bit != local_id.bit(at_index, at_chunk) {
                        let head = bucket.head();
                        assert(ping_target(Trie::Leaf(whole), *uid, local, d) == Some(whole[0]));
                        return head;
                    }
                    let same = bucket.count_with_bit(at_index, at_chunk, bit);
                    proof {
                        let child = Trie::Leaf(with_bit(whole, d, bit));
                        assert(ping_target(Trie::Leaf(whole), *uid, local, d) == ping_target(
                            split_leaf(whole, d),
                            *uid,
                            local,
                            d,
                        ));
                        assert(ping_target(split_leaf(whole, d), *uid, local, d) == ping_target(
                            child,
                            *uid,
                            local,
                            d + 1,
                        ));
                        lemma_with_bit(whole, d, bit);
                        if has_uid(with_bit(whole, d, bit), *uid) {
                            let i = index_of(with_bit(whole, d, bit), *uid);
                            assert(whole.contains(with_bit(whole, d, bit)[i]));
                            let k = choose|k: int|
                                0 <= k < whole.len() && whole[k] == with_bit(whole, d, bit)[i];
                            assert(whole[k].uid == *uid);
                        }
                        if same == K_MAX_ENTRIES {
                            lemma_with_bit_all(whole, d, bit);
                        }
                    }
                    if same < K_MAX_ENTRIES {
                        assert(ping_target(
                            Trie::Leaf(with_bit(whole, d, bit)),
                            *uid,
                            local,
                            d + 1,
                        ) is None);
                        return None;
                    }
                    if at_index == 7 && at_chunk == 31 {
                        assert(ping_target(Trie::Leaf(whole), *uid, local, d + 1) is None);
                        return None;
                    }
                    if at_index == 7 {
                        at_index = 0;
                        at_chunk = at_chunk + 1;
                    } else {
                        at_index = at_index + 1;
                    }
                }
            },
            None => {
                if at_end {
                    return None;
                }
                if uid.bit(bit_index, bit_chunk) {
                    match &self.right {
                        Some(child) => child.ping_candidate(uid, validator, bit_index + 1, bit_chunk),
                        None => None,
                    }
                } else {
                    match &self.left {
                        Some(child) => child.ping_candidate(uid, validator, bit_index + 1, bit_chunk),
                        None => None,
                    }
                }
            },
        }
    }

    /// Appends to `acc` the contacts below this node, nearest to `target`
    /// first, until `acc` holds `K_MAX_ENTRIES` contacts or none is left.
    /// The node stands at bit `8 * chunk + index`, below the bits of `path`.
    pub(crate) fn closest_into(
        &self,
        target: &NodeID,
        index: usize,
        chunk: usize,
        Ghost(path): Ghost<Seq<bool>>,
        acc: &mut Vec<Contact>,
    )
        requires
            index <= 8,
            chunk < 32,
            path.len() == 8 * chunk + index,
            self.wf_at(path),
            old(acc)@.len() <= K_MAX_ENTRIES,
        ensures
            final(acc)@.len() >= old(acc)@.len(),
            final(acc)@.len() <= K_MAX_ENTRIES,
            views(final(acc)@).take(old(acc)@.len() as int) == views(old(acc)@),
            nearest_of(
                views(final(acc)@).skip(old(acc)@.len() as int),
                contents(self@),
                *target,
                K_MAX_ENTRIES - old(acc)@.len(),
            ),
        decreases self,
    {
        let ghost start = views(acc@);
        let ghost room: int = K_MAX_ENTRIES - acc@.len();
        let (index, chunk) = if index == 8 && chunk < 31 {
            (0, chunk + 1)
        } else {
            (index, chunk)
        };
        match &self.bucket {
            Some(bucket) => {
                let sorted = bucket.get_sorted(*target);
                let ghost sv = views(sorted@);
                let mut i: usize = 0;
                while i < sorted.len() && acc.len() < K_MAX_ENTRIES
                    invariant
                        0 <= i <= sorted@.len(),
                        sv == views(sorted@),
                        acc@.len() == start.len() + i,
                        acc@.len() <= K_MAX_ENTRIES,
                        views(acc@) == start + sv.take(i as int),
                    decreases sorted@.len() - i,
                {
                    let ghost prev = acc@;
                    let next = sorted[i].clone();
                    acc.push(next);
                    i += 1;
                    proof {
                        let want = start + sv.take(i as int);
                        assert(views(acc@).len() == want.len());
                        assert forall|k: int| 0 <= k < want.len() implies views(acc@)[k]
                            == want[k] by {
                            if k < prev.len() {
                                assert(acc@[k] == prev[k]);
                                assert(views(prev)[k] == (start + sv.take(i - 1))[k]);
                            } else {
                                assert(acc@[k] == next);
                                assert(next@ == sv[i - 1]);
                            }
                        }
                        assert(views(acc@) =~= want);
                    }
                }
                proof {
                    let added = views(acc@).skip(start.len() as int);
                    assert(added =~= sv.take(i as int));
                    assert(views(acc@).take(start.len() as int) =~= start);
                    let pool = bucket@;
                    assert forall|k: int| 0 <= k < added.len() implies pool.contains(
                        #[trigger] added[k],
                    ) by {
                        assert(added[k] == sv[k]);
                    }
                    assert forall|a: int, b: int| 0 <= a < b < added.len() implies closer_to(
                        target@,
                        (#[trigger] added[a]).uid@,
                        (#[trigger] added[b]).uid@,
                    ) by {
                        assert(added[a] == sv[a] && added[b] == sv[b]);
                    }
                    assert forall|j: int|
                        0 <= j < pool.len() && !added.contains(#[trigger] pool[j]) implies added.len()
                        == room && farther_than_all(pool[j], added, *target) by {
                        assert(sv.contains(pool[j]));
                        let k = choose|k: int| 0 <= k < sv.len() && sv[k] == pool[j];
                        if k < i {
                            assert(added[k] == pool[j]);
                        }
                        assert forall|a: int| 0 <= a < added.len() implies closer_to(
                            target@,
                            (#[trigger] added[a]).uid@,
                            pool[j].uid@,
                        ) by {
                            assert(added[a] == sv[a]);
                            assert(closer_to(target@, sv[a].uid@, sv[k].uid@));
                        }
                    }
                }
            },
            None => {
                let bit = target.bit(index, chunk);
                match (&self.left, &self.right) {
                    (Some(left), Some(right)) => {
                        let (near, far) = if bit {
                            (right, left)
                        } else {
                            (left, right)
                        };
                        near.closest_into(target, index + 1, chunk, Ghost(path.push(bit)), acc);
                        let ghost mid = views(acc@);
                        if acc.len() < K_MAX_ENTRIES {
                            far.closest_into(target, index + 1, chunk, Ghost(path.push(!bit)), acc);
                        }
                        proof {
                            let a1 = mid.skip(start.len() as int);
                            let a2 = views(acc@).skip(mid.len() as int);
                            let added = views(acc@).skip(start.len() as int);
                            assert(views(acc@).take(mid.len() as int) == mid);
                            assert(mid.take(start.len() as int) == start);
                            assert(views(acc@).take(start.len() as int) =~= start) by {
                                assert forall|k: int| 0 <= k < start.len() implies views(acc@)[k]
                                    == start[k] by {
                                    assert(views(acc@).take(mid.len() as int)[k] == mid[k]);
                                    assert(mid.take(start.len() as int)[k] == start[k]);
                                }
                            }
                            assert(added =~= a1 + a2) by {
                                assert forall|k: int| 0 <= k < added.len() implies added[k] == (a1
                                    + a2)[k] by {
                                    if k < a1.len() {
                                        assert(views(acc@).take(mid.len() as int)[start.len() + k]
                                            == mid[start.len() + k]);
                                    }
                                }
                            }
                            lemma_contents_match(near@, path.push(bit));
                            lemma_contents_match(far@, path.push(!bit));
                            lemma_sides_ordered(contents(near@), contents(far@), path, *target);
                            if acc@.len() == mid.len() && mid.len() >= K_MAX_ENTRIES {
                                assert(a2 =~= Seq::<ContactView>::empty());
                                assert(nearest_of(a2, contents(far@), *target, room - a1.len()));
                            }
                            lemma_nearest_combine(
                                a1,
                                a2,
                                contents(near@),
                                contents(far@),
                                contents(self@),
                                *target,
                                room,
                            );
                        }
                    },
                    _ => {},
                }
            },
        }
    }
}

} // verus!