//! The iterative lookup: the state that the workers of one query share,
//! and the rule by which a peer's answer is merged into the closest set.

use vstd::prelude::*;
use crate::crypto::append_bytes;
use crate::key::{closer_to, lemma_closer_total, lemma_closer_transitive, NodeID, NodeValidator};
use crate::node::{
    distinct, farther_than_all, has_uid, insert_sorted, lemma_ascending_distinct,
    lemma_remove_distinct, nearest_of, strictly_ascending, views, Contact, ContactView,
};
use crate::K_MAX_ENTRIES;

verus! {

/// Number of workers that one lookup runs side by side.
pub const PARALLEL_LOOKUPS: usize = 3;

/// The place of `c` in a list sorted by distance to `key`: behind the
/// contacts that are closer, before those that are farther.
pub open spec fn is_place(list: Seq<ContactView>, c: ContactView, key: NodeID, pos: int) -> bool {
    &&& 0 <= pos <= list.len()
    &&& forall|m: int| 0 <= m < pos ==> closer_to(key@, (#[trigger] list[m]).uid@, c.uid@)
    &&& forall|m: int| pos <= m < list.len() ==> closer_to(key@, c.uid@, (#[trigger] list[m]).uid@)
}

/// The place of `c` in a sorted list that does not hold it.
pub open spec fn sorted_place(list: Seq<ContactView>, c: ContactView, key: NodeID) -> int {
    choose|pos: int| is_place(list, c, key, pos)
}

/// Whether a candidate enters the closest set: it is not in the set, and
/// the set has room or its farthest contact is farther than the candidate.
pub open spec fn may_enter(list: Seq<ContactView>, c: ContactView, key: NodeID) -> bool {
    &&& !has_uid(list, c.uid)
    &&& (list.len() < K_MAX_ENTRIES || closer_to(key@, c.uid@, list.last().uid@))
}

/// The closest set after one candidate was offered: a candidate that enters
/// takes its place by distance, and the farthest contact leaves where the
/// set would hold more than `K_MAX_ENTRIES`.
pub open spec fn offer(list: Seq<ContactView>, c: ContactView, key: NodeID) -> Seq<ContactView> {
    if may_enter(list, c, key) {
        let placed = list.insert(sorted_place(list, c, key), c);
        if placed.len() > K_MAX_ENTRIES {
            placed.take(K_MAX_ENTRIES as int)
        } else {
            placed
        }
    } else {
        list
    }
}

/// The closest set after the candidates were offered one after the other.
pub open spec fn merged(list: Seq<ContactView>, candidates: Seq<ContactView>, key: NodeID) -> Seq<
    ContactView,
>
    decreases candidates.len(),
{
    if candidates.len() == 0 {
        list
    } else {
        offer(merged(list, candidates.drop_last(), key), candidates.last(), key)
    }
}

/// The candidates that entered, in the order in which they were
/// offered.
pub open spec fn entered(
    list: Seq<ContactView>,
    candidates: Seq<ContactView>,
    key: NodeID,
) -> Seq<ContactView>
    decreases candidates.len(),
{
    if candidates.len() == 0 {
        Seq::<ContactView>::empty()
    } else {
        let rest = entered(list, candidates.drop_last(), key);
        if may_enter(merged(list, candidates.drop_last(), key), candidates.last(), key) {
            rest.push(candidates.last())
        } else {
            rest
        }
    }
}

/// A closest set: sorted by strictly ascending distance to `key`, at most
/// `K_MAX_ENTRIES` contacts.
pub open spec fn closest_wf(list: Seq<ContactView>, key: NodeID) -> bool {
    list.len() <= K_MAX_ENTRIES && strictly_ascending(list, key)
}

/// In a sorted list, a contact has one place only.
pub proof fn lemma_place_unique(list: Seq<ContactView>, c: ContactView, key: NodeID, pos: int)
    requires
        is_place(list, c, key, pos),
    ensures
        sorted_place(list, c, key) == pos,
{
    let other = sorted_place(list, c, key);
    if other < pos {
        lemma_closer_total(key@, list[other].uid@, c.uid@);
    } else if pos < other {
        lemma_closer_total(key@, list[pos].uid@, c.uid@);
    }
}

/// Offering a candidate keeps the closest set sorted and bounded.
pub proof fn lemma_offer_wf(list: Seq<ContactView>, c: ContactView, key: NodeID)
    requires
        closest_wf(list, key),
    ensures
        closest_wf(offer(list, c, key), key),
{
    if may_enter(list, c, key) {
        lemma_place_exists(list, c, key);
        let pos = sorted_place(list, c, key);
        let placed = list.insert(pos, c);
        assert forall|i: int, j: int| 0 <= i < j < placed.len() implies closer_to(
            key@,
            (#[trigger] placed[i]).uid@,
            (#[trigger] placed[j]).uid@,
        ) by {
            if j < pos {
                assert(placed[i] == list[i] && placed[j] == list[j]);
            } else if j == pos {
                assert(placed[i] == list[i]);
            } else if i < pos {
                assert(placed[i] == list[i] && placed[j] == list[j - 1]);
            } else if i == pos {
                assert(placed[j] == list[j - 1]);
            } else {
                assert(placed[i] == list[i - 1] && placed[j] == list[j - 1]);
            }
        }
        if placed.len() > K_MAX_ENTRIES {
            let cut = placed.take(K_MAX_ENTRIES as int);
            assert forall|i: int, j: int| 0 <= i < j < cut.len() implies closer_to(
                key@,
                (#[trigger] cut[i]).uid@,
                (#[trigger] cut[j]).uid@,
            ) by {
                assert(cut[i] == placed[i] && cut[j] == placed[j]);
            }
        }
    }
}

/// A contact that is not in a sorted list has a place in it.
pub proof fn lemma_place_exists(list: Seq<ContactView>, c: ContactView, key: NodeID)
    requires
        strictly_ascending(list, key),
        !has_uid(list, c.uid),
    ensures
        is_place(list, c, key, sorted_place(list, c, key)),
{
    lemma_place_scan(list, c, key, list.len() as int);
}

/// Among the first `n` contacts of a sorted list that does not hold `c`,
/// those closer than `c` come first.
proof fn lemma_place_scan(list: Seq<ContactView>, c: ContactView, key: NodeID, n: int)
    requires
        strictly_ascending(list, key),
        !has_uid(list, c.uid),
        0 <= n <= list.len(),
    ensures
        exists|pos: int| #[trigger] is_place(list.take(n), c, key, pos),
        n == list.len() ==> is_place(list, c, key, sorted_place(list, c, key)),
    decreases n,
{
    if n == 0 {
        assert(is_place(list.take(0), c, key, 0));
    } else {
        lemma_place_scan(list, c, key, n - 1);
        let prev = list.take(n - 1);
        let cur = list.take(n);
        let p = choose|pos: int| #[trigger] is_place(prev, c, key, pos);
        let last = list[n - 1];
        assert(last.uid != c.uid);
        assert(last.uid@ != c.uid@) by {
            if last.uid@ == c.uid@ {
                assert(last.uid.0 =~= c.uid.0);
            }
        }
        lemma_closer_total(key@, last.uid@, c.uid@);
        if closer_to(key@, last.uid@, c.uid@) {
            assert forall|m: int| 0 <= m < n implies closer_to(
                key@,
                (#[trigger] cur[m]).uid@,
                c.uid@,
            ) by {
                if m < n - 1 {
                    assert(closer_to(key@, list[m].uid@, list[n - 1].uid@));
                    lemma_closer_transitive(key@, list[m].uid@, last.uid@, c.uid@);
                }
            }
            assert(is_place(cur, c, key, n));
        } else {
            assert forall|m: int| 0 <= m < p implies closer_to(
                key@,
                (#[trigger] cur[m]).uid@,
                c.uid@,
            ) by {
                assert(cur[m] == prev[m]);
            }
            assert forall|m: int| p <= m < cur.len() implies closer_to(
                key@,
                c.uid@,
                (#[trigger] cur[m]).uid@,
            ) by {
                if m < n - 1 {
                    assert(cur[m] == prev[m]);
                }
            }
            assert(is_place(cur, c, key, p));
        }
    }
    if n == list.len() {
        assert(list.take(n) =~= list);
    }
}

/// Offering candidates keeps the closest set sorted and bounded.
pub proof fn lemma_merged_wf(list: Seq<ContactView>, candidates: Seq<ContactView>, key: NodeID)
    requires
        closest_wf(list, key),
    ensures
        closest_wf(merged(list, candidates, key), key),
    decreases candidates.len(),
{
    if candidates.len() > 0 {
        lemma_merged_wf(list, candidates.drop_last(), key);
        lemma_offer_wf(merged(list, candidates.drop_last(), key), candidates.last(), key);
    }
}

/// `x` is accounted for by the closest set `m`: the set holds its
/// identifier, or the set is full of contacts that are all closer.
pub open spec fn covered(x: ContactView, m: Seq<ContactView>, key: NodeID) -> bool {
    has_uid(m, x.uid) || (m.len() == K_MAX_ENTRIES && farther_than_all(x, m, key))
}

/// Identifiers that differ differ in their bytes.
proof fn lemma_uid_bytes(a: NodeID, b: NodeID)
    ensures
        a@ == b@ ==> a == b,
{
    if a@ == b@ {
        assert(a.0 =~= b.0);
    }
}

/// Offering a candidate accounts for the candidate, and for whatever was
/// accounted for before.
pub proof fn lemma_offer_covers(list: Seq<ContactView>, c: ContactView, key: NodeID, x: ContactView)
    requires
        closest_wf(list, key),
        covered(x, list, key) || x.uid == c.uid,
    ensures
        covered(x, offer(list, c, key), key),
        forall|i: int|
            0 <= i < offer(list, c, key).len() ==> list.contains(#[trigger] offer(list, c, key)[i])
                || offer(list, c, key)[i] == c,
{
    let r = offer(list, c, key);
    let k = K_MAX_ENTRIES as int;
    if may_enter(list, c, key) {
        lemma_place_exists(list, c, key);
        let pos = sorted_place(list, c, key);
        let placed = list.insert(pos, c);
        assert(placed[pos] == c);
        if list.len() == k {
            if pos == k {
                lemma_closer_total(key@, c.uid@, list[k - 1].uid@);
            }
            assert(pos < k);
            assert(r =~= placed.take(k));
            assert(r[pos] == c);
        } else {
            assert(r =~= placed);
        }
        assert forall|i: int| 0 <= i < r.len() implies list.contains(#[trigger] r[i]) || r[i]
            == c by {
            if i < pos {
                assert(r[i] == list[i]);
            } else if i > pos {
                assert(r[i] == list[i - 1]);
            }
        }
        if x.uid == c.uid {
            assert(r[pos].uid == x.uid);
        } else if has_uid(list, x.uid) {
            let i = choose|i: int| 0 <= i < list.len() && (#[trigger] list[i]).uid == x.uid;
            let at = if i < pos { i } else { i + 1 };
            assert(placed[at] == list[i]);
            if at < r.len() {
                assert(r[at].uid == x.uid);
            } else {
                assert(list.len() == k && i == k - 1);
                assert forall|m: int| 0 <= m < r.len() implies closer_to(
                    key@,
                    (#[trigger] r[m]).uid@,
                    x.uid@,
                ) by {
                    if m < pos {
                        assert(r[m] == list[m]);
                        assert(closer_to(key@, list[m].uid@, list[k - 1].uid@));
                    } else if m > pos {
                        assert(r[m] == list[m - 1]);
                        assert(closer_to(key@, list[m - 1].uid@, list[k - 1].uid@));
                    }
                }
            }
        } else {
            assert(list.len() == k);
            assert forall|m: int| 0 <= m < r.len() implies closer_to(
                key@,
                (#[trigger] r[m]).uid@,
                x.uid@,
            ) by {
                if m < pos {
                    assert(r[m] == list[m]);
                } else if m > pos {
                    assert(r[m] == list[m - 1]);
                } else {
                    assert(closer_to(key@, list[k - 1].uid@, x.uid@));
                    lemma_closer_transitive(key@, c.uid@, list[k - 1].uid@, x.uid@);
                }
            }
        }
    } else {
        assert forall|i: int| 0 <= i < r.len() implies list.contains(#[trigger] r[i]) || r[i]
            == c by {}
        if !covered(x, list, key) {
            assert(x.uid == c.uid);
            assert(!has_uid(list, c.uid));
            assert(list.len() == k);
            let last = list[k - 1];
            assert(last.uid != c.uid);
            lemma_uid_bytes(last.uid, c.uid);
            lemma_closer_total(key@, c.uid@, last.uid@);
            assert forall|m: int| 0 <= m < list.len() implies closer_to(
                key@,
                (#[trigger] list[m]).uid@,
                x.uid@,
            ) by {
                if m < k - 1 {
                    assert(closer_to(key@, list[m].uid@, list[k - 1].uid@));
                    lemma_closer_transitive(key@, list[m].uid@, last.uid@, c.uid@);
                }
            }
        }
    }
}

/// After a merge the closest set holds the nearest of all contacts that
/// were in it or were offered: each of its contacts is one of those, and
/// each of those is in the set by its identifier, or the set is full of
/// contacts that are all closer.
pub proof fn lemma_merged_nearest(
    list: Seq<ContactView>,
    candidates: Seq<ContactView>,
    key: NodeID,
)
    requires
        closest_wf(list, key),
    ensures
        closest_wf(merged(list, candidates, key), key),
        forall|i: int|
            0 <= i < merged(list, candidates, key).len() ==> list.contains(
                #[trigger] merged(list, candidates, key)[i],
            ) || candidates.contains(merged(list, candidates, key)[i]),
        forall|i: int|
            0 <= i < list.len() ==> covered(#[trigger] list[i], merged(list, candidates, key), key),
        forall|i: int|
            0 <= i < candidates.len() ==> covered(
                #[trigger] candidates[i],
                merged(list, candidates, key),
                key,
            ),
    decreases candidates.len(),
{
    lemma_merged_wf(list, candidates, key);
    if candidates.len() > 0 {
        let before = candidates.drop_last();
        let c = candidates.last();
        lemma_merged_nearest(list, before, key);
        let prev = merged(list, before, key);
        let m = merged(list, candidates, key);
        lemma_offer_covers(prev, c, key, c);
        assert forall|i: int| 0 <= i < m.len() implies list.contains(#[trigger] m[i])
            || candidates.contains(m[i]) by {
            if m[i] == c {
                assert(candidates[candidates.len() - 1] == c);
            } else {
                assert(prev.contains(m[i]));
                let j = choose|j: int| 0 <= j < prev.len() && prev[j] == m[i];
                if !list.contains(prev[j]) {
                    assert(before.contains(prev[j]));
                    let n = choose|n: int| 0 <= n < before.len() && before[n] == prev[j];
                    assert(candidates[n] == m[i]);
                }
            }
        }
        assert forall|i: int| 0 <= i < list.len() implies covered(#[trigger] list[i], m, key) by {
            lemma_offer_covers(prev, c, key, list[i]);
        }
        assert forall|i: int| 0 <= i < candidates.len() implies covered(
            #[trigger] candidates[i],
            m,
            key,
        ) by {
            if i < before.len() {
                assert(before[i] == candidates[i]);
                lemma_offer_covers(prev, c, key, candidates[i]);
            }
        }
    } else {
        assert forall|i: int| 0 <= i < list.len() implies covered(
            #[trigger] list[i],
            merged(list, candidates, key),
            key,
        ) by {}
    }
}

/// The identifiers of a list of contacts.
pub open spec fn uids(s: Seq<ContactView>) -> Seq<NodeID> {
    Seq::new(s.len(), |i: int| s[i].uid)
}

/// Every contact of `m` has the identifier of a contact of `pool`.
pub open spec fn all_from(m: Seq<ContactView>, pool: Seq<ContactView>) -> bool {
    forall|i: int| 0 <= i < m.len() ==> has_uid(pool, (#[trigger] m[i]).uid)
}

/// Every contact of `pool` is accounted for by the closest set `m`.
pub open spec fn all_covered(pool: Seq<ContactView>, m: Seq<ContactView>, key: NodeID) -> bool {
    forall|j: int| 0 <= j < pool.len() ==> covered(#[trigger] pool[j], m, key)
}

/// `m` holds the contacts of `pool` that are nearest to `key`, by their
/// identifiers: it is a closest set of contacts of the pool, and every
/// contact of the pool is in it or farther than all of a full set.
pub open spec fn nearest_in(m: Seq<ContactView>, pool: Seq<ContactView>, key: NodeID) -> bool {
    closest_wf(m, key) && all_from(m, pool) && all_covered(pool, m, key)
}

/// The closest set after the answers of several peers were merged into it
/// one after the other.
pub open spec fn merged_all(
    list: Seq<ContactView>,
    replies: Seq<Seq<ContactView>>,
    key: NodeID,
) -> Seq<ContactView>
    decreases replies.len(),
{
    if replies.len() == 0 {
        list
    } else {
        merged(merged_all(list, replies.drop_last(), key), replies.last(), key)
    }
}

/// A list without doubles whose identifiers all stand in another list is
/// no longer than that list.
pub proof fn lemma_uids_fit(a: Seq<ContactView>, b: Seq<ContactView>)
    requires
        distinct(a),
        all_from(a, b),
    ensures
        a.len() <= b.len(),
{
    let ua = uids(a);
    let ub = uids(b);
    assert(ua.no_duplicates()) by {
        assert forall|i: int, j: int| 0 <= i < ua.len() && 0 <= j < ua.len() && i != j implies ua[i]
            != ua[j] by {
            if i < j {
                assert(a[i].uid != a[j].uid);
            } else {
                assert(a[j].uid != a[i].uid);
            }
        }
    }
    ua.unique_seq_to_set();
    ub.lemma_cardinality_of_set();
    assert(ua.to_set().subset_of(ub.to_set())) by {
        assert forall|x: NodeID| ua.to_set().contains(x) implies ub.to_set().contains(x) by {
            assert(ua.contains(x));
            let i = choose|i: int| 0 <= i < ua.len() && ua[i] == x;
            assert(has_uid(b, a[i].uid));
            let j = choose|j: int| 0 <= j < b.len() && (#[trigger] b[j]).uid == a[i].uid;
            assert(ub[j] == x);
            assert(ub.contains(x));
        }
    }
    vstd::seq_lib::seq_to_set_is_finite(ub);
    vstd::set_lib::lemma_len_subset(ua.to_set(), ub.to_set());
}

/// Offering contacts of the pool keeps the nearest of the pool.
pub proof fn lemma_merge_keeps_nearest(
    m: Seq<ContactView>,
    candidates: Seq<ContactView>,
    pool: Seq<ContactView>,
    key: NodeID,
)
    requires
        nearest_in(m, pool, key),
        all_from(candidates, pool),
    ensures
        nearest_in(merged(m, candidates, key), pool, key),
    decreases candidates.len(),
{
    if candidates.len() > 0 {
        let before = candidates.drop_last();
        let c = candidates.last();
        assert forall|i: int| 0 <= i < before.len() implies has_uid(pool, (#[trigger] before[i]).uid) by {
            assert(before[i] == candidates[i]);
        }
        lemma_merge_keeps_nearest(m, before, pool, key);
        let prev = merged(m, before, key);
        let next = offer(prev, c, key);
        lemma_offer_wf(prev, c, key);
        lemma_offer_covers(prev, c, key, c);
        assert(has_uid(pool, candidates[candidates.len() - 1].uid));
        assert forall|i: int| 0 <= i < next.len() implies has_uid(pool, (#[trigger] next[i]).uid) by {
            if next[i] != c {
                assert(prev.contains(next[i]));
                let k = choose|k: int| 0 <= k < prev.len() && prev[k] == next[i];
                assert(has_uid(pool, prev[k].uid));
            }
        }
        assert forall|j: int| 0 <= j < pool.len() implies covered(#[trigger] pool[j], next, key) by {
            lemma_offer_covers(prev, c, key, pool[j]);
        }
    }
}

/// Merging an answer that holds the nearest of the pool into a closest set
/// of contacts of the pool gives the nearest of the pool.
pub proof fn lemma_full_answer(
    m0: Seq<ContactView>,
    answer: Seq<ContactView>,
    pool: Seq<ContactView>,
    key: NodeID,
)
    requires
        closest_wf(m0, key),
        all_from(m0, pool),
        nearest_of(answer, pool, key, K_MAX_ENTRIES as int),
    ensures
        nearest_in(merged(m0, answer, key), pool, key),
{
    let k = K_MAX_ENTRIES as int;
    let m = merged(m0, answer, key);
    lemma_merged_nearest(m0, answer, key);
    lemma_ascending_distinct(answer, key);
    lemma_ascending_distinct(m, key);
    assert forall|i: int| 0 <= i < m.len() implies has_uid(pool, (#[trigger] m[i]).uid) by {
        if m0.contains(m[i]) {
            let t = choose|t: int| 0 <= t < m0.len() && m0[t] == m[i];
            assert(has_uid(pool, m0[t].uid));
        } else {
            assert(answer.contains(m[i]));
            let t = choose|t: int| 0 <= t < answer.len() && answer[t] == m[i];
            assert(pool.contains(answer[t]));
            let j = choose|j: int| 0 <= j < pool.len() && pool[j] == answer[t];
            assert(pool[j].uid == m[i].uid);
        }
    }
    assert forall|j: int| 0 <= j < pool.len() implies covered(#[trigger] pool[j], m, key) by {
        let p = pool[j];
        if answer.contains(p) {
            let t = choose|t: int| 0 <= t < answer.len() && answer[t] == p;
            assert(covered(answer[t], m, key));
        } else if !has_uid(m, p.uid) {
            assert(answer.len() == k && farther_than_all(p, answer, key));
            if m.len() < k {
                assert forall|i: int| 0 <= i < answer.len() implies has_uid(
                    m,
                    (#[trigger] answer[i]).uid,
                ) by {
                    assert(covered(answer[i], m, key));
                }
                lemma_uids_fit(answer, m);
            }
            assert forall|e: int| 0 <= e < m.len() implies closer_to(
                key@,
                (#[trigger] m[e]).uid@,
                p.uid@,
            ) by {
                lemma_closer_total(key@, m[e].uid@, p.uid@);
                if m[e].uid@ == p.uid@ {
                    lemma_uid_bytes(m[e].uid, p.uid);
                    assert(has_uid(m, p.uid));
                }
                if closer_to(key@, p.uid@, m[e].uid@) {
                    let rest = m.remove(e);
                    assert forall|i: int| 0 <= i < answer.len() implies has_uid(
                        rest,
                        (#[trigger] answer[i]).uid,
                    ) by {
                        let a = answer[i];
                        assert(closer_to(key@, a.uid@, p.uid@));
                        lemma_closer_transitive(key@, a.uid@, p.uid@, m[e].uid@);
                        lemma_closer_total(key@, a.uid@, m[e].uid@);
                        assert(covered(a, m, key));
                        if !has_uid(m, a.uid) {
                            assert(closer_to(key@, m[e].uid@, a.uid@));
                        }
                        let t = choose|t: int| 0 <= t < m.len() && (#[trigger] m[t]).uid == a.uid;
                        if t == e {
                            lemma_closer_total(key@, a.uid@, a.uid@);
                        }
                        if t < e {
                            assert(rest[t] == m[t]);
                        } else {
                            assert(rest[t - 1] == m[t]);
                        }
                    }
                    lemma_remove_distinct(m, e);
                    lemma_uids_fit(answer, rest);
                }
            }
        }
    }
}

/// The nearest of a pool without doubles are as many as the closest set
/// takes, or as the pool holds where it holds fewer.
pub proof fn lemma_nearest_len(m: Seq<ContactView>, pool: Seq<ContactView>, key: NodeID)
    requires
        nearest_in(m, pool, key),
        distinct(pool),
    ensures
        m.len() == (if pool.len() < K_MAX_ENTRIES {
            pool.len() as int
        } else {
            K_MAX_ENTRIES as int
        }),
{
    lemma_ascending_distinct(m, key);
    lemma_uids_fit(m, pool);
    if m.len() < K_MAX_ENTRIES {
        assert forall|j: int| 0 <= j < pool.len() implies has_uid(m, (#[trigger] pool[j]).uid) by {
            assert(covered(pool[j], m, key));
        }
        lemma_uids_fit(pool, m);
    }
}

/// A lookup over a network whose peers know their neighbourhood: where
/// every contact that the lookup starts from belongs to one pool of peers
/// without doubles, and every answer that is merged holds the contacts of
/// that pool that are nearest to the key, the closest set ends up holding
/// the nearest of the pool, as many as `K_MAX_ENTRIES` or as the pool
/// holds, sorted by strictly ascending distance, each of them a peer of the
/// pool and none twice.
pub proof fn lemma_lookup_finds_nearest(
    seeds: Seq<ContactView>,
    replies: Seq<Seq<ContactView>>,
    pool: Seq<ContactView>,
    key: NodeID,
)
    requires
        distinct(pool),
        all_from(seeds, pool),
        replies.len() >= 1,
        forall|i: int|
            0 <= i < replies.len() ==> nearest_of(
                #[trigger] replies[i],
                pool,
                key,
                K_MAX_ENTRIES as int,
            ),
    ensures
        nearest_in(merged_all(normalized(seeds, key), replies, key), pool, key),
        merged_all(normalized(seeds, key), replies, key).len() == (if pool.len() < K_MAX_ENTRIES {
            pool.len() as int
        } else {
            K_MAX_ENTRIES as int
        }),
        strictly_ascending(merged_all(normalized(seeds, key), replies, key), key),
        distinct(merged_all(normalized(seeds, key), replies, key)),
    decreases replies.len(),
{
    let start = normalized(seeds, key);
    let before = replies.drop_last();
    let last = replies.last();
    let prev = merged_all(start, before, key);
    assert(nearest_of(replies[replies.len() - 1], pool, key, K_MAX_ENTRIES as int));
    if before.len() == 0 {
        assert(prev == start);
        let none = Seq::<ContactView>::empty();
        lemma_merged_nearest(none, seeds, key);
        assert forall|i: int| 0 <= i < start.len() implies has_uid(pool, (#[trigger] start[i]).uid) by {
            assert(seeds.contains(start[i]));
            let t = choose|t: int| 0 <= t < seeds.len() && seeds[t] == start[i];
            assert(has_uid(pool, seeds[t].uid));
        }
        lemma_full_answer(start, last, pool, key);
    } else {
        assert forall|i: int| 0 <= i < before.len() implies nearest_of(
            #[trigger] before[i],
            pool,
            key,
            K_MAX_ENTRIES as int,
        ) by {
            assert(before[i] == replies[i]);
        }
        lemma_lookup_finds_nearest(seeds, before, pool, key);
        assert forall|i: int| 0 <= i < last.len() implies has_uid(pool, (#[trigger] last[i]).uid) by {
            assert(pool.contains(last[i]));
            let j = choose|j: int| 0 <= j < pool.len() && pool[j] == last[i];
            assert(pool[j].uid == last[i].uid);
        }
        lemma_merge_keeps_nearest(prev, last, pool, key);
    }
    let m = merged_all(start, replies, key);
    lemma_nearest_len(m, pool, key);
    lemma_ascending_distinct(m, key);
}

/// Whether a list holds a contact with the identifier `uid`.
pub fn contains_uid(list: &Vec<Contact>, uid: &NodeID) -> (r: bool)
    ensures
        r == has_uid(views(list@), *uid),
{
    let mut i: usize = 0;
    while i < list.len()
        invariant
            0 <= i <= list@.len(),
            forall|m: int| 0 <= m < i ==> (#[trigger] views(list@)[m]).uid != *uid,
        decreases list@.len() - i,
    {
        if list[i].uid.same(uid) {
            assert(views(list@)[i as int].uid == *uid);
            return true;
        }
        i += 1;
    }
    false
}

/// Merges candidates into a closest set that is sorted and bounded.
fn merge_into(
    k_closest: &mut Vec<Contact>,
    local_visit: Vec<Contact>,
    closest_to_contact: Vec<Contact>,
    key: NodeID,
) -> (r: (Vec<Contact>, bool))
    requires
        closest_wf(views(old(k_closest)@), key),
    ensures
        views(final(k_closest)@) == merged(views(old(k_closest)@), views(closest_to_contact@), key),
        views(r.0@) == views(local_visit@) + entered(
            views(old(k_closest)@),
            views(closest_to_contact@),
            key,
        ),
        r.1 == (entered(views(old(k_closest)@), views(closest_to_contact@), key).len() > 0),
        closest_wf(views(final(k_closest)@), key),
{
    let ghost start = views(k_closest@);
    let ghost cands = views(closest_to_contact@);
    let ghost visit0 = views(local_visit@);
    let mut local_visit = local_visit;
    let mut progress = false;
    let mut i: usize = 0;
    assert(cands.take(0) =~= Seq::<ContactView>::empty());
    assert(views(local_visit@) =~= visit0 + Seq::<ContactView>::empty());
    while i < closest_to_contact.len()
        invariant
            0 <= i <= closest_to_contact@.len(),
            cands == views(closest_to_contact@),
            closest_wf(start, key),
            closest_wf(views(k_closest@), key),
            views(k_closest@) == merged(start, cands.take(i as int), key),
            views(local_visit@) == visit0 + entered(start, cands.take(i as int), key),
            progress == (entered(start, cands.take(i as int), key).len() > 0),
        decreases closest_to_contact@.len() - i,
    {
        let ghost list = views(k_closest@);
        let ghost seen = views(local_visit@);
        let c = closest_to_contact[i].clone();
        proof {
            assert(cands.take(i + 1).drop_last() =~= cands.take(i as int));
            assert(cands.take(i + 1).last() == cands[i as int]);
            assert(c@ == cands[i as int]);
            lemma_offer_wf(list, c@, key);
        }
        let known = contains_uid(k_closest, &c.uid);
        let enters = !known && (k_closest.len() < K_MAX_ENTRIES || key.closer(
            &c.uid,
            &k_closest[k_closest.len() - 1].uid,
        ));
        assert(enters == may_enter(list, c@, key)) by {
            if !known && k_closest@.len() >= K_MAX_ENTRIES {
                assert(list.last() == views(k_closest@)[k_closest@.len() - 1]);
            }
        }
        if enters {
            let again = c.clone();
            let pos = insert_sorted(k_closest, c, &key);
            proof {
                assert(is_place(list, again@, key, pos as int));
                lemma_place_unique(list, again@, key, pos as int);
            }
            let ghost placed = views(k_closest@);
            k_closest.truncate(K_MAX_ENTRIES);
            proof {
                if placed.len() > K_MAX_ENTRIES {
                    assert(views(k_closest@) =~= placed.take(K_MAX_ENTRIES as int));
                } else {
                    assert(views(k_closest@) =~= placed);
                }
            }
            local_visit.push(again);
            progress = true;
            assert(views(local_visit@) =~= seen.push(again@));
            assert(views(local_visit@) =~= visit0 + entered(
                start,
                cands.take(i + 1),
                key,
            ));
        }
        i += 1;
    }
    assert(cands.take(i as int) =~= cands);
    (local_visit, progress)
}

/// A list of contacts as a closest set: its contacts offered to an empty
/// set one after the other. A list that is sorted by strictly ascending
/// distance and holds at most `K_MAX_ENTRIES` contacts is its own closest
/// set.
pub open spec fn normalized(list: Seq<ContactView>, key: NodeID) -> Seq<ContactView> {
    merged(Seq::<ContactView>::empty(), list, key)
}

/// A closest set is its own normal form.
pub proof fn lemma_normalized(list: Seq<ContactView>, key: NodeID)
    requires
        closest_wf(list, key),
    ensures
        normalized(list, key) == list,
    decreases list.len(),
{
    if list.len() > 0 {
        let before = list.drop_last();
        let last = list.last();
        assert forall|i: int, j: int| 0 <= i < j < before.len() implies closer_to(
            key@,
            (#[trigger] before[i]).uid@,
            (#[trigger] before[j]).uid@,
        ) by {
            assert(before[i] == list[i] && before[j] == list[j]);
        }
        lemma_normalized(before, key);
        assert(is_place(before, last, key, before.len() as int)) by {
            assert forall|m: int| 0 <= m < before.len() implies closer_to(
                key@,
                (#[trigger] before[m]).uid@,
                last.uid@,
            ) by {
                assert(before[m] == list[m]);
                assert(closer_to(key@, list[m].uid@, list[list.len() - 1].uid@));
            }
        }
        lemma_place_unique(before, last, key, before.len() as int);
        if has_uid(before, last.uid) {
            let i = choose|i: int| 0 <= i < before.len() && (#[trigger] before[i]).uid == last.uid;
            assert(closer_to(key@, before[i].uid@, last.uid@));
            lemma_closer_total(key@, last.uid@, last.uid@);
        }
        assert(before.insert(before.len() as int, last) =~= list);
    } else {
        assert(list =~= Seq::<ContactView>::empty());
    }
}

/// Merges the contacts that a peer returned into the closest set of a
/// lookup for `key`. Each candidate is offered in turn: it enters if
/// the set does not hold it and has room, or if it is strictly closer to
/// `key` than the set's farthest contact, which then leaves. Those that enter
/// are pushed onto `local_visit`. Returns the new visit list and
/// whether any candidate entered.
pub fn insert_closest(
    k_closest: &mut Vec<Contact>,
    local_visit: Vec<Contact>,
    closest_to_contact: Vec<Contact>,
    key: NodeID,
) -> (r: (Vec<Contact>, bool))
    ensures
        views(final(k_closest)@) == merged(
            normalized(views(old(k_closest)@), key),
            views(closest_to_contact@),
            key,
        ),
        views(r.0@) == views(local_visit@) + entered(
            normalized(views(old(k_closest)@), key),
            views(closest_to_contact@),
            key,
        ),
        r.1 == (entered(
            normalized(views(old(k_closest)@), key),
            views(closest_to_contact@),
            key,
        ).len() > 0),
        closest_wf(views(final(k_closest)@), key),
{
    let mut given: Vec<Contact> = Vec::new();
    core::mem::swap(k_closest, &mut given);
    assert(views(k_closest@) =~= Seq::<ContactView>::empty());
    let _ = merge_into(k_closest, Vec::new(), given, key);
    merge_into(k_closest, local_visit, closest_to_contact, key)
}

/// The state that the workers of one lookup share: the closest contacts
/// found so far, the contacts still to ask, and the identifiers already
/// asked.
#[derive(Debug)]
pub struct FNodeManager {
    key: NodeID,
    k_closest: Vec<Contact>,
    nodes_to_visit: Vec<Contact>,
    visited_nodes: Vec<NodeID>,
    timestamp: u64,
    validator: NodeValidator,
    address: String,
}

impl FNodeManager {
    /// The identifier that the lookup searches for.
    pub closed spec fn spec_key(&self) -> NodeID {
        self.key
    }

    /// The closest contacts found so far, nearest first.
    pub closed spec fn spec_k_closest(&self) -> Seq<ContactView> {
        views(self.k_closest@)
    }

    /// The contacts still to ask; the last one is asked next.
    pub closed spec fn spec_to_visit(&self) -> Seq<ContactView> {
        views(self.nodes_to_visit@)
    }

    /// The identifiers that were asked, or are never to be asked.
    pub closed spec fn spec_visited(&self) -> Set<NodeID> {
        self.visited_nodes@.to_set()
    }

    pub closed spec fn spec_timestamp(&self) -> u64 {
        self.timestamp
    }

    pub closed spec fn spec_address(&self) -> Seq<char> {
        self.address@
    }

    pub closed spec fn spec_validator(&self) -> NodeValidator {
        self.validator
    }

    /// The closest set is sorted by strictly ascending distance to the key
    /// and holds at most `K_MAX_ENTRIES` contacts.
    pub open spec fn wf(&self) -> bool {
        closest_wf(self.spec_k_closest(), self.spec_key())
    }

    /// The state of a lookup for `key` that starts from the contacts
    /// `k_closest`, has `nodes_to_visit` to ask and counts `visited_nodes`
    /// as asked.
    pub fn new(
        key: NodeID,
        k_closest: Vec<Contact>,
        nodes_to_visit: Vec<Contact>,
        visited_nodes: Vec<NodeID>,
        timestamp: u64,
        validator: NodeValidator,
        address: String,
    ) -> (state: FNodeManager)
        ensures
            state.wf(),
            state.spec_key() == key,
            state.spec_k_closest() == merged(Seq::<ContactView>::empty(), views(k_closest@), key),
            state.spec_to_visit() == views(nodes_to_visit@),
            state.spec_visited() == visited_nodes@.to_set(),
            state.spec_timestamp() == timestamp,
            state.spec_validator() == validator,
            state.spec_address() == address@,
    {
        let mut sorted: Vec<Contact> = Vec::new();
        assert(views(sorted@) =~= Seq::<ContactView>::empty());
        let _ = insert_closest(&mut sorted, Vec::new(), k_closest, key);
        FNodeManager {
            key,
            k_closest: sorted,
            nodes_to_visit,
            visited_nodes,
            timestamp,
            validator,
            address,
        }
    }

    /// The state at the start of a lookup for `key`: the closest set and the
    /// visit stack are the contacts that the routing table knows nearest to
    /// the key, and the local node counts as asked.
    pub fn seeded(
        key: NodeID,
        seeds: Vec<Contact>,
        timestamp: u64,
        validator: NodeValidator,
        address: String,
    ) -> (state: FNodeManager)
        ensures
            state.wf(),
            state.spec_key() == key,
            state.spec_k_closest() == merged(Seq::<ContactView>::empty(), views(seeds@), key),
            state.spec_to_visit() == views(seeds@),
            state.spec_visited() == Set::<NodeID>::empty().insert(validator.spec_node_id()),
            state.spec_timestamp() == timestamp,
            state.spec_validator() == validator,
            state.spec_address() == address@,
    {
        let mut to_visit: Vec<Contact> = Vec::new();
        let mut i: usize = 0;
        while i < seeds.len()
            invariant
                0 <= i <= seeds@.len(),
                to_visit@.len() == i,
                forall|m: int| 0 <= m < i ==> to_visit@[m]@ == seeds@[m]@,
            decreases seeds@.len() - i,
        {
            to_visit.push(seeds[i].clone());
            i += 1;
        }
        assert(views(to_visit@) =~= views(seeds@));
        let mut visited: Vec<NodeID> = Vec::new();
        visited.push(validator.get_nodeid());
        proof {
            let own = validator.spec_node_id();
            assert(visited@ =~= seq![own]);
            assert forall|x: NodeID| seq![own].to_set().contains(x) == Set::<NodeID>::empty().insert(
                own,
            ).contains(x) by {
                if seq![own].contains(x) {
                    let k = choose|k: int| 0 <= k < seq![own].len() && seq![own][k] == x;
                }
                if x == own {
                    assert(seq![own][0] == x);
                }
            }
            assert(visited@.to_set() =~= Set::<NodeID>::empty().insert(own));
        }
        FNodeManager::new(key, seeds, to_visit, visited, timestamp, validator, address)
    }

    /// Takes the contact that is to be asked next, if any is left.
    pub fn pop_ntv(&mut self) -> (next: Option<Contact>)
        ensures
            final(self).spec_k_closest() == old(self).spec_k_closest(),
            final(self).spec_visited() == old(self).spec_visited(),
            final(self).spec_key() == old(self).spec_key(),
            final(self).spec_timestamp() == old(self).spec_timestamp(),
            final(self).spec_validator() == old(self).spec_validator(),
            match next {
                Some(c) => old(self).spec_to_visit().len() > 0 && c@ == old(self).spec_to_visit().last() && final(self).spec_to_visit() == old(self).spec_to_visit().drop_last(),
                None => old(self).spec_to_visit().len() == 0 && final(self).spec_to_visit() == old(self).spec_to_visit(),
            },
    {
        let next = self.nodes_to_visit.pop();
        proof {
            if next is Some {
                assert(views(self.nodes_to_visit@) =~= views(old(self).nodes_to_visit@).drop_last());
            }
        }
        next
    }

    /// Whether `id` counts as asked.
    pub fn contains_vn(&self, id: &NodeID) -> (r: bool)
        ensures
            r == self.spec_visited().contains(*id),
    {
        let mut i: usize = 0;
        while i < self.visited_nodes.len()
            invariant
                0 <= i <= self.visited_nodes@.len(),
                forall|m: int| 0 <= m < i ==> self.visited_nodes@[m] != *id,
            decreases self.visited_nodes@.len() - i,
        {
            if self.visited_nodes[i].same(id) {
                assert(self.visited_nodes@.contains(*id));
                return true;
            }
            i += 1;
        }
        assert(!self.visited_nodes@.contains(*id));
        false
    }

    /// Counts `id` as asked, and says whether it was not yet.
    pub fn insert_vn(&mut self, id: NodeID) -> (fresh: bool)
        ensures
            fresh == !old(self).spec_visited().contains(id),
            final(self).spec_visited() == old(self).spec_visited().insert(id),
            final(self).spec_k_closest() == old(self).spec_k_closest(),
            final(self).spec_to_visit() == old(self).spec_to_visit(),
            final(self).spec_key() == old(self).spec_key(),
            final(self).spec_timestamp() == old(self).spec_timestamp(),
            final(self).spec_validator() == old(self).spec_validator(),
    {
        if self.contains_vn(&id) {
            assert(self.spec_visited() =~= self.spec_visited().insert(id));
            false
        } else {
            self.visited_nodes.push(id);
            proof {
                let before = old(self).visited_nodes@;
                assert forall|x: NodeID| #[trigger]
                    before.push(id).to_set().contains(x) == before.to_set().insert(id).contains(
                        x,
                    ) by {
                    if before.push(id).contains(x) {
                        let i = choose|i: int| 0 <= i < before.push(id).len() && before.push(id)[i] == x;
                        if i < before.len() {
                            assert(before[i] == x);
                        }
                    }
                    if before.contains(x) {
                        let i = choose|i: int| 0 <= i < before.len() && before[i] == x;
                        assert(before.push(id)[i] == x);
                    }
                    if x == id {
                        assert(before.push(id)[before.len() as int] == x);
                    }
                }
                assert(self.spec_visited() =~= old(self).spec_visited().insert(id));
            }
            true
        }
    }

    /// The closest contacts found so far, nearest first.
    pub fn get_k_closest(&self) -> (closest: Vec<Contact>)
        ensures
            views(closest@) == self.spec_k_closest(),
    {
        let mut closest: Vec<Contact> = Vec::new();
        let mut i: usize = 0;
        while i < self.k_closest.len()
            invariant
                0 <= i <= self.k_closest@.len(),
                closest@.len() == i,
                forall|m: int| 0 <= m < i ==> closest@[m]@ == self.k_closest@[m]@,
            decreases self.k_closest@.len() - i,
        {
            closest.push(self.k_closest[i].clone());
            i += 1;
        }
        assert(views(closest@) =~= views(self.k_closest@));
        closest
    }

    pub fn get_pubkey(&self) -> (key: Vec<u8>)
        ensures
            key@ == self.spec_validator().spec_pub_key(),
    {
        self.validator.get_pubkey()
    }

    pub fn get_nonce(&self) -> (nonce: u64)
        ensures
            nonce == self.spec_validator().spec_nonce(),
    {
        self.validator.get_nonce()
    }

    pub fn get_uid(&self) -> (uid: Vec<u8>)
        ensures
            uid@ == self.spec_validator().spec_node_id()@,
    {
        let id = self.validator.get_nodeid();
        let mut uid: Vec<u8> = Vec::new();
        append_bytes(&mut uid, id.as_bytes());
        assert(uid@ =~= id@);
        uid
    }

    pub fn get_validator(&self) -> (validator: &NodeValidator)
        ensures
            *validator == self.spec_validator(),
    {
        &self.validator
    }

    /// The address that the local node listens on.
    pub fn get_address(&self) -> (address: String)
        ensures
            address@ == self.spec_address(),
    {
        self.address.clone()
    }

    /// Hands out the timestamp for the next request and moves the counter
    /// on by one, wrapping at the end of its range.
    pub fn increment(&mut self) -> (stamp: u64)
        ensures
            stamp == old(self).spec_timestamp(),
            final(self).spec_timestamp() == (if stamp == u64::MAX {
                0
            } else {
                stamp + 1
            }),
            final(self).spec_k_closest() == old(self).spec_k_closest(),
            final(self).spec_to_visit() == old(self).spec_to_visit(),
            final(self).spec_visited() == old(self).spec_visited(),
            final(self).spec_key() == old(self).spec_key(),
            final(self).spec_validator() == old(self).spec_validator(),
    {
        let stamp = self.timestamp;
        self.timestamp = if stamp == u64::MAX {
            0
        } else {
            stamp + 1
        };
        stamp
    }

    /// Picks the contact that a worker asks next: the topmost contact of
    /// the visit stack that does not count as asked. It counts as asked
    /// from now on, so no contact is picked twice in one lookup. The
    /// contacts above it on the stack are dropped, each of them asked
    /// before. With no such contact left the stack ends up empty and the
    /// worker is done.
    pub fn next_candidate(&mut self) -> (next: Option<Contact>)
        ensures
            final(self).spec_k_closest() == old(self).spec_k_closest(),
            final(self).spec_key() == old(self).spec_key(),
            final(self).spec_timestamp() == old(self).spec_timestamp(),
            final(self).spec_validator() == old(self).spec_validator(),
            final(self).spec_to_visit().len() <= old(self).spec_to_visit().len(),
            final(self).spec_to_visit() == old(self).spec_to_visit().take(
                final(self).spec_to_visit().len() as int,
            ),
            forall|m: int|
                final(self).spec_to_visit().len() <= m < old(self).spec_to_visit().len()
                    ==> final(self).spec_visited().contains(
                    (#[trigger] old(self).spec_to_visit()[m]).uid,
                ),
            match next {
                Some(c) => {
                    &&& final(self).spec_to_visit().len() < old(self).spec_to_visit().len()
                    &&& c@ == old(self).spec_to_visit()[final(self).spec_to_visit().len() as int]
                    &&& !old(self).spec_visited().contains(c@.uid)
                    &&& final(self).spec_visited() == old(self).spec_visited().insert(c@.uid)
                },
                None => {
                    &&& final(self).spec_to_visit().len() == 0
                    &&& final(self).spec_visited() == old(self).spec_visited()
                },
            },
    {
        let ghost stack = self.spec_to_visit();
        assert(stack.take(stack.len() as int) =~= stack);
        loop
            invariant
                self.spec_k_closest() == old(self).spec_k_closest(),
                self.spec_key() == old(self).spec_key(),
                self.spec_timestamp() == old(self).spec_timestamp(),
                self.spec_validator() == old(self).spec_validator(),
                self.spec_visited() == old(self).spec_visited(),
                stack == old(self).spec_to_visit(),
                self.spec_to_visit().len() <= stack.len(),
                self.spec_to_visit() == stack.take(self.spec_to_visit().len() as int),
                forall|m: int|
                    self.spec_to_visit().len() <= m < stack.len() ==> self.spec_visited().contains(
                        (#[trigger] stack[m]).uid,
                    ),
            decreases self.spec_to_visit().len(),
        {
            let ghost rest = self.spec_to_visit();
            match self.pop_ntv() {
                Some(c) => {
                    proof {
                        assert(self.spec_to_visit() =~= stack.take(rest.len() - 1));
                        assert(c@ == stack[rest.len() - 1]);
                    }
                    if self.insert_vn(c.uid) {
                        return Some(c);
                    }
                },
                None => {
                    return None;
                },
            }
        }
    }

    /// Merges the contacts that a peer returned into the closest set, and
    /// pushes those that entered onto the visit stack. Says whether any
    /// entered: a worker whose merge brings no progress is done.
    pub fn merge_reply(&mut self, contacts: Vec<Contact>) -> (progress: bool)
        requires
            old(self).wf(),
        ensures
            final(self).wf(),
            final(self).spec_k_closest() == merged(
                old(self).spec_k_closest(),
                views(contacts@),
                old(self).spec_key(),
            ),
            final(self).spec_to_visit() == old(self).spec_to_visit() + entered(
                old(self).spec_k_closest(),
                views(contacts@),
                old(self).spec_key(),
            ),
            progress == (entered(
                old(self).spec_k_closest(),
                views(contacts@),
                old(self).spec_key(),
            ).len() > 0),
            final(self).spec_visited() == old(self).spec_visited(),
            final(self).spec_key() == old(self).spec_key(),
            final(self).spec_timestamp() == old(self).spec_timestamp(),
            final(self).spec_validator() == old(self).spec_validator(),
    {
        let mut closest: Vec<Contact> = Vec::new();
        let mut visit: Vec<Contact> = Vec::new();
        core::mem::swap(&mut self.k_closest, &mut closest);
        core::mem::swap(&mut self.nodes_to_visit, &mut visit);
        let (visit, progress) = merge_into(&mut closest, visit, contacts, self.key);
        self.k_closest = closest;
        self.nodes_to_visit = visit;
        progress
    }
}

/// What one peer answers when it is asked for the contacts nearest to the
/// key of a lookup.
#[derive(Debug, Clone)]
pub struct Answer {
    pub from: NodeID,
    pub contacts: Vec<Contact>,
}

/// Some peer with the identifier `uid` answers.
pub open spec fn answered(answers: Seq<Answer>, uid: NodeID) -> bool {
    exists|j: int| 0 <= j < answers.len() && (#[trigger] answers[j]).from == uid
}

/// A lookup can start: some contact that it starts from is not the local
/// node, and every contact that it starts from answers.
pub open spec fn can_start(seeds: Seq<ContactView>, own: NodeID, answers: Seq<Answer>) -> bool {
    &&& exists|i: int| 0 <= i < seeds.len() && (#[trigger] seeds[i]).uid != own
    &&& forall|i: int| 0 <= i < seeds.len() ==> answered(answers, (#[trigger] seeds[i]).uid)
}

/// `closest` is what a lookup that started from `seeds` holds after it has
/// merged `replies`, each of them the answer of a peer.
pub open spec fn ran_over(
    closest: Seq<ContactView>,
    seeds: Seq<ContactView>,
    replies: Seq<Seq<ContactView>>,
    answers: Seq<Answer>,
    key: NodeID,
) -> bool {
    &&& closest == merged_all(normalized(seeds, key), replies, key)
    &&& forall|i: int|
        0 <= i < replies.len() ==> exists|j: int|
            0 <= j < answers.len() && #[trigger] replies[i] == views((#[trigger] answers[j]).contacts@)
}

/// Where every peer answers with the contacts of one pool that are nearest
/// to the key, a lookup that started from contacts of the pool and merged
/// at least one answer holds the nearest of the pool: as many as
/// `K_MAX_ENTRIES`, or as the pool holds, in strictly ascending order of
/// distance, each a peer of the pool, none twice.
pub proof fn lemma_network_lookup(
    closest: Seq<ContactView>,
    seeds: Seq<ContactView>,
    replies: Seq<Seq<ContactView>>,
    answers: Seq<Answer>,
    pool: Seq<ContactView>,
    key: NodeID,
)
    requires
        ran_over(closest, seeds, replies, answers, key),
        replies.len() >= 1,
        distinct(pool),
        all_from(seeds, pool),
        forall|j: int|
            0 <= j < answers.len() ==> nearest_of(
                views((#[trigger] answers[j]).contacts@),
                pool,
                key,
                K_MAX_ENTRIES as int,
            ),
    ensures
        nearest_in(closest, pool, key),
        closest.len() == (if pool.len() < K_MAX_ENTRIES {
            pool.len() as int
        } else {
            K_MAX_ENTRIES as int
        }),
        strictly_ascending(closest, key),
        distinct(closest),
{
    assert forall|i: int| 0 <= i < replies.len() implies nearest_of(
        #[trigger] replies[i],
        pool,
        key,
        K_MAX_ENTRIES as int,
    ) by {
        let j = choose|j: int|
            0 <= j < answers.len() && #[trigger] replies[i] == views(
                (#[trigger] answers[j]).contacts@,
            );
        assert(nearest_of(views(answers[j].contacts@), pool, key, K_MAX_ENTRIES as int));
    }
    lemma_lookup_finds_nearest(seeds, replies, pool, key);
}

/// A copy of a list of contacts.
fn copy_contacts(list: &Vec<Contact>) -> (copy: Vec<Contact>)
    ensures
        views(copy@) == views(list@),
{
    let mut copy: Vec<Contact> = Vec::new();
    let mut i: usize = 0;
    while i < list.len()
        invariant
            0 <= i <= list@.len(),
            copy@.len() == i,
            forall|m: int| 0 <= m < i ==> copy@[m]@ == list@[m]@,
        decreases list@.len() - i,
    {
        copy.push(list[i].clone());
        i += 1;
    }
    assert(views(copy@) =~= views(list@));
    copy
}

/// Where the answer of the peer `uid` stands, if that peer answers.
fn find_answer(answers: &Vec<Answer>, uid: &NodeID) -> (at: Option<usize>)
    ensures
        match at {
            Some(j) => j < answers@.len() && answers@[j as int].from == *uid,
            None => !answered(answers@, *uid),
        },
{
    let mut j: usize = 0;
    while j < answers.len()
        invariant
            0 <= j <= answers@.len(),
            forall|m: int| 0 <= m < j ==> (#[trigger] answers@[m]).from != *uid,
        decreases answers@.len() - j,
    {
        if answers[j].from.same(uid) {
            return Some(j);
        }
        j += 1;
    }
    None
}

/// Runs a lookup for `key` to its end with one worker, over a network
/// whose peers' answers are given: it starts from `seeds`, asks the next
/// candidate as long as there is one, merges what the candidate answers,
/// skips a candidate that does not answer, and ends when an answer brings
/// nothing closer, when no candidate is left, or after `max_rounds`
/// candidates. The result is the closest set: what the merges of the
/// answers that were taken leave of the seeds, sorted by strictly
/// ascending distance, at most `K_MAX_ENTRIES` contacts. Where the lookup
/// can start and a round is allowed, at least one answer was merged.
pub fn lookup_over(
    key: NodeID,
    seeds: Vec<Contact>,
    validator: NodeValidator,
    timestamp: u64,
    address: String,
    answers: &Vec<Answer>,
    max_rounds: usize,
) -> (closest: Vec<Contact>)
    ensures
        closest_wf(views(closest@), key),
        exists|replies: Seq<Seq<ContactView>>|
            {
                &&& #[trigger] ran_over(views(closest@), views(seeds@), replies, answers@, key)
                &&& (max_rounds >= 1 && can_start(views(seeds@), validator.spec_node_id(), answers@)
                    ==> replies.len() >= 1)
            },
{
    let ghost sv = views(seeds@);
    let ghost own = validator.spec_node_id();
    let ghost start = normalized(sv, key);
    let mut session = FNodeManager::seeded(key, seeds, timestamp, validator, address);
    let ghost mut replies: Seq<Seq<ContactView>> = Seq::empty();
    let mut rounds: usize = 0;
    let mut done = false;
    while rounds < max_rounds && !done
        invariant
            0 <= rounds <= max_rounds,
            start == normalized(sv, key),
            session.wf(),
            session.spec_key() == key,
            session.spec_k_closest() == merged_all(start, replies, key),
            forall|i: int|
                0 <= i < replies.len() ==> exists|j: int|
                    0 <= j < answers@.len() && #[trigger] replies[i] == views(
                        (#[trigger] answers@[j]).contacts@,
                    ),
            rounds == 0 && !done ==> session.spec_to_visit() == sv && session.spec_visited()
                == Set::<NodeID>::empty().insert(own),
            (rounds >= 1 || done) && can_start(sv, own, answers@) ==> replies.len() >= 1,
        decreases max_rounds - rounds, (if done { 0int } else { 1int }),
    {
        let ghost stack = session.spec_to_visit();
        match session.next_candidate() {
            None => {
                proof {
                    if rounds == 0 && can_start(sv, own, answers@) {
                        let i = choose|i: int| 0 <= i < sv.len() && (#[trigger] sv[i]).uid != own;
                        assert(session.spec_visited().contains(stack[i].uid));
                    }
                }
                done = true;
            },
            Some(candidate) => {
                proof {
                    if rounds == 0 {
                        assert(candidate@ == sv[session.spec_to_visit().len() as int]);
                    }
                }
                match find_answer(answers, &candidate.uid) {
                    Some(j) => {
                        let contacts = copy_contacts(&answers[j].contacts);
                        let ghost before = replies;
                        let progress = session.merge_reply(contacts);
                        proof {
                            replies = before.push(views(answers@[j as int].contacts@));
                            assert(replies.drop_last() =~= before);
                            assert(replies.last() == views(answers@[j as int].contacts@));
                            assert forall|i: int| 0 <= i < replies.len() implies exists|t: int|
                                0 <= t < answers@.len() && #[trigger] replies[i] == views(
                                    (#[trigger] answers@[t]).contacts@,
                                ) by {
                                if i < before.len() {
                                    assert(replies[i] == before[i]);
                                    let t = choose|t: int|
                                        0 <= t < answers@.len() && #[trigger] before[i] == views(
                                            (#[trigger] answers@[t]).contacts@,
                                        );
                                    assert(replies[i] == views(answers@[t].contacts@));
                                } else {
                                    assert(replies[i] == views(answers@[j as int].contacts@));
                                }
                            }
                        }
                        if !progress {
                            done = true;
                        } else {
                            rounds += 1;
                        }
                    },
                    None => {
                        rounds += 1;
                    },
                }
            },
        }
    }
    let closest = session.get_k_closest();
    proof {
        assert(ran_over(views(closest@), sv, replies, answers@, key));
    }
    closest
}

} // verus!
