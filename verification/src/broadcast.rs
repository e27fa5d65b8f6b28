//! A queue of broadcasts to disseminate, which limits how often each one is
//! transmitted.
//!
//! Entries are kept in the order in which they are handed out: fewer
//! transmissions first and, among equals, the newest first.
use crate::common::{is_random_v4, random_uuid};
use crate::error::Error;
use crate::order::Precedence;
use cuckoofilter::CuckooFilter;
use std::collections::hash_map::DefaultHasher;
use uuid::Uuid;
use vstd::prelude::*;

verus! {

#[verifier::external_type_specification]
#[verifier::external_body]
#[verifier::reject_recursive_types(H)]
pub struct ExCuckooFilter<H>(CuckooFilter<H>);

/// How often an entry is handed out before it leaves the queue.
pub const MAX_TRANSMITS: u64 = 5;

/// What a broadcast announces.
#[derive(Debug, Clone, Copy, PartialEq, Eq, Structural)]
pub enum Message {
    Joined,
    Alive,
    Leave,
}

impl Message {
    /// The position of the variant in the declaration, as the wire format tags
    /// it.
    pub open spec fn tag_spec(self) -> u32 {
        match self {
            Message::Joined => 0,
            Message::Alive => 1,
            Message::Leave => 2,
        }
    }

    pub fn tag(&self) -> (t: u32)
        ensures
            t == self.tag_spec(),
    {
        match self {
            Message::Joined => 0,
            Message::Alive => 1,
            Message::Leave => 2,
        }
    }
}

/// A message with the UUID that tells its versions apart.
#[derive(Debug, Clone, Copy, PartialEq, Eq, Structural)]
pub struct Broadcast {
    uuid: u128,
    message: Message,
}

impl View for Broadcast {
    type V = (u128, Message);

    closed spec fn view(&self) -> (u128, Message) {
        (self.uuid, self.message)
    }
}

impl Broadcast {
    /// A broadcast of `message` under a fresh random UUID: a version 4 UUID of
    /// the RFC 4122 variant.
    pub fn new(message: Message) -> (b: Self)
        ensures
            b@.1 == message,
            is_random_v4(b@.0),
    {
        Self { message, uuid: random_uuid() }
    }

    /// The UUID, as its 128-bit value.
    pub fn uuid(&self) -> (u: u128)
        ensures
            u == self@.0,
    {
        self.uuid
    }

    pub fn message(&self) -> (m: Message)
        ensures
            m == self@.1,
    {
        self.message
    }
}

/// The view of a queue entry.
pub struct EntryView {
    pub transmits: u64,
    pub id: u64,
    pub uuid: u128,
    pub message: Message,
}

/// A broadcast in the queue, with the number of times it was handed out and
/// the generation in which it was queued.
#[derive(Debug, Clone, Copy)]
pub struct LimitedBroadcast {
    transmits: u64,
    id: u64,
    broadcast: Broadcast,
}

impl View for LimitedBroadcast {
    type V = EntryView;

    closed spec fn view(&self) -> EntryView {
        EntryView {
            transmits: self.transmits,
            id: self.id,
            uuid: self.broadcast.uuid,
            message: self.broadcast.message,
        }
    }
}

/// Whether `a` is handed out before `b`: fewer transmissions first, then the
/// higher generation first.
pub open spec fn entry_before(a: EntryView, b: EntryView) -> bool {
    a.transmits < b.transmits || (a.transmits == b.transmits && a.id > b.id)
}

/// Whether two entries have the same place in the order.
pub open spec fn same_key(a: EntryView, b: EntryView) -> bool {
    a.transmits == b.transmits && a.id == b.id
}

/// Strictly ordered by `entry_before`.
pub open spec fn sorted_entries(s: Seq<EntryView>) -> bool {
    forall|i: int, j: int| 0 <= i < j < s.len() ==> entry_before(#[trigger] s[i], #[trigger] s[j])
}

/// The views of a list of entries.
pub open spec fn entries_view(v: Seq<LimitedBroadcast>) -> Seq<EntryView> {
    v.map_values(|e: LimitedBroadcast| e@)
}

/// `e` put in its place in the ordered `s`; nothing changes when an entry with
/// its place is present.
pub open spec fn insert_entry(s: Seq<EntryView>, e: EntryView) -> Seq<EntryView>
    decreases s.len(),
{
    if s.len() == 0 {
        seq![e]
    } else if same_key(s[0], e) {
        s
    } else if entry_before(s[0], e) {
        seq![s[0]] + insert_entry(s.drop_first(), e)
    } else {
        seq![e] + s
    }
}

/// `s` without the entry that has the place of `e`, if there is one.
pub open spec fn remove_entry(s: Seq<EntryView>, e: EntryView) -> Seq<EntryView> {
    s.filter(|x: EntryView| !same_key(x, e))
}

/// `s` without the entries of the broadcast `uuid`.
pub open spec fn remove_uuid(s: Seq<EntryView>, uuid: u128) -> Seq<EntryView> {
    s.filter(|x: EntryView| x.uuid != uuid)
}

/// No two entries were queued in the same generation.
pub open spec fn ids_distinct(s: Seq<EntryView>) -> bool {
    forall|i: int, j: int|
        #![trigger s[i], s[j]]
        0 <= i < s.len() && 0 <= j < s.len() && s[i].id == s[j].id ==> i == j
}

/// No two entries carry the same broadcast.
pub open spec fn uuids_distinct(s: Seq<EntryView>) -> bool {
    forall|i: int, j: int|
        #![trigger s[i], s[j]]
        0 <= i < s.len() && 0 <= j < s.len() && s[i].uuid == s[j].uuid ==> i == j
}

/// Ordered entries drawn from entries of distinct broadcasts carry distinct
/// broadcasts.
pub proof fn lemma_uuids_distinct_sub(s: Seq<EntryView>, t: Seq<EntryView>)
    requires
        uuids_distinct(s),
        sorted_entries(t),
        forall|a: int| 0 <= a < t.len() ==> s.contains(#[trigger] t[a]),
    ensures
        uuids_distinct(t),
{
    assert forall|a: int, b: int|
        #![trigger t[a], t[b]]
        0 <= a < t.len() && 0 <= b < t.len() && t[a].uuid == t[b].uuid implies a == b by {
        assert(s.contains(t[a]));
        assert(s.contains(t[b]));
        let i = choose|i: int| 0 <= i < s.len() && s[i] == t[a];
        let j = choose|j: int| 0 <= j < s.len() && s[j] == t[b];
        assert(s[i].uuid == s[j].uuid);
        if a < b {
            assert(entry_before(t[a], t[b]));
        } else if b < a {
            assert(entry_before(t[b], t[a]));
        }
    }
}

/// Every entry was queued in generation `g` or earlier.
pub open spec fn ids_upto(s: Seq<EntryView>, g: u64) -> bool {
    forall|i: int| 0 <= i < s.len() ==> #[trigger] s[i].id <= g
}

/// Ordered entries drawn from entries of distinct generations have distinct
/// generations.
pub proof fn lemma_ids_distinct_sub(s: Seq<EntryView>, t: Seq<EntryView>)
    requires
        ids_distinct(s),
        sorted_entries(t),
        forall|a: int| 0 <= a < t.len() ==> s.contains(#[trigger] t[a]),
    ensures
        ids_distinct(t),
{
    assert forall|a: int, b: int|
        #![trigger t[a], t[b]]
        0 <= a < t.len() && 0 <= b < t.len() && t[a].id == t[b].id implies a == b by {
        assert(s.contains(t[a]));
        assert(s.contains(t[b]));
        let i = choose|i: int| 0 <= i < s.len() && s[i] == t[a];
        let j = choose|j: int| 0 <= j < s.len() && s[j] == t[b];
        assert(s[i].id == s[j].id);
        if a < b {
            assert(entry_before(t[a], t[b]));
        } else if b < a {
            assert(entry_before(t[b], t[a]));
        }
    }
}

/// What is left after removing `items` was in `s` and has the place of none of
/// them.
pub proof fn lemma_removed(s: Seq<EntryView>, items: Seq<EntryView>, x: EntryView)
    requires
        remove_entries(s, items).contains(x),
    ensures
        s.contains(x),
        forall|k: int| 0 <= k < items.len() ==> !same_key(x, #[trigger] items[k]),
    decreases items.len(),
{
    broadcast use vstd::seq_lib::group_filter_ensures;
    if items.len() > 0 {
        let r = remove_entries(s, items.drop_last());
        let pred = |y: EntryView| !same_key(y, items.last());
        let f = r.filter(pred);
        assert(f.contains(x));
        r.lemma_filter_contains_rev(pred, x);
        let k = choose|k: int| 0 <= k < f.len() && f[k] == x;
        assert(pred(f[k]));
        lemma_removed(s, items.drop_last(), x);
        assert forall|k: int| 0 <= k < items.len() implies !same_key(x, #[trigger] items[k]) by {
            if k < items.len() - 1 {
                assert(items.drop_last()[k] == items[k]);
            }
        }
    }
}

/// The entry a newly queued broadcast gets.
pub open spec fn fresh_entry(gen: u64, b: (u128, Message)) -> EntryView {
    EntryView { transmits: 0, id: gen, uuid: b.0, message: b.1 }
}

pub proof fn lemma_insert_prefix(s: Seq<EntryView>, e: EntryView, i: int)
    requires
        0 <= i <= s.len(),
        forall|j: int| 0 <= j < i ==> entry_before(#[trigger] s[j], e),
    ensures
        insert_entry(s, e) == s.take(i) + insert_entry(s.skip(i), e),
    decreases i,
{
    if i > 0 {
        assert(!same_key(s[0], e));
        let t = s.drop_first();
        assert forall|j: int| 0 <= j < i - 1 implies entry_before(#[trigger] t[j], e) by {
            assert(t[j] == s[j + 1]);
        }
        lemma_insert_prefix(t, e, i - 1);
        assert(t.skip(i - 1) =~= s.skip(i));
        assert(s.take(i) =~= seq![s[0]] + t.take(i - 1));
    } else {
        assert(s.skip(0) =~= s);
    }
}

/// The filter keeps the order of what it keeps.
pub proof fn lemma_filter_sorted(s: Seq<EntryView>, pred: spec_fn(EntryView) -> bool)
    requires
        sorted_entries(s),
    ensures
        sorted_entries(s.filter(pred)),
        forall|x: EntryView| #[trigger] s.filter(pred).contains(x) ==> s.contains(x) && pred(x),
    decreases s.len(),
{
    broadcast use vstd::seq_lib::group_filter_ensures;
    if s.len() > 0 {
        let p = s.drop_last();
        assert(sorted_entries(p));
        lemma_filter_sorted(p, pred);
        assert(s =~= p.push(s.last()));
        p.lemma_filter_push(s.last(), pred);
        let f = s.filter(pred);
        let fp = p.filter(pred);
        assert forall|x: EntryView| #[trigger] f.contains(x) implies s.contains(x) && pred(x) by {
            if fp.contains(x) {
                let k = choose|k: int| 0 <= k < p.len() && p[k] == x;
                assert(s[k] == x);
            } else {
                assert(x == s.last());
                assert(s[s.len() - 1] == x);
            }
        }
        if pred(s.last()) {
            assert forall|i: int, j: int| 0 <= i < j < f.len() implies entry_before(#[trigger] f[i], #[trigger] f[j]) by {
                if j == f.len() - 1 {
                    assert(fp.contains(f[i]));
                    let k = choose|k: int| 0 <= k < p.len() && p[k] == f[i];
                    assert(s[k] == p[k]);
                } else {
                    assert(f[i] == fp[i] && f[j] == fp[j]);
                }
            }
        }
    }
}

/// The size of one broadcast on the wire.
pub open spec fn broadcast_wire_size() -> int {
    28
}

/// The size of an empty list of broadcasts on the wire.
pub open spec fn empty_list_wire_size() -> int {
    8
}

/// The entries of `s` with `t` transmissions, in order.
pub open spec fn tier(s: Seq<EntryView>, t: int) -> Seq<EntryView> {
    s.filter(|e: EntryView| e.transmits == t)
}

/// The first `n` entries of a tier taken greedily, with `used` bytes of `limit`
/// already used: each entry that fits in what is left is taken. Returns the
/// bytes used and the entries taken.
pub open spec fn pack_tier(items: Seq<EntryView>, n: nat, used: int, limit: int) -> (int, Seq<EntryView>)
    decreases n,
{
    if n == 0 {
        (used, Seq::empty())
    } else {
        let (u, taken) = pack_tier(items, (n - 1) as nat, used, limit);
        if broadcast_wire_size() > limit - u {
            (u, taken)
        } else {
            (u + broadcast_wire_size(), taken.push(items[n - 1]))
        }
    }
}

/// The tiers `from` to `from + count - 1` of `s` taken in turn; a tier is only
/// started while room is left.
pub open spec fn pack_tiers(s: Seq<EntryView>, from: int, count: nat, used: int, limit: int) -> (
    int,
    Seq<EntryView>,
)
    decreases count,
{
    if count == 0 {
        (used, Seq::empty())
    } else {
        let (u, taken) = pack_tiers(s, from, (count - 1) as nat, used, limit);
        if limit - u <= 0 {
            (u, taken)
        } else {
            let t = tier(s, from + count - 1);
            let (u2, more) = pack_tier(t, t.len(), u, limit);
            (u2, taken + more)
        }
    }
}

/// `items` removed from `s` one after another.
pub open spec fn remove_entries(s: Seq<EntryView>, items: Seq<EntryView>) -> Seq<EntryView>
    decreases items.len(),
{
    if items.len() == 0 {
        s
    } else {
        remove_entry(remove_entries(s, items.drop_last()), items.last())
    }
}

/// `items` inserted into `s` one after another.
pub open spec fn insert_entries(s: Seq<EntryView>, items: Seq<EntryView>) -> Seq<EntryView>
    decreases items.len(),
{
    if items.len() == 0 {
        s
    } else {
        insert_entry(insert_entries(s, items.drop_last()), items.last())
    }
}

/// Whether a handed-out entry goes back into the queue.
pub open spec fn stays(e: EntryView) -> bool {
    e.transmits + 1 <= MAX_TRANSMITS
}

/// An entry with one more transmission.
pub open spec fn bumped(e: EntryView) -> EntryView {
    EntryView { transmits: (e.transmits + 1) as u64, ..e }
}

/// The handed-out entries that go back into the queue, with one more
/// transmission each.
pub open spec fn requeued(taken: Seq<EntryView>) -> Seq<EntryView> {
    taken.filter(|e: EntryView| stays(e)).map_values(|e: EntryView| bumped(e))
}

/// The broadcast an entry carries.
pub open spec fn carried(e: EntryView) -> (u128, Message) {
    (e.uuid, e.message)
}

/// The views of a list of broadcasts.
pub open spec fn broadcasts_view(v: Seq<Broadcast>) -> Seq<(u128, Message)> {
    v.map_values(|b: Broadcast| b@)
}

/// The tiers `from` to `from + count - 1` of `s` taken in turn from an empty
/// list.
pub open spec fn selection_upto(s: Seq<EntryView>, from: int, count: nat, limit: int) -> (int, Seq<EntryView>) {
    pack_tiers(s, from, count, empty_list_wire_size(), limit)
}

/// What `get_broadcasts` hands out of the ordered, non-empty `s` under
/// `limit` bytes: the bytes used and the entries taken.
pub open spec fn selection(s: Seq<EntryView>, limit: int) -> (int, Seq<EntryView>) {
    selection_upto(s, s[0].transmits as int, (s.last().transmits - s[0].transmits + 1) as nat, limit)
}

/// A filter that keeps everything changes nothing.
pub proof fn lemma_filter_all(s: Seq<EntryView>, pred: spec_fn(EntryView) -> bool)
    requires
        forall|i: int| 0 <= i < s.len() ==> pred(#[trigger] s[i]),
    ensures
        s.filter(pred) == s,
    decreases s.len(),
{
    broadcast use vstd::seq_lib::group_filter_ensures;
    if s.len() > 0 {
        let p = s.drop_last();
        assert forall|i: int| 0 <= i < p.len() implies pred(#[trigger] p[i]) by {
            assert(p[i] == s[i]);
        }
        lemma_filter_all(p, pred);
        assert(s =~= p.push(s.last()));
        p.lemma_filter_push(s.last(), pred);
        assert(pred(s[s.len() - 1]));
    } else {
        reveal(Seq::filter);
    }
}

/// In an ordered sequence, the entry at `i` is the only one with its place:
/// removing the entry with that place removes it.
pub proof fn lemma_remove_at(s: Seq<EntryView>, i: int, e: EntryView)
    requires
        sorted_entries(s),
        0 <= i < s.len(),
        same_key(s[i], e),
    ensures
        remove_entry(s, e) == s.remove(i),
{
    broadcast use vstd::seq_lib::group_filter_ensures;
    let pred = |x: EntryView| !same_key(x, e);
    let a = s.take(i);
    let b = s.skip(i + 1);
    assert(s =~= a + seq![s[i]] + b);
    assert forall|k: int| 0 <= k < a.len() implies pred(#[trigger] a[k]) by {
        assert(a[k] == s[k]);
        assert(entry_before(s[k], s[i]));
    }
    assert forall|k: int| 0 <= k < b.len() implies pred(#[trigger] b[k]) by {
        assert(b[k] == s[i + 1 + k]);
        assert(entry_before(s[i], s[i + 1 + k]));
    }
    lemma_filter_all(a, pred);
    lemma_filter_all(b, pred);
    Seq::filter_distributes_over_add(a + seq![s[i]], b, pred);
    Seq::filter_distributes_over_add(a, seq![s[i]], pred);
    assert(seq![s[i]].filter(pred) =~= Seq::<EntryView>::empty()) by {
        Seq::<EntryView>::empty().lemma_filter_push(s[i], pred);
        assert(seq![s[i]] =~= Seq::<EntryView>::empty().push(s[i]));
        reveal(Seq::filter);
    }
    assert(s.remove(i) =~= a + b);
}

/// What a filter keeps of one element.
pub proof fn lemma_filter_single(x: EntryView, pred: spec_fn(EntryView) -> bool)
    ensures
        seq![x].filter(pred) == if pred(x) {
            seq![x]
        } else {
            Seq::<EntryView>::empty()
        },
{
    broadcast use vstd::seq_lib::group_filter_ensures;
    assert(seq![x] =~= Seq::<EntryView>::empty().push(x));
    Seq::<EntryView>::empty().lemma_filter_push(x, pred);
    assert(Seq::<EntryView>::empty().filter(pred) =~= Seq::<EntryView>::empty()) by {
        reveal(Seq::filter);
    }
}

/// The greedy packing of one tier: it takes entries of the tier in their
/// order, `broadcast_wire_size()` bytes each, and stays within `limit` once it
/// takes any.
pub proof fn lemma_pack_tier(items: Seq<EntryView>, n: nat, used: int, limit: int)
    requires
        n <= items.len(),
        sorted_entries(items),
    ensures
        ({
            let (u, taken) = pack_tier(items, n, used, limit);
            &&& sorted_entries(taken)
            &&& forall|i: int| 0 <= i < taken.len() ==> items.take(n as int).contains(#[trigger] taken[i])
            &&& u == used + broadcast_wire_size() * taken.len()
            &&& taken.len() > 0 ==> u <= limit
        }),
    decreases n,
{
    if n > 0 {
        lemma_pack_tier(items, (n - 1) as nat, used, limit);
        let (u, taken) = pack_tier(items, (n - 1) as nat, used, limit);
        let x = items[n - 1];
        assert(items.take(n as int) =~= items.take(n - 1).push(x));
        assert forall|i: int| 0 <= i < taken.len() implies items.take(n as int).contains(#[trigger] taken[i]) by {
            assert(items.take(n - 1).contains(taken[i]));
            let p = items.take(n - 1);
            let k = choose|k: int| 0 <= k < p.len() && p[k] == taken[i];
            assert(items.take(n as int)[k] == taken[i]);
        }
        if broadcast_wire_size() <= limit - u {
            let t2 = taken.push(x);
            assert(items.take(n as int)[n - 1] == x);
            assert forall|a: int, b: int| 0 <= a < b < t2.len() implies entry_before(#[trigger] t2[a], #[trigger] t2[b]) by {
                if b == taken.len() {
                    assert(items.take(n - 1).contains(taken[a]));
                    let p = items.take(n - 1);
                    let k = choose|k: int| 0 <= k < p.len() && p[k] == taken[a];
                    assert(items[k] == taken[a]);
                } else {
                    assert(t2[a] == taken[a] && t2[b] == taken[b]);
                }
            }
        }
    }
}

/// The tiers taken in turn: entries in the order of the queue, each from a
/// tier in the range, `broadcast_wire_size()` bytes each, within `limit` once
/// any is taken.
pub proof fn lemma_pack_tiers(s: Seq<EntryView>, from: int, count: nat, used: int, limit: int)
    requires
        sorted_entries(s),
    ensures
        ({
            let (u, taken) = pack_tiers(s, from, count, used, limit);
            &&& sorted_entries(taken)
            &&& forall|i: int|
                0 <= i < taken.len() ==> s.contains(#[trigger] taken[i]) && from <= taken[i].transmits < from
                    + count
            &&& u == used + broadcast_wire_size() * taken.len()
            &&& u >= used
            &&& taken.len() > 0 ==> u <= limit
        }),
    decreases count,
{
    if count > 0 {
        lemma_pack_tiers(s, from, (count - 1) as nat, used, limit);
        let (u, taken) = pack_tiers(s, from, (count - 1) as nat, used, limit);
        if limit - u > 0 {
            let tt = from + count - 1;
            let t = tier(s, tt);
            lemma_filter_sorted(s, |e: EntryView| e.transmits == tt);
            lemma_pack_tier(t, t.len(), u, limit);
            let (u2, more) = pack_tier(t, t.len(), u, limit);
            assert(t.take(t.len() as int) =~= t);
            let all = taken + more;
            assert forall|i: int| 0 <= i < more.len() implies s.contains(#[trigger] more[i]) && more[i].transmits
                == tt by {
                assert(t.contains(more[i]));
            }
            assert forall|i: int|
                0 <= i < all.len() implies s.contains(#[trigger] all[i]) && from <= all[i].transmits < from + count by {
                if i < taken.len() {
                    assert(all[i] == taken[i]);
                } else {
                    assert(all[i] == more[i - taken.len()]);
                }
            }
            assert forall|a: int, b: int| 0 <= a < b < all.len() implies entry_before(#[trigger] all[a], #[trigger] all[b]) by {
                if b < taken.len() {
                    assert(all[a] == taken[a] && all[b] == taken[b]);
                } else if a >= taken.len() {
                    assert(all[a] == more[a - taken.len()] && all[b] == more[b - taken.len()]);
                } else {
                    assert(all[a] == taken[a] && all[b] == more[b - taken.len()]);
                }
            }
            assert(broadcast_wire_size() * all.len() == broadcast_wire_size() * taken.len() + broadcast_wire_size()
                * more.len());
        }
    }
}

/// What `get_broadcasts` hands out comes newest first: fewer transmissions
/// first, the newer first among equals. Its encoded size, the list's prefix
/// and `broadcast_wire_size()` bytes per broadcast, stays within the limit
/// once anything is handed out.
pub proof fn lemma_selection(s: Seq<EntryView>, limit: int)
    requires
        sorted_entries(s),
        s.len() > 0,
    ensures
        sorted_entries(selection(s, limit).1),
        selection(s, limit).0 == empty_list_wire_size() + broadcast_wire_size() * selection(s, limit).1.len(),
        selection(s, limit).1.len() > 0 ==> selection(s, limit).0 <= limit,
        forall|i: int| 0 <= i < selection(s, limit).1.len() ==> s.contains(#[trigger] selection(s, limit).1[i]),
{
    lemma_pack_tiers(
        s,
        s[0].transmits as int,
        (s.last().transmits - s[0].transmits + 1) as nat,
        empty_list_wire_size(),
        limit,
    );
}

/// Inserting a new version into entries that hold no version of its broadcast
/// and no entry with its place leaves exactly that version.
pub proof fn lemma_insert_unique(r: Seq<EntryView>, e: EntryView)
    requires
        forall|i: int| 0 <= i < r.len() ==> (#[trigger] r[i]).uuid != e.uuid && !same_key(r[i], e),
    ensures
        insert_entry(r, e).filter(|x: EntryView| x.uuid == e.uuid) == seq![e],
    decreases r.len(),
{
    broadcast use vstd::seq_lib::group_filter_ensures;
    let pred = |x: EntryView| x.uuid == e.uuid;
    lemma_filter_single(e, pred);
    if r.len() == 0 {
    } else if entry_before(r[0], e) {
        let rest = r.drop_first();
        assert forall|i: int| 0 <= i < rest.len() implies (#[trigger] rest[i]).uuid != e.uuid && !same_key(rest[i], e) by {
            assert(rest[i] == r[i + 1]);
        }
        lemma_insert_unique(rest, e);
        lemma_filter_single(r[0], pred);
        Seq::filter_distributes_over_add(seq![r[0]], insert_entry(rest, e), pred);
        assert(seq![r[0]].filter(pred) + seq![e] =~= seq![e]);
    } else {
        assert forall|i: int| 0 <= i < r.len() implies !pred(#[trigger] r[i]) by {}
        lemma_filter_none(r, pred);
        Seq::filter_distributes_over_add(seq![e], r, pred);
        assert(seq![e] + Seq::<EntryView>::empty() =~= seq![e]);
    }
}

/// A filter that keeps nothing yields nothing.
pub proof fn lemma_filter_none(s: Seq<EntryView>, pred: spec_fn(EntryView) -> bool)
    requires
        forall|i: int| 0 <= i < s.len() ==> !pred(#[trigger] s[i]),
    ensures
        s.filter(pred) == Seq::<EntryView>::empty(),
    decreases s.len(),
{
    broadcast use vstd::seq_lib::group_filter_ensures;
    if s.len() > 0 {
        let p = s.drop_last();
        assert forall|i: int| 0 <= i < p.len() implies !pred(#[trigger] p[i]) by {
            assert(p[i] == s[i]);
        }
        lemma_filter_none(p, pred);
        assert(s =~= p.push(s.last()));
        p.lemma_filter_push(s.last(), pred);
        assert(!pred(s[s.len() - 1]));
    } else {
        reveal(Seq::filter);
    }
}

/// Enqueuing leaves exactly one version of the broadcast: the new one,
/// provided no entry already holds its place (which the queue's distinct
/// generations ensure).
pub proof fn lemma_enqueue_replaces(s: Seq<EntryView>, e: EntryView)
    requires
        sorted_entries(s),
        forall|i: int| 0 <= i < s.len() ==> !same_key(#[trigger] s[i], e),
    ensures
        insert_entry(remove_uuid(s, e.uuid), e).filter(|x: EntryView| x.uuid == e.uuid) == seq![e],
{
    let r = remove_uuid(s, e.uuid);
    lemma_filter_sorted(s, |x: EntryView| x.uuid != e.uuid);
    assert forall|i: int| 0 <= i < r.len() implies (#[trigger] r[i]).uuid != e.uuid && !same_key(r[i], e) by {
        assert(r.contains(r[i]));
        let k = choose|k: int| 0 <= k < s.len() && s[k] == r[i];
    }
    lemma_insert_unique(r, e);
}

/// Adds `uuid` to the filter with `CuckooFilter::add`, the UUID hashed as
/// `uuid::Uuid` hashes. Nothing is claimed of the filter afterwards: whether a
/// later `contains` reports the UUID depends on hashed fingerprints, and an
/// insertion into a full filter relocates, at random, a fingerprint that may
/// then be lost.
#[verifier::external_body]
fn filter_add(filter: &mut CuckooFilter<DefaultHasher>, uuid: u128) {
    let _ = filter.add(&Uuid::from_u128(uuid));
}

/// Asks `CuckooFilter::contains` whether the filter holds `uuid`. Nothing is
/// claimed of the answer, for the reasons given at `filter_add`: it may be
/// wrong either way.
#[verifier::external_body]
fn filter_contains(filter: &CuckooFilter<DefaultHasher>, uuid: u128) -> bool {
    filter.contains(&Uuid::from_u128(uuid))
}

/// Takes `uuid` out of the filter with `CuckooFilter::delete`. Nothing is
/// claimed of the filter afterwards.
#[verifier::external_body]
fn filter_delete(filter: &mut CuckooFilter<DefaultHasher>, uuid: u128) {
    let _ = filter.delete(&Uuid::from_u128(uuid));
}

/// A filter of the default capacity, from `CuckooFilter::new`.
#[verifier::external_body]
fn filter_new() -> CuckooFilter<DefaultHasher> {
    CuckooFilter::new()
}

/// The size of an empty list of broadcasts under bincode's default
/// configuration, from `bincode::serialized_size`: its 8-byte length prefix.
/// The list is measured as a list of UUID and tag pairs, which bincode encodes
/// as it encodes broadcasts. bincode's source shows that its size computation for that
/// configuration has no limit, so the call cannot fail.
#[verifier::external_body]
fn empty_list_size() -> (n: Option<u64>)
    ensures
        n == Some(8u64),
{
    bincode::serialized_size(&Vec::<(Uuid, u32)>::new()).ok()
}

/// The size of one broadcast under bincode's default configuration, from
/// `bincode::serialized_size` on its UUID and its message's tag: the UUID's
/// sixteen bytes with their 8-byte length prefix (a UUID serializes as bytes
/// for a format that is not human-readable), and the 4-byte tag. The call
/// cannot fail, as above.
#[verifier::external_body]
fn broadcast_size(uuid: u128, tag: u32) -> (n: Option<u64>)
    ensures
        n == Some(28u64),
{
    bincode::serialized_size(&(Uuid::from_u128(uuid), tag)).ok()
}

impl LimitedBroadcast {
    /// An entry for `broadcast` with `transmits` transmissions, queued in generation `id`.
    pub fn gen(transmits: u64, id: u64, broadcast: Broadcast) -> (l: LimitedBroadcast)
        ensures
            l@ == (EntryView { transmits, id, uuid: broadcast@.0, message: broadcast@.1 }),
    {
        Self { transmits, id, broadcast }
    }

    fn broadcast(&self) -> (b: &Broadcast)
        ensures
            b@ == (self@.uuid, self@.message),
    {
        &self.broadcast
    }

    fn transmits(&self) -> (t: u64)
        ensures
            t == self@.transmits,
    {
        self.transmits
    }

    /// Where `self` stands to `other` in the order of the queue: fewer
    /// transmissions first, then the higher generation first.
    pub fn compare(&self, other: &LimitedBroadcast) -> (p: Precedence)
        ensures
            p == Precedence::Before <==> entry_before(self@, other@),
            p == Precedence::After <==> entry_before(other@, self@),
            p == Precedence::Same <==> same_key(self@, other@),
    {
        if self.transmits < other.transmits {
            Precedence::Before
        } else if self.transmits > other.transmits {
            Precedence::After
        } else if self.id < other.id {
            Precedence::After
        } else if self.id > other.id {
            Precedence::Before
        } else {
            Precedence::Same
        }
    }

    /// Whether `self` is a version of `other`: they share a UUID.
    pub fn is_version_of(&self, other: &Broadcast) -> (b: bool)
        ensures
            b == (self@.uuid == other@.0),
    {
        self.broadcast.uuid == other.uuid
    }
}

/// Where `val` goes in the ordered `v`: the number of entries before it, and
/// whether the next entry has its place.
fn place_of(v: &Vec<LimitedBroadcast>, val: &LimitedBroadcast) -> (r: (usize, bool))
    requires
        sorted_entries(entries_view(v@)),
    ensures
        r.0 <= v@.len(),
        forall|j: int| 0 <= j < r.0 ==> entry_before(#[trigger] entries_view(v@)[j], val@),
        r.1 ==> r.0 < v@.len() && same_key(entries_view(v@)[r.0 as int], val@),
        !r.1 && r.0 < v@.len() ==> entry_before(val@, entries_view(v@)[r.0 as int]),
{
    let ghost s = entries_view(v@);
    let mut i: usize = 0;
    while i < v.len()
        invariant
            s == entries_view(v@),
            i <= s.len(),
            forall|j: int| 0 <= j < i ==> entry_before(#[trigger] s[j], val@),
        decreases s.len() - i,
    {
        assert(s[i as int] == v@[i as int]@);
        match v[i].compare(val) {
            Precedence::Same => {
                return (i, true);
            },
            Precedence::Before => {},
            Precedence::After => {
                return (i, false);
            },
        }
        i += 1;
    }
    (i, false)
}

/// A copy of the entries.
fn copy_entries(v: &Vec<LimitedBroadcast>) -> (r: Vec<LimitedBroadcast>)
    ensures
        entries_view(r@) == entries_view(v@),
{
    let mut r: Vec<LimitedBroadcast> = Vec::new();
    let mut i: usize = 0;
    while i < v.len()
        invariant
            i <= v@.len(),
            entries_view(r@) == entries_view(v@).take(i as int),
        decreases v@.len() - i,
    {
        let ghost before = r@;
        let x = v[i];
        r.push(x);
        assert(entries_view(r@) =~= entries_view(before).push(x@));
        assert(entries_view(v@).take(i + 1) =~= entries_view(v@).take(i as int).push(entries_view(v@)[i as int]));
        i += 1;
    }
    assert(entries_view(v@).take(v@.len() as int) =~= entries_view(v@));
    r
}

/// The entries of `v` with `t` transmissions, in order.
fn tier_of(v: &Vec<LimitedBroadcast>, t: u64) -> (r: Vec<LimitedBroadcast>)
    ensures
        entries_view(r@) == tier(entries_view(v@), t as int),
{
    let ghost s = entries_view(v@);
    let ghost pred: spec_fn(EntryView) -> bool = |e: EntryView| e.transmits == t as int;
    let mut r: Vec<LimitedBroadcast> = Vec::new();
    let mut i: usize = 0;
    while i < v.len()
        invariant
            s == entries_view(v@),
            i <= s.len(),
            forall|x: EntryView| #[trigger] pred(x) == (x.transmits == t as int),
            entries_view(r@) == s.take(i as int).filter(pred),
        decreases s.len() - i,
    {
        let item = v[i];
        proof {
            assert(s.take(i + 1) =~= s.take(i as int).push(s[i as int]));
            s.take(i as int).lemma_filter_push(s[i as int], pred);
            assert(item@ == s[i as int]);
        }
        if item.transmits == t {
            let ghost before = r@;
            r.push(item);
            assert(entries_view(r@) =~= entries_view(before).push(item@));
        }
        i += 1;
    }
    assert(s.take(s.len() as int) =~= s);
    assert(pred =~= (|e: EntryView| e.transmits == t as int));
    r
}

/// `TransmitQueue` is used to queue messages to broadcast to the cluster but
/// limits the number of transmits per message. It prioritizes messages with
/// lower transmit counts and newer versions of the same message, so the items
/// it yields come newest first.
pub struct TransmitQueue {
    set: Vec<LimitedBroadcast>,
    filter: CuckooFilter<DefaultHasher>,
    gen: u64,
}

impl TransmitQueue {
    /// The entries, in the order of the queue.
    pub closed spec fn entries(&self) -> Seq<EntryView> {
        entries_view(self.set@)
    }

    /// The generation of the last broadcast queued.
    pub closed spec fn gen_spec(&self) -> u64 {
        self.gen
    }

    /// The entries are in order, within the transmit limit, and queued in
    /// distinct generations no later than the current one.
    pub closed spec fn wf(&self) -> bool {
        &&& sorted_entries(self.entries())
        &&& forall|i: int| 0 <= i < self.entries().len() ==> #[trigger] self.entries()[i].transmits <= MAX_TRANSMITS
        &&& ids_distinct(self.entries())
        &&& uuids_distinct(self.entries())
        &&& ids_upto(self.entries(), self.gen)
    }

    pub fn new() -> (q: Self)
        ensures
            q.wf(),
            q.entries() == Seq::<EntryView>::empty(),
            q.gen_spec() == 0,
    {
        let q = Self { filter: filter_new(), set: Vec::new(), gen: 0 };
        assert(q.entries() =~= Seq::<EntryView>::empty());
        q
    }

    /// Return the number of elements currently present in the queue.
    pub fn len(&self) -> (n: usize)
        ensures
            n == self.entries().len(),
    {
        self.set.len()
    }

    /// Remove the entry with the place of `val`, if there is one. Generations
    /// go on increasing, also when the queue becomes empty, so that an entry
    /// queued later never takes the place of one handed out meanwhile.
    fn delete(&mut self, val: &LimitedBroadcast)
        requires
            old(self).wf(),
        ensures
            final(self).wf(),
            final(self).entries() == remove_entry(old(self).entries(), val@),
            final(self).gen_spec() == old(self).gen_spec(),
    {
        filter_delete(&mut self.filter, val.broadcast.uuid);
        let ghost s = self.entries();
        let (i, present) = place_of(&self.set, val);
        if present {
            self.set.remove(i);
            proof {
                lemma_remove_at(s, i as int, val@);
                assert(self.entries() =~= s.remove(i as int));
                assert forall|a: int, b: int|
                    0 <= a < b < self.entries().len() implies entry_before(
                    #[trigger] self.entries()[a],
                    #[trigger] self.entries()[b],
                ) by {
                    let a2 = if a < i { a } else { a + 1 };
                    let b2 = if b < i { b } else { b + 1 };
                    assert(self.entries()[a] == s[a2] && self.entries()[b] == s[b2]);
                }
                assert forall|k: int| 0 <= k < self.entries().len() implies #[trigger] self.entries()[k].transmits
                    <= MAX_TRANSMITS && self.entries()[k].id <= self.gen by {
                    let k2 = if k < i { k } else { k + 1 };
                    assert(self.entries()[k] == s[k2]);
                }
                let t = self.entries();
                assert forall|a: int, b: int|
                    #![trigger t[a], t[b]]
                    0 <= a < t.len() && 0 <= b < t.len() && (t[a].id == t[b].id || t[a].uuid == t[b].uuid) implies a == b by {
                    let a2 = if a < i { a } else { a + 1 };
                    let b2 = if b < i { b } else { b + 1 };
                    assert(t[a] == s[a2] && t[b] == s[b2]);
                }
            }
        } else {
            proof {
                assert forall|k: int| 0 <= k < s.len() implies (|x: EntryView| !same_key(x, val@))(#[trigger] s[k]) by {
                    if k >= i {
                        assert(entry_before(val@, s[i as int]));
                        if k > i {
                            assert(entry_before(s[i as int], s[k]));
                        }
                    }
                }
                lemma_filter_all(s, |x: EntryView| !same_key(x, val@));
            }
        }
    }

    /// Enqueues a broadcast to be disseminated. If a broadcast with the same
    /// UUID is queued, every version of it is removed before the new version is
    /// inserted. The filter is asked first; when it does not report the UUID,
    /// the queue is searched, as a filter can lose what it held.
    ///
    /// The generation goes up by one for each broadcast queued: the last one
    /// must not have been reached.
    pub fn enqueue(&mut self, broadcast: Broadcast)
        requires
            old(self).wf(),
            old(self).gen_spec() < u64::MAX,
        ensures
            final(self).wf(),
            final(self).gen_spec() == old(self).gen_spec() + 1,
            final(self).entries() == insert_entry(
                remove_uuid(old(self).entries(), broadcast@.0),
                fresh_entry(final(self).gen_spec(), broadcast@),
            ),
            final(self).entries().filter(|x: EntryView| x.uuid == broadcast@.0) == seq![
                fresh_entry(final(self).gen_spec(), broadcast@),
            ],
    {
        proof {
            let e = fresh_entry((self.gen + 1) as u64, broadcast@);
            assert forall|i: int| 0 <= i < self.entries().len() implies !same_key(#[trigger] self.entries()[i], e) by {
                assert(self.entries()[i].id <= self.gen);
            }
            lemma_enqueue_replaces(self.entries(), e);
        }
        let reported = filter_contains(&self.filter, broadcast.uuid);
        // A filter that misses the UUID is confirmed against the queue itself.
        let present = reported || self.holds_uuid(broadcast.uuid);
        proof {
            if !present {
                let s = self.entries();
                lemma_filter_all(s, |x: EntryView| x.uuid != broadcast@.0);
            }
        }
        self.enqueue_after_lookup(broadcast, present);
    }

    /// Whether an entry of the broadcast `uuid` is queued.
    fn holds_uuid(&self, uuid: u128) -> (b: bool)
        ensures
            b == exists|i: int| 0 <= i < self.entries().len() && (#[trigger] self.entries()[i]).uuid == uuid,
    {
        let mut i: usize = 0;
        while i < self.set.len()
            invariant
                i <= self.set@.len(),
                self.entries() == entries_view(self.set@),
                forall|j: int| 0 <= j < i ==> (#[trigger] self.entries()[j]).uuid != uuid,
            decreases self.set@.len() - i,
        {
            assert(self.entries()[i as int] == self.set@[i as int]@);
            if self.set[i].broadcast.uuid == uuid {
                return true;
            }
            i += 1;
        }
        false
    }

    /// Queue `broadcast` in the next generation, with no transmission yet;
    /// when `present` (the answer of a lookup for its UUID) holds, every
    /// version of it is removed first. A lookup that answers no must be right:
    /// no version is queued.
    pub fn enqueue_after_lookup(&mut self, broadcast: Broadcast, present: bool)
        requires
            old(self).wf(),
            old(self).gen_spec() < u64::MAX,
            !present ==> forall|i: int|
                0 <= i < old(self).entries().len() ==> (#[trigger] old(self).entries()[i]).uuid != broadcast@.0,
        ensures
            final(self).wf(),
            final(self).gen_spec() == old(self).gen_spec() + 1,
            final(self).entries() == insert_entry(
                if present {
                    remove_uuid(old(self).entries(), broadcast@.0)
                } else {
                    old(self).entries()
                },
                fresh_entry(final(self).gen_spec(), broadcast@),
            ),
    {
        let uuid = broadcast.uuid;
        self.gen = self.gen + 1;
        let limited_broadcast = LimitedBroadcast { broadcast, transmits: 0, id: self.gen };
        if present {
            let ghost s = self.entries();
            let ghost pred: spec_fn(EntryView) -> bool = |x: EntryView| x.uuid != uuid;
            let mut kept: Vec<LimitedBroadcast> = Vec::new();
            let mut k: usize = 0;
            while k < self.set.len()
                invariant
                    s == entries_view(self.set@),
                    k <= s.len(),
                    forall|x: EntryView| #[trigger] pred(x) == (x.uuid != uuid),
                    entries_view(kept@) == s.take(k as int).filter(pred),
                decreases s.len() - k,
            {
                let item = self.set[k];
                proof {
                    assert(s.take(k + 1) =~= s.take(k as int).push(s[k as int]));
                    s.take(k as int).lemma_filter_push(s[k as int], pred);
                    assert(item@ == s[k as int]);
                }
                if item.broadcast.uuid != uuid {
                    let ghost before = kept@;
                    kept.push(item);
                    assert(entries_view(kept@) =~= entries_view(before).push(item@));
                }
                k += 1;
            }
            proof {
                assert(s.take(s.len() as int) =~= s);
                lemma_filter_sorted(s, pred);
                let t = s.filter(pred);
                assert forall|j: int| 0 <= j < t.len() implies s.contains(#[trigger] t[j]) by {
                    assert(t.contains(t[j]));
                    s.lemma_filter_contains_rev(pred, t[j]);
                }
                assert forall|j: int| 0 <= j < t.len() implies #[trigger] t[j].transmits <= MAX_TRANSMITS && t[j].id
                    <= self.gen by {
                    assert(s.contains(t[j]));
                    let m = choose|m: int| 0 <= m < s.len() && s[m] == t[j];
                }
                lemma_ids_distinct_sub(s, t);
                lemma_uuids_distinct_sub(s, t);
                assert forall|j: int| 0 <= j < t.len() implies (#[trigger] t[j]).uuid != uuid by {
                    broadcast use vstd::seq_lib::group_filter_ensures;
                    assert(pred(t[j]));
                }
            }
            self.set = kept;
        }
        proof {
            assert forall|k: int| 0 <= k < self.entries().len() implies self.entries()[k].id
                != limited_broadcast@.id && (#[trigger] self.entries()[k]).uuid != limited_broadcast@.uuid by {
                assert(self.entries()[k].id <= self.gen - 1);
            }
        }
        self.add(limited_broadcast);
    }

    /// Returns a list of `Broadcast`s ordered by newest first. The number of
    /// values returned is limited by `size_limit`, which bounds the encoded
    /// size of the list.
    ///
    /// Tiers of equal transmissions are taken from the fewest up; within a
    /// tier, each entry that still fits is handed out, newest first. Each entry
    /// handed out leaves the queue, and goes back with one more transmission
    /// while it stays within `MAX_TRANSMITS`.
    pub fn get_broadcasts(&mut self, size_limit: usize) -> (r: Result<Vec<Broadcast>, Error>)
        requires
            old(self).wf(),
            size_limit as i64 >= i64::MIN + empty_list_wire_size(),
        ensures
            final(self).wf(),
            final(self).gen_spec() == old(self).gen_spec(),
            old(self).entries().len() == 0 ==> (r matches Ok(v) && v@.len() == 0 && final(self).entries()
                == old(self).entries()),
            old(self).entries().len() > 0 ==> ({
                let s = old(self).entries();
                let taken = selection(s, size_limit as i64 as int).1;
                let left = remove_entries(s, taken);
                &&& r matches Ok(v) && broadcasts_view(v@) == taken.map_values(|e: EntryView| carried(e))
                    && broadcasts_view(v@).no_duplicates()
                &&& final(self).entries() == insert_entries(left, requeued(taken))
                &&& final(self).entries().len() == left.len() + requeued(taken).len()
                &&& forall|k: int|
                    0 <= k < requeued(taken).len() ==> final(self).entries().contains(#[trigger] requeued(taken)[k])
            }),
    {
        let ghost s = self.entries();
        let ghost g0 = self.gen;
        let ghost limit: int = size_limit as i64 as int;
        let ghost keep: spec_fn(EntryView) -> bool = |e: EntryView| stays(e);
        let mut used: i64 = 0;
        let mut reinsert: Vec<LimitedBroadcast> = Vec::new();
        let mut broadcasts: Vec<Broadcast> = Vec::new();
        let header = match empty_list_size() {
            Some(n) => n,
            None => {
                return Err(Error::new_encoding());
            },
        };
        used += header as i64;
        if self.set.len() == 0 {
            return Ok(broadcasts);
        }
        let snapshot = copy_entries(&self.set);
        let last = snapshot.len() - 1;
        let min = snapshot[0].transmits;
        let max = snapshot[last].transmits;
        proof {
            assert(snapshot@[0]@ == s[0]);
            assert(snapshot@[last as int]@ == s.last());
            assert(s[0].transmits <= MAX_TRANSMITS);
            assert(s.last().transmits <= MAX_TRANSMITS);
            if last > 0 {
                assert(entry_before(s[0], s[last as int]));
            }
            assert(entries_view(reinsert@) =~= Seq::<EntryView>::empty().filter(keep)) by {
                reveal(Seq::filter);
            }
            assert(broadcasts_view(broadcasts@) =~= Seq::<EntryView>::empty().map_values(|e: EntryView| carried(e)));
            assert(remove_entries(s, Seq::empty()) == s);
        }
        let mut transmits: u64 = min;
        while transmits <= max
            invariant
                self.wf(),
                s == entries_view(snapshot@),
                sorted_entries(s),
                ids_distinct(s),
                uuids_distinct(s),
                ids_upto(s, g0),
                s.len() > 0,
                min == s[0].transmits,
                max == s.last().transmits,
                min <= transmits <= max + 1,
                max <= MAX_TRANSMITS,
                limit == size_limit as i64 as int,
                limit >= i64::MIN + empty_list_wire_size(),
                forall|x: EntryView| #[trigger] keep(x) == stays(x),
                used as int == selection_upto(s, min as int, (transmits - min) as nat, limit).0,
                used >= empty_list_wire_size(),
                used == empty_list_wire_size() || used <= limit,
                self.entries() == remove_entries(s, selection_upto(s, min as int, (transmits - min) as nat, limit).1),
                self.gen == g0,
                broadcasts_view(broadcasts@) == selection_upto(s, min as int, (transmits - min) as nat, limit).1.map_values(
                    |e: EntryView| carried(e),
                ),
                entries_view(reinsert@) == selection_upto(s, min as int, (transmits - min) as nat, limit).1.filter(keep),
            decreases max + 1 - transmits,
        {
            let free0: i64 = size_limit as i64 - used;
            if free0 > 0 {
                let items = tier_of(&snapshot, transmits);
                let ghost t = tier(s, transmits as int);
                let ghost taken0 = selection_upto(s, min as int, (transmits - min) as nat, limit).1;
                let ghost used0 = used as int;
                let mut free = free0;
                let mut prune: Vec<LimitedBroadcast> = Vec::new();
                let mut j: usize = 0;
                proof {
                    assert(entries_view(prune@) =~= Seq::<EntryView>::empty());
                    assert(taken0 + Seq::<EntryView>::empty() =~= taken0);
                    broadcast use vstd::seq_lib::group_filter_ensures;
                    assert forall|k: int| 0 <= k < t.len() implies #[trigger] t[k].transmits <= MAX_TRANSMITS by {
                        assert(t.contains(t[k]));
                    }
                }
                while j < items.len()
                    invariant
                        entries_view(items@) == t,
                        j <= t.len(),
                        free == size_limit as i64 - used,
                        limit == size_limit as i64 as int,
                        (used as int, entries_view(prune@)) == pack_tier(t, j as nat, used0, limit),
                        used0 >= empty_list_wire_size(),
                        used0 == empty_list_wire_size() || used0 <= limit,
                        used0 < limit,
                        used >= used0,
                        used == used0 || used <= limit,
                        forall|x: EntryView| #[trigger] keep(x) == stays(x),
                        forall|k: int| 0 <= k < t.len() ==> #[trigger] t[k].transmits <= MAX_TRANSMITS,
                        broadcasts_view(broadcasts@) == (taken0 + entries_view(prune@)).map_values(
                            |e: EntryView| carried(e),
                        ),
                        entries_view(reinsert@) == (taken0 + entries_view(prune@)).filter(keep),
                    decreases t.len() - j,
                {
                    let item = items[j];
                    assert(item@ == t[j as int]);
                    let size = broadcast_size(item.broadcast.uuid, item.broadcast.message.tag());
                    let ghost before_prune = entries_view(prune@);
                    match size {
                        Some(n) => {
                    if n as i64 <= free {
                        used += n as i64;
                        free -= n as i64;
                        let ghost before_b = broadcasts@;
                        broadcasts.push(item.broadcast);
                        assert(broadcasts_view(broadcasts@) =~= broadcasts_view(before_b).push(item.broadcast@));
                        prune.push(item);
                        proof {
                            let np = entries_view(prune@);
                            assert(np =~= before_prune.push(item@));
                            assert(taken0 + np =~= (taken0 + before_prune).push(item@));
                            (taken0 + before_prune).lemma_filter_push(item@, keep);
                            assert(broadcasts_view(broadcasts@) =~= (taken0 + np).map_values(|e: EntryView| carried(e)));
                        }
                        if item.transmits + 1 <= MAX_TRANSMITS {
                            reinsert.push(item);
                            assert(entries_view(reinsert@) =~= (taken0 + before_prune).filter(keep).push(item@));
                        }
                    }
                        },
                        None => {
                            prune.push(item);
                        },
                    }
                    j += 1;
                }
                proof {
                    assert(t.len() == items@.len());
                }
                let ghost taken1 = taken0 + entries_view(prune@);
                let mut p: usize = 0;
                while p < prune.len()
                    invariant
                        self.wf(),
                        p <= prune@.len(),
                        self.entries() == remove_entries(s, taken0 + entries_view(prune@).take(p as int)),
                        self.gen == g0,
                    decreases prune@.len() - p,
                {
                    let ghost before = self.entries();
                    self.delete(&prune[p]);
                    proof {
                        let pv = entries_view(prune@);
                        assert(taken0 + pv.take(p + 1) =~= (taken0 + pv.take(p as int)).push(pv[p as int]));
                        assert((taken0 + pv.take(p + 1)).drop_last() =~= taken0 + pv.take(p as int));
                        assert(prune@[p as int]@ == pv[p as int]);
                        broadcast use vstd::seq_lib::group_filter_ensures;
                        if self.entries().len() > 0 {
                            assert(before.len() > 0);
                        }
                    }
                    p += 1;
                }
                proof {
                    assert(entries_view(prune@).take(prune@.len() as int) =~= entries_view(prune@));
                    assert(selection_upto(s, min as int, (transmits + 1 - min) as nat, limit).1 == taken1);
                }
            } else {
                proof {
                    assert(selection_upto(s, min as int, (transmits + 1 - min) as nat, limit).1
                        == selection_upto(s, min as int, (transmits - min) as nat, limit).1);
                }
            }
            transmits += 1;
        }
        let ghost taken = selection_upto(s, min as int, (transmits - min) as nat, limit).1;
        let ghost left = self.entries();
        let ghost rv = entries_view(reinsert@);
        proof {
            broadcast use vstd::seq_lib::group_filter_ensures;
            assert forall|k: int| 0 <= k < reinsert@.len() implies stays(#[trigger] reinsert@[k]@) by {
                assert(rv[k] == reinsert@[k]@);
                assert(rv.contains(rv[k]));
            }
            assert(rv.take(0) =~= Seq::<EntryView>::empty());
            assert(insert_entries(left, Seq::<EntryView>::empty()) == left);
            assert(keep =~= (|e: EntryView| stays(e)));
            assert(taken == selection(s, limit).1);
            lemma_selection(s, limit);
            lemma_filter_sorted(taken, keep);
            assert forall|k: int| 0 <= k < rv.len() implies taken.contains(#[trigger] rv[k]) by {
                assert(rv.contains(rv[k]));
                taken.lemma_filter_contains_rev(keep, rv[k]);
            }
            assert forall|k: int| 0 <= k < rv.len() implies s.contains(#[trigger] rv[k]) && rv[k].id <= g0 by {
                assert(taken.contains(rv[k]));
                let t = choose|t: int| 0 <= t < taken.len() && taken[t] == rv[k];
                assert(s.contains(taken[t]));
                let i = choose|i: int| 0 <= i < s.len() && s[i] == taken[t];
            }
            lemma_ids_distinct_sub(s, rv);
            lemma_uuids_distinct_sub(s, rv);
            assert forall|k: int, m: int| 0 <= k < rv.len() && 0 <= m < left.len() implies #[trigger] left[m].id
                != #[trigger] rv[k].id && left[m].uuid != rv[k].uuid by {
                assert(left.contains(left[m]));
                lemma_removed(s, taken, left[m]);
                assert(taken.contains(rv[k]));
                let t = choose|t: int| 0 <= t < taken.len() && taken[t] == rv[k];
                assert(s.contains(rv[k]));
                let i = choose|i: int| 0 <= i < s.len() && s[i] == left[m];
                let j = choose|j: int| 0 <= j < s.len() && s[j] == rv[k];
                if left[m].id == rv[k].id || left[m].uuid == rv[k].uuid {
                    assert(s[i].id == s[j].id || s[i].uuid == s[j].uuid);
                    assert(!same_key(left[m], taken[t]));
                }
            }
        }
        let mut q: usize = 0;
        while q < reinsert.len()
            invariant
                self.wf(),
                rv == entries_view(reinsert@),
                q <= reinsert@.len(),
                forall|k: int| 0 <= k < reinsert@.len() ==> stays(#[trigger] reinsert@[k]@),
                forall|k: int| 0 <= k < rv.len() ==> (#[trigger] rv[k]).id <= g0,
                ids_distinct(rv),
                uuids_distinct(rv),
                forall|k: int, m: int|
                    q <= k < rv.len() && 0 <= m < self.entries().len() ==> #[trigger] self.entries()[m].id
                        != #[trigger] rv[k].id && self.entries()[m].uuid != rv[k].uuid,
                self.entries().len() == left.len() + q,
                forall|k: int| 0 <= k < q ==> self.entries().contains(bumped(#[trigger] rv[k])),
                self.entries() == insert_entries(left, rv.take(q as int).map_values(|e: EntryView| bumped(e))),
                self.gen == g0,
            decreases reinsert@.len() - q,
        {
            let mut item = reinsert[q];
            assert(stays(reinsert@[q as int]@));
            assert(rv[q as int] == reinsert@[q as int]@);
            item.transmits = item.transmits + 1;
            assert(item@ == bumped(rv[q as int]));
            proof {
                assert forall|m: int| 0 <= m < self.entries().len() implies (#[trigger] self.entries()[m]).id
                    != item@.id && self.entries()[m].uuid != item@.uuid by {
                    assert(self.entries()[m].id != rv[q as int].id);
                }
            }
            let ghost before = self.entries();
            self.add(item);
            proof {
                let prev = rv.take(q as int).map_values(|e: EntryView| bumped(e));
                let nxt = rv.take(q + 1).map_values(|e: EntryView| bumped(e));
                assert(nxt =~= prev.push(bumped(rv[q as int])));
                assert(nxt.drop_last() =~= prev);
                assert forall|k: int| 0 <= k < q + 1 implies self.entries().contains(bumped(#[trigger] rv[k])) by {
                    if k < q {
                        assert(before.contains(bumped(rv[k])));
                    }
                }
                assert forall|k: int, m: int|
                    q + 1 <= k < rv.len() && 0 <= m < self.entries().len() implies #[trigger] self.entries()[m].id
                        != #[trigger] rv[k].id && self.entries()[m].uuid != rv[k].uuid by {
                    let x = self.entries()[m];
                    assert(self.entries().contains(x));
                    if x == item@ {
                        assert(rv[q as int].id != rv[k].id);
                        assert(rv[q as int].uuid != rv[k].uuid);
                    } else {
                        assert(before.contains(x));
                        let m2 = choose|m2: int| 0 <= m2 < before.len() && before[m2] == x;
                        assert(before[m2].id != rv[k].id);
                    }
                }
            }
            q += 1;
        }
        proof {
            assert(rv.take(reinsert@.len() as int) =~= rv);
            assert(requeued(taken) == rv.map_values(|e: EntryView| bumped(e)));
            assert forall|k: int| 0 <= k < requeued(taken).len() implies self.entries().contains(
                #[trigger] requeued(taken)[k],
            ) by {
                assert(requeued(taken)[k] == bumped(rv[k]));
            }
            assert forall|a: int| 0 <= a < taken.len() implies s.contains(#[trigger] taken[a]) by {}
            lemma_uuids_distinct_sub(s, taken);
            let bv = taken.map_values(|e: EntryView| carried(e));
            assert forall|a: int, b: int| 0 <= a < b < bv.len() implies bv[a] != bv[b] by {
                assert(bv[a].0 == taken[a].uuid && bv[b].0 == taken[b].uuid);
            }
        }
        Ok(broadcasts)
    }

    /// Put `val`, of a generation no entry has, in its place.
    fn add(&mut self, val: LimitedBroadcast)
        requires
            old(self).wf(),
            val@.transmits <= MAX_TRANSMITS,
            val@.id <= old(self).gen_spec(),
            forall|k: int| 0 <= k < old(self).entries().len() ==> (#[trigger] old(self).entries()[k]).id != val@.id,
            forall|k: int| 0 <= k < old(self).entries().len() ==> (#[trigger] old(self).entries()[k]).uuid != val@.uuid,
        ensures
            final(self).wf(),
            final(self).entries() == insert_entry(old(self).entries(), val@),
            final(self).gen_spec() == old(self).gen_spec(),
            final(self).entries().len() == old(self).entries().len() + 1,
            final(self).entries().contains(val@),
            forall|x: EntryView| old(self).entries().contains(x) ==> #[trigger] final(self).entries().contains(x),
            forall|x: EntryView| #[trigger] final(self).entries().contains(x) ==> old(self).entries().contains(x) || x == val@,
    {
        filter_add(&mut self.filter, val.broadcast.uuid);
        let ghost s = self.entries();
        let (i, present) = place_of(&self.set, &val);
        proof {
            lemma_insert_prefix(s, val@, i as int);
            if i < s.len() {
                assert(s.skip(i as int)[0] == s[i as int]);
            } else {
                assert(s.skip(i as int) =~= Seq::<EntryView>::empty());
            }
        }
        if present {
            assert(s[i as int].id == val@.id);
            assert(false);
            return;
        }
        self.set.insert(i, val);
        proof {
            let t = self.entries();
            assert(t =~= s.take(i as int) + seq![val@] + s.skip(i as int));
            assert(t =~= insert_entry(s, val@));
            assert forall|a: int, b: int| 0 <= a < b < t.len() implies entry_before(#[trigger] t[a], #[trigger] t[b]) by {
                if b < i {
                    assert(t[a] == s[a] && t[b] == s[b]);
                } else if b == i {
                    assert(t[a] == s[a]);
                } else if a == i {
                    assert(t[b] == s[b - 1]);
                    assert(entry_before(val@, s[i as int]));
                    if b - 1 > i {
                        assert(entry_before(s[i as int], s[b - 1]));
                    }
                } else if a < i {
                    assert(t[a] == s[a] && t[b] == s[b - 1]);
                } else {
                    assert(t[a] == s[a - 1] && t[b] == s[b - 1]);
                }
            }
            assert forall|k: int| 0 <= k < t.len() implies #[trigger] t[k].transmits <= MAX_TRANSMITS && t[k].id
                <= self.gen by {
                if k < i {
                    assert(t[k] == s[k]);
                } else if k > i {
                    assert(t[k] == s[k - 1]);
                }
            }
            assert forall|a: int, b: int|
                #![trigger t[a], t[b]]
                0 <= a < t.len() && 0 <= b < t.len() && (t[a].id == t[b].id || t[a].uuid == t[b].uuid) implies a == b by {
                let a2 = if a < i { a } else { a - 1 };
                let b2 = if b < i { b } else { b - 1 };
                if a != i {
                    assert(t[a] == s[a2]);
                }
                if b != i {
                    assert(t[b] == s[b2]);
                }
            }
            assert(t[i as int] == val@);
            assert forall|x: EntryView| s.contains(x) implies #[trigger] t.contains(x) by {
                let k = choose|k: int| 0 <= k < s.len() && s[k] == x;
                if k < i {
                    assert(t[k] == s[k]);
                } else {
                    assert(t[k + 1] == s[k]);
                }
            }
            assert forall|x: EntryView| #[trigger] t.contains(x) implies s.contains(x) || x == val@ by {
                let k = choose|k: int| 0 <= k < t.len() && t[k] == x;
                if k < i {
                    assert(t[k] == s[k]);
                } else if k > i {
                    assert(t[k] == s[k - 1]);
                }
            }
        }
    }
}

} // verus!
