use vstd::prelude::*;

use crate::channel::ChannelInfo;
use crate::channel::clock_reading;
use crate::channel::elapsed_reading;
use crate::command::ServerCommand;

verus! {

/// A channel's queue is dropped once nothing was written to it for longer
/// than this many seconds.
pub const MAX_IDLE_SECONDS: u64 = 60;

/// A channel's queue is dropped once it holds more than this many messages.
pub const MAX_QUEUED: usize = 128;

/// Channel ids paired with their waiting messages.
pub type Pairs = Seq<(Seq<char>, Seq<Seq<char>>)>;

/// Channel ids paired with values.
pub type Keyed<V> = Seq<(Seq<char>, V)>;

/// The map that pairs with distinct ids stand for.
pub open spec fn pairs_map<V>(p: Keyed<V>) -> Map<Seq<char>, V>
    decreases p.len(),
{
    if p.len() == 0 {
        Map::empty()
    } else {
        pairs_map(p.drop_last()).insert(p.last().0, p.last().1)
    }
}

/// No id occurs twice.
pub open spec fn distinct_ids<V>(p: Keyed<V>) -> bool {
    forall|i: int, j: int| 0 <= i < j < p.len() ==> p[i].0 != p[j].0
}

/// The ids of the given strings.
pub open spec fn ids(v: Seq<String>) -> Seq<Seq<char>> {
    v.map_values(|s: String| s@)
}

/// The order of texts: character by character, a proper prefix first (the
/// order of `String`, whose UTF-8 bytes compare as their characters do).
pub open spec fn text_lt(a: Seq<char>, b: Seq<char>) -> bool
    decreases a.len(),
{
    if a.len() == 0 {
        b.len() > 0
    } else if b.len() == 0 {
        false
    } else if a[0] < b[0] {
        true
    } else if a[0] == b[0] {
        text_lt(a.drop_first(), b.drop_first())
    } else {
        false
    }
}

/// No text comes before itself.
pub proof fn lemma_text_lt_irreflexive(a: Seq<char>)
    ensures
        !text_lt(a, a),
    decreases a.len(),
{
    if a.len() > 0 {
        lemma_text_lt_irreflexive(a.drop_first());
    }
}

/// The order of texts is transitive.
pub proof fn lemma_text_lt_transitive(a: Seq<char>, b: Seq<char>, c: Seq<char>)
    requires
        text_lt(a, b),
        text_lt(b, c),
    ensures
        text_lt(a, c),
    decreases a.len(),
{
    if a.len() > 0 && a[0] == b[0] && b[0] == c[0] {
        lemma_text_lt_transitive(a.drop_first(), b.drop_first(), c.drop_first());
    }
}

/// Of two different texts, one comes first.
pub proof fn lemma_text_lt_total(a: Seq<char>, b: Seq<char>)
    requires
        a != b,
    ensures
        text_lt(a, b) || text_lt(b, a),
    decreases a.len(),
{
    if a.len() > 0 && b.len() > 0 && a[0] == b[0] {
        if a.drop_first() == b.drop_first() {
            assert(a =~= seq![a[0]] + a.drop_first());
            assert(b =~= seq![b[0]] + b.drop_first());
        }
        lemma_text_lt_total(a.drop_first(), b.drop_first());
    } else if a.len() == 0 && b.len() == 0 {
        assert(a =~= b);
    }
}

/// Whether `a` comes before `b`.
pub fn text_less(a: &String, b: &String) -> (less: bool)
    ensures
        less == text_lt(a@, b@),
{
    let x = crate::command::chars_of(a.as_str());
    let y = crate::command::chars_of(b.as_str());
    let mut k: usize = 0;
    assert(x@.skip(0) =~= x@);
    assert(y@.skip(0) =~= y@);
    while k < x.len() && k < y.len() && x[k] == y[k]
        invariant
            k <= x@.len(),
            k <= y@.len(),
            text_lt(x@, y@) == text_lt(x@.skip(k as int), y@.skip(k as int)),
        decreases x@.len() - k,
    {
        assert(x@.skip(k as int).drop_first() =~= x@.skip(k + 1));
        assert(y@.skip(k as int).drop_first() =~= y@.skip(k + 1));
        k += 1;
    }
    if k == x.len() {
        k < y.len()
    } else if k == y.len() {
        false
    } else {
        x[k] < y[k]
    }
}

/// Ids in strictly increasing order.
pub open spec fn sorted_ids<V>(p: Keyed<V>) -> bool {
    forall|i: int, j: int| 0 <= i < j < p.len() ==> text_lt(#[trigger] p[i].0, #[trigger] p[j].0)
}

/// Sorted ids are distinct.
pub(crate) proof fn lemma_sorted_distinct<V>(p: Keyed<V>)
    requires
        sorted_ids(p),
    ensures
        distinct_ids(p),
{
    assert forall|i: int, j: int| 0 <= i < j < p.len() implies p[i].0 != p[j].0 by {
        lemma_text_lt_irreflexive(p[i].0);
    }
}

/// An id is in the map exactly when some pair has it.
pub(crate) proof fn lemma_pairs_map_dom<V>(p: Keyed<V>, k: Seq<char>)
    ensures
        pairs_map(p).dom().contains(k) <==> exists|i: int| 0 <= i < p.len() && p[i].0 == k,
    decreases p.len(),
{
    if p.len() > 0 {
        lemma_pairs_map_dom(p.drop_last(), k);
        if pairs_map(p.drop_last()).dom().contains(k) {
            let i = choose|i: int| 0 <= i < p.drop_last().len() && p.drop_last()[i].0 == k;
            assert(p[i].0 == k);
        }
        if exists|i: int| 0 <= i < p.len() && p[i].0 == k {
            let i = choose|i: int| 0 <= i < p.len() && p[i].0 == k;
            if i < p.len() - 1 {
                assert(p.drop_last()[i].0 == k);
            }
        }
    }
}

/// With distinct ids, the map gives each pair's messages for its id.
pub(crate) proof fn lemma_pairs_map_at<V>(p: Keyed<V>, i: int)
    requires
        distinct_ids(p),
        0 <= i < p.len(),
    ensures
        pairs_map(p).dom().contains(p[i].0),
        pairs_map(p)[p[i].0] == p[i].1,
    decreases p.len(),
{
    if i < p.len() - 1 {
        let q = p.drop_last();
        assert(distinct_ids(q));
        assert(q[i] == p[i]);
        lemma_pairs_map_at(q, i);
        assert(p.last().0 != p[i].0);
    }
}

/// Two distinct-id pair sequences with the same pairs for every id stand for
/// the same map, given as a direct description.
pub(crate) proof fn lemma_pairs_map_is<V>(p: Keyed<V>, m: Map<Seq<char>, V>)
    requires
        distinct_ids(p),
        forall|k: Seq<char>| #[trigger] m.dom().contains(k) <==> exists|i: int| 0 <= i < p.len() && p[i].0 == k,
        forall|i: int| 0 <= i < p.len() ==> #[trigger] m[p[i].0] == p[i].1,
    ensures
        pairs_map(p) == m,
{
    assert forall|k: Seq<char>| #[trigger] pairs_map(p).dom().contains(k) <==> m.dom().contains(k) by {
        lemma_pairs_map_dom(p, k);
    }
    assert forall|k: Seq<char>| #[trigger] pairs_map(p).dom().contains(k) implies pairs_map(p)[k]
        == m[k] by {
        lemma_pairs_map_dom(p, k);
        let i = choose|i: int| 0 <= i < p.len() && p[i].0 == k;
        lemma_pairs_map_at(p, i);
    }
    assert(pairs_map(p) =~= m);
}

/// Replacing the messages of one pair changes the map at that id only.
pub(crate) proof fn lemma_pairs_update<V>(p: Keyed<V>, i: int, v: V)
    requires
        distinct_ids(p),
        0 <= i < p.len(),
    ensures
        distinct_ids(p.update(i, (p[i].0, v))),
        sorted_ids(p) ==> sorted_ids(p.update(i, (p[i].0, v))),
        pairs_map(p.update(i, (p[i].0, v))) == pairs_map(p).insert(p[i].0, v),
{
    let k = p[i].0;
    let q = p.update(i, (k, v));
    let m = pairs_map(p);
    let target = m.insert(k, v);
    lemma_pairs_map_at(p, i);
    assert forall|j: int| 0 <= j < q.len() implies #[trigger] q[j].0 == p[j].0 by {}
    assert(distinct_ids(q));
    if sorted_ids(p) {
        assert forall|x: int, y: int| 0 <= x < y < q.len() implies text_lt(
            #[trigger] q[x].0,
            #[trigger] q[y].0,
        ) by {
            assert(q[x].0 == p[x].0 && q[y].0 == p[y].0);
        }
    }
    assert forall|a: Seq<char>| #[trigger] target.dom().contains(a) <==> exists|j: int|
        0 <= j < q.len() && q[j].0 == a by {
        lemma_pairs_map_dom(p, a);
        if exists|j: int| 0 <= j < q.len() && q[j].0 == a {
            let j = choose|j: int| 0 <= j < q.len() && q[j].0 == a;
            assert(p[j].0 == a);
        }
        if exists|j: int| 0 <= j < p.len() && p[j].0 == a {
            let j = choose|j: int| 0 <= j < p.len() && p[j].0 == a;
            assert(q[j].0 == a);
        }
    }
    assert forall|j: int| 0 <= j < q.len() implies #[trigger] target[q[j].0] == q[j].1 by {
        if j != i {
            lemma_pairs_map_at(p, j);
        }
    }
    lemma_pairs_map_is(q, target);
}

/// Inserting a pair for a new id where it keeps the order adds that id to
/// the map.
pub(crate) proof fn lemma_pairs_insert<V>(p: Keyed<V>, pos: int, k: Seq<char>, v: V)
    requires
        sorted_ids(p),
        0 <= pos <= p.len(),
        forall|j: int| 0 <= j < pos ==> text_lt(#[trigger] p[j].0, k),
        forall|j: int| pos <= j < p.len() ==> text_lt(k, #[trigger] p[j].0),
    ensures
        sorted_ids(p.insert(pos, (k, v))),
        pairs_map(p.insert(pos, (k, v))) == pairs_map(p).insert(k, v),
{
    let q = p.insert(pos, (k, v));
    assert forall|x: int, y: int| 0 <= x < y < q.len() implies text_lt(
        #[trigger] q[x].0,
        #[trigger] q[y].0,
    ) by {
        if y < pos {
            assert(q[x] == p[x] && q[y] == p[y]);
        } else if y == pos {
            assert(q[x] == p[x]);
        } else if x < pos {
            assert(q[x] == p[x] && q[y] == p[y - 1]);
        } else if x == pos {
            assert(q[y] == p[y - 1]);
        } else {
            assert(q[x] == p[x - 1] && q[y] == p[y - 1]);
        }
    }
    lemma_sorted_distinct(p);
    lemma_sorted_distinct(q);
    let target = pairs_map(p).insert(k, v);
    assert forall|a: Seq<char>| #[trigger] target.dom().contains(a) <==> exists|j: int|
        0 <= j < q.len() && q[j].0 == a by {
        lemma_pairs_map_dom(p, a);
        if exists|j: int| 0 <= j < q.len() && q[j].0 == a {
            let j = choose|j: int| 0 <= j < q.len() && q[j].0 == a;
            if j < pos {
                assert(p[j].0 == a);
            } else if j > pos {
                assert(p[j - 1].0 == a);
            }
        }
        if exists|j: int| 0 <= j < p.len() && p[j].0 == a {
            let j = choose|j: int| 0 <= j < p.len() && p[j].0 == a;
            if j < pos {
                assert(q[j].0 == a);
            } else {
                assert(q[j + 1].0 == a);
            }
        }
        if a == k {
            assert(q[pos].0 == a);
        }
    }
    assert forall|j: int| 0 <= j < q.len() implies #[trigger] target[q[j].0] == q[j].1 by {
        if j < pos {
            lemma_pairs_map_at(p, j);
            lemma_text_lt_irreflexive(k);
        } else if j > pos {
            lemma_pairs_map_at(p, j - 1);
            lemma_text_lt_irreflexive(k);
        }
    }
    lemma_pairs_map_is(q, target);
}

/// Whether `id` is among `registered`.
pub fn is_registered(registered: &Vec<String>, id: &String) -> (found: bool)
    ensures
        found == ids(registered@).contains(id@),
{
    let mut i: usize = 0;
    while i < registered.len()
        invariant
            i <= registered@.len(),
            forall|j: int| 0 <= j < i ==> registered@[j]@ != id@,
        decreases registered@.len() - i,
    {
        if registered[i].eq(id) {
            assert(ids(registered@)[i as int] == id@);
            return true;
        }
        i += 1;
    }
    proof {
        if ids(registered@).contains(id@) {
            let j = choose|j: int| 0 <= j < ids(registered@).len() && ids(registered@)[j] == id@;
            assert(registered@[j]@ == id@);
        }
    }
    false
}

/// The ids and waiting messages of a sequence of entries.
pub open spec fn pairs_of(entries: Seq<(String, ChannelInfo)>) -> Pairs {
    entries.map_values(|e: (String, ChannelInfo)| (e.0@, e.1@))
}

/// The ids of a sequence of entries, each with the time of its last write.
pub open spec fn times_of(entries: Seq<(String, ChannelInfo)>) -> Keyed<tokio::time::Instant> {
    entries.map_values(|e: (String, ChannelInfo)| (e.0@, e.1.last_write()))
}

/// Two sequences with the same ids, one sorted: the other is sorted too and
/// their maps have the same ids.
proof fn lemma_same_ids<V, W>(a: Keyed<V>, b: Keyed<W>)
    requires
        a.len() == b.len(),
        forall|i: int| 0 <= i < a.len() ==> #[trigger] a[i].0 == b[i].0,
        sorted_ids(a),
    ensures
        sorted_ids(b),
        pairs_map(b).dom() == pairs_map(a).dom(),
{
    assert forall|x: int, y: int| 0 <= x < y < b.len() implies text_lt(
        #[trigger] b[x].0,
        #[trigger] b[y].0,
    ) by {
        assert(a[x].0 == b[x].0 && a[y].0 == b[y].0);
    }
    assert forall|k: Seq<char>| #[trigger] pairs_map(b).dom().contains(k) <==> pairs_map(
        a,
    ).dom().contains(k) by {
        lemma_pairs_map_dom(a, k);
        lemma_pairs_map_dom(b, k);
        if exists|i: int| 0 <= i < a.len() && a[i].0 == k {
            let i = choose|i: int| 0 <= i < a.len() && a[i].0 == k;
            assert(b[i].0 == k);
        }
        if exists|i: int| 0 <= i < b.len() && b[i].0 == k {
            let i = choose|i: int| 0 <= i < b.len() && b[i].0 == k;
            assert(a[i].0 == k);
        }
    }
    assert(pairs_map(b).dom() =~= pairs_map(a).dom());
}

/// The ids of the times are those of the messages.
proof fn lemma_times_ids(entries: Seq<(String, ChannelInfo)>)
    requires
        sorted_ids(pairs_of(entries)),
    ensures
        sorted_ids(times_of(entries)),
        pairs_map(times_of(entries)).dom() == pairs_map(pairs_of(entries)).dom(),
{
    lemma_same_ids(pairs_of(entries), times_of(entries));
}

/// The queues of messages that wait for channels to (re)connect, one per
/// channel id, kept in the order of the ids.
pub struct MessageQueues {
    entries: Vec<(String, ChannelInfo)>,
}

impl MessageQueues {
    /// The ids and waiting messages of the entries, in order.
    pub closed spec fn pairs(&self) -> Pairs {
        pairs_of(self.entries@)
    }

    /// No channel id has two entries.
    pub closed spec fn well_formed(&self) -> bool {
        sorted_ids(self.pairs())
    }

    /// The waiting messages of each channel id.
    pub closed spec fn view(&self) -> Map<Seq<char>, Seq<Seq<char>>> {
        pairs_map(self.pairs())
    }

    /// When each channel's queue was last written to.
    pub closed spec fn written(&self) -> Map<Seq<char>, tokio::time::Instant> {
        pairs_map(times_of(self.entries@))
    }

    /// The channel ids of the queues, in their order.
    pub closed spec fn id_order(&self) -> Seq<Seq<char>> {
        self.pairs().map_values(|e: (Seq<char>, Seq<Seq<char>>)| e.0)
    }

    /// Every queue has a time of its last write, and the queues are those of
    /// the ids in `id_order`, which come in increasing order.
    pub proof fn lemma_shape(&self)
        requires
            self.well_formed(),
        ensures
            self.written().dom() == self.view().dom(),
            forall|k: Seq<char>| #[trigger]
                self.view().dom().contains(k) <==> self.id_order().contains(k),
            forall|x: int, y: int|
                0 <= x < y < self.id_order().len() ==> text_lt(
                    #[trigger] self.id_order()[x],
                    #[trigger] self.id_order()[y],
                ),
    {
        lemma_times_ids(self.entries@);
        let p = self.pairs();
        assert forall|k: Seq<char>| #[trigger]
            self.view().dom().contains(k) <==> self.id_order().contains(k) by {
            lemma_pairs_map_dom(p, k);
            if self.id_order().contains(k) {
                let i = choose|i: int| 0 <= i < self.id_order().len() && self.id_order()[i] == k;
                assert(p[i].0 == k);
            }
            if exists|i: int| 0 <= i < p.len() && p[i].0 == k {
                let i = choose|i: int| 0 <= i < p.len() && p[i].0 == k;
                assert(self.id_order()[i] == k);
            }
        }
    }

    /// The channel ids of the queues, in order: what `flush_at` takes one
    /// idle reading each for.
    pub fn channel_ids(&self) -> (order: Vec<String>)
        ensures
            ids(order@) == self.id_order(),
    {
        let mut order: Vec<String> = Vec::new();
        let mut i: usize = 0;
        while i < self.entries.len()
            invariant
                i <= self.entries@.len(),
                ids(order@) == self.id_order().take(i as int),
            decreases self.entries@.len() - i,
        {
            let ghost before = order@;
            order.push(self.entries[i].0.clone());
            proof {
                assert(self.pairs().len() == self.entries@.len());
                assert(self.id_order().len() == self.entries@.len());
                assert(ids(before).len() == before.len());
                assert(before.len() == i);
                assert(self.pairs()[i as int] == (self.entries@[i as int].0@, self.entries@[i as int].1@));
                assert(self.id_order()[i as int] == self.entries@[i as int].0@);
                assert(order@ == before.push(self.entries@[i as int].0));
                assert forall|k: int| 0 <= k < i + 1 implies #[trigger] ids(order@)[k] == self.id_order().take(
                    i + 1,
                )[k] by {
                    if k < i {
                        assert(ids(order@)[k] == ids(before)[k]);
                    }
                }
                assert(ids(order@) =~= self.id_order().take(i + 1));
            }
            i += 1;
        }
        assert(self.id_order().take(i as int) =~= self.id_order());
        order
    }

    /// No queue at all.
    pub fn new() -> (queues: MessageQueues)
        ensures
            queues.well_formed(),
            queues.view() == Map::<Seq<char>, Seq<Seq<char>>>::empty(),
    {
        let queues = MessageQueues { entries: Vec::new() };
        assert(queues.pairs() =~= Seq::<(Seq<char>, Seq<Seq<char>>)>::empty());
        queues
    }

    /// The index of the entry for `id`, if any.
    fn find(&self, id: &String) -> (found: Option<usize>)
        ensures
            match found {
                Some(i) => i < self.pairs().len() && self.pairs()[i as int].0 == id@,
                None => forall|i: int| 0 <= i < self.pairs().len() ==> self.pairs()[i].0 != id@,
            },
    {
        let mut i: usize = 0;
        while i < self.entries.len()
            invariant
                i <= self.entries@.len(),
                forall|j: int| 0 <= j < i ==> self.pairs()[j].0 != id@,
            decreases self.entries@.len() - i,
        {
            if self.entries[i].0.eq(id) {
                return Some(i);
            }
            i += 1;
        }
        None
    }

    /// Where an entry for `id`, which has none, goes to keep the ids in
    /// order.
    fn insert_position(&self, id: &String) -> (pos: usize)
        requires
            self.well_formed(),
            forall|i: int| 0 <= i < self.pairs().len() ==> self.pairs()[i].0 != id@,
        ensures
            pos <= self.pairs().len(),
            forall|j: int| 0 <= j < pos ==> text_lt(#[trigger] self.pairs()[j].0, id@),
            forall|j: int| pos <= j < self.pairs().len() ==> text_lt(id@, #[trigger] self.pairs()[j].0),
    {
        let ghost p = self.pairs();
        let mut i: usize = 0;
        while i < self.entries.len() && text_less(&self.entries[i].0, id)
            invariant
                p == self.pairs(),
                i <= p.len(),
                forall|j: int| 0 <= j < i ==> text_lt(#[trigger] p[j].0, id@),
            decreases p.len() - i,
        {
            i += 1;
        }
        proof {
            if i < p.len() {
                assert(!text_lt(p[i as int].0, id@));
                lemma_text_lt_total(p[i as int].0, id@);
                assert forall|j: int| i <= j < p.len() implies text_lt(id@, #[trigger] p[j].0) by {
                    if j > i {
                        lemma_text_lt_transitive(id@, p[i as int].0, p[j].0);
                    }
                }
            }
        }
        i
    }

    /// Queues `message` for `channel_id`, opening a queue for it if it has
    /// none.
    pub fn queue_message(&mut self, channel_id: String, message: String)
        requires
            old(self).well_formed(),
        ensures
            queue_outcome(*old(self), *final(self), channel_id@, message@),
            !old(self).view().dom().contains(channel_id@) ==> clock_reading(
                final(self).written()[channel_id@],
            ),
    {
        let ghost p = self.pairs();
        let ghost t = times_of(self.entries@);
        let ghost m = self.view();
        proof {
            lemma_times_ids(self.entries@);
            lemma_sorted_distinct(t);
        }
        let ghost k = channel_id@;
        proof {
            lemma_sorted_distinct(p);
            lemma_pairs_map_dom(p, k);
        }
        match self.find(&channel_id) {
            Some(i) => {
                let (id, mut info) = self.entries.remove(i);
                let ghost old_msgs = info@;
                info.enqueue(message);
                self.entries.insert(i, (id, info));
                proof {
                    lemma_pairs_map_at(p, i as int);
                    lemma_pairs_update(p, i as int, old_msgs.push(message@));
                    assert(self.pairs() =~= p.update(i as int, (k, old_msgs.push(message@))));
                    assert(times_of(self.entries@) =~= t);
                }
            },
            None => {
                let ghost msg = message@;
                let pos = self.insert_position(&channel_id);
                let info = ChannelInfo::new(message);
                let ghost at = info.last_write();
                self.entries.insert(pos, (channel_id, info));
                proof {
                    lemma_pairs_insert(p, pos as int, k, seq![msg]);
                    assert(self.pairs() =~= p.insert(pos as int, (k, seq![msg])));
                    assert(!m.dom().contains(k));
                    assert forall|j: int| 0 <= j < pos implies text_lt(#[trigger] t[j].0, k) by {
                        assert(t[j].0 == p[j].0);
                    }
                    assert forall|j: int| pos <= j < t.len() implies text_lt(k, #[trigger] t[j].0) by {
                        assert(t[j].0 == p[j].0);
                    }
                    lemma_pairs_insert(t, pos as int, k, at);
                    assert(times_of(self.entries@) =~= t.insert(pos as int, (k, at)));
                    assert(sorted_ids(self.pairs()));
                    lemma_times_ids(self.entries@);
                    lemma_sorted_distinct(times_of(self.entries@));
                    lemma_pairs_map_at(times_of(self.entries@), pos as int);
                }
            },
        }
    }
}

impl MessageQueues {
    /// Records that the oldest message queued for `channel_id` was delivered
    /// at `at`: removes it and notes the write.
    pub fn confirm_delivery_at(&mut self, channel_id: &String, at: tokio::time::Instant)
        requires
            old(self).well_formed(),
        ensures
            delivery_outcome(*old(self), *final(self), channel_id@, at),
    {
        let ghost p = self.pairs();
        let ghost t = times_of(self.entries@);
        let ghost k = channel_id@;
        proof {
            lemma_sorted_distinct(p);
            lemma_pairs_map_dom(p, k);
            lemma_times_ids(self.entries@);
            lemma_sorted_distinct(t);
        }
        match self.find(channel_id) {
            Some(i) => {
                let (id, mut info) = self.entries.remove(i);
                let ghost old_msgs = info@;
                info.dequeue();
                info.set_last_write(at);
                self.entries.insert(i, (id, info));
                proof {
                    lemma_pairs_map_at(p, i as int);
                    let new_msgs = if old_msgs.len() > 0 {
                        old_msgs.drop_first()
                    } else {
                        old_msgs
                    };
                    lemma_pairs_update(p, i as int, new_msgs);
                    assert(self.pairs() =~= p.update(i as int, (k, new_msgs)));
                    if old_msgs.len() == 0 {
                        assert(pairs_map(p).insert(k, old_msgs) =~= pairs_map(p));
                    }
                    assert(t[i as int].0 == k);
                    lemma_pairs_update(t, i as int, at);
                    assert(times_of(self.entries@) =~= t.update(i as int, (k, at)));
                }
            },
            None => {},
        }
    }

    /// Records that the oldest message queued for `channel_id` was just
    /// delivered: removes it, and the clock's reading becomes the time of the
    /// queue's last write.
    pub fn confirm_delivery(&mut self, channel_id: &String)
        requires
            old(self).well_formed(),
        ensures
            final(self).well_formed(),
            final(self).view() == if old(self).view().dom().contains(channel_id@) && old(
                self,
            ).view()[channel_id@].len() > 0 {
                old(self).view().insert(channel_id@, old(self).view()[channel_id@].drop_first())
            } else {
                old(self).view()
            },
            final(self).written().dom() == old(self).written().dom(),
            forall|k: Seq<char>| #[trigger]
                old(self).written().dom().contains(k) && k != channel_id@
                    ==> final(self).written()[k] == old(self).written()[k],
            exists|at: tokio::time::Instant|
                clock_reading(at) && delivery_outcome(*old(self), *final(self), channel_id@, at),
            old(self).view().dom().contains(channel_id@) ==> clock_reading(
                final(self).written()[channel_id@],
            ),
    {
        proof {
            self.lemma_shape();
        }
        let now = crate::channel::instant_now();
        proof {
            crate::channel::lemma_clock_reading(now);
        }
        self.confirm_delivery_at(channel_id, now);
        proof {
            if old(self).view().dom().contains(channel_id@) {
                assert(final(self).written().dom() =~= old(self).written().dom());
            }
        }
    }
}

/// The picked messages, with their texts taken as characters.
pub open spec fn picks(outgoing: Seq<(String, String)>) -> Seq<(Seq<char>, Seq<char>)> {
    outgoing.map_values(|o: (String, String)| (o.0@, o.1@))
}

/// What holds after a flush has gone over the first `i` of the pairs `p`:
/// `kept` are some of them (`kept[a]` is `p[from[a]]`), none over the
/// limit, `out[o]` is the oldest message of the kept registered pair
/// `kept[pick[o]]`, and each kept registered pair with messages `kept[a]` has
/// its message picked as `out[back[a]]`, once.
pub open spec fn flush_progress(
    p: Pairs,
    i: int,
    kept: Pairs,
    out: Seq<(Seq<char>, Seq<char>)>,
    reg: Seq<Seq<char>>,
    from: Seq<int>,
    pick: Seq<int>,
    back: Seq<int>,
) -> bool {
    &&& sorted_ids(p)
    &&& 0 <= i <= p.len()
    &&& sorted_ids(kept)
    &&& from.len() == kept.len()
    &&& forall|a: int, b: int| 0 <= a < b < kept.len() ==> #[trigger] from[a] < #[trigger] from[b]
    &&& forall|o1: int, o2: int| 0 <= o1 < o2 < out.len() ==> #[trigger] pick[o1] < #[trigger] pick[o2]
    &&& forall|a: int| 0 <= a < kept.len() ==> 0 <= #[trigger] from[a] < i && kept[a] == p[from[a]]
    &&& forall|a: int| 0 <= a < kept.len() ==> (#[trigger] kept[a]).1.len() <= MAX_QUEUED
    &&& pick.len() == out.len()
    &&& forall|o: int|
        0 <= o < out.len() ==> {
            let a = #[trigger] pick[o];
            &&& 0 <= a < kept.len()
            &&& kept[a].0 == out[o].0
            &&& reg.contains(kept[a].0)
            &&& kept[a].1.len() > 0
            &&& out[o].1 == kept[a].1[0]
        }
    &&& back.len() == kept.len()
    &&& forall|a: int|
        0 <= a < kept.len() && reg.contains(kept[a].0) && kept[a].1.len() > 0 ==> {
            let o = #[trigger] back[a];
            0 <= o < out.len() && out[o].0 == kept[a].0
        }
    &&& forall|o1: int, o2: int|
        0 <= o1 < o2 < out.len() ==> text_lt((#[trigger] out[o1]).0, (#[trigger] out[o2]).0)
}

/// The id of the next pair comes after those of the kept ones and the picks.
proof fn lemma_flush_fresh(
    p: Pairs,
    i: int,
    kept: Pairs,
    out: Seq<(Seq<char>, Seq<char>)>,
    reg: Seq<Seq<char>>,
    from: Seq<int>,
    pick: Seq<int>,
    back: Seq<int>,
)
    requires
        flush_progress(p, i, kept, out, reg, from, pick, back),
        i < p.len(),
    ensures
        forall|a: int| 0 <= a < kept.len() ==> text_lt(#[trigger] kept[a].0, p[i].0),
        forall|o: int| 0 <= o < out.len() ==> text_lt(#[trigger] out[o].0, p[i].0),
{
    assert forall|a: int| 0 <= a < kept.len() implies text_lt(#[trigger] kept[a].0, p[i].0) by {
        assert(0 <= from[a] < i);
        assert(text_lt(p[from[a]].0, p[i].0));
    }
    assert forall|o: int| 0 <= o < out.len() implies text_lt(#[trigger] out[o].0, p[i].0) by {
        let a = pick[o];
        assert(text_lt(kept[a].0, p[i].0));
    }
}

/// Keeping the next pair (and picking its oldest message when `send`) keeps
/// the flush on track, where the pair is within the limit and `send` tells
/// whether it is registered with messages.
proof fn lemma_flush_keep(
    p: Pairs,
    i: int,
    kept: Pairs,
    out: Seq<(Seq<char>, Seq<char>)>,
    reg: Seq<Seq<char>>,
    from: Seq<int>,
    pick: Seq<int>,
    back: Seq<int>,
    send: bool,
)
    requires
        flush_progress(p, i, kept, out, reg, from, pick, back),
        i < p.len(),
        p[i].1.len() <= MAX_QUEUED,
        send == (reg.contains(p[i].0) && p[i].1.len() > 0),
    ensures
        flush_progress(
            p,
            i + 1,
            kept.push(p[i]),
            if send {
                out.push((p[i].0, p[i].1[0]))
            } else {
                out
            },
            reg,
            from.push(i),
            if send {
                pick.push(kept.len() as int)
            } else {
                pick
            },
            back.push(out.len() as int),
        ),
{
    lemma_flush_fresh(p, i, kept, out, reg, from, pick, back);
    let k2 = kept.push(p[i]);
    let o2 = if send {
        out.push((p[i].0, p[i].1[0]))
    } else {
        out
    };
    let f2 = from.push(i);
    let p2 = if send {
        pick.push(kept.len() as int)
    } else {
        pick
    };
    let b2 = back.push(out.len() as int);
    assert forall|a: int| 0 <= a < k2.len() implies 0 <= #[trigger] f2[a] < i + 1 && k2[a] == p[f2[a]] by {
        if a < kept.len() {
            assert(f2[a] == from[a]);
        }
    }
    assert forall|a: int| 0 <= a < k2.len() implies (#[trigger] k2[a]).1.len() <= MAX_QUEUED by {
        if a < kept.len() {
            assert(k2[a] == kept[a]);
        }
    }
    assert(sorted_ids(k2)) by {
        assert forall|x: int, y: int| 0 <= x < y < k2.len() implies text_lt(
            #[trigger] k2[x].0,
            #[trigger] k2[y].0,
        ) by {
            assert(k2[x] == kept[x]);
            if y < kept.len() {
                assert(k2[y] == kept[y]);
            }
        }
    }
    assert forall|a: int, b: int| 0 <= a < b < k2.len() implies #[trigger] f2[a] < #[trigger] f2[b] by {
        assert(f2[a] == from[a]);
        if b < kept.len() {
            assert(f2[b] == from[b]);
        }
    }
    assert forall|x: int, y: int| 0 <= x < y < o2.len() implies #[trigger] p2[x] < #[trigger] p2[y] by {
        assert(p2[x] == pick[x]);
        if y < out.len() {
            assert(p2[y] == pick[y]);
        }
    }
    assert forall|o: int| 0 <= o < o2.len() implies {
        let a = #[trigger] p2[o];
        &&& 0 <= a < k2.len()
        &&& k2[a].0 == o2[o].0
        &&& reg.contains(k2[a].0)
        &&& k2[a].1.len() > 0
        &&& o2[o].1 == k2[a].1[0]
    } by {
        if o < out.len() {
            assert(p2[o] == pick[o]);
            assert(o2[o] == out[o]);
            assert(k2[pick[o]] == kept[pick[o]]);
        }
    }
    assert forall|a: int|
        0 <= a < k2.len() && reg.contains(k2[a].0) && k2[a].1.len() > 0 implies {
        let o = #[trigger] b2[a];
        0 <= o < o2.len() && o2[o].0 == k2[a].0
    } by {
        if a < kept.len() {
            assert(k2[a] == kept[a]);
            assert(b2[a] == back[a]);
            assert(o2[back[a]] == out[back[a]]);
        }
    }
    assert forall|x: int, y: int| 0 <= x < y < o2.len() implies text_lt(
        (#[trigger] o2[x]).0,
        (#[trigger] o2[y]).0,
    ) by {
        assert(o2[x] == out[x]);
        if y < out.len() {
            assert(o2[y] == out[y]);
        }
    }
}

/// Dropping the next pair keeps the flush on track.
proof fn lemma_flush_drop(
    p: Pairs,
    i: int,
    kept: Pairs,
    out: Seq<(Seq<char>, Seq<char>)>,
    reg: Seq<Seq<char>>,
    from: Seq<int>,
    pick: Seq<int>,
    back: Seq<int>,
)
    requires
        flush_progress(p, i, kept, out, reg, from, pick, back),
        i < p.len(),
    ensures
        flush_progress(p, i + 1, kept, out, reg, from, pick, back),
{
}

/// At the end of a flush over all of `p`, the kept map agrees with the old
/// one where it is defined, has no queue over the limit, and `out` picks the
/// oldest message of each kept registered channel with messages, once.
proof fn lemma_flush_done(
    p: Pairs,
    kept: Pairs,
    out: Seq<(Seq<char>, Seq<char>)>,
    reg: Seq<Seq<char>>,
    from: Seq<int>,
    pick: Seq<int>,
    back: Seq<int>,
)
    requires
        flush_progress(p, p.len() as int, kept, out, reg, from, pick, back),
    ensures
        forall|k: Seq<char>| #[trigger]
            pairs_map(kept).dom().contains(k) ==> pairs_map(p).dom().contains(k)
                && pairs_map(kept)[k] == pairs_map(p)[k],
        forall|k: Seq<char>| #[trigger]
            pairs_map(kept).dom().contains(k) ==> pairs_map(kept)[k].len() <= MAX_QUEUED,
        forall|o: int|
            0 <= o < out.len() ==> {
                let id = (#[trigger] out[o]).0;
                &&& pairs_map(kept).dom().contains(id)
                &&& reg.contains(id)
                &&& pairs_map(kept)[id].len() > 0
                &&& out[o].1 == pairs_map(kept)[id][0]
            },
        forall|k: Seq<char>| #[trigger]
            pairs_map(kept).dom().contains(k) && reg.contains(k) && pairs_map(kept)[k].len() > 0
                ==> exists|o: int| 0 <= o < out.len() && (#[trigger] out[o]).0 == k,
{
    lemma_sorted_distinct(p);
    lemma_sorted_distinct(kept);
    let m_old = pairs_map(p);
    let m_new = pairs_map(kept);
    assert forall|k: Seq<char>| #[trigger] m_new.dom().contains(k) implies m_old.dom().contains(k)
        && m_new[k] == m_old[k] && m_new[k].len() <= MAX_QUEUED by {
        lemma_pairs_map_dom(kept, k);
        let a = choose|a: int| 0 <= a < kept.len() && kept[a].0 == k;
        assert(0 <= from[a] < p.len());
        lemma_pairs_map_at(kept, a);
        lemma_pairs_map_at(p, from[a]);
        assert(kept[a].1.len() <= MAX_QUEUED);
    }
    assert forall|o: int| 0 <= o < out.len() implies {
        let id = (#[trigger] out[o]).0;
        &&& m_new.dom().contains(id)
        &&& reg.contains(id)
        &&& m_new[id].len() > 0
        &&& out[o].1 == m_new[id][0]
    } by {
        let a = pick[o];
        lemma_pairs_map_at(kept, a);
    }
    assert forall|k: Seq<char>| #[trigger]
        m_new.dom().contains(k) && reg.contains(k) && m_new[k].len() > 0 implies exists|o: int|
        0 <= o < out.len() && (#[trigger] out[o]).0 == k by {
        lemma_pairs_map_dom(kept, k);
        let a = choose|a: int| 0 <= a < kept.len() && kept[a].0 == k;
        lemma_pairs_map_at(kept, a);
        let o = back[a];
        assert(out[o].0 == k);
    }
}

/// Whether a flush keeps the `j`-th queue of `p`, given the seconds since
/// each queue's last write: when it is neither idle too long nor too long.
pub open spec fn keep_condition(p: Pairs, idle: Seq<u64>, j: int) -> bool {
    idle[j] <= MAX_IDLE_SECONDS && p[j].1.len() <= MAX_QUEUED
}

/// Which of the first `i` queues of `p` a flush kept: the `j`-th is kept, as
/// `slot[j]`, exactly when it meets `keep_condition`; `from` and `slot` are
/// inverse.
pub open spec fn flush_keeps(p: Pairs, idle: Seq<u64>, i: int, from: Seq<int>, slot: Seq<int>) -> bool {
    &&& slot.len() == i
    &&& forall|j: int| 0 <= j < i ==> (#[trigger] slot[j] >= 0 <==> keep_condition(p, idle, j))
    &&& forall|j: int| 0 <= j < i && #[trigger] slot[j] >= 0 ==> slot[j] < from.len() && from[slot[j]] == j
    &&& forall|a: int| 0 <= a < from.len() ==> 0 <= #[trigger] from[a] < i && slot[from[a]] == a
}

/// A dropped queue is one that does not meet `keep_condition`.
proof fn lemma_keeps_drop(p: Pairs, idle: Seq<u64>, i: int, from: Seq<int>, slot: Seq<int>)
    requires
        flush_keeps(p, idle, i, from, slot),
        !keep_condition(p, idle, i),
    ensures
        flush_keeps(p, idle, i + 1, from, slot.push(-1)),
{
    let s2 = slot.push(-1);
    assert forall|j: int| 0 <= j < i + 1 implies (#[trigger] s2[j] >= 0 <==> keep_condition(
        p,
        idle,
        j,
    )) by {
        if j < i {
            assert(s2[j] == slot[j]);
        }
    }
    assert forall|j: int| 0 <= j < i + 1 && #[trigger] s2[j] >= 0 implies s2[j] < from.len()
        && from[s2[j]] == j by {
        assert(s2[j] == slot[j]);
    }
    assert forall|a: int| 0 <= a < from.len() implies 0 <= #[trigger] from[a] < i + 1 && s2[from[a]]
        == a by {
        assert(s2[from[a]] == slot[from[a]]);
    }
}

/// A kept queue is one that meets `keep_condition`.
proof fn lemma_keeps_keep(p: Pairs, idle: Seq<u64>, i: int, from: Seq<int>, slot: Seq<int>)
    requires
        flush_keeps(p, idle, i, from, slot),
        keep_condition(p, idle, i),
    ensures
        flush_keeps(p, idle, i + 1, from.push(i), slot.push(from.len() as int)),
{
    let s2 = slot.push(from.len() as int);
    let f2 = from.push(i);
    assert forall|j: int| 0 <= j < i + 1 implies (#[trigger] s2[j] >= 0 <==> keep_condition(
        p,
        idle,
        j,
    )) by {
        if j < i {
            assert(s2[j] == slot[j]);
        }
    }
    assert forall|j: int| 0 <= j < i + 1 && #[trigger] s2[j] >= 0 implies s2[j] < f2.len()
        && f2[s2[j]] == j by {
        if j < i {
            assert(s2[j] == slot[j]);
            assert(f2[slot[j]] == from[slot[j]]);
        }
    }
    assert forall|a: int| 0 <= a < f2.len() implies 0 <= #[trigger] f2[a] < i + 1 && s2[f2[a]]
        == a by {
        if a < from.len() {
            assert(f2[a] == from[a]);
            assert(s2[from[a]] == slot[from[a]]);
        }
    }
}

/// After a flush over all of `p`, the kept map holds exactly the ids of the
/// queues that meet `keep_condition`.
proof fn lemma_keeps_done(
    p: Pairs,
    idle: Seq<u64>,
    kept: Pairs,
    out: Seq<(Seq<char>, Seq<char>)>,
    reg: Seq<Seq<char>>,
    from: Seq<int>,
    pick: Seq<int>,
    back: Seq<int>,
    slot: Seq<int>,
)
    requires
        flush_progress(p, p.len() as int, kept, out, reg, from, pick, back),
        flush_keeps(p, idle, p.len() as int, from, slot),
    ensures
        forall|j: int|
            0 <= j < p.len() ==> (pairs_map(kept).dom().contains(#[trigger] p[j].0)
                <==> keep_condition(p, idle, j)),
{
    lemma_sorted_distinct(p);
    lemma_sorted_distinct(kept);
    assert forall|j: int| 0 <= j < p.len() implies (pairs_map(kept).dom().contains(
        #[trigger] p[j].0,
    ) <==> keep_condition(p, idle, j)) by {
        lemma_pairs_map_dom(kept, p[j].0);
        if keep_condition(p, idle, j) {
            let a = slot[j];
            assert(kept[a] == p[from[a]]);
            assert(kept[a].0 == p[j].0);
        }
        if pairs_map(kept).dom().contains(p[j].0) {
            let a = choose|a: int| 0 <= a < kept.len() && kept[a].0 == p[j].0;
            assert(kept[a] == p[from[a]]);
            assert(from[a] == j);
            assert(slot[j] == a);
        }
    }
}

/// A sequence whose pairs are pairs of another, both with distinct ids: its
/// map agrees with the other's.
proof fn lemma_sub_keyed<V>(big: Keyed<V>, small: Keyed<V>, from: Seq<int>)
    requires
        distinct_ids(big),
        distinct_ids(small),
        from.len() == small.len(),
        forall|a: int| 0 <= a < small.len() ==> 0 <= #[trigger] from[a] < big.len() && small[a] == big[from[a]],
    ensures
        forall|k: Seq<char>| #[trigger]
            pairs_map(small).dom().contains(k) ==> pairs_map(big).dom().contains(k)
                && pairs_map(small)[k] == pairs_map(big)[k],
{
    assert forall|k: Seq<char>| #[trigger] pairs_map(small).dom().contains(k) implies pairs_map(
        big,
    ).dom().contains(k) && pairs_map(small)[k] == pairs_map(big)[k] by {
        lemma_pairs_map_dom(small, k);
        let a = choose|a: int| 0 <= a < small.len() && small[a].0 == k;
        assert(0 <= from[a] < big.len());
        lemma_pairs_map_at(small, a);
        lemma_pairs_map_at(big, from[a]);
    }
}

impl MessageQueues {
    /// Goes over the queues once, given `idle`: the whole seconds since the
    /// last write of each queue, in the order of `id_order`. Drops each queue
    /// idle for more than `MAX_IDLE_SECONDS` or holding more than
    /// `MAX_QUEUED` messages, keeps every other queue unchanged, and picks the
    /// oldest message of each kept queue whose channel is among `registered`
    /// and has messages, once, in the order of the channel ids. The picked
    /// messages stay queued until `confirm_delivery`.
    pub fn flush_at(&mut self, registered: &Vec<String>, idle: &Vec<u64>) -> (outgoing: Vec<
        (String, String),
    >)
        requires
            old(self).well_formed(),
            idle@.len() == old(self).id_order().len(),
        ensures
            flush_outcome(*old(self), *final(self), ids(registered@), idle@, picks(outgoing@)),
    {
        let ghost p = self.pairs();
        let ghost e = self.entries@;
        let ghost reg = ids(registered@);
        let mut pending: Vec<(String, ChannelInfo)> = Vec::new();
        std::mem::swap(&mut pending, &mut self.entries);
        let mut outgoing: Vec<(String, String)> = Vec::new();
        let mut idx: usize = 0;
        let ghost mut i: int = 0;
        let ghost mut from: Seq<int> = Seq::empty();
        let ghost mut pick: Seq<int> = Seq::empty();
        let ghost mut back: Seq<int> = Seq::empty();
        let ghost mut slot: Seq<int> = Seq::empty();
        assert(pending@ =~= e.subrange(0, e.len() as int));
        assert(self.pairs() =~= Seq::<(Seq<char>, Seq<Seq<char>>)>::empty());
        assert(picks(outgoing@) =~= Seq::<(Seq<char>, Seq<char>)>::empty());
        assert(p.len() == e.len());
        assert(idle@.len() == p.len());
        while pending.len() > 0
            invariant
                p == pairs_of(e),
                idle@.len() == p.len(),
                idx == i,
                pending@ == e.subrange(i, e.len() as int),
                flush_progress(p, i, self.pairs(), picks(outgoing@), reg, from, pick, back),
                flush_keeps(p, idle@, i, from, slot),
                forall|a: int| 0 <= a < self.entries@.len() ==> #[trigger] self.entries@[a] == e[from[a]],
                reg == ids(registered@),
            decreases pending@.len(),
        {
            let ghost kept = self.pairs();
            let ghost out0 = picks(outgoing@);
            let ghost kept_e = self.entries@;
            let ghost before = pending@;
            let (id, info) = pending.remove(0);
            proof {
                assert(before[0] == e[i]);
                assert(pending@ =~= e.subrange(i + 1, e.len() as int));
                assert(p[i] == (id@, info@));
            }
            assert(idx < idle.len());
            let idle_now = idle[idx];
            let n = info.len();
            let reg_now = is_registered(registered, &id);
            match flush_action(idle_now, n, reg_now) {
                FlushAction::Drop => {
                    proof {
                        lemma_flush_drop(p, i, kept, out0, reg, from, pick, back);
                        lemma_keeps_drop(p, idle@, i, from, slot);
                        slot = slot.push(-1);
                    }
                },
                FlushAction::Send => {
                    let head = match info.front() {
                        Some(h) => h,
                        None => {
                            proof {
                                assert(false);
                            }
                            String::new()
                        },
                    };
                    outgoing.push((id.clone(), head));
                    self.entries.push((id, info));
                    proof {
                        lemma_flush_keep(p, i, kept, out0, reg, from, pick, back, true);
                        lemma_keeps_keep(p, idle@, i, from, slot);
                        assert(self.pairs() =~= kept.push(p[i]));
                        assert(picks(outgoing@) =~= out0.push((p[i].0, p[i].1[0])));
                        slot = slot.push(from.len() as int);
                        from = from.push(i);
                        pick = pick.push(kept.len() as int);
                        back = back.push(out0.len() as int);
                        assert forall|a: int| 0 <= a < self.entries@.len() implies #[trigger] self.entries@[a]
                            == e[from[a]] by {
                            if a < kept_e.len() {
                                assert(self.entries@[a] == kept_e[a]);
                            }
                        }
                    }
                },
                FlushAction::Keep => {
                    self.entries.push((id, info));
                    proof {
                        lemma_flush_keep(p, i, kept, out0, reg, from, pick, back, false);
                        lemma_keeps_keep(p, idle@, i, from, slot);
                        assert(self.pairs() =~= kept.push(p[i]));
                        slot = slot.push(from.len() as int);
                        from = from.push(i);
                        back = back.push(out0.len() as int);
                        assert forall|a: int| 0 <= a < self.entries@.len() implies #[trigger] self.entries@[a]
                            == e[from[a]] by {
                            if a < kept_e.len() {
                                assert(self.entries@[a] == kept_e[a]);
                            }
                        }
                    }
                },
            }
            idx = idx + 1;
            proof {
                i = i + 1;
            }
        }
        proof {
            assert(e.subrange(i, e.len() as int).len() == 0);
            let kept = self.pairs();
            lemma_flush_done(p, kept, picks(outgoing@), reg, from, pick, back);
            lemma_keeps_done(p, idle@, kept, picks(outgoing@), reg, from, pick, back, slot);
            let old_q = old(self);
            assert forall|j: int| 0 <= j < idle@.len() implies #[trigger] old_q.id_order()[j] == p[j].0 by {}
            lemma_sorted_distinct(p);
            assert forall|j: int| 0 <= j < idle@.len() implies old_q.view()[p[j].0] == p[j].1 by {
                lemma_pairs_map_at(p, j);
            }
            lemma_times_ids(e);
            lemma_times_ids(self.entries@);
            lemma_sorted_distinct(times_of(e));
            lemma_sorted_distinct(times_of(self.entries@));
            lemma_sub_keyed(times_of(e), times_of(self.entries@), from);
        }
        outgoing
    }

    /// Goes over the queues once, reading for each the seconds since its own
    /// last write: see `flush_at`, which gets those readings. Every queue that stays is
    /// unchanged and within the limit, and every kept queue of a registered
    /// channel with waiting messages has its oldest message picked, once; the
    /// picks come in the order of their channel ids.
    pub fn flush(&mut self, registered: &Vec<String>) -> (outgoing: Vec<(String, String)>)
        requires
            old(self).well_formed(),
        ensures
            exists|idle: Seq<u64>|
                idle.len() == old(self).id_order().len() && (forall|j: int|
                    0 <= j < idle.len() ==> elapsed_reading(
                        old(self).written()[old(self).id_order()[j]],
                        #[trigger] idle[j],
                    )) && flush_outcome(
                    *old(self),
                    *final(self),
                    ids(registered@),
                    idle,
                    picks(outgoing@),
                ),
            final(self).well_formed(),
            forall|k: Seq<char>| #[trigger]
                final(self).view().dom().contains(k) ==> old(self).view().dom().contains(k)
                    && final(self).view()[k] == old(self).view()[k] && final(self).written()[k]
                    == old(self).written()[k],
            forall|k: Seq<char>| #[trigger]
                final(self).view().dom().contains(k) ==> final(self).view()[k].len() <= MAX_QUEUED,
            forall|k: Seq<char>| #[trigger]
                old(self).view().dom().contains(k) && old(self).view()[k].len() > MAX_QUEUED
                    ==> !final(self).view().dom().contains(k),
            forall|o: int|
                0 <= o < outgoing@.len() ==> {
                    let id = (#[trigger] picks(outgoing@)[o]).0;
                    &&& final(self).view().dom().contains(id)
                    &&& ids(registered@).contains(id)
                    &&& final(self).view()[id].len() > 0
                    &&& picks(outgoing@)[o].1 == final(self).view()[id][0]
                },
            forall|k: Seq<char>| #[trigger]
                final(self).view().dom().contains(k) && ids(registered@).contains(k)
                    && final(self).view()[k].len() > 0 ==> exists|o: int|
                    0 <= o < outgoing@.len() && (#[trigger] picks(outgoing@)[o]).0 == k,
            forall|o1: int, o2: int|
                0 <= o1 < o2 < outgoing@.len() ==> text_lt(
                    (#[trigger] picks(outgoing@)[o1]).0,
                    (#[trigger] picks(outgoing@)[o2]).0,
                ),
    {
        let mut idle: Vec<u64> = Vec::new();
        let mut j: usize = 0;
        while j < self.entries.len()
            invariant
                j <= self.entries@.len(),
                idle@.len() == j,
                forall|i: int|
                    0 <= i < j ==> elapsed_reading(
                        times_of(self.entries@)[i].1,
                        #[trigger] idle@[i],
                    ),
            decreases self.entries@.len() - j,
        {
            idle.push(self.entries[j].1.idle_seconds());
            j += 1;
        }
        assert(idle@.len() == self.id_order().len());
        proof {
            let t = times_of(self.entries@);
            lemma_times_ids(self.entries@);
            lemma_sorted_distinct(t);
            assert forall|i: int| 0 <= i < idle@.len() implies elapsed_reading(
                self.written()[self.id_order()[i]],
                #[trigger] idle@[i],
            ) by {
                lemma_pairs_map_at(t, i);
                assert(self.id_order()[i] == t[i].0);
            }
        }
        let outgoing = self.flush_at(registered, &idle);
        assert(flush_outcome(*old(self), *self, ids(registered@), idle@, picks(outgoing@)));
        outgoing
    }
}

/// What `queue_message` does: `message` joins the back of the queue of
/// `id`, which is opened if there was none; the other queues and the times
/// of the existing queues' last writes stay.
pub open spec fn queue_outcome(
    before: MessageQueues,
    after: MessageQueues,
    id: Seq<char>,
    message: Seq<char>,
) -> bool {
    &&& after.well_formed()
    &&& after.view() == before.view().insert(
        id,
        if before.view().dom().contains(id) {
            before.view()[id].push(message)
        } else {
            seq![message]
        },
    )
    &&& forall|k: Seq<char>| #[trigger]
        before.written().dom().contains(k) ==> after.written().dom().contains(k)
            && after.written()[k] == before.written()[k]
}

/// What `confirm_delivery_at` does: the oldest message of the queue of `id`
/// leaves it, and `at` becomes the time of its last write; the other queues
/// stay.
pub open spec fn delivery_outcome(
    before: MessageQueues,
    after: MessageQueues,
    id: Seq<char>,
    at: tokio::time::Instant,
) -> bool {
    &&& after.well_formed()
    &&& after.view() == if before.view().dom().contains(id) && before.view()[id].len() > 0 {
        before.view().insert(id, before.view()[id].drop_first())
    } else {
        before.view()
    }
    &&& after.written() == if before.view().dom().contains(id) {
        before.written().insert(id, at)
    } else {
        before.written()
    }
}

/// What `flush_at` does, given the ids of the connected channels and the
/// seconds since each queue's last write (in the order of `id_order`): the
/// queue with the `j`-th id stays exactly when it is neither idle too long
/// nor too long, a queue that stays is unchanged, and `out` holds the oldest
/// message of each queue that stays and whose channel is connected and has
/// messages, once each, in the order of the ids.
pub open spec fn flush_outcome(
    before: MessageQueues,
    after: MessageQueues,
    registered: Seq<Seq<char>>,
    idle: Seq<u64>,
    out: Seq<(Seq<char>, Seq<char>)>,
) -> bool {
    &&& after.well_formed()
    &&& forall|j: int|
        0 <= j < idle.len() ==> (after.view().dom().contains(#[trigger] before.id_order()[j]) <==> (
        idle[j] <= MAX_IDLE_SECONDS && before.view()[before.id_order()[j]].len() <= MAX_QUEUED))
    &&& forall|k: Seq<char>| #[trigger]
        after.view().dom().contains(k) ==> before.view().dom().contains(k) && after.view()[k]
            == before.view()[k] && after.written()[k] == before.written()[k]
    &&& forall|k: Seq<char>| #[trigger]
        after.view().dom().contains(k) ==> after.view()[k].len() <= MAX_QUEUED
    &&& forall|o: int|
        0 <= o < out.len() ==> {
            let id = (#[trigger] out[o]).0;
            &&& after.view().dom().contains(id)
            &&& registered.contains(id)
            &&& after.view()[id].len() > 0
            &&& out[o].1 == after.view()[id][0]
        }
    &&& forall|k: Seq<char>| #[trigger]
        after.view().dom().contains(k) && registered.contains(k) && after.view()[k].len() > 0
            ==> exists|o: int| 0 <= o < out.len() && (#[trigger] out[o]).0 == k
    &&& forall|o1: int, o2: int|
        0 <= o1 < o2 < out.len() ==> text_lt((#[trigger] out[o1]).0, (#[trigger] out[o2]).0)
}

/// What a flush does with one channel's queue.
pub enum FlushAction {
    /// Drop the whole queue.
    Drop,
    /// Send its oldest message.
    Send,
    /// Leave it as it is.
    Keep,
}

/// What a flush does with a queue of `queued` messages that was last written
/// `idle_seconds` ago, for a channel that is `registered` or not: a queue idle
/// for more than a minute, or longer than the limit, is dropped; otherwise a
/// registered channel with waiting messages gets the oldest one.
pub fn flush_action(idle_seconds: u64, queued: usize, registered: bool) -> (action: FlushAction)
    ensures
        action == if idle_seconds > MAX_IDLE_SECONDS {
            FlushAction::Drop
        } else if queued > MAX_QUEUED {
            FlushAction::Drop
        } else if registered && queued > 0 {
            FlushAction::Send
        } else {
            FlushAction::Keep
        },
{
    if idle_seconds > MAX_IDLE_SECONDS {
        FlushAction::Drop
    } else if queued > MAX_QUEUED {
        FlushAction::Drop
    } else if registered && queued > 0 {
        FlushAction::Send
    } else {
        FlushAction::Keep
    }
}

/// Where the server puts a command from its owner.
pub enum Route {
    /// Terminate the server.
    Stop,
    /// Send the message to the channel now; queue it if sending fails.
    Deliver(String, String),
    /// Queue the message until the channel connects.
    Hold(String, String),
    /// Drop the message: it names no channel.
    Discard,
}

/// Where the server puts `command`, given the ids of the connected channels.
pub fn route(command: ServerCommand, registered: &Vec<String>) -> (r: Route)
    ensures
        match command {
            ServerCommand::Terminate => r is Stop,
            ServerCommand::Message(None, _) => r is Discard,
            ServerCommand::Message(Some(target), msg) => if ids(registered@).contains(target@) {
                r matches Route::Deliver(t, m) && t@ == target@ && m@ == msg@
            } else {
                r matches Route::Hold(t, m) && t@ == target@ && m@ == msg@
            },
        },
{
    match command {
        ServerCommand::Terminate => Route::Stop,
        ServerCommand::Message(None, _) => Route::Discard,
        ServerCommand::Message(Some(target), msg) => {
            if is_registered(registered, &target) {
                Route::Deliver(target, msg)
            } else {
                Route::Hold(target, msg)
            }
        },
    }
}

/// One call on the queues, as the server's dispatch makes them.
pub enum QueueStep {
    /// `flush_at` (or `flush`, with the clock's readings), given the ids of
    /// the connected channels and the idle readings, returning the picks.
    Flush { registered: Seq<Seq<char>>, idle: Seq<u64>, out: Seq<(Seq<char>, Seq<char>)> },
    /// `confirm_delivery_at` of the channel `delivered` at `at`.
    Confirm { delivered: Seq<char>, at: tokio::time::Instant },
    /// `queue_message` of `message` for the channel `target`.
    Queue { target: Seq<char>, message: Seq<char> },
}

/// `after` is what the call `step` makes of `before`, by its contract.
pub open spec fn step_outcome(before: MessageQueues, after: MessageQueues, step: QueueStep) -> bool {
    &&& before.well_formed()
    &&& match step {
        QueueStep::Flush { registered, idle, out } => idle.len() == before.id_order().len()
            && flush_outcome(before, after, registered, idle, out),
        QueueStep::Confirm { delivered, at } => delivery_outcome(before, after, delivered, at),
        QueueStep::Queue { target, message } => queue_outcome(before, after, target, message),
    }
}

/// `states` are the queues before and after each call of `steps`.
pub open spec fn is_run(states: Seq<MessageQueues>, steps: Seq<QueueStep>) -> bool {
    &&& states.len() == steps.len() + 1
    &&& forall|j: int| 0 <= j < steps.len() ==> step_outcome(states[j], #[trigger] states[j + 1], steps[j])
}

/// Each call of a run takes its state to the next.
proof fn lemma_run_step(states: Seq<MessageQueues>, steps: Seq<QueueStep>, j: int)
    requires
        is_run(states, steps),
        0 <= j < steps.len(),
    ensures
        step_outcome(states[j], states[j + 1], steps[j]),
{
    assert(step_outcome(states[j], states[j + 1], steps[j]));
}

/// The idle reading a flush had for `t` was within the limit.
pub open spec fn fresh_in(q: MessageQueues, idle: Seq<u64>, t: Seq<char>) -> bool {
    forall|i: int| 0 <= i < idle.len() && q.id_order()[i] == t ==> idle[i] <= MAX_IDLE_SECONDS
}

/// `step` is a flush while `t` is connected and its queue's idle reading is
/// within the limit.
pub open spec fn flush_while_connected(step: QueueStep, q: MessageQueues, t: Seq<char>) -> bool {
    step matches QueueStep::Flush { registered, idle, out } && registered.contains(t) && fresh_in(q, idle, t)
}

/// `step` confirms a delivery to `t`.
pub open spec fn confirms(step: QueueStep, t: Seq<char>) -> bool {
    step matches QueueStep::Confirm { delivered, at } && delivered == t
}

/// `out` holds `(t, m)` exactly once, and no other pick for `t`.
pub open spec fn picked_once(out: Seq<(Seq<char>, Seq<char>)>, t: Seq<char>, m: Seq<char>) -> bool {
    exists|o: int|
        0 <= o < out.len() && out[o] == (t, m) && forall|o2: int|
            0 <= o2 < out.len() && (#[trigger] out[o2]).0 == t ==> o2 == o
}

/// One pass for a connected channel whose queue is fresh and within the
/// limit, followed by a confirmed delivery: the oldest message is picked,
/// once, and then leaves the queue, and the delivery time is recorded.
proof fn lemma_one_delivery(
    s0: MessageQueues,
    s1: MessageQueues,
    s2: MessageQueues,
    flush: QueueStep,
    confirm: QueueStep,
    t: Seq<char>,
)
    requires
        step_outcome(s0, s1, flush),
        step_outcome(s1, s2, confirm),
        flush_while_connected(flush, s0, t),
        confirms(confirm, t),
        s0.view().dom().contains(t),
        0 < s0.view()[t].len() <= MAX_QUEUED,
    ensures
        picked_once(flush->out, t, s0.view()[t][0]),
        s2.view().dom().contains(t),
        s2.view()[t] == s0.view()[t].drop_first(),
        s2.written()[t] == confirm->at,
{
    s0.lemma_shape();
    let idle = flush->idle;
    let out = flush->out;
    let i = choose|i: int| 0 <= i < s0.id_order().len() && s0.id_order()[i] == t;
    assert(idle[i] <= MAX_IDLE_SECONDS);
    assert(s1.view().dom().contains(s0.id_order()[i]));
    assert(s1.view()[t] == s0.view()[t]);
    let o = choose|o: int| 0 <= o < out.len() && (#[trigger] out[o]).0 == t;
    assert(out[o] == (t, s0.view()[t][0]));
    assert forall|o2: int| 0 <= o2 < out.len() && (#[trigger] out[o2]).0 == t implies o2 == o by {
        lemma_text_lt_irreflexive(t);
        if o2 < o {
            assert(text_lt(out[o2].0, out[o].0));
        } else if o < o2 {
            assert(text_lt(out[o].0, out[o2].0));
        }
    }
}

/// The queue of `t` after `j` passes of a run of flushes and confirmed
/// deliveries to `t`.
proof fn lemma_drain_prefix(
    states: Seq<MessageQueues>,
    steps: Seq<QueueStep>,
    t: Seq<char>,
    q: Seq<Seq<char>>,
    k: int,
    j: int,
)
    requires
        is_run(states, steps),
        steps.len() == 2 * k,
        0 <= j <= k <= q.len(),
        q.len() <= MAX_QUEUED,
        states[0].view().dom().contains(t),
        states[0].view()[t] == q,
        forall|n: int|
            0 <= n < k ==> flush_while_connected(#[trigger] steps[2 * n], states[2 * n], t),
        forall|n: int|
            0 <= n < k ==> confirms(#[trigger] steps[2 * n + 1], t),
    ensures
        states[2 * j].view().dom().contains(t),
        states[2 * j].view()[t] == q.skip(j),
    decreases j,
{
    if j == 0 {
        assert(q.skip(0) =~= q);
    } else {
        lemma_drain_prefix(states, steps, t, q, k, j - 1);
        let n = j - 1;
        assert(steps[2 * n] is Flush);
        assert(steps[2 * n + 1] is Confirm);
        lemma_run_step(states, steps, 2 * n);
        lemma_run_step(states, steps, 2 * n + 1);
        assert(states[2 * n + 1 + 1] == states[2 * n + 2]);
        lemma_one_delivery(
            states[2 * n],
            states[2 * n + 1],
            states[2 * n + 2],
            steps[2 * n],
            steps[2 * n + 1],
            t,
        );
        assert(q.skip(n).drop_first() =~= q.skip(j));
    }
}

/// A connected channel whose queue holds `q`, within the limit, gets its
/// messages in order: over passes that each flush while the channel is
/// connected and its queue fresh, and then confirm the delivery of the
/// channel's pick, pass `n` picks `q[n]` for it, once, and the message leaves
/// the queue only at the confirmation that follows, which records the time of
/// the write. After `k` passes the queue holds the rest of `q`.
pub proof fn lemma_delivery_in_order(
    states: Seq<MessageQueues>,
    steps: Seq<QueueStep>,
    t: Seq<char>,
    q: Seq<Seq<char>>,
    k: int,
)
    requires
        is_run(states, steps),
        steps.len() == 2 * k,
        0 <= k <= q.len(),
        q.len() <= MAX_QUEUED,
        states[0].view().dom().contains(t),
        states[0].view()[t] == q,
        forall|n: int|
            0 <= n < k ==> flush_while_connected(#[trigger] steps[2 * n], states[2 * n], t),
        forall|n: int|
            0 <= n < k ==> confirms(#[trigger] steps[2 * n + 1], t),
    ensures
        forall|n: int|
            0 <= n < k ==> {
                &&& picked_once((#[trigger] steps[2 * n])->out, t, q[n])
                &&& states[2 * n + 1].view()[t] == q.skip(n)
                &&& states[2 * n + 2].view()[t] == q.skip(n + 1)
                &&& states[2 * n + 2].written()[t] == steps[2 * n + 1]->at
            },
        states[2 * k].view().dom().contains(t),
        states[2 * k].view()[t] == q.skip(k),
{
    lemma_drain_prefix(states, steps, t, q, k, k);
    assert forall|n: int| 0 <= n < k implies {
        &&& picked_once((#[trigger] steps[2 * n])->out, t, q[n])
        &&& states[2 * n + 1].view()[t] == q.skip(n)
        &&& states[2 * n + 2].view()[t] == q.skip(n + 1)
        &&& states[2 * n + 2].written()[t] == steps[2 * n + 1]->at
    } by {
        lemma_drain_prefix(states, steps, t, q, k, n);
        assert(steps[2 * n + 1] is Confirm);
        lemma_run_step(states, steps, 2 * n);
        lemma_run_step(states, steps, 2 * n + 1);
        assert(states[2 * n + 1 + 1] == states[2 * n + 2]);
        lemma_one_delivery(
            states[2 * n],
            states[2 * n + 1],
            states[2 * n + 2],
            steps[2 * n],
            steps[2 * n + 1],
            t,
        );
        assert(q.skip(n)[0] == q[n]);
        assert(q.skip(n).drop_first() =~= q.skip(n + 1));
        let s0 = states[2 * n];
        s0.lemma_shape();
        let i = choose|i: int| 0 <= i < s0.id_order().len() && s0.id_order()[i] == t;
        assert(states[2 * n + 1].view().dom().contains(s0.id_order()[i]));
    }
}

/// The messages queued for `t` by the calls `steps[from]` to
/// `steps[to - 1]`.
pub open spec fn queued_between(steps: Seq<QueueStep>, from: int, to: int, t: Seq<char>) -> Set<Seq<char>>
    decreases to - from,
{
    if to <= from {
        Set::empty()
    } else {
        queued_between(steps, from, to - 1, t) + match steps[to - 1] {
            QueueStep::Queue { target, message } => if target == t {
                set![message]
            } else {
                Set::empty()
            },
            _ => Set::empty(),
        }
    }
}

/// Each call keeps the messages of `t`'s queue among those queued since
/// `from`, and a flush picks for `t` only such a message.
proof fn lemma_step_since(
    before: MessageQueues,
    after: MessageQueues,
    steps: Seq<QueueStep>,
    from: int,
    j: int,
    t: Seq<char>,
)
    requires
        from <= j < steps.len(),
        step_outcome(before, after, steps[j]),
        before.view().dom().contains(t) ==> forall|i: int|
            0 <= i < before.view()[t].len() ==> queued_between(steps, from, j, t).contains(
                #[trigger] before.view()[t][i],
            ),
    ensures
        after.view().dom().contains(t) ==> forall|i: int|
            0 <= i < after.view()[t].len() ==> queued_between(steps, from, j + 1, t).contains(
                #[trigger] after.view()[t][i],
            ),
        steps[j] matches QueueStep::Flush { registered, idle, out } ==> forall|o: int|
            0 <= o < out.len() && (#[trigger] out[o]).0 == t ==> queued_between(
                steps,
                from,
                j,
                t,
            ).contains(out[o].1),
{
    let s_old = queued_between(steps, from, j, t);
    let s_new = queued_between(steps, from, j + 1, t);
    assert(s_old.subset_of(s_new));
    match steps[j] {
        QueueStep::Flush { registered, idle, out } => {
            assert forall|o: int| 0 <= o < out.len() && (#[trigger] out[o]).0 == t implies s_old.contains(
                out[o].1,
            ) by {
                assert(after.view()[t][0] == before.view()[t][0]);
            }
        },
        QueueStep::Confirm { delivered, at } => {
            if after.view().dom().contains(t) {
                if delivered == t && before.view().dom().contains(t) && before.view()[t].len() > 0 {
                    assert forall|i: int| 0 <= i < after.view()[t].len() implies s_new.contains(
                        #[trigger] after.view()[t][i],
                    ) by {
                        assert(after.view()[t][i] == before.view()[t][i + 1]);
                    }
                }
            }
        },
        QueueStep::Queue { target, message } => {
            if after.view().dom().contains(t) && target == t {
                assert(s_new.contains(message));
                if before.view().dom().contains(t) {
                    assert forall|i: int| 0 <= i < after.view()[t].len() implies s_new.contains(
                        #[trigger] after.view()[t][i],
                    ) by {
                        if i < before.view()[t].len() {
                            assert(after.view()[t][i] == before.view()[t][i]);
                        }
                    }
                } else {
                    assert forall|i: int| 0 <= i < after.view()[t].len() implies s_new.contains(
                        #[trigger] after.view()[t][i],
                    ) by {
                        assert(after.view()[t][i] == message);
                    }
                }
            }
        },
    }
}

/// The queue of `t` at `states[j]`, for `j` after the drop at `d`, holds
/// only messages queued after it.
proof fn lemma_since_drop(
    states: Seq<MessageQueues>,
    steps: Seq<QueueStep>,
    t: Seq<char>,
    d: int,
    j: int,
)
    requires
        is_run(states, steps),
        0 <= d < j <= steps.len(),
        !states[d + 1].view().dom().contains(t),
    ensures
        states[j].view().dom().contains(t) ==> forall|i: int|
            0 <= i < states[j].view()[t].len() ==> queued_between(steps, d + 1, j, t).contains(
                #[trigger] states[j].view()[t][i],
            ),
    decreases j,
{
    if j > d + 1 {
        lemma_since_drop(states, steps, t, d, j - 1);
        lemma_run_step(states, steps, j - 1);
        assert(states[j - 1 + 1] == states[j]);
        lemma_step_since(states[j - 1], states[j], steps, d + 1, j - 1, t);
    }
}

/// A queue that a flush drops, for being idle too long or too long itself,
/// is gone after it, and none of its messages is delivered then or later:
/// whatever the channel's queue holds and gets picked afterwards was queued
/// after the drop.
pub proof fn lemma_dropped_queue_is_gone(
    states: Seq<MessageQueues>,
    steps: Seq<QueueStep>,
    t: Seq<char>,
    d: int,
)
    requires
        is_run(states, steps),
        0 <= d < steps.len(),
        states[d].view().dom().contains(t),
        steps[d] is Flush,
        !fresh_in(states[d], steps[d]->idle, t) || states[d].view()[t].len() > MAX_QUEUED,
    ensures
        !states[d + 1].view().dom().contains(t),
        forall|o: int| 0 <= o < steps[d]->out.len() ==> (#[trigger] steps[d]->out[o]).0 != t,
        forall|j: int|
            d < j <= steps.len() && (#[trigger] states[j]).view().dom().contains(t) ==> forall|i: int|
                0 <= i < states[j].view()[t].len() ==> queued_between(steps, d + 1, j, t).contains(
                    #[trigger] states[j].view()[t][i],
                ),
        forall|j: int, o: int|
            d < j < steps.len() && (#[trigger] steps[j]) is Flush && 0 <= o < steps[j]->out.len() && (
            #[trigger] steps[j]->out[o]).0 == t ==> queued_between(steps, d + 1, j, t).contains(
                steps[j]->out[o].1,
            ),
{
    lemma_run_step(states, steps, d);
    states[d].lemma_shape();
    let i = choose|i: int| 0 <= i < states[d].id_order().len() && states[d].id_order()[i] == t;
    let idle = steps[d]->idle;
    if !fresh_in(states[d], idle, t) {
        let i2 = choose|i2: int|
            0 <= i2 < idle.len() && states[d].id_order()[i2] == t && !(idle[i2] <= MAX_IDLE_SECONDS);
        assert(!states[d + 1].view().dom().contains(states[d].id_order()[i2]));
    } else {
        assert(!states[d + 1].view().dom().contains(states[d].id_order()[i]));
    }
    assert forall|o: int| 0 <= o < steps[d]->out.len() implies (#[trigger] steps[d]->out[o]).0 != t by {
        let out = steps[d]->out;
        if out[o].0 == t {
            assert(states[d + 1].view().dom().contains(out[o].0));
        }
    }
    assert forall|j: int|
        d < j <= steps.len() && (#[trigger] states[j]).view().dom().contains(t) implies forall|i: int|
        0 <= i < states[j].view()[t].len() ==> queued_between(steps, d + 1, j, t).contains(
            #[trigger] states[j].view()[t][i],
        ) by {
        lemma_since_drop(states, steps, t, d, j);
    }
    assert forall|j: int, o: int|
        d < j < steps.len() && (#[trigger] steps[j]) is Flush && 0 <= o < steps[j]->out.len() && (
        #[trigger] steps[j]->out[o]).0 == t implies queued_between(steps, d + 1, j, t).contains(
        steps[j]->out[o].1,
    ) by {
        lemma_since_drop(states, steps, t, d, j);
        lemma_run_step(states, steps, j);
        lemma_step_since(states[j], states[j + 1], steps, d + 1, j, t);
    }
}

} // verus!
