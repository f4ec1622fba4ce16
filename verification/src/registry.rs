use vstd::prelude::*;

use crate::dispatch::{
    ids, lemma_pairs_insert, lemma_pairs_map_at, lemma_pairs_map_dom, lemma_pairs_map_is,
    lemma_pairs_update, lemma_sorted_distinct, lemma_text_lt_total, lemma_text_lt_transitive,
    pairs_map, sorted_ids, text_less, text_lt, Keyed,
};

verus! {

/// The ids of a sequence of entries, each with its value.
pub open spec fn keyed_of<S>(entries: Seq<(String, S)>) -> Keyed<S> {
    entries.map_values(|e: (String, S)| (e.0@, e.1))
}

/// Removing one pair takes its id out of the map.
proof fn lemma_pairs_remove<V>(p: Keyed<V>, i: int)
    requires
        sorted_ids(p),
        0 <= i < p.len(),
    ensures
        sorted_ids(p.remove(i)),
        pairs_map(p.remove(i)) == pairs_map(p).remove(p[i].0),
{
    let q = p.remove(i);
    let k = p[i].0;
    assert forall|x: int, y: int| 0 <= x < y < q.len() implies text_lt(
        #[trigger] q[x].0,
        #[trigger] q[y].0,
    ) by {
        if y < i {
            assert(q[x] == p[x] && q[y] == p[y]);
        } else if x < i {
            assert(q[x] == p[x] && q[y] == p[y + 1]);
        } else {
            assert(q[x] == p[x + 1] && q[y] == p[y + 1]);
        }
    }
    lemma_sorted_distinct(p);
    lemma_sorted_distinct(q);
    let target = pairs_map(p).remove(k);
    assert forall|a: Seq<char>| #[trigger] target.dom().contains(a) <==> exists|j: int|
        0 <= j < q.len() && q[j].0 == a by {
        lemma_pairs_map_dom(p, a);
        if exists|j: int| 0 <= j < q.len() && q[j].0 == a {
            let j = choose|j: int| 0 <= j < q.len() && q[j].0 == a;
            if j < i {
                assert(p[j].0 == a);
            } else {
                assert(p[j + 1].0 == a);
            }
        }
        if target.dom().contains(a) {
            let j = choose|j: int| 0 <= j < p.len() && p[j].0 == a;
            assert(j != i);
            if j < i {
                assert(q[j].0 == a);
            } else {
                assert(q[j - 1].0 == a);
            }
        }
    }
    assert forall|j: int| 0 <= j < q.len() implies #[trigger] target[q[j].0] == q[j].1 by {
        if j < i {
            lemma_pairs_map_at(p, j);
        } else {
            lemma_pairs_map_at(p, j + 1);
        }
    }
    lemma_pairs_map_is(q, target);
}

/// The connected channels of a server: for each channel id, what reaches
/// the channel's connection (its sender), kept in the order of the ids.
pub struct SocketRegistry<S> {
    entries: Vec<(String, S)>,
}

impl<S> SocketRegistry<S> {
    /// The ids and senders of the entries, in order.
    closed spec fn keyed(&self) -> Keyed<S> {
        keyed_of(self.entries@)
    }

    /// No id has two entries; the ids come in order.
    pub closed spec fn well_formed(&self) -> bool {
        sorted_ids(self.keyed())
    }

    /// The sender of each connected channel id.
    pub closed spec fn view(&self) -> Map<Seq<char>, S> {
        pairs_map(self.keyed())
    }

    /// No channel connected.
    pub fn new() -> (registry: SocketRegistry<S>)
        ensures
            registry.well_formed(),
            registry.view() == Map::<Seq<char>, S>::empty(),
    {
        let registry = SocketRegistry { entries: Vec::new() };
        assert(registry.keyed() =~= Seq::<(Seq<char>, S)>::empty());
        registry
    }

    /// The index of the entry for `id`, if any.
    fn find(&self, id: &String) -> (found: Option<usize>)
        ensures
            match found {
                Some(i) => i < self.keyed().len() && self.keyed()[i as int].0 == id@,
                None => forall|i: int| 0 <= i < self.keyed().len() ==> self.keyed()[i].0 != id@,
            },
    {
        let mut i: usize = 0;
        while i < self.entries.len()
            invariant
                i <= self.entries@.len(),
                forall|j: int| 0 <= j < i ==> self.keyed()[j].0 != id@,
            decreases self.entries@.len() - i,
        {
            if self.entries[i].0.eq(id) {
                return Some(i);
            }
            i += 1;
        }
        None
    }

    /// Where an entry for `id`, which has none, goes to keep the ids in
    /// order.
    fn insert_position(&self, id: &String) -> (pos: usize)
        requires
            self.well_formed(),
            forall|i: int| 0 <= i < self.keyed().len() ==> self.keyed()[i].0 != id@,
        ensures
            pos <= self.keyed().len(),
            forall|j: int| 0 <= j < pos ==> text_lt(#[trigger] self.keyed()[j].0, id@),
            forall|j: int| pos <= j < self.keyed().len() ==> text_lt(id@, #[trigger] self.keyed()[j].0),
    {
        let ghost p = self.keyed();
        let mut i: usize = 0;
        while i < self.entries.len() && text_less(&self.entries[i].0, id)
            invariant
                p == self.keyed(),
                i <= p.len(),
                forall|j: int| 0 <= j < i ==> text_lt(#[trigger] p[j].0, id@),
            decreases p.len() - i,
        {
            i += 1;
        }
        proof {
            if i < p.len() {
                lemma_text_lt_total(p[i as int].0, id@);
                assert forall|j: int| i <= j < p.len() implies text_lt(id@, #[trigger] p[j].0) by {
                    if j > i {
                        lemma_text_lt_transitive(id@, p[i as int].0, p[j].0);
                    }
                }
            }
        }
        i
    }

    /// A connection reported on `channel_id`: with a sender, the channel is
    /// connected through it (in place of any earlier one); without, it is
    /// no longer connected.
    pub fn register(&mut self, channel_id: String, sender: Option<S>)
        requires
            old(self).well_formed(),
        ensures
            final(self).well_formed(),
            final(self).view() == match sender {
                Some(s) => old(self).view().insert(channel_id@, s),
                None => old(self).view().remove(channel_id@),
            },
    {
        let ghost p = self.keyed();
        let ghost k = channel_id@;
        proof {
            lemma_sorted_distinct(p);
            lemma_pairs_map_dom(p, k);
        }
        match self.find(&channel_id) {
            Some(i) => {
                match sender {
                    Some(s) => {
                        let ghost sv = s;
                        let (id, _old) = self.entries.remove(i);
                        self.entries.insert(i, (id, s));
                        proof {
                            lemma_pairs_update(p, i as int, sv);
                            assert(self.keyed() =~= p.update(i as int, (k, sv)));
                        }
                    },
                    None => {
                        self.entries.remove(i);
                        proof {
                            lemma_pairs_remove(p, i as int);
                            assert(self.keyed() =~= p.remove(i as int));
                        }
                    },
                }
            },
            None => {
                match sender {
                    Some(s) => {
                        let ghost sv = s;
                        let pos = self.insert_position(&channel_id);
                        self.entries.insert(pos, (channel_id, s));
                        proof {
                            lemma_pairs_insert(p, pos as int, k, sv);
                            assert(self.keyed() =~= p.insert(pos as int, (k, sv)));
                        }
                    },
                    None => {
                        proof {
                            assert(pairs_map(p).remove(k) =~= pairs_map(p));
                        }
                    },
                }
            },
        }
    }

    /// The sender of the channel `channel_id`, if it is connected.
    pub fn get(&self, channel_id: &String) -> (sender: Option<&S>)
        requires
            self.well_formed(),
        ensures
            match sender {
                Some(s) => self.view().dom().contains(channel_id@) && *s == self.view()[channel_id@],
                None => !self.view().dom().contains(channel_id@),
            },
    {
        let ghost p = self.keyed();
        proof {
            lemma_sorted_distinct(p);
            lemma_pairs_map_dom(p, channel_id@);
        }
        match self.find(channel_id) {
            Some(i) => {
                proof {
                    lemma_pairs_map_at(p, i as int);
                }
                Some(&self.entries[i].1)
            },
            None => None,
        }
    }

    /// The ids of the connected channels, in order.
    pub fn channel_ids(&self) -> (order: Vec<String>)
        requires
            self.well_formed(),
        ensures
            forall|k: Seq<char>| #[trigger] ids(order@).contains(k) <==> self.view().dom().contains(k),
    {
        let ghost p = self.keyed();
        let mut order: Vec<String> = Vec::new();
        let mut i: usize = 0;
        while i < self.entries.len()
            invariant
                p == self.keyed(),
                i <= p.len(),
                ids(order@) == p.take(i as int).map_values(|e: (Seq<char>, S)| e.0),
            decreases p.len() - i,
        {
            let ghost before = order@;
            order.push(self.entries[i].0.clone());
            proof {
                assert(p[i as int].0 == self.entries@[i as int].0@);
                assert(ids(order@) =~= p.take(i + 1).map_values(|e: (Seq<char>, S)| e.0)) by {
                    assert(ids(before).len() == i);
                    assert forall|j: int| 0 <= j < i + 1 implies #[trigger] ids(order@)[j]
                        == p.take(i + 1).map_values(|e: (Seq<char>, S)| e.0)[j] by {
                        if j < i {
                            assert(ids(order@)[j] == ids(before)[j]);
                        }
                    }
                }
            }
            i += 1;
        }
        proof {
            assert(p.take(i as int) =~= p);
            assert forall|k: Seq<char>| #[trigger] ids(order@).contains(k) <==> self.view().dom().contains(
                k,
            ) by {
                lemma_pairs_map_dom(p, k);
                if ids(order@).contains(k) {
                    let j = choose|j: int| 0 <= j < ids(order@).len() && ids(order@)[j] == k;
                    assert(p[j].0 == k);
                }
                if exists|j: int| 0 <= j < p.len() && p[j].0 == k {
                    let j = choose|j: int| 0 <= j < p.len() && p[j].0 == k;
                    assert(ids(order@)[j] == k);
                }
            }
        }
        order
    }
}

} // verus!
