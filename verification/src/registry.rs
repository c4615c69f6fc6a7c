//! The registry watcher's membership cache and its diff engine: raw
//! Put/Delete batches from the registry become Change events that carry
//! the full snapshot and the exact added/updated/removed partition.
use vstd::prelude::*;
use crate::addr::Address;
use crate::addr::spec_parse_address;
use crate::addr::parse_address;

verus! {

/// Mathematical value of an `Instance`.
pub ghost struct InstanceView {
    pub address: Address,
    pub weight: u32,
    pub tags: Seq<(Seq<char>, Seq<char>)>,
}

/// A routable backend endpoint plus metadata.
#[derive(Clone)]
pub struct Instance {
    pub address: Address,
    pub weight: u32,
    pub tags: Vec<(String, String)>,
}

impl View for Instance {
    type V = InstanceView;

    open spec fn view(&self) -> InstanceView {
        InstanceView {
            address: self.address,
            weight: self.weight,
            tags: Seq::new(self.tags@.len(), |i: int| (self.tags@[i].0@, self.tags@[i].1@)),
        }
    }
}

/// Mathematical value of an `Entry`.
pub ghost struct EntryView {
    pub key: Seq<char>,
    pub instance: InstanceView,
}

/// One member of a snapshot: the registry's raw key and its instance.
pub struct Entry {
    pub key: String,
    pub instance: Instance,
}

impl View for Entry {
    type V = EntryView;

    open spec fn view(&self) -> EntryView {
        EntryView { key: self.key@, instance: self.instance@ }
    }
}

#[derive(Clone, Copy, PartialEq, Eq, Structural, Debug)]
pub enum EventKind {
    Put,
    Delete,
}

/// One raw change-stream record: a Put or Delete of a registry key.
pub struct RegistryEvent {
    pub kind: EventKind,
    pub key: String,
    pub value: Vec<u8>,
}

/// One raw enumeration record: a registry key and its value bytes.
pub struct RawKv {
    pub key: String,
    pub value: Vec<u8>,
}

/// A batch-level membership delta plus the full snapshot after it.
pub struct Change {
    pub service_key: String,
    pub all: Vec<Entry>,
    pub added: Vec<Entry>,
    pub updated: Vec<Entry>,
    pub removed: Vec<Entry>,
}

/// The instance a registry value denotes: its parsed address with unit
/// weight and no tags; `None` when the value is not a well-formed
/// address under the IPv4 grammar of `spec_parse_address` (any other
/// endpoint form is treated as malformed and its key dropped).
pub open spec fn spec_instance_of(v: Seq<u8>) -> Option<InstanceView> {
    match spec_parse_address(v) {
        None => None,
        Some(a) => Some(InstanceView { address: a, weight: 1u32, tags: Seq::empty() }),
    }
}

pub open spec fn views_of(es: Seq<Entry>) -> Seq<EntryView> {
    Seq::new(es.len(), |i: int| es[i]@)
}

pub open spec fn keys_unique(vs: Seq<EntryView>) -> bool {
    forall|i: int, j: int| 0 <= i < j < vs.len() ==> (#[trigger] vs[i]).key != (#[trigger] vs[j]).key
}

/// The mapping an entry list denotes; a later entry for a key wins.
pub open spec fn entries_map(vs: Seq<EntryView>) -> Map<Seq<char>, InstanceView>
    decreases vs.len(),
{
    if vs.len() == 0 {
        Map::empty()
    } else {
        entries_map(vs.drop_last()).insert(vs.last().key, vs.last().instance)
    }
}

/// Outcome of folding one batch over the cache: the new cache and the
/// accumulated delta lists, in classification order.
pub ghost struct BatchOutcome {
    pub cache: Map<Seq<char>, InstanceView>,
    pub added: Seq<EntryView>,
    pub updated: Seq<EntryView>,
    pub removed: Seq<EntryView>,
}

/// Classify the events of one batch, in order, against the cache:
/// a Delete of an absent key is ignored; a Delete of a present key
/// removes it; a Put whose value does not parse is dropped; a Put of an
/// absent key inserts it; a Put of a present key replaces its instance.
pub open spec fn batch_outcome(m: Map<Seq<char>, InstanceView>, evs: Seq<RegistryEvent>) -> BatchOutcome
    decreases evs.len(),
{
    if evs.len() == 0 {
        BatchOutcome { cache: m, added: Seq::empty(), updated: Seq::empty(), removed: Seq::empty() }
    } else {
        let o = batch_outcome(m, evs.drop_last());
        let ev = evs.last();
        match ev.kind {
            EventKind::Delete => if o.cache.contains_key(ev.key@) {
                BatchOutcome {
                    cache: o.cache.remove(ev.key@),
                    added: o.added,
                    updated: o.updated,
                    removed: o.removed.push(EntryView { key: ev.key@, instance: o.cache[ev.key@] }),
                }
            } else {
                o
            },
            EventKind::Put => match spec_instance_of(ev.value@) {
                None => o,
                Some(iv) => if o.cache.contains_key(ev.key@) {
                    BatchOutcome {
                        cache: o.cache.insert(ev.key@, iv),
                        added: o.added,
                        updated: o.updated.push(EntryView { key: ev.key@, instance: iv }),
                        removed: o.removed,
                    }
                } else {
                    BatchOutcome {
                        cache: o.cache.insert(ev.key@, iv),
                        added: o.added.push(EntryView { key: ev.key@, instance: iv }),
                        updated: o.updated,
                        removed: o.removed,
                    }
                },
            },
        }
    }
}

/// The mapping a one-shot enumeration denotes: unparseable values are
/// dropped, and a later record for a key wins.
pub open spec fn enum_map(s: Seq<RawKv>) -> Map<Seq<char>, InstanceView>
    decreases s.len(),
{
    if s.len() == 0 {
        Map::empty()
    } else {
        let m = enum_map(s.drop_last());
        match spec_instance_of(s.last().value@) {
            None => m,
            Some(iv) => m.insert(s.last().key@, iv),
        }
    }
}

/// The instance list a one-shot enumeration denotes, in record order.
pub open spec fn enum_list(s: Seq<RawKv>) -> Seq<InstanceView>
    decreases s.len(),
{
    if s.len() == 0 {
        Seq::empty()
    } else {
        let l = enum_list(s.drop_last());
        match spec_instance_of(s.last().value@) {
            None => l,
            Some(iv) => l.push(iv),
        }
    }
}

/// Some entry in the list carries this key.
pub open spec fn key_in(es: Seq<EntryView>, k: Seq<char>) -> bool {
    exists|i: int| 0 <= i < es.len() && (#[trigger] es[i]).key == k
}

/// Some event in the batch touches this key.
pub open spec fn event_key_in(evs: Seq<RegistryEvent>, k: Seq<char>) -> bool {
    exists|i: int| 0 <= i < evs.len() && (#[trigger] evs[i]).key@ == k
}

/// No two events of the batch touch the same key.
pub open spec fn distinct_event_keys(evs: Seq<RegistryEvent>) -> bool {
    forall|i: int, j: int|
        0 <= i < j < evs.len() ==> (#[trigger] evs[i]).key@ != (#[trigger] evs[j]).key@
}

proof fn lemma_entries_map_contains(vs: Seq<EntryView>, k: Seq<char>)
    ensures
        entries_map(vs).contains_key(k) <==> exists|i: int|
            0 <= i < vs.len() && (#[trigger] vs[i]).key == k,
    decreases vs.len(),
{
    if vs.len() > 0 {
        lemma_entries_map_contains(vs.drop_last(), k);
        if vs.last().key == k {
            assert(vs[vs.len() - 1].key == k);
        } else if entries_map(vs).contains_key(k) {
            let i = choose|i: int| 0 <= i < vs.drop_last().len() && (#[trigger] vs.drop_last()[i]).key == k;
            assert(vs[i].key == k);
        } else {
            assert(forall|i: int| 0 <= i < vs.len() - 1 ==> (#[trigger] vs[i]).key == vs.drop_last()[i].key);
        }
    }
}

proof fn lemma_entries_map_index(vs: Seq<EntryView>, i: int)
    requires
        keys_unique(vs),
        0 <= i < vs.len(),
    ensures
        entries_map(vs).contains_key(vs[i].key),
        entries_map(vs)[vs[i].key] == vs[i].instance,
    decreases vs.len(),
{
    if i < vs.len() - 1 {
        assert(forall|a: int, b: int|
            0 <= a < b < vs.len() - 1 ==> (#[trigger] vs.drop_last()[a]).key != (
            #[trigger] vs.drop_last()[b]).key);
        lemma_entries_map_index(vs.drop_last(), i);
        assert(vs[i].key != vs.last().key);
    }
}

proof fn lemma_entries_map_remove(vs: Seq<EntryView>, i: int)
    requires
        keys_unique(vs),
        0 <= i < vs.len(),
    ensures
        entries_map(vs.remove(i)) =~= entries_map(vs).remove(vs[i].key),
    decreases vs.len(),
{
    lemma_entries_map_contains(vs, vs[i].key);
    if i == vs.len() - 1 {
        assert(vs.remove(i) =~= vs.drop_last());
        lemma_entries_map_contains(vs.drop_last(), vs[i].key);
        assert(forall|a: int| 0 <= a < vs.len() - 1 ==> (#[trigger] vs.drop_last()[a]).key == vs[a].key);
        assert(!entries_map(vs.drop_last()).contains_key(vs[i].key));
    } else {
        assert(forall|a: int, b: int|
            0 <= a < b < vs.len() - 1 ==> (#[trigger] vs.drop_last()[a]).key != (
            #[trigger] vs.drop_last()[b]).key);
        lemma_entries_map_remove(vs.drop_last(), i);
        assert(vs.remove(i).drop_last() =~= vs.drop_last().remove(i));
        assert(vs.remove(i).last() == vs.last());
        assert(vs[i].key != vs.last().key);
    }
}

proof fn lemma_entries_map_update(vs: Seq<EntryView>, i: int, e: EntryView)
    requires
        keys_unique(vs),
        0 <= i < vs.len(),
        e.key == vs[i].key,
    ensures
        entries_map(vs.update(i, e)) =~= entries_map(vs).insert(e.key, e.instance),
    decreases vs.len(),
{
    if i == vs.len() - 1 {
        assert(vs.update(i, e).drop_last() =~= vs.drop_last());
        assert(vs.update(i, e).last() == e);
    } else {
        assert(forall|a: int, b: int|
            0 <= a < b < vs.len() - 1 ==> (#[trigger] vs.drop_last()[a]).key != (
            #[trigger] vs.drop_last()[b]).key);
        lemma_entries_map_update(vs.drop_last(), i, e);
        assert(vs.update(i, e).drop_last() =~= vs.drop_last().update(i, e));
        assert(vs.update(i, e).last() == vs.last());
        assert(vs[i].key != vs.last().key);
    }
}

/// Copy a tag list; the copy denotes the same tag sequence.
fn clone_tags(tags: &Vec<(String, String)>) -> (r: Vec<(String, String)>)
    ensures
        r@.len() == tags@.len(),
        forall|i: int|
            0 <= i < tags@.len() ==> (#[trigger] r@[i]).0@ == tags@[i].0@ && r@[i].1@ == tags@[i].1@,
{
    let mut r: Vec<(String, String)> = Vec::new();
    let mut i: usize = 0;
    while i < tags.len()
        invariant
            i <= tags@.len(),
            r@.len() == i,
            forall|j: int|
                0 <= j < i ==> (#[trigger] r@[j]).0@ == tags@[j].0@ && r@[j].1@ == tags@[j].1@,
        decreases tags@.len() - i,
    {
        let pair = &tags[i];
        r.push((pair.0.clone(), pair.1.clone()));
        i += 1;
    }
    r
}

/// Copy an instance; the copy denotes the same `InstanceView`.
pub fn clone_instance(x: &Instance) -> (r: Instance)
    ensures
        r@ == x@,
{
    let r = Instance { address: x.address, weight: x.weight, tags: clone_tags(&x.tags) };
    proof {
        assert(r@.tags =~= x@.tags);
    }
    r
}

/// Copy an entry; the copy denotes the same `EntryView`.
pub fn clone_entry(e: &Entry) -> (r: Entry)
    ensures
        r@ == e@,
{
    Entry { key: e.key.clone(), instance: clone_instance(&e.instance) }
}

/// Copy an entry list; the copy denotes the same snapshot.
pub fn clone_entries(es: &Vec<Entry>) -> (r: Vec<Entry>)
    ensures
        views_of(r@) == views_of(es@),
{
    let mut r: Vec<Entry> = Vec::new();
    let mut i: usize = 0;
    while i < es.len()
        invariant
            i <= es@.len(),
            r@.len() == i,
            forall|j: int| 0 <= j < i ==> (#[trigger] r@[j])@ == es@[j]@,
        decreases es@.len() - i,
    {
        r.push(clone_entry(&es[i]));
        i += 1;
    }
    proof {
        assert(views_of(r@) =~= views_of(es@));
    }
    r
}

/// Parse a registry value into an instance: its address, unit weight, no
/// tags. Returns exactly what `spec_instance_of` allows.
pub fn instance_of_value(v: &[u8]) -> (r: Option<Instance>)
    ensures
        match r {
            Some(inst) => spec_instance_of(v@) == Some(inst@),
            None => spec_instance_of(v@) is None,
        },
{
    match parse_address(v) {
        None => None,
        Some(a) => {
            let inst = Instance { address: a, weight: 1, tags: Vec::new() };
            proof {
                assert(inst@.tags =~= Seq::<(Seq<char>, Seq<char>)>::empty());
            }
            Some(inst)
        },
    }
}

/// Find the position of `key` in an entry list.
fn find_key(es: &Vec<Entry>, key: &String) -> (r: Option<usize>)
    ensures
        match r {
            Some(i) => i < es@.len() && es@[i as int].key@ == key@,
            None => forall|j: int| 0 <= j < es@.len() ==> (#[trigger] es@[j]).key@ != key@,
        },
{
    let mut i: usize = 0;
    while i < es.len()
        invariant
            i <= es@.len(),
            forall|j: int| 0 <= j < i ==> (#[trigger] es@[j]).key@ != key@,
        decreases es@.len() - i,
    {
        if es[i].key == *key {
            return Some(i);
        }
        i += 1;
    }
    None
}

/// The registry watcher's membership cache for one service name.
///
/// The watcher's single processing path exclusively owns and mutates it;
/// other components see it only through the snapshots carried by Change
/// events, so the cache itself needs no sharing.
pub struct Watcher {
    pub service_name: String,
    pub entries: Vec<Entry>,
}

impl Watcher {
    /// Keys are unique, so the entry list denotes a mapping faithfully.
    pub open spec fn wf(&self) -> bool {
        keys_unique(views_of(self.entries@))
    }

    /// The membership mapping the cache currently holds.
    pub open spec fn cache(&self) -> Map<Seq<char>, InstanceView> {
        entries_map(views_of(self.entries@))
    }

    pub open spec fn entry_views(&self) -> Seq<EntryView> {
        views_of(self.entries@)
    }

    pub fn new(service_name: String) -> (r: Watcher)
        ensures
            r.wf(),
            r.cache() == Map::<Seq<char>, InstanceView>::empty(),
            r.service_name@ == service_name@,
    {
        Watcher { service_name, entries: Vec::new() }
    }

    /// The synthetic initial Change that `watch` broadcasts after its
    /// baseline enumeration: the full snapshot with an empty delta.
    pub fn baseline_change(&self) -> (c: Change)
        ensures
            c.service_key@ == self.service_name@,
            views_of(c.all@) == self.entry_views(),
            c.added@.len() == 0,
            c.updated@.len() == 0,
            c.removed@.len() == 0,
    {
        Change {
            service_key: self.service_name.clone(),
            all: clone_entries(&self.entries),
            added: Vec::new(),
            updated: Vec::new(),
            removed: Vec::new(),
        }
    }

    /// One-shot enumeration result. `None` stands for a transport
    /// failure: the cache is left alone and the degraded result is the
    /// empty list, never an error. A successful enumeration rebuilds the
    /// cache from scratch and returns every instance whose value parses.
    pub fn discover(&mut self, enumeration: Option<Vec<RawKv>>) -> (r: Vec<Instance>)
        requires
            old(self).wf(),
        ensures
            final(self).wf(),
            final(self).service_name == old(self).service_name,
            match enumeration {
                None => *final(self) == *old(self) && r@.len() == 0,
                Some(kvs) => final(self).cache() == enum_map(kvs@) && Seq::new(
                    r@.len(),
                    |i: int| r@[i]@,
                ) == enum_list(kvs@),
            },
    {
        match enumeration {
            None => Vec::new(),
            Some(mut kvs) => {
                let ghost whole = kvs@;
                self.entries.clear();
                let mut r: Vec<Instance> = Vec::new();
                let ghost n = whole.len();
                let ghost mut i: int = 0;
                proof {
                    assert(whole.take(0) =~= Seq::<RawKv>::empty());
                    assert(views_of(self.entries@) =~= Seq::<EntryView>::empty());
                    assert(self.cache() =~= enum_map(whole.take(0)));
                }
                while kvs.len() > 0
                    invariant
                        self.wf(),
                        0 <= i,
                        i + kvs@.len() == n,
                        whole.len() == n,
                        kvs@ =~= whole.skip(i),
                        self.cache() =~= enum_map(whole.take(i)),
                        Seq::new(r@.len(), |j: int| r@[j]@) =~= enum_list(whole.take(i)),
                        self.service_name == old(self).service_name,
                    decreases kvs@.len(),
                {
                    let kv = kvs.remove(0);
                    proof {
                        assert(kv == whole[i]);
                        assert(whole.take(i + 1).drop_last() =~= whole.take(i));
                        assert(whole.take(i + 1).last() == kv);
                    }
                    match instance_of_value(kv.value.as_slice()) {
                        None => {},
                        Some(inst) => {
                            let inst2 = clone_instance(&inst);
                            self.put_entry(kv.key, inst);
                            r.push(inst2);
                            proof {
                                assert(Seq::new(r@.len(), |j: int| r@[j]@) =~= enum_list(
                                    whole.take(i + 1),
                                ));
                            }
                        },
                    }
                    proof {
                        assert(self.cache() =~= enum_map(whole.take(i + 1)));
                        assert(Seq::new(r@.len(), |j: int| r@[j]@) =~= enum_list(whole.take(i + 1)));
                        i = i + 1;
                    }
                }
                proof {
                    assert(whole.take(i) =~= whole);
                }
                r
            },
        }
    }

    /// Insert or replace one key's instance in the cache.
    fn put_entry(&mut self, key: String, inst: Instance)
        requires
            old(self).wf(),
        ensures
            final(self).wf(),
            final(self).cache() == old(self).cache().insert(key@, inst@),
            final(self).service_name == old(self).service_name,
    {
        let ghost vs0 = views_of(self.entries@);
        match find_key(&self.entries, &key) {
            Some(idx) => {
                let e = Entry { key, instance: inst };
                let _old_entry = self.entries.remove(idx);
                self.entries.insert(idx, e);
                proof {
                    let vs1 = views_of(self.entries@);
                    assert(vs1 =~= vs0.update(idx as int, EntryView { key: key@, instance: inst@ }));
                    lemma_entries_map_update(
                        vs0,
                        idx as int,
                        EntryView { key: key@, instance: inst@ },
                    );
                    assert(vs0[idx as int].key == key@);
                    assert(forall|a: int| 0 <= a < vs1.len() ==> (#[trigger] vs1[a]).key == vs0[a].key);
                    assert(keys_unique(vs1));
                    assert(entries_map(vs1) =~= entries_map(vs0).insert(key@, inst@));
                }
            },
            None => {
                self.entries.push(Entry { key, instance: inst });
                proof {
                    let vs1 = views_of(self.entries@);
                    assert(vs1.drop_last() =~= vs0);
                    assert(vs1.last() == EntryView { key: key@, instance: inst@ });
                    assert(forall|a: int| 0 <= a < vs0.len() ==> (#[trigger] vs1[a]) == vs0[a]);
                    assert(forall|a: int| 0 <= a < vs0.len() ==> (#[trigger] vs0[a]).key != key@);
                    assert(keys_unique(vs1));
                }
            },
        }
    }

    /// Apply one delivered batch to the cache and build its Change event:
    /// `all` is the full snapshot after the batch, and the delta lists
    /// are exactly the batch's classification against the running cache.
    pub fn apply_batch(&mut self, events: &Vec<RegistryEvent>) -> (c: Change)
        requires
            old(self).wf(),
        ensures
            final(self).wf(),
            final(self).service_name == old(self).service_name,
            final(self).cache() == batch_outcome(old(self).cache(), events@).cache,
            c.service_key@ == old(self).service_name@,
            views_of(c.all@) == final(self).entry_views(),
            entries_map(views_of(c.all@)) == final(self).cache(),
            views_of(c.added@) == batch_outcome(old(self).cache(), events@).added,
            views_of(c.updated@) == batch_outcome(old(self).cache(), events@).updated,
            views_of(c.removed@) == batch_outcome(old(self).cache(), events@).removed,
    {
        let ghost m0 = old(self).cache();
        let mut added: Vec<Entry> = Vec::new();
        let mut updated: Vec<Entry> = Vec::new();
        let mut removed: Vec<Entry> = Vec::new();
        let mut i: usize = 0;
        proof {
            assert(events@.take(0) =~= Seq::<RegistryEvent>::empty());
        }
        while i < events.len()
            invariant
                self.wf(),
                i <= events@.len(),
                self.service_name == old(self).service_name,
                self.cache() =~= batch_outcome(m0, events@.take(i as int)).cache,
                views_of(added@) =~= batch_outcome(m0, events@.take(i as int)).added,
                views_of(updated@) =~= batch_outcome(m0, events@.take(i as int)).updated,
                views_of(removed@) =~= batch_outcome(m0, events@.take(i as int)).removed,
            decreases events@.len() - i,
        {
            let ghost o_prev = batch_outcome(m0, events@.take(i as int));
            let ev = &events[i];
            proof {
                assert(events@.take(i + 1).drop_last() =~= events@.take(i as int));
                assert(events@.take(i + 1).last() == events@[i as int]);
            }
            match ev.kind {
                EventKind::Delete => {
                    match find_key(&self.entries, &ev.key) {
                        None => {
                            proof {
                                lemma_entries_map_contains(views_of(self.entries@), ev.key@);
                                assert(!self.cache().contains_key(ev.key@));
                            }
                        },
                        Some(idx) => {
                            let ghost vs0 = views_of(self.entries@);
                            proof {
                                lemma_entries_map_index(vs0, idx as int);
                                lemma_entries_map_remove(vs0, idx as int);
                            }
                            let e = self.entries.remove(idx);
                            removed.push(e);
                            proof {
                                assert(views_of(self.entries@) =~= vs0.remove(idx as int));
                                assert(keys_unique(views_of(self.entries@))) by {
                                    assert(forall|a: int, b: int|
                                        0 <= a < b < vs0.remove(idx as int).len()
                                            ==> (#[trigger] vs0.remove(idx as int)[a]).key != (
                                        #[trigger] vs0.remove(idx as int)[b]).key);
                                }
                                assert(views_of(removed@).drop_last() =~= o_prev.removed);
                                assert(views_of(removed@) =~= o_prev.removed.push(
                                    EntryView { key: ev.key@, instance: o_prev.cache[ev.key@] },
                                ));
                            }
                        },
                    }
                },
                EventKind::Put => {
                    match instance_of_value(ev.value.as_slice()) {
                        None => {},
                        Some(inst) => {
                            let ghost instv = inst@;
                            let inst2 = clone_instance(&inst);
                            let key1 = ev.key.clone();
                            let key2 = ev.key.clone();
                            proof {
                                lemma_entries_map_contains(views_of(self.entries@), ev.key@);
                            }
                            match find_key(&self.entries, &ev.key) {
                                Some(fidx) => {
                                    proof {
                                        assert(views_of(self.entries@)[fidx as int].key == ev.key@);
                                        assert(o_prev.cache.contains_key(ev.key@));
                                        assert(batch_outcome(m0, events@.take(i + 1)).updated
                                            =~= o_prev.updated.push(
                                            EntryView { key: ev.key@, instance: instv },
                                        ));
                                        assert(batch_outcome(m0, events@.take(i + 1)).added
                                            =~= o_prev.added);
                                    }
                                    self.put_entry(key1, inst);
                                    updated.push(Entry { key: key2, instance: inst2 });
                                    proof {
                                        assert(views_of(updated@).drop_last() =~= o_prev.updated);
                                        assert(views_of(updated@) =~= o_prev.updated.push(
                                            EntryView { key: ev.key@, instance: instv },
                                        ));
                                    }
                                },
                                None => {
                                    proof {
                                        assert(forall|j: int|
                                            0 <= j < views_of(self.entries@).len()
                                                ==> (#[trigger] views_of(self.entries@)[j]).key
                                                != ev.key@);
                                        assert(!o_prev.cache.contains_key(ev.key@));
                                        assert(batch_outcome(m0, events@.take(i + 1)).added
                                            =~= o_prev.added.push(
                                            EntryView { key: ev.key@, instance: instv },
                                        ));
                                        assert(batch_outcome(m0, events@.take(i + 1)).updated
                                            =~= o_prev.updated);
                                    }
                                    self.put_entry(key1, inst);
                                    added.push(Entry { key: key2, instance: inst2 });
                                    proof {
                                        assert(views_of(added@).drop_last() =~= o_prev.added);
                                        assert(views_of(added@) =~= o_prev.added.push(
                                            EntryView { key: ev.key@, instance: instv },
                                        ));
                                    }
                                },
                            }
                        },
                    }
                },
            }
            i += 1;
        }
        proof {
            assert(events@.take(events@.len() as int) =~= events@);
        }
        let all = clone_entries(&self.entries);
        Change { service_key: self.service_name.clone(), all, added, updated, removed }
    }
}

proof fn lemma_enum_map_agrees(kvs: Seq<RawKv>, m: Map<Seq<char>, InstanceView>)
    requires
        forall|i: int|
            0 <= i < kvs.len() ==> m.contains_key((#[trigger] kvs[i]).key@) && spec_instance_of(
                kvs[i].value@,
            ) == Some(m[kvs[i].key@]),
    ensures
        forall|k: Seq<char>|
            #[trigger] enum_map(kvs).contains_key(k) ==> m.contains_key(k) && enum_map(kvs)[k]
                == m[k],
        forall|i: int| 0 <= i < kvs.len() ==> enum_map(kvs).contains_key((#[trigger] kvs[i]).key@),
    decreases kvs.len(),
{
    if kvs.len() > 0 {
        let pre = kvs.drop_last();
        assert(forall|i: int| 0 <= i < pre.len() ==> (#[trigger] pre[i]) == kvs[i]);
        lemma_enum_map_agrees(pre, m);
        assert(kvs[kvs.len() - 1] == kvs.last());
        assert(enum_map(kvs) == enum_map(pre).insert(kvs.last().key@, m[kvs.last().key@]));
        assert forall|i: int| 0 <= i < kvs.len() implies enum_map(kvs).contains_key(
            (#[trigger] kvs[i]).key@,
        ) by {
            if i < kvs.len() - 1 {
                assert(pre[i] == kvs[i]);
                assert(enum_map(pre).contains_key(pre[i].key@));
            } else {
                assert(kvs[i] == kvs.last());
            }
        }
    }
}

/// Resync idempotence: an enumeration that faithfully lists a membership
/// mapping — every record's key is in the mapping and its value parses
/// to that key's instance, and every key of the mapping appears — builds
/// back exactly that mapping, so a fresh `discover` run against an
/// unchanged registry reproduces the watcher's current cache.
pub proof fn lemma_resync(kvs: Seq<RawKv>, m: Map<Seq<char>, InstanceView>)
    requires
        forall|i: int|
            0 <= i < kvs.len() ==> m.contains_key((#[trigger] kvs[i]).key@) && spec_instance_of(
                kvs[i].value@,
            ) == Some(m[kvs[i].key@]),
        forall|k: Seq<char>|
            #[trigger] m.contains_key(k) ==> exists|i: int|
                0 <= i < kvs.len() && (#[trigger] kvs[i]).key@ == k,
    ensures
        enum_map(kvs) == m,
{
    lemma_enum_map_agrees(kvs, m);
    assert forall|k: Seq<char>| #[trigger] m.contains_key(k) implies enum_map(kvs).contains_key(
        k,
    ) by {
        let i = choose|i: int| 0 <= i < kvs.len() && (#[trigger] kvs[i]).key@ == k;
        assert(enum_map(kvs).contains_key(kvs[i].key@));
    }
    assert(enum_map(kvs) =~= m);
}

/// The delta partition law: for a batch whose events touch distinct
/// keys, `added` lists exactly the keys newly present, `updated` the
/// keys present before whose instance the batch replaced, `removed` the
/// keys newly absent with their prior instances, and every key the batch
/// does not list in a delta is carried over unchanged.
pub proof fn lemma_batch_partition(m: Map<Seq<char>, InstanceView>, evs: Seq<RegistryEvent>)
    requires
        distinct_event_keys(evs),
    ensures
        ({
            let o = batch_outcome(m, evs);
            &&& forall|t: int|
                0 <= t < o.added.len() ==> !m.contains_key((#[trigger] o.added[t]).key)
                    && o.cache.contains_key(o.added[t].key) && o.cache[o.added[t].key]
                    == o.added[t].instance && event_key_in(evs, o.added[t].key)
            &&& forall|t: int|
                0 <= t < o.updated.len() ==> m.contains_key((#[trigger] o.updated[t]).key)
                    && o.cache.contains_key(o.updated[t].key) && o.cache[o.updated[t].key]
                    == o.updated[t].instance && event_key_in(evs, o.updated[t].key)
            &&& forall|t: int|
                0 <= t < o.removed.len() ==> m.contains_key((#[trigger] o.removed[t]).key)
                    && !o.cache.contains_key(o.removed[t].key) && o.removed[t].instance == m[
                    o.removed[t].key] && event_key_in(evs, o.removed[t].key)
            &&& forall|k: Seq<char>|
                !(#[trigger] key_in(o.added, k)) && !key_in(o.updated, k) && !key_in(o.removed, k)
                    ==> (o.cache.contains_key(k) <==> m.contains_key(k)) && (m.contains_key(k)
                    ==> o.cache[k] == m[k])
        }),
    decreases evs.len(),
{
    if evs.len() > 0 {
        let pre = evs.drop_last();
        let ev = evs.last();
        let kk = ev.key@;
        assert(forall|i: int| 0 <= i < pre.len() ==> (#[trigger] pre[i]) == evs[i]);
        lemma_batch_partition(m, pre);
        let o0 = batch_outcome(m, pre);
        let o = batch_outcome(m, evs);
        assert(ev == evs[evs.len() - 1]);
        assert(forall|i: int| 0 <= i < pre.len() ==> (#[trigger] evs[i]).key@ != kk);
        assert forall|k: Seq<char>| #[trigger] event_key_in(pre, k) implies event_key_in(
            evs,
            k,
        ) by {
            let i = choose|i: int| 0 <= i < pre.len() && (#[trigger] pre[i]).key@ == k;
            assert(evs[i].key@ == k);
        }
        // the last event's key stands in none of the prefix deltas
        assert(!key_in(o0.added, kk)) by {
            if key_in(o0.added, kk) {
                let t = choose|t: int| 0 <= t < o0.added.len() && (#[trigger] o0.added[t]).key == kk;
                let i = choose|i: int| 0 <= i < pre.len() && (#[trigger] pre[i]).key@ == kk;
                assert(evs[i].key@ == kk);
            }
        }
        assert(!key_in(o0.updated, kk)) by {
            if key_in(o0.updated, kk) {
                let t = choose|t: int|
                    0 <= t < o0.updated.len() && (#[trigger] o0.updated[t]).key == kk;
                let i = choose|i: int| 0 <= i < pre.len() && (#[trigger] pre[i]).key@ == kk;
                assert(evs[i].key@ == kk);
            }
        }
        assert(!key_in(o0.removed, kk)) by {
            if key_in(o0.removed, kk) {
                let t = choose|t: int|
                    0 <= t < o0.removed.len() && (#[trigger] o0.removed[t]).key == kk;
                let i = choose|i: int| 0 <= i < pre.len() && (#[trigger] pre[i]).key@ == kk;
                assert(evs[i].key@ == kk);
            }
        }
        // so the prefix cache agrees with the prior cache at that key
        assert(!key_in(o0.added, kk) && !key_in(o0.updated, kk) && !key_in(o0.removed, kk));
        assert((o0.cache.contains_key(kk) <==> m.contains_key(kk)) && (m.contains_key(kk)
            ==> o0.cache[kk] == m[kk]));
        assert(event_key_in(evs, kk)) by {
            assert(evs[evs.len() - 1].key@ == kk);
        }
        let changed = match ev.kind {
            EventKind::Delete => o0.cache.contains_key(kk),
            EventKind::Put => spec_instance_of(ev.value@) is Some,
        };
        if !changed {
            assert(o == o0);
            assert forall|t: int| 0 <= t < o.added.len() implies event_key_in(
                evs,
                (#[trigger] o.added[t]).key,
            ) by {
                assert(event_key_in(pre, o0.added[t].key));
            }
            assert forall|t: int| 0 <= t < o.updated.len() implies event_key_in(
                evs,
                (#[trigger] o.updated[t]).key,
            ) by {
                assert(event_key_in(pre, o0.updated[t].key));
            }
            assert forall|t: int| 0 <= t < o.removed.len() implies event_key_in(
                evs,
                (#[trigger] o.removed[t]).key,
            ) by {
                assert(event_key_in(pre, o0.removed[t].key));
            }
        } else {
            // the cache changes at the last event's key alone, and one
            // delta list gains one entry for it
            assert(o.cache == if ev.kind is Delete {
                o0.cache.remove(kk)
            } else {
                o0.cache.insert(kk, spec_instance_of(ev.value@)->Some_0)
            });
            assert forall|t: int| 0 <= t < o.added.len() implies (!m.contains_key(
                (#[trigger] o.added[t]).key,
            ) && o.cache.contains_key(o.added[t].key) && o.cache[o.added[t].key]
                == o.added[t].instance && event_key_in(evs, o.added[t].key)) by {
                if t < o0.added.len() {
                    assert(o.added[t] == o0.added[t]);
                    assert(o0.added[t].key != kk) by {
                        if o0.added[t].key == kk {
                            assert(key_in(o0.added, kk));
                        }
                    }
                    assert(event_key_in(pre, o0.added[t].key));
                } else {
                    assert(o.added[t].key == kk);
                }
            }
            assert forall|t: int| 0 <= t < o.updated.len() implies (m.contains_key(
                (#[trigger] o.updated[t]).key,
            ) && o.cache.contains_key(o.updated[t].key) && o.cache[o.updated[t].key]
                == o.updated[t].instance && event_key_in(evs, o.updated[t].key)) by {
                if t < o0.updated.len() {
                    assert(o.updated[t] == o0.updated[t]);
                    assert(o0.updated[t].key != kk) by {
                        if o0.updated[t].key == kk {
                            assert(key_in(o0.updated, kk));
                        }
                    }
                    assert(event_key_in(pre, o0.updated[t].key));
                } else {
                    assert(o.updated[t].key == kk);
                }
            }
            assert forall|t: int| 0 <= t < o.removed.len() implies (m.contains_key(
                (#[trigger] o.removed[t]).key,
            ) && !o.cache.contains_key(o.removed[t].key) && o.removed[t].instance == m[
                o.removed[t].key] && event_key_in(evs, o.removed[t].key)) by {
                if t < o0.removed.len() {
                    assert(o.removed[t] == o0.removed[t]);
                    assert(o0.removed[t].key != kk) by {
                        if o0.removed[t].key == kk {
                            assert(key_in(o0.removed, kk));
                        }
                    }
                    assert(event_key_in(pre, o0.removed[t].key));
                } else {
                    assert(o.removed[t].key == kk);
                }
            }
            assert forall|k: Seq<char>|
                !(#[trigger] key_in(o.added, k)) && !key_in(o.updated, k) && !key_in(o.removed, k)
                    implies ((o.cache.contains_key(k) <==> m.contains_key(k)) && (m.contains_key(k)
                ==> o.cache[k] == m[k])) by {
                assert(k != kk) by {
                    if k == kk {
                        match ev.kind {
                            EventKind::Delete => {
                                assert(o.removed[o.removed.len() - 1].key == kk);
                                assert(key_in(o.removed, kk));
                            },
                            EventKind::Put => {
                                if o0.cache.contains_key(kk) {
                                    assert(o.updated[o.updated.len() - 1].key == kk);
                                    assert(key_in(o.updated, kk));
                                } else {
                                    assert(o.added[o.added.len() - 1].key == kk);
                                    assert(key_in(o.added, kk));
                                }
                            },
                        }
                    }
                }
                assert(!key_in(o0.added, k)) by {
                    if key_in(o0.added, k) {
                        let t = choose|t: int|
                            0 <= t < o0.added.len() && (#[trigger] o0.added[t]).key == k;
                        assert(o.added[t].key == k);
                        assert(key_in(o.added, k));
                    }
                }
                assert(!key_in(o0.updated, k)) by {
                    if key_in(o0.updated, k) {
                        let t = choose|t: int|
                            0 <= t < o0.updated.len() && (#[trigger] o0.updated[t]).key == k;
                        assert(o.updated[t].key == k);
                        assert(key_in(o.updated, k));
                    }
                }
                assert(!key_in(o0.removed, k)) by {
                    if key_in(o0.removed, k) {
                        let t = choose|t: int|
                            0 <= t < o0.removed.len() && (#[trigger] o0.removed[t]).key == k;
                        assert(o.removed[t].key == k);
                        assert(key_in(o.removed, k));
                    }
                }
            }
        }
    }
}

} // verus!
