//! Power-of-two-choices load balancing: per-instance health records, the
//! load formula, pairwise selection with a starvation override, and the
//! per-service-key pool of records kept in a concurrent map.
use vstd::prelude::*;
use crate::addr::Address;
use crate::registry::Change;
use crate::registry::Entry;
use crate::registry::EntryView;
use crate::registry::Instance;
use crate::registry::InstanceView;
use crate::registry::clone_instance;
use crate::registry::key_in;
use crate::registry::views_of;
use std::collections::hash_map::RandomState;
use num_integer::Roots;

verus! {

/// Initial success budget of a fresh record.
pub const INIT_SUCCESS: u64 = 1000;

/// A record is healthy once its successes exceed half the budget.
pub const THROTTLE_SUCCESS: u64 = INIT_SUCCESS / 2;

/// Load value standing for "never prefer this": a computed load of zero
/// is degenerate, not a free candidate.
pub const PENALTY: i64 = i64::MAX;

/// A candidate not force-picked for this long is picked regardless of load.
pub const FORCE_PICK_MILLIS: i64 = 1000;

/// Mathematical value of a `SubConn`.
pub ghost struct SubConnView {
    pub key: Seq<char>,
    pub lag: u64,
    pub inflight: i64,
    pub success: u64,
    pub requests: u64,
    pub last: i64,
    pub pick: i64,
    pub instance: InstanceView,
}

/// Per-instance runtime health record.
#[derive(Clone)]
pub struct SubConn {
    pub key: String,
    pub lag: u64,
    pub inflight: i64,
    pub success: u64,
    pub requests: u64,
    pub last: i64,
    pub pick: i64,
    pub instance: Instance,
}

impl View for SubConn {
    type V = SubConnView;

    open spec fn view(&self) -> SubConnView {
        SubConnView {
            key: self.key@,
            lag: self.lag,
            inflight: self.inflight,
            success: self.success,
            requests: self.requests,
            last: self.last,
            pick: self.pick,
            instance: self.instance@,
        }
    }
}

pub open spec fn conn_views(cs: Seq<SubConn>) -> Seq<SubConnView> {
    Seq::new(cs.len(), |i: int| cs[i]@)
}

proof fn lemma_conn_views_index(cs: Seq<SubConn>)
    ensures
        forall|t: int| 0 <= t < cs.len() ==> #[trigger] conn_views(cs)[t] == cs[t]@,
{
}

/// Truncated square root: the largest r with r * r <= n.
pub open spec fn sqrt_floor(n: nat) -> nat
    decreases n,
{
    if n == 0 {
        0
    } else {
        let r = sqrt_floor((n - 1) as nat);
        if (r + 1) * (r + 1) <= n {
            r + 1
        } else {
            r
        }
    }
}

pub proof fn lemma_sqrt_floor_bounds(n: nat)
    ensures
        sqrt_floor(n) * sqrt_floor(n) <= n,
        n < (sqrt_floor(n) + 1) * (sqrt_floor(n) + 1),
    decreases n,
{
    reveal_with_fuel(sqrt_floor, 2);
    if n == 0 {
        assert(sqrt_floor(n) == 0);
        assert((0nat + 1) * (0nat + 1) == 1nat) by (nonlinear_arith);
        assert(n < (sqrt_floor(n) + 1) * (sqrt_floor(n) + 1));
    } else {
        lemma_sqrt_floor_bounds((n - 1) as nat);
        let r = sqrt_floor((n - 1) as nat);
        if (r + 1) * (r + 1) <= n {
            assert(sqrt_floor(n) == r + 1);
            assert(n <= (r + 1) * (r + 1));
            assert((r + 1) * (r + 1) < (r + 1 + 1) * (r + 1 + 1)) by (nonlinear_arith);
            assert(n < (sqrt_floor(n) + 1) * (sqrt_floor(n) + 1));
        } else {
            assert(sqrt_floor(n) == r);
            assert(n < (sqrt_floor(n) + 1) * (sqrt_floor(n) + 1));
        }
    }
}

pub proof fn lemma_sqrt_unique(n: nat, r: nat)
    requires
        r * r <= n,
        n < (r + 1) * (r + 1),
    ensures
        r == sqrt_floor(n),
{
    lemma_sqrt_floor_bounds(n);
    let s = sqrt_floor(n);
    if r < s {
        assert(false) by (nonlinear_arith)
            requires
                r < s,
                s * s <= n,
                n < (r + 1) * (r + 1),
        ;
    } else if s < r {
        assert(false) by (nonlinear_arith)
            requires
                s < r,
                r * r <= n,
                n < (s + 1) * (s + 1),
        ;
    }
}

/// Rounded-up square root.
pub open spec fn ceil_sqrt(n: nat) -> nat {
    if sqrt_floor(n) * sqrt_floor(n) == n {
        sqrt_floor(n)
    } else {
        sqrt_floor(n) + 1
    }
}

/// The load formula: ceil(sqrt(lag + 1)) * (inflight + 1), saturated to
/// the i64 range; an exact zero is replaced by the maximal penalty.
pub open spec fn load_of(lag: u64, inflight: i64) -> i64 {
    let p = ceil_sqrt((lag + 1) as nat) * (inflight + 1);
    if p == 0 {
        PENALTY
    } else if p > i64::MAX {
        i64::MAX
    } else if p < i64::MIN {
        i64::MIN
    } else {
        p as i64
    }
}

/// Relies on num_integer::Roots::sqrt: the truncated principal square
/// root of a non-negative integer, the r with r * r <= n < (r+1) * (r+1).
#[verifier::external_body]
fn isqrt_u128(n: u128) -> (r: u128)
    ensures
        r * r <= n,
        n < (r + 1) * (r + 1),
{
    Roots::sqrt(&n)
}

/// Relies on chrono::Utc::now: the wall clock as milliseconds since the
/// Unix epoch; nothing is assumed of the value.
#[verifier::external_body]
pub(crate) fn now_millis() -> i64 {
    chrono::Utc::now().timestamp_millis()
}

impl SubConn {
    /// Counters in their meaningful ranges.
    pub open spec fn wf(&self) -> bool {
        &&& self.inflight >= 0
        &&& self.last >= 0
        &&& self.pick >= 0
    }

    /// A fresh record for a newly seen instance: zeroed counters.
    pub fn new(key: String, instance: Instance) -> (r: SubConn)
        ensures
            r.wf(),
            r@ == (SubConnView {
                key: key@,
                lag: 0u64,
                inflight: 0i64,
                success: 0u64,
                requests: 0u64,
                last: 0i64,
                pick: 0i64,
                instance: instance@,
            }),
    {
        SubConn { key, lag: 0, inflight: 0, success: 0, requests: 0, last: 0, pick: 0, instance }
    }

    /// Healthy once cumulative successes exceed half the initial budget.
    pub fn healthy(&self) -> (r: bool)
        ensures
            r == (self.success > THROTTLE_SUCCESS),
    {
        self.success > THROTTLE_SUCCESS
    }

    /// The record's current load.
    pub fn load(&self) -> (r: i64)
        ensures
            r == load_of(self.lag, self.inflight),
    {
        let n: u128 = self.lag as u128 + 1;
        let s = isqrt_u128(n);
        proof {
            lemma_sqrt_unique(n as nat, s as nat);
            assert(s <= 0x1_0000_0000u128) by (nonlinear_arith)
                requires
                    s * s <= n,
                    n <= 0x1_0000_0000_0000_0000u128,
            ;
        }
        let cs: u128 = if s * s == n {
            s
        } else {
            s + 1
        };
        let infl: i128 = self.inflight as i128 + 1;
        proof {
            let c = cs as i128;
            assert(c * infl <= 0x1_0000_0000_0000_0000_0000_0000i128 && c * infl
                >= -0x1_0000_0000_0000_0000_0000_0000i128) by (nonlinear_arith)
                requires
                    0 <= c <= 0x1_0000_0001i128,
                    -0x8000_0000_0000_0000i128 <= infl <= 0x8000_0000_0000_0000i128,
            ;
        }
        let p: i128 = (cs as i128) * infl;
        if p == 0 {
            PENALTY
        } else if p > i64::MAX as i128 {
            i64::MAX
        } else if p < i64::MIN as i128 {
            i64::MIN
        } else {
            p as i64
        }
    }

    /// A request was handed to this instance.
    pub fn record_dispatch(&mut self)
        ensures
            final(self).inflight == if old(self).inflight < i64::MAX {
                old(self).inflight + 1
            } else {
                old(self).inflight as int
            },
            final(self).requests == if old(self).requests < u64::MAX {
                old(self).requests + 1
            } else {
                old(self).requests as int
            },
            final(self).key == old(self).key,
            final(self).lag == old(self).lag,
            final(self).success == old(self).success,
            final(self).last == old(self).last,
            final(self).pick == old(self).pick,
            final(self).instance == old(self).instance,
    {
        if self.inflight < i64::MAX {
            self.inflight = self.inflight + 1;
        }
        if self.requests < u64::MAX {
            self.requests = self.requests + 1;
        }
    }

    /// A request finished: record its observed lag and whether it
    /// succeeded; the in-flight count never goes below zero.
    pub fn record_completion(&mut self, lag_sample: u64, ok: bool)
        ensures
            final(self).lag == lag_sample,
            final(self).inflight == if old(self).inflight > 0 {
                old(self).inflight - 1
            } else {
                old(self).inflight as int
            },
            final(self).success == if ok && old(self).success < u64::MAX {
                old(self).success + 1
            } else {
                old(self).success as int
            },
            final(self).key == old(self).key,
            final(self).requests == old(self).requests,
            final(self).last == old(self).last,
            final(self).pick == old(self).pick,
            final(self).instance == old(self).instance,
    {
        self.lag = lag_sample;
        if self.inflight > 0 {
            self.inflight = self.inflight - 1;
        }
        if ok && self.success < u64::MAX {
            self.success = self.success + 1;
        }
    }
}

/// True when the pairwise pick selects the second candidate: the one
/// with the lower load wins (ties favour the first), unless the
/// higher-load candidate's force-pick slot is older than the interval.
pub open spec fn pick_second(c1: SubConnView, c2: SubConnView, now: i64) -> bool {
    let swap = load_of(c1.lag, c1.inflight) > load_of(c2.lag, c2.inflight);
    let hi = if swap {
        c1
    } else {
        c2
    };
    if now - hi.pick > FORCE_PICK_MILLIS {
        !swap
    } else {
        swap
    }
}

/// True when the pick went to the higher-load candidate by override.
pub open spec fn pick_forced(c1: SubConnView, c2: SubConnView, now: i64) -> bool {
    let swap = load_of(c1.lag, c1.inflight) > load_of(c2.lag, c2.inflight);
    let hi = if swap {
        c1
    } else {
        c2
    };
    now - hi.pick > FORCE_PICK_MILLIS
}

/// The candidate the pairwise pick selects.
pub open spec fn winner_of(c1: SubConnView, c2: SubConnView, now: i64) -> SubConnView {
    if pick_second(c1, c2, now) {
        c2
    } else {
        c1
    }
}

/// The chosen record after its stamps: last-used now, and the
/// force-pick slot claimed when the override fired.
pub open spec fn stamped(c: SubConnView, now: i64, forced: bool) -> SubConnView {
    SubConnView {
        key: c.key,
        lag: c.lag,
        inflight: c.inflight,
        success: c.success,
        requests: c.requests,
        last: now,
        pick: if forced {
            now
        } else {
            c.pick
        },
        instance: c.instance,
    }
}

/// Everything of a record but its last-used and force-pick stamps.
pub open spec fn counters_kept(a: SubConnView, b: SubConnView) -> bool {
    &&& a.key == b.key
    &&& a.lag == b.lag
    &&& a.inflight == b.inflight
    &&& a.success == b.success
    &&& a.requests == b.requests
    &&& a.instance == b.instance
}

/// A transient per-call view over the pool's candidate list. Selection
/// samples exactly two candidates per call; with more than two live
/// candidates the pair advances round-robin through the list.
pub struct InstancePicker {
    pub conns: Vec<SubConn>,
    pub cursor: usize,
}

impl InstancePicker {
    pub open spec fn wf(&self) -> bool {
        self.conns@.len() == 0 || self.cursor < self.conns@.len()
    }

    pub fn new(conns: Vec<SubConn>) -> (r: InstancePicker)
        ensures
            r.conns@ == conns@,
            r.cursor == 0,
    {
        InstancePicker { conns, cursor: 0 }
    }

    /// Pick at the given clock reading. No candidate is an explicit
    /// empty result; one candidate is taken unconditionally; otherwise
    /// the round-robin pair is compared by load with the starvation
    /// override, the winner is stamped, and the cursor advances.
    pub fn next_at(&mut self, now: i64) -> (r: Option<Address>)
        requires
            old(self).wf(),
        ensures
            final(self).wf(),
            final(self).conns@.len() == old(self).conns@.len(),
            forall|i: int|
                0 <= i < old(self).conns@.len() ==> counters_kept(
                    #[trigger] final(self).conns@[i]@,
                    old(self).conns@[i]@,
                ),
            ({
                let cs = old(self).conns@;
                let n = cs.len() as int;
                if n == 0 {
                    r is None && final(self).conns@ == cs && final(self).cursor == old(self).cursor
                } else if n == 1 {
                    &&& r == Some(cs[0].instance.address)
                    &&& conn_views(final(self).conns@) == conn_views(cs).update(
                        0,
                        stamped(cs[0]@, now, false),
                    )
                    &&& final(self).cursor == old(self).cursor
                } else {
                    let i = old(self).cursor as int;
                    let j = if i + 1 < n {
                        i + 1
                    } else {
                        0
                    };
                    let second = pick_second(cs[i]@, cs[j]@, now);
                    let forced = pick_forced(cs[i]@, cs[j]@, now);
                    let w = if second {
                        j
                    } else {
                        i
                    };
                    &&& r == Some(cs[w].instance.address)
                    &&& conn_views(final(self).conns@) == conn_views(cs).update(
                        w,
                        stamped(cs[w]@, now, forced),
                    )
                    &&& final(self).cursor == (if i + 1 < n {
                        i + 1
                    } else {
                        0
                    })
                }
            }),
    {
        let n = self.conns.len();
        if n == 0 {
            return None;
        }
        if n == 1 {
            let addr = self.stamp(0, now, false);
            proof {
                assert(conn_views(self.conns@) =~= conn_views(old(self).conns@).update(
                    0,
                    stamped(old(self).conns@[0]@, now, false),
                ));
                assert forall|i: int| 0 <= i < old(self).conns@.len() implies counters_kept(
                    #[trigger] self.conns@[i]@,
                    old(self).conns@[i]@,
                ) by {
                    assert(conn_views(self.conns@)[i] == self.conns@[i]@);
                    assert(conn_views(old(self).conns@)[i] == old(self).conns@[i]@);
                }
            }
            return Some(addr);
        }
        let i = self.cursor;
        let j = if i + 1 < n {
            i + 1
        } else {
            0
        };
        let l1 = self.conns[i].load();
        let l2 = self.conns[j].load();
        let swap = l1 > l2;
        let hi = if swap {
            i
        } else {
            j
        };
        let forced = (now as i128) - (self.conns[hi].pick as i128) > FORCE_PICK_MILLIS as i128;
        let w = if forced {
            hi
        } else if swap {
            j
        } else {
            i
        };
        let addr = self.stamp(w, now, forced);
        self.cursor = if i + 1 < n {
            i + 1
        } else {
            0
        };
        proof {
            let cs = old(self).conns@;
            assert(conn_views(self.conns@) =~= conn_views(cs).update(
                w as int,
                stamped(cs[w as int]@, now, forced),
            ));
            assert forall|i: int| 0 <= i < cs.len() implies counters_kept(
                #[trigger] self.conns@[i]@,
                cs[i]@,
            ) by {
                assert(conn_views(self.conns@)[i] == self.conns@[i]@);
                assert(conn_views(cs)[i] == cs[i]@);
            }
        }
        Some(addr)
    }

    /// Stamp the chosen record and return its address.
    fn stamp(&mut self, w: usize, now: i64, forced: bool) -> (r: Address)
        requires
            w < old(self).conns@.len(),
            old(self).wf(),
        ensures
            final(self).wf(),
            final(self).cursor == old(self).cursor,
            r == old(self).conns@[w as int].instance.address,
            final(self).conns@.len() == old(self).conns@.len(),
            conn_views(final(self).conns@) == conn_views(old(self).conns@).update(
                w as int,
                stamped(old(self).conns@[w as int]@, now, forced),
            ),
    {
        let mut c = self.conns.remove(w);
        let addr = c.instance.address;
        c.last = now;
        if forced {
            c.pick = now;
        }
        self.conns.insert(w, c);
        proof {
            assert(self.conns@ =~= old(self).conns@.update(w as int, self.conns@[w as int]));
            assert(conn_views(self.conns@) =~= conn_views(old(self).conns@).update(
                w as int,
                stamped(old(self).conns@[w as int]@, now, forced),
            ));
        }
        addr
    }

    /// Pick at the current wall clock, taken as at least zero. The
    /// clock's reading is outside the picker's control, so this states
    /// only what holds of every outcome: the result is the address of
    /// one of the candidates, counters are untouched, and only last-used
    /// and force-pick stamps may move.
    pub fn next(&mut self) -> (r: Option<Address>)
        requires
            old(self).wf(),
        ensures
            final(self).wf(),
            final(self).conns@.len() == old(self).conns@.len(),
            (r is None) <==> old(self).conns@.len() == 0,
            r is Some ==> exists|i: int|
                0 <= i < old(self).conns@.len() && r == Some(
                    (#[trigger] old(self).conns@[i]).instance.address,
                ),
            forall|i: int|
                0 <= i < old(self).conns@.len() ==> counters_kept(
                    #[trigger] final(self).conns@[i]@,
                    old(self).conns@[i]@,
                ),
    {
        let now = now_millis();
        let ghost cs = self.conns@;
        let r = self.next_at(now);
        proof {
            if cs.len() == 1 {
                assert(r == Some(cs[0].instance.address));
            }
        }
        r
    }
}

#[verifier::external_type_specification]
#[verifier::external_body]
#[verifier::reject_recursive_types(K)]
#[verifier::reject_recursive_types(V)]
#[verifier::reject_recursive_types(S)]
pub struct ExDashMap<K, V, S>(dashmap::DashMap<K, V, S>);

/// The pool's concurrent map type.
pub type Router = dashmap::DashMap<String, Vec<SubConn>, RandomState>;

/// What the pool's concurrent map holds: each service key's record list.
pub uninterp spec fn pool_contents(m: Router) -> Map<Seq<char>, Seq<SubConnView>>;

/// A pool that holds nothing yet.
pub open spec fn empty_pool() -> Map<Seq<char>, Seq<SubConnView>> {
    Map::empty()
}

/// Relies on dashmap::DashMap::insert: afterwards the key maps to the
/// given value and every other key is untouched.
#[verifier::external_body]
fn dm_insert(m: &mut Router, k: String, v: Vec<SubConn>)
    ensures
        pool_contents(*final(m)) == pool_contents(*old(m)).insert(k@, conn_views(v@)),
{
    m.insert(k, v);
}

/// Relies on dashmap::DashMap::get: the value stored for the key, if
/// any, handed out as a copy of the stored record list.
#[verifier::external_body]
fn dm_get(m: &Router, k: &String) -> (r: Option<Vec<SubConn>>)
    ensures
        match r {
            Some(v) => pool_contents(*m).contains_key(k@) && conn_views(v@) == pool_contents(
                *m,
            ).index(k@),
            None => !pool_contents(*m).contains_key(k@),
        },
{
    m.get(k).map(|e| e.value().clone())
}

/// The instance of the latest record for a key, if the list holds one.
pub open spec fn last_update_for(es: Seq<EntryView>, k: Seq<char>) -> Option<InstanceView>
    decreases es.len(),
{
    if es.len() == 0 {
        None
    } else if es.last().key == k {
        Some(es.last().instance)
    } else {
        last_update_for(es.drop_last(), k)
    }
}

/// A surviving record after an update pass: its instance replaced by the
/// latest update for its key, health counters preserved.
pub open spec fn refreshed(c: SubConnView, updated: Seq<EntryView>) -> SubConnView {
    SubConnView {
        key: c.key,
        lag: c.lag,
        inflight: c.inflight,
        success: c.success,
        requests: c.requests,
        last: c.last,
        pick: c.pick,
        instance: match last_update_for(updated, c.key) {
            None => c.instance,
            Some(iv) => iv,
        },
    }
}

/// The records that survive a rebalance, in order: removed keys are
/// dropped, updated keys keep their counters under the new instance.
pub open spec fn kept_views(
    cs: Seq<SubConnView>,
    removed: Seq<EntryView>,
    updated: Seq<EntryView>,
) -> Seq<SubConnView>
    decreases cs.len(),
{
    if cs.len() == 0 {
        Seq::empty()
    } else {
        let pre = kept_views(cs.drop_last(), removed, updated);
        if key_in(removed, cs.last().key) {
            pre
        } else {
            pre.push(refreshed(cs.last(), updated))
        }
    }
}

/// A fresh record for a newly added member: zeroed counters.
pub open spec fn fresh_view(e: EntryView) -> SubConnView {
    SubConnView {
        key: e.key,
        lag: 0u64,
        inflight: 0i64,
        success: 0u64,
        requests: 0u64,
        last: 0i64,
        pick: 0i64,
        instance: e.instance,
    }
}

pub open spec fn fresh_views(es: Seq<EntryView>) -> Seq<SubConnView> {
    Seq::new(es.len(), |i: int| fresh_view(es[i]))
}

/// A record list after one Change: survivors first, fresh records for
/// the added members appended.
pub open spec fn rebalanced(
    cs: Seq<SubConnView>,
    removed: Seq<EntryView>,
    updated: Seq<EntryView>,
    added: Seq<EntryView>,
) -> Seq<SubConnView> {
    kept_views(cs, removed, updated) + fresh_views(added)
}

/// Find the latest entry for a key in a delta list.
fn find_entry_last(es: &Vec<Entry>, key: &String) -> (r: Option<usize>)
    ensures
        match r {
            Some(i) => i < es@.len() && views_of(es@)[i as int].key == key@ && last_update_for(
                views_of(es@),
                key@,
            ) == Some(views_of(es@)[i as int].instance) && key_in(views_of(es@), key@),
            None => !key_in(views_of(es@), key@) && last_update_for(views_of(es@), key@) is None,
        },
{
    let ghost vs = views_of(es@);
    let mut j: usize = es.len();
    proof {
        assert(vs.take(j as int) =~= vs);
    }
    while j > 0
        invariant
            j <= es@.len(),
            vs == views_of(es@),
            last_update_for(vs, key@) == last_update_for(vs.take(j as int), key@),
            forall|t: int| j <= t < vs.len() ==> (#[trigger] vs[t]).key != key@,
        decreases j,
    {
        proof {
            assert(vs.take(j as int).last() == vs[j - 1]);
            assert(vs.take(j as int).drop_last() =~= vs.take(j - 1));
        }
        if es[j - 1].key == *key {
            return Some(j - 1);
        }
        j = j - 1;
    }
    proof {
        assert(vs.take(0) =~= Seq::<EntryView>::empty());
    }
    None
}

/// A record after a request was handed to it: the in-flight and
/// cumulative request counters rise, saturating at their maxima.
pub open spec fn record_dispatched(c: SubConnView) -> SubConnView {
    SubConnView {
        key: c.key,
        lag: c.lag,
        inflight: if c.inflight < i64::MAX {
            (c.inflight + 1) as i64
        } else {
            c.inflight
        },
        success: c.success,
        requests: if c.requests < u64::MAX {
            (c.requests + 1) as u64
        } else {
            c.requests
        },
        last: c.last,
        pick: c.pick,
        instance: c.instance,
    }
}

/// A record after a request on it finished: the observed lag is taken
/// over, the in-flight count falls but never below zero, and a success
/// is counted, saturating.
pub open spec fn record_completed(c: SubConnView, lag: u64, ok: bool) -> SubConnView {
    SubConnView {
        key: c.key,
        lag: lag,
        inflight: if c.inflight > 0 {
            (c.inflight - 1) as i64
        } else {
            c.inflight
        },
        success: if ok && c.success < u64::MAX {
            (c.success + 1) as u64
        } else {
            c.success
        },
        requests: c.requests,
        last: c.last,
        pick: c.pick,
        instance: c.instance,
    }
}

/// Position of the first record carrying this key; the list's length
/// when none does.
pub open spec fn conn_index_of(cs: Seq<SubConnView>, k: Seq<char>) -> int
    decreases cs.len(),
{
    if cs.len() == 0 {
        0
    } else if cs[0].key == k {
        0
    } else {
        1 + conn_index_of(cs.subrange(1, cs.len() as int), k)
    }
}

proof fn lemma_conn_index_found(cs: Seq<SubConnView>, k: Seq<char>, t: int)
    requires
        0 <= t < cs.len(),
        cs[t].key == k,
        forall|u: int| 0 <= u < t ==> (#[trigger] cs[u]).key != k,
    ensures
        conn_index_of(cs, k) == t,
    decreases t,
{
    if t == 0 {
        assert(cs[0].key == k);
    } else {
        assert(cs[0].key != k);
        let rest = cs.subrange(1, cs.len() as int);
        assert(forall|u: int| 0 <= u < rest.len() ==> (#[trigger] rest[u]) == cs[u + 1]);
        lemma_conn_index_found(rest, k, t - 1);
    }
}

proof fn lemma_conn_index_absent(cs: Seq<SubConnView>, k: Seq<char>)
    requires
        forall|u: int| 0 <= u < cs.len() ==> (#[trigger] cs[u]).key != k,
    ensures
        conn_index_of(cs, k) == cs.len(),
    decreases cs.len(),
{
    if cs.len() > 0 {
        let rest = cs.subrange(1, cs.len() as int);
        assert(forall|u: int| 0 <= u < rest.len() ==> (#[trigger] rest[u]) == cs[u + 1]);
        lemma_conn_index_absent(rest, k);
    }
}

/// Find the first stored record carrying this member key.
fn find_conn(conns: &Vec<SubConn>, key: &String) -> (r: Option<usize>)
    ensures
        match r {
            Some(t) => t < conns@.len() && conn_views(conns@)[t as int].key == key@ && forall|
                u: int,
            |
                0 <= u < t ==> (#[trigger] conn_views(conns@)[u]).key != key@,
            None => forall|u: int|
                0 <= u < conns@.len() ==> (#[trigger] conn_views(conns@)[u]).key != key@,
        },
{
    proof {
        lemma_conn_views_index(conns@);
    }
    let mut i: usize = 0;
    while i < conns.len()
        invariant
            i <= conns@.len(),
            forall|u: int| 0 <= u < i ==> (#[trigger] conn_views(conns@)[u]).key != key@,
        decreases conns@.len() - i,
    {
        proof {
            lemma_conn_views_index(conns@);
        }
        if conns[i].key == *key {
            return Some(i);
        }
        i += 1;
    }
    None
}

/// The per-service-key pool of health records, held in a concurrent map
/// so that distinct keys progress independently. Selection, dispatch and
/// completion all read and write the stored records, so stamps and
/// counters persist across calls; the round-robin position for pair
/// sampling is the `cursor`.
pub struct P2c {
    pub router: Router,
    pub cursor: usize,
}

impl View for P2c {
    type V = Map<Seq<char>, Seq<SubConnView>>;

    closed spec fn view(&self) -> Map<Seq<char>, Seq<SubConnView>> {
        pool_contents(self.router)
    }
}

impl P2c {
    /// The record lists the pool currently holds, by service key.
    pub open spec fn pool(&self) -> Map<Seq<char>, Seq<SubConnView>> {
        self.view()
    }

    /// Relies on dashmap::DashMap::new: a fresh map holds nothing.
    #[verifier::external_body]
    pub fn new() -> (r: P2c)
        ensures
            r@ == empty_pool(),
            r.cursor == 0,
    {
        P2c { router: dashmap::DashMap::new(), cursor: 0 }
    }

    /// A picker over a copy of the service key's current candidate
    /// list, for inspection and snapshot iteration; selection that must
    /// leave its stamps in the pool goes through `pick`, and the
    /// per-call hooks through `dispatch` and `complete`. An absent key
    /// is first initialised from the given membership snapshot with
    /// zeroed counters; no transport work happens here, and an empty
    /// candidate list yields an empty picker, not an error.
    pub fn get_picker(&mut self, service_key: &String, membership: &Vec<Entry>) -> (p:
        InstancePicker)
        ensures
            final(self).pool() == if old(self).pool().contains_key(service_key@) {
                old(self).pool()
            } else {
                old(self).pool().insert(service_key@, fresh_views(views_of(membership@)))
            },
            final(self).pool().contains_key(service_key@),
            conn_views(p.conns@) == final(self).pool()[service_key@],
            p.cursor == 0,
            p.wf(),
            final(self).cursor == old(self).cursor,
    {
        match dm_get(&self.router, service_key) {
            Some(v) => InstancePicker::new(v),
            None => {
                let mut conns: Vec<SubConn> = Vec::new();
                let mut i: usize = 0;
                while i < membership.len()
                    invariant
                        i <= membership@.len(),
                        conns@.len() == i,
                        forall|t: int|
                            0 <= t < i ==> (#[trigger] conns@[t])@ == fresh_view(
                                views_of(membership@)[t],
                            ),
                    decreases membership@.len() - i,
                {
                    let e = &membership[i];
                    conns.push(SubConn::new(e.key.clone(), clone_instance(&e.instance)));
                    i += 1;
                }
                proof {
                    assert(conn_views(conns@) =~= fresh_views(views_of(membership@)));
                }
                dm_insert(&mut self.router, service_key.clone(), conns);
                match dm_get(&self.router, service_key) {
                    Some(v2) => InstancePicker::new(v2),
                    None => {
                        proof {
                            assert(false);
                        }
                        InstancePicker::new(Vec::new())
                    },
                }
            },
        }
    }

    /// Apply a Change to the pool entry for its service key, if the pool
    /// holds one: removed keys lose their record, updated keys keep
    /// their counters under the event's instance, added keys get a fresh
    /// record. Other service keys are untouched.
    pub fn rebalance(&mut self, change: &Change)
        ensures
            final(self).pool() == if old(self).pool().contains_key(change.service_key@) {
                old(self).pool().insert(
                    change.service_key@,
                    rebalanced(
                        old(self).pool()[change.service_key@],
                        views_of(change.removed@),
                        views_of(change.updated@),
                        views_of(change.added@),
                    ),
                )
            } else {
                old(self).pool()
            },
            final(self).cursor == old(self).cursor,
    {
        match dm_get(&self.router, &change.service_key) {
            None => {},
            Some(mut conns) => {
                let ghost cs0 = conn_views(conns@);
                let ghost removedv = views_of(change.removed@);
                let ghost updatedv = views_of(change.updated@);
                let mut out: Vec<SubConn> = Vec::new();
                let ghost total = cs0.len();
                let ghost mut i: int = 0;
                proof {
                    assert(cs0.take(0) =~= Seq::<SubConnView>::empty());
                    assert(conn_views(out@) =~= kept_views(cs0.take(0), removedv, updatedv));
                    assert(conn_views(conns@) =~= cs0.skip(0));
                }
                while conns.len() > 0
                    invariant
                        0 <= i,
                        i + conns@.len() == total,
                        cs0.len() == total,
                        removedv == views_of(change.removed@),
                        updatedv == views_of(change.updated@),
                        conn_views(conns@) =~= cs0.skip(i),
                        conn_views(out@) =~= kept_views(cs0.take(i), removedv, updatedv),
                    decreases conns@.len(),
                {
                    let ghost conns_before = conns@;
                    let mut c = conns.remove(0);
                    proof {
                        lemma_conn_views_index(conns_before);
                        lemma_conn_views_index(conns@);
                        assert(conn_views(conns_before)[0] == c@);
                        assert(c@ == cs0[i]);
                        assert forall|t: int| 0 <= t < conns@.len() implies conn_views(conns@)[t]
                            == cs0.skip(i + 1)[t] by {
                            assert(conn_views(conns@)[t] == conns@[t]@);
                            assert(conns@[t] == conns_before[t + 1]);
                            assert(conn_views(conns_before)[t + 1] == conns_before[t + 1]@);
                            assert(conn_views(conns_before)[t + 1] == cs0.skip(i)[t + 1]);
                            assert(cs0.skip(i)[t + 1] == cs0[i + 1 + t]);
                            assert(cs0.skip(i + 1)[t] == cs0[i + 1 + t]);
                        }
                        assert(conn_views(conns@) =~= cs0.skip(i + 1));
                        assert(cs0.take(i + 1).drop_last() =~= cs0.take(i));
                        assert(cs0.take(i + 1).last() == cs0[i]);
                    }
                    match find_entry_last(&change.removed, &c.key) {
                        Some(_) => {
                            proof {
                                assert(key_in(removedv, cs0[i].key));
                            }
                        },
                        None => {
                            match find_entry_last(&change.updated, &c.key) {
                                Some(u) => {
                                    c.instance = clone_instance(&change.updated[u].instance);
                                    proof {
                                        assert(views_of(change.updated@)[u as int]
                                            == change.updated@[u as int]@);
                                    }
                                },
                                None => {},
                            }
                            proof {
                                assert(c@ == refreshed(cs0[i], updatedv));
                            }
                            out.push(c);
                            proof {
                                assert(conn_views(out@).drop_last() =~= kept_views(
                                    cs0.take(i),
                                    removedv,
                                    updatedv,
                                ));
                                assert(conn_views(out@) =~= kept_views(
                                    cs0.take(i + 1),
                                    removedv,
                                    updatedv,
                                ));
                            }
                        },
                    }
                    proof {
                        i = i + 1;
                    }
                }
                proof {
                    assert(cs0.take(i) =~= cs0);
                }
                let mut j: usize = 0;
                while j < change.added.len()
                    invariant
                        j <= change.added@.len(),
                        removedv == views_of(change.removed@),
                        updatedv == views_of(change.updated@),
                        cs0.len() == total,
                        conn_views(out@) =~= kept_views(cs0, removedv, updatedv) + fresh_views(
                            views_of(change.added@).take(j as int),
                        ),
                    decreases change.added@.len() - j,
                {
                    let e = &change.added[j];
                    let ghost out_before = out@;
                    out.push(SubConn::new(e.key.clone(), clone_instance(&e.instance)));
                    proof {
                        lemma_conn_views_index(out_before);
                        lemma_conn_views_index(out@);
                        let addedv = views_of(change.added@);
                        let kv = kept_views(cs0, removedv, updatedv);
                        assert(addedv[j as int] == change.added@[j as int]@);
                        assert(out@[out_before.len() as int]@ == fresh_view(addedv[j as int]));
                        assert(conn_views(out_before).len() == out_before.len());
                        assert(fresh_views(addedv.take(j as int)).len() == j);
                        assert(conn_views(out_before) == kv + fresh_views(addedv.take(j as int)));
                        assert(out_before.len() == kv.len() + j);
                        assert forall|t: int| 0 <= t < out@.len() implies conn_views(out@)[t] == (kv
                            + fresh_views(addedv.take(j + 1)))[t] by {
                            assert(conn_views(out@)[t] == out@[t]@);
                            if t < out_before.len() {
                                assert(out@[t] == out_before[t]);
                                assert(conn_views(out_before)[t] == out_before[t]@);
                                assert(conn_views(out_before)[t] == (kv + fresh_views(
                                    addedv.take(j as int),
                                ))[t]);
                                if t < kv.len() {
                                    assert((kv + fresh_views(addedv.take(j as int)))[t] == kv[t]);
                                    assert((kv + fresh_views(addedv.take(j + 1)))[t] == kv[t]);
                                } else {
                                    assert((kv + fresh_views(addedv.take(j as int)))[t]
                                        == fresh_views(addedv.take(j as int))[t - kv.len()]);
                                    assert(fresh_views(addedv.take(j as int))[t - kv.len()]
                                        == fresh_view(addedv.take(j as int)[t - kv.len()]));
                                    assert((kv + fresh_views(addedv.take(j + 1)))[t] == fresh_views(
                                        addedv.take(j + 1),
                                    )[t - kv.len()]);
                                    assert(fresh_views(addedv.take(j + 1))[t - kv.len()]
                                        == fresh_view(addedv.take(j + 1)[t - kv.len()]));
                                }
                            } else {
                                assert(t == kv.len() + j);
                                assert((kv + fresh_views(addedv.take(j + 1)))[t] == fresh_views(
                                    addedv.take(j + 1),
                                )[j as int]);
                                assert(fresh_views(addedv.take(j + 1))[j as int] == fresh_view(
                                    addedv.take(j + 1)[j as int],
                                ));
                            }
                        }
                        assert(conn_views(out@) =~= kv + fresh_views(
                            views_of(change.added@).take(j + 1),
                        ));
                    }
                    j += 1;
                }
                proof {
                    assert(views_of(change.added@).take(change.added@.len() as int) =~= views_of(
                        change.added@,
                    ));
                }
                let ghost outv = conn_views(out@);
                dm_insert(&mut self.router, change.service_key.clone(), out);
                proof {
                    assert(outv =~= rebalanced(cs0, removedv, updatedv, views_of(change.added@)));
                }
            },
        }
    }

    /// One selection against the stored records: the round-robin pair of
    /// the service key's list is compared by load with the starvation
    /// override, the winner's stamps are written back to the pool, and
    /// the cursor advances. An absent key or an empty list is the
    /// explicit empty result.
    pub fn pick(&mut self, service_key: &String, now: i64) -> (r: Option<Address>)
        ensures
            ({
                let pool0 = old(self).pool();
                let k = service_key@;
                if !pool0.contains_key(k) || pool0[k].len() == 0 {
                    &&& r is None
                    &&& final(self).pool() == pool0
                    &&& final(self).cursor == old(self).cursor
                } else {
                    let cs = pool0[k];
                    let n = cs.len() as int;
                    let i = old(self).cursor as int % n;
                    let j = if i + 1 < n {
                        i + 1
                    } else {
                        0
                    };
                    if n == 1 {
                        &&& r == Some(cs[0].instance.address)
                        &&& final(self).pool() == pool0.insert(
                            k,
                            cs.update(0, stamped(cs[0], now, false)),
                        )
                        &&& final(self).cursor == 0
                    } else {
                        let second = pick_second(cs[i], cs[j], now);
                        let forced = pick_forced(cs[i], cs[j], now);
                        let w = if second {
                            j
                        } else {
                            i
                        };
                        &&& r == Some(cs[w].instance.address)
                        &&& final(self).pool() == pool0.insert(
                            k,
                            cs.update(w, stamped(cs[w], now, forced)),
                        )
                        &&& final(self).cursor == (if i + 1 < n {
                            i + 1
                        } else {
                            0
                        })
                    }
                }
            }),
    {
        match dm_get(&self.router, service_key) {
            None => None,
            Some(v) => {
                if v.len() == 0 {
                    return None;
                }
                let ghost csv = self.pool()[service_key@];
                let cur = self.cursor % v.len();
                let mut p = InstancePicker { conns: v, cursor: cur };
                let ghost cs_exec = p.conns@;
                proof {
                    lemma_conn_views_index(cs_exec);
                    assert(forall|t: int|
                        0 <= t < cs_exec.len() ==> #[trigger] cs_exec[t]@ == csv[t]);
                }
                let r = p.next_at(now);
                self.cursor = p.cursor;
                let ghost newv = conn_views(p.conns@);
                dm_insert(&mut self.router, service_key.clone(), p.conns);
                proof {
                    let n = csv.len() as int;
                    let i = cur as int;
                    let j = if i + 1 < n {
                        i + 1
                    } else {
                        0int
                    };
                    if n == 1 {
                        assert(newv =~= csv.update(0, stamped(csv[0], now, false)));
                    } else {
                        assert(pick_second(cs_exec[i]@, cs_exec[j]@, now) == pick_second(
                            csv[i],
                            csv[j],
                            now,
                        ));
                        let second = pick_second(csv[i], csv[j], now);
                        let forced = pick_forced(csv[i], csv[j], now);
                        let w = if second {
                            j
                        } else {
                            i
                        };
                        assert(newv =~= csv.update(w, stamped(csv[w], now, forced)));
                        assert(r == Some(cs_exec[w].instance.address));
                        assert(cs_exec[w]@.instance.address == cs_exec[w].instance.address);
                        assert(r == Some(csv[w].instance.address));
                    }
                }
                r
            },
        }
    }

    /// Mark a request as handed to the stored record for `member_key`
    /// under `service_key`: its in-flight and cumulative request
    /// counters rise, everything else is untouched.
    pub fn dispatch(&mut self, service_key: &String, member_key: &String)
        ensures
            final(self).cursor == old(self).cursor,
            ({
                let pool0 = old(self).pool();
                let k = service_key@;
                if pool0.contains_key(k) {
                    let cs = pool0[k];
                    let t = conn_index_of(cs, member_key@);
                    if t < cs.len() {
                        final(self).pool() == pool0.insert(
                            k,
                            cs.update(t, record_dispatched(cs[t])),
                        )
                    } else {
                        final(self).pool() == pool0
                    }
                } else {
                    final(self).pool() == pool0
                }
            }),
    {
        match dm_get(&self.router, service_key) {
            None => {},
            Some(mut conns) => {
                let ghost csv = self.pool()[service_key@];
                proof {
                    lemma_conn_views_index(conns@);
                }
                match find_conn(&conns, member_key) {
                    None => {
                        proof {
                            lemma_conn_index_absent(csv, member_key@);
                        }
                    },
                    Some(t) => {
                        proof {
                            lemma_conn_index_found(csv, member_key@, t as int);
                        }
                        let ghost before = conns@;
                        let mut c = conns.remove(t);
                        c.record_dispatch();
                        conns.insert(t, c);
                        proof {
                            lemma_conn_views_index(conns@);
                            assert(c@ == record_dispatched(csv[t as int]));
                            assert(conns@ =~= before.update(t as int, c));
                            assert(conn_views(conns@) =~= csv.update(
                                t as int,
                                record_dispatched(csv[t as int]),
                            ));
                        }
                        dm_insert(&mut self.router, service_key.clone(), conns);
                    },
                }
            },
        }
    }

    /// The completion hook against the stored record for `member_key`
    /// under `service_key`: its observed lag is recorded, its in-flight
    /// count falls (never below zero), and a success is counted.
    pub fn complete(&mut self, service_key: &String, member_key: &String, lag: u64, ok: bool)
        ensures
            final(self).cursor == old(self).cursor,
            ({
                let pool0 = old(self).pool();
                let k = service_key@;
                if pool0.contains_key(k) {
                    let cs = pool0[k];
                    let t = conn_index_of(cs, member_key@);
                    if t < cs.len() {
                        final(self).pool() == pool0.insert(
                            k,
                            cs.update(t, record_completed(cs[t], lag, ok)),
                        )
                    } else {
                        final(self).pool() == pool0
                    }
                } else {
                    final(self).pool() == pool0
                }
            }),
    {
        match dm_get(&self.router, service_key) {
            None => {},
            Some(mut conns) => {
                let ghost csv = self.pool()[service_key@];
                proof {
                    lemma_conn_views_index(conns@);
                }
                match find_conn(&conns, member_key) {
                    None => {
                        proof {
                            lemma_conn_index_absent(csv, member_key@);
                        }
                    },
                    Some(t) => {
                        proof {
                            lemma_conn_index_found(csv, member_key@, t as int);
                        }
                        let ghost before = conns@;
                        let mut c = conns.remove(t);
                        c.record_completion(lag, ok);
                        conns.insert(t, c);
                        proof {
                            lemma_conn_views_index(conns@);
                            assert(c@ == record_completed(csv[t as int], lag, ok));
                            assert(conns@ =~= before.update(t as int, c));
                            assert(conn_views(conns@) =~= csv.update(
                                t as int,
                                record_completed(csv[t as int], lag, ok),
                            ));
                        }
                        dm_insert(&mut self.router, service_key.clone(), conns);
                    },
                }
            },
        }
    }
}

/// An idle candidate's load is one, not zero: with lag and in-flight
/// both zero the formula gives exactly one, so the zero-load penalty is
/// reachable only from degenerate counter states.
pub proof fn lemma_idle_load()
    ensures
        load_of(0u64, 0i64) == 1i64,
{
    assert(1nat * 1nat <= 1nat && 1nat < (1nat + 1) * (1nat + 1)) by (nonlinear_arith);
    lemma_sqrt_unique(1nat, 1nat);
    assert(sqrt_floor(1nat) == 1nat);
    assert(ceil_sqrt(1nat) == 1nat);
}

/// Any candidate whose in-flight count is non-negative has positive
/// load: the penalty path never fires for a well-formed record.
pub proof fn lemma_load_positive(lag: u64, inflight: i64)
    requires
        inflight >= 0,
    ensures
        load_of(lag, inflight) >= 1,
{
    lemma_sqrt_floor_bounds((lag + 1) as nat);
    let s = ceil_sqrt((lag + 1) as nat);
    if sqrt_floor((lag + 1) as nat) == 0 {
        assert((0nat + 1) * (0nat + 1) == 1nat) by (nonlinear_arith);
        assert(false);
    }
    assert(s >= 1);
    assert(s * (inflight + 1) >= 1) by (nonlinear_arith)
        requires
            s >= 1,
            inflight >= 0,
    ;
}

/// The pairwise pick is blind to argument order: when neither candidate
/// is eligible for a forced pick and the loads differ, the lower-load
/// candidate wins from either order.
pub proof fn lemma_pick_order_blind(c1: SubConnView, c2: SubConnView, now: i64)
    requires
        now - c1.pick <= FORCE_PICK_MILLIS,
        now - c2.pick <= FORCE_PICK_MILLIS,
        load_of(c1.lag, c1.inflight) != load_of(c2.lag, c2.inflight),
    ensures
        winner_of(c1, c2, now) == winner_of(c2, c1, now),
        load_of(winner_of(c1, c2, now).lag, winner_of(c1, c2, now).inflight) <= load_of(
            c1.lag,
            c1.inflight,
        ),
        load_of(winner_of(c1, c2, now).lag, winner_of(c1, c2, now).inflight) <= load_of(
            c2.lag,
            c2.inflight,
        ),
{
}

/// Starvation guarantee: however much higher its load, a candidate
/// whose force-pick slot has gone unclaimed since before the interval
/// began is selected by the next pick after the interval ends.
/// `P2c::pick` writes the claimed slot back to the stored record, so
/// across calls the override fires at most once per interval for each
/// stored candidate.
pub proof fn lemma_starvation_override(a: SubConnView, b: SubConnView, t0: i64, now: i64)
    requires
        load_of(a.lag, a.inflight) <= load_of(b.lag, b.inflight),
        b.pick <= t0,
        now - t0 > FORCE_PICK_MILLIS,
    ensures
        winner_of(a, b, now) == b,
        pick_forced(a, b, now),
{
}

} // verus!
