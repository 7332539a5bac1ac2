//! What the render side keeps track of for each zone: which zones have live
//! playback and which monitors they show on, which `set`s still wait for a
//! surface to render to, and which new players still need their wakeup
//! wired. The GL and player work itself is the caller's; this decides.
use vstd::prelude::*;
use vstd::string::*;
use crate::daemon::copy_strings;
use crate::geometry::Rect;
use crate::order::texts;
use crate::zones::ZoneApplyOutcome;

verus! {

broadcast use vstd::string::group_string_axioms;

/// A zone with live playback: the bounding box its frame was made for and
/// the monitors it shows on.
#[derive(Debug)]
pub struct LiveZone {
    pub zone_id: u64,
    pub bounding_box: Rect,
    pub monitors: Vec<String>,
}

/// A `set` that could not be realized yet (no GL context, or none of its
/// monitors has a surface), kept to be retried.
#[derive(Debug)]
pub struct PendingSet {
    pub outcome: ZoneApplyOutcome,
    pub monitors: Vec<String>,
    pub path: String,
}

pub struct LiveView {
    pub bounding_box: Rect,
    pub monitors: Seq<Seq<char>>,
}

pub struct PendingView {
    pub bounding_box: Rect,
    pub dissolved: Seq<u64>,
    pub monitors: Seq<Seq<char>>,
    pub path: Seq<char>,
}

impl View for LiveZone {
    type V = LiveView;

    open spec fn view(&self) -> LiveView {
        LiveView { bounding_box: self.bounding_box, monitors: texts(self.monitors@) }
    }
}

impl View for PendingSet {
    type V = PendingView;

    open spec fn view(&self) -> PendingView {
        PendingView {
            bounding_box: self.outcome.bounding_box,
            dissolved: self.outcome.dissolved_zone_ids@,
            monitors: texts(self.monitors@),
            path: self.path@,
        }
    }
}

impl PendingSet {
    /// An identical copy.
    pub fn duplicate(&self) -> (r: PendingSet)
        ensures
            r@ == self@,
            r.outcome.zone_id == self.outcome.zone_id,
    {
        PendingSet { outcome: self.outcome.clone(), monitors: copy_strings(self.monitors.as_slice()), path: self.path.clone() }
    }
}

/// The map a list of `(key, value)` pairs describes, a later pair winning.
pub open spec fn keyed<K, V>(s: Seq<(K, V)>) -> Map<K, V>
    decreases s.len(),
{
    if s.len() == 0 {
        Map::empty()
    } else {
        keyed(s.drop_last()).insert(s.last().0, s.last().1)
    }
}

pub open spec fn keys_unique<K, V>(s: Seq<(K, V)>) -> bool {
    forall|i: int, j: int| 0 <= i < j < s.len() ==> #[trigger] s[i].0 != #[trigger] s[j].0
}

proof fn lemma_unique_prefix<K, V>(s: Seq<(K, V)>)
    requires
        keys_unique(s),
        s.len() > 0,
    ensures
        keys_unique(s.drop_last()),
{
    let p = s.drop_last();
    assert forall|i: int, j: int| 0 <= i < j < p.len() implies #[trigger] p[i].0 != #[trigger] p[j].0 by {
        assert(p[i] == s[i] && p[j] == s[j]);
    }
}

/// With unique keys, the map holds exactly each pair.
pub proof fn lemma_keyed<K, V>(s: Seq<(K, V)>)
    requires
        keys_unique(s),
    ensures
        forall|k: K| #[trigger] keyed(s).contains_key(k) <==> exists|i: int| 0 <= i < s.len() && #[trigger] s[i].0 == k,
        forall|i: int| 0 <= i < s.len() ==> #[trigger] keyed(s)[s[i].0] == s[i].1,
        keyed(s).dom().finite(),
        keyed(s).dom().len() == s.len(),
    decreases s.len(),
{
    if s.len() > 0 {
        let p = s.drop_last();
        lemma_unique_prefix(s);
        lemma_keyed(p);
        let last = s.len() - 1;
        assert forall|k: K| #[trigger] keyed(s).contains_key(k) <==> exists|i: int| 0 <= i < s.len() && #[trigger] s[i].0 == k by {
            if keyed(s).contains_key(k) && k != s.last().0 {
                let i = choose|i: int| 0 <= i < p.len() && #[trigger] p[i].0 == k;
                assert(s[i] == p[i]);
            }
            if exists|i: int| 0 <= i < s.len() && #[trigger] s[i].0 == k {
                let i = choose|i: int| 0 <= i < s.len() && #[trigger] s[i].0 == k;
                if i < last {
                    assert(p[i] == s[i]);
                }
            }
        }
        assert forall|i: int| 0 <= i < s.len() implies #[trigger] keyed(s)[s[i].0] == s[i].1 by {
            if i < last {
                assert(p[i] == s[i]);
                assert(s[i].0 != s[last].0);
            }
        }
        assert(!keyed(p).contains_key(s.last().0)) by {
            if keyed(p).contains_key(s.last().0) {
                let i = choose|i: int| 0 <= i < p.len() && #[trigger] p[i].0 == s.last().0;
                assert(p[i] == s[i]);
            }
        }
    }
}

/// Dropping the pair at `i` drops its key.
pub proof fn lemma_keyed_remove<K, V>(s: Seq<(K, V)>, i: int)
    requires
        keys_unique(s),
        0 <= i < s.len(),
    ensures
        keys_unique(s.remove(i)),
        keyed(s.remove(i)) == keyed(s).remove(s[i].0),
{
    let r = s.remove(i);
    assert forall|a: int, b: int| 0 <= a < b < r.len() implies #[trigger] r[a].0 != #[trigger] r[b].0 by {
        let oa = if a < i { a } else { a + 1 };
        let ob = if b < i { b } else { b + 1 };
        assert(r[a] == s[oa] && r[b] == s[ob]);
    }
    lemma_keyed(s);
    lemma_keyed(r);
    assert(keyed(r) =~= keyed(s).remove(s[i].0)) by {
        assert forall|k: K| #[trigger] keyed(r).contains_key(k) <==> keyed(s).remove(s[i].0).contains_key(k) by {
            if keyed(r).contains_key(k) {
                let a = choose|a: int| 0 <= a < r.len() && #[trigger] r[a].0 == k;
                let oa = if a < i { a } else { a + 1 };
                assert(r[a] == s[oa]);
            }
            if keyed(s).remove(s[i].0).contains_key(k) {
                let a = choose|a: int| 0 <= a < s.len() && #[trigger] s[a].0 == k;
                assert(a != i);
                let ra = if a < i { a } else { a - 1 };
                assert(r[ra] == s[a]);
            }
        }
        assert forall|k: K| #[trigger] keyed(r).contains_key(k) implies keyed(r)[k] == keyed(s)[k] by {
            let a = choose|a: int| 0 <= a < r.len() && #[trigger] r[a].0 == k;
            let oa = if a < i { a } else { a + 1 };
            assert(r[a] == s[oa]);
        }
    }
}

/// Replacing the value at `i` updates its key's value.
pub proof fn lemma_keyed_update<K, V>(s: Seq<(K, V)>, i: int, v: V)
    requires
        keys_unique(s),
        0 <= i < s.len(),
    ensures
        keys_unique(s.update(i, (s[i].0, v))),
        keyed(s.update(i, (s[i].0, v))) == keyed(s).insert(s[i].0, v),
{
    let u = s.update(i, (s[i].0, v));
    assert forall|a: int, b: int| 0 <= a < b < u.len() implies #[trigger] u[a].0 != #[trigger] u[b].0 by {
        assert(u[a].0 == s[a].0 && u[b].0 == s[b].0);
    }
    lemma_keyed(s);
    lemma_keyed(u);
    assert(keyed(u) =~= keyed(s).insert(s[i].0, v)) by {
        assert forall|k: K| #[trigger] keyed(u).contains_key(k) <==> keyed(s).insert(s[i].0, v).contains_key(k) by {
            if keyed(u).contains_key(k) {
                let a = choose|a: int| 0 <= a < u.len() && #[trigger] u[a].0 == k;
                assert(u[a].0 == s[a].0);
            }
            if keyed(s).contains_key(k) {
                let a = choose|a: int| 0 <= a < s.len() && #[trigger] s[a].0 == k;
                assert(u[a].0 == s[a].0);
            }
            assert(u[i].0 == s[i].0);
        }
        assert forall|k: K| #[trigger] keyed(u).contains_key(k) implies keyed(u)[k] == keyed(s).insert(s[i].0, v)[k] by {
            let a = choose|a: int| 0 <= a < u.len() && #[trigger] u[a].0 == k;
            if a != i {
                assert(u[a] == s[a]);
            }
        }
    }
}

/// Appending a pair with a new key adds it.
pub proof fn lemma_keyed_push<K, V>(s: Seq<(K, V)>, k: K, v: V)
    requires
        keys_unique(s),
        !keyed(s).contains_key(k),
    ensures
        keys_unique(s.push((k, v))),
        keyed(s.push((k, v))) == keyed(s).insert(k, v),
{
    lemma_keyed(s);
    let t = s.push((k, v));
    assert forall|a: int, b: int| 0 <= a < b < t.len() implies #[trigger] t[a].0 != #[trigger] t[b].0 by {
        if b == s.len() {
            assert(t[a] == s[a]);
        } else {
            assert(t[a] == s[a] && t[b] == s[b]);
        }
    }
    assert(t.drop_last() =~= s);
}

pub open spec fn live_pairs(s: Seq<LiveZone>) -> Seq<(u64, LiveView)> {
    s.map_values(|z: LiveZone| (z.zone_id, z@))
}

pub open spec fn pending_pairs(s: Seq<PendingSet>) -> Seq<(u64, PendingView)> {
    s.map_values(|p: PendingSet| (p.outcome.zone_id, p@))
}

/// The render side's bookkeeping as plain values.
pub struct BookView {
    pub live: Map<u64, LiveView>,
    pub pending: Map<u64, PendingView>,
    pub wakeups: Seq<u64>,
}

/// Which zones play, which `set`s wait, which players need their wakeup
/// wired.
pub struct PlaybackBook {
    live: Vec<LiveZone>,
    pending: Vec<PendingSet>,
    wakeups: Vec<u64>,
}

impl View for PlaybackBook {
    type V = BookView;

    closed spec fn view(&self) -> BookView {
        BookView { live: keyed(live_pairs(self.live@)), pending: keyed(pending_pairs(self.pending@)), wakeups: self.wakeups@ }
    }
}

/// The bookkeeping after freeing the playback of each of `ids` in turn, and
/// the ids among them that had live playback to free.
pub open spec fn drop_ids(b: BookView, ids: Seq<u64>) -> (BookView, Seq<u64>)
    decreases ids.len(),
{
    if ids.len() == 0 {
        (b, seq![])
    } else {
        let (b1, d1) = drop_ids(b, ids.drop_last());
        let x = ids.last();
        (
            BookView { live: b1.live.remove(x), pending: b1.pending.remove(x), wakeups: b1.wakeups },
            if b1.live.contains_key(x) {
                d1.push(x)
            } else {
                d1
            },
        )
    }
}

/// `begin_set` on the bookkeeping `b`, for the `set` forming zone `id`
/// described by `p`: the new bookkeeping, the zones whose playback to free,
/// and whether to (re)build (`None`: it waits).
pub open spec fn begin_set_spec(b: BookView, id: u64, p: PendingView, ready: bool) -> (BookView, Seq<u64>, Option<bool>) {
    let (b1, d) = drop_ids(b, p.dissolved);
    if ready {
        (
            BookView { pending: b1.pending.remove(id), ..b1 },
            d,
            Some(!b1.live.contains_key(id) || b1.live[id].bounding_box != p.bounding_box),
        )
    } else {
        (BookView { pending: b1.pending.insert(id, p), ..b1 }, d, None)
    }
}

/// Freeing zones that neither play nor wait changes nothing.
proof fn lemma_drop_absent(b: BookView, ids: Seq<u64>)
    requires
        forall|k: int| 0 <= k < ids.len() ==> !b.live.contains_key(#[trigger] ids[k]) && !b.pending.contains_key(ids[k]),
    ensures
        drop_ids(b, ids).0 == b,
        drop_ids(b, ids).1 == Seq::<u64>::empty(),
    decreases ids.len(),
{
    if ids.len() > 0 {
        let p = ids.drop_last();
        assert forall|k: int| 0 <= k < p.len() implies !b.live.contains_key(#[trigger] p[k]) && !b.pending.contains_key(p[k]) by {
            assert(p[k] == ids[k]);
        }
        lemma_drop_absent(b, p);
        let x = ids.last();
        assert(x == ids[ids.len() - 1]);
        assert(b.live.remove(x) =~= b.live);
        assert(b.pending.remove(x) =~= b.pending);
    }
}

/// Retrying a waiting `set` while still not ready leaves the bookkeeping as
/// it was, once the zones it dissolved are gone (as they are after its
/// first try): retrying is idempotent.
pub proof fn law_retry_not_ready_is_idempotent(b: BookView, id: u64)
    requires
        b.pending.contains_key(id),
        forall|k: int|
            0 <= k < b.pending[id].dissolved.len() ==> !b.live.contains_key(#[trigger] b.pending[id].dissolved[k])
                && !b.pending.contains_key(b.pending[id].dissolved[k]),
    ensures
        begin_set_spec(b, id, b.pending[id], false).0 == b,
        begin_set_spec(b, id, b.pending[id], false).1 == Seq::<u64>::empty(),
{
    lemma_drop_absent(b, b.pending[id].dissolved);
    assert(b.pending.insert(id, b.pending[id]) =~= b.pending);
}

/// A `set` that is not ready never makes its zone live, and leaves it
/// waiting.
pub proof fn law_not_ready_waits(b: BookView, id: u64, p: PendingView)
    requires
        !b.live.contains_key(id),
    ensures
        !begin_set_spec(b, id, p, false).0.live.contains_key(id),
        begin_set_spec(b, id, p, false).0.pending.contains_key(id),
        begin_set_spec(b, id, p, false).2 is None,
{
    lemma_drop_keeps_out(b, p.dissolved, id);
}

/// Freeing zones never makes a zone live.
proof fn lemma_drop_keeps_out(b: BookView, ids: Seq<u64>, id: u64)
    requires
        !b.live.contains_key(id),
    ensures
        !drop_ids(b, ids).0.live.contains_key(id),
    decreases ids.len(),
{
    if ids.len() > 0 {
        lemma_drop_keeps_out(b, ids.drop_last(), id);
    }
}

/// What `begin_set` decided.
#[derive(Debug)]
pub struct SetPlan {
    /// Zones, dissolved by the `set`, whose playback is to be freed.
    pub destroyed: Vec<u64>,
    /// `None`: not ready, the `set` waits. `Some(true)`: (re)build the
    /// zone's frame and player. `Some(false)`: keep them, reload the path.
    pub rebuild: Option<bool>,
}

impl PlaybackBook {
    #[verifier::type_invariant]
    closed spec fn inv(self) -> bool {
        &&& keys_unique(live_pairs(self.live@))
        &&& keys_unique(pending_pairs(self.pending@))
    }

    /// Nothing playing, nothing waiting.
    pub fn new() -> (r: Self)
        ensures
            r@.live == Map::<u64, LiveView>::empty(),
            r@.pending == Map::<u64, PendingView>::empty(),
            r@.wakeups == Seq::<u64>::empty(),
    {
        let r = PlaybackBook { live: Vec::new(), pending: Vec::new(), wakeups: Vec::new() };
        proof {
            assert(live_pairs(r.live@) =~= Seq::<(u64, LiveView)>::empty());
            assert(pending_pairs(r.pending@) =~= Seq::<(u64, PendingView)>::empty());
        }
        r
    }

    fn live_index(&self, id: u64) -> (r: Option<usize>)
        ensures
            match r {
                Some(i) => i < self.live@.len() && self.live@[i as int].zone_id == id,
                None => !self@.live.contains_key(id),
            },
    {
        proof {
            use_type_invariant(self);
            lemma_keyed(live_pairs(self.live@));
        }
        let mut i: usize = 0;
        while i < self.live.len()
            invariant
                i <= self.live@.len(),
                forall|j: int| 0 <= j < i ==> self.live@[j].zone_id != id,
            decreases self.live@.len() - i,
        {
            if self.live[i].zone_id == id {
                return Some(i);
            }
            i = i + 1;
        }
        proof {
            if self@.live.contains_key(id) {
                let j = choose|j: int| 0 <= j < live_pairs(self.live@).len() && #[trigger] live_pairs(self.live@)[j].0 == id;
                assert(live_pairs(self.live@)[j].0 == self.live@[j].zone_id);
            }
        }
        None
    }

    fn pending_index(&self, id: u64) -> (r: Option<usize>)
        ensures
            match r {
                Some(i) => i < self.pending@.len() && self.pending@[i as int].outcome.zone_id == id,
                None => !self@.pending.contains_key(id),
            },
    {
        proof {
            use_type_invariant(self);
            lemma_keyed(pending_pairs(self.pending@));
        }
        let mut i: usize = 0;
        while i < self.pending.len()
            invariant
                i <= self.pending@.len(),
                forall|j: int| 0 <= j < i ==> self.pending@[j].outcome.zone_id != id,
            decreases self.pending@.len() - i,
        {
            if self.pending[i].outcome.zone_id == id {
                return Some(i);
            }
            i = i + 1;
        }
        proof {
            if self@.pending.contains_key(id) {
                let j = choose|j: int|
                    0 <= j < pending_pairs(self.pending@).len() && #[trigger] pending_pairs(self.pending@)[j].0 == id;
                assert(pending_pairs(self.pending@)[j].0 == self.pending@[j].outcome.zone_id);
            }
        }
        None
    }

    /// Forgets the `set` waiting for zone `id`, if any.
    fn forget_pending(&mut self, id: u64)
        ensures
            final(self)@ == (BookView { pending: old(self)@.pending.remove(id), ..old(self)@ }),
    {
        proof {
            use_type_invariant(&*self);
        }
        match self.pending_index(id) {
            Some(i) => {
                let mut pending: Vec<PendingSet> = Vec::new();
                std::mem::swap(&mut pending, &mut self.pending);
                let ghost before = pending@;
                pending.remove(i);
                proof {
                    assert(pending_pairs(pending@) =~= pending_pairs(before).remove(i as int));
                    lemma_keyed_remove(pending_pairs(before), i as int);
                }
                self.pending = pending;
            },
            None => {
                proof {
                    assert(old(self)@.pending.remove(id) =~= old(self)@.pending);
                }
            },
        }
    }

    /// Frees zone `id`'s playback and forgets a `set` waiting for it.
    /// Returns whether it had live playback (whose frame and player the
    /// caller then frees).
    pub fn drop_zone_playback(&mut self, id: u64) -> (r: bool)
        ensures
            r == old(self)@.live.contains_key(id),
            final(self)@ == (BookView {
                live: old(self)@.live.remove(id),
                pending: old(self)@.pending.remove(id),
                wakeups: old(self)@.wakeups,
            }),
    {
        proof {
            use_type_invariant(&*self);
        }
        let had = match self.live_index(id) {
            Some(i) => {
                let mut live: Vec<LiveZone> = Vec::new();
                std::mem::swap(&mut live, &mut self.live);
                let ghost before = live@;
                live.remove(i);
                proof {
                    assert(live_pairs(live@) =~= live_pairs(before).remove(i as int));
                    lemma_keyed_remove(live_pairs(before), i as int);
                    lemma_keyed(live_pairs(before));
                    assert(live_pairs(before)[i as int].0 == id);
                }
                self.live = live;
                true
            },
            None => {
                proof {
                    assert(old(self)@.live.remove(id) =~= old(self)@.live);
                }
                false
            },
        };
        self.forget_pending(id);
        had
    }

    /// Tears down zone `id`'s playback, as when its last monitor went away.
    pub fn teardown_zone(&mut self, id: u64) -> (r: bool)
        ensures
            r == old(self)@.live.contains_key(id),
            final(self)@ == (BookView {
                live: old(self)@.live.remove(id),
                pending: old(self)@.pending.remove(id),
                wakeups: old(self)@.wakeups,
            }),
    {
        self.drop_zone_playback(id)
    }

    /// Keeps (or replaces) the `set` waiting for its zone.
    fn record_pending(&mut self, outcome: &ZoneApplyOutcome, monitors: &[String], path: &str)
        ensures
            final(self)@ == (BookView {
                pending: old(self)@.pending.insert(
                    outcome.zone_id,
                    PendingView {
                        bounding_box: outcome.bounding_box,
                        dissolved: outcome.dissolved_zone_ids@,
                        monitors: texts(monitors@),
                        path: path@,
                    },
                ),
                ..old(self)@
            }),
    {
        proof {
            use_type_invariant(&*self);
        }
        let p = PendingSet { outcome: outcome.clone(), monitors: copy_strings(monitors), path: path.to_owned() };
        let ghost pv = p@;
        match self.pending_index(outcome.zone_id) {
            Some(i) => {
                let mut pending: Vec<PendingSet> = Vec::new();
                std::mem::swap(&mut pending, &mut self.pending);
                let ghost before = pending@;
                pending.set(i, p);
                proof {
                    assert(pending_pairs(pending@) =~= pending_pairs(before).update(
                        i as int,
                        (pending_pairs(before)[i as int].0, pv),
                    ));
                    lemma_keyed_update(pending_pairs(before), i as int, pv);
                }
                self.pending = pending;
            },
            None => {
                let mut pending: Vec<PendingSet> = Vec::new();
                std::mem::swap(&mut pending, &mut self.pending);
                let ghost before = pending@;
                pending.push(p);
                proof {
                    assert(pending_pairs(pending@) =~= pending_pairs(before).push((outcome.zone_id, pv)));
                    lemma_keyed_push(pending_pairs(before), outcome.zone_id, pv);
                }
                self.pending = pending;
            },
        }
    }

    /// How many `set`s wait.
    pub fn pending_set_count(&self) -> (r: usize)
        ensures
            r == self@.pending.dom().len(),
    {
        proof {
            use_type_invariant(self);
            lemma_keyed(pending_pairs(self.pending@));
        }
        self.pending.len()
    }

    /// How many zones have live playback.
    pub fn live_zone_count(&self) -> (r: usize)
        ensures
            r == self@.live.dom().len(),
    {
        proof {
            use_type_invariant(self);
            lemma_keyed(live_pairs(self.live@));
        }
        self.live.len()
    }

    /// The ids of the zones with live playback.
    pub fn live_zone_ids(&self) -> (r: Vec<u64>)
        ensures
            forall|id: u64| #[trigger] r@.contains(id) <==> self@.live.contains_key(id),
    {
        proof {
            use_type_invariant(self);
            lemma_keyed(live_pairs(self.live@));
        }
        let mut r: Vec<u64> = Vec::new();
        let mut i: usize = 0;
        while i < self.live.len()
            invariant
                i <= self.live@.len(),
                r@.len() == i,
                forall|j: int| 0 <= j < i ==> #[trigger] r@[j] == self.live@[j].zone_id,
            decreases self.live@.len() - i,
        {
            r.push(self.live[i].zone_id);
            i = i + 1;
        }
        proof {
            assert forall|id: u64| #[trigger] r@.contains(id) <==> self@.live.contains_key(id) by {
                if r@.contains(id) {
                    let j = choose|j: int| 0 <= j < r@.len() && r@[j] == id;
                    assert(live_pairs(self.live@)[j].0 == id);
                }
                if self@.live.contains_key(id) {
                    let j = choose|j: int| 0 <= j < live_pairs(self.live@).len() && #[trigger] live_pairs(self.live@)[j].0 == id;
                    assert(r@[j] == id);
                }
            }
        }
        r
    }

    /// Whether `name` is a member of some zone with live playback.
    pub fn is_monitor_live(&self, name: &str) -> (r: bool)
        ensures
            r == exists|id: u64| #[trigger] self@.live.contains_key(id) && self@.live[id].monitors.contains(name@),
    {
        proof {
            use_type_invariant(self);
            lemma_keyed(live_pairs(self.live@));
        }
        let mut i: usize = 0;
        while i < self.live.len()
            invariant
                i <= self.live@.len(),
                forall|j: int| 0 <= j < i ==> !(#[trigger] self.live@[j]@).monitors.contains(name@),
            decreases self.live@.len() - i,
        {
            if crate::zones::contains_name(self.live[i].monitors.as_slice(), name) {
                proof {
                    use_type_invariant(self);
                    lemma_keyed(live_pairs(self.live@));
                    let id = self.live@[i as int].zone_id;
                    let ps = live_pairs(self.live@);
                    assert(ps[i as int] == (id, self.live@[i as int]@));
                    assert(ps[i as int].0 == id);
                    assert(self@.live == keyed(ps));
                    assert(keyed(ps).contains_key(id));
                    assert(keyed(ps)[ps[i as int].0] == ps[i as int].1);
                    assert(self@.live[id] == self.live@[i as int]@);
                }
                return true;
            }
            i = i + 1;
        }
        proof {
            assert forall|id: u64| #[trigger] self@.live.contains_key(id) implies !self@.live[id].monitors.contains(name@) by {
                let j = choose|j: int| 0 <= j < live_pairs(self.live@).len() && #[trigger] live_pairs(self.live@)[j].0 == id;
                assert(live_pairs(self.live@)[j] == (id, self.live@[j]@));
                assert(self@.live[id] == self.live@[j]@);
            }
        }
        false
    }

    /// The members of zone `id`'s live playback, if it has any.
    pub fn members_of(&self, id: u64) -> (r: Option<Vec<String>>)
        ensures
            match r {
                Some(ms) => self@.live.contains_key(id) && texts(ms@) == self@.live[id].monitors,
                None => !self@.live.contains_key(id),
            },
    {
        proof {
            use_type_invariant(self);
            lemma_keyed(live_pairs(self.live@));
        }
        match self.live_index(id) {
            Some(i) => {
                proof {
                    assert(live_pairs(self.live@)[i as int].0 == id);
                }
                Some(copy_strings(self.live[i].monitors.as_slice()))
            },
            None => None,
        }
    }

    /// Copies of the waiting `set`s, each zone's once.
    pub fn pending_sets(&self) -> (r: Vec<PendingSet>)
        ensures
            r@.len() == self@.pending.dom().len(),
            forall|i: int| 0 <= i < r@.len() ==> #[trigger] self@.pending.contains_key(r@[i].outcome.zone_id)
                && self@.pending[r@[i].outcome.zone_id] == r@[i]@,
            forall|i: int, j: int| 0 <= i < j < r@.len() ==> #[trigger] r@[i].outcome.zone_id != #[trigger] r@[j].outcome.zone_id,
    {
        proof {
            use_type_invariant(self);
            lemma_keyed(pending_pairs(self.pending@));
        }
        let mut r: Vec<PendingSet> = Vec::new();
        let mut i: usize = 0;
        while i < self.pending.len()
            invariant
                i <= self.pending@.len(),
                r@.len() == i,
                forall|j: int| 0 <= j < i ==> (#[trigger] r@[j])@ == self.pending@[j]@ && r@[j].outcome.zone_id
                    == self.pending@[j].outcome.zone_id,
            decreases self.pending@.len() - i,
        {
            r.push(self.pending[i].duplicate());
            i = i + 1;
        }
        proof {
            assert forall|a: int| 0 <= a < r@.len() implies #[trigger] self@.pending.contains_key(r@[a].outcome.zone_id)
                && self@.pending[r@[a].outcome.zone_id] == r@[a]@ by {
                assert(pending_pairs(self.pending@)[a].0 == r@[a].outcome.zone_id);
            }
            assert forall|a: int, b: int| 0 <= a < b < r@.len() implies #[trigger] r@[a].outcome.zone_id
                != #[trigger] r@[b].outcome.zone_id by {
                assert(pending_pairs(self.pending@)[a].0 == r@[a].outcome.zone_id);
                assert(pending_pairs(self.pending@)[b].0 == r@[b].outcome.zone_id);
            }
        }
        r
    }

    /// First step of realizing a `set`: frees the playback of the zones it
    /// dissolved; then, when `ready` (a GL context and a surface of one of
    /// `monitors` exist), stops waiting for it and says whether the zone's
    /// frame and player must be (re)built (none yet, or another bounding
    /// box); else keeps it waiting.
    pub fn begin_set(&mut self, outcome: &ZoneApplyOutcome, monitors: &[String], path: &str, ready: bool) -> (r: SetPlan)
        ensures
            ({
                let step = begin_set_spec(
                    old(self)@,
                    outcome.zone_id,
                    PendingView {
                        bounding_box: outcome.bounding_box,
                        dissolved: outcome.dissolved_zone_ids@,
                        monitors: texts(monitors@),
                        path: path@,
                    },
                    ready,
                );
                &&& final(self)@ == step.0
                &&& r.destroyed@ == step.1
                &&& r.rebuild == step.2
            }),
    {
        let ghost ids = outcome.dissolved_zone_ids@;
        let mut destroyed: Vec<u64> = Vec::new();
        let mut i: usize = 0;
        proof {
            assert(ids.take(0) =~= Seq::<u64>::empty());
        }
        while i < outcome.dissolved_zone_ids.len()
            invariant
                i <= ids.len(),
                ids == outcome.dissolved_zone_ids@,
                self@ == drop_ids(old(self)@, ids.take(i as int)).0,
                destroyed@ == drop_ids(old(self)@, ids.take(i as int)).1,
            decreases ids.len() - i,
        {
            let x = outcome.dissolved_zone_ids[i];
            proof {
                assert(ids.take(i + 1int).drop_last() =~= ids.take(i as int));
                assert(ids.take(i + 1int).last() == x);
            }
            if self.drop_zone_playback(x) {
                destroyed.push(x);
            }
            i = i + 1;
        }
        proof {
            assert(ids.take(ids.len() as int) =~= ids);
        }
        if !ready {
            self.record_pending(outcome, monitors, path);
            return SetPlan { destroyed, rebuild: None };
        }
        self.forget_pending(outcome.zone_id);
        let rebuild = match self.live_index(outcome.zone_id) {
            Some(k) => {
                proof {
                    use_type_invariant(&*self);
                    lemma_keyed(live_pairs(self.live@));
                    assert(live_pairs(self.live@)[k as int].0 == outcome.zone_id);
                }
                self.live[k].bounding_box != outcome.bounding_box
            },
            None => true,
        };
        SetPlan { destroyed, rebuild: Some(rebuild) }
    }

    /// Records that zone `id` now plays, on `monitors`, a frame made for
    /// `bounding_box`, and that its new player needs its wakeup wired.
    pub fn record_started(&mut self, id: u64, bounding_box: Rect, monitors: &[String])
        ensures
            final(self)@ == (BookView {
                live: old(self)@.live.insert(id, LiveView { bounding_box, monitors: texts(monitors@) }),
                pending: old(self)@.pending,
                wakeups: old(self)@.wakeups.push(id),
            }),
    {
        proof {
            use_type_invariant(&*self);
        }
        let z = LiveZone { zone_id: id, bounding_box, monitors: copy_strings(monitors) };
        let ghost zv = z@;
        match self.live_index(id) {
            Some(i) => {
                let mut live: Vec<LiveZone> = Vec::new();
                std::mem::swap(&mut live, &mut self.live);
                let ghost before = live@;
                live.set(i, z);
                proof {
                    assert(live_pairs(live@) =~= live_pairs(before).update(i as int, (live_pairs(before)[i as int].0, zv)));
                    lemma_keyed_update(live_pairs(before), i as int, zv);
                }
                self.live = live;
            },
            None => {
                let mut live: Vec<LiveZone> = Vec::new();
                std::mem::swap(&mut live, &mut self.live);
                let ghost before = live@;
                live.push(z);
                proof {
                    assert(live_pairs(live@) =~= live_pairs(before).push((id, zv)));
                    lemma_keyed_push(live_pairs(before), id, zv);
                }
                self.live = live;
            },
        }
        let mut w: Vec<u64> = Vec::new();
        std::mem::swap(&mut w, &mut self.wakeups);
        w.push(id);
        self.wakeups = w;
    }

    /// Records that zone `id`'s playback, kept as it was, now shows on
    /// `monitors`; nothing changes when it has no live playback.
    pub fn update_members(&mut self, id: u64, monitors: &[String])
        ensures
            final(self)@ == (if old(self)@.live.contains_key(id) {
                BookView {
                    live: old(self)@.live.insert(
                        id,
                        LiveView { bounding_box: old(self)@.live[id].bounding_box, monitors: texts(monitors@) },
                    ),
                    ..old(self)@
                }
            } else {
                old(self)@
            }),
    {
        proof {
            use_type_invariant(&*self);
            lemma_keyed(live_pairs(self.live@));
        }
        match self.live_index(id) {
            Some(i) => {
                let bbox = self.live[i].bounding_box;
                let z = LiveZone { zone_id: id, bounding_box: bbox, monitors: copy_strings(monitors) };
                let ghost zv = z@;
                let mut live: Vec<LiveZone> = Vec::new();
                std::mem::swap(&mut live, &mut self.live);
                let ghost before = live@;
                proof {
                    assert(live_pairs(before)[i as int].0 == id);
                }
                live.set(i, z);
                proof {
                    assert(live_pairs(live@) =~= live_pairs(before).update(i as int, (live_pairs(before)[i as int].0, zv)));
                    lemma_keyed_update(live_pairs(before), i as int, zv);
                }
                self.live = live;
            },
            None => {},
        }
    }

    /// Hands out, and forgets, the zones whose new player needs its wakeup
    /// wired.
    pub fn take_wakeups(&mut self) -> (r: Vec<u64>)
        ensures
            r@ == old(self)@.wakeups,
            final(self)@ == (BookView { wakeups: Seq::<u64>::empty(), ..old(self)@ }),
    {
        proof {
            use_type_invariant(&*self);
        }
        let mut w: Vec<u64> = Vec::new();
        std::mem::swap(&mut w, &mut self.wakeups);
        w
    }
}

} // verus!
