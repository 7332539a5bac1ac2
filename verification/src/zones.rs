//! Zones: groups of monitors that play one wallpaper stretched across their
//! combined bounding box. Every monitor belongs to at most one zone.
use vstd::prelude::*;
use crate::geometry::{Rect, union_fits, union_spec};
use crate::order::{lemma_sorted_copy_unique, sort_strings, texts};
use crate::registry::MonitorRegistry;
use crate::text::str_eq;

verus! {

/// A group of monitors showing one wallpaper.
#[derive(Debug, PartialEq, Eq)]
pub struct Zone {
    pub id: u64,
    pub monitors: Vec<String>,
    pub path: Option<String>,
    pub bounding_box: Option<Rect>,
}

/// A zone as plain values.
pub struct ZoneView {
    pub id: u64,
    pub monitors: Seq<Seq<char>>,
    pub path: Option<Seq<char>>,
    pub bounding_box: Option<Rect>,
}

pub open spec fn opt_text(o: Option<String>) -> Option<Seq<char>> {
    match o {
        Some(s) => Some(s@),
        None => None,
    }
}

impl View for Zone {
    type V = ZoneView;

    open spec fn view(&self) -> ZoneView {
        ZoneView {
            id: self.id,
            monitors: texts(self.monitors@),
            path: opt_text(self.path),
            bounding_box: self.bounding_box,
        }
    }
}

pub open spec fn zone_views(zs: Seq<Zone>) -> Seq<ZoneView> {
    zs.map_values(|z: Zone| z@)
}

pub fn clone_strings(v: &Vec<String>) -> (r: Vec<String>)
    ensures
        r@ == v@,
{
    let mut r: Vec<String> = Vec::new();
    let mut i: usize = 0;
    while i < v.len()
        invariant
            i <= v@.len(),
            r@ =~= v@.take(i as int),
        decreases v@.len() - i,
    {
        r.push(v[i].clone());
        proof {
            assert(v@.take(i + 1int) =~= v@.take(i as int).push(v@[i as int]));
        }
        i = i + 1;
    }
    proof {
        assert(v@.take(v@.len() as int) =~= v@);
    }
    r
}

pub fn clone_opt_string(o: &Option<String>) -> (r: Option<String>)
    ensures
        r == *o,
{
    match o {
        Some(s) => Some(s.clone()),
        None => None,
    }
}

impl Zone {
    /// An identical copy.
    pub fn duplicate(&self) -> (r: Zone)
        ensures
            r@ == self@,
    {
        Zone {
            id: self.id,
            monitors: clone_strings(&self.monitors),
            path: clone_opt_string(&self.path),
            bounding_box: self.bounding_box,
        }
    }
}

impl Clone for Zone {
    fn clone(&self) -> (r: Zone)
        ensures
            r@ == self@,
    {
        self.duplicate()
    }
}

/// What `ZoneManager::apply_set` did.
#[derive(Debug, PartialEq, Eq)]
pub struct ZoneApplyOutcome {
    pub zone_id: u64,
    pub bounding_box: Rect,
    pub dissolved_zone_ids: Vec<u64>,
}

impl Clone for ZoneApplyOutcome {
    fn clone(&self) -> (r: ZoneApplyOutcome)
        ensures
            r.zone_id == self.zone_id,
            r.bounding_box == self.bounding_box,
            r.dissolved_zone_ids@ == self.dissolved_zone_ids@,
    {
        ZoneApplyOutcome {
            zone_id: self.zone_id,
            bounding_box: self.bounding_box,
            dissolved_zone_ids: self.dissolved_zone_ids.clone(),
        }
    }
}

/// Why `ZoneManager::apply_set` refused a request.
#[derive(Debug, PartialEq, Eq)]
pub enum ZoneError {
    UnknownMonitor(String),
}

impl ZoneError {
    /// The message the error reads as.
    pub fn message(&self) -> (r: String)
        ensures
            match self {
                ZoneError::UnknownMonitor(name) => r@ == "unknown monitor "@ + name@,
            },
    {
        match self {
            ZoneError::UnknownMonitor(name) => {
                let mut r = String::new();
                r.append("unknown monitor ");
                r.append(name.as_str());
                r
            },
        }
    }
}

impl Clone for ZoneError {
    fn clone(&self) -> (r: ZoneError)
        ensures
            r == *self,
    {
        match self {
            ZoneError::UnknownMonitor(n) => ZoneError::UnknownMonitor(n.clone()),
        }
    }
}

/// What `ZoneManager::clear_path` did to a monitor's zone.
#[derive(Debug, PartialEq, Eq)]
pub enum ClearOutcome {
    /// The monitor is in no zone.
    NotFound,
    /// The zone's path was already cleared; nothing changed.
    AlreadyCleared,
    /// A single-monitor zone, dissolved.
    Dissolved { zone_id: u64 },
    /// A multi-monitor zone that kept every member and lost only its path.
    Cleared { zone_id: u64, monitors: Vec<String> },
}

/// `ms` without the entries that occur in `names`, order kept.
pub open spec fn without(ms: Seq<Seq<char>>, names: Seq<Seq<char>>) -> Seq<Seq<char>>
    decreases ms.len(),
{
    if ms.len() == 0 {
        seq![]
    } else if names.contains(ms.last()) {
        without(ms.drop_last(), names)
    } else {
        without(ms.drop_last(), names).push(ms.last())
    }
}

pub proof fn lemma_without(ms: Seq<Seq<char>>, names: Seq<Seq<char>>)
    ensures
        forall|x: Seq<char>| #[trigger] without(ms, names).contains(x) <==> ms.contains(x) && !names.contains(x),
        without(ms, names).len() <= ms.len(),
    decreases ms.len(),
{
    if ms.len() > 0 {
        let p = ms.drop_last();
        let l = ms.last();
        lemma_without(p, names);
        let r = without(p, names);
        assert forall|x: Seq<char>| ms.contains(x) <==> (p.contains(x) || x == l) by {
            if ms.contains(x) {
                let i = choose|i: int| 0 <= i < ms.len() && ms[i] == x;
                if i < ms.len() - 1 {
                    assert(p[i] == x);
                }
            }
            if p.contains(x) {
                let i = choose|i: int| 0 <= i < p.len() && p[i] == x;
                assert(ms[i] == x);
            }
            if x == l {
                assert(ms[ms.len() - 1] == x);
            }
        }
        assert forall|x: Seq<char>| r.push(l).contains(x) <==> (r.contains(x) || x == l) by {
            if r.push(l).contains(x) {
                let i = choose|i: int| 0 <= i < r.push(l).len() && r.push(l)[i] == x;
                if i < r.len() {
                    assert(r[i] == x);
                }
            }
            if r.contains(x) {
                let i = choose|i: int| 0 <= i < r.len() && r[i] == x;
                assert(r.push(l)[i] == x);
            }
            if x == l {
                assert(r.push(l)[r.len() as int] == x);
            }
        }
        assert forall|x: Seq<char>| #[trigger] without(ms, names).contains(x) <==> ms.contains(x)
            && !names.contains(x) by {
            if names.contains(l) {
                assert(without(ms, names) == r);
                assert(ms.contains(x) <==> (p.contains(x) || x == l));
                assert(r.contains(x) <==> p.contains(x) && !names.contains(x));
            } else {
                assert(without(ms, names) == r.push(l));
                assert(ms.contains(x) <==> (p.contains(x) || x == l));
                assert(r.push(l).contains(x) <==> (r.contains(x) || x == l));
                assert(r.contains(x) <==> p.contains(x) && !names.contains(x));
            }
        }
    } else {
        assert forall|x: Seq<char>| #[trigger] without(ms, names).contains(x) <==> ms.contains(x)
            && !names.contains(x) by {
            assert(without(ms, names) =~= Seq::<Seq<char>>::empty());
        }
    }
}

/// `z` with the monitors in `names` taken out.
pub open spec fn strip_zone(z: ZoneView, names: Seq<Seq<char>>) -> ZoneView {
    ZoneView { monitors: without(z.monitors, names), ..z }
}

/// The zones left after taking `names` out of every zone and dropping the
/// zones that became empty, order kept.
pub open spec fn survivors(zs: Seq<ZoneView>, names: Seq<Seq<char>>) -> Seq<ZoneView>
    decreases zs.len(),
{
    if zs.len() == 0 {
        seq![]
    } else if strip_zone(zs.last(), names).monitors.len() > 0 {
        survivors(zs.drop_last(), names).push(strip_zone(zs.last(), names))
    } else {
        survivors(zs.drop_last(), names)
    }
}

/// Ids of the zones that taking `names` out leaves empty, order kept.
pub open spec fn dissolved_ids(zs: Seq<ZoneView>, names: Seq<Seq<char>>) -> Seq<u64>
    decreases zs.len(),
{
    if zs.len() == 0 {
        seq![]
    } else if strip_zone(zs.last(), names).monitors.len() > 0 {
        dissolved_ids(zs.drop_last(), names)
    } else {
        dissolved_ids(zs.drop_last(), names).push(zs.last().id)
    }
}

/// The first zone holding `m`.
pub open spec fn zone_with(zs: Seq<ZoneView>, m: Seq<char>) -> Option<ZoneView>
    decreases zs.len(),
{
    if zs.len() == 0 {
        None
    } else if zone_with(zs.drop_last(), m) is Some {
        zone_with(zs.drop_last(), m)
    } else if zs.last().monitors.contains(m) {
        Some(zs.last())
    } else {
        None
    }
}

/// Index of the first zone holding `m` (`zs.len()` if none).
pub open spec fn zone_index(zs: Seq<ZoneView>, m: Seq<char>) -> int
    decreases zs.len(),
{
    if zs.len() == 0 {
        0
    } else if zone_index(zs.drop_last(), m) < zs.len() - 1 {
        zone_index(zs.drop_last(), m)
    } else if zs.last().monitors.contains(m) {
        zs.len() - 1
    } else {
        zs.len() as int
    }
}

pub proof fn lemma_zone_index(zs: Seq<ZoneView>, m: Seq<char>)
    ensures
        0 <= zone_index(zs, m) <= zs.len(),
        zone_index(zs, m) < zs.len() ==> zs[zone_index(zs, m)].monitors.contains(m),
        forall|j: int| 0 <= j < zone_index(zs, m) ==> !(#[trigger] zs[j].monitors.contains(m)),
        zone_with(zs, m) == (if zone_index(zs, m) < zs.len() {
            Some(zs[zone_index(zs, m)])
        } else {
            None::<ZoneView>
        }),
    decreases zs.len(),
{
    if zs.len() > 0 {
        let p = zs.drop_last();
        lemma_zone_index(p, m);
        if zone_index(p, m) < p.len() {
            assert(zs[zone_index(p, m)] == p[zone_index(p, m)]);
        }
        assert forall|j: int| 0 <= j < zone_index(zs, m) implies !(#[trigger] zs[j].monitors.contains(m)) by {
            if j < p.len() {
                assert(zs[j] == p[j]);
            }
        }
    }
}

/// The zones after clearing `m`'s wallpaper: unchanged when `m` is in no
/// zone or its zone has no path; its zone removed when `m` is its only
/// member; otherwise its zone kept with every member and no path.
pub open spec fn cleared_zones(zs: Seq<ZoneView>, m: Seq<char>) -> Seq<ZoneView> {
    match zone_with(zs, m) {
        None => zs,
        Some(z) => if z.path is None {
            zs
        } else if z.monitors.len() == 1 {
            zs.remove(zone_index(zs, m))
        } else {
            zs.update(zone_index(zs, m), ZoneView { path: None, ..z })
        },
    }
}

/// The wallpaper path `m`'s zone plays, if it is in a zone that has one.
pub open spec fn path_with(zs: Seq<ZoneView>, m: Seq<char>) -> Option<Seq<char>> {
    match zone_with(zs, m) {
        Some(z) => z.path,
        None => None,
    }
}

/// Ids of the zones whose path is `p`, order kept.
pub open spec fn ids_with_path(zs: Seq<ZoneView>, p: Seq<char>) -> Seq<u64>
    decreases zs.len(),
{
    if zs.len() == 0 {
        seq![]
    } else if zs.last().path == Some(p) {
        ids_with_path(zs.drop_last(), p).push(zs.last().id)
    } else {
        ids_with_path(zs.drop_last(), p)
    }
}

/// Well-formed zones: ids below `next_id` and distinct, no zone empty, no
/// monitor in two zones.
pub open spec fn zones_wf(zs: Seq<ZoneView>, next_id: u64) -> bool {
    &&& forall|i: int| 0 <= i < zs.len() ==> #[trigger] zs[i].id < next_id
    &&& forall|i: int, j: int| 0 <= i < j < zs.len() ==> #[trigger] zs[i].id != #[trigger] zs[j].id
    &&& forall|i: int| 0 <= i < zs.len() ==> #[trigger] zs[i].monitors.len() > 0
    &&& forall|i: int, j: int, m: Seq<char>|
        0 <= i < zs.len() && 0 <= j < zs.len() && i != j && #[trigger] zs[i].monitors.contains(m)
            ==> !#[trigger] zs[j].monitors.contains(m)
}

/// The first zone holding `m` is the zone at the first index whose
/// monitors contain `m`.
pub proof fn lemma_zone_with(zs: Seq<ZoneView>, m: Seq<char>)
    ensures
        zone_with(zs, m) is None <==> forall|i: int| 0 <= i < zs.len() ==> !(#[trigger] zs[i].monitors.contains(m)),
        zone_with(zs, m) is Some ==> exists|i: int|
            0 <= i < zs.len() && #[trigger] zs[i].monitors.contains(m) && zone_with(zs, m) == Some(zs[i])
                && forall|j: int| 0 <= j < i ==> !(#[trigger] zs[j].monitors.contains(m)),
    decreases zs.len(),
{
    if zs.len() > 0 {
        let p = zs.drop_last();
        lemma_zone_with(p, m);
        if zone_with(p, m) is Some {
            let i = choose|i: int|
                0 <= i < p.len() && #[trigger] p[i].monitors.contains(m) && zone_with(p, m) == Some(p[i])
                    && forall|j: int| 0 <= j < i ==> !(#[trigger] p[j].monitors.contains(m));
            assert(zs[i] == p[i]);
            assert forall|j: int| 0 <= j < i implies !(#[trigger] zs[j].monitors.contains(m)) by {
                assert(zs[j] == p[j]);
            }
        } else {
            assert forall|j: int| 0 <= j < zs.len() - 1 implies !(#[trigger] zs[j].monitors.contains(m)) by {
                assert(zs[j] == p[j]);
            }
        }
    }
}

/// Under well-formedness, a zone at any index that holds `m` is `m`'s zone.
pub proof fn lemma_zone_with_at(zs: Seq<ZoneView>, next_id: u64, m: Seq<char>, i: int)
    requires
        zones_wf(zs, next_id),
        0 <= i < zs.len(),
        zs[i].monitors.contains(m),
    ensures
        zone_with(zs, m) == Some(zs[i]),
{
    lemma_zone_with(zs, m);
    let k = choose|k: int|
        0 <= k < zs.len() && #[trigger] zs[k].monitors.contains(m) && zone_with(zs, m) == Some(zs[k])
            && forall|j: int| 0 <= j < k ==> !(#[trigger] zs[j].monitors.contains(m));
    if k != i {
        assert(!zs[k].monitors.contains(m));
    }
}

proof fn lemma_zone_with_push(zs: Seq<ZoneView>, z: ZoneView, m: Seq<char>)
    ensures
        zone_with(zs.push(z), m) == (if zone_with(zs, m) is Some {
            zone_with(zs, m)
        } else if z.monitors.contains(m) {
            Some(z)
        } else {
            None
        }),
{
    assert(zs.push(z).drop_last() =~= zs);
}

/// Each surviving zone is one of the given zones with `names` taken out, in order.
pub proof fn lemma_survivors_origin(zs: Seq<ZoneView>, names: Seq<Seq<char>>)
    ensures
        forall|k: int|
            0 <= k < survivors(zs, names).len() ==> exists|j: int|
                0 <= j < zs.len() && #[trigger] survivors(zs, names)[k] == strip_zone(zs[j], names),
        forall|k: int| 0 <= k < survivors(zs, names).len() ==> (#[trigger] survivors(zs, names)[k]).monitors.len() > 0,
        survivors(zs, names).len() <= zs.len(),
    decreases zs.len(),
{
    if zs.len() > 0 {
        let p = zs.drop_last();
        lemma_survivors_origin(p, names);
        let s = survivors(zs, names);
        let sp = survivors(p, names);
        assert forall|k: int| 0 <= k < s.len() implies exists|j: int|
            0 <= j < zs.len() && #[trigger] s[k] == strip_zone(zs[j], names) by {
            if k < sp.len() {
                assert(s[k] == sp[k]);
                let j = choose|j: int| 0 <= j < p.len() && #[trigger] sp[k] == strip_zone(p[j], names);
                assert(zs[j] == p[j]);
            } else {
                assert(s[k] == strip_zone(zs[zs.len() - 1], names));
            }
        }
        assert forall|k: int| 0 <= k < s.len() implies (#[trigger] s[k]).monitors.len() > 0 by {
            if k < sp.len() {
                assert(s[k] == sp[k]);
            }
        }
    }
}

/// Taking `names` out keeps the zones well-formed, and leaves no zone
/// holding any of `names`.
pub proof fn lemma_survivors_wf(zs: Seq<ZoneView>, next_id: u64, names: Seq<Seq<char>>)
    requires
        zones_wf(zs, next_id),
    ensures
        zones_wf(survivors(zs, names), next_id),
        forall|k: int, m: Seq<char>|
            0 <= k < survivors(zs, names).len() && names.contains(m)
                ==> !#[trigger] survivors(zs, names)[k].monitors.contains(m),
    decreases zs.len(),
{
    if zs.len() > 0 {
        let p = zs.drop_last();
        assert(zones_wf(p, next_id)) by {
            assert forall|i: int, j: int, m: Seq<char>|
                0 <= i < p.len() && 0 <= j < p.len() && i != j && #[trigger] p[i].monitors.contains(m)
                    implies !#[trigger] p[j].monitors.contains(m) by {
                assert(p[i] == zs[i] && p[j] == zs[j]);
            }
            assert forall|i: int, j: int| 0 <= i < j < p.len() implies #[trigger] p[i].id != #[trigger] p[j].id by {
                assert(p[i] == zs[i] && p[j] == zs[j]);
            }
            assert forall|i: int| 0 <= i < p.len() implies #[trigger] p[i].id < next_id by {
                assert(p[i] == zs[i]);
            }
            assert forall|i: int| 0 <= i < p.len() implies #[trigger] p[i].monitors.len() > 0 by {
                assert(p[i] == zs[i]);
            }
        }
        lemma_survivors_wf(p, next_id, names);
        lemma_survivors_origin(p, names);
        let sp = survivors(p, names);
        let s = survivors(zs, names);
        let last = zs.len() - 1;
        let lz = strip_zone(zs[last], names);
        lemma_without(zs[last].monitors, names);
        if lz.monitors.len() > 0 {
            assert(s == sp.push(lz));
            assert forall|k: int| 0 <= k < sp.len() implies #[trigger] sp[k].id != lz.id by {
                let j = choose|j: int| 0 <= j < p.len() && #[trigger] sp[k] == strip_zone(p[j], names);
                assert(p[j] == zs[j]);
            }
            assert forall|k: int, m: Seq<char>| 0 <= k < sp.len() && #[trigger] sp[k].monitors.contains(m)
                implies !lz.monitors.contains(m) by {
                let j = choose|j: int| 0 <= j < p.len() && #[trigger] sp[k] == strip_zone(p[j], names);
                assert(p[j] == zs[j]);
                lemma_without(zs[j].monitors, names);
                assert(zs[j].monitors.contains(m));
            }
            assert forall|i: int, j: int, m: Seq<char>|
                0 <= i < s.len() && 0 <= j < s.len() && i != j && #[trigger] s[i].monitors.contains(m)
                    implies !#[trigger] s[j].monitors.contains(m) by {
                if i < sp.len() && j < sp.len() {
                    assert(s[i] == sp[i] && s[j] == sp[j]);
                } else if i < sp.len() {
                    assert(s[i] == sp[i]);
                    assert(sp[i].monitors.contains(m));
                } else {
                    assert(s[j] == sp[j]);
                    if sp[j].monitors.contains(m) {
                        assert(!lz.monitors.contains(m));
                    }
                }
            }
            assert forall|i: int, j: int| 0 <= i < j < s.len() implies #[trigger] s[i].id != #[trigger] s[j].id by {
                if j < sp.len() {
                    assert(s[i] == sp[i] && s[j] == sp[j]);
                } else {
                    assert(s[i] == sp[i]);
                }
            }
            assert forall|i: int| 0 <= i < s.len() implies #[trigger] s[i].id < next_id by {
                if i < sp.len() {
                    assert(s[i] == sp[i]);
                }
            }
            assert forall|i: int| 0 <= i < s.len() implies #[trigger] s[i].monitors.len() > 0 by {
                if i < sp.len() {
                    assert(s[i] == sp[i]);
                }
            }
            assert forall|k: int, m: Seq<char>| 0 <= k < s.len() && names.contains(m)
                implies !#[trigger] s[k].monitors.contains(m) by {
                if k < sp.len() {
                    assert(s[k] == sp[k]);
                }
            }
        }
    }
}

/// A monitor not among `names` keeps its zone (stripped of `names`).
pub proof fn lemma_survivors_keep(zs: Seq<ZoneView>, names: Seq<Seq<char>>, m: Seq<char>)
    requires
        !names.contains(m),
    ensures
        zone_with(survivors(zs, names), m) == match zone_with(zs, m) {
            Some(z) => Some(strip_zone(z, names)),
            None => None,
        },
    decreases zs.len(),
{
    if zs.len() > 0 {
        let p = zs.drop_last();
        lemma_survivors_keep(p, names, m);
        let lz = strip_zone(zs.last(), names);
        lemma_without(zs.last().monitors, names);
        if lz.monitors.len() > 0 {
            lemma_zone_with_push(survivors(p, names), lz, m);
        } else {
            assert(!zs.last().monitors.contains(m)) by {
                if zs.last().monitors.contains(m) {
                    assert(lz.monitors.contains(m));
                }
            }
        }
    }
}

/// The zones, and the id the next zone formed gets.
pub struct ZoneManagerView {
    pub zones: Seq<ZoneView>,
    pub next_id: u64,
}

/// Every zone, and the next id to hand out.
#[derive(Debug)]
pub struct ZoneManager {
    zones: Vec<Zone>,
    next_id: u64,
}

impl View for ZoneManager {
    type V = ZoneManagerView;

    closed spec fn view(&self) -> ZoneManagerView {
        ZoneManagerView { zones: zone_views(self.zones@), next_id: self.next_id }
    }
}

/// The rectangles of `names`, looked up in `reg`.
pub open spec fn rects_of(reg: Map<Seq<char>, Rect>, names: Seq<Seq<char>>) -> Seq<Rect> {
    names.map_values(|n: Seq<char>| reg[n])
}

/// The zone `apply_set` forms.
pub open spec fn formed_zone(id: u64, names: Seq<Seq<char>>, path: Seq<char>, bbox: Rect) -> ZoneView {
    ZoneView { id, monitors: names, path: Some(path), bounding_box: Some(bbox) }
}

/// Whether `names` are all known to `reg`.
pub open spec fn all_known(reg: Map<Seq<char>, Rect>, names: Seq<Seq<char>>) -> bool {
    forall|i: int| 0 <= i < names.len() ==> reg.contains_key(#[trigger] names[i])
}

/// Index of the first of `names` unknown to `reg` (`names.len()` if none).
pub open spec fn first_unknown(reg: Map<Seq<char>, Rect>, names: Seq<Seq<char>>) -> int
    decreases names.len(),
{
    if names.len() == 0 {
        0
    } else if !reg.contains_key(names[0]) {
        0
    } else {
        1 + first_unknown(reg, names.drop_first())
    }
}

proof fn lemma_first_unknown(reg: Map<Seq<char>, Rect>, names: Seq<Seq<char>>, k: int)
    requires
        0 <= k <= names.len(),
        forall|j: int| 0 <= j < k ==> reg.contains_key(#[trigger] names[j]),
        k < names.len() ==> !reg.contains_key(names[k]),
    ensures
        first_unknown(reg, names) == k,
    decreases names.len(),
{
    if names.len() > 0 && k > 0 {
        assert forall|j: int| 0 <= j < k - 1 implies reg.contains_key(#[trigger] names.drop_first()[j]) by {
            assert(names.drop_first()[j] == names[j + 1]);
        }
        lemma_first_unknown(reg, names.drop_first(), k - 1);
    }
}

/// When some of `names` is unknown, `first_unknown` is the index of one.
pub proof fn lemma_first_unknown_is_unknown(reg: Map<Seq<char>, Rect>, names: Seq<Seq<char>>)
    requires
        !all_known(reg, names),
    ensures
        0 <= first_unknown(reg, names) < names.len(),
        !reg.contains_key(names[first_unknown(reg, names)]),
    decreases names.len(),
{
    if names.len() > 0 && reg.contains_key(names[0]) {
        let rest = names.drop_first();
        assert(!all_known(reg, rest)) by {
            let i = choose|i: int| 0 <= i < names.len() && !reg.contains_key(#[trigger] names[i]);
            assert(i > 0);
            assert(rest[i - 1] == names[i]);
        }
        lemma_first_unknown_is_unknown(reg, rest);
        assert(rest[first_unknown(reg, rest)] == names[first_unknown(reg, names)]);
    }
}

/// Whether a set of `names` re-forms an existing group: it names more than
/// one monitor, and the zone holding `names[0]` holds exactly `names`, in
/// any order. (A single monitor set again gets a new zone.)
pub open spec fn reforms(zs: Seq<ZoneView>, names: Seq<Seq<char>>) -> bool {
    &&& names.len() > 1
    &&& zone_with(zs, names[0]) is Some
    &&& zone_with(zs, names[0])->0.monitors.to_multiset() == names.to_multiset()
}

/// The zone a set of `names` playing `path` over `bbox` puts them in: the
/// zone it re-forms, keeping its id and members, with the new path and box;
/// else a new zone with id `next_id`.
pub open spec fn set_zone(v: ZoneManagerView, names: Seq<Seq<char>>, path: Seq<char>, bbox: Rect) -> ZoneView {
    if reforms(v.zones, names) {
        ZoneView { path: Some(path), bounding_box: Some(bbox), ..zone_with(v.zones, names[0])->0 }
    } else {
        formed_zone(v.next_id, names, path, bbox)
    }
}

/// Ids of the zones a set of `names` dissolves: none when it re-forms a
/// zone, else those that taking `names` out leaves empty.
pub open spec fn set_dissolved(zs: Seq<ZoneView>, names: Seq<Seq<char>>) -> Seq<u64> {
    if reforms(zs, names) {
        seq![]
    } else {
        dissolved_ids(zs, names)
    }
}

/// The manager after `apply_set` put `names` in one zone playing `path`:
/// a re-formed zone is updated in place; otherwise `names` are taken out of
/// their zones, zones left empty are dropped, and a new zone is added.
pub open spec fn after_set(v: ZoneManagerView, names: Seq<Seq<char>>, path: Seq<char>, bbox: Rect) -> ZoneManagerView {
    if reforms(v.zones, names) {
        ZoneManagerView {
            zones: v.zones.update(zone_index(v.zones, names[0]), set_zone(v, names, path, bbox)),
            next_id: v.next_id,
        }
    } else {
        ZoneManagerView {
            zones: survivors(v.zones, names).push(formed_zone(v.next_id, names, path, bbox)),
            next_id: (v.next_id + 1) as u64,
        }
    }
}

/// Replacing a zone by one with the same members moves no monitor: each
/// monitor's first zone is at the same index.
pub proof fn lemma_zone_with_update(zs: Seq<ZoneView>, k: int, z2: ZoneView, m: Seq<char>)
    requires
        0 <= k < zs.len(),
        z2.monitors == zs[k].monitors,
    ensures
        zone_index(zs.update(k, z2), m) == zone_index(zs, m),
        zone_with(zs.update(k, z2), m) == (if zone_index(zs, m) == k {
            Some(z2)
        } else {
            zone_with(zs, m)
        }),
{
    let u = zs.update(k, z2);
    lemma_zone_index(zs, m);
    lemma_zone_index(u, m);
    let a = zone_index(zs, m);
    let b = zone_index(u, m);
    assert forall|j: int| 0 <= j < zs.len() implies #[trigger] u[j].monitors.contains(m) == zs[j].monitors.contains(m) by {
        if j == k {
            assert(u[j] == z2);
        } else {
            assert(u[j] == zs[j]);
        }
    }
    if a < b {
        assert(zs[a].monitors.contains(m));
        assert(u[a].monitors.contains(m));
    }
    if b < a {
        assert(u[b].monitors.contains(m));
        assert(zs[b].monitors.contains(m));
    }
    if a < zs.len() && a != k {
        assert(u[a] == zs[a]);
    }
}

/// When a set of `names` re-forms a zone, that zone is at `names[0]`'s
/// index, and it is the first zone of each of `names` (in well-formed
/// zones) and of no other monitor.
proof fn lemma_reformed_at(zs: Seq<ZoneView>, next_id: u64, names: Seq<Seq<char>>, m: Seq<char>)
    requires
        reforms(zs, names),
    ensures
        0 <= zone_index(zs, names[0]) < zs.len(),
        zone_with(zs, names[0]) == Some(zs[zone_index(zs, names[0])]),
        names.contains(m) <==> zs[zone_index(zs, names[0])].monitors.contains(m),
        names.contains(m) && zones_wf(zs, next_id) ==> zone_index(zs, m) == zone_index(zs, names[0]),
        !names.contains(m) ==> zone_index(zs, m) != zone_index(zs, names[0]),
{
    broadcast use vstd::seq_lib::to_multiset_contains;
    lemma_zone_index(zs, names[0]);
    lemma_zone_index(zs, m);
    let k = zone_index(zs, names[0]);
    let z = zs[k];
    assert(names.contains(m) <==> names.to_multiset().count(m) > 0);
    assert(z.monitors.contains(m) <==> z.monitors.to_multiset().count(m) > 0);
    if names.contains(m) && zones_wf(zs, next_id) {
        let a = zone_index(zs, m);
        if a < k {
            assert(zs[a].monitors.contains(m));
        }
        if a > k {
            assert(zs[k].monitors.contains(m));
        }
    }
}

/// Whether `m` is among `names`, by content.
pub fn contains_name(names: &[String], m: &str) -> (r: bool)
    ensures
        r == texts(names@).contains(m@),
{
    let mut i: usize = 0;
    while i < names.len()
        invariant
            i <= names@.len(),
            forall|j: int| 0 <= j < i ==> names@[j]@ != m@,
        decreases names@.len() - i,
    {
        if str_eq(names[i].as_str(), m) {
            proof {
                assert(texts(names@)[i as int] == m@);
            }
            return true;
        }
        i = i + 1;
    }
    proof {
        if texts(names@).contains(m@) {
            let j = choose|j: int| 0 <= j < texts(names@).len() && texts(names@)[j] == m@;
            assert(names@[j]@ == m@);
        }
    }
    false
}

/// A copy of a list of names.
fn copy_names(v: &[String]) -> (r: Vec<String>)
    ensures
        r@ == v@,
{
    let mut r: Vec<String> = Vec::new();
    let mut i: usize = 0;
    while i < v.len()
        invariant
            i <= v@.len(),
            r@ =~= v@.take(i as int),
        decreases v@.len() - i,
    {
        r.push(v[i].clone());
        proof {
            assert(v@.take(i + 1int) =~= v@.take(i as int).push(v@[i as int]));
        }
        i = i + 1;
    }
    proof {
        assert(v@.take(v@.len() as int) =~= v@);
    }
    r
}

/// Whether two lists hold the same texts in the same order.
fn same_texts(a: &Vec<String>, b: &Vec<String>) -> (r: bool)
    ensures
        r == (texts(a@) == texts(b@)),
{
    if a.len() != b.len() {
        proof {
            assert(texts(a@).len() != texts(b@).len());
        }
        return false;
    }
    let mut i: usize = 0;
    while i < a.len()
        invariant
            i <= a@.len(),
            a@.len() == b@.len(),
            forall|j: int| 0 <= j < i ==> a@[j]@ == b@[j]@,
        decreases a@.len() - i,
    {
        if !str_eq(a[i].as_str(), b[i].as_str()) {
            proof {
                assert(texts(a@)[i as int] != texts(b@)[i as int]);
            }
            return false;
        }
        i = i + 1;
    }
    proof {
        assert(texts(a@) =~= texts(b@));
    }
    true
}

/// Whether two lists hold the same names, each as often, in any order.
fn same_group(a: &Vec<String>, b: &Vec<String>) -> (r: bool)
    ensures
        r == (texts(a@).to_multiset() == texts(b@).to_multiset()),
{
    let sa = sort_strings(a);
    let sb = sort_strings(b);
    let eq = same_texts(&sa, &sb);
    proof {
        if texts(a@).to_multiset() == texts(b@).to_multiset() {
            lemma_sorted_copy_unique(texts(a@), texts(sb@));
        }
    }
    eq
}

/// `ms` without the entries that occur in `names`.
fn filter_out(ms: &Vec<String>, names: &[String]) -> (r: Vec<String>)
    ensures
        texts(r@) == without(texts(ms@), texts(names@)),
{
    let mut r: Vec<String> = Vec::new();
    let mut i: usize = 0;
    while i < ms.len()
        invariant
            i <= ms@.len(),
            texts(r@) == without(texts(ms@.take(i as int)), texts(names@)),
        decreases ms@.len() - i,
    {
        let keep = !contains_name(names, ms[i].as_str());
        proof {
            assert(texts(ms@.take(i + 1int)).drop_last() =~= texts(ms@.take(i as int)));
            assert(texts(ms@.take(i + 1int)).last() == ms@[i as int]@);
        }
        if keep {
            let ghost before = r@;
            r.push(ms[i].clone());
            proof {
                assert(texts(r@) =~= texts(before).push(ms@[i as int]@));
            }
        }
        i = i + 1;
    }
    proof {
        assert(ms@.take(ms@.len() as int) =~= ms@);
    }
    r
}

/// The zones left after taking `names` out of each, and the ids of the
/// zones that became empty.
fn strip_zones(zones: &Vec<Zone>, names: &[String]) -> (r: (Vec<Zone>, Vec<u64>))
    ensures
        zone_views(r.0@) == survivors(zone_views(zones@), texts(names@)),
        r.1@ == dissolved_ids(zone_views(zones@), texts(names@)),
{
    let ghost nm = texts(names@);
    let mut kept: Vec<Zone> = Vec::new();
    let mut gone: Vec<u64> = Vec::new();
    let mut i: usize = 0;
    while i < zones.len()
        invariant
            i <= zones@.len(),
            nm == texts(names@),
            zone_views(kept@) == survivors(zone_views(zones@.take(i as int)), nm),
            gone@ == dissolved_ids(zone_views(zones@.take(i as int)), nm),
        decreases zones@.len() - i,
    {
        let z = &zones[i];
        let ms = filter_out(&z.monitors, names);
        proof {
            assert(zone_views(zones@.take(i + 1int)).drop_last() =~= zone_views(zones@.take(i as int)));
            assert(zone_views(zones@.take(i + 1int)).last() == z@);
        }
        if ms.len() == 0 {
            gone.push(z.id);
        } else {
            let ghost before = kept@;
            kept.push(Zone {
                id: z.id,
                monitors: ms,
                path: clone_opt_string(&z.path),
                bounding_box: z.bounding_box,
            });
            proof {
                assert(zone_views(kept@) =~= zone_views(before).push(strip_zone(z@, nm)));
            }
        }
        i = i + 1;
    }
    proof {
        assert(zones@.take(zones@.len() as int) =~= zones@);
    }
    (kept, gone)
}

impl ZoneManager {
    #[verifier::type_invariant]
    closed spec fn inv(self) -> bool {
        zones_wf(zone_views(self.zones@), self.next_id)
    }

    /// No zones; the first zone formed gets id 0.
    pub fn new() -> (r: Self)
        ensures
            r@.zones == Seq::<ZoneView>::empty(),
            r@.next_id == 0,
            zones_wf(r@.zones, r@.next_id),
    {
        let r = ZoneManager { zones: Vec::new(), next_id: 0 };
        proof {
            assert(zone_views(r.zones@) =~= Seq::<ZoneView>::empty());
        }
        r
    }

    /// Groups `monitors` into one zone playing `path`. When they are two or
    /// more monitors and exactly the members of an existing zone (in any
    /// order), that group is re-formed: it keeps its id and members and takes the new path and
    /// box, and nothing is dissolved. Otherwise each of them is pulled out
    /// of whatever zone held it, a zone left with no monitors is dissolved,
    /// and a new zone is formed. Refused, with nothing changed, when a
    /// monitor is unknown to `registry`.
    pub fn apply_set(&mut self, monitors: &[String], path: String, registry: &MonitorRegistry) -> (res:
        Result<ZoneApplyOutcome, ZoneError>)
        requires
            monitors@.len() > 0,
            all_known(registry@, texts(monitors@)) ==> union_fits(rects_of(registry@, texts(monitors@))),
            all_known(registry@, texts(monitors@)) && !reforms(old(self)@.zones, texts(monitors@))
                ==> old(self)@.next_id < u64::MAX,
        ensures
            res is Ok <==> all_known(registry@, texts(monitors@)),
            zones_wf(final(self)@.zones, final(self)@.next_id),
            members_unique(old(self)@.zones) && texts(monitors@).no_duplicates() ==> members_unique(final(self)@.zones),
            match res {
                Err(e) => {
                    &&& final(self)@ == old(self)@
                    &&& e matches ZoneError::UnknownMonitor(n) && n@ == texts(monitors@)[first_unknown(registry@, texts(monitors@))]
                },
                Ok(o) => {
                    &&& final(self)@ == after_set(old(self)@, texts(monitors@), path@, union_spec(rects_of(registry@, texts(monitors@))))
                    &&& o.zone_id == set_zone(old(self)@, texts(monitors@), path@, union_spec(rects_of(registry@, texts(monitors@)))).id
                    &&& o.bounding_box == union_spec(rects_of(registry@, texts(monitors@)))
                    &&& o.dissolved_zone_ids@ == set_dissolved(old(self)@.zones, texts(monitors@))
                },
            },
    {
        proof {
            use_type_invariant(&*self);
        }
        let ghost names = texts(monitors@);
        let mut i: usize = 0;
        while i < monitors.len()
            invariant
                i <= monitors@.len(),
                names == texts(monitors@),
                forall|j: int| 0 <= j < i ==> registry@.contains_key(#[trigger] names[j]),
                zones_wf(zone_views(self.zones@), self.next_id),
            decreases monitors@.len() - i,
        {
            if !registry.contains(monitors[i].as_str()) {
                proof {
                    assert(names[i as int] == monitors@[i as int]@);
                    lemma_first_unknown(registry@, names, i as int);
                }
                return Err(ZoneError::UnknownMonitor(monitors[i].clone()));
            }
            i = i + 1;
        }
        let mut rects: Vec<Rect> = Vec::new();
        let mut k: usize = 0;
        while k < monitors.len()
            invariant
                k <= monitors@.len(),
                names == texts(monitors@),
                all_known(registry@, names),
                rects@ =~= rects_of(registry@, names).take(k as int),
            decreases monitors@.len() - k,
        {
            match registry.get(monitors[k].as_str()) {
                Some(m) => {
                    rects.push(m.logical);
                },
                None => {
                    proof {
                        assert(registry@.contains_key(names[k as int]));
                    }
                },
            }
            proof {
                assert(rects_of(registry@, names).take(k + 1int) =~= rects_of(registry@, names).take(k as int).push(registry@[names[k as int]]));
            }
            k = k + 1;
        }
        proof {
            assert(rects_of(registry@, names).take(monitors@.len() as int) =~= rects_of(registry@, names));
        }
        let bbox = match Rect::union(rects.as_slice()) {
            Some(b) => b,
            None => Rect { x: 0, y: 0, w: 0, h: 0 },
        };
        let ghost pth = path@;
        proof {
            if members_unique(self@.zones) {
                law_members_stay_unique(self@, names, pth, bbox, names[0]);
            }
        }
        let group = copy_names(monitors);
        proof {
            assert(texts(group@) == names);
        }
        match self.reformed_position(&group) {
            Some(i) => {
                let ghost v0 = self@;
                proof {
                    lemma_reformed_at(v0.zones, v0.next_id, names, names[0]);
                }
                let id = self.id_at(i);
                self.repath(i, path, bbox);
                proof {
                    use_type_invariant(&*self);
                    assert(self@.zones =~= after_set(v0, names, pth, bbox).zones);
                }
                return Ok(ZoneApplyOutcome { zone_id: id, bounding_box: bbox, dissolved_zone_ids: Vec::new() });
            },
            None => {},
        }
        let (mut kept, dissolved) = strip_zones(&self.zones, monitors);
        let id = self.next_id;
        let mut members: Vec<String> = Vec::new();
        let mut j: usize = 0;
        while j < monitors.len()
            invariant
                j <= monitors@.len(),
                members@ =~= monitors@.take(j as int),
            decreases monitors@.len() - j,
        {
            members.push(monitors[j].clone());
            proof {
                assert(monitors@.take(j + 1int) =~= monitors@.take(j as int).push(monitors@[j as int]));
            }
            j = j + 1;
        }
        proof {
            assert(monitors@.take(monitors@.len() as int) =~= monitors@);
        }
        let ghost before = kept@;
        kept.push(Zone { id, monitors: members, path: Some(path), bounding_box: Some(bbox) });
        proof {
            let old_zs = zone_views(self.zones@);
            lemma_survivors_wf(old_zs, id, names);
            let nz = formed_zone(id, names, pth, bbox);
            let zs2 = zone_views(kept@);
            assert(zs2 =~= survivors(old_zs, names).push(nz));
            let sv = survivors(old_zs, names);
            assert(zones_wf(zs2, (id + 1) as u64)) by {
                assert forall|a: int| 0 <= a < zs2.len() implies #[trigger] zs2[a].id < id + 1 by {
                    if a < sv.len() {
                        assert(zs2[a] == sv[a]);
                    }
                }
                assert forall|a: int, b: int| 0 <= a < b < zs2.len() implies #[trigger] zs2[a].id
                    != #[trigger] zs2[b].id by {
                    assert(zs2[a] == sv[a]);
                    if b < sv.len() {
                        assert(zs2[b] == sv[b]);
                    }
                }
                assert forall|a: int| 0 <= a < zs2.len() implies #[trigger] zs2[a].monitors.len() > 0 by {
                    if a < sv.len() {
                        assert(zs2[a] == sv[a]);
                    }
                }
                assert forall|a: int, b: int, m: Seq<char>|
                    0 <= a < zs2.len() && 0 <= b < zs2.len() && a != b && #[trigger] zs2[a].monitors.contains(m)
                        implies !#[trigger] zs2[b].monitors.contains(m) by {
                    if a < sv.len() && b < sv.len() {
                        assert(zs2[a] == sv[a] && zs2[b] == sv[b]);
                    } else if a < sv.len() {
                        assert(zs2[a] == sv[a]);
                        if names.contains(m) {
                            assert(!sv[a].monitors.contains(m));
                        }
                    } else {
                        assert(zs2[b] == sv[b]);
                        assert(names.contains(m));
                    }
                }
            }
        }
        *self = ZoneManager { zones: kept, next_id: id + 1 };
        Ok(ZoneApplyOutcome { zone_id: id, bounding_box: bbox, dissolved_zone_ids: dissolved })
    }

    /// Index of the zone a set of `monitors` re-forms, if it re-forms one.
    fn reformed_position(&self, monitors: &Vec<String>) -> (r: Option<usize>)
        requires
            monitors@.len() > 0,
        ensures
            r is Some <==> reforms(self@.zones, texts(monitors@)),
            r matches Some(i) ==> i as int == zone_index(self@.zones, texts(monitors@)[0]) && i < self@.zones.len(),
    {
        proof {
            assert(texts(monitors@)[0] == monitors@[0]@);
            lemma_zone_index(self@.zones, monitors@[0]@);
        }
        if monitors.len() < 2 {
            return None;
        }
        match self.zone_position(monitors[0].as_str()) {
            Some(i) => {
                proof {
                    assert(self@.zones[i as int] == self.zones@[i as int]@);
                }
                if same_group(&self.zones[i].monitors, monitors) {
                    Some(i)
                } else {
                    None
                }
            },
            None => None,
        }
    }

    /// Whether a set of `monitors` would re-form one of the zones.
    pub fn reforms_zone(&self, monitors: &[String]) -> (r: bool)
        ensures
            r == reforms(self@.zones, texts(monitors@)),
    {
        if monitors.len() == 0 {
            return false;
        }
        let group = copy_names(monitors);
        self.reformed_position(&group).is_some()
    }

    /// Gives the zone at `i` the path `path` and the box `bbox`.
    fn repath(&mut self, i: usize, path: String, bbox: Rect)
        requires
            i < old(self)@.zones.len(),
        ensures
            final(self)@.zones == old(self)@.zones.update(
                i as int,
                ZoneView { path: Some(path@), bounding_box: Some(bbox), ..old(self)@.zones[i as int] },
            ),
            final(self)@.next_id == old(self)@.next_id,
    {
        proof {
            use_type_invariant(&*self);
        }
        let ghost zs = zone_views(self.zones@);
        let ghost pth = path@;
        let next = self.next_id;
        let mut zones: Vec<Zone> = Vec::new();
        std::mem::swap(&mut zones, &mut self.zones);
        let old_zone = zones[i].duplicate();
        let updated = Zone { id: old_zone.id, monitors: old_zone.monitors, path: Some(path), bounding_box: Some(bbox) };
        zones.set(i, updated);
        proof {
            let z2 = zone_views(zones@);
            assert(z2 =~= zs.update(i as int, ZoneView { path: Some(pth), bounding_box: Some(bbox), ..zs[i as int] }));
            assert(zones_wf(z2, next)) by {
                assert forall|a: int| 0 <= a < z2.len() implies #[trigger] z2[a].id < next by {
                    assert(z2[a].id == zs[a].id);
                }
                assert forall|a: int, b: int| 0 <= a < b < z2.len() implies #[trigger] z2[a].id != #[trigger] z2[b].id by {
                    assert(z2[a].id == zs[a].id && z2[b].id == zs[b].id);
                }
                assert forall|a: int| 0 <= a < z2.len() implies #[trigger] z2[a].monitors.len() > 0 by {
                    assert(z2[a].monitors == zs[a].monitors);
                }
                assert forall|a: int, b: int, m: Seq<char>|
                    0 <= a < z2.len() && 0 <= b < z2.len() && a != b && #[trigger] z2[a].monitors.contains(m)
                        implies !#[trigger] z2[b].monitors.contains(m) by {
                    assert(z2[a].monitors == zs[a].monitors && z2[b].monitors == zs[b].monitors);
                }
            }
        }
        *self = ZoneManager { zones, next_id: next };
    }

    /// An identical copy.
    pub fn duplicate(&self) -> (r: ZoneManager)
        ensures
            r@ == self@,
    {
        proof {
            use_type_invariant(self);
        }
        let mut zones: Vec<Zone> = Vec::new();
        let mut i: usize = 0;
        while i < self.zones.len()
            invariant
                i <= self.zones@.len(),
                zone_views(zones@) =~= zone_views(self.zones@).take(i as int),
            decreases self.zones@.len() - i,
        {
            let ghost before = zones@;
            zones.push(self.zones[i].duplicate());
            proof {
                assert(zone_views(zones@) =~= zone_views(before).push(self.zones@[i as int]@));
                assert(zone_views(self.zones@).take(i + 1int) =~= zone_views(self.zones@).take(i as int).push(
                    self.zones@[i as int]@,
                ));
            }
            i = i + 1;
        }
        proof {
            assert(zone_views(self.zones@).take(self.zones@.len() as int) =~= zone_views(self.zones@));
        }
        ZoneManager { zones, next_id: self.next_id }
    }

    /// The id the next zone formed gets.
    pub fn next_zone_id(&self) -> (r: u64)
        ensures
            r == self@.next_id,
    {
        self.next_id
    }

    /// Takes `monitor` out of every zone, dissolving a zone it leaves
    /// empty (a monitor unplug). Returns the id of the dissolved zone.
    pub fn remove_monitor(&mut self, monitor: &str) -> (r: Option<u64>)
        ensures
            zones_wf(final(self)@.zones, final(self)@.next_id),
            final(self)@.zones == survivors(old(self)@.zones, seq![monitor@]),
            final(self)@.next_id == old(self)@.next_id,
            members_unique(old(self)@.zones) ==> members_unique(final(self)@.zones),
            r == (if dissolved_ids(old(self)@.zones, seq![monitor@]).len() == 0 {
                None::<u64>
            } else {
                Some(dissolved_ids(old(self)@.zones, seq![monitor@]).last())
            }),
    {
        proof {
            use_type_invariant(&*self);
        }
        proof {
            if members_unique(self@.zones) {
                law_members_stay_unique(self@, seq![monitor@], seq![], Rect { x: 0, y: 0, w: 0, h: 0 }, monitor@);
            }
        }
        let mut names: Vec<String> = Vec::new();
        names.push(monitor.to_owned());
        proof {
            assert(texts(names@) =~= seq![monitor@]);
            lemma_survivors_wf(zone_views(self.zones@), self.next_id, seq![monitor@]);
        }
        let (kept, gone) = strip_zones(&self.zones, names.as_slice());
        let id = self.next_id;
        *self = ZoneManager { zones: kept, next_id: id };
        if gone.len() == 0 {
            None
        } else {
            Some(gone[gone.len() - 1])
        }
    }

    /// The zone holding `monitor`, if any.
    pub fn zone_for_monitor(&self, monitor: &str) -> (r: Option<&Zone>)
        ensures
            zones_wf(self@.zones, self@.next_id),
            match r {
                Some(z) => zone_with(self@.zones, monitor@) == Some(z@),
                None => zone_with(self@.zones, monitor@) is None,
            },
    {
        proof {
            use_type_invariant(self);
        }
        proof {
            lemma_zone_index(zone_views(self.zones@), monitor@);
        }
        match self.zone_position(monitor) {
            Some(i) => {
                proof {
                    assert(zone_views(self.zones@)[i as int] == self.zones@[i as int]@);
                }
                Some(&self.zones[i])
            },
            None => None,
        }
    }

    /// Index of the zone holding `monitor`, if any.
    fn zone_position(&self, monitor: &str) -> (r: Option<usize>)
        ensures
            zones_wf(self@.zones, self@.next_id),
            zone_index(self@.zones, monitor@) == match r {
                Some(i) => i as int,
                None => self@.zones.len() as int,
            },
            r matches Some(i) ==> i < self.zones@.len(),
    {
        proof {
            use_type_invariant(self);
        }
        let ghost zs = zone_views(self.zones@);
        let mut i: usize = 0;
        while i < self.zones.len()
            invariant
                i <= self.zones@.len(),
                zs == zone_views(self.zones@),
                zones_wf(zs, self.next_id),
                forall|j: int| 0 <= j < i ==> !(#[trigger] zs[j].monitors.contains(monitor@)),
            decreases self.zones@.len() - i,
        {
            if contains_name(self.zones[i].monitors.as_slice(), monitor) {
                proof {
                    lemma_zone_index(zs, monitor@);
                    let k = zone_index(zs, monitor@);
                    assert(zs[i as int].monitors.contains(monitor@));
                    if k < i {
                        assert(!zs[k].monitors.contains(monitor@));
                    }
                }
                return Some(i);
            }
            proof {
                assert(zs[i as int].monitors == texts(self.zones@[i as int].monitors@));
            }
            i = i + 1;
        }
        proof {
            lemma_zone_index(zs, monitor@);
            let k = zone_index(zs, monitor@);
            if k < zs.len() {
                assert(zs[k].monitors.contains(monitor@));
            }
        }
        None
    }

    /// The wallpaper path of `monitor`'s zone, if it is in a zone that has one.
    pub fn path_for_monitor(&self, monitor: &str) -> (r: Option<&str>)
        ensures
            match r {
                Some(p) => path_with(self@.zones, monitor@) == Some(p@),
                None => path_with(self@.zones, monitor@) is None,
            },
    {
        match self.zone_for_monitor(monitor) {
            Some(z) => match &z.path {
                Some(p) => Some(p.as_str()),
                None => None,
            },
            None => None,
        }
    }

    /// Clears the wallpaper of `monitor`'s zone. A single-monitor zone is
    /// dissolved; a multi-monitor zone keeps every member and loses only
    /// its path.
    pub fn clear_path(&mut self, monitor: &str) -> (r: ClearOutcome)
        ensures
            zones_wf(final(self)@.zones, final(self)@.next_id),
            final(self)@.next_id == old(self)@.next_id,
            final(self)@.zones == cleared_zones(old(self)@.zones, monitor@),
            members_unique(old(self)@.zones) ==> members_unique(final(self)@.zones),
            match zone_with(old(self)@.zones, monitor@) {
                None => r == ClearOutcome::NotFound,
                Some(z) => if z.path is None {
                    r == ClearOutcome::AlreadyCleared
                } else if z.monitors.len() == 1 {
                    r == ClearOutcome::Dissolved { zone_id: z.id }
                } else {
                    r matches ClearOutcome::Cleared { zone_id, monitors } && zone_id == z.id && texts(monitors@) == z.monitors
                },
            },
    {
        proof {
            use_type_invariant(&*self);
            lemma_zone_index(zone_views(self.zones@), monitor@);
            if members_unique(self@.zones) {
                law_members_stay_unique(self@, seq![monitor@], seq![], Rect { x: 0, y: 0, w: 0, h: 0 }, monitor@);
            }
        }
        let ghost zs = zone_views(self.zones@);
        let pos = self.zone_position(monitor);
        let i = match pos {
            Some(i) => i,
            None => {
                return ClearOutcome::NotFound;
            },
        };
        if self.zones[i].path.is_none() {
            return ClearOutcome::AlreadyCleared;
        }
        let id = self.id_at(i);
        if self.zones[i].monitors.len() == 1 {
            let next = self.next_id;
            let mut zones: Vec<Zone> = Vec::new();
            std::mem::swap(&mut zones, &mut self.zones);
            let ghost before = zones@;
            let _gone = zones.remove(i);
            proof {
                assert(zone_views(zones@) =~= zs.remove(i as int));
                let z2 = zone_views(zones@);
                assert(zones_wf(z2, next)) by {
                    assert forall|a: int| 0 <= a < z2.len() implies #[trigger] z2[a].id < next by {
                        let oa = if a < i { a } else { a + 1 };
                        assert(z2[a] == zs[oa]);
                    }
                    assert forall|a: int, b: int| 0 <= a < b < z2.len() implies #[trigger] z2[a].id != #[trigger] z2[b].id by {
                        let oa = if a < i { a } else { a + 1 };
                        let ob = if b < i { b } else { b + 1 };
                        assert(z2[a] == zs[oa] && z2[b] == zs[ob]);
                    }
                    assert forall|a: int| 0 <= a < z2.len() implies #[trigger] z2[a].monitors.len() > 0 by {
                        let oa = if a < i { a } else { a + 1 };
                        assert(z2[a] == zs[oa]);
                    }
                    assert forall|a: int, b: int, m: Seq<char>|
                        0 <= a < z2.len() && 0 <= b < z2.len() && a != b && #[trigger] z2[a].monitors.contains(m)
                            implies !#[trigger] z2[b].monitors.contains(m) by {
                        let oa = if a < i { a } else { a + 1 };
                        let ob = if b < i { b } else { b + 1 };
                        assert(z2[a] == zs[oa] && z2[b] == zs[ob]);
                    }
                }
            }
            *self = ZoneManager { zones, next_id: next };
            return ClearOutcome::Dissolved { zone_id: id };
        }
        let members = clone_strings(&self.zones[i].monitors);
        let next = self.next_id;
        let mut zones: Vec<Zone> = Vec::new();
        std::mem::swap(&mut zones, &mut self.zones);
        let old_zone = zones[i].duplicate();
        let cleared = Zone { id: old_zone.id, monitors: old_zone.monitors, path: None, bounding_box: old_zone.bounding_box };
        zones.set(i, cleared);
        proof {
            let z2 = zone_views(zones@);
            assert(z2 =~= zs.update(i as int, ZoneView { path: None, ..zs[i as int] }));
            assert(zones_wf(z2, next)) by {
                assert forall|a: int| 0 <= a < z2.len() implies #[trigger] z2[a].id < next by {
                    assert(z2[a].id == zs[a].id);
                }
                assert forall|a: int, b: int| 0 <= a < b < z2.len() implies #[trigger] z2[a].id != #[trigger] z2[b].id by {
                    assert(z2[a].id == zs[a].id && z2[b].id == zs[b].id);
                }
                assert forall|a: int| 0 <= a < z2.len() implies #[trigger] z2[a].monitors.len() > 0 by {
                    assert(z2[a].monitors == zs[a].monitors);
                }
                assert forall|a: int, b: int, m: Seq<char>|
                    0 <= a < z2.len() && 0 <= b < z2.len() && a != b && #[trigger] z2[a].monitors.contains(m)
                        implies !#[trigger] z2[b].monitors.contains(m) by {
                    assert(z2[a].monitors == zs[a].monitors && z2[b].monitors == zs[b].monitors);
                }
            }
        }
        *self = ZoneManager { zones, next_id: next };
        ClearOutcome::Cleared { zone_id: id, monitors: members }
    }

    /// Id of the zone at position `i`.
    fn id_at(&self, i: usize) -> (r: u64)
        requires
            i < self@.zones.len(),
        ensures
            r == self@.zones[i as int].id,
    {
        self.zones[i].id
    }

    /// Ids of every zone currently assigned `path`, in zone order.
    pub fn zone_ids_with_path(&self, path: &str) -> (r: Vec<u64>)
        ensures
            r@ == ids_with_path(self@.zones, path@),
    {
        let ghost zs = zone_views(self.zones@);
        let mut r: Vec<u64> = Vec::new();
        let mut i: usize = 0;
        while i < self.zones.len()
            invariant
                i <= self.zones@.len(),
                zs == zone_views(self.zones@),
                r@ == ids_with_path(zs.take(i as int), path@),
            decreases self.zones@.len() - i,
        {
            let matches = match &self.zones[i].path {
                Some(p) => str_eq(p.as_str(), path),
                None => false,
            };
            proof {
                assert(zs.take(i + 1int).drop_last() =~= zs.take(i as int));
                assert(zs.take(i + 1int).last() == zs[i as int]);
            }
            if matches {
                r.push(self.zones[i].id);
            }
            i = i + 1;
        }
        proof {
            assert(zs.take(zs.len() as int) =~= zs);
        }
        r
    }
}


proof fn lemma_prefix_wf(zs: Seq<ZoneView>, next_id: u64)
    requires
        zones_wf(zs, next_id),
        zs.len() > 0,
    ensures
        zones_wf(zs.drop_last(), next_id),
{
    let p = zs.drop_last();
    assert forall|i: int, j: int, m: Seq<char>|
        0 <= i < p.len() && 0 <= j < p.len() && i != j && #[trigger] p[i].monitors.contains(m)
            implies !#[trigger] p[j].monitors.contains(m) by {
        assert(p[i] == zs[i] && p[j] == zs[j]);
    }
    assert forall|i: int, j: int| 0 <= i < j < p.len() implies #[trigger] p[i].id != #[trigger] p[j].id by {
        assert(p[i] == zs[i] && p[j] == zs[j]);
    }
    assert forall|i: int| 0 <= i < p.len() implies #[trigger] p[i].id < next_id by {
        assert(p[i] == zs[i]);
    }
    assert forall|i: int| 0 <= i < p.len() implies #[trigger] p[i].monitors.len() > 0 by {
        assert(p[i] == zs[i]);
    }
}

proof fn lemma_remove_wf(zs: Seq<ZoneView>, next_id: u64, k: int)
    requires
        zones_wf(zs, next_id),
        0 <= k < zs.len(),
    ensures
        zones_wf(zs.remove(k), next_id),
{
    let c = zs.remove(k);
    assert forall|a: int, b: int, x: Seq<char>|
        0 <= a < c.len() && 0 <= b < c.len() && a != b && #[trigger] c[a].monitors.contains(x)
            implies !#[trigger] c[b].monitors.contains(x) by {
        let oa = if a < k { a } else { a + 1 };
        let ob = if b < k { b } else { b + 1 };
        assert(c[a] == zs[oa] && c[b] == zs[ob]);
    }
    assert forall|a: int, b: int| 0 <= a < b < c.len() implies #[trigger] c[a].id != #[trigger] c[b].id by {
        let oa = if a < k { a } else { a + 1 };
        let ob = if b < k { b } else { b + 1 };
        assert(c[a] == zs[oa] && c[b] == zs[ob]);
    }
    assert forall|a: int| 0 <= a < c.len() implies #[trigger] c[a].id < next_id by {
        let oa = if a < k { a } else { a + 1 };
        assert(c[a] == zs[oa]);
    }
    assert forall|a: int| 0 <= a < c.len() implies #[trigger] c[a].monitors.len() > 0 by {
        let oa = if a < k { a } else { a + 1 };
        assert(c[a] == zs[oa]);
    }
}

/// After `set` on a group of monitors, each of them is in the newly formed
/// zone, which plays the new path: a read after the write gives it back.
pub proof fn law_set_then_get(
    v: ZoneManagerView,
    names: Seq<Seq<char>>,
    path: Seq<char>,
    bbox: Rect,
    m: Seq<char>,
)
    requires
        zones_wf(v.zones, v.next_id),
        names.contains(m),
    ensures
        zone_with(after_set(v, names, path, bbox).zones, m) == Some(set_zone(v, names, path, bbox)),
        path_with(after_set(v, names, path, bbox).zones, m) == Some(path),
{
    if reforms(v.zones, names) {
        lemma_reformed_at(v.zones, v.next_id, names, m);
        let k = zone_index(v.zones, names[0]);
        lemma_zone_with_update(v.zones, k, set_zone(v, names, path, bbox), m);
    } else {
        lemma_survivors_wf(v.zones, v.next_id, names);
        let sv = survivors(v.zones, names);
        lemma_zone_with(sv, m);
        lemma_zone_with_push(sv, formed_zone(v.next_id, names, path, bbox), m);
    }
}

/// A monitor that `set` does not name keeps its zone (same id) and its
/// wallpaper, or stays in no zone.
pub proof fn law_set_keeps_others(
    v: ZoneManagerView,
    names: Seq<Seq<char>>,
    path: Seq<char>,
    bbox: Rect,
    m: Seq<char>,
)
    requires
        !names.contains(m),
    ensures
        path_with(after_set(v, names, path, bbox).zones, m) == path_with(v.zones, m),
        (zone_with(after_set(v, names, path, bbox).zones, m) is Some) == (zone_with(v.zones, m) is Some),
        zone_with(v.zones, m) is Some ==> zone_with(after_set(v, names, path, bbox).zones, m)->0.id
            == zone_with(v.zones, m)->0.id,
{
    if reforms(v.zones, names) {
        lemma_reformed_at(v.zones, v.next_id, names, m);
        let k = zone_index(v.zones, names[0]);
        lemma_zone_with_update(v.zones, k, set_zone(v, names, path, bbox), m);
    } else {
        lemma_survivors_keep(v.zones, names, m);
        lemma_zone_with_push(survivors(v.zones, names), formed_zone(v.next_id, names, path, bbox), m);
    }
}

/// Unplugging `m` leaves it in no zone, and every other monitor keeps its
/// zone and wallpaper.
pub proof fn law_remove_monitor_forgets(zs: Seq<ZoneView>, next_id: u64, m: Seq<char>, other: Seq<char>)
    requires
        zones_wf(zs, next_id),
        other != m,
    ensures
        zone_with(survivors(zs, seq![m]), m) is None,
        path_with(survivors(zs, seq![m]), other) == path_with(zs, other),
        (zone_with(survivors(zs, seq![m]), other) is Some) == (zone_with(zs, other) is Some),
{
    lemma_survivors_wf(zs, next_id, seq![m]);
    lemma_zone_with(survivors(zs, seq![m]), m);
    assert(seq![m].contains(m)) by {
        assert(seq![m][0] == m);
    }
    assert(!seq![m].contains(other)) by {
        if seq![m].contains(other) {
            let i = choose|i: int| 0 <= i < 1 && seq![m][i] == other;
        }
    }
    lemma_survivors_keep(zs, seq![m], other);
}

proof fn lemma_without_empty(ms: Seq<Seq<char>>, m: Seq<char>)
    requires
        ms.len() > 0,
    ensures
        without(ms, seq![m]).len() == 0 <==> forall|i: int| 0 <= i < ms.len() ==> #[trigger] ms[i] == m,
        without(ms, seq![m]).len() == 0 ==> ms.contains(m),
{
    lemma_without(ms, seq![m]);
    assert forall|x: Seq<char>| seq![m].contains(x) <==> x == m by {
        if x == m {
            assert(seq![m][0] == x);
        }
    }
    if without(ms, seq![m]).len() == 0 {
        assert forall|i: int| 0 <= i < ms.len() implies #[trigger] ms[i] == m by {
            if ms[i] != m {
                assert(ms.contains(ms[i]));
                assert(without(ms, seq![m]).contains(ms[i]));
            }
        }
        assert(ms[0] == m);
    } else {
        let x = without(ms, seq![m])[0];
        assert(without(ms, seq![m]).contains(x));
        let i = choose|i: int| 0 <= i < ms.len() && ms[i] == x;
        assert(ms[i] != m);
    }
}

/// Unplugging `m` dissolves a zone only when `m` was its only member (its
/// every entry), and then exactly that zone.
pub proof fn law_remove_monitor_dissolves_lone_zone(zs: Seq<ZoneView>, next_id: u64, m: Seq<char>)
    requires
        zones_wf(zs, next_id),
    ensures
        dissolved_ids(zs, seq![m]) == (if zone_with(zs, m) matches Some(z) && forall|i: int|
            0 <= i < z.monitors.len() ==> #[trigger] z.monitors[i] == m {
            seq![zone_with(zs, m)->0.id]
        } else {
            Seq::<u64>::empty()
        }),
    decreases zs.len(),
{
    if zs.len() > 0 {
        let p = zs.drop_last();
        lemma_prefix_wf(zs, next_id);
        law_remove_monitor_dissolves_lone_zone(p, next_id, m);
        let l = zs.last();
        assert(l == zs[zs.len() - 1]);
        assert(l.monitors.len() > 0);
        lemma_without_empty(l.monitors, m);
        lemma_zone_with(p, m);
        if without(l.monitors, seq![m]).len() == 0 {
            assert(l.monitors.contains(m));
            assert(zone_with(p, m) is None) by {
                assert forall|i: int| 0 <= i < p.len() implies !(#[trigger] p[i].monitors.contains(m)) by {
                    assert(p[i] == zs[i]);
                    assert(zs[zs.len() - 1].monitors.contains(m));
                }
            }
            assert(dissolved_ids(p, seq![m]) =~= Seq::<u64>::empty());
            assert(dissolved_ids(zs, seq![m]) =~= seq![l.id]);
        } else {
            if zone_with(p, m) is None && l.monitors.contains(m) {
                assert(zone_with(zs, m) == Some(l));
                let i = choose|i: int| 0 <= i < l.monitors.len() && l.monitors[i] != m;
            }
        }
    }
}

/// After clearing `m`'s wallpaper, `m` reports none; a group keeps every
/// member together under the same id; monitors outside `m`'s zone keep
/// their zone and wallpaper.
pub proof fn law_clear_path(zs: Seq<ZoneView>, next_id: u64, m: Seq<char>, other: Seq<char>)
    requires
        zones_wf(zs, next_id),
    ensures
        path_with(cleared_zones(zs, m), m) is None,
        zone_with(zs, m) matches Some(z) ==> (z.path is Some && z.monitors.len() > 1 && z.monitors.contains(other)
            ==> zone_with(cleared_zones(zs, m), other) == Some(ZoneView { path: None, ..z })),
        !(zone_with(zs, m) matches Some(z) && z.monitors.contains(other))
            ==> zone_with(cleared_zones(zs, m), other) == zone_with(zs, other),
{
    lemma_zone_index(zs, m);
    lemma_zone_with(zs, other);
    let k = zone_index(zs, m);
    let c = cleared_zones(zs, m);
    if k < zs.len() {
        let z = zs[k];
        if z.path is Some {
            if z.monitors.len() == 1 {
                assert(c == zs.remove(k));
                lemma_zone_with(c, m);
                assert forall|i: int| 0 <= i < c.len() implies !(#[trigger] c[i].monitors.contains(m)) by {
                    let oi = if i < k { i } else { i + 1 };
                    assert(c[i] == zs[oi]);
                }
                if !z.monitors.contains(other) {
                    lemma_zone_with(c, other);
                    if zone_with(zs, other) is Some {
                        let j = choose|j: int| 0 <= j < zs.len() && #[trigger] zs[j].monitors.contains(other)
                            && zone_with(zs, other) == Some(zs[j]) && forall|q: int| 0 <= q < j ==> !(#[trigger] zs[q].monitors.contains(other));
                        assert(j != k);
                        let cj = if j < k { j } else { j - 1 };
                        assert(c[cj] == zs[j]);
                        lemma_remove_wf(zs, next_id, k);
                        lemma_zone_with_at(c, next_id, other, cj);
                        lemma_zone_with_at(zs, next_id, other, j);
                    } else {
                        assert forall|i: int| 0 <= i < c.len() implies !(#[trigger] c[i].monitors.contains(other)) by {
                            let oi = if i < k { i } else { i + 1 };
                            assert(c[i] == zs[oi]);
                        }
                    }
                }
            } else {
                let nz = ZoneView { path: None, ..z };
                assert(c == zs.update(k, nz));
                assert forall|i: int, x: Seq<char>| 0 <= i < c.len() implies (#[trigger] c[i].monitors.contains(x)) == zs[i].monitors.contains(x) by {
                    if i == k {
                        assert(c[i].monitors == zs[i].monitors);
                    } else {
                        assert(c[i] == zs[i]);
                    }
                }
                assert(zones_wf(c, next_id)) by {
                    assert forall|a: int, b: int, x: Seq<char>|
                        0 <= a < c.len() && 0 <= b < c.len() && a != b && #[trigger] c[a].monitors.contains(x)
                            implies !#[trigger] c[b].monitors.contains(x) by {
                        assert(c[a].monitors == zs[a].monitors && c[b].monitors == zs[b].monitors);
                    }
                    assert forall|a: int, b: int| 0 <= a < b < c.len() implies #[trigger] c[a].id != #[trigger] c[b].id by {
                        assert(c[a].id == zs[a].id && c[b].id == zs[b].id);
                    }
                    assert forall|a: int| 0 <= a < c.len() implies #[trigger] c[a].id < next_id by {
                        assert(c[a].id == zs[a].id);
                    }
                    assert forall|a: int| 0 <= a < c.len() implies #[trigger] c[a].monitors.len() > 0 by {
                        assert(c[a].monitors == zs[a].monitors);
                    }
                }
                lemma_zone_with_at(c, next_id, m, k);
                if z.monitors.contains(other) {
                    lemma_zone_with_at(c, next_id, other, k);
                } else {
                    if zone_with(zs, other) is Some {
                        let j = choose|j: int| 0 <= j < zs.len() && #[trigger] zs[j].monitors.contains(other)
                            && zone_with(zs, other) == Some(zs[j]) && forall|q: int| 0 <= q < j ==> !(#[trigger] zs[q].monitors.contains(other));
                        assert(j != k);
                        assert(c[j] == zs[j]);
                        lemma_zone_with_at(c, next_id, other, j);
                    } else {
                        lemma_zone_with(c, other);
                        assert forall|i: int| 0 <= i < c.len() implies !(#[trigger] c[i].monitors.contains(other)) by {
                            assert(c[i].monitors.contains(other) == zs[i].monitors.contains(other));
                        }
                    }
                }
            }
        }
    }
}

/// Clearing a monitor's wallpaper keeps the zones well formed.
pub proof fn lemma_cleared_wf(zs: Seq<ZoneView>, next_id: u64, m: Seq<char>)
    requires
        zones_wf(zs, next_id),
    ensures
        zones_wf(cleared_zones(zs, m), next_id),
{
    lemma_zone_index(zs, m);
    let k = zone_index(zs, m);
    if k < zs.len() {
        let z = zs[k];
        if z.path is Some {
            if z.monitors.len() == 1 {
                lemma_remove_wf(zs, next_id, k);
            } else {
                let c = cleared_zones(zs, m);
                assert(c == zs.update(k, ZoneView { path: None, ..z }));
                assert forall|a: int, b: int, x: Seq<char>|
                    0 <= a < c.len() && 0 <= b < c.len() && a != b && #[trigger] c[a].monitors.contains(x)
                        implies !#[trigger] c[b].monitors.contains(x) by {
                    assert(c[a].monitors == zs[a].monitors && c[b].monitors == zs[b].monitors);
                }
                assert forall|a: int, b: int| 0 <= a < b < c.len() implies #[trigger] c[a].id != #[trigger] c[b].id by {
                    assert(c[a].id == zs[a].id && c[b].id == zs[b].id);
                }
                assert forall|a: int| 0 <= a < c.len() implies #[trigger] c[a].id < next_id by {
                    assert(c[a].id == zs[a].id);
                }
                assert forall|a: int| 0 <= a < c.len() implies #[trigger] c[a].monitors.len() > 0 by {
                    assert(c[a].monitors == zs[a].monitors);
                }
            }
        }
    }
}

/// Forming a zone keeps the zones well formed.
pub proof fn lemma_after_set_wf(v: ZoneManagerView, names: Seq<Seq<char>>, path: Seq<char>, bbox: Rect)
    requires
        zones_wf(v.zones, v.next_id),
        !reforms(v.zones, names) ==> v.next_id < u64::MAX,
        names.len() > 0,
    ensures
        zones_wf(after_set(v, names, path, bbox).zones, after_set(v, names, path, bbox).next_id),
{
    if reforms(v.zones, names) {
        lemma_reformed_at(v.zones, v.next_id, names, names[0]);
        let k = zone_index(v.zones, names[0]);
        let zs = v.zones;
        let z2 = zs.update(k, set_zone(v, names, path, bbox));
        assert forall|a: int| 0 <= a < z2.len() implies #[trigger] z2[a].id == zs[a].id && z2[a].monitors == zs[a].monitors by {
            if a == k {
                assert(z2[a] == set_zone(v, names, path, bbox));
            }
        }
        assert(zones_wf(z2, v.next_id)) by {
            assert forall|a: int| 0 <= a < z2.len() implies #[trigger] z2[a].id < v.next_id by {
                assert(z2[a].id == zs[a].id);
            }
            assert forall|a: int, b: int| 0 <= a < b < z2.len() implies #[trigger] z2[a].id != #[trigger] z2[b].id by {
                assert(z2[a].id == zs[a].id && z2[b].id == zs[b].id);
            }
            assert forall|a: int| 0 <= a < z2.len() implies #[trigger] z2[a].monitors.len() > 0 by {
                assert(z2[a].monitors == zs[a].monitors);
            }
            assert forall|a: int, b: int, m: Seq<char>|
                0 <= a < z2.len() && 0 <= b < z2.len() && a != b && #[trigger] z2[a].monitors.contains(m)
                    implies !#[trigger] z2[b].monitors.contains(m) by {
                assert(z2[a].monitors == zs[a].monitors && z2[b].monitors == zs[b].monitors);
            }
        }
    } else {
    let id = v.next_id;
    lemma_survivors_wf(v.zones, id, names);
    let sv = survivors(v.zones, names);
    let nz = formed_zone(id, names, path, bbox);
    let zs2 = sv.push(nz);
    assert(zs2 == after_set(v, names, path, bbox).zones);
    assert forall|a: int| 0 <= a < zs2.len() implies #[trigger] zs2[a].id < id + 1 by {
        if a < sv.len() {
            assert(zs2[a] == sv[a]);
        }
    }
    assert forall|a: int, b: int| 0 <= a < b < zs2.len() implies #[trigger] zs2[a].id != #[trigger] zs2[b].id by {
        assert(zs2[a] == sv[a]);
        if b < sv.len() {
            assert(zs2[b] == sv[b]);
        }
    }
    assert forall|a: int| 0 <= a < zs2.len() implies #[trigger] zs2[a].monitors.len() > 0 by {
        if a < sv.len() {
            assert(zs2[a] == sv[a]);
        }
    }
    assert forall|a: int, b: int, m: Seq<char>|
        0 <= a < zs2.len() && 0 <= b < zs2.len() && a != b && #[trigger] zs2[a].monitors.contains(m)
            implies !#[trigger] zs2[b].monitors.contains(m) by {
        if a < sv.len() && b < sv.len() {
            assert(zs2[a] == sv[a] && zs2[b] == sv[b]);
        } else if a < sv.len() {
            assert(zs2[a] == sv[a]);
            if names.contains(m) {
                assert(!sv[a].monitors.contains(m));
            }
        } else {
            assert(zs2[b] == sv[b]);
            assert(names.contains(m));
        }
    }
    }
}

/// No zone lists a monitor twice.
pub open spec fn members_unique(zs: Seq<ZoneView>) -> bool {
    forall|i: int| 0 <= i < zs.len() ==> (#[trigger] zs[i]).monitors.no_duplicates()
}

/// Taking names out of a list that repeats none leaves a list that repeats none.
proof fn lemma_without_unique(ms: Seq<Seq<char>>, names: Seq<Seq<char>>)
    requires
        ms.no_duplicates(),
    ensures
        without(ms, names).no_duplicates(),
    decreases ms.len(),
{
    if ms.len() > 0 {
        let p = ms.drop_last();
        let l = ms.last();
        assert(p.no_duplicates()) by {
            assert forall|i: int, j: int| 0 <= i < p.len() && 0 <= j < p.len() && i != j implies p[i] != p[j] by {
                assert(p[i] == ms[i] && p[j] == ms[j]);
            }
        }
        lemma_without_unique(p, names);
        lemma_without(p, names);
        let w = without(p, names);
        if !names.contains(l) {
            assert(!w.contains(l)) by {
                if w.contains(l) {
                    assert(p.contains(l));
                    let i = choose|i: int| 0 <= i < p.len() && p[i] == l;
                    assert(ms[i] == ms[ms.len() - 1]);
                }
            }
            let w2 = w.push(l);
            assert forall|i: int, j: int| 0 <= i < w2.len() && 0 <= j < w2.len() && i != j implies w2[i] != w2[j] by {
                if i < w.len() && j < w.len() {
                    assert(w2[i] == w[i] && w2[j] == w[j]);
                } else if i < w.len() {
                    assert(w2[i] == w[i]);
                    assert(w.contains(w[i]));
                } else {
                    assert(w2[j] == w[j]);
                    assert(w.contains(w[j]));
                }
            }
        }
    }
}

/// The zones left after taking names out repeat no monitor within a zone
/// when the zones did not.
proof fn lemma_survivors_unique(zs: Seq<ZoneView>, names: Seq<Seq<char>>)
    requires
        members_unique(zs),
    ensures
        members_unique(survivors(zs, names)),
{
    lemma_survivors_origin(zs, names);
    let s = survivors(zs, names);
    assert forall|k: int| 0 <= k < s.len() implies (#[trigger] s[k]).monitors.no_duplicates() by {
        let j = choose|j: int| 0 <= j < zs.len() && #[trigger] s[k] == strip_zone(zs[j], names);
        assert(zs[j].monitors.no_duplicates());
        lemma_without_unique(zs[j].monitors, names);
    }
}

/// No zone comes to list a monitor twice: not by a `set` naming each
/// monitor once, not by an unplug, not by clearing a wallpaper.
pub proof fn law_members_stay_unique(v: ZoneManagerView, names: Seq<Seq<char>>, path: Seq<char>, bbox: Rect, m: Seq<char>)
    requires
        members_unique(v.zones),
    ensures
        names.no_duplicates() ==> members_unique(after_set(v, names, path, bbox).zones),
        members_unique(survivors(v.zones, seq![m])),
        members_unique(cleared_zones(v.zones, m)),
{
    lemma_survivors_unique(v.zones, seq![m]);
    lemma_survivors_unique(v.zones, names);
    let zs = v.zones;
    if reforms(zs, names) {
        lemma_reformed_at(zs, v.next_id, names, names[0]);
        let k = zone_index(zs, names[0]);
        let u = zs.update(k, set_zone(v, names, path, bbox));
        assert forall|i: int| 0 <= i < u.len() implies (#[trigger] u[i]).monitors.no_duplicates() by {
            assert(u[i].monitors == zs[i].monitors);
        }
    } else {
        let sv = survivors(zs, names);
        let u = sv.push(formed_zone(v.next_id, names, path, bbox));
        if names.no_duplicates() {
            assert forall|i: int| 0 <= i < u.len() implies (#[trigger] u[i]).monitors.no_duplicates() by {
                if i < sv.len() {
                    assert(u[i] == sv[i]);
                }
            }
        }
    }
    lemma_zone_index(zs, m);
    match zone_with(zs, m) {
        None => {},
        Some(z) => {
            let k = zone_index(zs, m);
            if z.path is Some && z.monitors.len() == 1 {
                let c = zs.remove(k);
                assert forall|i: int| 0 <= i < c.len() implies (#[trigger] c[i]).monitors.no_duplicates() by {
                    if i < k {
                        assert(c[i] == zs[i]);
                    } else {
                        assert(c[i] == zs[i + 1]);
                    }
                }
            } else if z.path is Some {
                let c = zs.update(k, ZoneView { path: None, ..z });
                assert forall|i: int| 0 <= i < c.len() implies (#[trigger] c[i]).monitors.no_duplicates() by {
                    assert(c[i].monitors == zs[i].monitors);
                }
            }
        },
    }
}

} // verus!
