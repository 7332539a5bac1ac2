//! The monitors the compositor currently reports, keyed by output name.
use vstd::prelude::*;
use crate::geometry::{Monitor, Rect};
use crate::order::{lemma_sorted_keys_unique, sort_strings, sorted_keys, sorted_texts, texts};
use crate::text::str_eq;

verus! {

broadcast use vstd::seq_lib::group_to_multiset_ensures;

/// Name-to-rectangle map of the known monitors. Each name occurs once.
#[derive(Debug)]
pub struct MonitorRegistry {
    monitors: Vec<Monitor>,
}

/// The map a list of monitors describes, a later entry overriding an
/// earlier one of the same name.
pub open spec fn monitor_map(s: Seq<Monitor>) -> Map<Seq<char>, Rect>
    decreases s.len(),
{
    if s.len() == 0 {
        Map::empty()
    } else {
        monitor_map(s.drop_last()).insert(s.last().name@, s.last().logical)
    }
}

pub open spec fn names_unique(s: Seq<Monitor>) -> bool {
    forall|i: int, j: int| 0 <= i < j < s.len() ==> #[trigger] s[i].name@ != #[trigger] s[j].name@
}

/// With unique names, the map holds exactly each entry's name and rect.
pub proof fn lemma_monitor_map(s: Seq<Monitor>)
    requires
        names_unique(s),
    ensures
        forall|k: Seq<char>|
            #[trigger] monitor_map(s).contains_key(k) <==> exists|i: int|
                0 <= i < s.len() && #[trigger] s[i].name@ == k,
        forall|i: int| 0 <= i < s.len() ==> #[trigger] monitor_map(s)[s[i].name@] == s[i].logical,
        monitor_map(s).dom().finite(),
        monitor_map(s).dom().len() == s.len(),
    decreases s.len(),
{
    if s.len() > 0 {
        let p = s.drop_last();
        assert(names_unique(p)) by {
            assert forall|i: int, j: int| 0 <= i < j < p.len() implies #[trigger] p[i].name@
                != #[trigger] p[j].name@ by {
                assert(p[i] == s[i] && p[j] == s[j]);
            }
        }
        lemma_monitor_map(p);
        let last = s.len() - 1;
        assert forall|k: Seq<char>|
            #[trigger] monitor_map(s).contains_key(k) <==> exists|i: int|
                0 <= i < s.len() && #[trigger] s[i].name@ == k by {
            if monitor_map(s).contains_key(k) && k != s.last().name@ {
                let i = choose|i: int| 0 <= i < p.len() && #[trigger] p[i].name@ == k;
                assert(s[i] == p[i]);
            }
            if exists|i: int| 0 <= i < s.len() && #[trigger] s[i].name@ == k {
                let i = choose|i: int| 0 <= i < s.len() && #[trigger] s[i].name@ == k;
                if i < last {
                    assert(p[i] == s[i]);
                }
            }
        }
        assert forall|i: int| 0 <= i < s.len() implies #[trigger] monitor_map(s)[s[i].name@]
            == s[i].logical by {
            if i < last {
                assert(p[i] == s[i]);
                assert(s[i].name@ != s[last].name@);
            }
        }
        assert(!monitor_map(p).contains_key(s.last().name@)) by {
            if monitor_map(p).contains_key(s.last().name@) {
                let i = choose|i: int| 0 <= i < p.len() && #[trigger] p[i].name@ == s.last().name@;
                assert(p[i] == s[i]);
            }
        }
    }
}

impl View for MonitorRegistry {
    type V = Map<Seq<char>, Rect>;

    closed spec fn view(&self) -> Map<Seq<char>, Rect> {
        monitor_map(self.monitors@)
    }
}

impl Clone for MonitorRegistry {
    fn clone(&self) -> (r: Self)
        ensures
            r@ == self@,
    {
        proof {
            use_type_invariant(self);
        }
        let mut monitors: Vec<Monitor> = Vec::new();
        let mut i: usize = 0;
        while i < self.monitors.len()
            invariant
                i <= self.monitors@.len(),
                monitors@ =~= self.monitors@.take(i as int),
            decreases self.monitors@.len() - i,
        {
            monitors.push(self.monitors[i].duplicate());
            proof {
                assert(self.monitors@.take(i + 1int) =~= self.monitors@.take(i as int).push(self.monitors@[i as int]));
            }
            i = i + 1;
        }
        proof {
            assert(self.monitors@.take(self.monitors@.len() as int) =~= self.monitors@);
        }
        MonitorRegistry { monitors }
    }
}

impl MonitorRegistry {
    #[verifier::type_invariant]
    closed spec fn inv(self) -> bool {
        names_unique(self.monitors@)
    }

    pub fn new() -> (r: Self)
        ensures
            r@ == Map::<Seq<char>, Rect>::empty(),
    {
        MonitorRegistry { monitors: Vec::new() }
    }

    /// Position of `name` among the entries, if present.
    fn position(&self, name: &str) -> (r: Option<usize>)
        ensures
            match r {
                Some(i) => i < self.monitors@.len() && self.monitors@[i as int].name@ == name@,
                None => forall|i: int|
                    0 <= i < self.monitors@.len() ==> #[trigger] self.monitors@[i].name@ != name@,
            },
    {
        let mut i: usize = 0;
        while i < self.monitors.len()
            invariant
                i <= self.monitors@.len(),
                forall|j: int| 0 <= j < i ==> #[trigger] self.monitors@[j].name@ != name@,
            decreases self.monitors@.len() - i,
        {
            if str_eq(self.monitors[i].name.as_str(), name) {
                return Some(i);
            }
            i = i + 1;
        }
        None
    }

    /// Adds `m`, replacing any monitor already known under its name.
    pub fn insert(&mut self, m: Monitor)
        ensures
            final(self)@ == old(self)@.insert(m.name@, m.logical),
    {
        proof {
            use_type_invariant(&*self);
            lemma_monitor_map(self.monitors@);
        }
        let ghost old_s = self.monitors@;
        match self.position(m.name.as_str()) {
            Some(i) => {
                let ghost k = m.name@;
                let ghost rect = m.logical;
                let mut entries: Vec<Monitor> = Vec::new();
                std::mem::swap(&mut entries, &mut self.monitors);
                entries.set(i, m);
                let ghost new_s = entries@;
                proof {
                    assert(names_unique(new_s)) by {
                        assert forall|a: int, b: int| 0 <= a < b < new_s.len() implies #[trigger] new_s[a].name@
                            != #[trigger] new_s[b].name@ by {
                            if a != i && b != i {
                                assert(new_s[a] == old_s[a] && new_s[b] == old_s[b]);
                            } else if a == i {
                                assert(new_s[b] == old_s[b]);
                            } else {
                                assert(new_s[a] == old_s[a]);
                            }
                        }
                    }
                    lemma_monitor_map(new_s);
                    assert(monitor_map(new_s) =~= monitor_map(old_s).insert(k, rect)) by {
                        assert forall|key: Seq<char>| #[trigger] monitor_map(new_s).contains_key(key)
                            == monitor_map(old_s).insert(k, rect).contains_key(key) by {
                            assert(new_s[i as int].name@ == k);
                            assert(old_s[i as int].name@ == k);
                            if key == k {
                                assert(monitor_map(new_s).contains_key(key));
                            }
                            if monitor_map(new_s).contains_key(key) {
                                let j = choose|j: int| 0 <= j < new_s.len() && #[trigger] new_s[j].name@ == key;
                                if j != i {
                                    assert(new_s[j] == old_s[j]);
                                }
                            }
                            if monitor_map(old_s).contains_key(key) {
                                let j = choose|j: int| 0 <= j < old_s.len() && #[trigger] old_s[j].name@ == key;
                                if j != i {
                                    assert(new_s[j] == old_s[j]);
                                }
                            }
                        }
                        assert forall|key: Seq<char>| #[trigger] monitor_map(new_s).contains_key(key)
                            implies monitor_map(new_s)[key] == monitor_map(old_s).insert(k, rect)[key] by {
                            let j = choose|j: int| 0 <= j < new_s.len() && #[trigger] new_s[j].name@ == key;
                            if j != i {
                                assert(new_s[j] == old_s[j]);
                            }
                        }
                    }
                }
                self.monitors = entries;
            },
            None => {
                let ghost k = m.name@;
                let ghost rect = m.logical;
                let mut entries: Vec<Monitor> = Vec::new();
                std::mem::swap(&mut entries, &mut self.monitors);
                entries.push(m);
                let ghost new_s = entries@;
                proof {
                    assert(new_s.drop_last() =~= old_s);
                    assert(names_unique(new_s)) by {
                        assert forall|a: int, b: int| 0 <= a < b < new_s.len() implies #[trigger] new_s[a].name@
                            != #[trigger] new_s[b].name@ by {
                            assert(new_s[a] == old_s[a]);
                            if b < old_s.len() {
                                assert(new_s[b] == old_s[b]);
                            }
                        }
                    }
                }
                self.monitors = entries;
            },
        }
    }

    /// Forgets the monitor named `name`, if known.
    pub fn remove(&mut self, name: &str)
        ensures
            final(self)@ == old(self)@.remove(name@),
    {
        proof {
            use_type_invariant(&*self);
            lemma_monitor_map(self.monitors@);
        }
        let ghost old_s = self.monitors@;
        match self.position(name) {
            Some(i) => {
                let mut entries: Vec<Monitor> = Vec::new();
                std::mem::swap(&mut entries, &mut self.monitors);
                let _gone = entries.remove(i);
                let ghost new_s = entries@;
                proof {
                    assert(new_s =~= old_s.remove(i as int));
                    assert(names_unique(new_s)) by {
                        assert forall|a: int, b: int| 0 <= a < b < new_s.len() implies #[trigger] new_s[a].name@
                            != #[trigger] new_s[b].name@ by {
                            let oa = if a < i { a } else { a + 1 };
                            let ob = if b < i { b } else { b + 1 };
                            assert(new_s[a] == old_s[oa] && new_s[b] == old_s[ob]);
                        }
                    }
                    lemma_monitor_map(new_s);
                    assert(monitor_map(new_s) =~= monitor_map(old_s).remove(name@)) by {
                        assert forall|key: Seq<char>| #[trigger] monitor_map(new_s).contains_key(key)
                            == monitor_map(old_s).remove(name@).contains_key(key) by {
                            if monitor_map(new_s).contains_key(key) {
                                let j = choose|j: int| 0 <= j < new_s.len() && #[trigger] new_s[j].name@ == key;
                                let oj = if j < i { j } else { j + 1 };
                                assert(new_s[j] == old_s[oj]);
                            }
                            if monitor_map(old_s).contains_key(key) && key != name@ {
                                let j = choose|j: int| 0 <= j < old_s.len() && #[trigger] old_s[j].name@ == key;
                                let nj = if j < i { j } else { j - 1 };
                                assert(new_s[nj] == old_s[j]);
                            }
                        }
                        assert forall|key: Seq<char>| #[trigger] monitor_map(new_s).contains_key(key)
                            implies monitor_map(new_s)[key] == monitor_map(old_s).remove(name@)[key] by {
                            let j = choose|j: int| 0 <= j < new_s.len() && #[trigger] new_s[j].name@ == key;
                            let oj = if j < i { j } else { j + 1 };
                            assert(new_s[j] == old_s[oj]);
                        }
                    }
                }
                self.monitors = entries;
            },
            None => {
                proof {
                    assert(monitor_map(old_s) =~= monitor_map(old_s).remove(name@));
                }
            },
        }
    }

    /// Whether a monitor named `name` is known.
    pub fn contains(&self, name: &str) -> (r: bool)
        ensures
            r == self@.contains_key(name@),
    {
        proof {
            use_type_invariant(self);
            lemma_monitor_map(self.monitors@);
        }
        self.position(name).is_some()
    }

    /// The monitor named `name`, if known.
    pub fn get(&self, name: &str) -> (r: Option<&Monitor>)
        ensures
            r is Some == self@.contains_key(name@),
            r matches Some(m) ==> m.name@ == name@ && m.logical == self@[name@],
    {
        proof {
            use_type_invariant(self);
            lemma_monitor_map(self.monitors@);
        }
        match self.position(name) {
            Some(i) => Some(&self.monitors[i]),
            None => None,
        }
    }

    /// Every known name, sorted in `String`'s order, each once.
    pub fn names(&self) -> (r: Vec<String>)
        ensures
            sorted_texts(texts(r@)),
            texts(r@).no_duplicates(),
            forall|k: Seq<char>| self@.contains_key(k) <==> #[trigger] texts(r@).contains(k),
            texts(r@) == sorted_keys(self@.dom()),
    {
        proof {
            use_type_invariant(self);
            lemma_monitor_map(self.monitors@);
        }
        let mut names: Vec<String> = Vec::new();
        let mut i: usize = 0;
        while i < self.monitors.len()
            invariant
                i <= self.monitors@.len(),
                names@.len() == i,
                forall|j: int| 0 <= j < i ==> #[trigger] names@[j]@ == self.monitors@[j].name@,
            decreases self.monitors@.len() - i,
        {
            names.push(self.monitors[i].name.clone());
            i = i + 1;
        }
        let sorted = sort_strings(&names);
        proof {
            let src = texts(names@);
            let out = texts(sorted@);
            assert(src.no_duplicates()) by {
                assert forall|a: int, b: int| 0 <= a < src.len() && 0 <= b < src.len() && a != b
                    implies src[a] != src[b] by {
                    if a < b {
                        assert(src[a] == self.monitors@[a].name@ && src[b] == self.monitors@[b].name@);
                    } else {
                        assert(src[a] == self.monitors@[a].name@ && src[b] == self.monitors@[b].name@);
                    }
                }
            }
            src.lemma_multiset_has_no_duplicates();
            out.lemma_multiset_has_no_duplicates_conv();
            assert forall|k: Seq<char>| self@.contains_key(k) <==> #[trigger] out.contains(k) by {
                if self@.contains_key(k) {
                    let j = choose|j: int| 0 <= j < self.monitors@.len() && #[trigger] self.monitors@[j].name@ == k;
                    assert(src[j] == k);
                    assert(src.to_multiset().count(k) > 0);
                }
                if out.contains(k) {
                    assert(out.to_multiset().count(k) > 0);
                    assert(src.contains(k));
                    let j = choose|j: int| 0 <= j < src.len() && src[j] == k;
                    assert(self.monitors@[j].name@ == k);
                }
            }
            lemma_sorted_keys_unique(self@.dom(), out);
        }
        sorted
    }

    /// Every known monitor's name and rectangle, each name once.
    pub fn geometry(&self) -> (r: Vec<(String, Rect)>)
        ensures
            r@.len() == self@.dom().len(),
            forall|i: int, j: int| 0 <= i < j < r@.len() ==> #[trigger] r@[i].0@ != #[trigger] r@[j].0@,
            forall|i: int| 0 <= i < r@.len() ==> self@.contains_key(#[trigger] r@[i].0@) && self@[r@[i].0@] == r@[i].1,
            forall|k: Seq<char>| self@.contains_key(k) ==> exists|i: int| 0 <= i < r@.len() && #[trigger] r@[i].0@ == k,
    {
        proof {
            use_type_invariant(self);
            lemma_monitor_map(self.monitors@);
        }
        let mut out: Vec<(String, Rect)> = Vec::new();
        let mut i: usize = 0;
        while i < self.monitors.len()
            invariant
                i <= self.monitors@.len(),
                out@.len() == i,
                forall|j: int| 0 <= j < i ==> #[trigger] out@[j].0@ == self.monitors@[j].name@ && out@[j].1 == self.monitors@[j].logical,
            decreases self.monitors@.len() - i,
        {
            out.push((self.monitors[i].name.clone(), self.monitors[i].logical));
            i = i + 1;
        }
        proof {
            assert forall|k: Seq<char>| self@.contains_key(k) implies exists|i: int| 0 <= i < out@.len() && #[trigger] out@[i].0@ == k by {
                let j = choose|j: int| 0 <= j < self.monitors@.len() && #[trigger] self.monitors@[j].name@ == k;
                assert(out@[j].0@ == k);
            }
        }
        out
    }
}

} // verus!
