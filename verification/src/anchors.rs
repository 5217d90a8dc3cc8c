//! Shared-ownership wrappers that serialize as YAML anchors and
//! aliases: the first strong reference to a value defines an anchor,
//! later references to the same allocation become aliases. The weak
//! variants live with the serde glue, outside this crate's verified
//! part.
use vstd::prelude::*;

use std::rc::Rc;
use std::sync::Arc;

use rustc_hash::{FxBuildHasher, FxHashMap};

use crate::text::{decimal, push_char, push_decimal};

verus! {

/// A single-threaded shared value that serializes as an anchor on its
/// first appearance and as an alias afterwards.
#[derive(Clone)]
pub struct RcAnchor<T>(pub Rc<T>);

impl<T> RcAnchor<T> {
    /// The shared value.
    pub fn into_inner(self) -> (r: Rc<T>)
        ensures
            r == self.0,
    {
        self.0
    }
}

/// A thread-safe shared value that serializes as an anchor on its
/// first appearance and as an alias afterwards.
#[derive(Clone)]
pub struct ArcAnchor<T>(pub Arc<T>);

impl<T> ArcAnchor<T> {
    /// The shared value.
    pub fn into_inner(self) -> (r: Arc<T>)
        ensures
            r == self.0,
    {
        self.0
    }
}

/// How `track` classifies a shared allocation during one serialization.
#[derive(Debug, Clone, Copy, PartialEq, Eq, Structural)]
pub enum TrackOutcome {
    /// No serialization scope is active.
    NotActive,
    /// First sighting: the allocation gets this new anchor id.
    New(u32),
    /// Seen before under this anchor id.
    Existing(u32),
}


/// `FxBuildHasher`, the deterministic hasher behind `FxHashMap`.
#[verifier::external_type_specification]
#[verifier::external_body]
pub struct ExFxBuildHasher(FxBuildHasher);

/// A map from allocation addresses to anchor ids.
pub type SeenMap = FxHashMap<usize, u32>;

/// The address-to-anchor-id entries a tracking map holds.
pub uninterp spec fn seen_ids(m: SeenMap) -> Map<usize, u32>;

/// `FxHashMap::default`: an empty map.
#[verifier::external_body]
fn empty_seen() -> (r: SeenMap)
    ensures
        forall|p: usize| !#[trigger] seen_ids(r).contains_key(p),
{
    FxHashMap::default()
}

/// `HashMap::get` (copied out): the id recorded for `ptr`, if any.
#[verifier::external_body]
fn seen_get(m: &SeenMap, ptr: usize) -> (r: Option<u32>)
    ensures
        r == (if seen_ids(*m).contains_key(ptr) {
            Some(seen_ids(*m)[ptr])
        } else {
            None
        }),
{
    m.get(&ptr).copied()
}

/// `HashMap::insert`: record `id` for `ptr`, replacing any earlier id.
#[verifier::external_body]
fn seen_insert(m: &mut SeenMap, ptr: usize, id: u32)
    ensures
        seen_ids(*final(m)) == seen_ids(*old(m)).insert(ptr, id),
{
    let _ = m.insert(ptr, id);
}

/// Identity tracking for one serialization: which allocations (by
/// address) already received an anchor id, and the next id to hand
/// out.
pub struct AnchorState {
    seen: SeenMap,
    next_id: u32,
}

/// One tracking step: an address seen before keeps its id; a new one
/// gets the next id, and the counter moves on (staying put at the
/// top of the `u32` range).
pub open spec fn track_step(seen: Map<usize, u32>, next: u32, ptr: usize) -> (
    TrackOutcome,
    Map<usize, u32>,
    u32,
) {
    if seen.contains_key(ptr) {
        (TrackOutcome::Existing(seen[ptr]), seen, next)
    } else {
        (
            TrackOutcome::New(next),
            seen.insert(ptr, next),
            if next == u32::MAX {
                next
            } else {
                (next + 1) as u32
            },
        )
    }
}

/// Every recorded id is below the next one and no two addresses share
/// an id.
pub open spec fn ids_distinct(seen: Map<usize, u32>, next: u32) -> bool {
    &&& forall|p: usize| #[trigger] seen.contains_key(p) ==> seen[p] < next
    &&& forall|p: usize, q: usize|
        #[trigger] seen.contains_key(p) && #[trigger] seen.contains_key(q) && p != q ==> seen[p]
            != seen[q]
}

impl AnchorState {
    /// The recorded addresses and their ids.
    pub closed spec fn spec_seen(&self) -> Map<usize, u32> {
        seen_ids(self.seen)
    }

    /// The id the next new address receives.
    pub closed spec fn spec_next(&self) -> u32 {
        self.next_id
    }

    /// A fresh state: nothing seen, ids start at 1.
    pub fn new() -> (s: Self)
        ensures
            forall|p: usize| !#[trigger] s.spec_seen().contains_key(p),
            s.spec_next() == 1,
    {
        AnchorState { seen: empty_seen(), next_id: 1 }
    }

    /// Record the address `ptr`: a new address is given the next id,
    /// one seen before reports its id (see [`track_step`]).
    pub fn track(&mut self, ptr: usize) -> (r: TrackOutcome)
        ensures
            (r, final(self).spec_seen(), final(self).spec_next()) == track_step(
                old(self).spec_seen(),
                old(self).spec_next(),
                ptr,
            ),
    {
        match seen_get(&self.seen, ptr) {
            Some(id) => TrackOutcome::Existing(id),
            None => {
                let id = self.next_id;
                self.next_id = self.next_id.saturating_add(1);
                seen_insert(&mut self.seen, ptr, id);
                TrackOutcome::New(id)
            },
        }
    }

    /// The id recorded for `ptr`, without recording it.
    pub fn peek(&self, ptr: usize) -> (r: Option<u32>)
        ensures
            r == (if self.spec_seen().contains_key(ptr) {
                Some(self.spec_seen()[ptr])
            } else {
                None
            }),
    {
        seen_get(&self.seen, ptr)
    }
}

/// A fresh state records no address twice.
pub proof fn lemma_fresh_ids_distinct(seen: Map<usize, u32>)
    requires
        forall|p: usize| !#[trigger] seen.contains_key(p),
    ensures
        ids_distinct(seen, 1),
{
}

/// The second sighting of an address is an alias to the anchor its
/// first sighting defined, and changes nothing.
pub proof fn lemma_second_sighting_is_alias(seen: Map<usize, u32>, next: u32, ptr: usize)
    ensures
        ({
            let (first, s1, n1) = track_step(seen, next, ptr);
            let (second, s2, n2) = track_step(s1, n1, ptr);
            &&& second == TrackOutcome::Existing(
                match first {
                    TrackOutcome::New(id) => id,
                    TrackOutcome::Existing(id) => id,
                    TrackOutcome::NotActive => 0,
                },
            )
            &&& s2 == s1
            &&& n2 == n1
        }),
{
}

/// While ids remain below the top of the `u32` range, tracking keeps
/// ids distinct: different addresses never share an anchor.
pub proof fn lemma_track_keeps_ids_distinct(seen: Map<usize, u32>, next: u32, ptr: usize)
    requires
        ids_distinct(seen, next),
        next < u32::MAX,
    ensures
        ({
            let (_, s1, n1) = track_step(seen, next, ptr);
            ids_distinct(s1, n1)
        }),
{
    let (_, s1, n1) = track_step(seen, next, ptr);
    if !seen.contains_key(ptr) {
        assert forall|p: usize| #[trigger] s1.contains_key(p) implies s1[p] < n1 by {
            if p != ptr {
                assert(seen.contains_key(p));
            }
        }
        assert forall|p: usize, q: usize|
            #[trigger] s1.contains_key(p) && #[trigger] s1.contains_key(q) && p != q implies s1[p]
                != s1[q] by {
            if p != ptr && q != ptr {
                assert(seen.contains_key(p) && seen.contains_key(q));
            } else if p == ptr {
                assert(seen.contains_key(q));
            } else {
                assert(seen.contains_key(p));
            }
        }
    }
}

/// `n` in decimal, left-padded with zeros to at least three digits.
pub open spec fn padded3(n: nat) -> Seq<char> {
    let d = decimal(n);
    if d.len() >= 3 {
        d
    } else {
        Seq::new((3 - d.len()) as nat, |i: int| '0') + d
    }
}

/// The anchor name of id `id`: `id` then the id padded to three
/// digits (`id001`, `id042`, `id1234`).
pub fn format_id(id: u32) -> (s: String)
    ensures
        s@ == seq!['i', 'd'] + padded3(id as nat),
{
    let mut s = String::new();
    push_char(&mut s, 'i');
    push_char(&mut s, 'd');
    let ghost head = s@;
    if id < 10 {
        push_char(&mut s, '0');
        push_char(&mut s, '0');
    } else if id < 100 {
        push_char(&mut s, '0');
    }
    let ghost zeros = s@.skip(2);
    push_decimal(&mut s, id as usize);
    proof {
        crate::text::lemma_decimal_len(id as nat);
        crate::text::lemma_decimal_len((id / 10) as nat);
        crate::text::lemma_decimal_len((id / 100) as nat);
        assert(s@ =~= seq!['i', 'd'] + padded3(id as nat));
    }
    s
}

/// `Rc::clone`: another pointer to the same allocation.
#[verifier::external_body]
fn rc_clone<T>(r: &Rc<T>) -> (c: Rc<T>)
    ensures
        c == *r,
{
    Rc::clone(r)
}

/// `Arc::clone`: another pointer to the same allocation.
#[verifier::external_body]
fn arc_clone<T>(r: &Arc<T>) -> (c: Arc<T>)
    ensures
        c == *r,
{
    Arc::clone(r)
}

/// The entries of a list of named values, later names replacing
/// earlier ones.
pub open spec fn entries_map<P>(v: Seq<(String, P)>) -> Map<Seq<char>, P>
    decreases v.len(),
{
    if v.len() == 0 {
        Map::empty()
    } else {
        entries_map(v.drop_last()).insert(v.last().0@, v.last().1)
    }
}

/// No name occurs twice.
pub open spec fn names_unique<P>(v: Seq<(String, P)>) -> bool {
    forall|i: int, j: int| 0 <= i < j < v.len() ==> #[trigger] v[i].0@ != #[trigger] v[j].0@
}

/// The names of a list of named values are its map's keys, and the
/// list is as long as the map when no name repeats.
proof fn lemma_entries_map<P>(v: Seq<(String, P)>)
    requires
        names_unique(v),
    ensures
        entries_map(v).dom().finite(),
        entries_map(v).dom().len() == v.len(),
        forall|k: Seq<char>|
            entries_map(v).contains_key(k) <==> exists|i: int| 0 <= i < v.len() && #[trigger] v[i].0@
                == k,
        forall|i: int| 0 <= i < v.len() ==> entries_map(v)[#[trigger] v[i].0@] == v[i].1,
    decreases v.len(),
{
    if v.len() == 0 {
        assert(entries_map(v).dom() =~= Set::<Seq<char>>::empty());
    } else {
        let w = v.drop_last();
        assert(names_unique(w));
        lemma_entries_map(w);
        let last = v.last();
        assert(!entries_map(w).contains_key(last.0@)) by {
            if entries_map(w).contains_key(last.0@) {
                let i = choose|i: int| 0 <= i < w.len() && #[trigger] w[i].0@ == last.0@;
                assert(v[i].0@ == v[v.len() - 1].0@);
            }
        }
        assert forall|k: Seq<char>|
            entries_map(v).contains_key(k) implies exists|i: int| 0 <= i < v.len() && #[trigger] v[i].0@
                == k by {
            if k == last.0@ {
                assert(v[v.len() - 1].0@ == k);
            } else {
                let i = choose|i: int| 0 <= i < w.len() && #[trigger] w[i].0@ == k;
                assert(v[i].0@ == k);
            }
        }
        assert forall|k: Seq<char>|
            (exists|i: int| 0 <= i < v.len() && #[trigger] v[i].0@ == k) implies entries_map(
            v,
        ).contains_key(k) by {
            let i = choose|i: int| 0 <= i < v.len() && #[trigger] v[i].0@ == k;
            if i < v.len() - 1 {
                assert(w[i].0@ == k);
            }
        }
        assert forall|i: int| 0 <= i < v.len() implies entries_map(v)[#[trigger] v[i].0@] == v[i].1 by {
            if i < v.len() - 1 {
                assert(v[i] == w[i]);
                assert(v[i].0@ != last.0@);
            }
        }
    }
}

/// Registry of anchors met while reading a document, each name bound
/// to the one shared `Rc` that every alias of it receives.
pub struct AnchorRegistry<T> {
    anchors: Vec<(String, Rc<T>)>,
}

impl<T> AnchorRegistry<T> {
    /// The registered names and their shared values.
    pub closed spec fn spec_entries(&self) -> Map<Seq<char>, Rc<T>> {
        entries_map(self.anchors@)
    }

    #[verifier::type_invariant]
    closed spec fn unique(&self) -> bool {
        names_unique(self.anchors@)
    }

    /// An empty registry.
    pub fn new() -> (r: Self)
        ensures
            r.spec_entries() == Map::<Seq<char>, Rc<T>>::empty(),
    {
        let r = AnchorRegistry { anchors: Vec::new() };
        assert(r.spec_entries() =~= Map::<Seq<char>, Rc<T>>::empty());
        r
    }

    /// Register `value` under `name`, replacing any earlier entry of
    /// that name; returns the shared `Rc` now bound to it.
    pub fn register(&mut self, name: String, value: T) -> (rc: Rc<T>)
        ensures
            *rc == value,
            final(self).spec_entries() == old(self).spec_entries().insert(name@, rc),
    {
        proof {
            use_type_invariant(&*self);
        }
        let rc = Rc::new(value);
        let shared = rc_clone(&rc);
        let mut i: usize = 0;
        let n = self.anchors.len();
        let mut found = false;
        while i < n
            invariant_except_break
                !found,
            invariant
                n == self.anchors@.len(),
                i <= n,
                names_unique(self.anchors@),
                forall|k: int| 0 <= k < i ==> #[trigger] self.anchors@[k].0@ != name@,
            ensures
                found ==> i < n && self.anchors@[i as int].0@ == name@,
                !found ==> forall|k: int| 0 <= k < n ==> #[trigger] self.anchors@[k].0@ != name@,
            decreases n - i,
        {
            if crate::text::same_text(self.anchors[i].0.as_str(), name.as_str()) {
                found = true;
                break ;
            }
            i += 1;
        }
        let ghost before = self.anchors@;
        if found {
            let mut anchors: Vec<(String, Rc<T>)> = Vec::new();
            std::mem::swap(&mut anchors, &mut self.anchors);
            anchors.set(i, (name, shared));
            proof {
                lemma_entries_map(before);
                assert forall|a: int, b: int| 0 <= a < b < anchors@.len() implies #[trigger] anchors@[
                    a
                ].0@ != #[trigger] anchors@[b].0@ by {
                    assert(before[a].0@ != before[b].0@);
                }
                lemma_entries_map(anchors@);
                assert(entries_map(anchors@) =~= entries_map(before).insert(
                    before[i as int].0@,
                    rc,
                )) by {
                    assert forall|k: Seq<char>| #[trigger] entries_map(anchors@).contains_key(k)
                        <==> entries_map(before).insert(before[i as int].0@, rc).contains_key(k) by {
                        if entries_map(anchors@).contains_key(k) {
                            let j = choose|j: int| 0 <= j < anchors@.len() && #[trigger] anchors@[j].0@ == k;
                            assert(before[j].0@ == k);
                        }
                        if entries_map(before).contains_key(k) {
                            let j = choose|j: int| 0 <= j < before.len() && #[trigger] before[j].0@ == k;
                            assert(anchors@[j].0@ == k);
                        }
                    }
                    assert forall|k: Seq<char>| #[trigger] entries_map(anchors@).contains_key(k)
                        implies entries_map(anchors@)[k] == entries_map(before).insert(
                        before[i as int].0@,
                        rc,
                    )[k] by {
                        let j = choose|j: int| 0 <= j < anchors@.len() && #[trigger] anchors@[j].0@ == k;
                        assert(entries_map(anchors@)[anchors@[j].0@] == anchors@[j].1);
                        if j != i {
                            assert(before[j] == anchors@[j]);
                            assert(entries_map(before)[before[j].0@] == before[j].1);
                        }
                    }
                }
            }
            self.anchors = anchors;
        } else {
            let mut anchors: Vec<(String, Rc<T>)> = Vec::new();
            std::mem::swap(&mut anchors, &mut self.anchors);
            anchors.push((name, shared));
            proof {
                assert(anchors@.drop_last() =~= before);
                assert forall|a: int, b: int| 0 <= a < b < anchors@.len() implies #[trigger] anchors@[
                    a
                ].0@ != #[trigger] anchors@[b].0@ by {
                    if b < before.len() {
                        assert(before[a].0@ != before[b].0@);
                    } else {
                        assert(before[a].0@ != name@);
                    }
                }
            }
            self.anchors = anchors;
        }
        rc
    }

    /// The shared value bound to `name`, if any.
    pub fn resolve(&self, name: &str) -> (r: Option<Rc<T>>)
        ensures
            r == (if self.spec_entries().contains_key(name@) {
                Some(self.spec_entries()[name@])
            } else {
                None
            }),
    {
        proof {
            use_type_invariant(self);
            lemma_entries_map(self.anchors@);
        }
        let mut i: usize = 0;
        while i < self.anchors.len()
            invariant
                i <= self.anchors@.len(),
                forall|k: int| 0 <= k < i ==> #[trigger] self.anchors@[k].0@ != name@,
            decreases self.anchors@.len() - i,
        {
            if crate::text::same_text(self.anchors[i].0.as_str(), name) {
                proof {
                    use_type_invariant(self);
                    lemma_entries_map(self.anchors@);
                    assert(self.anchors@[i as int].0@ == name@);
                }
                return Some(rc_clone(&self.anchors[i].1));
            }
            i += 1;
        }
        proof {
            if self.spec_entries().contains_key(name@) {
                let j = choose|j: int| 0 <= j < self.anchors@.len() && #[trigger] self.anchors@[j].0@ == name@;
                assert(self.anchors@[j].0@ != name@);
            }
        }
        None
    }

    /// How many names are registered.
    pub fn len(&self) -> (n: usize)
        ensures
            n == self.spec_entries().dom().len(),
    {
        proof {
            use_type_invariant(self);
            lemma_entries_map(self.anchors@);
        }
        self.anchors.len()
    }

    /// `true` when no name is registered.
    pub fn is_empty(&self) -> (r: bool)
        ensures
            r == (self.spec_entries().dom().len() == 0),
    {
        proof {
            use_type_invariant(self);
            lemma_entries_map(self.anchors@);
        }
        self.anchors.len() == 0
    }

    /// Forget every entry.
    pub fn clear(&mut self)
        ensures
            final(self).spec_entries() == Map::<Seq<char>, Rc<T>>::empty(),
    {
        self.anchors = Vec::new();
        assert(self.spec_entries() =~= Map::<Seq<char>, Rc<T>>::empty());
    }
}

impl<T> Default for AnchorRegistry<T> {
    fn default() -> (r: Self)
        ensures
            r.spec_entries() == Map::<Seq<char>, Rc<T>>::empty(),
    {
        Self::new()
    }
}

/// Thread-safe registry of anchors met while reading a document, each
/// name bound to the one shared `Arc` that every alias of it receives.
pub struct ArcAnchorRegistry<T> {
    anchors: Vec<(String, Arc<T>)>,
}

impl<T> ArcAnchorRegistry<T> {
    /// The registered names and their shared values.
    pub closed spec fn spec_entries(&self) -> Map<Seq<char>, Arc<T>> {
        entries_map(self.anchors@)
    }

    #[verifier::type_invariant]
    closed spec fn unique(&self) -> bool {
        names_unique(self.anchors@)
    }

    /// An empty registry.
    pub fn new() -> (r: Self)
        ensures
            r.spec_entries() == Map::<Seq<char>, Arc<T>>::empty(),
    {
        let r = ArcAnchorRegistry { anchors: Vec::new() };
        assert(r.spec_entries() =~= Map::<Seq<char>, Arc<T>>::empty());
        r
    }

    /// Register `value` under `name`, replacing any earlier entry of
    /// that name; returns the shared `Arc` now bound to it.
    pub fn register(&mut self, name: String, value: T) -> (rc: Arc<T>)
        ensures
            *rc == value,
            final(self).spec_entries() == old(self).spec_entries().insert(name@, rc),
    {
        proof {
            use_type_invariant(&*self);
        }
        let rc = Arc::new(value);
        let shared = arc_clone(&rc);
        let mut i: usize = 0;
        let n = self.anchors.len();
        let mut found = false;
        while i < n
            invariant_except_break
                !found,
            invariant
                n == self.anchors@.len(),
                i <= n,
                names_unique(self.anchors@),
                forall|k: int| 0 <= k < i ==> #[trigger] self.anchors@[k].0@ != name@,
            ensures
                found ==> i < n && self.anchors@[i as int].0@ == name@,
                !found ==> forall|k: int| 0 <= k < n ==> #[trigger] self.anchors@[k].0@ != name@,
            decreases n - i,
        {
            if crate::text::same_text(self.anchors[i].0.as_str(), name.as_str()) {
                found = true;
                break ;
            }
            i += 1;
        }
        let ghost before = self.anchors@;
        if found {
            let mut anchors: Vec<(String, Arc<T>)> = Vec::new();
            std::mem::swap(&mut anchors, &mut self.anchors);
            anchors.set(i, (name, shared));
            proof {
                lemma_entries_map(before);
                assert forall|a: int, b: int| 0 <= a < b < anchors@.len() implies #[trigger] anchors@[
                    a
                ].0@ != #[trigger] anchors@[b].0@ by {
                    assert(before[a].0@ != before[b].0@);
                }
                lemma_entries_map(anchors@);
                assert(entries_map(anchors@) =~= entries_map(before).insert(
                    before[i as int].0@,
                    rc,
                )) by {
                    assert forall|k: Seq<char>| #[trigger] entries_map(anchors@).contains_key(k)
                        <==> entries_map(before).insert(before[i as int].0@, rc).contains_key(k) by {
                        if entries_map(anchors@).contains_key(k) {
                            let j = choose|j: int| 0 <= j < anchors@.len() && #[trigger] anchors@[j].0@ == k;
                            assert(before[j].0@ == k);
                        }
                        if entries_map(before).contains_key(k) {
                            let j = choose|j: int| 0 <= j < before.len() && #[trigger] before[j].0@ == k;
                            assert(anchors@[j].0@ == k);
                        }
                    }
                    assert forall|k: Seq<char>| #[trigger] entries_map(anchors@).contains_key(k)
                        implies entries_map(anchors@)[k] == entries_map(before).insert(
                        before[i as int].0@,
                        rc,
                    )[k] by {
                        let j = choose|j: int| 0 <= j < anchors@.len() && #[trigger] anchors@[j].0@ == k;
                        assert(entries_map(anchors@)[anchors@[j].0@] == anchors@[j].1);
                        if j != i {
                            assert(before[j] == anchors@[j]);
                            assert(entries_map(before)[before[j].0@] == before[j].1);
                        }
                    }
                }
            }
            self.anchors = anchors;
        } else {
            let mut anchors: Vec<(String, Arc<T>)> = Vec::new();
            std::mem::swap(&mut anchors, &mut self.anchors);
            anchors.push((name, shared));
            proof {
                assert(anchors@.drop_last() =~= before);
                assert forall|a: int, b: int| 0 <= a < b < anchors@.len() implies #[trigger] anchors@[
                    a
                ].0@ != #[trigger] anchors@[b].0@ by {
                    if b < before.len() {
                        assert(before[a].0@ != before[b].0@);
                    } else {
                        assert(before[a].0@ != name@);
                    }
                }
            }
            self.anchors = anchors;
        }
        rc
    }

    /// The shared value bound to `name`, if any.
    pub fn resolve(&self, name: &str) -> (r: Option<Arc<T>>)
        ensures
            r == (if self.spec_entries().contains_key(name@) {
                Some(self.spec_entries()[name@])
            } else {
                None
            }),
    {
        proof {
            use_type_invariant(self);
            lemma_entries_map(self.anchors@);
        }
        let mut i: usize = 0;
        while i < self.anchors.len()
            invariant
                i <= self.anchors@.len(),
                forall|k: int| 0 <= k < i ==> #[trigger] self.anchors@[k].0@ != name@,
            decreases self.anchors@.len() - i,
        {
            if crate::text::same_text(self.anchors[i].0.as_str(), name) {
                proof {
                    use_type_invariant(self);
                    lemma_entries_map(self.anchors@);
                    assert(self.anchors@[i as int].0@ == name@);
                }
                return Some(arc_clone(&self.anchors[i].1));
            }
            i += 1;
        }
        proof {
            if self.spec_entries().contains_key(name@) {
                let j = choose|j: int| 0 <= j < self.anchors@.len() && #[trigger] self.anchors@[j].0@ == name@;
                assert(self.anchors@[j].0@ != name@);
            }
        }
        None
    }

    /// How many names are registered.
    pub fn len(&self) -> (n: usize)
        ensures
            n == self.spec_entries().dom().len(),
    {
        proof {
            use_type_invariant(self);
            lemma_entries_map(self.anchors@);
        }
        self.anchors.len()
    }

    /// `true` when no name is registered.
    pub fn is_empty(&self) -> (r: bool)
        ensures
            r == (self.spec_entries().dom().len() == 0),
    {
        proof {
            use_type_invariant(self);
            lemma_entries_map(self.anchors@);
        }
        self.anchors.len() == 0
    }

    /// Forget every entry.
    pub fn clear(&mut self)
        ensures
            final(self).spec_entries() == Map::<Seq<char>, Arc<T>>::empty(),
    {
        self.anchors = Vec::new();
        assert(self.spec_entries() =~= Map::<Seq<char>, Arc<T>>::empty());
    }
}

impl<T> Default for ArcAnchorRegistry<T> {
    fn default() -> (r: Self)
        ensures
            r.spec_entries() == Map::<Seq<char>, Arc<T>>::empty(),
    {
        Self::new()
    }
}

/// A name resolves to what was last registered under it.
pub proof fn lemma_resolve_after_register<P>(entries: Map<Seq<char>, P>, name: Seq<char>, value: P)
    ensures
        entries.insert(name, value).contains_key(name),
        entries.insert(name, value)[name] == value,
{
}
} // verus!
