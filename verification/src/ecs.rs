//! The entity-component store.
//!
//! A `World` associates component values with integer entity identifiers.
//! Components are drawn from a closed universe of kinds ([`CompKind`]), and
//! the store keeps at most one value of each kind per entity. Its whole
//! behaviour is captured by two pieces of ghost state: the identifier
//! counter ([`World::next_entity`]) and a map from (kind, entity) pairs to
//! values ([`World::table`]). Because each stored value sits under the key
//! of its own kind, a lookup for one kind can never hand back a value that
//! was attached under another.

use vstd::prelude::*;

use crate::game::{Card, FaceUp, Pile};

verus! {

/// An entity: an opaque identifier that groups component values.
pub type Entity = u32;

/// The kinds of component that the store can hold, one per component type.
#[derive(Debug, Clone, Copy, PartialEq, Eq, Structural)]
pub enum CompKind {
    Card,
    FaceUp,
    Pile,
}

/// A component value, tagged with its kind.
#[derive(Debug, Clone, Copy, PartialEq, Eq, Structural)]
pub enum CompValue {
    Card(Card),
    FaceUp(FaceUp),
    Pile(Pile),
}

impl CompValue {
    /// The kind under which this value is stored.
    pub open spec fn kind(self) -> CompKind {
        match self {
            CompValue::Card(_) => CompKind::Card,
            CompValue::FaceUp(_) => CompKind::FaceUp,
            CompValue::Pile(_) => CompKind::Pile,
        }
    }

    /// Runtime counterpart of [`CompValue::kind`].
    pub fn kind_of(&self) -> (k: CompKind)
        ensures
            k == self.kind(),
    {
        match self {
            CompValue::Card(_) => CompKind::Card,
            CompValue::FaceUp(_) => CompKind::FaceUp,
            CompValue::Pile(_) => CompKind::Pile,
        }
    }
}

/// One stored association: an entity together with a component value.
#[derive(Clone, Copy)]
struct Entry {
    entity: Entity,
    value: CompValue,
}

/// The storage key of an entry: the value's kind paired with the entity.
spec fn entry_key(en: Entry) -> (CompKind, Entity) {
    (en.value.kind(), en.entity)
}

/// Whether some entry of `s` is stored under key `k`.
spec fn seq_has(s: Seq<Entry>, k: (CompKind, Entity)) -> bool {
    exists|i: int| 0 <= i < s.len() && #[trigger] entry_key(s[i]) == k
}

/// The value that `s` stores under key `k` (meaningful when `seq_has`).
spec fn seq_at(s: Seq<Entry>, k: (CompKind, Entity)) -> CompValue {
    let i = choose|i: int| 0 <= i < s.len() && #[trigger] entry_key(s[i]) == k;
    s[i].value
}

/// The map from storage keys to values that an entry sequence represents.
spec fn seq_table(s: Seq<Entry>) -> Map<(CompKind, Entity), CompValue> {
    Map::new(|k: (CompKind, Entity)| seq_has(s, k), |k: (CompKind, Entity)| seq_at(s, k))
}

/// No two entries share a storage key.
spec fn unique_keys(s: Seq<Entry>) -> bool {
    forall|i: int, j: int|
        0 <= i < j < s.len() ==> #[trigger] entry_key(s[i]) != #[trigger] entry_key(s[j])
}

/// Under unique keys, the entry at index `i` is exactly what the table
/// yields for that entry's key.
proof fn lemma_seq_at(s: Seq<Entry>, i: int)
    requires
        unique_keys(s),
        0 <= i < s.len(),
    ensures
        seq_has(s, entry_key(s[i])),
        seq_at(s, entry_key(s[i])) == s[i].value,
{
    let k = entry_key(s[i]);
    assert(seq_has(s, k));
    let j = choose|j: int| 0 <= j < s.len() && #[trigger] entry_key(s[j]) == k;
    if j != i {
        assert(entry_key(s[i]) != entry_key(s[j]));
    }
}

/// Appending an entry with a fresh key inserts its pair into the table.
proof fn lemma_table_push(s: Seq<Entry>, en: Entry)
    requires
        unique_keys(s),
        !seq_has(s, entry_key(en)),
    ensures
        unique_keys(s.push(en)),
        seq_table(s.push(en)) == seq_table(s).insert(entry_key(en), en.value),
{
    let s2 = s.push(en);
    assert forall|i: int, j: int| 0 <= i < j < s2.len() implies #[trigger] entry_key(s2[i])
        != #[trigger] entry_key(s2[j]) by {
        if j == s.len() {
            assert(s2[i] == s[i]);
            if entry_key(s[i]) == entry_key(en) {
                assert(seq_has(s, entry_key(en)));
            }
        } else {
            assert(s2[i] == s[i] && s2[j] == s[j]);
        }
    }
    let m = seq_table(s).insert(entry_key(en), en.value);
    assert forall|k: (CompKind, Entity)| seq_has(s2, k) implies m.dom().contains(k) && seq_at(
        s2,
        k,
    ) == m[k] by {
        let i = choose|i: int| 0 <= i < s2.len() && #[trigger] entry_key(s2[i]) == k;
        lemma_seq_at(s2, i);
        if i < s.len() {
            assert(s2[i] == s[i]);
            lemma_seq_at(s, i);
        } else {
            assert(s2[i] == en);
        }
    }
    assert forall|k: (CompKind, Entity)| m.dom().contains(k) implies seq_has(s2, k) by {
        if k == entry_key(en) {
            assert(entry_key(s2[s.len() as int]) == k);
        } else {
            let i = choose|i: int| 0 <= i < s.len() && #[trigger] entry_key(s[i]) == k;
            assert(entry_key(s2[i]) == k);
        }
    }
    assert(seq_table(s2) =~= m);
}

/// Replacing the entry at `i` by one with the same key updates the table
/// at exactly that key.
proof fn lemma_table_update(s: Seq<Entry>, i: int, en: Entry)
    requires
        unique_keys(s),
        0 <= i < s.len(),
        entry_key(en) == entry_key(s[i]),
    ensures
        unique_keys(s.update(i, en)),
        seq_table(s.update(i, en)) == seq_table(s).insert(entry_key(en), en.value),
{
    let s2 = s.update(i, en);
    assert forall|j: int| 0 <= j < s.len() implies #[trigger] entry_key(s2[j]) == entry_key(
        s[j],
    ) by {
        if j != i {
            assert(s2[j] == s[j]);
        }
    }
    let m = seq_table(s).insert(entry_key(en), en.value);
    assert forall|k: (CompKind, Entity)| seq_has(s2, k) implies m.dom().contains(k) && seq_at(
        s2,
        k,
    ) == m[k] by {
        let j = choose|j: int| 0 <= j < s2.len() && #[trigger] entry_key(s2[j]) == k;
        lemma_seq_at(s2, j);
        lemma_seq_at(s, j);
        if j == i {
            assert(s2[j] == en);
        } else {
            assert(s2[j] == s[j]);
            if k == entry_key(en) {
                assert(entry_key(s[j]) != entry_key(s[i]));
            }
        }
    }
    assert forall|k: (CompKind, Entity)| m.dom().contains(k) implies seq_has(s2, k) by {
        if k == entry_key(en) {
            assert(entry_key(s2[i]) == k);
        } else {
            let j = choose|j: int| 0 <= j < s.len() && #[trigger] entry_key(s[j]) == k;
            assert(entry_key(s2[j]) == k);
        }
    }
    assert(seq_table(s2) =~= m);
}

/// Two entry sequences with pointwise equal keys represent tables with the
/// same domain, and each table reads back its own entries.
proof fn lemma_same_keys(s1: Seq<Entry>, s2: Seq<Entry>)
    requires
        unique_keys(s1),
        s1.len() == s2.len(),
        forall|i: int| 0 <= i < s1.len() ==> #[trigger] entry_key(s2[i]) == entry_key(s1[i]),
    ensures
        unique_keys(s2),
        seq_table(s2).dom() == seq_table(s1).dom(),
        forall|i: int|
            0 <= i < s1.len() ==> #[trigger] seq_table(s1)[entry_key(s1[i])] == s1[i].value
                && seq_table(s2)[entry_key(s1[i])] == s2[i].value,
{
    assert forall|i: int, j: int| 0 <= i < j < s2.len() implies #[trigger] entry_key(s2[i])
        != #[trigger] entry_key(s2[j]) by {
        assert(entry_key(s1[i]) != entry_key(s1[j]));
    }
    assert forall|k: (CompKind, Entity)| seq_has(s1, k) <==> seq_has(s2, k) by {
        if seq_has(s1, k) {
            let i = choose|i: int| 0 <= i < s1.len() && #[trigger] entry_key(s1[i]) == k;
            assert(entry_key(s2[i]) == k);
        }
        if seq_has(s2, k) {
            let i = choose|i: int| 0 <= i < s2.len() && #[trigger] entry_key(s2[i]) == k;
            assert(entry_key(s1[i]) == k);
        }
    }
    assert(seq_table(s2).dom() =~= seq_table(s1).dom());
    assert forall|i: int| 0 <= i < s1.len() implies #[trigger] seq_table(s1)[entry_key(s1[i])]
        == s1[i].value && seq_table(s2)[entry_key(s1[i])] == s2[i].value by {
        lemma_seq_at(s1, i);
        lemma_seq_at(s2, i);
        assert(entry_key(s2[i]) == entry_key(s1[i]));
    }
}

/// The store: an identifier counter plus the component table.
pub struct World {
    next_id: Entity,
    entries: Vec<Entry>,
}

impl World {
    /// The identifier the next call to [`World::spawn`] returns; also the
    /// number of identifiers handed out so far.
    pub closed spec fn next_entity(self) -> Entity {
        self.next_id
    }

    /// The component table: what the store holds under each (kind, entity)
    /// key.
    pub closed spec fn table(self) -> Map<(CompKind, Entity), CompValue> {
        seq_table(self.entries@)
    }

    /// Well-formedness: the store keeps at most one value per key.
    pub closed spec fn wf(self) -> bool {
        unique_keys(self.entries@)
    }

    /// What a lookup of `kind` at `entity` observes.
    pub open spec fn spec_get(self, kind: CompKind, entity: Entity) -> Option<CompValue> {
        if self.table().dom().contains((kind, entity)) {
            Some(self.table()[(kind, entity)])
        } else {
            None
        }
    }

    /// A store as `new` returns it: nothing attached, counter at zero.
    pub open spec fn fresh(self) -> bool {
        &&& self.table() == Map::<(CompKind, Entity), CompValue>::empty()
        &&& self.next_entity() == 0
        &&& self.wf()
    }

    /// Creates an empty world with no entities or components.
    pub fn new() -> (w: World)
        ensures
            w.fresh(),
    {
        let w = World { next_id: 0, entries: Vec::new() };
        proof {
            assert(w.table() =~= Map::<(CompKind, Entity), CompValue>::empty());
        }
        w
    }

    /// Spawns a new entity and returns its ID.
    pub fn spawn(&mut self) -> (id: Entity)
        requires
            old(self).wf(),
            old(self).next_entity() < u32::MAX,
        ensures
            spawn_post(*old(self), *final(self), id),
    {
        let id = self.next_id;
        self.next_id = self.next_id + 1;
        id
    }

    /// Adds a component to the given entity, replacing any value of the
    /// same kind already attached to it. The entity need not have been
    /// spawned: an association is created for whatever entity is named.
    pub fn add_component(&mut self, entity: Entity, value: CompValue)
        requires
            old(self).wf(),
        ensures
            attach_post(*old(self), *final(self), entity, value),
    {
        let kind = value.kind_of();
        let n = self.entries.len();
        let mut i: usize = 0;
        while i < n
            invariant
                *self == *old(self),
                old(self).wf(),
                kind == value.kind(),
                n == self.entries@.len(),
                0 <= i <= n,
                forall|j: int|
                    0 <= j < i ==> #[trigger] entry_key(self.entries@[j]) != (
                    value.kind(),
                    entity,
                ),
            decreases n - i,
        {
            let en = self.entries[i];
            if en.entity == entity && en.value.kind_of() == kind {
                proof {
                    lemma_table_update(self.entries@, i as int, Entry { entity, value });
                }
                self.entries.set(i, Entry { entity, value });
                return ;
            }
            i = i + 1;
        }
        proof {
            lemma_table_push(self.entries@, Entry { entity, value });
        }
        self.entries.push(Entry { entity, value });
    }

    /// Fetches the component of the given kind from the given entity, or
    /// `None` when nothing of that kind is attached to it.
    pub fn get_component(&self, kind: CompKind, entity: Entity) -> (r: Option<&CompValue>)
        requires
            self.wf(),
        ensures
            match r {
                Some(v) => self.spec_get(kind, entity) == Some(*v) && v.kind() == kind,
                None => self.spec_get(kind, entity) is None,
            },
    {
        let n = self.entries.len();
        let mut i: usize = 0;
        while i < n
            invariant
                self.wf(),
                n == self.entries@.len(),
                0 <= i <= n,
                forall|j: int|
                    0 <= j < i ==> #[trigger] entry_key(self.entries@[j]) != (kind, entity),
            decreases n - i,
        {
            let en = &self.entries[i];
            if en.entity == entity && en.value.kind_of() == kind {
                proof {
                    lemma_seq_at(self.entries@, i as int);
                }
                return Some(&self.entries[i].value);
            }
            i = i + 1;
        }
        None
    }

    /// Fetches the component of the given kind from the given entity for
    /// in-place modification, or `None` when nothing of that kind is
    /// attached to it. Writing a value of the same kind through the
    /// reference replaces the stored value; writing one of another kind
    /// forfeits the store's well-formedness, so keep the kind.
    pub fn get_component_mut(&mut self, kind: CompKind, entity: Entity) -> (r: Option<
        &mut CompValue,
    >)
        requires
            old(self).wf(),
        ensures
            match r {
                Some(m) => {
                    &&& old(self).spec_get(kind, entity) == Some(*m)
                    &&& m.kind() == kind
                    &&& (*final(m)).kind() == kind ==> attach_post(
                        *old(self),
                        *final(self),
                        entity,
                        *final(m),
                    )
                },
                None => {
                    &&& old(self).spec_get(kind, entity) is None
                    &&& *final(self) == *old(self)
                },
            },
    {
        let n = self.entries.len();
        let mut i: usize = 0;
        while i < n
            invariant
                *self == *old(self),
                old(self).wf(),
                n == self.entries@.len(),
                0 <= i <= n,
                forall|j: int|
                    0 <= j < i ==> #[trigger] entry_key(self.entries@[j]) != (kind, entity),
            decreases n - i,
        {
            let en = self.entries[i];
            if en.entity == entity && en.value.kind_of() == kind {
                proof {
                    lemma_seq_at(self.entries@, i as int);
                    assert forall|v: CompValue| #[trigger] v.kind() == kind implies unique_keys(
                        old(self).entries@.update(i as int, Entry { entity, value: v }),
                    ) && seq_table(old(self).entries@.update(i as int, Entry { entity, value: v }))
                        == seq_table(old(self).entries@).insert((kind, entity), v) by {
                        lemma_table_update(old(self).entries@, i as int, Entry { entity, value: v });
                    };
                }
                return Some(&mut self.entries[i].value);
            }
            i = i + 1;
        }
        None
    }

    /// Visits every entity that currently holds a component of the given
    /// kind, exactly once each and in unspecified order, replacing that
    /// entity's stored value with `f`'s answer for it. The visitor mutates
    /// values in place: it can neither add nor remove associations, and it
    /// must answer a value of the kind it was handed. Components of other
    /// kinds, and the identifier counter, are untouched.
    pub fn for_each<F: Fn(Entity, CompValue) -> CompValue>(&mut self, kind: CompKind, f: F)
        requires
            old(self).wf(),
            forall|e: Entity, v: CompValue|
                v.kind() == kind ==> #[trigger] call_requires(f, (e, v)),
            forall|e: Entity, v: CompValue, r: CompValue|
                #[trigger] call_ensures(f, (e, v), r) ==> r.kind() == v.kind(),
        ensures
            final(self).wf(),
            final(self).next_entity() == old(self).next_entity(),
            final(self).table().dom() == old(self).table().dom(),
            forall|k: (CompKind, Entity)|
                #[trigger] old(self).table().dom().contains(k) && k.0 == kind ==> call_ensures(
                    f,
                    (k.1, old(self).table()[k]),
                    final(self).table()[k],
                ),
            forall|k: (CompKind, Entity)|
                #[trigger] old(self).table().dom().contains(k) && k.0 != kind
                    ==> final(self).table()[k] == old(self).table()[k],
    {
        let n = self.entries.len();
        let mut i: usize = 0;
        while i < n
            invariant
                old(self).wf(),
                forall|e: Entity, v: CompValue|
                    v.kind() == kind ==> #[trigger] call_requires(f, (e, v)),
                forall|e: Entity, v: CompValue, r: CompValue|
                    #[trigger] call_ensures(f, (e, v), r) ==> r.kind() == v.kind(),
                n == self.entries@.len(),
                old(self).entries@.len() == n,
                0 <= i <= n,
                self.next_entity() == old(self).next_entity(),
                forall|j: int| i <= j < n ==> self.entries@[j] == old(self).entries@[j],
                forall|j: int|
                    0 <= j < i ==> #[trigger] self.entries@[j].entity
                        == old(self).entries@[j].entity && entry_key(self.entries@[j])
                        == entry_key(old(self).entries@[j]),
                forall|j: int|
                    0 <= j < i && old(self).entries@[j].value.kind() == kind
                        ==> #[trigger] call_ensures(
                        f,
                        (old(self).entries@[j].entity, old(self).entries@[j].value),
                        self.entries@[j].value,
                    ),
                forall|j: int|
                    0 <= j < i && old(self).entries@[j].value.kind() != kind
                        ==> #[trigger] self.entries@[j] == old(self).entries@[j],
            decreases n - i,
        {
            let en = self.entries[i];
            if en.value.kind_of() == kind {
                let nv = f(en.entity, en.value);
                self.entries.set(i, Entry { entity: en.entity, value: nv });
            }
            i = i + 1;
        }
        proof {
            lemma_same_keys(old(self).entries@, self.entries@);
            assert(self.table().dom() =~= old(self).table().dom());
            assert forall|k: (CompKind, Entity)|
                #[trigger] old(self).table().dom().contains(k) implies (if k.0 == kind {
                call_ensures(f, (k.1, old(self).table()[k]), self.table()[k])
            } else {
                self.table()[k] == old(self).table()[k]
            }) by {
                let s1 = old(self).entries@;
                let j = choose|j: int| 0 <= j < s1.len() && #[trigger] entry_key(s1[j]) == k;
                assert(old(self).table()[k] == s1[j].value && self.table()[k]
                    == self.entries@[j].value);
            }
        }
    }
}

/// How [`World::spawn`] changes a store: it returns the counter's value,
/// raises the counter by one, and leaves the components alone.
pub open spec fn spawn_post(pre: World, post: World, id: Entity) -> bool {
    &&& id == pre.next_entity()
    &&& post.next_entity() == pre.next_entity() + 1
    &&& post.table() == pre.table()
    &&& post.wf() == pre.wf()
}

/// How [`World::add_component`] changes a store: the table gains (or
/// overwrites) the value under the key of its own kind, and nothing else
/// moves.
pub open spec fn attach_post(pre: World, post: World, entity: Entity, value: CompValue) -> bool {
    &&& post.table() == pre.table().insert((value.kind(), entity), value)
    &&& post.next_entity() == pre.next_entity()
    &&& post.wf()
}

/// Law: entity identifiers never repeat and strictly increase. A spawn
/// hands out the counter's value and leaves the counter above it, no store
/// operation lowers the counter, so a later spawn answers a strictly
/// greater identifier than an earlier one.
pub proof fn lemma_spawn_ids_strictly_increase(
    w0: World,
    w1: World,
    id0: Entity,
    w2: World,
    w3: World,
    id1: Entity,
)
    requires
        spawn_post(w0, w1, id0),
        w2.next_entity() >= w1.next_entity(),
        spawn_post(w2, w3, id1),
    ensures
        id1 > id0,
{
}

/// Law: after attaching a value, a lookup of that value's kind at that
/// entity observes exactly that value.
pub proof fn lemma_attach_round_trip(w0: World, w1: World, entity: Entity, value: CompValue)
    requires
        attach_post(w0, w1, entity, value),
    ensures
        w1.spec_get(value.kind(), entity) == Some(value),
{
}

/// Law: attaching twice under one kind overwrites. After the second
/// attach, a lookup observes the second value, never the first.
pub proof fn lemma_attach_overwrites(
    w0: World,
    w1: World,
    w2: World,
    entity: Entity,
    v1: CompValue,
    v2: CompValue,
)
    requires
        attach_post(w0, w1, entity, v1),
        attach_post(w1, w2, entity, v2),
        v2.kind() == v1.kind(),
    ensures
        w2.spec_get(v1.kind(), entity) == Some(v2),
{
}

/// Law: kinds are isolated. Attaching a value changes no lookup of any
/// other kind, at that entity or any other.
pub proof fn lemma_kind_isolation(
    w0: World,
    w1: World,
    e1: Entity,
    value: CompValue,
    other: CompKind,
    e2: Entity,
)
    requires
        attach_post(w0, w1, e1, value),
        other != value.kind(),
    ensures
        w1.spec_get(other, e2) == w0.spec_get(other, e2),
{
}

/// Law: entities are isolated. Attaching a value to one entity changes no
/// lookup, of any kind, at a different entity.
pub proof fn lemma_entity_isolation(
    w0: World,
    w1: World,
    e1: Entity,
    value: CompValue,
    kind: CompKind,
    e2: Entity,
)
    requires
        attach_post(w0, w1, e1, value),
        e2 != e1,
    ensures
        w1.spec_get(kind, e2) == w0.spec_get(kind, e2),
{
}

/// Law: on a fresh store every lookup, of every kind at every entity,
/// observes nothing.
pub proof fn lemma_fresh_store_is_empty(w: World, kind: CompKind, entity: Entity)
    requires
        w.fresh(),
    ensures
        w.spec_get(kind, entity) is None,
{
}

/// Law: lookups are kind-safe. Whatever a lookup of some kind observes is
/// a value of that kind, never one stored under another.
pub proof fn lemma_lookup_kind_safe(w: World, kind: CompKind, entity: Entity)
    requires
        w.wf(),
    ensures
        w.spec_get(kind, entity) matches Some(v) ==> v.kind() == kind,
{
    let k = (kind, entity);
    if w.table().dom().contains(k) {
        let s = w.entries@;
        let i = choose|i: int| 0 <= i < s.len() && #[trigger] entry_key(s[i]) == k;
        assert(s[i].value.kind() == kind);
    }
}

} // verus!
