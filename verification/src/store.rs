use vstd::prelude::*;

use crate::item::{Item, ItemView, views_of};

verus! {

/// Why a mutating operation was rejected: the id of a new item is already
/// taken, or the id of an item to update or delete is not present.
#[derive(Debug, PartialEq, Eq, Structural, Clone, Copy)]
pub enum RegistryError {
    DuplicateId,
    NotFound,
}

/// Some item of `s` carries the id `id`.
pub open spec fn contains_id(s: Seq<ItemView>, id: u32) -> bool {
    exists|i: int| 0 <= i < s.len() && s[i].id == id
}

/// No two items of `s` share an id.
pub open spec fn unique_ids(s: Seq<ItemView>) -> bool {
    forall|i: int, j: int| 0 <= i < j < s.len() ==> s[i].id != s[j].id
}

/// The index of the item of `s` that carries `id` (meaningful only when
/// `contains_id(s, id)` holds; unique when `unique_ids(s)` holds).
pub open spec fn index_of_id(s: Seq<ItemView>, id: u32) -> int {
    choose|i: int| 0 <= i < s.len() && s[i].id == id
}

pub proof fn lemma_index_of_id(s: Seq<ItemView>, id: u32)
    requires
        contains_id(s, id),
    ensures
        0 <= index_of_id(s, id) < s.len(),
        s[index_of_id(s, id)].id == id,
{
}

pub proof fn lemma_index_of_id_unique(s: Seq<ItemView>, id: u32, i: int)
    requires
        unique_ids(s),
        0 <= i < s.len(),
        s[i].id == id,
    ensures
        index_of_id(s, id) == i,
{
    let j = index_of_id(s, id);
    assert(contains_id(s, id));
    lemma_index_of_id(s, id);
    if i < j {
        assert(s[i].id != s[j].id);
    } else if j < i {
        assert(s[j].id != s[i].id);
    }
}

/// One request against the registry, as a mathematical value.
pub ghost enum Op {
    Add(ItemView),
    Update(ItemView),
    Delete(u32),
}

/// Whether `op` is accepted when the collection holds `s`: an `Add` needs a
/// fresh id, an `Update` or `Delete` an existing one.
pub open spec fn accepted(s: Seq<ItemView>, op: Op) -> bool {
    match op {
        Op::Add(it) => !contains_id(s, it.id),
        Op::Update(it) => contains_id(s, it.id),
        Op::Delete(id) => contains_id(s, id),
    }
}

/// The collection after `op`: a rejected operation leaves `s` unchanged; an
/// accepted `Add` appends, an accepted `Update` replaces the item that holds
/// the same id in place, an accepted `Delete` removes it.
pub open spec fn apply_op(s: Seq<ItemView>, op: Op) -> Seq<ItemView> {
    if !accepted(s, op) {
        s
    } else {
        match op {
            Op::Add(it) => s.push(it),
            Op::Update(it) => s.update(index_of_id(s, it.id), it),
            Op::Delete(id) => s.remove(index_of_id(s, id)),
        }
    }
}

/// The collection after a whole sequence of operations, applied in order.
pub open spec fn apply_ops(s: Seq<ItemView>, ops: Seq<Op>) -> Seq<ItemView>
    decreases ops.len(),
{
    if ops.len() == 0 {
        s
    } else {
        apply_ops(apply_op(s, ops[0]), ops.skip(1))
    }
}

/// The authoritative owner of the collection of items. Its invariant is that
/// ids are unique; every operation preserves it and reports its outcome
/// exactly, as `apply_op` states it.
pub struct Store {
    items: Vec<Item>,
}

impl View for Store {
    type V = Seq<ItemView>;

    closed spec fn view(&self) -> Seq<ItemView> {
        views_of(self.items@)
    }
}

impl Store {
    /// Every id occurs at most once in the collection.
    pub open spec fn wf(&self) -> bool {
        unique_ids(self@)
    }

    /// The empty registry.
    pub fn new() -> (s: Store)
        ensures
            s@ == Seq::<ItemView>::empty(),
            s.wf(),
    {
        let s = Store { items: Vec::new() };
        proof {
            assert(s@ =~= Seq::<ItemView>::empty());
        }
        s
    }

    /// A registry over the given items; meaningful only when their ids are
    /// unique, which the caller must have checked.
    pub fn from_items(items: Vec<Item>) -> (s: Store)
        requires
            unique_ids(views_of(items@)),
        ensures
            s@ == views_of(items@),
            s.wf(),
    {
        Store { items }
    }

    /// The index of the item that carries `id`, if any.
    fn find_index(&self, id: u32) -> (r: Option<usize>)
        ensures
            match r {
                Some(i) => 0 <= i < self@.len() && self@[i as int].id == id,
                None => !contains_id(self@, id),
            },
    {
        let n = self.items.len();
        for j in 0..n
            invariant
                n == self.items.len(),
                forall|k: int| 0 <= k < j ==> self@[k].id != id,
        {
            if self.items[j].id == id {
                return Some(j);
            }
        }
        None
    }

    /// A point-in-time copy of the collection, in insertion order.
    pub fn list(&self) -> (r: Vec<Item>)
        ensures
            views_of(r@) == self@,
    {
        let mut r: Vec<Item> = Vec::new();
        let n = self.items.len();
        for j in 0..n
            invariant
                n == self.items.len(),
                r@.len() == j,
                forall|k: int| 0 <= k < j ==> r@[k]@ == self.items@[k]@,
        {
            r.push(self.items[j].clone());
        }
        proof {
            assert forall|k: int| 0 <= k < n implies views_of(r@)[k] == self@[k] by {
                assert(views_of(r@)[k] == r@[k]@);
                assert(self@[k] == self.items@[k]@);
            }
            assert(views_of(r@) =~= self@);
        }
        r
    }

    /// How many items the collection holds.
    pub fn len(&self) -> (n: usize)
        ensures
            n == self@.len(),
    {
        self.items.len()
    }

    /// Appends `item` unless its id is already taken; rejected requests leave
    /// the collection unchanged.
    pub fn add(&mut self, item: Item) -> (r: Result<(), RegistryError>)
        requires
            old(self).wf(),
        ensures
            final(self).wf(),
            final(self)@ == apply_op(old(self)@, Op::Add(item@)),
            r is Ok <==> !contains_id(old(self)@, item@.id),
            r is Err ==> r == Err::<(), RegistryError>(RegistryError::DuplicateId)
                && final(self)@ == old(self)@,
    {
        match self.find_index(item.id) {
            Some(_) => Err(RegistryError::DuplicateId),
            None => {
                self.items.push(item);
                proof {
                    assert(self@ =~= apply_op(old(self)@, Op::Add(item@)));
                    lemma_add_preserves_unique(old(self)@, item@);
                }
                Ok(())
            },
        }
    }

    /// Replaces the fields of the item that carries `item.id`, in place;
    /// rejected requests leave the collection unchanged.
    pub fn update(&mut self, item: Item) -> (r: Result<(), RegistryError>)
        requires
            old(self).wf(),
        ensures
            final(self).wf(),
            final(self)@ == apply_op(old(self)@, Op::Update(item@)),
            r is Ok <==> contains_id(old(self)@, item@.id),
            r is Err ==> r == Err::<(), RegistryError>(RegistryError::NotFound)
                && final(self)@ == old(self)@,
    {
        match self.find_index(item.id) {
            None => Err(RegistryError::NotFound),
            Some(i) => {
                proof {
                    lemma_index_of_id_unique(old(self)@, item@.id, i as int);
                }
                self.items.remove(i);
                self.items.insert(i, item);
                proof {
                    assert(self@ =~= apply_op(old(self)@, Op::Update(item@)));
                    lemma_update_preserves_unique(old(self)@, item@);
                }
                Ok(())
            },
        }
    }

    /// Removes the item that carries `id`; rejected requests leave the
    /// collection unchanged.
    pub fn delete(&mut self, id: u32) -> (r: Result<(), RegistryError>)
        requires
            old(self).wf(),
        ensures
            final(self).wf(),
            final(self)@ == apply_op(old(self)@, Op::Delete(id)),
            r is Ok <==> contains_id(old(self)@, id),
            r is Err ==> r == Err::<(), RegistryError>(RegistryError::NotFound)
                && final(self)@ == old(self)@,
    {
        match self.find_index(id) {
            None => Err(RegistryError::NotFound),
            Some(i) => {
                proof {
                    lemma_index_of_id_unique(old(self)@, id, i as int);
                }
                self.items.remove(i);
                proof {
                    assert(self@ =~= apply_op(old(self)@, Op::Delete(id)));
                    lemma_delete_preserves_unique(old(self)@, id);
                }
                Ok(())
            },
        }
    }
}

/// Whether no two items of the vector share an id.
pub fn has_unique_ids(items: &Vec<Item>) -> (r: bool)
    ensures
        r == unique_ids(views_of(items@)),
{
    let ghost vs = views_of(items@);
    let n = items.len();
    for i in 0..n
        invariant
            n == items.len(),
            vs == views_of(items@),
            forall|a: int, b: int| 0 <= a < b < i ==> vs[a].id != vs[b].id,
    {
        for j in 0..i
            invariant
                n == items.len(),
                i < n,
                vs == views_of(items@),
                forall|a: int, b: int| 0 <= a < b < i ==> vs[a].id != vs[b].id,
                forall|b: int| 0 <= b < j ==> vs[b].id != vs[i as int].id,
        {
            if items[j].id == items[i].id {
                proof {
                    assert(vs[j as int].id == vs[i as int].id);
                    assert(!unique_ids(vs));
                }
                return false;
            }
        }
    }
    true
}

impl Store {
    /// The full document text for the collection: what `save` writes to disk.
    pub fn document(&self) -> (r: String)
        ensures
            r@ == crate::codec::encode_items_spec(self@),
    {
        crate::codec::encode_items(&self.items)
    }

    /// Rebuilds the registry from a document's text, as at startup: a text
    /// that does not parse back to a collection with unique ids — absent,
    /// truncated, foreign or hand-edited — yields the empty registry.
    pub fn load(text: &str) -> (s: Store)
        ensures
            s.wf(),
            (match crate::codec::parse_items(text@) {
                Some(vs) => s@ == if unique_ids(vs) {
                    vs
                } else {
                    Seq::<ItemView>::empty()
                },
                None => s@ == Seq::<ItemView>::empty(),
            }),
    {
        match crate::codec::decode_items(text) {
            None => Store::new(),
            Some(v) => {
                if has_unique_ids(&v) {
                    Store::from_items(v)
                } else {
                    Store::new()
                }
            },
        }
    }
}

/// The persistence round trip: the document written for a collection with
/// unique ids parses back to exactly that collection, so a `load` after a
/// `save` yields the collection that was saved.
pub proof fn lemma_document_load_round_trip(s: Seq<ItemView>)
    requires
        unique_ids(s),
    ensures
        (match crate::codec::parse_items(crate::codec::encode_items_spec(s)) {
            Some(vs) => vs == s && unique_ids(vs),
            None => false,
        }),
{
    crate::codec::lemma_encode_parse_round_trip(s);
}

pub proof fn lemma_add_preserves_unique(s: Seq<ItemView>, it: ItemView)
    requires
        unique_ids(s),
    ensures
        unique_ids(apply_op(s, Op::Add(it))),
{
    if !contains_id(s, it.id) {
        let t = s.push(it);
        assert forall|i: int, j: int| 0 <= i < j < t.len() implies t[i].id != t[j].id by {
            if j == s.len() {
                assert(!(0 <= i < s.len() && s[i].id == it.id));
            }
        }
    }
}

pub proof fn lemma_update_preserves_unique(s: Seq<ItemView>, it: ItemView)
    requires
        unique_ids(s),
    ensures
        unique_ids(apply_op(s, Op::Update(it))),
{
    if contains_id(s, it.id) {
        lemma_index_of_id(s, it.id);
        let k = index_of_id(s, it.id);
        let t = s.update(k, it);
        assert forall|i: int, j: int| 0 <= i < j < t.len() implies t[i].id != t[j].id by {
            assert(s[i].id != s[j].id);
            assert(t[i].id == if i == k { it.id } else { s[i].id });
            assert(t[j].id == if j == k { it.id } else { s[j].id });
            assert(s[k].id == it.id);
        }
    }
}

pub proof fn lemma_delete_preserves_unique(s: Seq<ItemView>, id: u32)
    requires
        unique_ids(s),
    ensures
        unique_ids(apply_op(s, Op::Delete(id))),
{
    if contains_id(s, id) {
        lemma_index_of_id(s, id);
        let k = index_of_id(s, id);
        let t = s.remove(k);
        assert forall|i: int, j: int| 0 <= i < j < t.len() implies t[i].id != t[j].id by {
            let i0 = if i < k { i } else { i + 1 };
            let j0 = if j < k { j } else { j + 1 };
            assert(t[i] == s[i0]);
            assert(t[j] == s[j0]);
            assert(s[i0].id != s[j0].id);
        }
    }
}

/// One operation, accepted or not, keeps the ids of the collection unique.
pub proof fn lemma_apply_op_preserves_unique(s: Seq<ItemView>, op: Op)
    requires
        unique_ids(s),
    ensures
        unique_ids(apply_op(s, op)),
{
    match op {
        Op::Add(it) => lemma_add_preserves_unique(s, it),
        Op::Update(it) => lemma_update_preserves_unique(s, it),
        Op::Delete(id) => lemma_delete_preserves_unique(s, id),
    }
}

/// After any sequence of operations applied in order to a collection with
/// unique ids, every id of the result is still unique: the state after the
/// sequence is exactly `apply_ops`, which folds the accepted operations one
/// by one, and uniqueness is an invariant of that fold.
pub proof fn lemma_apply_ops_preserves_unique(s: Seq<ItemView>, ops: Seq<Op>)
    requires
        unique_ids(s),
    ensures
        unique_ids(apply_ops(s, ops)),
    decreases ops.len(),
{
    if ops.len() > 0 {
        lemma_apply_op_preserves_unique(s, ops[0]);
        lemma_apply_ops_preserves_unique(apply_op(s, ops[0]), ops.skip(1));
    }
}

/// Read-after-write consistency: an accepted `add` of `it` makes `it` a
/// member of the collection that a subsequent `list` returns.
pub proof fn lemma_add_then_list_contains(s: Seq<ItemView>, it: ItemView)
    requires
        !contains_id(s, it.id),
    ensures
        apply_op(s, Op::Add(it)).contains(it),
{
    let t = apply_op(s, Op::Add(it));
    assert(t[s.len() as int] == it);
}

/// An `add` whose id is already taken is rejected and changes nothing.
pub proof fn lemma_duplicate_add_is_noop(s: Seq<ItemView>, it: ItemView)
    requires
        contains_id(s, it.id),
    ensures
        !accepted(s, Op::Add(it)),
        apply_op(s, Op::Add(it)) == s,
{
}

/// A `delete` of an id that is not present is rejected and changes nothing.
pub proof fn lemma_absent_delete_is_noop(s: Seq<ItemView>, id: u32)
    requires
        !contains_id(s, id),
    ensures
        !accepted(s, Op::Delete(id)),
        apply_op(s, Op::Delete(id)) == s,
{
}

/// Updating twice with the same payload ends in the same state as updating
/// once.
pub proof fn lemma_update_idempotent(s: Seq<ItemView>, it: ItemView)
    requires
        unique_ids(s),
    ensures
        apply_op(apply_op(s, Op::Update(it)), Op::Update(it)) == apply_op(s, Op::Update(it)),
{
    if contains_id(s, it.id) {
        lemma_index_of_id(s, it.id);
        let k = index_of_id(s, it.id);
        let t = s.update(k, it);
        assert(t[k].id == it.id);
        assert(contains_id(t, it.id));
        lemma_update_preserves_unique(s, it);
        lemma_index_of_id_unique(t, it.id, k);
        assert(t.update(k, it) =~= t);
    }
}

} // verus!
