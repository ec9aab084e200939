use vstd::prelude::*;

verus! {

/// Relies on uuid::Uuid::new_v4, read as an integer by Uuid::as_u128: a
/// random UUID, whose version field is 4 and whose variant bits are `10`.
#[verifier::external_body]
fn fresh_id() -> (r: u128)
    ensures
        (r >> 76u128) & 0xf == 4,
        (r >> 62u128) & 0x3 == 2,
{
    uuid::Uuid::new_v4().as_u128()
}

/// A drawable entity: its identifier, what it draws, and the entities nested in it.
pub struct Sprite<S> {
    pub id: u128,
    pub data: S,
    pub children: Vec<Sprite<S>>,
}

impl<S> Sprite<S> {
    /// `id` names this sprite or one nested in it, at any depth.
    pub open spec fn holds(self, id: u128) -> bool
        decreases self, 1nat,
    {
        self.id == id || self.nests(id)
    }

    /// `id` names a sprite nested in this one, at any depth, this one left out.
    pub open spec fn nests(self, id: u128) -> bool
        decreases self, 0nat,
    {
        exists|i: int| #![trigger self.children@[i]] 0 <= i < self.children.len() && self.children@[i].holds(id)
    }

    /// The first sprite named `id` in this sprite's subtree, depth first,
    /// this one first.
    pub open spec fn found(self, id: u128) -> Option<Sprite<S>>
        decreases self, self.children.len() + 1,
    {
        if self.id == id {
            Some(self)
        } else {
            self.found_below(id, 0)
        }
    }

    /// The first sprite named `id` in the subtrees of children `i..`, depth first.
    pub open spec fn found_below(self, id: u128, i: int) -> Option<Sprite<S>>
        decreases self, self.children.len() - i,
    {
        if i < 0 || i >= self.children.len() {
            None
        } else {
            match self.children@[i].found(id) {
                Some(s) => Some(s),
                None => self.found_below(id, i + 1),
            }
        }
    }

    /// `after` is `before` with its first nested sprite named `id`, depth
    /// first, taken out: child `k` is that sprite and goes, or child `k` has
    /// it inside and is cut the same way; the other children stay as they are.
    pub open spec fn cut(before: Sprite<S>, after: Sprite<S>, id: u128) -> bool
        decreases before,
    {
        &&& after.id == before.id
        &&& after.data == before.data
        &&& exists|k: int|
            #![trigger before.children@[k]]
            0 <= k < before.children.len() && {
                ||| (before.children@[k].id == id && after.children@ == before.children@.remove(k))
                ||| {
                    &&& after.children.len() == before.children.len()
                    &&& forall|j: int|
                        0 <= j < before.children.len() && j != k ==> after.children@[j]
                            == before.children@[j]
                    &&& Sprite::cut(before.children@[k], after.children@[k], id)
                }
            }
    }

    /// A sprite with no children, named by a fresh random (version 4) UUID.
    pub fn new(data: S) -> (r: Sprite<S>)
        ensures
            (r.id >> 76u128) & 0xf == 4,
            (r.id >> 62u128) & 0x3 == 2,
            r.data == data,
            r.children@.len() == 0,
    {
        Sprite { id: fresh_id(), data, children: Vec::new() }
    }

    /// A sprite with no children, named `id`.
    pub fn with_id(id: u128, data: S) -> (r: Sprite<S>)
        ensures
            r.id == id,
            r.data == data,
            r.children@.len() == 0,
    {
        Sprite { id, data, children: Vec::new() }
    }

    /// Nests `child` as the last child of this sprite.
    pub fn add_child(&mut self, child: Sprite<S>)
        ensures
            final(self).id == old(self).id,
            final(self).data == old(self).data,
            final(self).children@ == old(self).children@.push(child),
    {
        self.children.push(child);
    }

    /// Depth-first search of the nested sprites for `id`.
    pub fn child(&self, id: u128) -> (r: Option<&Sprite<S>>)
        ensures
            r is Some <==> self.nests(id),
            r is Some ==> r->0.id == id,
            r matches Some(c) ==> self.found_below(id, 0) == Some(*c),
            r is None ==> self.found_below(id, 0) is None,
        decreases self,
    {
        let mut i: usize = 0;
        while i < self.children.len()
            invariant
                0 <= i <= self.children.len(),
                forall|j: int| 0 <= j < i ==> !(#[trigger] self.children@[j]).holds(id),
                self.found_below(id, 0) == self.found_below(id, i as int),
            decreases self.children.len() - i,
        {
            let c = &self.children[i];
            if c.id == id {
                assert(self.children@[i as int].holds(id));
                assert(c.found(id) == Some(*c));
                assert(self.found_below(id, i as int) == Some(*c));
                return Some(c);
            }
            let r = c.child(id);
            if r.is_some() {
                assert(self.children@[i as int].holds(id));
                assert(c.found(id) == c.found_below(id, 0));
                assert(self.found_below(id, i as int) == c.found(id));
                return r;
            }
            assert(self.found_below(id, i as int) == self.found_below(id, i + 1));
            i += 1;
        }
        None
    }

    /// Depth-first search of the nested sprites for `id`, for change.
    pub fn child_mut(&mut self, id: u128) -> (r: Option<&mut Sprite<S>>)
        ensures
            r is Some <==> old(self).nests(id),
            r is Some ==> r->0.id == id,
            r matches Some(c) ==> old(self).found_below(id, 0) == Some(*c),
            r is None ==> *final(self) == *old(self),
        decreases *old(self),
    {
        let mut i: usize = 0;
        while i < self.children.len()
            invariant
                0 <= i <= self.children.len(),
                *self == *old(self),
                forall|j: int| 0 <= j < i ==> !(#[trigger] self.children@[j]).holds(id),
                self.found_below(id, 0) == self.found_below(id, i as int),
            decreases self.children.len() - i,
        {
            if self.children[i].id == id {
                assert(self.children@[i as int].holds(id));
                assert(self.children@[i as int].found(id) == Some(self.children@[i as int]));
                assert(self.found_below(id, i as int) == Some(self.children@[i as int]));
                return Some(&mut self.children[i]);
            }
            if self.children[i].child(id).is_some() {
                assert(self.children@[i as int].holds(id));
                assert(self.children@[i as int].found(id) == self.children@[i as int].found_below(id, 0));
                assert(self.found_below(id, i as int) == self.children@[i as int].found(id));
                return self.children[i].child_mut(id);
            }
            assert(self.found_below(id, i as int) == self.found_below(id, i + 1));
            i += 1;
        }
        None
    }

    /// Takes the first nested sprite named `id`, depth first, out of this sprite.
    pub fn remove_child(&mut self, id: u128) -> (r: Option<Sprite<S>>)
        ensures
            r is Some <==> old(self).nests(id),
            r is Some ==> r->0.id == id,
            final(self).id == old(self).id,
            final(self).data == old(self).data,
            r is None ==> *final(self) == *old(self),
            r == old(self).found_below(id, 0),
            r is Some ==> Sprite::cut(*old(self), *final(self), id),
        decreases *old(self),
    {
        let ghost start = *self;
        let mut i: usize = 0;
        while i < self.children.len()
            invariant
                0 <= i <= self.children.len(),
                start == *old(self),
                *self == start,
                forall|j: int| 0 <= j < i ==> !(#[trigger] self.children@[j]).holds(id),
                start.found_below(id, 0) == start.found_below(id, i as int),
            decreases self.children.len() - i,
        {
            if self.children[i].id == id {
                assert(start.children@[i as int].holds(id));
                assert(start.children@[i as int].found(id) == Some(start.children@[i as int]));
                let found = self.children.remove(i);
                assert(Sprite::cut(start, *self, id)) by {
                    assert(start.children@[i as int].id == id);
                }
                return Some(found);
            }
            if self.children[i].child(id).is_some() {
                assert(start.children@[i as int].holds(id));
                assert(start.children@[i as int].found(id) == start.children@[i as int].found_below(id, 0));
                let mut c = self.children.remove(i);
                let r = c.remove_child(id);
                self.children.insert(i, c);
                proof {
                    assert(self.children@ =~= start.children@.update(i as int, c));
                    assert(Sprite::cut(start, *self, id)) by {
                        assert(Sprite::cut(start.children@[i as int], self.children@[i as int], id));
                    }
                }
                return r;
            }
            assert(start.found_below(id, i as int) == start.found_below(id, i + 1));
            i += 1;
        }
        None
    }
}

} // verus!
