use std::collections::HashMap;
use vstd::prelude::*;
use crate::registry::{
    advance, entries_in, first_of, lemma_first_of, lemma_map_of_keys, lemma_remove_track,
    lemma_tick_entries, lemma_tick_ok, map_of, tick, total, tracks_ok, tracks_view, Animation,
    Status, Step, Track,
};
use crate::sprite::Sprite;

verus! {

broadcast use {
    vstd::std_specs::hash::group_hash_axioms,
    vstd::std_specs::hash::axiom_random_state_builds_valid_hashers,
};

/// `es` with animation `i` moved to the end, its paused flag set to `paused`.
pub open spec fn moved<C>(es: Seq<Animation<C>>, i: int, paused: bool) -> Seq<Animation<C>> {
    es.remove(i).push(Animation { template: es[i].template, cursor: es[i].cursor, paused })
}

/// The registry after `id`'s animations became `es`: the sprite leaves it when none is left.
pub open spec fn with_entries<C>(
    m: Map<u128, Seq<Animation<C>>>,
    id: u128,
    es: Seq<Animation<C>>,
) -> Map<u128, Seq<Animation<C>>> {
    if es.len() == 0 {
        m.remove(id)
    } else {
        m.insert(id, es)
    }
}

/// `n`, or `usize::MAX` where `n` is larger.
pub open spec fn capped(n: nat) -> nat {
    if n <= usize::MAX {
        n
    } else {
        usize::MAX as nat
    }
}

/// The first sprite named `id` in the subtrees of `roots[k..]`, depth first.
pub open spec fn search<S>(roots: Seq<Sprite<S>>, id: u128, k: int) -> Option<Sprite<S>>
    decreases roots.len() - k,
{
    if k < 0 || k >= roots.len() {
        None
    } else {
        match roots[k].found(id) {
            Some(s) => Some(s),
            None => search(roots, id, k + 1),
        }
    }
}

/// `after` is `before` with the first sprite named `id` inside one of them,
/// depth first, cut out of that top-level sprite.
pub open spec fn roots_cut<S>(before: Seq<Sprite<S>>, after: Seq<Sprite<S>>, id: u128) -> bool {
    &&& after.len() == before.len()
    &&& exists|k: int|
        #![trigger before[k]]
        0 <= k < before.len() && Sprite::cut(before[k], after[k], id) && forall|j: int|
            0 <= j < before.len() && j != k ==> after[j] == before[j]
}

/// The steps of a tick as plain values.
pub open spec fn steps_view<C>(steps: Seq<Vec<Option<Step<C>>>>) -> Seq<Seq<Option<Step<C>>>> {
    steps.map_values(|v: Vec<Option<Step<C>>>| v@)
}

/// A scene owns sprites and runs animations on them.
pub struct Scene<S, C> {
    children: Vec<Sprite<S>>,
    children_index: HashMap<u128, usize>,
    running: Vec<Track<C>>,
}

impl<S, C> Scene<S, C> {
    /// The top-level sprites, in order.
    pub closed spec fn roots(self) -> Seq<Sprite<S>> {
        self.children@
    }

    /// Position of each top-level sprite, by identifier.
    pub closed spec fn index(self) -> Map<u128, usize> {
        self.children_index@
    }

    /// Each sprite that has animations, with them, in storage order.
    pub closed spec fn tracks(self) -> Seq<(u128, Seq<Animation<C>>)> {
        tracks_view(self.running@)
    }

    pub open spec fn registry(self) -> Map<u128, Seq<Animation<C>>> {
        map_of(self.tracks())
    }

    pub open spec fn entries(self, id: u128) -> Seq<Animation<C>> {
        entries_in(self.registry(), id)
    }

    /// How many animations the scene holds.
    pub open spec fn count(self) -> nat {
        total(self.tracks())
    }

    /// The sprite that a search for `id` finds: the top-level one of that
    /// name, else the first depth first inside the top-level sprites.
    pub open spec fn lookup(self, id: u128) -> Option<Sprite<S>> {
        if self.index().contains_key(id) {
            Some(self.roots()[self.index()[id] as int])
        } else {
            search(self.roots(), id, 0)
        }
    }

    /// `id` names a sprite of the scene, at any depth.
    pub open spec fn has(self, id: u128) -> bool {
        exists|i: int| #![trigger self.roots()[i]] 0 <= i < self.roots().len() && self.roots()[i].holds(id)
    }

    /// The index maps each top-level sprite to its position, and holds nothing else.
    pub open spec fn index_ok(self) -> bool {
        &&& forall|i: int|
            #![trigger self.roots()[i]]
            0 <= i < self.roots().len() ==> self.index().contains_key(self.roots()[i].id)
                && self.index()[self.roots()[i].id] == i
        &&& forall|id: u128|
            #[trigger] self.index().contains_key(id) ==> self.index()[id] < self.roots().len()
                && self.roots()[self.index()[id] as int].id == id
    }

    pub open spec fn wf(self) -> bool {
        self.index_ok() && tracks_ok(self.tracks())
    }

    /// An empty scene.
    pub fn new() -> (r: Scene<S, C>)
        ensures
            r.wf(),
            r.roots().len() == 0,
            r.registry() == Map::<u128, Seq<Animation<C>>>::empty(),
            r.count() == 0,
    {
        let r = Scene { children: Vec::new(), children_index: HashMap::new(), running: Vec::new() };
        assert(r.tracks() =~= Seq::empty());
        r
    }

    /// The tracks, for a caller that steps the running animations.
    pub fn animations(&self) -> (r: &Vec<Track<C>>)
        ensures
            tracks_view(r@) == self.tracks(),
    {
        &self.running
    }

    /// The top-level sprites, in order.
    pub fn children(&self) -> (r: &Vec<Sprite<S>>)
        ensures
            r@ == self.roots(),
    {
        &self.children
    }

    /// Adds `sprite` after the top-level sprites and returns its identifier,
    /// which must not name a sprite of the scene yet.
    pub fn add_child(&mut self, sprite: Sprite<S>) -> (r: u128)
        requires
            old(self).wf(),
            !old(self).has(sprite.id),
        ensures
            final(self).wf(),
            r == sprite.id,
            final(self).has(r),
            final(self).roots() == old(self).roots().push(sprite),
            final(self).tracks() == old(self).tracks(),
    {
        let id = sprite.id;
        proof {
            if self.index().contains_key(id) {
                assert(self.roots()[self.index()[id] as int].holds(id));
            }
        }
        self.children.push(sprite);
        self.children_index.insert(id, self.children.len() - 1);
        proof {
            let n = old(self).roots().len();
            assert(self.roots()[n as int].holds(id));
            assert forall|i: int| #![trigger self.roots()[i]] 0 <= i < self.roots().len() implies self.index().contains_key(
                self.roots()[i].id,
            ) && self.index()[self.roots()[i].id] == i by {
                if i < n {
                    assert(old(self).roots()[i] == self.roots()[i]);
                    assert(old(self).index().contains_key(old(self).roots()[i].id));
                }
            }
            assert forall|k: u128| #[trigger] self.index().contains_key(k) implies self.index()[k]
                < self.roots().len() && self.roots()[self.index()[k] as int].id == k by {
                if k != id {
                    assert(old(self).index().contains_key(k));
                }
            }
        }
        id
    }

    /// Finds the sprite named `id`, first among the top-level sprites, then
    /// depth first inside each of them.
    pub fn child(&self, id: u128) -> (r: Option<&Sprite<S>>)
        requires
            self.wf(),
        ensures
            r is Some <==> self.has(id),
            r is Some ==> r->0.id == id,
            r matches Some(c) ==> self.lookup(id) == Some(*c),
            r is None ==> self.lookup(id) is None,
    {
        match self.children_index.get(&id) {
            Some(i) => {
                assert(self.children_index@.contains_key(id));
                assert(self.index().contains_key(id));
                assert(self.roots()[*i as int].holds(id));
                Some(&self.children[*i])
            },
            None => {
                let mut k: usize = 0;
                while k < self.children.len()
                    invariant
                        self.wf(),
                        !self.index().contains_key(id),
                        0 <= k <= self.children.len(),
                        forall|j: int| 0 <= j < k ==> !(#[trigger] self.roots()[j]).holds(id),
                        search(self.roots(), id, 0) == search(self.roots(), id, k as int),
                    decreases self.children.len() - k,
                {
                    let r = self.children[k].child(id);
                    assert(self.roots()[k as int].id != id);
                    assert(self.roots()[k as int].found(id) == self.roots()[k as int].found_below(id, 0));
                    if r.is_some() {
                        assert(self.roots()[k as int].holds(id));
                        return r;
                    }
                    assert(search(self.roots(), id, k as int) == search(self.roots(), id, k + 1));
                    k += 1;
                }
                None
            },
        }
    }

    /// Position of the track of sprite `id`.
    fn slot(&self, id: u128) -> (r: Option<usize>)
        requires
            self.wf(),
        ensures
            r is Some <==> self.registry().contains_key(id),
            r matches Some(k) ==> k < self.tracks().len() && self.tracks()[k as int].0 == id
                && self.registry()[id] == self.tracks()[k as int].1,
    {
        let mut k: usize = 0;
        while k < self.running.len()
            invariant
                self.wf(),
                0 <= k <= self.running.len(),
                self.tracks().len() == self.running.len(),
                forall|j: int| 0 <= j < k ==> (#[trigger] self.tracks()[j]).0 != id,
            decreases self.running.len() - k,
        {
            assert(self.tracks()[k as int] == self.running@[k as int].view());
            if self.running[k].id == id {
                assert(self.tracks()[k as int].0 == id);
                proof {
                    lemma_map_of_keys(self.tracks(), id);
                }
                return Some(k);
            }
            k += 1;
        }
        proof {
            lemma_map_of_keys(self.tracks(), id);
        }
        None
    }

    /// Takes track `k` out of the registry.
    fn take_track(&mut self, k: usize) -> (t: Track<C>)
        requires
            old(self).wf(),
            k < old(self).tracks().len(),
        ensures
            tracks_ok(final(self).tracks()),
            t.view() == old(self).tracks()[k as int],
            old(self).registry().contains_key(t.id),
            old(self).registry()[t.id] == t.entries@,
            final(self).registry() == old(self).registry().remove(t.id),
            final(self).count() + t.entries@.len() == old(self).count(),
            final(self).roots() == old(self).roots(),
            final(self).index() == old(self).index(),
    {
        let t = self.running.remove(k);
        proof {
            let r = old(self).tracks();
            assert(self.tracks() =~= r.remove(k as int));
            lemma_remove_track(r, k as int);
            lemma_map_of_keys(r, t.id);
        }
        t
    }

    /// Puts track `t` into the registry.
    fn put_track(&mut self, t: Track<C>)
        requires
            tracks_ok(old(self).tracks()),
            !old(self).registry().contains_key(t.id),
            t.entries@.len() > 0,
        ensures
            tracks_ok(final(self).tracks()),
            final(self).registry() == old(self).registry().insert(t.id, t.entries@),
            final(self).count() == old(self).count() + t.entries@.len(),
            final(self).roots() == old(self).roots(),
            final(self).index() == old(self).index(),
    {
        let ghost r = old(self).tracks();
        let ghost v = t.view();
        self.running.push(t);
        proof {
            let q = self.tracks();
            assert(q =~= r.push(v));
            assert(q.drop_last() =~= r);
            lemma_map_of_keys(r, v.0);
            assert forall|a: int, b: int| 0 <= a < b < q.len() implies (#[trigger] q[a]).0 != (
            #[trigger] q[b]).0 by {
                if b == q.len() - 1 {
                    assert(r[a] == q[a]);
                } else {
                    assert(r[a] == q[a] && r[b] == q[b]);
                }
            }
            assert forall|a: int| 0 <= a < q.len() implies (#[trigger] q[a]).1.len() > 0 by {
                if a < r.len() {
                    assert(r[a] == q[a]);
                }
            }
        }
    }

    /// Starts an animation of `template` on sprite `id`, not paused, after
    /// those the sprite runs already.
    pub fn run(&mut self, id: u128, template: u64, cursor: C)
        requires
            old(self).wf(),
        ensures
            final(self).wf(),
            final(self).registry() == old(self).registry().insert(
                id,
                old(self).entries(id).push(Animation { template, cursor, paused: false }),
            ),
            final(self).count() == old(self).count() + 1,
            final(self).roots() == old(self).roots(),
            final(self).index() == old(self).index(),
    {
        let a = Animation { template, cursor, paused: false };
        match self.slot(id) {
            Some(k) => {
                let mut t = self.take_track(k);
                t.entries.push(a);
                self.put_track(t);
            },
            None => {
                let mut entries = Vec::new();
                entries.push(a);
                self.put_track(Track { id, entries });
            },
        }
        proof {
            assert(final(self).registry() =~= old(self).registry().insert(
                id,
                old(self).entries(id).push(Animation { template, cursor, paused: false }),
            ));
        }
    }

    /// Finds the first animation of sprite `id` that runs `template`: the
    /// position of the sprite's track, and the animation's in it.
    fn find(&self, id: u128, template: u64) -> (r: Option<(usize, usize)>)
        requires
            self.wf(),
        ensures
            r is None ==> first_of(self.entries(id), template) is None,
            r matches Some((k, i)) ==> {
                &&& k < self.tracks().len()
                &&& self.tracks()[k as int].0 == id
                &&& self.registry().contains_key(id)
                &&& self.registry()[id] == self.tracks()[k as int].1
                &&& i < self.tracks()[k as int].1.len()
                &&& first_of(self.entries(id), template) == Some(i as int)
            },
    {
        match self.slot(id) {
            None => None,
            Some(k) => {
                let es = &self.running[k].entries;
                assert(self.tracks()[k as int] == self.running@[k as int].view());
                assert(es@ == self.entries(id));
                let mut i: usize = 0;
                while i < es.len()
                    invariant
                        self.wf(),
                        k < self.tracks().len(),
                        self.tracks()[k as int].0 == id,
                        self.registry().contains_key(id),
                        self.registry()[id] == self.tracks()[k as int].1,
                        es@ == self.tracks()[k as int].1,
                        es@ == self.entries(id),
                        0 <= i <= es.len(),
                        forall|j: int| 0 <= j < i ==> (#[trigger] es@[j]).template != template,
                    decreases es.len() - i,
                {
                    if es[i].template == template {
                        proof {
                            lemma_first_of(es@, template, i as int);
                        }
                        return Some((k, i));
                    }
                    i += 1;
                }
                None
            },
        }
    }

    /// Moves animation `i` of track `k` to the end of its track, paused or not.
    fn requeue(&mut self, k: usize, i: usize, paused: bool)
        requires
            old(self).wf(),
            k < old(self).tracks().len(),
            i < old(self).tracks()[k as int].1.len(),
        ensures
            final(self).wf(),
            final(self).registry() == old(self).registry().insert(
                old(self).tracks()[k as int].0,
                moved(old(self).tracks()[k as int].1, i as int, paused),
            ),
            final(self).count() == old(self).count(),
            final(self).roots() == old(self).roots(),
            final(self).index() == old(self).index(),
    {
        let mut t = self.take_track(k);
        let a = t.entries.remove(i);
        t.entries.push(Animation { template: a.template, cursor: a.cursor, paused });
        self.put_track(t);
    }

    /// Pauses the first animation of sprite `id` that runs `template`, and
    /// moves it to the end of the sprite's animations. Does nothing where
    /// there is none.
    pub fn pause(&mut self, id: u128, template: u64)
        requires
            old(self).wf(),
        ensures
            final(self).wf(),
            final(self).registry() == match first_of(old(self).entries(id), template) {
                None => old(self).registry(),
                Some(i) => old(self).registry().insert(id, moved(old(self).entries(id), i, true)),
            },
            final(self).count() == old(self).count(),
            final(self).roots() == old(self).roots(),
            final(self).index() == old(self).index(),
    {
        if let Some((k, i)) = self.find(id, template) {
            self.requeue(k, i, true);
        }
    }

    /// Resumes the first animation of sprite `id` that runs `template`, and
    /// moves it to the end of the sprite's animations. Does nothing where
    /// there is none.
    pub fn resume(&mut self, id: u128, template: u64)
        requires
            old(self).wf(),
        ensures
            final(self).wf(),
            final(self).registry() == match first_of(old(self).entries(id), template) {
                None => old(self).registry(),
                Some(i) => old(self).registry().insert(id, moved(old(self).entries(id), i, false)),
            },
            final(self).count() == old(self).count(),
            final(self).roots() == old(self).roots(),
            final(self).index() == old(self).index(),
    {
        if let Some((k, i)) = self.find(id, template) {
            self.requeue(k, i, false);
        }
    }

    /// Flips the paused flag of the first animation of sprite `id` that runs
    /// `template`, and moves it to the end of the sprite's animations. Does
    /// nothing where there is none.
    pub fn toggle(&mut self, id: u128, template: u64)
        requires
            old(self).wf(),
        ensures
            final(self).wf(),
            final(self).registry() == match first_of(old(self).entries(id), template) {
                None => old(self).registry(),
                Some(i) => old(self).registry().insert(
                    id,
                    moved(old(self).entries(id), i, !old(self).entries(id)[i].paused),
                ),
            },
            final(self).count() == old(self).count(),
            final(self).roots() == old(self).roots(),
            final(self).index() == old(self).index(),
    {
        if let Some((k, i)) = self.find(id, template) {
            assert(self.tracks()[k as int] == self.running@[k as int].view());
            let paused = self.running[k].entries[i].paused;
            self.requeue(k, i, !paused);
        }
    }

    /// Stops the first animation of sprite `id` that runs `template`. Does
    /// nothing where there is none.
    pub fn stop(&mut self, id: u128, template: u64)
        requires
            old(self).wf(),
        ensures
            final(self).wf(),
            final(self).registry() == match first_of(old(self).entries(id), template) {
                None => old(self).registry(),
                Some(i) => with_entries(old(self).registry(), id, old(self).entries(id).remove(i)),
            },
            final(self).count() == match first_of(old(self).entries(id), template) {
                None => old(self).count(),
                Some(i) => (old(self).count() - 1) as nat,
            },
            final(self).roots() == old(self).roots(),
            final(self).index() == old(self).index(),
    {
        if let Some((k, i)) = self.find(id, template) {
            let mut t = self.take_track(k);
            t.entries.remove(i);
            if t.entries.len() > 0 {
                self.put_track(t);
            }
        }
    }

    /// Stops every animation of sprite `id`.
    pub fn stop_all(&mut self, id: u128)
        requires
            old(self).wf(),
        ensures
            final(self).wf(),
            final(self).registry() == old(self).registry().remove(id),
            !final(self).registry().contains_key(id),
            final(self).entries(id).len() == 0,
            final(self).count() == old(self).count() - old(self).entries(id).len(),
            final(self).roots() == old(self).roots(),
            final(self).index() == old(self).index(),
    {
        match self.slot(id) {
            Some(k) => {
                self.take_track(k);
            },
            None => {
                assert(self.registry() =~= self.registry().remove(id));
            },
        }
    }

    /// How many animations the scene holds, paused or not (at most `usize::MAX`).
    pub fn running(&self) -> (r: usize)
        requires
            self.wf(),
        ensures
            r == capped(self.count()),
    {
        let mut n: usize = 0;
        let mut k: usize = 0;
        while k < self.running.len()
            invariant
                0 <= k <= self.running.len(),
                self.tracks().len() == self.running.len(),
                n == if total(self.tracks().take(k as int)) <= usize::MAX {
                    total(self.tracks().take(k as int))
                } else {
                    usize::MAX as nat
                },
            decreases self.running.len() - k,
        {
            let len = self.running[k].entries.len();
            proof {
                let q = self.tracks().take(k + 1);
                assert(q.drop_last() =~= self.tracks().take(k as int));
                assert(q.last() == self.running@[k as int].view());
            }
            if n > usize::MAX - len {
                n = usize::MAX;
            } else {
                n = n + len;
            }
            k += 1;
        }
        assert(self.tracks().take(k as int) =~= self.tracks());
        n
    }

    /// Takes the sprite named `id` out of the tree: a top-level one, else the
    /// first found depth first inside the top-level sprites.
    fn detach(&mut self, id: u128) -> (r: Option<Sprite<S>>)
        requires
            old(self).wf(),
        ensures
            final(self).wf(),
            final(self).tracks() == old(self).tracks(),
            r is Some <==> old(self).has(id),
            r matches Some(s) ==> s.id == id,
            r is None ==> final(self).roots() == old(self).roots(),
            r == old(self).lookup(id),
            old(self).index().contains_key(id) ==> final(self).roots() == old(self).roots().remove(
                old(self).index()[id] as int,
            ),
            !old(self).index().contains_key(id) ==> final(self).index() == old(self).index(),
            !old(self).index().contains_key(id) && r is Some ==> roots_cut(
                old(self).roots(),
                final(self).roots(),
                id,
            ),
    {
        match self.children_index.remove(&id) {
            Some(i) => {
                let ghost before = old(self).roots();
                assert(old(self).index().contains_key(id));
                assert(before[i as int].id == id);
                assert(before[i as int].holds(id));
                let s = self.children.remove(i);
                proof {
                    let roots = self.roots();
                    assert(roots =~= before.remove(i as int));
                    assert forall|a: int| #![trigger roots[a]] i <= a < roots.len() implies self.index().contains_key(
                        roots[a].id,
                    ) && self.index()[roots[a].id] == a + 1 by {
                        assert(roots[a] == before[a + 1]);
                    }
                    assert forall|a: int| #![trigger roots[a]] 0 <= a < i implies self.index().contains_key(
                        roots[a].id,
                    ) && self.index()[roots[a].id] == a by {
                        assert(roots[a] == before[a]);
                    }
                    assert forall|a: int, b: int| 0 <= a < b < roots.len() implies (#[trigger] roots[a]).id
                        != (#[trigger] roots[b]).id by {
                        let a0 = if a < i { a } else { a + 1 };
                        let b0 = if b < i { b } else { b + 1 };
                        assert(roots[a] == before[a0]);
                        assert(roots[b] == before[b0]);
                        assert(old(self).index()[before[a0].id] == a0);
                        assert(old(self).index()[before[b0].id] == b0);
                    }
                    assert forall|key: u128| #[trigger] self.index().contains_key(key) implies {
                        let v = self.index()[key] as int;
                        (v < i && self.roots()[v].id == key) || (i < v <= self.roots().len()
                            && self.roots()[v - 1].id == key)
                    } by {
                        assert(old(self).index().contains_key(key));
                        let v = self.index()[key] as int;
                        if v < i {
                            assert(roots[v] == before[v]);
                        } else {
                            assert(v != i);
                            assert(roots[v - 1] == before[v]);
                        }
                    }
                }
                let mut j: usize = i;
                while j < self.children.len()
                    invariant
                        i <= j <= self.children.len(),
                        self.roots() == before.remove(i as int),
                        self.tracks() == old(self).tracks(),
                        forall|a: int, b: int|
                            0 <= a < b < self.roots().len() ==> (#[trigger] self.roots()[a]).id != (
                            #[trigger] self.roots()[b]).id,
                        forall|a: int|
                            #![trigger self.roots()[a]]
                            0 <= a < j ==> self.index().contains_key(self.roots()[a].id)
                                && self.index()[self.roots()[a].id] == a,
                        forall|a: int|
                            #![trigger self.roots()[a]]
                            j <= a < self.roots().len() ==> self.index().contains_key(
                                self.roots()[a].id,
                            ) && self.index()[self.roots()[a].id] == a + 1,
                        forall|key: u128| #[trigger]
                            self.index().contains_key(key) ==> {
                                let v = self.index()[key] as int;
                                (v < j && self.roots()[v].id == key) || (j < v <= self.roots().len()
                                    && self.roots()[v - 1].id == key)
                            },
                    decreases self.children.len() - j,
                {
                    let uuid = self.children[j].id;
                    let ghost prev = self.index();
                    self.children_index.insert(uuid, j);
                    proof {
                        let roots = self.roots();
                        assert forall|key: u128| #[trigger] self.index().contains_key(key) implies {
                            let v = self.index()[key] as int;
                            (v < j + 1 && roots[v].id == key) || (j + 1 < v <= roots.len() && roots[v
                                - 1].id == key)
                        } by {
                            if key != uuid {
                                assert(prev.contains_key(key));
                                let v = prev[key] as int;
                                if v == j + 1 {
                                    assert(roots[j as int].id == key);
                                }
                            }
                        }
                        assert forall|a: int|
                            #![trigger roots[a]]
                            0 <= a < j + 1 implies self.index().contains_key(roots[a].id)
                            && self.index()[roots[a].id] == a by {
                            if a < j {
                                assert(roots[a].id != roots[j as int].id);
                            }
                        }
                        assert forall|a: int|
                            #![trigger roots[a]]
                            j + 1 <= a < roots.len() implies self.index().contains_key(roots[a].id)
                            && self.index()[roots[a].id] == a + 1 by {
                            assert(roots[a].id != roots[j as int].id);
                        }
                    }
                    j += 1;
                }
                Some(s)
            },
            None => {
                assert(self.index() =~= old(self).index());
                assert(self.roots() == old(self).roots());
                assert(self.index_ok());
                let mut k: usize = 0;
                while k < self.children.len()
                    invariant
                        self.roots() == old(self).roots(),
                        self.index() == old(self).index(),
                        self.tracks() == old(self).tracks(),
                        self.wf(),
                        !self.index().contains_key(id),
                        0 <= k <= self.children.len(),
                        forall|j: int| 0 <= j < k ==> !(#[trigger] self.roots()[j]).holds(id),
                        search(self.roots(), id, 0) == search(self.roots(), id, k as int),
                    decreases self.children.len() - k,
                {
                    assert(self.roots()[k as int].id != id);
                    assert(self.roots()[k as int].found(id) == self.roots()[k as int].found_below(id, 0));
                    if self.children[k].child(id).is_some() {
                        assert(self.roots()[k as int].holds(id));
                        let ghost before = self.roots();
                        let mut c = self.children.remove(k);
                        let r = c.remove_child(id);
                        self.children.insert(k, c);
                        proof {
                            assert(self.roots() =~= before.update(k as int, c));
                            assert forall|a: int| 0 <= a < before.len() implies (
                            #[trigger] self.roots()[a]).id == before[a].id by {}
                            assert(Sprite::cut(before[k as int], self.roots()[k as int], id));
                            assert(roots_cut(before, self.roots(), id));
                        }
                        return r;
                    }
                    assert(search(self.roots(), id, k as int) == search(self.roots(), id, k + 1));
                    k += 1;
                }
                None
            },
        }
    }

    /// Stops every animation of `sprite` and of each sprite nested in it.
    fn stop_all_including_children(&mut self, sprite: &Sprite<S>)
        requires
            old(self).wf(),
        ensures
            final(self).wf(),
            forall|x: u128|
                #[trigger] final(self).registry().contains_key(x) <==> old(self).registry().contains_key(x)
                    && !sprite.holds(x),
            forall|x: u128|
                #[trigger] final(self).registry().contains_key(x) ==> final(self).registry()[x]
                    == old(self).registry()[x],
            final(self).roots() == old(self).roots(),
            final(self).index() == old(self).index(),
        decreases sprite,
    {
        self.stop_all(sprite.id);
        let mut i: usize = 0;
        while i < sprite.children.len()
            invariant
                self.wf(),
                0 <= i <= sprite.children.len(),
                forall|x: u128|
                    #[trigger] self.registry().contains_key(x) <==> old(self).registry().contains_key(x)
                        && x != sprite.id && forall|j: int|
                        0 <= j < i ==> !(#[trigger] sprite.children@[j]).holds(x),
                forall|x: u128|
                    #[trigger] self.registry().contains_key(x) ==> self.registry()[x] == old(
                        self,
                    ).registry()[x],
                self.roots() == old(self).roots(),
                self.index() == old(self).index(),
            decreases sprite.children.len() - i,
        {
            self.stop_all_including_children(&sprite.children[i]);
            i += 1;
        }
    }

    /// Removes the sprite named `id` (see `child` for where it is looked for)
    /// and stops every animation of it and of each sprite nested in it.
    pub fn remove_child(&mut self, id: u128) -> (r: Option<Sprite<S>>)
        requires
            old(self).wf(),
        ensures
            final(self).wf(),
            r is Some <==> old(self).has(id),
            r is None ==> final(self).roots() == old(self).roots() && final(self).registry() == old(
                self,
            ).registry(),
            r matches Some(s) ==> {
                &&& s.id == id
                &&& forall|x: u128|
                    #[trigger] final(self).registry().contains_key(x) <==> old(
                        self,
                    ).registry().contains_key(x) && !s.holds(x)
                &&& forall|x: u128|
                    #[trigger] final(self).registry().contains_key(x) ==> final(self).registry()[x]
                        == old(self).registry()[x]
            },
            r == old(self).lookup(id),
            old(self).index().contains_key(id) ==> r == Some(
                old(self).roots()[old(self).index()[id] as int],
            ),
            old(self).index().contains_key(id) ==> final(self).roots() == old(self).roots().remove(
                old(self).index()[id] as int,
            ),
            !old(self).index().contains_key(id) ==> final(self).index() == old(self).index(),
            !old(self).index().contains_key(id) && r is Some ==> roots_cut(
                old(self).roots(),
                final(self).roots(),
                id,
            ),
    {
        let removed = self.detach(id);
        match removed {
            Some(s) => {
                self.stop_all_including_children(&s);
                Some(s)
            },
            None => None,
        }
    }

    /// What one tick makes of the animations `es`, where `steps[j]` is what
    /// the step of `es[j]` gave.
    fn advance_entries(es: Vec<Animation<C>>, steps: Vec<Option<Step<C>>>) -> (r: Vec<Animation<C>>)
        requires
            steps@.len() == es@.len(),
        ensures
            r@ == advance(es@, steps@),
    {
        let ghost e0 = es@;
        let ghost s0 = steps@;
        let mut es = es;
        let mut steps = steps;
        let mut r: Vec<Animation<C>> = Vec::new();
        let ghost mut j: int = 0;
        while es.len() > 0
            invariant
                0 <= j <= e0.len(),
                es@ == e0.skip(j),
                steps@ == s0.skip(j),
                s0.len() == e0.len(),
                r@ == advance(e0.take(j), s0.take(j)),
            decreases es.len(),
        {
            let e = es.remove(0);
            let st = steps.remove(0);
            proof {
                assert(e0.take(j + 1).drop_last() =~= e0.take(j));
                assert(s0.take(j + 1).take(j) =~= s0.take(j));
                assert(e0.take(j + 1).last() == e);
                assert(s0.take(j + 1)[j] == st);
            }
            if e.paused {
                r.push(e);
            } else {
                match st {
                    Some(s) => {
                        if s.status == Status::Running {
                            r.push(Animation { template: e.template, cursor: s.cursor, paused: false });
                        }
                    },
                    None => {},
                }
            }
            proof {
                j = j + 1;
                assert(es@ =~= e0.skip(j));
                assert(steps@ =~= s0.skip(j));
            }
        }
        proof {
            assert(e0.take(j) =~= e0);
            assert(s0.take(j) =~= s0);
        }
        r
    }

    /// One tick: every animation that is not paused takes the step that
    /// `steps` gives for it, and stays only while it is running; paused ones
    /// stay as they are. `steps[k][j]` is what the step of animation `j` of
    /// track `k` of `animations()` gave. Each sprite that runs an animation
    /// must be in the scene: removing a sprite stops its animations.
    pub fn event(&mut self, steps: Vec<Vec<Option<Step<C>>>>)
        requires
            old(self).wf(),
            steps@.len() == old(self).tracks().len(),
            forall|k: int|
                0 <= k < steps@.len() ==> (#[trigger] steps@[k])@.len() == old(self).tracks()[k].1.len(),
            forall|k: int, j: int|
                0 <= k < steps@.len() && 0 <= j < steps@[k]@.len() && !(#[trigger] old(
                    self,
                ).tracks()[k].1[j]).paused ==> (#[trigger] steps@[k]@[j]) is Some,
            forall|id: u128, j: int|
                0 <= j < old(self).entries(id).len() && !(#[trigger] old(self).entries(id)[j]).paused
                    ==> old(self).has(id),
        ensures
            final(self).wf(),
            final(self).tracks() == tick(old(self).tracks(), steps_view(steps@)),
            forall|k: int|
                0 <= k < old(self).tracks().len() ==> final(self).entries(
                    (#[trigger] old(self).tracks()[k]).0,
                ) == advance(old(self).tracks()[k].1, steps@[k]@),
            forall|id: u128|
                #[trigger] final(self).registry().contains_key(id) ==> old(
                    self,
                ).registry().contains_key(id),
            final(self).roots() == old(self).roots(),
            final(self).index() == old(self).index(),
    {
        let ghost r = old(self).tracks();
        let ghost sv = steps_view(steps@);
        let ghost orig_steps = steps@;
        let mut tracks: Vec<Track<C>> = Vec::new();
        std::mem::swap(&mut tracks, &mut self.running);
        let mut steps = steps;
        let ghost mut k: int = 0;
        assert(self.tracks() =~= tick(r.take(0), sv.take(0)));
        assert(tracks_view(tracks@) =~= r.skip(0));
        assert(sv =~= sv.skip(0));
        while tracks.len() > 0
            invariant
                0 <= k <= r.len(),
                r.len() == sv.len(),
                forall|a: int| 0 <= a < r.len() ==> (#[trigger] sv[a]).len() == r[a].1.len(),
                tracks_view(tracks@) == r.skip(k),
                steps_view(steps@) == sv.skip(k),
                steps@.len() == tracks@.len(),
                self.tracks() == tick(r.take(k), sv.take(k)),
                self.roots() == old(self).roots(),
                self.index() == old(self).index(),
            decreases tracks.len(),
        {
            assert(tracks_view(tracks@).len() == tracks@.len());
            assert(k < r.len());
            assert(steps_view(steps@)[0] == steps@[0]@);
            assert(tracks_view(tracks@)[0] == tracks@[0].view());
            let ghost t0 = tracks@;
            let ghost s0 = steps@;
            let t = tracks.remove(0);
            let st = steps.remove(0);
            proof {
                assert forall|a: int| 0 <= a < tracks@.len() implies tracks_view(tracks@)[a] == r.skip(k + 1)[a] by {
                    assert(tracks@[a] == t0[a + 1]);
                    assert(tracks_view(t0)[a + 1] == r.skip(k)[a + 1]);
                }
                assert forall|a: int| 0 <= a < steps@.len() implies steps_view(steps@)[a] == sv.skip(k + 1)[a] by {
                    assert(steps@[a] == s0[a + 1]);
                    assert(steps_view(s0)[a + 1] == sv.skip(k)[a + 1]);
                }
                assert(r.skip(k)[0] == t.view());
                assert(sv.skip(k)[0] == st@);
                assert(r.take(k + 1).drop_last() =~= r.take(k));
                assert(sv.take(k + 1).take(k) =~= sv.take(k));
                assert(r.take(k + 1).last() == r[k]);
                assert(sv.take(k + 1)[k] == sv[k]);
            }
            let id = t.id;
            let entries = Self::advance_entries(t.entries, st);
            let ghost before = self.tracks();
            if entries.len() > 0 {
                self.running.push(Track { id, entries });
                assert(self.tracks() =~= before.push((id, entries@)));
            }
            proof {
                k = k + 1;
                assert(tracks_view(tracks@) =~= r.skip(k));
                assert(steps_view(steps@) =~= sv.skip(k));
            }
        }
        proof {
            assert(r.take(k) =~= r);
            assert(sv.take(k) =~= sv);
            lemma_tick_ok(r, sv);
            assert forall|k: int| 0 <= k < r.len() implies self.entries((#[trigger] r[k]).0) == advance(
                r[k].1,
                steps_view(orig_steps)[k],
            ) by {
                lemma_tick_entries(r, sv, k);
            }
            assert forall|id: u128| #[trigger] self.registry().contains_key(id) implies old(
                self,
            ).registry().contains_key(id) by {
                let t = self.tracks();
                lemma_map_of_keys(t, id);
                lemma_map_of_keys(r, id);
                let a = choose|a: int| 0 <= a < t.len() && (#[trigger] t[a]).0 == id;
                let k = choose|k: int| 0 <= k < r.len() && r[k].0 == (#[trigger] t[a]).0;
            }
        }
    }

    /// A sprite that runs an animation, not paused, but is not in the scene,
    /// if there is one: a tick must not happen then.
    pub fn orphan(&self) -> (r: Option<u128>)
        requires
            self.wf(),
        ensures
            r is None <==> forall|id: u128, j: int|
                0 <= j < self.entries(id).len() && !(#[trigger] self.entries(id)[j]).paused
                    ==> self.has(id),
            r matches Some(id) ==> !self.has(id) && exists|j: int|
                0 <= j < self.entries(id).len() && !(#[trigger] self.entries(id)[j]).paused,
    {
        let mut k: usize = 0;
        while k < self.running.len()
            invariant
                self.wf(),
                0 <= k <= self.running.len(),
                self.tracks().len() == self.running.len(),
                forall|a: int, j: int|
                    0 <= a < k && 0 <= j < self.tracks()[a].1.len() && !(
                    #[trigger] self.tracks()[a].1[j]).paused ==> self.has(self.tracks()[a].0),
            decreases self.running.len() - k,
        {
            let t = &self.running[k];
            assert(self.tracks()[k as int] == t.view());
            proof {
                lemma_map_of_keys(self.tracks(), t.id);
                assert(self.registry()[t.id] == t.entries@);
            }
            if self.child(t.id).is_none() {
                let mut j: usize = 0;
                while j < t.entries.len()
                    invariant
                        self.wf(),
                        !self.has(t.id),
                        self.registry().contains_key(t.id),
                        self.registry()[t.id] == t.entries@,
                        0 <= j <= t.entries.len(),
                        forall|b: int| 0 <= b < j ==> (#[trigger] t.entries@[b]).paused,
                    decreases t.entries.len() - j,
                {
                    if !t.entries[j].paused {
                        assert(self.entries(t.id)[j as int] == t.entries@[j as int]);
                        return Some(t.id);
                    }
                    j += 1;
                }
            }
            assert forall|j: int|
                0 <= j < self.tracks()[k as int].1.len() && !(
                #[trigger] self.tracks()[k as int].1[j]).paused implies self.has(self.tracks()[k as int].0) by {
                assert(self.tracks()[k as int].1[j] == t.entries@[j]);
            }
            k += 1;
        }
        assert forall|id: u128, j: int|
            0 <= j < self.entries(id).len() && !(#[trigger] self.entries(id)[j]).paused implies self.has(id) by {
            lemma_map_of_keys(self.tracks(), id);
            let a = choose|a: int| 0 <= a < self.tracks().len() && (#[trigger] self.tracks()[a]).0 == id;
            assert(self.tracks()[a].1[j] == self.entries(id)[j]);
        }
        None
    }

    /// As `child`, for change.
    pub fn child_mut(&mut self, id: u128) -> (r: Option<&mut Sprite<S>>)
        requires
            old(self).wf(),
        ensures
            r is Some <==> old(self).has(id),
            r is Some ==> r->0.id == id,
            r matches Some(c) ==> old(self).lookup(id) == Some(*c),
            r is None ==> *final(self) == *old(self),
    {
        match self.children_index.get(&id) {
            Some(i) => {
                assert(self.children_index@.contains_key(id));
                assert(self.index().contains_key(id));
                assert(self.roots()[*i as int].holds(id));
                let i = *i;
                Some(&mut self.children[i])
            },
            None => {
                let mut k: usize = 0;
                while k < self.children.len()
                    invariant
                        *self == *old(self),
                        self.wf(),
                        !self.index().contains_key(id),
                        0 <= k <= self.children.len(),
                        forall|j: int| 0 <= j < k ==> !(#[trigger] self.roots()[j]).holds(id),
                        search(self.roots(), id, 0) == search(self.roots(), id, k as int),
                    decreases self.children.len() - k,
                {
                    assert(self.roots()[k as int].id != id);
                    assert(self.roots()[k as int].found(id) == self.roots()[k as int].found_below(id, 0));
                    if self.children[k].child(id).is_some() {
                        assert(self.roots()[k as int].holds(id));
                        return self.children[k].child_mut(id);
                    }
                    assert(search(self.roots(), id, k as int) == search(self.roots(), id, k + 1));
                    k += 1;
                }
                None
            },
        }
    }
}

} // verus!
