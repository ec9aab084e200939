use vstd::prelude::*;

verus! {

/// What one step of an animation reports.
#[derive(PartialEq, Eq, Structural, Clone, Copy, Debug)]
pub enum Status {
    Running,
    Succeeded,
    Failed,
}

/// One animation running on a sprite: the template it runs (by key), how far
/// it has come, and whether it is paused.
pub struct Animation<C> {
    pub template: u64,
    pub cursor: C,
    pub paused: bool,
}

/// What the step of a running animation produced in one tick.
pub struct Step<C> {
    pub cursor: C,
    pub status: Status,
}

/// The animations of one sprite.
pub struct Track<C> {
    pub id: u128,
    pub entries: Vec<Animation<C>>,
}

impl<C> Track<C> {
    pub open spec fn view(self) -> (u128, Seq<Animation<C>>) {
        (self.id, self.entries@)
    }
}

/// The tracks as plain values.
pub open spec fn tracks_view<C>(ts: Seq<Track<C>>) -> Seq<(u128, Seq<Animation<C>>)> {
    ts.map_values(|t: Track<C>| t.view())
}

/// No two tracks share a sprite, and none is empty.
pub open spec fn tracks_ok<C>(r: Seq<(u128, Seq<Animation<C>>)>) -> bool {
    &&& forall|a: int, b: int| 0 <= a < b < r.len() ==> (#[trigger] r[a]).0 != (#[trigger] r[b]).0
    &&& forall|a: int| 0 <= a < r.len() ==> (#[trigger] r[a]).1.len() > 0
}

/// The animations of each sprite that has any.
pub open spec fn map_of<C>(r: Seq<(u128, Seq<Animation<C>>)>) -> Map<u128, Seq<Animation<C>>>
    decreases r.len(),
{
    if r.len() == 0 {
        Map::empty()
    } else {
        map_of(r.drop_last()).insert(r.last().0, r.last().1)
    }
}

/// How many animations the tracks hold in all.
pub open spec fn total<C>(r: Seq<(u128, Seq<Animation<C>>)>) -> nat
    decreases r.len(),
{
    if r.len() == 0 {
        0
    } else {
        total(r.drop_last()) + r.last().1.len()
    }
}

/// The animations of sprite `id`, none where it has no track.
pub open spec fn entries_in<C>(m: Map<u128, Seq<Animation<C>>>, id: u128) -> Seq<Animation<C>> {
    if m.contains_key(id) {
        m[id]
    } else {
        Seq::empty()
    }
}

/// Position of the first animation of `es` that runs `template`.
pub open spec fn first_of<C>(es: Seq<Animation<C>>, template: u64) -> Option<int> {
    if exists|i: int| 0 <= i < es.len() && (#[trigger] es[i]).template == template {
        Some(
            choose|i: int|
                0 <= i < es.len() && (#[trigger] es[i]).template == template && forall|j: int|
                    0 <= j < i ==> (#[trigger] es[j]).template != template,
        )
    } else {
        None
    }
}

/// The animation `e` after a tick in which its step gave `step`, if it is
/// still running: a paused one stays as it is.
pub open spec fn after_step<C>(e: Animation<C>, step: Option<Step<C>>) -> Option<Animation<C>> {
    if e.paused {
        Some(e)
    } else {
        match step {
            Some(s) => if s.status == Status::Running {
                Some(Animation { template: e.template, cursor: s.cursor, paused: false })
            } else {
                None
            },
            None => None,
        }
    }
}

/// The animations `es` after one tick, in the same order, where `steps[j]`
/// is what the step of `es[j]` gave.
pub open spec fn advance<C>(es: Seq<Animation<C>>, steps: Seq<Option<Step<C>>>) -> Seq<
    Animation<C>,
>
    decreases es.len(),
{
    if es.len() == 0 {
        Seq::empty()
    } else {
        let rest = advance(es.drop_last(), steps.take(es.len() - 1));
        match after_step(es.last(), steps[es.len() - 1]) {
            Some(e) => rest.push(e),
            None => rest,
        }
    }
}

/// The tracks `r` after one tick, where `steps[k]` holds the steps of the
/// animations of `r[k]`; a track left without animations goes.
pub open spec fn tick<C>(
    r: Seq<(u128, Seq<Animation<C>>)>,
    steps: Seq<Seq<Option<Step<C>>>>,
) -> Seq<(u128, Seq<Animation<C>>)>
    decreases r.len(),
{
    if r.len() == 0 {
        Seq::empty()
    } else {
        let rest = tick(r.drop_last(), steps.take(r.len() - 1));
        let a = advance(r.last().1, steps[r.len() - 1]);
        if a.len() > 0 {
            rest.push((r.last().0, a))
        } else {
            rest
        }
    }
}

/// A tick keeps only sprites that had animations, and keeps the tracks sound.
pub proof fn lemma_tick_ok<C>(r: Seq<(u128, Seq<Animation<C>>)>, steps: Seq<Seq<Option<Step<C>>>>)
    requires
        tracks_ok(r),
    ensures
        tracks_ok(tick(r, steps)),
        forall|a: int|
            0 <= a < tick(r, steps).len() ==> exists|k: int|
                0 <= k < r.len() && r[k].0 == (#[trigger] tick(r, steps)[a]).0,
    decreases r.len(),
{
    if r.len() > 0 {
        let p = r.drop_last();
        let sp = steps.take(r.len() - 1);
        assert(tracks_ok(p)) by {
            assert forall|a: int, b: int| 0 <= a < b < p.len() implies (#[trigger] p[a]).0 != (
            #[trigger] p[b]).0 by {
                assert(r[a] == p[a] && r[b] == p[b]);
            }
            assert forall|a: int| 0 <= a < p.len() implies (#[trigger] p[a]).1.len() > 0 by {
                assert(r[a] == p[a]);
            }
        }
        lemma_tick_ok(p, sp);
        let rest = tick(p, sp);
        let t = tick(r, steps);
        assert forall|a: int| 0 <= a < rest.len() implies exists|k: int|
            0 <= k < r.len() && r[k].0 == (#[trigger] rest[a]).0 by {
            let k = choose|k: int| 0 <= k < p.len() && p[k].0 == (#[trigger] rest[a]).0;
            assert(r[k] == p[k]);
        }
        if t.len() > rest.len() {
            assert(t == rest.push((r.last().0, advance(r.last().1, steps[r.len() - 1]))));
            assert forall|a: int, b: int| 0 <= a < b < t.len() implies (#[trigger] t[a]).0 != (
            #[trigger] t[b]).0 by {
                if b == t.len() - 1 {
                    assert(t[a] == rest[a]);
                    let k = choose|k: int| 0 <= k < p.len() && p[k].0 == (#[trigger] rest[a]).0;
                    assert(r[k] == p[k]);
                    assert(r[k].0 != r[r.len() - 1].0);
                } else {
                    assert(t[a] == rest[a] && t[b] == rest[b]);
                }
            }
            assert forall|a: int| 0 <= a < t.len() implies (#[trigger] t[a]).1.len() > 0 by {
                if a < rest.len() {
                    assert(t[a] == rest[a]);
                }
            }
            assert forall|a: int| 0 <= a < t.len() implies exists|k: int|
                0 <= k < r.len() && r[k].0 == (#[trigger] t[a]).0 by {
                if a < rest.len() {
                    assert(t[a] == rest[a]);
                } else {
                    assert(r[r.len() - 1].0 == t[a].0);
                }
            }
        }
    }
}

/// After a tick the animations of the sprite of track `k` are what `advance`
/// makes of them.
pub proof fn lemma_tick_entries<C>(
    r: Seq<(u128, Seq<Animation<C>>)>,
    steps: Seq<Seq<Option<Step<C>>>>,
    k: int,
)
    requires
        tracks_ok(r),
        steps.len() == r.len(),
        0 <= k < r.len(),
    ensures
        entries_in(map_of(tick(r, steps)), r[k].0) == advance(r[k].1, steps[k]),
    decreases r.len(),
{
    let n = r.len() - 1;
    let p = r.drop_last();
    let sp = steps.take(n);
    let rest = tick(p, sp);
    let a = advance(r[n].1, steps[n]);
    assert(tracks_ok(p)) by {
        assert forall|x: int, y: int| 0 <= x < y < p.len() implies (#[trigger] p[x]).0 != (
        #[trigger] p[y]).0 by {
            assert(r[x] == p[x] && r[y] == p[y]);
        }
        assert forall|x: int| 0 <= x < p.len() implies (#[trigger] p[x]).1.len() > 0 by {
            assert(r[x] == p[x]);
        }
    }
    if a.len() > 0 {
        assert(tick(r, steps) == rest.push((r[n].0, a)));
        assert(rest.push((r[n].0, a)).drop_last() =~= rest);
    } else {
        assert(tick(r, steps) == rest);
    }
    if k == n {
        if a.len() == 0 {
            lemma_tick_ok(p, sp);
            lemma_map_of_keys(rest, r[n].0);
            if map_of(rest).contains_key(r[n].0) {
                let b = choose|b: int| 0 <= b < rest.len() && (#[trigger] rest[b]).0 == r[n].0;
                let j = choose|j: int| 0 <= j < p.len() && p[j].0 == (#[trigger] rest[b]).0;
                assert(r[j] == p[j]);
            }
            assert(a =~= Seq::<Animation<C>>::empty());
        }
    } else {
        assert(p[k] == r[k]);
        assert(sp[k] == steps[k]);
        lemma_tick_entries(p, sp, k);
    }
}

pub proof fn lemma_first_of<C>(es: Seq<Animation<C>>, template: u64, i: int)
    requires
        0 <= i < es.len(),
        es[i].template == template,
        forall|j: int| 0 <= j < i ==> (#[trigger] es[j]).template != template,
    ensures
        first_of(es, template) == Some(i),
{
    let c = choose|c: int|
        0 <= c < es.len() && (#[trigger] es[c]).template == template && forall|j: int|
            0 <= j < c ==> (#[trigger] es[j]).template != template;
    assert(es[i].template == template);
    if c < i {
        assert(es[c].template != template);
    } else if c > i {
        assert(es[i].template != template);
    }
}

pub proof fn lemma_map_of_keys<C>(r: Seq<(u128, Seq<Animation<C>>)>, id: u128)
    ensures
        map_of(r).contains_key(id) <==> exists|k: int| 0 <= k < r.len() && (#[trigger] r[k]).0 == id,
        tracks_ok(r) ==> forall|k: int|
            0 <= k < r.len() && (#[trigger] r[k]).0 == id ==> map_of(r)[id] == r[k].1,
    decreases r.len(),
{
    if r.len() > 0 {
        let p = r.drop_last();
        lemma_map_of_keys(p, id);
        if exists|k: int| 0 <= k < p.len() && (#[trigger] p[k]).0 == id {
            let k = choose|k: int| 0 <= k < p.len() && (#[trigger] p[k]).0 == id;
            assert(r[k] == p[k]);
        }
        if exists|k: int| 0 <= k < r.len() && (#[trigger] r[k]).0 == id {
            let k = choose|k: int| 0 <= k < r.len() && (#[trigger] r[k]).0 == id;
            if k < r.len() - 1 {
                assert(p[k] == r[k]);
            }
        }
        if tracks_ok(r) {
            assert forall|k: int| 0 <= k < r.len() && (#[trigger] r[k]).0 == id implies map_of(
                r,
            )[id] == r[k].1 by {
                if k < r.len() - 1 {
                    assert(p[k] == r[k]);
                    assert(tracks_ok(p));
                }
            }
        }
    }
}

/// Taking track `k` out drops its sprite from the map and its animations from the total.
pub proof fn lemma_remove_track<C>(r: Seq<(u128, Seq<Animation<C>>)>, k: int)
    requires
        tracks_ok(r),
        0 <= k < r.len(),
    ensures
        tracks_ok(r.remove(k)),
        map_of(r.remove(k)) == map_of(r).remove(r[k].0),
        total(r.remove(k)) + r[k].1.len() == total(r),
    decreases r.len(),
{
    let q = r.remove(k);
    assert forall|id: u128| #[trigger] map_of(q).contains_key(id) <==> map_of(r).remove(
        r[k].0,
    ).contains_key(id) by {
        lemma_map_of_keys(q, id);
        lemma_map_of_keys(r, id);
        if map_of(q).contains_key(id) {
            let j = choose|j: int| 0 <= j < q.len() && (#[trigger] q[j]).0 == id;
            if j < k {
                assert(q[j] == r[j]);
            } else {
                assert(q[j] == r[j + 1]);
            }
        }
        if id != r[k].0 && map_of(r).contains_key(id) {
            let j = choose|j: int| 0 <= j < r.len() && (#[trigger] r[j]).0 == id;
            if j < k {
                assert(q[j] == r[j]);
            } else {
                assert(q[j - 1] == r[j]);
            }
        }
    }
    assert forall|id: u128| #[trigger] map_of(q).contains_key(id) implies map_of(q)[id] == map_of(
        r,
    )[id] by {
        lemma_map_of_keys(q, id);
        lemma_map_of_keys(r, id);
        let j = choose|j: int| 0 <= j < q.len() && (#[trigger] q[j]).0 == id;
        if j < k {
            assert(q[j] == r[j]);
        } else {
            assert(q[j] == r[j + 1]);
        }
    }
    assert(map_of(q) =~= map_of(r).remove(r[k].0));
    if k == r.len() - 1 {
        assert(q =~= r.drop_last());
    } else {
        let p = r.drop_last();
        lemma_remove_track(p, k);
        assert(p.remove(k) =~= q.drop_last());
    }
}

} // verus!
