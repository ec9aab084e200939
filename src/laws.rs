//! What holds across calls: each law is stated over the spec functions that
//! the operations' own contracts use.
use vstd::prelude::*;
use crate::registry::{advance, after_step, first_of, lemma_first_of, Animation, Step};
use crate::scene::{capped, moved};
use crate::registry::entries_in;

verus! {

/// `template` names animation `i` of `es` and no other.
pub open spec fn only_at<C>(es: Seq<Animation<C>>, template: u64, i: int) -> bool {
    &&& 0 <= i < es.len()
    &&& es[i].template == template
    &&& forall|j: int| 0 <= j < es.len() && j != i ==> (#[trigger] es[j]).template != template
}

/// An animation that was just started is found by its template, so `stop`
/// right after `run` takes back the one that `run` added.
pub proof fn law_started_is_found<C>(es: Seq<Animation<C>>, template: u64, cursor: C)
    ensures
        first_of(es.push(Animation { template, cursor, paused: false }), template) is Some,
{
    let s = es.push(Animation { template, cursor, paused: false });
    assert(s[es.len() as int].template == template);
}

/// `running()` reports a count that grew by one (after `run`) one higher,
/// and one that shrank by one (after `stop`) one lower, while the count fits
/// in a `usize`.
pub proof fn law_running_moves_by_one(before: nat, after: nat)
    ensures
        after == before + 1 && after <= usize::MAX ==> capped(after) == capped(before) + 1,
        after + 1 == before && before <= usize::MAX ==> capped(after) + 1 == capped(before),
{
}

/// Toggling twice, over the registry: if `template` names exactly one
/// animation of sprite `id`, the registry after two toggles is the one before
/// with that animation, unchanged, moved to the end of the sprite's list.
pub proof fn law_toggle_twice_registry<C>(
    m0: Map<u128, Seq<Animation<C>>>,
    m1: Map<u128, Seq<Animation<C>>>,
    m2: Map<u128, Seq<Animation<C>>>,
    id: u128,
    template: u64,
    i: int,
)
    requires
        only_at(entries_in(m0, id), template, i),
        m1 == m0.insert(
            id,
            moved(entries_in(m0, id), i, !entries_in(m0, id)[i].paused),
        ),
        m2 == match first_of(entries_in(m1, id), template) {
            None => m1,
            Some(j) => m1.insert(id, moved(entries_in(m1, id), j, !entries_in(m1, id)[j].paused)),
        },
    ensures
        m2 == m0.insert(id, moved(entries_in(m0, id), i, entries_in(m0, id)[i].paused)),
        entries_in(m2, id).last() == entries_in(m0, id)[i],
{
    let es = entries_in(m0, id);
    law_toggle_twice(es, template, i);
    assert(entries_in(m1, id) == moved(es, i, !es[i].paused));
    assert(m2 =~= m0.insert(id, moved(es, i, es[i].paused)));
}

/// Toggling the same animation twice gives it back its paused flag; it
/// stays at the end where the first toggle moved it, and the others keep
/// their order.
pub proof fn law_toggle_twice<C>(es: Seq<Animation<C>>, template: u64, i: int)
    requires
        only_at(es, template, i),
    ensures
        ({
            let once = moved(es, i, !es[i].paused);
            let last = es.len() - 1;
            &&& first_of(es, template) == Some(i)
            &&& first_of(once, template) == Some(last)
            &&& moved(once, last, !once[last].paused) == moved(es, i, es[i].paused)
            &&& moved(once, last, !once[last].paused)[last] == es[i]
        }),
{
    let once = moved(es, i, !es[i].paused);
    let last = es.len() - 1;
    lemma_first_of(es, template, i);
    assert forall|j: int| 0 <= j < last implies (#[trigger] once[j]).template != template by {
        if j < i {
            assert(once[j] == es[j]);
        } else {
            assert(once[j] == es[j + 1]);
        }
    }
    lemma_first_of(once, template, last);
    assert(moved(once, last, !once[last].paused) =~= moved(es, i, es[i].paused));
}

/// Every animation that is left after a tick comes from one before it by
/// `after_step`: a paused one, as it was, or one whose step reported it
/// running, with the cursor of that step. None whose step succeeded or
/// failed stays.
pub proof fn law_tick_keeps_only_running<C>(es: Seq<Animation<C>>, steps: Seq<Option<Step<C>>>)
    requires
        steps.len() == es.len(),
    ensures
        forall|a: int|
            0 <= a < advance(es, steps).len() ==> {
                let x = #[trigger] advance(es, steps)[a];
                exists|j: int| 0 <= j < es.len() && after_step(es[j], steps[j]) == Some(x)
            },
    decreases es.len(),
{
    if es.len() > 0 {
        let n = es.len() - 1;
        let p = es.drop_last();
        let sp = steps.take(n);
        law_tick_keeps_only_running(p, sp);
        let rest = advance(p, sp);
        let adv = advance(es, steps);
        assert forall|a: int| 0 <= a < adv.len() implies {
            let x = #[trigger] adv[a];
            exists|j: int| 0 <= j < es.len() && after_step(es[j], steps[j]) == Some(x)
        } by {
            if a < rest.len() {
                assert(adv[a] == rest[a]);
                let x = rest[a];
                let j = choose|j: int| 0 <= j < p.len() && after_step(p[j], sp[j]) == Some(x);
                assert(p[j] == es[j] && sp[j] == steps[j]);
            } else {
                assert(after_step(es[n], steps[n]) == Some(adv[a]));
            }
        }
    }
}

/// The paused animations of `es`, in order.
pub open spec fn paused_in<C>(es: Seq<Animation<C>>) -> Seq<Animation<C>> {
    es.filter(|e: Animation<C>| e.paused)
}

proof fn lemma_paused_in_push<C>(es: Seq<Animation<C>>, e: Animation<C>)
    ensures
        paused_in(es.push(e)) == if e.paused {
            paused_in(es).push(e)
        } else {
            paused_in(es)
        },
{
    reveal(Seq::filter);
    assert(es.push(e).drop_last() =~= es);
}

/// A tick leaves the paused animations exactly as they were, in their order.
pub proof fn law_tick_leaves_paused<C>(es: Seq<Animation<C>>, steps: Seq<Option<Step<C>>>)
    requires
        steps.len() == es.len(),
    ensures
        paused_in(advance(es, steps)) == paused_in(es),
    decreases es.len(),
{
    if es.len() > 0 {
        let n = es.len() - 1;
        let p = es.drop_last();
        let sp = steps.take(n);
        law_tick_leaves_paused(p, sp);
        assert(es =~= p.push(es[n]));
        lemma_paused_in_push(p, es[n]);
        let rest = advance(p, sp);
        match after_step(es[n], steps[n]) {
            Some(e) => {
                lemma_paused_in_push(rest, e);
            },
            None => {},
        }
    }
}

/// A paused animation makes no progress across a tick: after `pause`, a
/// tick with any steps, and `resume`, the animation is back, running, with
/// the cursor it had before the pause. Its template still names it alone,
/// so the law applies again for any number of ticks.
pub proof fn law_pause_tick_resume<C>(
    es: Seq<Animation<C>>,
    template: u64,
    i: int,
    steps: Seq<Option<Step<C>>>,
)
    requires
        only_at(es, template, i),
        steps.len() == es.len(),
    ensures
        ({
            let ticked = advance(moved(es, i, true), steps);
            let last = ticked.len() - 1;
            &&& first_of(es, template) == Some(i)
            &&& ticked.len() > 0
            &&& first_of(ticked, template) == Some(last)
            &&& only_at(ticked, template, last)
            &&& ticked[last] == Animation { template, cursor: es[i].cursor, paused: true }
            &&& moved(ticked, last, false)[last] == Animation {
                template,
                cursor: es[i].cursor,
                paused: false,
            }
        }),
{
    lemma_first_of(es, template, i);
    let p = moved(es, i, true);
    let n = p.len() - 1;
    let head = p.drop_last();
    let sp = steps.take(n);
    let ticked = advance(p, steps);
    let rest = advance(head, sp);
    assert(head =~= es.remove(i));
    assert(after_step(p[n], steps[n]) == Some(p[n]));
    assert(ticked == rest.push(p[n]));
    law_tick_keeps_only_running(head, sp);
    assert forall|a: int| 0 <= a < rest.len() implies (#[trigger] ticked[a]).template != template by {
        assert(ticked[a] == rest[a]);
        let x = rest[a];
        let j = choose|j: int| 0 <= j < head.len() && after_step(head[j], sp[j]) == Some(x);
        if j < i {
            assert(head[j] == es[j]);
        } else {
            assert(head[j] == es[j + 1]);
        }
    }
    lemma_first_of(ticked, template, rest.len() as int);
}

} // verus!
