use scene::registry::{Status, Step};
use scene::scene::Scene;
use scene::sprite::Sprite;

type Demo = Scene<&'static str, u64>;

/// Steps every animation that is not paused: its cursor moves on by `dt`,
/// and it reports `Succeeded` once the cursor reaches `end`.
fn steps_for(scene: &Demo, dt: u64, end: u64) -> Vec<Vec<Option<Step<u64>>>> {
    let mut all = Vec::new();
    for track in scene.animations().iter() {
        let mut row = Vec::new();
        for a in track.entries.iter() {
            if a.paused {
                row.push(None);
            } else {
                let cursor = a.cursor + dt;
                let status = if cursor >= end { Status::Succeeded } else { Status::Running };
                row.push(Some(Step { cursor, status }));
            }
        }
        all.push(row);
    }
    all
}

fn cursors_of(scene: &Demo, id: u128) -> Vec<(u64, u64, bool)> {
    for track in scene.animations().iter() {
        if track.id == id {
            return track.entries.iter().map(|a| (a.template, a.cursor, a.paused)).collect();
        }
    }
    Vec::new()
}

fn tree() -> Sprite<&'static str> {
    let mut a = Sprite::with_id(10, "a");
    let mut b = Sprite::with_id(11, "b");
    b.add_child(Sprite::with_id(12, "c"));
    a.add_child(b);
    a.add_child(Sprite::with_id(13, "d"));
    a
}

#[test]
fn example_scenario() {
    let mut scene: Demo = Scene::new();
    let a = scene.add_child(Sprite::with_id(1, "a"));
    assert_eq!(scene.running(), 0);
    scene.run(a, 7, 0);
    assert_eq!(scene.running(), 1);
    scene.pause(a, 7);
    let steps = steps_for(&scene, 100, 300);
    scene.event(steps);
    assert_eq!(scene.running(), 1);
    assert_eq!(cursors_of(&scene, a), vec![(7, 0, true)]);
    scene.resume(a, 7);
    let steps = steps_for(&scene, 100, 300);
    scene.event(steps);
    assert_eq!(cursors_of(&scene, a), vec![(7, 100, false)]);
    for _ in 0..2 {
        let steps = steps_for(&scene, 100, 300);
        scene.event(steps);
    }
    assert_eq!(scene.running(), 0);
    let removed = scene.remove_child(a);
    assert_eq!(removed.map(|s| s.id), Some(1));
    assert_eq!(scene.running(), 0);
}

#[test]
fn run_then_stop_counts() {
    let mut scene: Demo = Scene::new();
    let a = scene.add_child(Sprite::with_id(1, "a"));
    scene.run(a, 3, 0);
    scene.run(a, 4, 0);
    assert_eq!(scene.running(), 2);
    scene.run(a, 5, 0);
    assert_eq!(scene.running(), 3);
    scene.stop(a, 5);
    assert_eq!(scene.running(), 2);
    scene.stop(a, 99);
    assert_eq!(scene.running(), 2);
    scene.stop(a, 3);
    scene.stop(a, 4);
    assert_eq!(scene.running(), 0);
    assert!(scene.animations().is_empty());
}

#[test]
fn run_on_several_sprites() {
    let mut scene: Demo = Scene::new();
    scene.run(1, 3, 0);
    scene.run(2, 3, 0);
    scene.run(1, 4, 0);
    assert_eq!(scene.running(), 3);
    assert_eq!(scene.animations().len(), 2);
    assert_eq!(cursors_of(&scene, 1), vec![(3, 0, false), (4, 0, false)]);
}

#[test]
fn toggle_twice_restores_flag() {
    let mut scene: Demo = Scene::new();
    scene.run(1, 3, 5);
    scene.run(1, 4, 6);
    scene.toggle(1, 3);
    assert_eq!(cursors_of(&scene, 1), vec![(4, 6, false), (3, 5, true)]);
    scene.toggle(1, 3);
    assert_eq!(cursors_of(&scene, 1), vec![(4, 6, false), (3, 5, false)]);
}

#[test]
fn pause_resume_move_to_end() {
    let mut scene: Demo = Scene::new();
    scene.run(1, 3, 0);
    scene.run(1, 4, 0);
    scene.pause(1, 3);
    assert_eq!(cursors_of(&scene, 1), vec![(4, 0, false), (3, 0, true)]);
    scene.resume(1, 3);
    assert_eq!(cursors_of(&scene, 1), vec![(4, 0, false), (3, 0, false)]);
    scene.pause(1, 42);
    scene.resume(2, 3);
    scene.toggle(2, 3);
    assert_eq!(cursors_of(&scene, 1), vec![(4, 0, false), (3, 0, false)]);
}

#[test]
fn same_template_twice_finds_first() {
    let mut scene: Demo = Scene::new();
    scene.run(1, 3, 10);
    scene.run(1, 3, 20);
    scene.pause(1, 3);
    assert_eq!(cursors_of(&scene, 1), vec![(3, 20, false), (3, 10, true)]);
    scene.stop(1, 3);
    assert_eq!(cursors_of(&scene, 1), vec![(3, 10, true)]);
}

#[test]
fn pause_ticks_resume_equals_unpaused_progress() {
    let mut paused: Demo = Scene::new();
    let mut plain: Demo = Scene::new();
    paused.add_child(Sprite::with_id(1, "a"));
    plain.add_child(Sprite::with_id(1, "a"));
    paused.run(1, 3, 0);
    plain.run(1, 3, 0);
    paused.pause(1, 3);
    for _ in 0..4 {
        let steps = steps_for(&paused, 10, 1000);
        paused.event(steps);
    }
    paused.resume(1, 3);
    for _ in 0..3 {
        let steps = steps_for(&paused, 10, 1000);
        paused.event(steps);
        let steps = steps_for(&plain, 10, 1000);
        plain.event(steps);
    }
    assert_eq!(cursors_of(&paused, 1), cursors_of(&plain, 1));
    assert_eq!(cursors_of(&plain, 1), vec![(3, 30, false)]);
}

#[test]
fn stop_all_drops_sprite() {
    let mut scene: Demo = Scene::new();
    scene.run(1, 3, 0);
    scene.run(1, 4, 0);
    scene.pause(1, 4);
    scene.run(2, 3, 0);
    scene.stop_all(1);
    assert_eq!(scene.running(), 1);
    assert!(scene.animations().iter().all(|t| t.id != 1));
    scene.stop_all(1);
    assert_eq!(scene.running(), 1);
}

#[test]
fn remove_cascades_to_nested() {
    let mut scene: Demo = Scene::new();
    scene.add_child(tree());
    scene.add_child(Sprite::with_id(20, "e"));
    for id in [10u128, 11, 12, 13, 20] {
        scene.run(id, 1, 0);
    }
    assert_eq!(scene.running(), 5);
    let removed = scene.remove_child(11).unwrap();
    assert_eq!(removed.id, 11);
    assert_eq!(removed.children.len(), 1);
    assert_eq!(scene.running(), 3);
    assert!(scene.child(12).is_none());
    let mut left: Vec<u128> = scene.animations().iter().map(|t| t.id).collect();
    left.sort();
    assert_eq!(left, vec![10, 13, 20]);
    let removed = scene.remove_child(10).unwrap();
    assert_eq!(removed.children.len(), 1);
    assert_eq!(scene.running(), 1);
    assert!(scene.remove_child(10).is_none());
    assert_eq!(scene.running(), 1);
}

#[test]
fn find_at_any_depth() {
    let mut scene: Demo = Scene::new();
    scene.add_child(tree());
    assert_eq!(scene.child(10).map(|s| s.data), Some("a"));
    assert_eq!(scene.child(12).map(|s| s.data), Some("c"));
    assert_eq!(scene.child(13).map(|s| s.data), Some("d"));
    assert!(scene.child(99).is_none());
    scene.child_mut(12).unwrap().data = "changed";
    assert_eq!(scene.child(12).map(|s| s.data), Some("changed"));
    assert!(scene.child_mut(99).is_none());
}

#[test]
fn add_returns_own_id() {
    let mut scene: Demo = Scene::new();
    let s = Sprite::new("x");
    let expected = s.id;
    let id = scene.add_child(s);
    assert_eq!(id, expected);
    assert_eq!(scene.child(id).map(|s| s.data), Some("x"));
}

#[test]
fn fresh_ids_are_version_four() {
    let a: Sprite<()> = Sprite::new(());
    let b: Sprite<()> = Sprite::new(());
    assert_ne!(a.id, b.id);
    assert_eq!((a.id >> 76) & 0xf, 4);
    assert_eq!((a.id >> 62) & 0x3, 2);
}

#[test]
fn index_follows_removals() {
    let mut scene: Demo = Scene::new();
    for id in 1..=5u128 {
        scene.add_child(Sprite::with_id(id, "s"));
    }
    assert!(scene.remove_child(2).is_some());
    assert!(scene.remove_child(4).is_some());
    scene.add_child(Sprite::with_id(6, "s"));
    let ids: Vec<u128> = scene.children().iter().map(|s| s.id).collect();
    assert_eq!(ids, vec![1, 3, 5, 6]);
    for id in [1u128, 3, 5, 6] {
        assert_eq!(scene.child(id).map(|s| s.id), Some(id));
    }
    assert!(scene.remove_child(1).is_some());
    assert!(scene.remove_child(6).is_some());
    let ids: Vec<u128> = scene.children().iter().map(|s| s.id).collect();
    assert_eq!(ids, vec![3, 5]);
    assert_eq!(scene.child(5).map(|s| s.id), Some(5));
    assert!(scene.child(2).is_none());
}

#[test]
fn finished_leave_at_once() {
    let mut scene: Demo = Scene::new();
    scene.add_child(Sprite::with_id(1, "a"));
    scene.add_child(Sprite::with_id(2, "b"));
    scene.run(1, 3, 0);
    scene.run(1, 4, 50);
    scene.run(2, 5, 0);
    let steps = steps_for(&scene, 60, 100);
    scene.event(steps);
    assert_eq!(scene.running(), 2);
    assert_eq!(cursors_of(&scene, 1), vec![(3, 60, false)]);
    let mut failing = steps_for(&scene, 10, 100);
    for row in failing.iter_mut() {
        for s in row.iter_mut() {
            if let Some(step) = s {
                step.status = Status::Failed;
            }
        }
    }
    scene.event(failing);
    assert_eq!(scene.running(), 0);
    assert!(scene.animations().is_empty());
}

#[test]
fn paused_untouched_by_tick() {
    let mut scene: Demo = Scene::new();
    scene.add_child(Sprite::with_id(1, "a"));
    scene.run(1, 3, 7);
    scene.run(1, 4, 8);
    scene.pause(1, 3);
    let steps = steps_for(&scene, 5, 10);
    scene.event(steps);
    assert_eq!(cursors_of(&scene, 1), vec![(3, 7, true)]);
    let steps = steps_for(&scene, 5, 10);
    scene.event(steps);
    assert_eq!(cursors_of(&scene, 1), vec![(3, 7, true)]);
}

#[test]
fn nested_removal_keeps_the_rest() {
    let mut scene: Demo = Scene::new();
    scene.add_child(Sprite::with_id(1, "x"));
    scene.add_child(tree());
    scene.add_child(Sprite::with_id(2, "y"));
    let removed = scene.remove_child(12).unwrap();
    assert_eq!((removed.id, removed.data), (12, "c"));
    let ids: Vec<u128> = scene.children().iter().map(|s| s.id).collect();
    assert_eq!(ids, vec![1, 10, 2]);
    let a = scene.child(10).unwrap();
    let kids: Vec<u128> = a.children.iter().map(|s| s.id).collect();
    assert_eq!(kids, vec![11, 13]);
    assert!(scene.child(11).unwrap().children.is_empty());
    assert_eq!(scene.child(2).map(|s| s.data), Some("y"));
}

#[test]
fn removed_top_level_sprite_keeps_its_children() {
    let mut scene: Demo = Scene::new();
    scene.add_child(tree());
    let removed = scene.remove_child(10).unwrap();
    assert_eq!(removed.data, "a");
    assert_eq!(removed.children.len(), 2);
    assert_eq!(removed.child(12).map(|s| s.data), Some("c"));
    assert!(scene.children().is_empty());
}

#[test]
fn lookup_prefers_top_level_then_depth_first() {
    let mut scene: Demo = Scene::new();
    let mut first = Sprite::with_id(1, "first");
    first.add_child(Sprite::with_id(7, "deep-first"));
    let mut second = Sprite::with_id(2, "second");
    second.add_child(Sprite::with_id(7, "deep-second"));
    scene.add_child(first);
    scene.add_child(second);
    assert_eq!(scene.child(7).map(|s| s.data), Some("deep-first"));
    assert_eq!(scene.child_mut(7).map(|s| s.data), Some("deep-first"));
    assert_eq!(scene.child(2).map(|s| s.data), Some("second"));
}

#[test]
fn orphan_names_a_missing_sprite() {
    let mut scene: Demo = Scene::new();
    scene.add_child(Sprite::with_id(1, "a"));
    scene.run(1, 3, 0);
    assert_eq!(scene.orphan(), None);
    scene.run(9, 3, 0);
    assert_eq!(scene.orphan(), Some(9));
    scene.pause(9, 3);
    assert_eq!(scene.orphan(), None);
    scene.add_child(tree());
    scene.run(12, 4, 0);
    assert_eq!(scene.orphan(), None);
    scene.stop_all(9);
    scene.remove_child(10);
    assert_eq!(scene.orphan(), None);
}
