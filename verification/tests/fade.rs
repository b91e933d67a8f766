use sim3dview::fade::{Fades, MAX_FADE_ENTRIES};
use sim3dview::loader::MeshKey;

const KEY: MeshKey = (35, 138, 3);
const FADE_DURATION_MS: f64 = 350.0;

/// Whether a fade that started at `start` still runs at `now`.
fn running_at(now: f64) -> impl Fn(&f64) -> bool {
    move |start: &f64| now - *start < FADE_DURATION_MS
}

#[test]
fn replacing_keeps_the_old_mesh_until_the_fade_ends() {
    let mut fades: Fades<&str, f64> = Fades::new();
    assert!(!fades.is_active());
    fades.replace(KEY, Some("old"), 1000.0);
    assert!(fades.is_active());
    assert_eq!(fades.outgoing().len(), 1);
    assert_eq!(fades.incoming_start(KEY), Some(1000.0));

    fades.finish(running_at(1000.0 + FADE_DURATION_MS - 1.0));
    assert!(fades.is_active());
    assert_eq!(fades.outgoing().len(), 1);

    fades.finish(running_at(1000.0 + FADE_DURATION_MS));
    assert!(!fades.is_active());
    assert!(fades.outgoing().is_empty());
    assert_eq!(fades.incoming_start(KEY), None);
}

#[test]
fn a_new_mesh_without_an_old_one_only_fades_in() {
    let mut fades: Fades<&str, f64> = Fades::new();
    fades.replace(KEY, None, 0.0);
    assert!(fades.has_incoming());
    assert!(fades.outgoing().is_empty());
}

#[test]
fn replacing_again_during_a_fade_drops_the_older_mesh() {
    let mut fades: Fades<&str, f64> = Fades::new();
    fades.replace(KEY, Some("level1"), 0.0);
    fades.replace(KEY, Some("level2"), 100.0);
    let names: Vec<&str> = fades.outgoing().iter().map(|o| o.mesh).collect();
    assert_eq!(names, ["level2"]);
    assert_eq!(fades.outgoing()[0].start_ms, 100.0);
    assert_eq!(fades.incoming_start(KEY), Some(100.0));
}

#[test]
fn removing_fades_the_mesh_out_and_cancels_its_fade_in() {
    let mut fades: Fades<&str, f64> = Fades::new();
    fades.replace(KEY, None, 0.0);
    fades.remove(KEY, "gone", 50.0);
    assert!(!fades.has_incoming());
    assert_eq!(fades.outgoing().len(), 1);
    fades.finish(running_at(50.0 + FADE_DURATION_MS));
    assert!(!fades.is_active());
}

#[test]
fn cancel_and_clear_end_fades_immediately() {
    let mut fades: Fades<&str, f64> = Fades::new();
    fades.replace(KEY, Some("a"), 0.0);
    fades.replace((1, 2, 3), Some("b"), 0.0);
    fades.cancel(KEY);
    assert_eq!(fades.incoming_start(KEY), None);
    assert_eq!(fades.outgoing().len(), 1);
    fades.clear();
    assert!(!fades.is_active());
}

#[test]
fn room_runs_out_at_the_table_size() {
    let mut fades: Fades<u32, f64> = Fades::new();
    for i in 0..MAX_FADE_ENTRIES as i32 {
        assert!(fades.has_room());
        fades.replace((i, 0, 0), None, 0.0);
    }
    assert!(!fades.has_room());
}

#[test]
fn fades_of_other_meshes_are_kept() {
    let mut fades: Fades<u8, u64> = Fades::new();
    fades.replace((0, 0, 0), Some(1), 10);
    fades.replace((0, 0, 1), Some(2), 20);
    fades.cancel((0, 0, 0));
    assert!(fades.is_incoming((0, 0, 1)));
    assert!(!fades.is_incoming((0, 0, 0)));
    assert_eq!(fades.outgoing()[0].key, (0, 0, 1));
    fades.finish(|start: &u64| *start > 15);
    assert_eq!(fades.outgoing().len(), 1);
    fades.finish(|start: &u64| *start > 25);
    assert!(!fades.is_active());
}
