use coach_app::playback::PlayerState;

#[test]
fn sequential_order_wraps_around() {
    let mut p = PlayerState::new(false);
    assert_eq!(p.next_track(3, true, 0), Some(0));
    p.current = Some(2);
    assert_eq!(p.next_track(3, true, 0), Some(0));
    assert_eq!(p.next_track(3, false, 0), Some(1));
    p.current = Some(0);
    assert_eq!(p.next_track(3, false, 0), Some(2));
    assert_eq!(p.next_track(0, true, 0), None);
}

#[test]
fn next_then_previous_returns() {
    let mut p = PlayerState::new(false);
    for len in 1..6usize {
        for c in 0..len {
            p.current = Some(c);
            let n = p.next_track(len, true, 0).unwrap();
            p.current = Some(n);
            assert_eq!(p.next_track(len, false, 0), Some(c));
        }
    }
}

#[test]
fn shuffle_queue_holds_every_other_track_once() {
    for seed in [0usize, 1, 42, 123456789, usize::MAX] {
        let mut p = PlayerState::new(true);
        p.current = Some(2);
        let first = p.next_track(6, true, seed).unwrap();
        let mut q = p.queue.clone();
        assert_eq!(p.pos, 1);
        assert_eq!(first, q[0]);
        q.sort();
        assert_eq!(q, vec![0, 1, 3, 4, 5]);
        // Play the queue out; the next draw holds every track.
        for _ in 1..5 {
            p.next_track(6, true, seed).unwrap();
        }
        assert_eq!(p.pos, 5);
        p.next_track(6, true, seed ^ 7).unwrap();
        let mut all = p.queue.clone();
        all.sort();
        assert_eq!(all, vec![0, 1, 2, 3, 4, 5]);
        assert_eq!(p.pos, 1);
    }
}

#[test]
fn shuffle_matches_fisher_yates_with_the_generator() {
    let mut p = PlayerState::new(true);
    p.next_track(4, true, 5).unwrap();
    let mut all: Vec<usize> = vec![1, 2, 3];
    let mut seed: usize = 5;
    for i in (1..all.len()).rev() {
        seed = seed.wrapping_mul(1103515245).wrapping_add(12345);
        all.swap(i, seed % (i + 1));
    }
    assert_eq!(p.queue, all);
}

#[test]
fn selecting_and_activating() {
    let mut p = PlayerState::new(true);
    p.queue = vec![3, 1];
    p.pos = 1;
    assert_eq!(p.select_track(1, 4), Some(1));
    assert_eq!(p.current, Some(1));
    assert!(p.playing);
    assert!(p.queue.is_empty());
    assert_eq!(p.pos, 0);
    assert_eq!(p.activate_track(9, 4), None);
    assert_eq!(p.current, Some(1));
    p.visual_selection = u64::MAX;
    assert_eq!(p.activate_track(0, 4), Some(0));
}

#[test]
fn deleting_tracks() {
    let mut p = PlayerState::new(false);
    p.current = Some(3);
    p.playing = true;
    assert!(!p.delete_track(5, 5));
    assert!(p.delete_track(1, 5));
    assert_eq!(p.current, Some(2));
    assert!(p.delete_track(4, 4) == false);
    assert!(p.delete_track(3, 4));
    assert_eq!(p.current, Some(2));
    assert!(p.playing);
    assert!(p.delete_track(2, 3));
    assert_eq!(p.current, None);
    assert!(!p.playing);
}

#[test]
fn play_next_plays() {
    let mut p = PlayerState::new(false);
    assert!(p.play_next(3, true).is_some());
    assert_eq!(p.current, Some(0));
    assert!(p.playing);
    let mut s = PlayerState::new(true);
    assert!(s.play_next(3, true).is_some());
    assert!(matches!(s.current, Some(1) | Some(2)));
}

#[test]
fn removing_a_track_from_the_list() {
    let mut p = PlayerState::new(false);
    p.current = Some(2);
    p.playing = true;
    let mut tracks = vec!["a", "b", "c"];
    assert_eq!(p.remove_track(&mut tracks, 5), None);
    assert_eq!(tracks, vec!["a", "b", "c"]);
    assert_eq!(p.remove_track(&mut tracks, 0), Some("a"));
    assert_eq!(tracks, vec!["b", "c"]);
    assert_eq!(p.current, Some(1));
    assert_eq!(tracks[p.current.unwrap()], "c");
    assert_eq!(p.remove_track(&mut tracks, 1), Some("c"));
    assert_eq!(p.current, None);
    assert!(!p.playing);
}

#[test]
fn picture_counter_and_reset() {
    let mut p = PlayerState::new(false);
    p.visual_selection = 5;
    assert_eq!(p.select_track(1, 3), Some(6));
    assert_eq!(p.play_next(3, true), Some(7));
    assert_eq!(p.current, Some(2));
    p.visual_selection = u64::MAX;
    assert_eq!(p.play_next(3, true), Some(0));
    assert_eq!(p.current, Some(0));
    p.queue = vec![1, 2];
    p.pos = 1;
    p.shuffle = true;
    p.reset();
    assert_eq!(p.current, None);
    assert!(!p.playing);
    assert!(p.queue.is_empty());
    assert_eq!(p.pos, 0);
    assert!(p.shuffle);
    assert_eq!(p.visual_selection, 0);
}
