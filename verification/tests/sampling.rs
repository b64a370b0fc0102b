use scratchgen::sampling::{SampleError, Sampler};

fn run(mut s: Sampler, choose: impl Fn(usize) -> usize) -> Vec<usize> {
    while s.prepare() {
        let pos = choose(s.candidates().len());
        s.record(pos);
    }
    s.into_picks()
}

#[test]
fn without_replacement_never_repeats() {
    let s = Sampler::without_replacement(4, 4, false).unwrap();
    let picks = run(s, |len| len - 1);
    assert_eq!(picks, vec![3, 2, 1, 0]);
}

#[test]
fn without_replacement_removes_drawn_image() {
    let s = Sampler::without_replacement(3, 3, false).unwrap();
    let picks = run(s, |_| 0);
    assert_eq!(picks, vec![0, 1, 2]);
}

#[test]
fn too_many_draws_are_refused_without_repeats() {
    assert!(matches!(Sampler::without_replacement(3, 4, false), Err(SampleError::PoolTooSmall)));
}

#[test]
fn repeats_refill_the_pool_per_round() {
    let s = Sampler::without_replacement(2, 5, true).unwrap();
    let picks = run(s, |_| 0);
    assert_eq!(picks, vec![0, 1, 0, 1, 0]);
}

#[test]
fn rounds_show_every_image_once() {
    let s = Sampler::without_replacement(3, 9, true).unwrap();
    let picks = run(s, |len| len / 2);
    for round in picks.chunks(3) {
        let mut r = round.to_vec();
        r.sort();
        assert_eq!(r, vec![0, 1, 2]);
    }
}

#[test]
fn independent_draws_always_see_all_images() {
    let mut s = Sampler::independent_draws(3, 4);
    let mut picks = Vec::new();
    while s.prepare() {
        assert_eq!(s.candidates(), &vec![0, 1, 2]);
        s.record(2);
        picks.push(2);
    }
    assert_eq!(s.into_picks(), picks);
    assert_eq!(picks.len(), 4);
}

#[test]
fn zero_draws_are_done_at_once() {
    let mut s = Sampler::independent_draws(0, 0);
    assert!(!s.prepare());
    assert!(s.into_picks().is_empty());
}

#[test]
fn repeats_change_nothing_within_the_pool() {
    let with = run(Sampler::without_replacement(5, 5, true).unwrap(), |len| len / 2);
    let without = run(Sampler::without_replacement(5, 5, false).unwrap(), |len| len / 2);
    assert_eq!(with, without);
    assert_eq!(with, vec![2, 3, 1, 4, 0]);
}

#[test]
fn candidates_keep_their_order_between_draws() {
    let mut s = Sampler::without_replacement(4, 2, false).unwrap();
    assert!(s.prepare());
    assert_eq!(s.candidates(), &vec![0, 1, 2, 3]);
    s.record(1);
    assert!(s.prepare());
    assert_eq!(s.candidates(), &vec![0, 2, 3]);
}
