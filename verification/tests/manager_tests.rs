use qumulus::manager::{evict_choice, find_nearest, find_path, Loader, MAX_LOADED_HARD};
use qumulus::path::Path;

#[test]
fn test_find_nearest() {
    let root = Path::new(vec![]);
    let moo = Path::new(vec!["moo".into()]);
    let moo_cow = Path::new(vec!["moo".into(), "cow".into()]);
    let moo_cow_cow = Path::new(vec!["moo".into(), "cow".into(), "cow".into()]);

    let mut active: Vec<(Path, ())> = vec![];
    let nearest = |active: &Vec<(Path, ())>, p: &Path| active[find_nearest(active, p).unwrap()].0.clone();

    active.push((root.clone(), ()));
    assert_eq!(nearest(&active, &moo), root);
    assert_eq!(nearest(&active, &moo_cow), root);
    assert_eq!(nearest(&active, &moo_cow_cow), root);

    active.push((moo_cow.clone(), ()));
    assert_eq!(nearest(&active, &moo), root);
    assert_eq!(nearest(&active, &moo_cow), moo_cow);
    assert_eq!(nearest(&active, &moo_cow_cow), moo_cow);

    active.push((moo.clone(), ()));
    assert_eq!(nearest(&active, &moo), moo);
    assert_eq!(nearest(&active, &moo_cow), moo_cow);
    assert_eq!(nearest(&active, &moo_cow_cow), moo_cow);
}

#[test]
fn find_nearest_without_root() {
    let active: Vec<(Path, ())> = vec![(Path::new(vec!["cow".into()]), ())];
    assert_eq!(find_nearest(&active, &Path::new(vec!["moo".into()])), None);
}

#[test]
fn loader_queues_past_hard_limit() {
    let mut loader: Loader<u32> = Loader::new();
    for z in 0..(MAX_LOADED_HARD as u32 + 1) {
        assert_eq!(loader.zone_request_load(z), Some(z));
    }
    assert_eq!(loader.loaded, MAX_LOADED_HARD + 1);
    assert_eq!(loader.zone_request_load(7777), None);
    assert_eq!(loader.zone_request_load(8888), None);
    assert_eq!(loader.loaded, MAX_LOADED_HARD + 1);
    assert_eq!(loader.zone_hibernated(), Some(7777));
    assert_eq!(loader.loaded, MAX_LOADED_HARD + 1);
    assert_eq!(loader.zone_hibernated(), Some(8888));
    assert_eq!(loader.zone_hibernated(), None);
    assert_eq!(loader.loaded, MAX_LOADED_HARD);
}

#[test]
fn evict_choice_cases() {
    // at most the soft limit: nothing to do
    assert_eq!(evict_choice(600, 0, 0, 5), None);
    // nothing evictable
    assert_eq!(evict_choice(0, 700, 0, 5), None);
    // overflow of 10: r % 200 / 2 must not exceed it
    assert_eq!(evict_choice(605, 5, 20, 1234), Some(1234 % 605));
    assert_eq!(evict_choice(605, 5, 22, 1234), None);
    assert_eq!(evict_choice(605, 5, 221, 3), Some(3));
}

#[test]
fn find_path_finds_exact_entry() {
    let active: Vec<(Path, u32)> = vec![
        (Path::new(vec![]), 0),
        (Path::new(vec!["moo".into()]), 1),
        (Path::new(vec!["moo".into(), "cow".into()]), 2),
    ];
    assert_eq!(find_path(&active, &Path::new(vec!["moo".into()])), Some(1));
    assert_eq!(find_path(&active, &Path::new(vec![])), Some(0));
    assert_eq!(find_path(&active, &Path::new(vec!["cow".into()])), None);
}
