use llm_scratch_rs::dataloader::DataLoader;

#[test]
fn windows_overlap_and_targets_are_shifted() {
    let loader = DataLoader::new(vec![10, 20, 30, 40, 50], 3, 1);
    assert_eq!(loader.len(), 2);
    assert!(!loader.is_empty());
    assert_eq!(loader.get_item(0), (vec![10, 20, 30], vec![20, 30, 40]));
    assert_eq!(loader.get_item(1), (vec![20, 30, 40], vec![30, 40, 50]));
}

#[test]
fn short_streams_have_no_windows() {
    let loader = DataLoader::new(vec![1, 2, 3], 3, 1);
    assert_eq!(loader.len(), 0);
    assert!(loader.is_empty());
    assert!(loader.iter().next().is_none());
}

#[test]
fn the_walk_gives_every_window_once() {
    let loader = DataLoader::new(vec![1, 2, 3, 4, 5, 6], 2, 2);
    let mut walk = loader.iter();
    assert_eq!(walk.next(), Some((vec![1, 2], vec![2, 3])));
    assert_eq!(walk.next(), Some((vec![3, 4], vec![4, 5])));
    assert_eq!(walk.next(), None);
}
