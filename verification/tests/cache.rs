use rust_db::cache::{add_size, Cache};

#[test]
pub fn test_cache() {
    let mut cache = Cache::new();
    assert_eq!(vec![(false, 0..=usize::MAX)], cache.chunks());
    assert!(cache.get(0).is_none());
    assert!(cache.gets(0, None).is_none());
    assert!(cache.is_empty());

    cache.inserts(0, vec![4, 9, 1]);
    assert_eq!(vec![(true, 0..=2), (false, 3..=usize::MAX)], cache.chunks());
    assert_eq!(Some(9), cache.get(1));
    assert_eq!(Some(vec![4, 9, 1]), cache.gets(0, None));
    assert!(!cache.is_empty());

    cache.inserts(5, vec![5, 0, 3]);
    assert_eq!(
        vec![
            (true, 0..=2),
            (false, 3..=4),
            (true, 5..=7),
            (false, 8..=usize::MAX)
        ],
        cache.chunks()
    );
    assert_eq!(Some(5), cache.get(5));
    assert_eq!(None, cache.get(4));
    assert_eq!(Some(vec![4, 9, 1]), cache.gets(0, Some(3)));
    assert_eq!(Some(vec![4, 9, 1, 5, 0, 3]), cache.gets(0, None));
    assert_eq!(Some(vec![5, 0, 3]), cache.gets(5, Some(3)));

    cache.inserts(3, vec![6, 9]);
    assert_eq!(vec![(true, 0..=7), (false, 8..=usize::MAX)], cache.chunks());
    assert_eq!(Some(5), cache.get(5));
    assert_eq!(Some(9), cache.get(4));
    assert_eq!(Some(vec![4, 9, 1, 6, 9, 5, 0, 3]), cache.gets(0, None));

    cache.move_cache(3, 3);
    assert_eq!(
        vec![
            (true, 0..=2),
            (false, 3..=5),
            (true, 6..=10),
            (false, 11..=usize::MAX)
        ],
        cache.chunks()
    );
    assert_eq!(None, cache.get(5));
    assert_eq!(None, cache.get(4));
    assert_eq!(Some(5), cache.get(8));
    assert_eq!(Some(9), cache.get(7));
    assert_eq!(Some(vec![4, 9, 1, 6, 9, 5, 0, 3]), cache.gets(0, None));

    cache.move_cache(3, -3);
    assert_eq!(vec![(true, 0..=7), (false, 8..=usize::MAX)], cache.chunks());
    assert_eq!(Some(5), cache.get(5));
    assert_eq!(Some(9), cache.get(4));
    assert_eq!(Some(vec![4, 9, 1, 6, 9, 5, 0, 3]), cache.gets(0, None));
}

#[test]
fn cache_follows_an_insert_and_its_undoing() {
    let mut cache = Cache::new();
    cache.inserts(0, vec![4, 9, 1]);
    cache.inserts(3, vec![6, 9]);
    assert_eq!(vec![(true, 0..=4), (false, 5..=usize::MAX)], cache.chunks());
    assert_eq!(Some(vec![4, 9, 1, 6, 9]), cache.gets(0, None));
    cache.move_cache(3, 2);
    assert_eq!(
        vec![(true, 0..=2), (false, 3..=4), (true, 5..=6), (false, 7..=usize::MAX)],
        cache.chunks()
    );
    cache.remove(5, Some(2));
    cache.move_cache(3, -2);
    assert_eq!(vec![(true, 0..=2), (false, 3..=usize::MAX)], cache.chunks());
    assert_eq!(Some(vec![4, 9, 1]), cache.gets(0, None));
    assert_eq!(3, cache.len());
}

#[test]
fn cache_remove_trims_drops_and_splits() {
    let mut cache = Cache::new();
    cache.inserts(10, vec![0, 1, 2, 3, 4, 5, 6, 7, 8, 9]);
    cache.remove(13, Some(4));
    assert_eq!(
        vec![
            (false, 0..=9),
            (true, 10..=12),
            (false, 13..=16),
            (true, 17..=19),
            (false, 20..=usize::MAX)
        ],
        cache.chunks()
    );
    assert_eq!(6, cache.len());
    assert_eq!(Some(7), cache.get(17));
    cache.remove(0, Some(12));
    assert_eq!(Some(2), cache.get(12));
    assert_eq!(None, cache.get(11));
    cache.remove(12, Some(0));
    assert_eq!(4, cache.len());
    cache.remove(18, None);
    assert_eq!(
        vec![
            (false, 0..=11),
            (true, 12..=12),
            (false, 13..=16),
            (true, 17..=17),
            (false, 18..=usize::MAX)
        ],
        cache.chunks()
    );
    cache.insert(13, 30);
    cache.insert(16, 60);
    assert_eq!(Some(vec![2, 30]), cache.gets(12, Some(3)));
    cache.inserts(14, vec![40, 50]);
    assert_eq!(
        vec![(false, 0..=11), (true, 12..=17), (false, 18..=usize::MAX)],
        cache.chunks()
    );
    assert_eq!(Some(vec![2, 30, 40, 50, 60, 7]), cache.gets(12, None));
    cache.clear();
    assert!(cache.is_empty());
    assert_eq!(0, cache.len());
}

#[test]
fn cache_reaches_the_last_position() {
    let mut cache = Cache::new();
    cache.insert(usize::MAX, 1u8);
    assert_eq!(vec![(false, 0..=usize::MAX - 1), (true, usize::MAX..=usize::MAX)], cache.chunks());
    assert_eq!(Some(vec![1]), cache.gets(usize::MAX, Some(5)));
    cache.insert(0, 2u8);
    assert_eq!(
        vec![(true, 0..=0), (false, 1..=usize::MAX - 1), (true, usize::MAX..=usize::MAX)],
        cache.chunks()
    );
}

#[test]
fn add_size_moves_both_ways() {
    assert_eq!(add_size(5, 3), 8);
    assert_eq!(add_size(5, -5), 0);
    assert_eq!(add_size(usize::MAX, isize::MIN), usize::MAX - (1 << (usize::BITS - 1)));
}
