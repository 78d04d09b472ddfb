use hex_factory::engine::rng::{uid, Rand, KW, KX, KY, KZ};

#[test]
fn seed_is_mixed_into_the_first_two_words() {
    let rng = Rand::new(42);
    assert_eq!(rng, Rand { x: KX ^ 42, y: KY ^ 42, z: KZ, w: KW });
    assert_eq!(Rand::new(0), Rand { x: 123456789, y: 362436069, z: 521288629, w: 88675123 });
}

#[test]
fn rand_steps_through_the_known_sequence() {
    let mut rng = Rand::new(0);
    let values: Vec<u32> = (0..5).map(|_| rng.rand()).collect();
    assert_eq!(values, vec![3701687786, 458299110, 2500872618, 3633119408, 516391518]);
    let mut other = Rand::new(42);
    assert_eq!(other.rand(), 3701609616);
}

#[test]
fn rand_moves_the_words_up() {
    let mut rng = Rand::new(0);
    let value = rng.rand();
    assert_eq!((rng.x, rng.y, rng.z, rng.w), (362436069, 521288629, 88675123, value));
}

#[test]
fn rand_range_stays_within_its_bounds() {
    let mut rng = Rand::new(7);
    let values: Vec<i32> = (0..6).map(|_| rng.rand_range(-3, 3)).collect();
    assert_eq!(values, vec![3, 0, 3, -1, -1, 1]);
    let mut same = Rand::new(1);
    for _ in 0..20 {
        assert_eq!(same.rand_range(5, 5), 5);
    }
}

#[test]
fn uids_are_positive_and_follow_the_generator() {
    let mut rng = Rand::new(0);
    assert_eq!(uid(&mut rng), 1554204140);
    assert_eq!(uid(&mut rng), 458299111);
    assert_eq!(uid(&mut rng), 353388972);
    for _ in 0..100 {
        let id = uid(&mut rng);
        assert!(id >= 1 && id <= i32::MAX as u32);
    }
}

#[test]
fn shuffle_permutes_by_the_numbers_of_the_generator() {
    let mut rng = Rand::new(0);
    let mut numbers = [0, 1, 2, 3, 4, 5];
    rng.shuffle(&mut numbers);
    assert_eq!(numbers, [1, 4, 3, 5, 0, 2]);
    assert_eq!((rng.x, rng.y, rng.z, rng.w), (458299110, 2500872618, 3633119408, 516391518));

    let mut letters = ['a', 'b', 'c', 'd'];
    Rand::new(5).shuffle(&mut letters);
    assert_eq!(letters, ['b', 'c', 'a', 'd']);
}

#[test]
fn shuffle_of_nothing_or_of_one_element_changes_nothing() {
    let mut rng = Rand::new(3);
    let before = rng;
    let mut none: [u8; 0] = [];
    rng.shuffle(&mut none);
    assert_eq!(rng, before);
    let mut one = [9];
    rng.shuffle(&mut one);
    assert_eq!(one, [9]);
    assert_eq!(rng, before);
}
