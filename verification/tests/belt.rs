use hex_factory::game::models::belt::{Belt, Error};

#[test]
fn init_01() {
    const CAPACITY: usize = 5;
    let belt: Belt<u32> = Belt::new(CAPACITY);

    assert!(!belt.can_take());
    assert!(belt.can_put());
    assert_eq!(belt.capacity(), CAPACITY);
    assert_eq!(belt.count(), 0);
}

#[test]
fn put_01() {
    const CAPACITY: usize = 5;
    let mut belt: Belt<u32> = Belt::new(CAPACITY);

    assert_eq!(belt.put(101), Ok(()));

    assert!(!belt.can_take());
    assert!(!belt.can_put());
    assert_eq!(belt.capacity(), CAPACITY);
    assert_eq!(belt.count(), 1);
}

#[test]
fn put_to_saturate_01() {
    const CAPACITY: usize = 5;
    let mut belt = Belt::new(CAPACITY);

    for i in 1..=CAPACITY {
        assert!(belt.can_put());
        assert_eq!(belt.capacity(), CAPACITY);
        assert_eq!(belt.count(), i - 1);

        assert_eq!(belt.put(i), Ok(()));

        assert!(!belt.can_put());
        assert_eq!(belt.capacity(), CAPACITY);
        assert_eq!(belt.count(), i);

        if i < CAPACITY {
            assert_eq!(belt.advance(), Some(CAPACITY));
        } else {
            assert_eq!(belt.advance(), None);
        }
    }

    assert!(belt.can_take());
    assert!(!belt.can_put());
    assert_eq!(belt.capacity(), CAPACITY);
    assert_eq!(belt.count(), 5);
}

#[test]
fn take_to_empty_01() {
    const CAPACITY: usize = 5;
    let mut belt = Belt::new(CAPACITY);

    for i in 1..=CAPACITY {
        let _ = belt.put(i);
        belt.advance();
    }

    assert!(belt.can_take());
    assert!(!belt.can_put());
    assert_eq!(belt.capacity(), CAPACITY);
    assert_eq!(belt.count(), 5);

    for i in 1..=CAPACITY {
        assert_eq!(belt.take(), Ok(i));
        assert_eq!(belt.advance(), Some(CAPACITY));
    }

    assert!(!belt.can_take());
    assert!(belt.can_put());
    assert_eq!(belt.capacity(), CAPACITY);
    assert_eq!(belt.count(), 0);
}

#[test]
fn put_with_gaps_01() {
    const CAPACITY: usize = 5;
    let mut belt = Belt::new(CAPACITY);

    let _ = belt.put('a');
    belt.advance();
    belt.advance();

    println!("{:?}", &belt);
    assert!(!belt.can_take());
    assert!(belt.can_put());
    assert_eq!(belt.capacity(), CAPACITY);
    assert_eq!(belt.count(), 1);
}

#[test]
fn put_with_gaps_02() {
    const CAPACITY: usize = 5;
    let mut belt = Belt::new(CAPACITY);

    let _ = belt.put('a');
    belt.advance();
    belt.advance();
    belt.advance();
    belt.advance();

    println!("{:?}", &belt);
    assert!(belt.can_take());
    assert!(belt.can_put());
    assert_eq!(belt.capacity(), CAPACITY);
    assert_eq!(belt.count(), 1);
}

#[test]
fn put_with_gaps_03() {
    const CAPACITY: usize = 5;
    let mut belt = Belt::new(CAPACITY);

    let _ = belt.put('a');
    belt.advance();
    let _ = belt.put('b');
    belt.advance();

    let _ = belt.put('c');
    belt.advance();
    belt.advance();

    let _ = belt.put('d');

    println!("{:?}", &belt);
    assert_eq!(belt.advance(), Some(2));
}

#[test]
fn take_from_empty_belt_fails() {
    let mut belt: Belt<u32> = Belt::new(3);
    assert_eq!(belt.take(), Err(Error::Empty));
    assert_eq!(belt.count(), 0);
    assert_eq!(belt.peek_front(), None);
    assert_eq!(belt.peek_back(), None);
}

#[test]
fn put_on_occupied_back_slot_fails() {
    let mut belt: Belt<u32> = Belt::new(3);
    assert_eq!(belt.put(7), Ok(()));
    assert_eq!(belt.peek_back(), Some(&7));
    assert_eq!(belt.put(8), Err(Error::Full));
    assert_eq!(belt.count(), 1);
    assert_eq!(belt.peek_back(), Some(&7));
}

#[test]
fn item_is_not_at_the_front_until_it_has_advanced() {
    let mut belt: Belt<u32> = Belt::new(3);
    assert_eq!(belt.put(7), Ok(()));
    assert_eq!(belt.peek_front(), None);
    assert_eq!(belt.take(), Err(Error::Empty));
    assert_eq!(belt.advance(), Some(3));
    assert_eq!(belt.peek_front(), None);
    assert_eq!(belt.advance(), Some(3));
    assert_eq!(belt.peek_front(), Some(&7));
    assert_eq!(belt.advance(), Some(2));
    assert_eq!(belt.advance(), Some(2));
    assert_eq!(belt.take(), Ok(7));
    assert_eq!(belt.count(), 0);
}

#[test]
fn equal_items_share_a_run_and_come_out_one_by_one() {
    let mut belt: Belt<u32> = Belt::new(4);
    for _ in 0..4 {
        assert_eq!(belt.put(9), Ok(()));
        belt.advance();
    }
    assert_eq!(belt.count(), 4);
    assert_eq!(belt.advance(), None);
    for left in (0..4).rev() {
        assert_eq!(belt.take(), Ok(9));
        assert_eq!(belt.count(), left);
        assert_eq!(belt.take(), Err(Error::Empty));
        assert_eq!(belt.advance(), Some(4));
    }
    assert_eq!(belt.take(), Err(Error::Empty));
}

#[test]
fn items_come_out_in_the_order_they_went_in() {
    let mut belt: Belt<char> = Belt::new(6);
    let mut out: Vec<char> = Vec::new();
    for c in ['x', 'y', 'y', 'z'] {
        assert_eq!(belt.put(c), Ok(()));
        belt.advance();
    }
    for _ in 0..20 {
        if let Ok(c) = belt.take() {
            out.push(c);
        }
        belt.advance();
    }
    assert_eq!(out, vec!['x', 'y', 'y', 'z']);
    assert_eq!(belt.count(), 0);
}

#[test]
fn count_is_puts_minus_takes_and_never_over_capacity() {
    let mut belt: Belt<u32> = Belt::new(3);
    let mut puts = 0usize;
    let mut takes = 0usize;
    for round in 0..40u32 {
        if round % 3 != 2 && belt.put(round).is_ok() {
            puts += 1;
        }
        belt.advance();
        if round % 4 == 3 && belt.take().is_ok() {
            takes += 1;
        }
        assert_eq!(belt.count(), puts - takes);
        assert!(belt.count() <= belt.capacity());
    }
    assert!(puts > takes);
    assert!(takes > 0);
}

#[test]
fn clear_frees_every_slot() {
    let mut belt: Belt<u32> = Belt::new(2);
    assert_eq!(belt.put(1), Ok(()));
    belt.advance();
    assert_eq!(belt.put(2), Ok(()));
    assert_eq!(belt.count(), 2);
    belt.clear();
    assert_eq!(belt.count(), 0);
    assert_eq!(belt.capacity(), 2);
    assert!(belt.can_put());
    assert!(!belt.can_take());
    assert_eq!(belt.advance(), Some(2));
}

#[test]
fn belt_of_one_slot_passes_items_through() {
    let mut belt: Belt<u32> = Belt::new(1);
    assert_eq!(belt.put(5), Ok(()));
    assert_eq!(belt.put(6), Err(Error::Full));
    assert_eq!(belt.advance(), None);
    assert_eq!(belt.take(), Ok(5));
    assert_eq!(belt.advance(), Some(1));
    assert_eq!(belt.put(6), Ok(()));
    assert_eq!(belt.take(), Ok(6));
}

#[test]
fn belt_without_slots_takes_and_gives_nothing() {
    let mut belt: Belt<u32> = Belt::new(0);
    assert_eq!(belt.capacity(), 0);
    assert!(!belt.can_put());
    assert!(!belt.can_take());
    assert_eq!(belt.put(1), Err(Error::Full));
    assert_eq!(belt.take(), Err(Error::Empty));
    assert_eq!(belt.advance(), None);
    assert_eq!(belt.count(), 0);
}
