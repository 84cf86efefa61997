use for_each_repeat::{ForEachRepeat, LoopControl};

#[test]
fn it_works() {
    let mut values = 0;
    let mut repeat_counter = 0;
    let res = (0..=10).for_each_repeat(|x| {
        if x % 2 == 0 {
            return LoopControl::unit_continue();
        }

        values *= 10;
        values += x;

        if x == 3 && repeat_counter <= 3 {
            repeat_counter += 1;
            return LoopControl::Repeat(x);
        }
        if x >= 8 {
            return LoopControl::Break(x);
        }

        LoopControl::unit_continue()
    });

    assert_eq!(res, Some(9));
    assert_eq!(values, 133_333_579);
}

#[test]
fn smallest_divisor_of_323() {
    let r = (2..100).for_each_repeat(|x| {
        if 323 % x == 0 {
            return LoopControl::Break(x);
        }
        LoopControl::Continue(())
    });
    assert_eq!(r, Some(17));
}

#[test]
fn smallest_divisor_of_403() {
    let r = (2..100).for_each_repeat(|x| {
        if 403 % x == 0 {
            return LoopControl::Break(x);
        }
        LoopControl::unit_continue()
    });
    assert_eq!(r, Some(13));
}

#[test]
fn repeat_through_mutable_references() {
    let mut xs = vec![1, 2, 3, 4, 5];
    let break_value: Option<()> = xs.iter_mut().for_each_repeat(|x| {
        if *x < 5 {
            *x += 1;
            return LoopControl::Repeat(x);
        }
        LoopControl::unit_continue()
    });
    assert_eq!(xs, &[5; 5]);
    assert_eq!(break_value, None);
}

#[test]
fn empty_source_makes_no_call() {
    let mut calls = 0;
    let r: Option<u32> = (0..0).for_each_repeat(|_x: u32| {
        calls += 1;
        LoopControl::<u32, (), u32>::Break(7)
    });
    assert_eq!(r, None);
    assert_eq!(calls, 0);
}

#[test]
fn continue_only_visits_each_element_in_order() {
    let mut seen = Vec::new();
    let mut it = vec![4, 8, 15, 16, 23, 42].into_iter();
    let r: Option<()> = it.for_each_repeat(|x| {
        seen.push(x);
        LoopControl::unit_continue()
    });
    assert_eq!(r, None);
    assert_eq!(seen, vec![4, 8, 15, 16, 23, 42]);
    assert_eq!(it.next(), None);
}

#[test]
fn break_stops_without_pulling_more() {
    let mut calls = 0;
    let mut it = 0..10;
    let r = it.for_each_repeat(|x| {
        calls += 1;
        if x == 3 {
            return LoopControl::Break(x * 100);
        }
        LoopControl::unit_continue()
    });
    assert_eq!(r, Some(300));
    assert_eq!(calls, 4);
    assert_eq!(it.next(), Some(4));
}

#[test]
fn break_on_the_first_call() {
    let mut it = 5..8;
    let r = it.for_each_repeat(|x| LoopControl::<i32, (), i32>::Break(x));
    assert_eq!(r, Some(5));
    assert_eq!(it.next(), Some(6));
}

#[test]
fn repeat_n_times_gives_n_plus_one_calls_per_element() {
    let mut calls = Vec::new();
    let mut pending = 3;
    let r: Option<()> = vec![10, 20].into_iter().for_each_repeat(|x| {
        calls.push(x);
        if x < 20 && pending > 0 {
            pending -= 1;
            return LoopControl::Repeat(x + 1);
        }
        LoopControl::unit_continue()
    });
    assert_eq!(r, None);
    assert_eq!(calls, vec![10, 11, 12, 13, 20]);
}

#[test]
fn repeat_does_not_advance_the_source() {
    let mut it = 0..5;
    let mut first = true;
    let r = it.for_each_repeat(|x| {
        if first {
            first = false;
            return LoopControl::Repeat(x + 40);
        }
        LoopControl::<i32, (), i32>::Break(x)
    });
    assert_eq!(r, Some(40));
    assert_eq!(it.next(), Some(1));
}

#[test]
fn without_repeat_matches_try_for_each() {
    let decide = |x: u32| {
        if x * x > 50 {
            LoopControl::Break(x)
        } else {
            LoopControl::Continue(())
        }
    };
    let mut seen_a = Vec::new();
    let a = (1..20u32).for_each_repeat(|x| {
        seen_a.push(x);
        decide(x)
    });
    let mut seen_b = Vec::new();
    let b = match (1..20u32).try_for_each(|x| {
        seen_b.push(x);
        match decide(x) {
            LoopControl::Break(v) => Err(v),
            _ => Ok(()),
        }
    }) {
        Err(v) => Some(v),
        Ok(()) => None,
    };
    assert_eq!(a, Some(8));
    assert_eq!(a, b);
    assert_eq!(seen_a, seen_b);
}

#[test]
fn unit_signals() {
    assert_eq!(LoopControl::<(), u8, u8>::unit_break(), LoopControl::Break(()));
    assert_eq!(LoopControl::<u8, (), u8>::unit_continue(), LoopControl::Continue(()));
    assert_eq!(LoopControl::<u8, u8, ()>::unit_repeat(), LoopControl::Repeat(()));
}

#[test]
fn unit_break_ends_the_loop() {
    let mut it = 1..4;
    let r = it.for_each_repeat(|x| {
        if x == 2 {
            return LoopControl::unit_break();
        }
        LoopControl::Continue(())
    });
    assert_eq!(r, Some(()));
    assert_eq!(it.next(), Some(3));
}

#[test]
fn text_of_each_variant() {
    assert_eq!(
        LoopControl::<i32, i32, i32>::Break(5).to_text(),
        "LoopControl::Break(5)"
    );
    assert_eq!(
        LoopControl::<i32, &str, i32>::Continue("go").to_text(),
        "LoopControl::Continue(go)"
    );
    assert_eq!(
        LoopControl::<i32, i32, char>::Repeat('x').to_text(),
        "LoopControl::Repeat(x)"
    );
}

#[test]
fn variant_names() {
    assert_eq!(LoopControl::<u8, u8, u8>::Break(1).variant_name(), "Break");
    assert_eq!(LoopControl::<u8, u8, u8>::Continue(1).variant_name(), "Continue");
    assert_eq!(LoopControl::<u8, u8, u8>::Repeat(1).variant_name(), "Repeat");
}
