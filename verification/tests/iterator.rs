use pushgen::{IteratorAdaptor, SliceGenerator, StageExt, StoppingGen, Take, Then};

#[test]
fn iter_over_slice() {
    let data = [1, 2, 3, 4, 5];
    let mut sum = 0;
    let mut iter = IteratorAdaptor::new(SliceGenerator::new(&data));
    while let Some(x) = iter.next() {
        sum += x;
    }

    assert_eq!(sum, data.iter().sum());
}

#[test]
fn fold() {
    let data = [1, 2, 3, 4, 5];

    let sum = SliceGenerator::new(&data)
        .iter()
        .fold(0i32, |acc: i32, elem: &i32| acc + elem);

    assert_eq!(sum, data.iter().sum())
}

#[test]
fn next_yields_each_value_then_none() {
    let data = [7, 8];
    let mut iter = SliceGenerator::new(&data).iter();
    assert_eq!(iter.next(), Some(&7));
    assert_eq!(iter.next(), Some(&8));
    assert_eq!(iter.next(), None);
    assert_eq!(iter.next(), None);
}

#[test]
fn fold_applies_the_function_left_to_right() {
    let data = [1, 2, 3];
    let digits = SliceGenerator::new(&data)
        .iter()
        .fold(0i32, |acc: i32, elem: &i32| acc * 10 + elem);
    assert_eq!(digits, 123);
}

#[test]
fn fold_drives_an_interrupting_source_to_completion() {
    let data = [1, 2, 3];
    for stop_at in -1..6 {
        let digits = StoppingGen::new(stop_at, &data)
            .iter()
            .fold(0i32, |acc: i32, elem: &i32| acc * 10 + elem);
        assert_eq!(digits, 123);
    }
}

fn first_three<'a>(x: &&'a [i32; 4]) -> Then<SliceGenerator<'a, i32>, Take<&'a i32>> {
    SliceGenerator::new(x.as_slice()).take(3)
}

#[test]
fn fold_goes_on_after_inner_chains_that_end_with_stopped() {
    let data = [[1, 2, 3, 4], [5, 6, 7, 8]];
    let sum = SliceGenerator::new(&data)
        .transform(first_three)
        .flatten()
        .iter()
        .fold(0i32, |acc: i32, elem: &i32| acc + elem);
    assert_eq!(sum, 1 + 2 + 3 + 5 + 6 + 7);
}

#[test]
fn fold_of_nothing_is_the_initial_value() {
    let data: [i32; 0] = [];
    let sum = SliceGenerator::new(&data)
        .iter()
        .fold(7i32, |acc: i32, elem: &i32| acc + elem);
    assert_eq!(sum, 7);
}

#[test]
fn next_goes_on_after_a_run_that_is_interrupted_before_any_value() {
    let data = [4, 5];
    let mut iter = StoppingGen::new(0, &data).iter();
    assert_eq!(iter.next(), Some(&4));
    assert_eq!(iter.next(), Some(&5));
    assert_eq!(iter.next(), None);
    assert_eq!(iter.next(), None);
}

#[test]
fn next_yields_what_fold_folds() {
    let data = [[1, 2, 3, 4], [5, 6, 7, 8]];
    let folded = SliceGenerator::new(&data)
        .transform(first_three)
        .flatten()
        .iter()
        .fold(0i32, |acc: i32, elem: &i32| acc * 10 + elem);
    let mut iter = SliceGenerator::new(&data)
        .transform(first_three)
        .flatten()
        .iter();
    let mut pulled = 0i32;
    while let Some(x) = iter.next() {
        pulled = pulled * 10 + x;
    }
    assert_eq!(pulled, 123567);
    assert_eq!(folded, pulled);
}

#[test]
fn next_over_a_source_that_interrupts_at_every_position() {
    let data = [1, 2, 3];
    for stop_at in -1..6 {
        let mut iter = StoppingGen::new(stop_at, &data).iter();
        assert_eq!(iter.next(), Some(&1));
        assert_eq!(iter.next(), Some(&2));
        assert_eq!(iter.next(), Some(&3));
        assert_eq!(iter.next(), None);
    }
}
