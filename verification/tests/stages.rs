use pushgen::{Generator, GeneratorResult, SliceGenerator, StageExt, StoppingGen};

fn inner_values<'a>(x: &&'a Vec<i32>) -> SliceGenerator<'a, i32> {
    SliceGenerator::new(x.as_slice())
}

fn values(output: Vec<&i32>) -> Vec<i32> {
    output.into_iter().copied().collect()
}

#[test]
fn dedup_collapses_consecutive_duplicates() {
    let data = [1, 1, 2, 2, 3, 3];
    let mut chain = SliceGenerator::new(&data).dedup();
    let (result, output) = chain.run(Vec::new());
    assert_eq!(result, GeneratorResult::Complete);
    assert_eq!(values(output), [1, 2, 3]);
}

#[test]
fn dedup_keeps_values_that_return_later() {
    let data = [1, 1, 2, 1, 1, 3, 3, 3, 1];
    let mut chain = SliceGenerator::new(&data).dedup();
    let (_, output) = chain.run(Vec::new());
    assert_eq!(values(output), [1, 2, 1, 3, 1]);
}

#[test]
fn dedup_of_nothing_is_nothing() {
    let data: [i32; 0] = [];
    let mut chain = SliceGenerator::new(&data).dedup();
    let (result, output) = chain.run(Vec::new());
    assert_eq!(result, GeneratorResult::Complete);
    assert!(output.is_empty());
}

#[test]
fn dedup_twice_is_dedup_once() {
    let data = [4, 4, 4, 7, 7, 4, 9, 9, 9, 9, 7];
    let (_, once) = SliceGenerator::new(&data).dedup().run(Vec::new());
    let (_, twice) = SliceGenerator::new(&data).dedup().dedup().run(Vec::new());
    assert_eq!(values(once.clone()), [4, 7, 4, 9, 7]);
    assert_eq!(once, twice);
}

#[test]
fn dedup_remembers_the_last_value_across_an_interruption() {
    let data = [5, 5, 5, 6];
    let mut chain = StoppingGen::new(2, &data).dedup();
    let (first, output) = chain.run(Vec::new());
    assert_eq!(first, GeneratorResult::Stopped);
    assert_eq!(values(output.clone()), [5]);
    let (second, output) = chain.run(output);
    assert_eq!(second, GeneratorResult::Complete);
    assert_eq!(values(output), [5, 6]);
}

#[test]
fn take_fewer_than_the_source_holds() {
    let data = [1, 2, 3, 4, 5];
    let mut chain = SliceGenerator::new(&data).take(2);
    let (result, output) = chain.run(Vec::new());
    assert_eq!(result, GeneratorResult::Stopped);
    assert_eq!(values(output), [1, 2]);
}

#[test]
fn take_completes_at_once_after_the_count_is_used_up() {
    let data = [1, 2, 3, 4, 5];
    let mut chain = SliceGenerator::new(&data).take(2);
    let (_, output) = chain.run(Vec::new());
    let (second, output) = chain.run(output);
    assert_eq!(second, GeneratorResult::Complete);
    let (third, output) = chain.run(output);
    assert_eq!(third, GeneratorResult::Complete);
    assert_eq!(values(output), [1, 2]);
}

#[test]
fn take_stops_the_upstream_with_the_last_value_it_hands_on() {
    let data = [1, 2, 3, 4, 5];
    let mut chain = SliceGenerator::new(&data).take(2);
    let (_, _) = chain.run(Vec::new());
    let (mut upstream, _) = chain.into_parts();
    let (result, rest) = upstream.run(Vec::new());
    assert_eq!(result, GeneratorResult::Complete);
    assert_eq!(values(rest), [3, 4, 5]);
}

#[test]
fn take_more_than_the_source_holds() {
    let data = [1, 2, 3];
    let mut chain = SliceGenerator::new(&data).take(7);
    let (result, output) = chain.run(Vec::new());
    assert_eq!(result, GeneratorResult::Complete);
    assert_eq!(values(output), [1, 2, 3]);
}

#[test]
fn take_exactly_what_the_source_holds() {
    let data = [1, 2, 3];
    let mut chain = SliceGenerator::new(&data).take(3);
    let (first, output) = chain.run(Vec::new());
    assert_eq!(first, GeneratorResult::Stopped);
    assert_eq!(values(output.clone()), [1, 2, 3]);
    let (second, output) = chain.run(output);
    assert_eq!(second, GeneratorResult::Complete);
    assert_eq!(values(output), [1, 2, 3]);
}

#[test]
fn take_nothing_completes_without_touching_the_source() {
    let data = [1, 2, 3];
    let mut chain = SliceGenerator::new(&data).take(0);
    let (result, output) = chain.run(Vec::new());
    assert_eq!(result, GeneratorResult::Complete);
    assert!(output.is_empty());
    let (mut upstream, _) = chain.into_parts();
    let (_, rest) = upstream.run(Vec::new());
    assert_eq!(values(rest), [1, 2, 3]);
}

#[test]
fn take_counts_over_several_runs() {
    let data = [1, 2, 3, 4, 5, 6];
    let mut chain = StoppingGen::new(2, &data).take(4);
    let (first, output) = chain.run(Vec::new());
    assert_eq!(first, GeneratorResult::Stopped);
    assert_eq!(values(output.clone()), [1, 2]);
    let (second, output) = chain.run(output);
    assert_eq!(second, GeneratorResult::Stopped);
    assert_eq!(values(output.clone()), [1, 2, 3, 4]);
    let (third, output) = chain.run(output);
    assert_eq!(third, GeneratorResult::Complete);
    assert_eq!(values(output), [1, 2, 3, 4]);
}

#[test]
fn take_yields_the_smaller_of_count_and_length() {
    let data = [10, 20, 30, 40];
    for n in 0..8usize {
        let mut chain = SliceGenerator::new(&data).take(n);
        let (result, output) = chain.run(Vec::new());
        let expected = n.min(data.len());
        assert_eq!(values(output), data[..expected]);
        let stopped = 0 < n && n <= data.len();
        assert_eq!(result == GeneratorResult::Stopped, stopped);
    }
}

#[test]
fn skip_drops_the_first_values() {
    let data = [1, 2, 3, 4, 5];
    let mut chain = SliceGenerator::new(&data).skip(2);
    let (result, output) = chain.run(Vec::new());
    assert_eq!(result, GeneratorResult::Complete);
    assert_eq!(values(output), [3, 4, 5]);
}

#[test]
fn skip_more_than_the_source_holds() {
    let data = [1, 2, 3];
    let mut chain = SliceGenerator::new(&data).skip(5);
    let (result, output) = chain.run(Vec::new());
    assert_eq!(result, GeneratorResult::Complete);
    assert!(output.is_empty());
}

#[test]
fn skip_yields_the_tail_for_every_count() {
    let data = [10, 20, 30, 40];
    for n in 0..8usize {
        let mut chain = SliceGenerator::new(&data).skip(n);
        let (result, output) = chain.run(Vec::new());
        let dropped = n.min(data.len());
        assert_eq!(output.len(), data.len() - dropped);
        assert_eq!(values(output), data[dropped..]);
        assert_eq!(result, GeneratorResult::Complete);
    }
}

#[test]
fn skip_counts_over_several_runs() {
    let data = [1, 2, 3, 4, 5];
    let mut chain = StoppingGen::new(1, &data).skip(3);
    let (first, output) = chain.run(Vec::new());
    assert_eq!(first, GeneratorResult::Stopped);
    assert!(output.is_empty());
    let (second, output) = chain.run(output);
    assert_eq!(second, GeneratorResult::Complete);
    assert_eq!(values(output), [4, 5]);
}

#[test]
fn filter_keeps_the_values_that_satisfy_the_predicate() {
    let data = [1, 2, 3, 4, 5, 6];
    let mut chain = SliceGenerator::new(&data).filter(|x: &&i32| **x % 2 == 0);
    let (result, output) = chain.run(Vec::new());
    assert_eq!(result, GeneratorResult::Complete);
    assert_eq!(values(output), [2, 4, 6]);
}

#[test]
fn transform_maps_every_value() {
    let data = [1, 2, 3];
    let mut chain = SliceGenerator::new(&data).transform(|x: &&i32| **x * 2);
    let (result, output) = chain.run(Vec::new());
    assert_eq!(result, GeneratorResult::Complete);
    assert_eq!(output, [2, 4, 6]);
}

#[test]
fn filter_and_transform_agree_with_the_standard_iterator() {
    let data: Vec<i32> = (-50..50).collect();
    let mut chain = SliceGenerator::new(data.as_slice())
        .filter(|x: &&i32| **x % 3 != 0)
        .transform(|x: &&i32| **x * **x - 7)
        .filter(|x: &i32| *x % 2 == 1)
        .transform(|x: &i32| *x / 5);
    let (result, output) = chain.run(Vec::new());
    let expected: Vec<i32> = data
        .iter()
        .filter(|x| **x % 3 != 0)
        .map(|x| *x * *x - 7)
        .filter(|x| *x % 2 == 1)
        .map(|x| x / 5)
        .collect();
    assert_eq!(result, GeneratorResult::Complete);
    assert_eq!(output, expected);
}

#[test]
fn dedup_flatten_filter_map_agrees_with_the_standard_iterator() {
    let mut data: Vec<i32> = Vec::new();
    for x in 0..100_000 / 4 {
        data.push(x);
        data.push(x);
        data.push(x);
        data.push(x);
    }
    let mut replicated: Vec<Vec<i32>> = Vec::new();
    for _ in 0..10 {
        replicated.push(data.clone());
    }

    let mut expected = 0i32;
    let mut kept: Vec<&Vec<i32>> = replicated.iter().collect();
    kept.dedup();
    kept.into_iter()
        .flatten()
        .filter(|x| *x % 2 == 0)
        .map(|x| x * 3)
        .for_each(|x| expected = expected.wrapping_add(x));

    let mut result = 0i32;
    let finish = SliceGenerator::new(replicated.as_slice())
        .dedup()
        .transform(inner_values)
        .flatten()
        .filter(|x: &&i32| **x % 2 == 0)
        .transform(|x: &&i32| **x * 3)
        .for_each(|x| result = result.wrapping_add(x));

    assert_eq!(finish, GeneratorResult::Complete);
    assert_eq!(result, expected);
    assert_eq!(result, 1874850000);
}

#[test]
fn duplicates_filtered_and_tripled_agree_with_the_standard_iterator() {
    let mut data: Vec<i32> = Vec::new();
    for x in 1..=100_000 {
        data.push(x);
        data.push(x);
    }
    let mut expected = 0i32;
    data.iter()
        .filter(|x| *x % 2 == 0)
        .map(|x| x.wrapping_mul(3))
        .for_each(|x| expected = expected.wrapping_add(x));

    let mut result = 0i32;
    let finish = SliceGenerator::new(data.as_slice())
        .filter(|x: &&i32| **x % 2 == 0)
        .transform(|x: &&i32| x.wrapping_mul(3))
        .for_each(|x| result = result.wrapping_add(x));
    assert_eq!(finish, GeneratorResult::Complete);
    assert_eq!(result, expected);
}

#[test]
fn a_stage_behind_an_exhausted_source_completes_with_nothing() {
    let data = [1, 2];
    let mut chain = SliceGenerator::new(&data).skip(1);
    let (_, output) = chain.run(Vec::new());
    assert_eq!(values(output), [2]);
    let (again, output) = chain.run(Vec::new());
    assert_eq!(again, GeneratorResult::Complete);
    assert!(output.is_empty());
}
