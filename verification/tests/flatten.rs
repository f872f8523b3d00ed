use pushgen::{
    End, Generator, GeneratorResult, Receiver, SliceGenerator, StageExt, StoppingGen, Take, Then,
    ValueResult,
};

struct StopAfter {
    limit: usize,
    seen: Vec<i32>,
}

impl<'a> Receiver<&'a i32> for StopAfter {
    type State = (usize, usize);

    fn inv(&self) -> bool {
        true
    }

    fn state(&self) -> (usize, usize) {
        (self.limit, self.seen.len())
    }

    fn admits(_: (usize, usize), _: &'a i32) -> bool {
        true
    }

    fn signal(state: (usize, usize), _: &'a i32) -> ValueResult {
        ValueResult::from_bool(state.1 + 1 < state.0)
    }

    fn next(state: (usize, usize), _: &'a i32) -> (usize, usize) {
        (state.0, state.1 + 1)
    }

    fn accept(&mut self, value: &'a i32) -> ValueResult {
        let answer = <Self as Receiver<&'a i32>>::signal(self.state(), value);
        self.seen.push(*value);
        answer
    }
}

fn interrupting<'a>(x: &&'a [i32; 4]) -> Then<StoppingGen<'a, i32>, Take<&'a i32>> {
    StoppingGen::new(2, x.as_slice()).take(3)
}

fn over_vec<'a>(x: &&'a Vec<i32>) -> SliceGenerator<'a, i32> {
    SliceGenerator::new(x.as_slice())
}

fn over_array<'a>(x: &&'a [i32; 4]) -> SliceGenerator<'a, i32> {
    SliceGenerator::new(*x)
}

#[test]
fn vector_flatten() {
    let data = vec![vec![1, 2, 3], vec![4, 5, 6], vec![7, 8, 9], vec![10]];
    let mut output: Vec<i32> = Vec::new();
    let result = SliceGenerator::new(data.as_slice())
        .transform(over_vec)
        .flatten()
        .for_each(|x| output.push(*x));

    assert_eq!(output, [1, 2, 3, 4, 5, 6, 7, 8, 9, 10]);
    assert_eq!(result, GeneratorResult::Complete);
}

#[test]
fn slice_flatten() {
    let data = [[1, 2, 3, 4], [5, 6, 7, 8], [9, 10, 11, 12]];
    let mut output = Vec::new();
    let result = SliceGenerator::new(&data)
        .transform(over_array)
        .flatten()
        .for_each(|x| output.push(*x));
    assert_eq!(result, GeneratorResult::Complete);
    assert_eq!(output, [1, 2, 3, 4, 5, 6, 7, 8, 9, 10, 11, 12]);
}

#[test]
fn stopping_generator() {
    let data = [[1, 2, 3, 4], [5, 6, 7, 8], [9, 10, 11, 12]];
    let expected = [1, 2, 3, 4, 5, 6, 7, 8, 9, 10, 11, 12];
    for x in 0..10 {
        let mut gen = StoppingGen::new(x, &data)
            .transform(over_array)
            .flatten();

        let mut output = Vec::new();

        while gen.for_each(|x| output.push(*x)) == GeneratorResult::Stopped {}

        assert_eq!(output, expected);
    }
}

#[test]
fn flatten_skips_empty_inner_sequences() {
    let data: Vec<Vec<i32>> = vec![vec![1, 2, 3], vec![4, 5, 6], vec![7], vec![], vec![8, 9]];
    let mut flat = SliceGenerator::new(data.as_slice())
        .transform(over_vec)
        .flatten();
    let (result, output) = flat.run(Vec::new());
    assert_eq!(result, GeneratorResult::Complete);
    assert_eq!(output, vec![&1, &2, &3, &4, &5, &6, &7, &8, &9]);
}

#[test]
fn flatten_resumes_after_the_fourth_value() {
    let data: Vec<Vec<i32>> = vec![vec![1, 2, 3], vec![4, 5, 6], vec![7], vec![], vec![8, 9]];
    let mut first: Vec<i32> = Vec::new();
    let mut second: Vec<i32> = Vec::new();
    let mut flat = SliceGenerator::new(data.as_slice())
        .transform(over_vec)
        .flatten();
    let (stopped, sink) = flat.run(StopAfter { limit: 4, seen: Vec::new() });
    first.extend(sink.seen);
    let completed = flat.for_each(|x| second.push(*x));
    assert_eq!(stopped, GeneratorResult::Stopped);
    assert_eq!(first, [1, 2, 3, 4]);
    assert_eq!(completed, GeneratorResult::Complete);
    assert_eq!(second, [5, 6, 7, 8, 9]);
}

#[test]
fn flatten_resumes_after_every_value() {
    let data = [[1, 2, 3, 4], [5, 6, 7, 8], [9, 10, 11, 12]];
    let expected = [1, 2, 3, 4, 5, 6, 7, 8, 9, 10, 11, 12];
    for k in 1..expected.len() {
        let mut seen: Vec<i32> = Vec::new();
        let mut flat = SliceGenerator::new(&data)
            .transform(over_array)
            .flatten();
        let (stopped, sink) = flat.run(StopAfter { limit: k, seen: Vec::new() });
        seen.extend(sink.seen);
        assert_eq!(stopped, GeneratorResult::Stopped);
        assert_eq!(seen, expected[..k]);
        let mut iter = flat.iter();
        assert_eq!(iter.next(), Some(&expected[k]));
    }
}

#[test]
fn flatten_stops_again_inside_the_same_inner_sequence() {
    let data = [[1, 2, 3, 4], [5, 6, 7, 8]];
    let mut flat = SliceGenerator::new(&data)
        .transform(over_array)
        .flatten();
    let mut seen: Vec<i32> = Vec::new();
    for _ in 0..8 {
        let (result, _) = flat.run(End::new(|x: &i32| {
            seen.push(*x);
            false
        }));
        assert_eq!(result, GeneratorResult::Stopped);
    }
    assert_eq!(seen, [1, 2, 3, 4, 5, 6, 7, 8]);
    assert_eq!(flat.for_each(|_| ()), GeneratorResult::Complete);
    assert_eq!(flat.for_each(|_| ()), GeneratorResult::Complete);
}

#[test]
fn stopping_source_interrupts_once() {
    let data = [10, 20, 30];
    let mut gen = StoppingGen::new(2, &data);
    let (first, output) = gen.run(Vec::new());
    assert_eq!(first, GeneratorResult::Stopped);
    assert_eq!(output, vec![&10, &20]);
    let (second, output) = gen.run(output);
    assert_eq!(second, GeneratorResult::Complete);
    assert_eq!(output, vec![&10, &20, &30]);
}

#[test]
fn stopping_source_interrupts_before_the_first_value() {
    let data = [10, 20];
    let mut gen = StoppingGen::new(0, &data);
    let (first, output) = gen.run(Vec::new());
    assert_eq!(first, GeneratorResult::Stopped);
    assert!(output.is_empty());
    let (second, output) = gen.run(output);
    assert_eq!(second, GeneratorResult::Complete);
    assert_eq!(output, vec![&10, &20]);
}

#[test]
fn flatten_with_a_producer() {
    let data = vec![vec![1, 2], vec![], vec![3]];
    let mut flat = SliceGenerator::new(data.as_slice()).flatten_with(over_vec);
    let (result, output) = flat.drain_into(Vec::new());
    assert_eq!(result, GeneratorResult::Complete);
    assert_eq!(output, vec![&1, &2, &3]);
}

#[test]
fn flatten_of_no_inner_sequences_completes_with_nothing() {
    let data: Vec<Vec<i32>> = Vec::new();
    let mut flat = SliceGenerator::new(data.as_slice()).flatten_with(over_vec);
    let (result, output) = flat.drain_into(Vec::new());
    assert_eq!(result, GeneratorResult::Complete);
    assert!(output.is_empty());
}

#[test]
fn flatten_over_an_interrupting_inner_generator() {
    let data = [[1, 2, 3, 4], [5, 6, 7, 8]];
    let mut flat = SliceGenerator::new(&data)
        .transform(interrupting)
        .flatten();
    let mut runs = Vec::new();
    loop {
        let (result, output) = flat.drain_into(Vec::new());
        let seen: Vec<i32> = output.into_iter().copied().collect();
        runs.push(seen);
        if result == GeneratorResult::Complete {
            break;
        }
    }
    assert_eq!(
        runs,
        vec![vec![1, 2], vec![3], vec![5, 6], vec![7], vec![]]
    );
}
