use pushgen::{
    Collect, End, Generator, GeneratorResult, Receiver, SliceGenerator, StageExt, Then,
    ValueResult,
};

#[test]
fn signal_from_boolean() {
    assert_eq!(ValueResult::from_bool(true), ValueResult::MoreValues);
    assert_eq!(ValueResult::from_bool(false), ValueResult::Stop);
    assert!(ValueResult::Stop.is_stop());
    assert!(!ValueResult::MoreValues.is_stop());
    assert!(GeneratorResult::Stopped.is_stopped());
    assert!(!GeneratorResult::Complete.is_stopped());
}

#[test]
fn vector_takes_every_value_and_asks_for_more() {
    let mut sink: Vec<i32> = Vec::new();
    assert_eq!(sink.accept(3), ValueResult::MoreValues);
    assert_eq!(sink.accept(4), ValueResult::MoreValues);
    assert_eq!(sink, [3, 4]);
}

#[test]
fn collect_hands_every_value_to_the_function() {
    let data = [1, 2, 3];
    let mut output: Vec<i32> = Vec::new();
    let mut pipe = SliceGenerator::new(&data)
        .transform(|x: &&i32| **x * 2)
        .collect(|x| output.push(x));
    let result = pipe.drive();
    assert_eq!(result, GeneratorResult::Complete);
    let _ = pipe;
    assert_eq!(output, [2, 4, 6]);
}

#[test]
fn end_stops_when_the_function_answers_false() {
    let data = [1, 2, 3, 4, 5];
    let mut output: Vec<i32> = Vec::new();
    let mut pipe = SliceGenerator::new(&data).end(|x| {
        output.push(*x);
        *x < 3
    });
    let first = pipe.drive();
    let second = pipe.drive();
    let third = pipe.drive();
    let fourth = pipe.drive();
    let _ = pipe;
    assert_eq!(first, GeneratorResult::Stopped);
    assert_eq!(second, GeneratorResult::Stopped);
    assert_eq!(third, GeneratorResult::Stopped);
    assert_eq!(fourth, GeneratorResult::Complete);
    assert_eq!(output, [1, 2, 3, 4, 5]);
}

#[test]
fn end_that_always_continues_completes() {
    let data = [1, 2, 3];
    let mut count = 0;
    let mut pipe = SliceGenerator::new(&data).end(|_| {
        count += 1;
        true
    });
    assert_eq!(pipe.drive(), GeneratorResult::Complete);
    let _ = pipe;
    assert_eq!(count, 3);
}

#[test]
fn end_and_collect_as_receivers() {
    let mut seen = 0;
    let mut collect = Collect::new(|x: i32| seen += x);
    assert_eq!(collect.accept(4), ValueResult::MoreValues);
    assert_eq!(collect.accept(5), ValueResult::MoreValues);
    let _ = collect;
    assert_eq!(seen, 9);
    let mut end = End::new(|x: i32| x != 0);
    assert_eq!(end.accept(1), ValueResult::MoreValues);
    assert_eq!(end.accept(0), ValueResult::Stop);
}

#[test]
fn a_chain_with_a_vector_at_its_end() {
    let data = [1, 2, 3];
    let mut pipe = Then::new(SliceGenerator::new(&data), Vec::new());
    assert_eq!(pipe.drive(), GeneratorResult::Complete);
    let (_, output) = pipe.into_parts();
    assert_eq!(output, vec![&1, &2, &3]);
}

#[test]
fn for_each_drains_one_run() {
    let data = [1, 2, 3];
    let mut sum = 0;
    let mut source = SliceGenerator::new(&data);
    assert_eq!(source.for_each(|x| sum += *x), GeneratorResult::Complete);
    assert_eq!(sum, 6);
    assert_eq!(source.for_each(|x| sum += *x), GeneratorResult::Complete);
    assert_eq!(sum, 6);
}

#[test]
fn slice_source_stops_with_the_receiver_and_resumes() {
    let data = [1, 2, 3];
    let mut source = SliceGenerator::new(&data);
    let (first, _) = source.run(End::new(|x: &i32| *x < 2));
    assert_eq!(first, GeneratorResult::Stopped);
    let (second, output) = source.run(Vec::new());
    assert_eq!(second, GeneratorResult::Complete);
    assert_eq!(output, vec![&3]);
}

#[test]
fn slice_source_stopped_at_its_last_value_reports_stopped_then_complete() {
    let data = [1, 2];
    let mut source = SliceGenerator::new(&data);
    let (first, _) = source.run(End::new(|x: &i32| *x < 2));
    assert_eq!(first, GeneratorResult::Stopped);
    let (second, output) = source.run(Vec::new());
    assert_eq!(second, GeneratorResult::Complete);
    assert!(output.is_empty());
}

struct CountTo {
    limit: usize,
    seen: Vec<i32>,
}

impl Receiver<&i32> for CountTo {
    type State = (usize, usize);

    fn inv(&self) -> bool {
        true
    }

    fn state(&self) -> (usize, usize) {
        (self.limit, self.seen.len())
    }

    fn admits(_: (usize, usize), _: &i32) -> bool {
        true
    }

    fn signal(state: (usize, usize), _: &i32) -> ValueResult {
        ValueResult::from_bool(state.1 + 1 < state.0)
    }

    fn next(state: (usize, usize), _: &i32) -> (usize, usize) {
        (state.0, state.1 + 1)
    }

    fn accept(&mut self, value: &i32) -> ValueResult {
        let answer = Self::signal(self.state(), value);
        self.seen.push(*value);
        answer
    }
}

#[test]
fn a_receiver_of_the_callers_own() {
    let data = [4, 5, 6, 7];
    let mut source = SliceGenerator::new(&data);
    let (first, sink) = source.run(CountTo { limit: 3, seen: Vec::new() });
    assert_eq!(first, GeneratorResult::Stopped);
    assert_eq!(sink.seen, [4, 5, 6]);
    let (second, rest) = source.drain_into(Vec::new());
    assert_eq!(second, GeneratorResult::Complete);
    assert_eq!(rest, vec![&7]);
}

#[test]
fn drain_into_appends_to_what_the_vector_holds() {
    let data = [2, 3];
    let one = 1;
    let mut source = SliceGenerator::new(&data);
    let (result, output) = source.drain_into(vec![&one]);
    assert_eq!(result, GeneratorResult::Complete);
    assert_eq!(output, vec![&1, &2, &3]);
}
