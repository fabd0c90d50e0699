use crate::text::{decimal, join, lemma_join_push, push_signed, push_usize, signed_decimal};
use vstd::prelude::*;

verus! {

/// The numbers from `start` up to but not including `end`.
#[derive(Debug, Clone, Copy, PartialEq, Eq, Structural)]
pub struct NumberRange {
    pub start: i64,
    pub end: i64,
}

/// An argument of the table function, as far as it is a number.
#[derive(Debug, Clone, Copy, PartialEq, Eq, Structural)]
pub enum Argument {
    Int64(Option<i64>),
    Int32(Option<i32>),
    Other,
}

/// The number that an argument is, if it is one.
pub open spec fn argument_number(argument: Argument) -> Option<i64> {
    match argument {
        Argument::Int64(Some(v)) => Some(v),
        Argument::Int32(Some(v)) => Some(v as i64),
        _ => None,
    }
}

/// Why numbers cannot be produced.
#[derive(Debug, Clone, Copy, PartialEq, Eq, Structural)]
pub enum NumbersError {
    WrongArgumentCount(usize),
    /// The argument at this place is no number.
    NotAnInteger(usize),
    TaskIndexOutOfRange,
    UnexpectedChildren(usize),
    MissingSchema,
}

impl NumbersError {
    /// The text of the error. `shown` is how the argument at fault is shown.
    pub fn message(&self, shown: &str) -> (text: String)
        ensures
            text@ == match *self {
                NumbersError::WrongArgumentCount(n) =>
                    "numbers() requires exactly 2 arguments (start, end), got "@ + decimal(
                    n as nat,
                ),
                NumbersError::NotAnInteger(_) =>
                    "numbers() arguments must be integer literals, got "@ + shown@,
                NumbersError::TaskIndexOutOfRange => "Task index out of range"@,
                NumbersError::UnexpectedChildren(n) =>
                    "NumbersExec should have no children, got "@ + decimal(n as nat),
                NumbersError::MissingSchema => "NetworkShuffleExec is missing schema"@,
            },
    {
        let mut text = String::new();
        proof {
            assert(text@ =~= Seq::empty());
        }
        match self {
            NumbersError::WrongArgumentCount(n) => {
                text.push_str("numbers() requires exactly 2 arguments (start, end), got ");
                push_usize(&mut text, *n);
                proof {
                    assert(text@ =~= "numbers() requires exactly 2 arguments (start, end), got "@
                        + decimal(*n as nat));
                }
            },
            NumbersError::NotAnInteger(_) => {
                text.push_str("numbers() arguments must be integer literals, got ");
                text.push_str(shown);
                proof {
                    assert(text@ =~= "numbers() arguments must be integer literals, got "@ + shown@);
                }
            },
            NumbersError::TaskIndexOutOfRange => {
                text.push_str("Task index out of range");
                proof {
                    assert(text@ =~= "Task index out of range"@);
                }
            },
            NumbersError::UnexpectedChildren(n) => {
                text.push_str("NumbersExec should have no children, got ");
                push_usize(&mut text, *n);
                proof {
                    assert(text@ =~= "NumbersExec should have no children, got "@ + decimal(
                        *n as nat,
                    ));
                }
            },
            NumbersError::MissingSchema => {
                text.push_str("NetworkShuffleExec is missing schema");
                proof {
                    assert(text@ =~= "NetworkShuffleExec is missing schema"@);
                }
            },
        }
        text
    }
}

fn number_of(argument: Argument) -> (number: Option<i64>)
    ensures
        number == argument_number(argument),
{
    match argument {
        Argument::Int64(Some(v)) => Some(v),
        Argument::Int32(Some(v)) => Some(v as i64),
        _ => None,
    }
}

/// The numbers that `numbers(start, end)` asks for.
pub fn numbers_range(arguments: &Vec<Argument>) -> (result: Result<NumberRange, NumbersError>)
    ensures
        result == if arguments@.len() != 2 {
            Err(NumbersError::WrongArgumentCount(arguments@.len() as usize))
        } else {
            match (argument_number(arguments@[0]), argument_number(arguments@[1])) {
                (Some(start), Some(end)) => Ok(NumberRange { start, end }),
                (None, _) => Err(NumbersError::NotAnInteger(0)),
                (_, None) => Err(NumbersError::NotAnInteger(1)),
            }
        },
{
    let n: usize = arguments.len();
    if n != 2 {
        return Err(NumbersError::WrongArgumentCount(n));
    }
    match number_of(arguments[0]) {
        None => Err(NumbersError::NotAnInteger(0)),
        Some(start) => match number_of(arguments[1]) {
            None => Err(NumbersError::NotAnInteger(1)),
            Some(end) => Ok(NumberRange { start, end }),
        },
    }
}

/// Produces numbers, some in each task.
#[derive(Debug)]
pub struct NumbersExec {
    pub ranges_per_task: Vec<NumberRange>,
}

/// The numbers of a range, from the first to the last.
pub open spec fn numbers_in(range: NumberRange) -> Seq<i64> {
    Seq::new(
        if range.start < range.end { (range.end - range.start) as nat } else { 0 },
        |i: int| (range.start + i) as i64,
    )
}

/// The numbers of the `i`-th of several tasks that take `chunk_size` numbers each, as far as there are
/// any left.
pub open spec fn chunk(range: NumberRange, chunk_size: int, i: int) -> (int, int) {
    let start = range.start + i * chunk_size;
    (start, if start + chunk_size <= range.end { start + chunk_size } else { range.end as int })
}

/// How the numbers of one task are shown.
pub open spec fn range_text(task: int, range: NumberRange) -> Seq<char> {
    "t"@ + decimal(task as nat) + ":["@ + signed_decimal(range.start as int) + "-"@
        + signed_decimal(range.end as int) + ")"@
}

impl NumbersExec {
    /// Produces the numbers of the given ranges, one in each task.
    pub fn new(ranges_per_task: Vec<NumberRange>) -> (exec: Self)
        ensures
            exec.ranges_per_task == ranges_per_task,
    {
        NumbersExec { ranges_per_task }
    }

    /// Shows the numbers of each task.
    pub fn fmt_as(&self) -> (text: String)
        ensures
            text@ == "NumbersExec: "@ + join(
                Seq::new(
                    self.ranges_per_task@.len(),
                    |i: int| range_text(i, self.ranges_per_task@[i]),
                ),
                ", "@,
            ),
    {
        let mut text = String::new();
        text.push_str("NumbersExec: ");
        let ghost head = "NumbersExec: "@;
        let ghost mut parts: Seq<Seq<char>> = Seq::empty();
        proof {
            assert(text@ =~= head + join(parts, ", "@));
        }
        for i in 0..self.ranges_per_task.len()
            invariant
                parts =~= Seq::new(i as nat, |k: int| range_text(k, self.ranges_per_task@[k])),
                text@ == head + join(parts, ", "@),
        {
            if i > 0 {
                text.push_str(", ");
            }
            let ghost before = text@;
            let range = self.ranges_per_task[i];
            text.push_str("t");
            push_usize(&mut text, i);
            text.push_str(":[");
            push_signed(&mut text, range.start);
            text.push_str("-");
            push_signed(&mut text, range.end);
            text.push_str(")");
            proof {
                let part = range_text(i as int, range);
                assert(text@ =~= before + part);
                lemma_join_push(parts, ", "@, part);
                parts = parts.push(part);
                assert(text@ =~= head + join(parts, ", "@));
            }
        }
        proof {
            assert(parts =~= Seq::new(
                self.ranges_per_task@.len(),
                |i: int| range_text(i, self.ranges_per_task@[i]),
            ));
        }
        text
    }

    /// The numbers that a task produces.
    pub fn numbers(&self, task_index: usize) -> (result: Result<Vec<i64>, NumbersError>)
        ensures
            if task_index < self.ranges_per_task@.len() {
                result matches Ok(numbers) && numbers@ == numbers_in(
                    self.ranges_per_task@[task_index as int],
                )
            } else {
                result matches Err(NumbersError::TaskIndexOutOfRange)
            },
    {
        if task_index >= self.ranges_per_task.len() {
            return Err(NumbersError::TaskIndexOutOfRange);
        }
        let range = self.ranges_per_task[task_index];
        let mut numbers: Vec<i64> = Vec::new();
        let mut next: i64 = range.start;
        proof {
            assert(numbers@ =~= numbers_in(range).take(0));
        }
        while next < range.end
            invariant
                range.start <= next,
                next <= range.end || next == range.start,
                numbers@ == numbers_in(range).take(next - range.start),
            decreases range.end - next,
        {
            numbers.push(next);
            next = next + 1;
            proof {
                assert(numbers@ =~= numbers_in(range).take(next - range.start));
            }
        }
        proof {
            assert(numbers@ =~= numbers_in(range));
        }
        Ok(numbers)
    }

    /// Spreads the numbers over more tasks, `chunk_size` for each as far as there are any left.
    pub fn scale_up(&self, task_count: usize, chunk_size: i64) -> (exec: Self)
        requires
            self.ranges_per_task@.len() > 0,
            task_count <= i64::MAX,
            i64::MIN <= task_count * chunk_size <= i64::MAX,
            i64::MIN <= self.ranges_per_task@[0].start + task_count * chunk_size <= i64::MAX,
        ensures
            exec.ranges_per_task@.len() == task_count,
            forall|i: int|
                0 <= i < task_count ==> ((#[trigger] exec.ranges_per_task@[i]).start as int,
                    exec.ranges_per_task@[i].end as int) == chunk(
                    self.ranges_per_task@[0],
                    chunk_size as int,
                    i,
                ),
    {
        let range = self.ranges_per_task[0];
        let mut ranges_per_task: Vec<NumberRange> = Vec::new();
        for i in 0..task_count
            invariant
                task_count <= i64::MAX,
                i64::MIN <= task_count * chunk_size <= i64::MAX,
                i64::MIN <= range.start + task_count * chunk_size <= i64::MAX,
                ranges_per_task@.len() == i,
                forall|k: int|
                    0 <= k < i ==> ((#[trigger] ranges_per_task@[k]).start as int,
                        ranges_per_task@[k].end as int) == chunk(range, chunk_size as int, k),
        {
            proof {
                lemma_between(i as int, task_count as int, chunk_size as int);
            }
            let start: i64 = range.start + (i as i64 * chunk_size);
            let after: i64 = start + chunk_size;
            let end: i64 = if after <= range.end {
                after
            } else {
                range.end
            };
            ranges_per_task.push(NumberRange { start, end });
        }
        NumbersExec { ranges_per_task }
    }
}

proof fn lemma_between(i: int, n: int, size: int)
    requires
        0 <= i < n,
    ensures
        size >= 0 ==> 0 <= i * size <= (i + 1) * size <= n * size,
        size < 0 ==> n * size <= (i + 1) * size <= i * size <= 0,
        (i + 1) * size == i * size + size,
{
    assert((i + 1) * size == i * size + size) by (nonlinear_arith);
    if size >= 0 {
        assert(0 <= i * size && (i + 1) * size <= n * size) by (nonlinear_arith)
            requires
                0 <= i < n,
                size >= 0,
        ;
    } else {
        assert(i * size <= 0 && n * size <= (i + 1) * size) by (nonlinear_arith)
            requires
                0 <= i < n,
                size < 0,
        ;
    }
}

/// Every number is produced by exactly one task, where the chunks are large enough for all of them.
pub proof fn every_number_is_produced_once(
    range: NumberRange,
    chunk_size: int,
    tasks: nat,
    number: int,
) -> (task: int)
    requires
        chunk_size > 0,
        range.start <= number < range.end,
        range.end - range.start <= chunk_size * tasks,
    ensures
        0 <= task < tasks,
        chunk(range, chunk_size, task).0 <= number < chunk(range, chunk_size, task).1,
        forall|other: int|
            0 <= other < tasks && #[trigger] chunk(range, chunk_size, other).0 <= number < chunk(
                range,
                chunk_size,
                other,
            ).1 ==> other == task,
{
    let offset = number - range.start;
    let task = offset / chunk_size;
    vstd::arithmetic::div_mod::lemma_fundamental_div_mod(offset, chunk_size);
    let rest = offset % chunk_size;
    assert(0 <= task < tasks) by (nonlinear_arith)
        requires
            chunk_size > 0,
            0 <= offset < chunk_size * tasks,
            offset == chunk_size * task + rest,
            0 <= rest < chunk_size,
    ;
    assert(task * chunk_size == chunk_size * task) by (nonlinear_arith);
    assert forall|other: int|
        0 <= other < tasks && #[trigger] chunk(range, chunk_size, other).0 <= number < chunk(
            range,
            chunk_size,
            other,
        ).1 implies other == task by {
        assert(other == task) by (nonlinear_arith)
            requires
                chunk_size > 0,
                other * chunk_size <= offset < other * chunk_size + chunk_size,
                offset == chunk_size * task + rest,
                0 <= rest < chunk_size,
        ;
    }
    task
}

/// What is received for numbers that were sent: there is a schema and nothing below.
pub fn decode_numbers(inputs: usize, has_schema: bool, ranges: Vec<NumberRange>) -> (result: Result<
    NumbersExec,
    NumbersError,
>)
    ensures
        if inputs != 0 {
            result matches Err(NumbersError::UnexpectedChildren(n)) && n == inputs
        } else if !has_schema {
            result matches Err(NumbersError::MissingSchema)
        } else {
            result matches Ok(exec) && exec.ranges_per_task == ranges
        },
{
    if inputs != 0 {
        return Err(NumbersError::UnexpectedChildren(inputs));
    }
    if !has_schema {
        return Err(NumbersError::MissingSchema);
    }
    Ok(NumbersExec::new(ranges))
}

/// The numbers of a range are those from its start up to its end, each of them once and in order.
pub proof fn ranges_hold_their_numbers(range: NumberRange, number: i64, i: int, j: int)
    requires
        0 <= i < j < numbers_in(range).len(),
    ensures
        numbers_in(range).contains(number) <==> range.start <= number < range.end,
        numbers_in(range)[i] < numbers_in(range)[j],
        numbers_in(range).len() == range.end - range.start,
{
    if range.start <= number < range.end {
        assert(numbers_in(range)[number - range.start] == number);
    }
}

} // verus!
