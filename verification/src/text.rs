use vstd::prelude::*;

verus! {

/// `String::push_str` appends the given text to the end of the string.
pub assume_specification[ String::push_str ](s: &mut String, t: &str)
    ensures
        final(s)@ == old(s)@ + t@,
;

/// `String::push` appends the given character to the end of the string.
pub assume_specification[ String::push ](s: &mut String, c: char)
    ensures
        final(s)@ == old(s)@.push(c),
;

/// The decimal digit for a number below ten.
pub open spec fn digit_char(d: nat) -> char {
    if d == 0 {
        '0'
    } else if d == 1 {
        '1'
    } else if d == 2 {
        '2'
    } else if d == 3 {
        '3'
    } else if d == 4 {
        '4'
    } else if d == 5 {
        '5'
    } else if d == 6 {
        '6'
    } else if d == 7 {
        '7'
    } else if d == 8 {
        '8'
    } else {
        '9'
    }
}

/// A number written in decimal, without leading zeros.
pub open spec fn decimal(n: nat) -> Seq<char>
    decreases n,
{
    if n < 10 {
        seq![digit_char(n)]
    } else {
        decimal(n / 10).push(digit_char(n % 10))
    }
}

fn digit(d: u64) -> (c: char)
    requires
        d < 10,
    ensures
        c == digit_char(d as nat),
{
    match d {
        0 => '0',
        1 => '1',
        2 => '2',
        3 => '3',
        4 => '4',
        5 => '5',
        6 => '6',
        7 => '7',
        8 => '8',
        _ => '9',
    }
}

/// Appends a number in decimal.
pub fn push_decimal(out: &mut String, n: u64)
    ensures
        final(out)@ == old(out)@ + decimal(n as nat),
    decreases n,
{
    if n < 10 {
        out.push(digit(n));
        proof {
            assert(out@ =~= old(out)@ + decimal(n as nat));
        }
    } else {
        push_decimal(out, n / 10);
        out.push(digit(n % 10));
        proof {
            assert(out@ =~= old(out)@ + decimal(n as nat));
        }
    }
}

/// Appends a number in decimal.
pub fn push_usize(out: &mut String, n: usize)
    ensures
        final(out)@ == old(out)@ + decimal(n as nat),
{
    push_decimal(out, n as u64);
}

/// `n` spaces.
pub open spec fn spaces(n: nat) -> Seq<char> {
    Seq::new(n, |i: int| ' ')
}

/// Appends `n` spaces.
pub fn push_spaces(out: &mut String, n: usize)
    ensures
        final(out)@ == old(out)@ + spaces(n as nat),
{
    let ghost start = out@;
    for i in 0..n
        invariant
            out@ == start + spaces(i as nat),
    {
        out.push(' ');
        proof {
            assert(out@ =~= start + spaces((i + 1) as nat));
        }
    }
}

/// How a plan node is asked to show itself.
#[derive(Debug, Clone, Copy, PartialEq, Eq, Structural)]
pub enum DisplayFormatType {
    Default,
    Verbose,
    TreeRender,
}

/// The parts one after the other, with `separator` between them.
pub open spec fn join(parts: Seq<Seq<char>>, separator: Seq<char>) -> Seq<char>
    decreases parts.len(),
{
    if parts.len() == 0 {
        Seq::empty()
    } else if parts.len() == 1 {
        parts[0]
    } else {
        join(parts.drop_last(), separator) + separator + parts.last()
    }
}

/// The parts one after the other.
pub open spec fn concat(parts: Seq<Seq<char>>) -> Seq<char>
    decreases parts.len(),
{
    if parts.len() == 0 {
        Seq::empty()
    } else {
        concat(parts.drop_last()) + parts.last()
    }
}

/// The text that is there, if any.
pub open spec fn text_view(text: Option<String>) -> Option<Seq<char>> {
    match text {
        Some(t) => Some(t@),
        None => None,
    }
}

/// The same text once more, if there is any.
pub fn clone_text(text: &Option<String>) -> (copy: Option<String>)
    ensures
        text_view(copy) == text_view(*text),
{
    match text {
        Some(t) => Some(t.clone()),
        None => None,
    }
}

/// Adding one more part to the end of a list that is being joined.
pub proof fn lemma_join_push(parts: Seq<Seq<char>>, separator: Seq<char>, part: Seq<char>)
    ensures
        join(parts.push(part), separator) == if parts.len() == 0 {
            part
        } else {
            join(parts, separator) + separator + part
        },
{
    assert(parts.push(part).drop_last() =~= parts);
}

/// Adding one more part to the end of a list that is being concatenated.
pub proof fn lemma_concat_push(parts: Seq<Seq<char>>, part: Seq<char>)
    ensures
        concat(parts.push(part)) == concat(parts) + part,
{
    assert(parts.push(part).drop_last() =~= parts);
}

/// A number that may be negative, in decimal.
pub open spec fn signed_decimal(n: int) -> Seq<char> {
    if n < 0 {
        "-"@ + decimal((-n) as nat)
    } else {
        decimal(n as nat)
    }
}

/// Appends a number that may be negative.
pub fn push_signed(out: &mut String, n: i64)
    ensures
        final(out)@ == old(out)@ + signed_decimal(n as int),
{
    let ghost start = out@;
    if n >= 0 {
        push_decimal(out, n as u64);
    } else {
        out.push_str("-");
        if n == i64::MIN {
            push_decimal(out, 9_223_372_036_854_775_808);
        } else {
            push_decimal(out, (-n) as u64);
        }
    }
    proof {
        assert(out@ =~= start + signed_decimal(n as int));
    }
}

/// Whether the two texts are the same.
pub fn same_text(a: &str, b: &str) -> (same: bool)
    ensures
        same == (a@ == b@),
{
    let n: usize = a.unicode_len();
    if n != b.unicode_len() {
        return false;
    }
    for i in 0..n
        invariant
            n == a@.len(),
            n == b@.len(),
            forall|j: int| 0 <= j < i ==> a@[j] == b@[j],
    {
        if a.get_char(i) != b.get_char(i) {
            return false;
        }
    }
    proof {
        assert(a@ =~= b@);
    }
    true
}

/// Whether `part` is in `text` from the given place on.
pub open spec fn occurs_at(text: Seq<char>, part: Seq<char>, place: int) -> bool {
    0 <= place && place + part.len() <= text.len() && text.subrange(place, place + part.len())
        == part
}

fn occurs(text: &str, part: &str, place: usize) -> (found: bool)
    requires
        place + part@.len() <= text@.len(),
    ensures
        found == occurs_at(text@, part@, place as int),
{
    let len: usize = text.unicode_len();
    let n: usize = part.unicode_len();
    for i in 0..n
        invariant
            len == text@.len(),
            n == part@.len(),
            place + n <= len,
            forall|j: int| 0 <= j < i ==> text@[place + j] == part@[j],
    {
        if text.get_char(place + i) != part.get_char(i) {
            proof {
                assert(text@.subrange(place as int, place + n)[i as int] != part@[i as int]);
            }
            return false;
        }
    }
    proof {
        assert(text@.subrange(place as int, place + n) =~= part@);
    }
    true
}

/// Whether a text ends with another.
pub open spec fn ends_with(text: Seq<char>, end: Seq<char>) -> bool {
    occurs_at(text, end, text.len() - end.len())
}

/// Tells whether a text ends with another.
pub fn text_ends_with(text: &str, end: &str) -> (yes: bool)
    ensures
        yes == ends_with(text@, end@),
{
    let n: usize = text.unicode_len();
    let m: usize = end.unicode_len();
    if m > n {
        return false;
    }
    occurs(text, end, n - m)
}

/// Whether a text holds another.
pub open spec fn holds(text: Seq<char>, part: Seq<char>) -> bool {
    exists|place: int| occurs_at(text, part, place)
}

/// Tells whether a text holds another.
pub fn text_holds(text: &str, part: &str) -> (yes: bool)
    ensures
        yes == holds(text@, part@),
{
    let n: usize = text.unicode_len();
    let m: usize = part.unicode_len();
    if m > n {
        return false;
    }
    let last: usize = n - m;
    let mut place: usize = 0;
    while !occurs(text, part, place)
        invariant
            n == text@.len(),
            m == part@.len(),
            last == n - m,
            place <= last,
            forall|p: int| 0 <= p < place ==> !occurs_at(text@, part@, p),
        decreases last - place,
    {
        if place == last {
            return false;
        }
        place = place + 1;
    }
    true
}

/// A text without all that it ends with of another, however often.
pub open spec fn without_end(text: Seq<char>, end: Seq<char>) -> Seq<char>
    decreases text.len(),
{
    if end.len() > 0 && ends_with(text, end) {
        without_end(text.take(text.len() - end.len()), end)
    } else {
        text
    }
}

/// The first characters of a text.
pub fn first_chars(text: &str, n: usize) -> (first: String)
    requires
        n <= text@.len(),
    ensures
        first@ == text@.take(n as int),
{
    let mut first = String::new();
    proof {
        assert(first@ =~= text@.take(0));
    }
    for i in 0..n
        invariant
            n <= text@.len(),
            first@ == text@.take(i as int),
    {
        first.push(text.get_char(i));
        proof {
            assert(first@ =~= text@.take(i + 1));
        }
    }
    first
}

/// Takes off a text all that it ends with of another, however often.
pub fn trim_end(text: &str, end: &str) -> (trimmed: String)
    ensures
        trimmed@ == without_end(text@, end@),
    decreases text@.len(),
{
    let n: usize = text.unicode_len();
    let m: usize = end.unicode_len();
    if m > 0 && text_ends_with(text, end) {
        let rest = first_chars(text, n - m);
        trim_end(rest.as_str(), end)
    } else {
        text.to_owned()
    }
}

/// The lines of a text: what is before, between and after the ends of lines.
pub open spec fn lines(text: Seq<char>) -> Seq<Seq<char>>
    decreases text.len(),
{
    if text.len() == 0 {
        seq![Seq::empty()]
    } else {
        let before = lines(text.drop_last());
        if text.last() == '\n' {
            before.push(Seq::empty())
        } else {
            before.drop_last().push(before.last().push(text.last()))
        }
    }
}

/// The parts that are not empty.
pub open spec fn non_empty(parts: Seq<Seq<char>>) -> Seq<Seq<char>>
    decreases parts.len(),
{
    if parts.len() == 0 {
        Seq::empty()
    } else {
        let before = non_empty(parts.drop_last());
        if parts.last().len() == 0 {
            before
        } else {
            before.push(parts.last())
        }
    }
}

/// The lines of a text that are not empty, with `separator` between them.
pub open spec fn lines_joined(text: Seq<char>, separator: Seq<char>) -> Seq<char> {
    join(non_empty(lines(text)), separator)
}

/// Joins the lines of a text that are not empty.
pub fn join_lines(text: &str, separator: &str) -> (joined: String)
    ensures
        joined@ == lines_joined(text@, separator@),
{
    let ghost all = text@;
    let mut joined = String::new();
    let mut started = false;
    let mut line = String::new();
    let mut line_started = false;
    let ghost mut done: Seq<Seq<char>> = Seq::empty();
    proof {
        assert(all.take(0) =~= Seq::empty());
        assert(lines(all.take(0)) =~= done.push(line@));
        assert(joined@ =~= join(non_empty(done), separator@));
    }
    for c in it: text.chars()
        invariant
            it.seq() == all,
            lines(all.take(it.index() as int)) == done.push(line@),
            joined@ == join(non_empty(done), separator@),
            started == (non_empty(done).len() > 0),
            line_started == (line@.len() > 0),
    {
        let ghost k = it.index() as int;
        proof {
            assert(all.take(k + 1).drop_last() =~= all.take(k));
            assert(all.take(k + 1).last() == c);
            assert(done.push(line@).drop_last() =~= done);
        }
        if c == '\n' {
            let ghost kept = non_empty(done);
            if line_started {
                if started {
                    joined.push_str(separator);
                }
                joined.push_str(line.as_str());
                started = true;
                proof {
                    lemma_join_push(kept, separator@, line@);
                }
            }
            proof {
                let longer = done.push(line@);
                assert(longer.drop_last() =~= done);
                assert(joined@ =~= join(non_empty(longer), separator@));
                done = longer;
            }
            line = String::new();
            line_started = false;
            proof {
                assert(line@ =~= Seq::empty());
            }
        } else {
            line.push(c);
            line_started = true;
        }
    }
    proof {
        assert(all.take(all.len() as int) =~= all);
        assert(done.push(line@).drop_last() =~= done);
        lemma_join_push(non_empty(done), separator@, line@);
    }
    if line_started {
        if started {
            joined.push_str(separator);
        }
        joined.push_str(line.as_str());
    }
    proof {
        assert(joined@ =~= lines_joined(text@, separator@));
    }
    joined
}

/// The number that a decimal digit stands for.
pub open spec fn digit_value(c: char) -> Option<nat> {
    if '0' <= c <= '9' {
        Some((c as nat - '0' as nat) as nat)
    } else {
        None
    }
}

/// The number that some decimal digits stand for.
pub open spec fn digits_value(digits: Seq<char>) -> Option<nat>
    decreases digits.len(),
{
    if digits.len() == 0 {
        Some(0)
    } else {
        match (digits_value(digits.drop_last()), digit_value(digits.last())) {
            (Some(before), Some(d)) => Some(10 * before + d),
            _ => None,
        }
    }
}

/// The number that a text stands for: decimal digits, which a plus sign may precede, of a number that
/// is not too large.
pub open spec fn parsed_number(text: Seq<char>) -> Option<u64> {
    let digits = if text.len() > 0 && text[0] == '+' {
        text.drop_first()
    } else {
        text
    };
    if digits.len() == 0 {
        None
    } else {
        match digits_value(digits) {
            Some(n) => if n <= u64::MAX {
                Some(n as u64)
            } else {
                None
            },
            None => None,
        }
    }
}

proof fn lemma_digits_fail(digits: Seq<char>, n: int)
    requires
        0 <= n <= digits.len(),
        match digits_value(digits.take(n)) {
            Some(v) => v > u64::MAX,
            None => true,
        },
    ensures
        match digits_value(digits) {
            Some(v) => v > u64::MAX,
            None => true,
        },
    decreases digits.len() - n,
{
    if n == digits.len() {
        assert(digits.take(n) =~= digits);
    } else {
        assert(digits.take(n + 1).drop_last() =~= digits.take(n));
        lemma_digits_fail(digits, n + 1);
    }
}

/// The number that a text stands for, if it stands for one.
pub fn parse_number(text: &str) -> (number: Option<u64>)
    ensures
        number == parsed_number(text@),
{
    let len: usize = text.unicode_len();
    let first: usize = if len > 0 && text.get_char(0) == '+' {
        1
    } else {
        0
    };
    if first == len {
        return None;
    }
    let ghost digits = text@.skip(first as int);
    let mut number: u64 = 0;
    proof {
        assert(digits =~= if text@.len() > 0 && text@[0] == '+' {
            text@.drop_first()
        } else {
            text@
        });
        assert(digits.take(0) =~= Seq::empty());
    }
    let mut i: usize = first;
    while i < len
        invariant
            first <= i <= len,
            len == text@.len(),
            digits == text@.skip(first as int),
            digits.len() > 0,
            parsed_number(text@) == match digits_value(digits) {
                Some(n) => if n <= u64::MAX {
                    Some(n as u64)
                } else {
                    None
                },
                None => None,
            },
            digits_value(digits.take(i - first)) == Some(number as nat),
        decreases len - i,
    {
        let c = text.get_char(i);
        proof {
            assert(digits.take(i - first + 1).drop_last() =~= digits.take(i - first));
            assert(digits.take(i - first + 1).last() == c);
        }
        if !('0' <= c && c <= '9') {
            proof {
                lemma_digits_fail(digits, i - first + 1);
            }
            return None;
        }
        let d: u64 = (c as u64) - ('0' as u64);
        if number > (u64::MAX - d) / 10 {
            proof {
                assert(10 * number + d > u64::MAX);
                lemma_digits_fail(digits, i - first + 1);
            }
            return None;
        }
        number = 10 * number + d;
        i = i + 1;
    }
    proof {
        assert(digits.take(len - first) =~= digits);
    }
    Some(number)
}

/// Whether a text comes before another: at the first place where they differ its character has the
/// smaller code, or it is the beginning of the other.
pub open spec fn text_less(a: Seq<char>, b: Seq<char>) -> bool
    decreases a.len(),
{
    if b.len() == 0 {
        false
    } else if a.len() == 0 {
        true
    } else if a[0] != b[0] {
        a[0] < b[0]
    } else {
        text_less(a.drop_first(), b.drop_first())
    }
}

/// Tells whether a text comes before another.
pub fn is_text_less(a: &str, b: &str) -> (less: bool)
    ensures
        less == text_less(a@, b@),
{
    let n: usize = a.unicode_len();
    let m: usize = b.unicode_len();
    let mut i: usize = 0;
    proof {
        assert(a@.skip(0) =~= a@);
        assert(b@.skip(0) =~= b@);
    }
    while i < n && i < m
        invariant
            n == a@.len(),
            m == b@.len(),
            i <= n,
            i <= m,
            text_less(a@, b@) == text_less(a@.skip(i as int), b@.skip(i as int)),
        decreases n - i,
    {
        let x = a.get_char(i);
        let y = b.get_char(i);
        proof {
            assert(a@.skip(i as int)[0] == x);
            assert(b@.skip(i as int)[0] == y);
            assert(a@.skip(i as int).drop_first() =~= a@.skip(i + 1));
            assert(b@.skip(i as int).drop_first() =~= b@.skip(i + 1));
        }
        if x != y {
            return x < y;
        }
        i = i + 1;
    }
    i < m
}

/// The order of texts is transitive, and no text comes before itself.
pub proof fn lemma_text_order(a: Seq<char>, b: Seq<char>, c: Seq<char>)
    ensures
        text_less(a, b) && text_less(b, c) ==> text_less(a, c),
        !(text_less(a, b) && text_less(b, a)),
        text_less(a, b) || text_less(b, a) || a == b,
    decreases a.len(),
{
    if a.len() > 0 && b.len() > 0 {
        if c.len() > 0 {
            lemma_text_order(a.drop_first(), b.drop_first(), c.drop_first());
        } else {
            lemma_text_order(a.drop_first(), b.drop_first(), c);
        }
        if a[0] == b[0] && a.drop_first() == b.drop_first() {
            assert(a =~= seq![a[0]] + a.drop_first());
            assert(b =~= seq![b[0]] + b.drop_first());
        }
    } else if a.len() == 0 && b.len() == 0 {
        assert(a =~= b);
    }
}

/// What is written of a number is read as that number, with or without a plus sign before it.
pub proof fn written_numbers_are_read(n: u64)
    ensures
        parsed_number(decimal(n as nat)) == Some(n),
        parsed_number(seq!['+'] + decimal(n as nat)) == Some(n),
{
    lemma_decimal_value(n as nat);
    let digits = decimal(n as nat);
    assert((seq!['+'] + digits).drop_first() =~= digits);
}

/// A number is written with digits that stand for it, and with a leading zero only where it is zero.
proof fn lemma_decimal_value(n: nat)
    ensures
        decimal(n).len() > 0,
        digits_value(decimal(n)) == Some(n),
        decimal(n)[0] != '+',
        n > 0 ==> decimal(n)[0] != '0',
    decreases n,
{
    let digits = decimal(n);
    if n < 10 {
        assert(digits.drop_last() =~= Seq::empty());
        assert(digits_value(digits.drop_last()) == Some(0nat));
    } else {
        lemma_decimal_value(n / 10);
        assert(digits.drop_last() =~= decimal(n / 10));
        assert(digits[0] == decimal(n / 10)[0]);
    }
}

/// A number is written without leading zeros.
pub proof fn numbers_have_no_leading_zeros(n: nat)
    requires
        n > 0,
    ensures
        decimal(n).len() > 0,
        decimal(n)[0] != '0',
{
    lemma_decimal_value(n);
}

/// The lines of a text, put together again, are the text, and none of them holds an end of line.
pub proof fn lines_make_up_the_text(text: Seq<char>)
    ensures
        lines(text).len() > 0,
        join(lines(text), seq!['\n']) == text,
        forall|i: int| 0 <= i < lines(text).len() ==> !(#[trigger] lines(text)[i]).contains('\n'),
    decreases text.len(),
{
    let end = seq!['\n'];
    if text.len() > 0 {
        let front = text.drop_last();
        let before = lines(front);
        lines_make_up_the_text(front);
        assert(front.push(text.last()) =~= text);
        if text.last() == '\n' {
            assert(lines(text).drop_last() =~= before);
            assert(join(before, end) + end + Seq::<char>::empty() =~= text);
        } else {
            let last = before.last().push(text.last());
            assert(lines(text).drop_last() =~= before.drop_last());
            assert(lines(text).last() == last);
            if before.len() == 1 {
                assert(front == before[0]);
                assert(last =~= text);
            } else {
                assert(front == join(before.drop_last(), end) + end + before.last());
                assert(join(before.drop_last(), end) + end + last =~= text);
            }
            assert forall|i: int| 0 <= i < lines(text).len() implies !(#[trigger] lines(
                text,
            )[i]).contains('\n') by {
                assert(!before[i].contains('\n'));
                if i == before.len() - 1 && last.contains('\n') {
                    let j = choose|j: int| 0 <= j < last.len() && last[j] == '\n';
                    assert(j < last.len() - 1);
                    assert(before[i][j] == '\n');
                }
            }
        }
    }
}

/// Of the parts of a text those stay that are not empty: each of them, and nothing else.
pub proof fn only_empty_parts_are_left_out(parts: Seq<Seq<char>>, part: Seq<char>)
    ensures
        non_empty(parts).contains(part) <==> parts.contains(part) && part.len() > 0,
        concat(non_empty(parts)) == concat(parts),
    decreases parts.len(),
{
    if parts.len() > 0 {
        let front = parts.drop_last();
        only_empty_parts_are_left_out(front, part);
        assert(front.push(parts.last()) =~= parts);
        lemma_concat_push(front, parts.last());
        let before = non_empty(front);
        if parts.last().len() > 0 {
            lemma_concat_push(before, parts.last());
            if before.contains(part) {
                let i = choose|i: int| 0 <= i < before.len() && before[i] == part;
                assert(before.push(parts.last())[i] == part);
            }
            if part == parts.last() {
                assert(before.push(parts.last())[before.len() as int] == part);
            }
        } else {
            assert(parts.last() =~= Seq::empty());
            assert(concat(front) + parts.last() =~= concat(front));
        }
        if front.contains(part) {
            let i = choose|i: int| 0 <= i < front.len() && front[i] == part;
            assert(parts[i] == part);
        }
        if parts.contains(part) && part != parts.last() {
            let i = choose|i: int| 0 <= i < parts.len() && parts[i] == part;
            assert(front[i] == part);
        }
    } else {
        assert(non_empty(parts) =~= parts);
    }
}

/// A text that is freed of an end does not end so, and begins as it did. What was taken off is that end,
/// any number of times.
pub proof fn no_end_is_left(text: Seq<char>, end: Seq<char>)
    requires
        end.len() > 0,
    ensures
        !ends_with(without_end(text, end), end),
        without_end(text, end).is_prefix_of(text),
        without_end(text, end) != text ==> ends_with(text, end) && without_end(text, end)
            == without_end(text.take(text.len() - end.len()), end),
        ends_with(text, end) ==> without_end(text, end) != text,
    decreases text.len(),
{
    if ends_with(text, end) {
        no_end_is_left(text.take(text.len() - end.len()), end);
    }
}

/// A text comes before another exactly if they are the same up to some place at which it ends, and the
/// other does not, or has the smaller character.
pub proof fn texts_are_ordered_by_the_first_difference(a: Seq<char>, b: Seq<char>, place: int)
    requires
        0 <= place <= a.len(),
        place <= b.len(),
        a.take(place) == b.take(place),
        place < a.len() && place < b.len() ==> a[place] != b[place],
    ensures
        text_less(a, b) <==> place < b.len() && (place < a.len() ==> a[place] < b[place]),
    decreases place,
{
    if place > 0 {
        let (x, y) = (a.drop_first(), b.drop_first());
        assert forall|i: int| 0 <= i < place implies #[trigger] a[i] == b[i] by {
            assert(a[i] == a.take(place)[i]);
            assert(b[i] == b.take(place)[i]);
        }
        assert(a[0] == b[0]);
        assert(x.take(place - 1) =~= y.take(place - 1));
        texts_are_ordered_by_the_first_difference(x, y, place - 1);
    }
}

} // verus!
