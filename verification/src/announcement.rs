//! Reads the port out of the line with which a nailgun server says that
//! it is ready.
//!
//! The server ends that line with the word `port` between two spaces, the
//! port in decimal digits, and a full stop:
//! `NGServer 0.9.1 started on all interfaces, port 2113.`

use crate::nailgun_pool::Port;
use vstd::prelude::*;

verus! {

/// `b` is an ASCII decimal digit.
pub open spec fn is_digit(b: u8) -> bool {
    0x30 <= b <= 0x39
}

/// The number that a run of digits writes.
pub open spec fn digits_value(digits: Seq<u8>) -> nat
    decreases digits.len(),
{
    if digits.len() == 0 {
        0
    } else {
        digits_value(digits.drop_last()) * 10 + (digits.last() - 0x30) as nat
    }
}

/// Where the run of digits begins that ends just before `end`.
pub open spec fn digits_start(line: Seq<u8>, end: int) -> int
    decreases end,
{
    if end <= 0 || end > line.len() || !is_digit(line[end - 1]) {
        end
    } else {
        digits_start(line, end - 1)
    }
}

/// The word that stands before the port: ` port `.
pub open spec fn marker() -> Seq<u8> {
    seq![0x20u8, 0x70u8, 0x6fu8, 0x72u8, 0x74u8, 0x20u8]
}

/// The port that a line announces, if it announces one: the line ends with
/// a full stop, before it stands a run of digits that writes a number from
/// 1 up to the largest port that can be held, and before that the marker.
pub open spec fn announced(line: Seq<u8>) -> Option<Port> {
    let end = line.len() - 1;
    let start = digits_start(line, end);
    if line.len() >= 1 && line[end] == 0x2eu8 && 6 <= start < end && line.subrange(
        start - 6,
        start,
    ) == marker() && 0 < digits_value(line.subrange(start, end)) <= usize::MAX {
        Some(digits_value(line.subrange(start, end)) as usize)
    } else {
        None
    }
}

proof fn lemma_digits_value_grows(digits: Seq<u8>, k: int)
    requires
        0 <= k <= digits.len(),
        forall|i: int| 0 <= i < digits.len() ==> is_digit(digits[i]),
    ensures
        digits_value(digits.take(k)) <= digits_value(digits),
    decreases digits.len() - k,
{
    if k == digits.len() {
        assert(digits.take(k) =~= digits);
    } else {
        lemma_digits_value_grows(digits, k + 1);
        assert(digits.take(k + 1).drop_last() =~= digits.take(k));
    }
}

/// Reads the port that `line` announces.
pub fn announced_port(line: &[u8]) -> (port: Option<Port>)
    ensures
        port == announced(line@),
        port is Some ==> port->0 > 0,
{
    let n = line.len();
    if n < 1 || line[n - 1] != 0x2eu8 {
        return None;
    }
    let end = n - 1;
    let mut start: usize = end;
    while start > 0 && 0x30 <= line[start - 1] && line[start - 1] <= 0x39
        invariant
            start <= end < line@.len(),
            digits_start(line@, start as int) == digits_start(line@, end as int),
            forall|i: int| start <= i < end ==> is_digit(line@[i]),
        decreases start,
    {
        start = start - 1;
    }
    if start >= end || start < 6 {
        return None;
    }
    if !(line[start - 6] == 0x20u8 && line[start - 5] == 0x70u8 && line[start - 4] == 0x6fu8
        && line[start - 3] == 0x72u8 && line[start - 2] == 0x74u8 && line[start - 1] == 0x20u8) {
        assert(line@.subrange(start - 6, start as int)[0] == line@[start - 6]);
        assert(line@.subrange(start - 6, start as int)[1] == line@[start - 5]);
        assert(line@.subrange(start - 6, start as int)[2] == line@[start - 4]);
        assert(line@.subrange(start - 6, start as int)[3] == line@[start - 3]);
        assert(line@.subrange(start - 6, start as int)[4] == line@[start - 2]);
        assert(line@.subrange(start - 6, start as int)[5] == line@[start - 1]);
        return None;
    }
    assert(line@.subrange(start - 6, start as int) =~= marker());
    let ghost digits = line@.subrange(start as int, end as int);
    let mut value: usize = 0;
    let mut i: usize = start;
    while i < end
        invariant
            6 <= start <= i <= end < line@.len(),
            end == line@.len() - 1,
            line@[end as int] == 0x2eu8,
            start < end,
            start as int == digits_start(line@, end as int),
            line@.subrange(start - 6, start as int) == marker(),
            digits == line@.subrange(start as int, end as int),
            forall|j: int| start <= j < end ==> is_digit(line@[j]),
            forall|j: int| 0 <= j < digits.len() ==> is_digit(digits[j]),
            value == digits_value(digits.take(i - start)),
        decreases end - i,
    {
        let d = (line[i] - 0x30u8) as usize;
        proof {
            assert(digits.take(i + 1 - start).drop_last() =~= digits.take(i - start));
            assert(digits.take(i + 1 - start).last() == line@[i as int]);
            lemma_digits_value_grows(digits, i + 1 - start);
        }
        if value > (usize::MAX - d) / 10 {
            return None;
        }
        value = value * 10 + d;
        i = i + 1;
    }
    assert(digits.take(end - start) =~= digits);
    if value == 0 {
        None
    } else {
        Some(value)
    }
}

} // verus!
