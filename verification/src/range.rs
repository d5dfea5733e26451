//! Expansion of one range, such as `01-05` behind the prefix `n`, into the
//! names it stands for.

use vstd::prelude::*;
use crate::error::{ExpandError, Failure};
use crate::number::{
    all_decimal, decimal_value, is_number, lemma_padded_number, lemma_padded_round_trip,
    lemma_prefix_value, padded_chars, padded_number, parse_number,
};
use crate::text::{chars_of, copy_chars, rows, string_of, strings_of, texts};

verus! {

/// The names `prefix` followed by each number from `first` to `last`, in
/// ascending order, each number padded with zeros to `width` characters.
/// There is none when `last` is below `first`.
pub open spec fn range_names(prefix: Seq<char>, first: int, last: int, width: int) -> Seq<
    Seq<char>,
> {
    Seq::new(
        if last >= first {
            (last - first + 1) as nat
        } else {
            0
        },
        |i: int| prefix + padded_number(first + i, width),
    )
}

/// What the range from `start` to `end` behind `prefix` expands to.
///
/// The two ends must be written with the same number of characters, and
/// each must be a number; the start is looked at first. A range whose end is
/// below its start is empty.
pub open spec fn host_range(prefix: Seq<char>, start: Seq<char>, end: Seq<char>) -> Result<
    Seq<Seq<char>>,
    Failure,
> {
    if start.len() != end.len() {
        Err(Failure::MismatchedWidth)
    } else if !is_number(start) {
        Err(Failure::InvalidNumber(start))
    } else if !is_number(end) {
        Err(Failure::InvalidNumber(end))
    } else {
        Ok(range_names(prefix, decimal_value(start), decimal_value(end), start.len() as int))
    }
}

/// A range whose ends are numbers of one width, the start not above the
/// end, expands to one name for each number from the start to the end. Each
/// name is the prefix followed by as many digits as the ends are wide, and
/// these digits denote the number. The first name ends in the start as it is
/// written, the last in the end as it is written.
pub proof fn lemma_range_names(prefix: Seq<char>, start: Seq<char>, end: Seq<char>)
    requires
        is_number(start),
        is_number(end),
        start.len() == end.len(),
        decimal_value(start) <= decimal_value(end),
    ensures
        host_range(prefix, start, end) is Ok,
        host_range(prefix, start, end)->Ok_0.len() == decimal_value(end) - decimal_value(start)
            + 1,
        forall|i: int|
            #![trigger host_range(prefix, start, end)->Ok_0[i]]
            0 <= i < host_range(prefix, start, end)->Ok_0.len() ==> {
                let name = host_range(prefix, start, end)->Ok_0[i];
                let number = name.skip(prefix.len() as int);
                &&& name.len() == prefix.len() + start.len()
                &&& name.take(prefix.len() as int) == prefix
                &&& all_decimal(number)
                &&& decimal_value(number) == decimal_value(start) + i
            },
        host_range(prefix, start, end)->Ok_0.first() == prefix + start,
        host_range(prefix, start, end)->Ok_0.last() == prefix + end,
{
    let names = host_range(prefix, start, end)->Ok_0;
    lemma_padded_round_trip(start);
    lemma_padded_round_trip(end);
    let first: int = decimal_value(start);
    let width: int = start.len() as int;
    lemma_prefix_value(start, 0);
    assert forall|i: int| 0 <= i < names.len() implies {
        let name = #[trigger] names[i];
        let number = name.skip(prefix.len() as int);
        &&& name.len() == prefix.len() + start.len()
        &&& name.take(prefix.len() as int) == prefix
        &&& all_decimal(number)
        &&& decimal_value(number) == first + i
    } by {
        let text = padded_number(first + i, width);
        lemma_padded_number((first + i) as nat, width, end);
        assert(names[i] == prefix + text);
        assert(names[i].take(prefix.len() as int) =~= prefix);
        assert(names[i].skip(prefix.len() as int) =~= text);
    }
}

/// Expands one range, on vectors of characters.
pub fn host_range_chars(prefix: &Vec<char>, start: &Vec<char>, end: &Vec<char>) -> (r: Result<
    Vec<Vec<char>>,
    ExpandError,
>)
    ensures
        match r {
            Ok(names) => host_range(prefix@, start@, end@) == Ok::<Seq<Seq<char>>, Failure>(
                rows(names@),
            ),
            Err(e) => host_range(prefix@, start@, end@) == Err::<Seq<Seq<char>>, Failure>(e@),
        },
{
    let width: usize = start.len();
    if width != end.len() {
        return Err(ExpandError::MismatchedWidth);
    }
    let first: i32 = match parse_number(start) {
        Some(n) => n,
        None => {
            return Err(ExpandError::InvalidNumber(string_of(start)));
        },
    };
    let last: i32 = match parse_number(end) {
        Some(n) => n,
        None => {
            return Err(ExpandError::InvalidNumber(string_of(end)));
        },
    };
    let mut names: Vec<Vec<char>> = Vec::new();
    let mut i: i64 = first as i64;
    while i <= last as i64
        invariant
            first <= i,
            i <= last + 1 || i == first,
            width == start@.len(),
            rows(names@) =~= range_names(prefix@, first as int, i - 1, width as int),
        decreases last + 1 - i,
    {
        let mut name = copy_chars(prefix);
        let mut number = padded_chars(i as i32, width);
        name.append(&mut number);
        proof {
            let before = range_names(prefix@, first as int, i - 1, width as int);
            let after = range_names(prefix@, first as int, i as int, width as int);
            let grown = rows(names@.push(name));
            assert(name@ == prefix@ + padded_number(i as int, width as int));
            assert(after.len() == before.len() + 1 == grown.len());
            assert forall|k: int| 0 <= k < grown.len() implies grown[k] == after[k] by {
                if k < names@.len() {
                    assert(grown[k] == rows(names@)[k]);
                    assert(before[k] == after[k]);
                } else {
                    assert(first + k == i);
                }
            }
            assert(grown =~= after);
        }
        names.push(name);
        i = i + 1;
    }
    Ok(names)
}

/// Expands the range from `start_num` to `end_num` behind `prefix`: one name
/// for each number of the range, in ascending order, each number padded with
/// zeros to the width in which the ends are written.
pub fn get_host_range(prefix: &str, start_num: &str, end_num: &str) -> (r: Result<
    Vec<String>,
    ExpandError,
>)
    ensures
        match r {
            Ok(names) => host_range(prefix@, start_num@, end_num@) == Ok::<
                Seq<Seq<char>>,
                Failure,
            >(texts(names@)),
            Err(e) => host_range(prefix@, start_num@, end_num@) == Err::<
                Seq<Seq<char>>,
                Failure,
            >(e@),
        },
        start_num@.len() != end_num@.len() ==> r is Err && r->Err_0@
            == Failure::MismatchedWidth,
{
    let prefix = chars_of(prefix);
    let start = chars_of(start_num);
    let end = chars_of(end_num);
    match host_range_chars(&prefix, &start, &end) {
        Ok(names) => Ok(strings_of(&names)),
        Err(e) => Err(e),
    }
}

} // verus!
