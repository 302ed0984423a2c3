//! Reading the summary line of a diff: `3 files changed, 9 insertions(+),
//! 3 deletions(-)`.

use crate::format::DiffStat;
use crate::text::{chars_of, find_char, index_of, number, parse_u64, trim_bounds, trim_range};
use vstd::prelude::*;

verus! {

/// Why a summary line could not be read.
#[derive(Clone, Copy, Debug, PartialEq, Eq, Structural)]
pub enum DiffStatError {
    /// The line has more than three parts.
    TooManyParts,
    /// The lines added and removed do not fit one number.
    Overflow,
}

/// The number at the start of the part `s[from..to]`: the part without the
/// blanks at its ends must hold a space, and what stands before the first
/// space must be a number.
pub open spec fn leading_number(s: Seq<char>, from: int, to: int) -> Option<nat> {
    let (a, b) = trim_bounds(s, from, to);
    let space = index_of(s, ' ', a, b);
    if space >= b {
        None
    } else {
        number(s.subrange(a, space), u64::MAX as nat)
    }
}

/// The number of a part, or zero where the part has none.
pub open spec fn part_count(s: Seq<char>, from: int, to: int) -> nat {
    match leading_number(s, from, to) {
        Some(n) => n,
        None => 0,
    }
}

/// The number of lines that a summary line counts: the numbers of its
/// second and third part, the parts being divided by commas. An empty line
/// counts nothing; the first part, the number of files, does not count.
pub open spec fn diffstat_count(s: Seq<char>) -> Result<nat, DiffStatError> {
    let len = s.len() as int;
    let first = index_of(s, ',', 0, len);
    if first >= len {
        Ok(0)
    } else {
        let second = index_of(s, ',', first + 1, len);
        let added = part_count(s, first + 1, second);
        if second >= len {
            Ok(added)
        } else {
            let third = index_of(s, ',', second + 1, len);
            let removed = part_count(s, second + 1, third);
            if third < len {
                Err(DiffStatError::TooManyParts)
            } else if added + removed > u64::MAX {
                Err(DiffStatError::Overflow)
            } else {
                Ok(added + removed)
            }
        }
    }
}

fn count_part(s: &Vec<char>, from: usize, to: usize) -> (count: u64)
    requires
        from <= to <= s@.len(),
    ensures
        count == part_count(s@, from as int, to as int),
{
    let (a, b) = trim_range(s, from, to);
    let space = find_char(s, ' ', a, b);
    if space >= b {
        return 0;
    }
    match parse_u64(s, a, space) {
        Some(n) => n,
        None => 0,
    }
}

/// Reads the summary line of a diff.
pub fn parse_diffstat(raw: String) -> (parsed: Result<DiffStat, DiffStatError>)
    ensures
        match parsed {
            Ok(stat) => stat.raw == raw && diffstat_count(raw@) == Ok::<nat, DiffStatError>(
                stat.count as nat,
            ),
            Err(e) => diffstat_count(raw@) == Err::<nat, DiffStatError>(e),
        },
{
    let s = chars_of(raw.as_str());
    let len = s.len();
    let first = find_char(&s, ',', 0, len);
    if first >= len {
        return Ok(DiffStat { raw, count: 0 });
    }
    let second = find_char(&s, ',', first + 1, len);
    let added = count_part(&s, first + 1, second);
    if second >= len {
        return Ok(DiffStat { raw, count: added });
    }
    let third = find_char(&s, ',', second + 1, len);
    let removed = count_part(&s, second + 1, third);
    if third < len {
        return Err(DiffStatError::TooManyParts);
    }
    if added > u64::MAX - removed {
        return Err(DiffStatError::Overflow);
    }
    Ok(DiffStat { raw, count: added + removed })
}

} // verus!
