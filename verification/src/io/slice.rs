//! Which rows the `slice`, `head`, `tail` and `count` commands show or
//! count; `slice` decides as the rows are read one by one.
use vstd::prelude::*;

verus! {

/// What to do with the row just read.
#[derive(Debug, Clone, Copy, PartialEq, Eq, Structural)]
pub struct SliceStep {
    /// Write the row.
    pub write: bool,
    /// Read no more rows after this one.
    pub stop: bool,
}

/// The end, not included, of a slice: `start` plus `length` when a length
/// is given (the end is then ignored), else `end` when given, else no end.
pub fn slice_end(start: usize, end: Option<usize>, length: Option<usize>) -> (e: usize)
    requires
        length is Some ==> start + length->0 <= usize::MAX,
    ensures
        e == match length {
            Some(l) => (start + l) as usize,
            None => match end {
                Some(e) => e,
                None => usize::MAX,
            },
        },
{
    match length {
        Some(l) => start + l,
        None => match end {
            Some(e) => e,
            None => usize::MAX,
        },
    }
}

/// The step for row `n` (counting from 0 after the header) of the slice
/// `start..end`: rows from `end` on end the reading unwritten; rows from
/// `start` on are written.
pub fn range_step(n: usize, start: usize, end: usize) -> (s: SliceStep)
    ensures
        s.stop == (n >= end),
        s.write == (start <= n < end),
{
    if n >= end {
        SliceStep { write: false, stop: true }
    } else {
        SliceStep { write: n >= start, stop: false }
    }
}

/// The step for row `n` when only row `index` is shown: it is written, and
/// the reading ends with it.
pub fn index_step(n: usize, index: usize) -> (s: SliceStep)
    ensures
        s.write == (n == index),
        s.stop == (n == index),
{
    if n == index {
        SliceStep { write: true, stop: true }
    } else {
        SliceStep { write: false, stop: false }
    }
}

/// The number of lines that `head` shows: `n` rows and the header, if any.
pub fn head_lines(n: usize, no_header: bool) -> (k: usize)
    requires
        !no_header ==> n < usize::MAX,
    ensures
        k == if no_header { n as int } else { n + 1 },
{
    if no_header { n } else { n + 1 }
}

/// The first of the lines that `tail` shows after the header: the last `n`
/// of the rows after the header, or all of them when there are fewer.
pub fn tail_start(len: usize, n: usize, no_header: bool) -> (start: usize)
    ensures
        ({
            let body = if no_header || len == 0 { 0int } else { 1int };
            start == if len - body <= n { body } else { len - n as int }
        }),
{
    let body: usize = if no_header || len == 0 { 0 } else { 1 };
    if len - body <= n { body } else { len - n }
}

/// The number of rows of `lines` lines: all of them, or all but the header.
pub fn data_rows(lines: usize, no_header: bool) -> (n: usize)
    ensures
        n == if !no_header && lines > 0 { lines - 1 } else { lines as int },
{
    if !no_header && lines > 0 { lines - 1 } else { lines }
}

} // verus!
