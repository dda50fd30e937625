//! Splitting one CSV row into its fields.
//!
//! Supported conventions:
//! 1. a field may be enclosed in the quote character;
//! 2. a quoted field may hold the separator;
//! 3. a quote inside a field may be escaped by a preceding backslash;
//! 4. a quote inside a field may be escaped by a preceding quote.
use vstd::prelude::*;
use crate::utils::text::{chars_of, split_from, split_text, string_from_chars};

verus! {

/// The field that starts at `start` and ends just before `end`. A quoted
/// field that holds no separator loses its enclosing quotes; a quoted field
/// that holds a separator keeps them.
pub open spec fn field_of(row: Seq<char>, start: int, end: int, quoted: bool, has_sep: bool) -> Seq<char> {
    let shift: int = if quoted && !has_sep { 1 } else { 0 };
    let i = start + shift;
    let j = end - shift;
    if 0 <= i <= j <= row.len() { row.subrange(i, j) } else { seq![] }
}

/// The fields of `row` read from position `pos` on, inside a field that
/// started at `start`. `quoted`: the field opened with a quote; `has_sep`: a
/// separator was met inside the quotes; `in_quoted`: the scan is inside the
/// quotes; `at_start`: `pos` is the first position of the field.
pub open spec fn scan(
    row: Seq<char>,
    sep: char,
    quote: char,
    pos: int,
    start: int,
    quoted: bool,
    has_sep: bool,
    in_quoted: bool,
    at_start: bool,
) -> Seq<Seq<char>>
    decreases row.len() + 1 - pos,
{
    if pos >= row.len() || pos < 0 {
        seq![field_of(row, start, row.len() as int, quoted, has_sep)]
    } else {
        let c = row[pos];
        if c == '\\' {
            // the character after a backslash is taken as it is
            scan(row, sep, quote, pos + 2, start, quoted, has_sep, in_quoted, false)
        } else if c == sep {
            if in_quoted {
                scan(row, sep, quote, pos + 1, start, quoted, true, in_quoted, false)
            } else {
                seq![field_of(row, start, pos, quoted, has_sep)]
                    + scan(row, sep, quote, pos + 1, pos + 1, false, false, false, true)
            }
        } else if c == quote {
            if at_start {
                scan(row, sep, quote, pos + 1, start, true, has_sep, true, false)
            } else if pos + 1 >= row.len() || row[pos + 1] == sep {
                scan(row, sep, quote, pos + 1, start, quoted, has_sep, false, false)
            } else {
                // a doubled quote is taken as it is
                scan(row, sep, quote, pos + 2, start, quoted, has_sep, in_quoted, false)
            }
        } else {
            scan(row, sep, quote, pos + 1, start, quoted, has_sep, in_quoted, false)
        }
    }
}

/// The fields of `row`, split at `sep`, with `quote` as the quote character.
pub open spec fn split_row(row: Seq<char>, sep: char, quote: char) -> Seq<Seq<char>> {
    scan(row, sep, quote, 0, 0, false, false, false, true)
}

/// The fields that remain after position `pos`, when a field starts there.
pub open spec fn fields_from(row: Seq<char>, sep: char, quote: char, pos: int) -> Seq<Seq<char>> {
    scan(row, sep, quote, pos, pos, false, false, false, true)
}

/// Every scan at or past the end of the row ends the field there.
proof fn lemma_scan_past_end(
    row: Seq<char>, sep: char, quote: char, p1: int, p2: int, start: int,
    quoted: bool, has_sep: bool, in_quoted: bool, a1: bool, a2: bool,
)
    requires
        p1 >= row.len(),
        p2 >= row.len(),
    ensures
        scan(row, sep, quote, p1, start, quoted, has_sep, in_quoted, a1)
            == scan(row, sep, quote, p2, start, quoted, has_sep, in_quoted, a2),
{
}

/// A scan yields at least one field.
proof fn lemma_scan_nonempty(
    row: Seq<char>, sep: char, quote: char, pos: int, start: int,
    quoted: bool, has_sep: bool, in_quoted: bool, at_start: bool,
)
    ensures
        scan(row, sep, quote, pos, start, quoted, has_sep, in_quoted, at_start).len() >= 1,
    decreases row.len() + 1 - pos,
{
    if pos >= row.len() || pos < 0 {
    } else {
        let c = row[pos];
        if c == '\\' {
            lemma_scan_nonempty(row, sep, quote, pos + 2, start, quoted, has_sep, in_quoted, false);
        } else if c == sep {
            if in_quoted {
                lemma_scan_nonempty(row, sep, quote, pos + 1, start, quoted, true, in_quoted, false);
            }
        } else if c == quote {
            if at_start {
                lemma_scan_nonempty(row, sep, quote, pos + 1, start, true, has_sep, true, false);
            } else if pos + 1 >= row.len() || row[pos + 1] == sep {
                lemma_scan_nonempty(row, sep, quote, pos + 1, start, quoted, has_sep, false, false);
            } else {
                lemma_scan_nonempty(row, sep, quote, pos + 2, start, quoted, has_sep, in_quoted, false);
            }
        } else {
            lemma_scan_nonempty(row, sep, quote, pos + 1, start, quoted, has_sep, in_quoted, false);
        }
    }
}

/// The fields joined back into one row, with `sep` between two fields.
pub open spec fn join_fields(fields: Seq<Seq<char>>, sep: char) -> Seq<char>
    decreases fields.len(),
{
    if fields.len() == 0 {
        seq![]
    } else if fields.len() == 1 {
        fields[0]
    } else {
        fields[0] + seq![sep] + join_fields(fields.drop_first(), sep)
    }
}

/// A row that holds neither the quote character nor a backslash.
pub open spec fn is_plain_row(row: Seq<char>, quote: char) -> bool {
    forall|i: int| 0 <= i < row.len() ==> row[i] != quote && row[i] != '\\'
}

proof fn lemma_plain_scan(row: Seq<char>, sep: char, quote: char, pos: int, start: int, at_start: bool)
    requires
        is_plain_row(row, quote),
        0 <= start <= pos <= row.len(),
        !row.subrange(start, pos).contains(sep),
    ensures
        join_fields(scan(row, sep, quote, pos, start, false, false, false, at_start), sep)
            == row.subrange(start, row.len() as int),
        forall|k: int| 0 <= k < scan(row, sep, quote, pos, start, false, false, false, at_start).len()
            ==> !(#[trigger] scan(row, sep, quote, pos, start, false, false, false, at_start)[k]).contains(sep),
    decreases row.len() - pos,
{
    let fs = scan(row, sep, quote, pos, start, false, false, false, at_start);
    if pos >= row.len() {
        assert(fs == seq![row.subrange(start, row.len() as int)]);
    } else {
        let c = row[pos];
        assert(c != quote && c != '\\');
        if c == sep {
            let rest = scan(row, sep, quote, pos + 1, pos + 1, false, false, false, true);
            assert(row.subrange(pos + 1, pos + 1) =~= Seq::<char>::empty());
            lemma_plain_scan(row, sep, quote, pos + 1, pos + 1, true);
            lemma_scan_nonempty(row, sep, quote, pos + 1, pos + 1, false, false, false, true);
            assert(fs == seq![row.subrange(start, pos)] + rest);
            assert(fs.drop_first() =~= rest);
            assert(row.subrange(start, row.len() as int)
                =~= row.subrange(start, pos) + seq![sep] + row.subrange(pos + 1, row.len() as int));
            assert forall|k: int| 0 <= k < fs.len() implies !(#[trigger] fs[k]).contains(sep) by {
                if k > 0 {
                    assert(fs[k] == rest[k - 1]);
                }
            }
        } else {
            assert(row.subrange(start, pos + 1) =~= row.subrange(start, pos).push(c));
            assert forall|i: int| 0 <= i < row.subrange(start, pos + 1).len()
                implies #[trigger] row.subrange(start, pos + 1)[i] != sep by {
                if i < pos - start {
                    assert(row.subrange(start, pos + 1)[i] == row.subrange(start, pos)[i]);
                }
            }
            lemma_plain_scan(row, sep, quote, pos + 1, start, false);
        }
    }
}

/// A row that holds no quote character and no backslash splits exactly at
/// each separator: no field holds the separator, and joining the fields with
/// the separator gives the row back.
pub proof fn plain_row_fields_rejoin(row: Seq<char>, sep: char, quote: char)
    requires
        is_plain_row(row, quote),
    ensures
        join_fields(split_row(row, sep, quote), sep) == row,
        forall|k: int| 0 <= k < split_row(row, sep, quote).len()
            ==> !(#[trigger] split_row(row, sep, quote)[k]).contains(sep),
{
    assert(row.subrange(0, 0) =~= Seq::<char>::empty());
    lemma_plain_scan(row, sep, quote, 0, 0, true);
    assert(row.subrange(0, row.len() as int) =~= row);
}

proof fn lemma_plain_scan_is_plain_split(row: Seq<char>, sep: char, quote: char, pos: int, start: int, at_start: bool)
    requires
        is_plain_row(row, quote),
        0 <= start <= pos <= row.len(),
    ensures
        scan(row, sep, quote, pos, start, false, false, false, at_start)
            == split_from(row, seq![sep], start, pos),
    decreases row.len() - pos,
{
    if pos < row.len() {
        let c = row[pos];
        assert(c != quote && c != '\\');
        assert((row.subrange(pos, pos + 1) == seq![sep]) == (c == sep)) by {
            if c == sep {
                assert(row.subrange(pos, pos + 1) =~= seq![sep]);
            } else {
                assert(row.subrange(pos, pos + 1)[0] == c);
            }
        }
        if c == sep {
            lemma_plain_scan_is_plain_split(row, sep, quote, pos + 1, pos + 1, true);
        } else {
            lemma_plain_scan_is_plain_split(row, sep, quote, pos + 1, start, false);
        }
    }
}

/// A row that holds no quote character and no backslash splits as a plain
/// split at the separator does.
pub proof fn plain_row_splits_plainly(row: Seq<char>, sep: char, quote: char)
    requires
        is_plain_row(row, quote),
    ensures
        split_row(row, sep, quote) == split_text(row, seq![sep]),
{
    lemma_plain_scan_is_plain_split(row, sep, quote, 0, 0, true);
}

proof fn lemma_scan_len_bound(
    row: Seq<char>, sep: char, quote: char, pos: int, start: int,
    quoted: bool, has_sep: bool, in_quoted: bool, at_start: bool,
)
    requires
        0 <= pos,
    ensures
        scan(row, sep, quote, pos, start, quoted, has_sep, in_quoted, at_start).len()
            <= (if pos < row.len() { row.len() - pos } else { 0 }) + 1,
    decreases row.len() + 1 - pos,
{
    if pos < row.len() {
        let c = row[pos];
        if c == '\\' {
            lemma_scan_len_bound(row, sep, quote, pos + 2, start, quoted, has_sep, in_quoted, false);
        } else if c == sep {
            if in_quoted {
                lemma_scan_len_bound(row, sep, quote, pos + 1, start, quoted, true, in_quoted, false);
            } else {
                lemma_scan_len_bound(row, sep, quote, pos + 1, pos + 1, false, false, false, true);
            }
        } else if c == quote {
            if at_start {
                lemma_scan_len_bound(row, sep, quote, pos + 1, start, true, has_sep, true, false);
            } else if pos + 1 >= row.len() || row[pos + 1] == sep {
                lemma_scan_len_bound(row, sep, quote, pos + 1, start, quoted, has_sep, false, false);
            } else {
                lemma_scan_len_bound(row, sep, quote, pos + 2, start, quoted, has_sep, in_quoted, false);
            }
        } else {
            lemma_scan_len_bound(row, sep, quote, pos + 1, start, quoted, has_sep, in_quoted, false);
        }
    }
}

/// A row splits into at most one field more than it has characters.
pub proof fn split_row_len_bound(row: Seq<char>, sep: char, quote: char)
    ensures
        split_row(row, sep, quote).len() <= row.len() + 1,
{
    lemma_scan_len_bound(row, sep, quote, 0, 0, false, false, false, true);
}

/// `f` is the text of `row` between two positions.
pub open spec fn is_slice_of(row: Seq<char>, f: Seq<char>) -> bool {
    exists|i: int, j: int| 0 <= i <= j <= row.len() && f == row.subrange(i, j)
}

proof fn lemma_field_is_slice(row: Seq<char>, start: int, end: int, quoted: bool, has_sep: bool)
    ensures
        is_slice_of(row, field_of(row, start, end, quoted, has_sep)),
{
    let shift: int = if quoted && !has_sep { 1 } else { 0 };
    let i = start + shift;
    let j = end - shift;
    if 0 <= i <= j <= row.len() {
        assert(field_of(row, start, end, quoted, has_sep) == row.subrange(i, j));
    } else {
        assert(field_of(row, start, end, quoted, has_sep) =~= row.subrange(0, 0));
    }
}

proof fn lemma_scan_slices(
    row: Seq<char>, sep: char, quote: char, pos: int, start: int,
    quoted: bool, has_sep: bool, in_quoted: bool, at_start: bool,
)
    ensures
        forall|k: int| 0 <= k < scan(row, sep, quote, pos, start, quoted, has_sep, in_quoted, at_start).len()
            ==> is_slice_of(row, #[trigger] scan(row, sep, quote, pos, start, quoted, has_sep, in_quoted, at_start)[k]),
    decreases row.len() + 1 - pos,
{
    let fs = scan(row, sep, quote, pos, start, quoted, has_sep, in_quoted, at_start);
    if pos >= row.len() || pos < 0 {
        lemma_field_is_slice(row, start, row.len() as int, quoted, has_sep);
        assert(fs == seq![field_of(row, start, row.len() as int, quoted, has_sep)]);
        assert forall|k: int| 0 <= k < fs.len() implies is_slice_of(row, #[trigger] fs[k]) by {
            assert(fs[k] == field_of(row, start, row.len() as int, quoted, has_sep));
        }
    } else {
        let c = row[pos];
        if c == '\\' {
            lemma_scan_slices(row, sep, quote, pos + 2, start, quoted, has_sep, in_quoted, false);
            assert(fs == scan(row, sep, quote, pos + 2, start, quoted, has_sep, in_quoted, false));
        } else if c == sep {
            if in_quoted {
                lemma_scan_slices(row, sep, quote, pos + 1, start, quoted, true, in_quoted, false);
                assert(fs == scan(row, sep, quote, pos + 1, start, quoted, true, in_quoted, false));
            } else {
                let rest = scan(row, sep, quote, pos + 1, pos + 1, false, false, false, true);
                lemma_scan_slices(row, sep, quote, pos + 1, pos + 1, false, false, false, true);
                lemma_field_is_slice(row, start, pos, quoted, has_sep);
                assert forall|k: int| 0 <= k < fs.len() implies is_slice_of(row, #[trigger] fs[k]) by {
                    if k > 0 {
                        assert(fs[k] == rest[k - 1]);
                    }
                }
            }
        } else if c == quote {
            if at_start {
                lemma_scan_slices(row, sep, quote, pos + 1, start, true, has_sep, true, false);
                assert(fs == scan(row, sep, quote, pos + 1, start, true, has_sep, true, false));
            } else if pos + 1 >= row.len() || row[pos + 1] == sep {
                lemma_scan_slices(row, sep, quote, pos + 1, start, quoted, has_sep, false, false);
                assert(fs == scan(row, sep, quote, pos + 1, start, quoted, has_sep, false, false));
            } else {
                lemma_scan_slices(row, sep, quote, pos + 2, start, quoted, has_sep, in_quoted, false);
                assert(fs == scan(row, sep, quote, pos + 2, start, quoted, has_sep, in_quoted, false));
            }
        } else {
            lemma_scan_slices(row, sep, quote, pos + 1, start, quoted, has_sep, in_quoted, false);
            assert(fs == scan(row, sep, quote, pos + 1, start, quoted, has_sep, in_quoted, false));
        }
    }
}

/// Every field of a row is the row's text between two positions.
pub proof fn fields_are_slices(row: Seq<char>, sep: char, quote: char)
    ensures
        forall|k: int| 0 <= k < split_row(row, sep, quote).len()
            ==> is_slice_of(row, #[trigger] split_row(row, sep, quote)[k]),
{
    lemma_scan_slices(row, sep, quote, 0, 0, false, false, false, true);
}

/// `x` with each quote character doubled.
pub open spec fn doubled_quotes(x: Seq<char>, quote: char) -> Seq<char>
    decreases x.len(),
{
    if x.len() == 0 {
        seq![]
    } else {
        (if x[0] == quote { seq![quote, quote] } else { seq![x[0]] }) + doubled_quotes(x.drop_first(), quote)
    }
}

/// The quoted form of the text `x`: its quotes doubled, enclosed in quotes.
pub open spec fn quoted_text(x: Seq<char>, quote: char) -> Seq<char> {
    seq![quote] + doubled_quotes(x, quote) + seq![quote]
}

/// Scanning the quoted form of `x` inside its quotes reaches the closing
/// quote with nothing cut, having met a separator exactly when `x` holds one.
proof fn lemma_scan_doubled(
    row: Seq<char>, sep: char, quote: char, x: Seq<char>, pos: int, has_sep: bool,
)
    requires
        sep != quote,
        quote != '\\',
        !x.contains('\\'),
        0 <= pos,
        pos + doubled_quotes(x, quote).len() < row.len(),
        row.subrange(pos, pos + doubled_quotes(x, quote).len()) == doubled_quotes(x, quote),
        row[pos + doubled_quotes(x, quote).len()] == quote,
    ensures
        scan(row, sep, quote, pos, 0, true, has_sep, true, false)
            == scan(row, sep, quote, pos + doubled_quotes(x, quote).len(), 0, true,
                has_sep || x.contains(sep), true, false),
    decreases x.len(),
{
    let d = doubled_quotes(x, quote);
    if x.len() == 0 {
        assert(!x.contains(sep));
    } else {
        let c = x[0];
        let rest = x.drop_first();
        let dr = doubled_quotes(rest, quote);
        let head: Seq<char> = if c == quote { seq![quote, quote] } else { seq![c] };
        assert(d == head + dr);
        let step = head.len() as int;
        assert(row[pos] == d[0]);
        assert forall|i: int| 0 <= i < dr.len() implies row.subrange(pos + step, pos + step + dr.len())[i] == dr[i] by {
            assert(row.subrange(pos, pos + d.len())[step + i] == d[step + i]);
        }
        assert(row.subrange(pos + step, pos + step + dr.len()) =~= dr);
        assert(!rest.contains('\\')) by {
            if rest.contains('\\') {
                let k = choose|k: int| 0 <= k < rest.len() && rest[k] == '\\';
                assert(x[k + 1] == '\\');
            }
        }
        assert(x.contains(sep) == (c == sep || rest.contains(sep))) by {
            if rest.contains(sep) {
                let k = choose|k: int| 0 <= k < rest.len() && rest[k] == sep;
                assert(x[k + 1] == sep);
            }
            if x.contains(sep) && c != sep {
                let k = choose|k: int| 0 <= k < x.len() && x[k] == sep;
                assert(rest[k - 1] == sep);
            }
            if c == sep {
                assert(x[0] == sep);
            }
        }
        assert(c != '\\') by {
            assert(x[0] == c);
        }
        if c == quote {
            assert(row[pos + 1] == d[1]);
            assert(pos + 1 < row.len());
            lemma_scan_doubled(row, sep, quote, rest, pos + 2, has_sep);
        } else if c == sep {
            lemma_scan_doubled(row, sep, quote, rest, pos + 1, true);
        } else {
            lemma_scan_doubled(row, sep, quote, rest, pos + 1, has_sep);
        }
    }
}

/// The rest of a row that holds no separator, quote or backslash is one
/// field running to its end.
proof fn lemma_scan_plain_tail(row: Seq<char>, sep: char, quote: char, pos: int, start: int, at_start: bool)
    requires
        0 <= start <= pos <= row.len(),
        forall|i: int| pos <= i < row.len() ==> row[i] != sep && row[i] != quote && row[i] != '\\',
    ensures
        scan(row, sep, quote, pos, start, false, false, false, at_start) == seq![row.subrange(start, row.len() as int)],
    decreases row.len() - pos,
{
    if pos < row.len() {
        lemma_scan_plain_tail(row, sep, quote, pos + 1, start, false);
    }
}

/// Inside a quoted field a doubled quote is an escaped quote and never
/// closes the field: the quoted form of a text, then the separator and a
/// plain field, splits into exactly two fields. The first is the whole
/// quoted form when the text holds the separator, and otherwise the text
/// inside the enclosing quotes (doubled quotes left as they are).
pub proof fn quoted_field_stays_whole(x: Seq<char>, y: Seq<char>, sep: char, quote: char)
    requires
        sep != quote,
        sep != '\\',
        quote != '\\',
        !x.contains('\\'),
        !y.contains(sep),
        !y.contains(quote),
        !y.contains('\\'),
    ensures
        split_row(quoted_text(x, quote) + seq![sep] + y, sep, quote) == seq![
            if x.contains(sep) { quoted_text(x, quote) } else { doubled_quotes(x, quote) },
            y,
        ],
{
    let q = quoted_text(x, quote);
    let d = doubled_quotes(x, quote);
    let row = q + seq![sep] + y;
    let n = d.len() as int;
    let hs = x.contains(sep);
    assert(row.subrange(1, 1 + n) =~= d);
    assert(row[1 + n] == quote);
    assert(row[0] == quote);
    // the opening quote
    assert(split_row(row, sep, quote) == scan(row, sep, quote, 1, 0, true, false, true, false));
    lemma_scan_doubled(row, sep, quote, x, 1, false);
    // the closing quote, followed by the separator
    assert(row[n + 2] == sep);
    assert(scan(row, sep, quote, 1 + n, 0, true, hs, true, false)
        == scan(row, sep, quote, n + 2, 0, true, hs, false, false));
    assert forall|i: int| n + 3 <= i < row.len() implies row[i] != sep && row[i] != quote && row[i] != '\\' by {
        assert(row[i] == y[i - n - 3]);
    }
    lemma_scan_plain_tail(row, sep, quote, n + 3, n + 3, true);
    assert(row.subrange(0, n + 2) =~= q);
    assert(row.subrange(1, n + 1) =~= d);
    assert(row.subrange(n + 3, row.len() as int) =~= y);
    let first = if hs { q } else { d };
    assert(field_of(row, 0, n + 2, true, hs) == first);
    assert(scan(row, sep, quote, n + 2, 0, true, hs, false, false)
        == seq![first] + scan(row, sep, quote, n + 3, n + 3, false, false, false, true));
    assert(seq![first] + seq![y] =~= seq![first, y]);
}

/// A backslash takes the character after it as it is: a separator after a
/// backslash does not end the field.
pub proof fn backslash_escapes_separator(a: Seq<char>, b: Seq<char>, sep: char, quote: char)
    requires
        sep != quote,
        sep != '\\',
        quote != '\\',
        !a.contains(sep) && !a.contains(quote) && !a.contains('\\'),
        !b.contains(sep) && !b.contains(quote) && !b.contains('\\'),
    ensures
        split_row(a + seq!['\\', sep] + b, sep, quote) == seq![a + seq!['\\', sep] + b],
{
    let row = a + seq!['\\', sep] + b;
    let n = a.len() as int;
    assert forall|i: int| 0 <= i < n implies row[i] != sep && row[i] != quote && row[i] != '\\' by {
        assert(row[i] == a[i]);
    }
    assert forall|i: int| n + 2 <= i < row.len() implies row[i] != sep && row[i] != quote && row[i] != '\\' by {
        assert(row[i] == b[i - n - 2]);
    }
    lemma_scan_plain_tail(row, sep, quote, n + 2, 0, false);
    lemma_scan_plain_head(row, sep, quote, 0, n, n == 0);
    assert(row[n] == '\\');
    assert(row.subrange(0, row.len() as int) =~= row);
}

/// Scanning characters that are no separator, quote or backslash goes on
/// in the same field.
proof fn lemma_scan_plain_head(row: Seq<char>, sep: char, quote: char, pos: int, end: int, at_end_start: bool)
    requires
        0 <= pos <= end < row.len(),
        forall|i: int| pos <= i < end ==> row[i] != sep && row[i] != quote && row[i] != '\\',
        at_end_start == (end == 0),
    ensures
        scan(row, sep, quote, pos, 0, false, false, false, pos == 0)
            == scan(row, sep, quote, end, 0, false, false, false, at_end_start),
    decreases end - pos,
{
    if pos < end {
        lemma_scan_plain_head(row, sep, quote, pos + 1, end, at_end_start);
    }
}

/// Every row splits into at least one field.
pub proof fn split_row_nonempty(row: Seq<char>, sep: char, quote: char)
    ensures
        split_row(row, sep, quote).len() >= 1,
{
    lemma_scan_nonempty(row, sep, quote, 0, 0, false, false, false, true);
}

/// An iterator-like splitter over the fields of one row.
pub struct CsvRowSplitter {
    row: Vec<char>,
    sep: char,
    quote: char,
    parse_done: bool,
    pos: usize,
    field_start_index: usize,
    field_is_quoted: bool,
    field_has_separator: bool,
    cur_in_quoted_field: bool,
    cur_is_field_start: bool,
}

impl CsvRowSplitter {
    /// Between two calls of `next`, the splitter stands at the start of a
    /// field.
    pub closed spec fn wf(&self) -> bool {
        &&& self.pos <= self.row.len()
        &&& self.field_start_index == self.pos
        &&& !self.field_is_quoted
        &&& !self.field_has_separator
        &&& !self.cur_in_quoted_field
        &&& self.cur_is_field_start
    }

    /// The fields that calls of `next` will still return, in order.
    pub closed spec fn remaining(&self) -> Seq<Seq<char>> {
        if self.parse_done {
            seq![]
        } else {
            fields_from(self.row@, self.sep, self.quote, self.pos as int)
        }
    }

    pub fn new(row: &str, sep: char, quote: char) -> (s: CsvRowSplitter)
        ensures
            s.wf(),
            s.remaining() == split_row(row@, sep, quote),
            s.remaining().len() <= row@.len() + 1,
    {
        proof {
            split_row_len_bound(row@, sep, quote);
        }
        CsvRowSplitter {
            row: chars_of(row),
            sep,
            quote,
            parse_done: false,
            pos: 0,
            field_start_index: 0,
            field_is_quoted: false,
            field_has_separator: false,
            cur_in_quoted_field: false,
            cur_is_field_start: true,
        }
    }

    /// Marks `start_index` as the start of a new field.
    fn field_start_set(&mut self, start_index: usize)
        ensures
            final(self).row == old(self).row,
            final(self).sep == old(self).sep,
            final(self).quote == old(self).quote,
            final(self).parse_done == old(self).parse_done,
            final(self).pos == old(self).pos,
            final(self).field_start_index == start_index,
            !final(self).field_is_quoted,
            !final(self).field_has_separator,
            !final(self).cur_in_quoted_field,
            final(self).cur_is_field_start,
    {
        self.field_start_index = start_index;
        self.field_is_quoted = false;
        self.field_has_separator = false;
        self.cur_in_quoted_field = false;
        self.cur_is_field_start = true;
    }

    /// The current field, ending just before `end_index`.
    fn get_field(&self, end_index: usize) -> (f: String)
        requires
            self.field_start_index <= end_index <= self.row.len(),
        ensures
            f@ == field_of(
                self.row@,
                self.field_start_index as int,
                end_index as int,
                self.field_is_quoted,
                self.field_has_separator,
            ),
    {
        let start = self.field_start_index;
        if !(self.field_is_quoted && !self.field_has_separator) {
            string_from_chars(&self.row, start, end_index)
        } else if start < end_index && start + 1 < end_index {
            // drop the enclosing quotes
            string_from_chars(&self.row, start + 1, end_index - 1)
        } else {
            String::new()
        }
    }

    /// Whether the character after the current one is missing or is the
    /// separator.
    fn next_char_is_none_or_sep(&self) -> (b: bool)
        requires
            self.pos < self.row.len(),
        ensures
            b == (self.pos + 1 >= self.row.len() || self.row@[self.pos + 1] == self.sep),
    {
        self.pos + 1 >= self.row.len() || self.row[self.pos + 1] == self.sep
    }

    /// The next field, if any is left.
    pub fn next(&mut self) -> (f: Option<String>)
        requires
            old(self).wf(),
        ensures
            final(self).wf(),
            old(self).remaining().len() == 0 ==> f is None && final(self).remaining() == old(self).remaining(),
            old(self).remaining().len() > 0 ==> f is Some && f->0@ == old(self).remaining()[0]
                && final(self).remaining() == old(self).remaining().drop_first(),
    {
        if self.parse_done {
            return None;
        }
        let ghost rest = self.remaining();
        let ghost row = self.row@;
        proof {
            lemma_scan_nonempty(row, self.sep, self.quote, self.pos as int, self.pos as int,
                false, false, false, true);
        }
        let len = self.row.len();
        loop
            invariant
                row == self.row@,
                row == old(self).row@,
                self.sep == old(self).sep,
                self.quote == old(self).quote,
                rest == old(self).remaining(),
                len == self.row.len(),
                !self.parse_done,
                self.field_start_index <= self.pos <= len,
                self.field_has_separator ==> self.field_is_quoted,
                self.cur_in_quoted_field ==> self.field_is_quoted,
                self.field_is_quoted ==> self.field_start_index < self.pos,
                rest == scan(row, self.sep, self.quote, self.pos as int,
                    self.field_start_index as int, self.field_is_quoted,
                    self.field_has_separator, self.cur_in_quoted_field, self.cur_is_field_start),
                rest.len() > 0,
            decreases len - self.pos,
        {
            if self.pos >= len {
                // the last field
                self.parse_done = true;
                let f = self.get_field(len);
                self.pos = len;
                self.field_start_set(len);
                assert(rest == seq![f@]);
                assert(rest.drop_first() =~= Seq::<Seq<char>>::empty());
                return Some(f);
            }
            let c = self.row[self.pos];
            let p = self.pos;
            if c == '\\' {
                if p + 1 < len {
                    self.pos = p + 2;
                } else {
                    self.pos = len;
                    proof {
                        lemma_scan_past_end(row, self.sep, self.quote, p + 2, len as int,
                            self.field_start_index as int, self.field_is_quoted,
                            self.field_has_separator, self.cur_in_quoted_field, false, false);
                    }
                }
            } else if c == self.sep {
                if self.cur_in_quoted_field {
                    self.field_has_separator = true;
                    self.pos = p + 1;
                } else {
                    let f = self.get_field(p);
                    self.pos = p + 1;
                    self.field_start_set(p + 1);
                    assert(rest.drop_first() =~= fields_from(row, self.sep, self.quote, (p + 1) as int));
                    return Some(f);
                }
            } else if c == self.quote {
                if self.cur_is_field_start {
                    self.field_is_quoted = true;
                    self.cur_in_quoted_field = true;
                    self.pos = p + 1;
                } else if self.next_char_is_none_or_sep() {
                    self.cur_in_quoted_field = false;
                    self.pos = p + 1;
                } else {
                    // p + 1 < len here
                    self.pos = p + 2;
                }
            } else {
                self.pos = p + 1;
            }
            self.cur_is_field_start = false;
        }
    }

    /// All the fields that are left, in order.
    pub fn collect_fields(&mut self) -> (v: Vec<String>)
        requires
            old(self).wf(),
        ensures
            final(self).wf(),
            v@.map_values(|s: String| s@) == old(self).remaining(),
            final(self).remaining().len() == 0,
    {
        let mut v: Vec<String> = Vec::new();
        let ghost all = self.remaining();
        loop
            invariant
                self.wf(),
                all == old(self).remaining(),
                all == v@.map_values(|s: String| s@) + self.remaining(),
            decreases self.remaining().len(),
        {
            let ghost before = self.remaining();
            proof {
                if !self.parse_done {
                    lemma_scan_nonempty(self.row@, self.sep, self.quote, self.pos as int,
                        self.pos as int, false, false, false, true);
                }
            }
            match self.next() {
                Some(f) => {
                    v.push(f);
                    assert(all =~= v@.map_values(|s: String| s@) + self.remaining()) by {
                        assert(before =~= seq![f@] + before.drop_first());
                    }
                },
                None => {
                    assert(v@.map_values(|s: String| s@) + self.remaining() =~= v@.map_values(|s: String| s@));
                    return v;
                },
            }
        }
    }
}

} // verus!
