//! The bytes that a command writes: lines, headers and fields joined with a
//! separator. The bytes build up here and the caller hands them to a file or
//! to standard output.
use vstd::prelude::*;
use vstd::string::StringSliceAdditionalSpecFns;

verus! {

/// Each written line ends with a newline.
pub open spec fn terminator() -> Seq<u8> {
    seq![10u8]
}

/// The bytes of the fields, joined with `sep`, with a newline after the
/// last field; nothing for no fields.
pub open spec fn line_by_field_bytes(fields: Seq<Seq<u8>>, sep: Seq<u8>) -> Seq<u8>
    decreases fields.len(),
{
    if fields.len() == 0 {
        seq![]
    } else if fields.len() == 1 {
        fields[0] + terminator()
    } else {
        fields[0] + sep + line_by_field_bytes(fields.drop_first(), sep)
    }
}

/// The bytes of the lines, each followed by a newline.
pub open spec fn lines_bytes(lines: Seq<Seq<u8>>) -> Seq<u8>
    decreases lines.len(),
{
    if lines.len() == 0 {
        seq![]
    } else {
        lines_bytes(lines.drop_last()) + lines.last() + terminator()
    }
}

/// The separator given, or a comma.
pub open spec fn sep_or_comma(sep: Option<&[u8]>) -> Seq<u8> {
    match sep {
        Some(s) => s@,
        None => seq![44u8],
    }
}

pub struct Writer {
    buf: Vec<u8>,
}

fn append_bytes(buf: &mut Vec<u8>, bytes: &[u8])
    ensures
        final(buf)@ == old(buf)@ + bytes@,
{
    let mut i: usize = 0;
    while i < bytes.len()
        invariant
            i <= bytes@.len(),
            buf@ == old(buf)@ + bytes@.take(i as int),
        decreases bytes@.len() - i,
    {
        buf.push(bytes[i]);
        i += 1;
        assert(buf@ =~= old(buf)@ + bytes@.take(i as int));
    }
    assert(bytes@.take(bytes@.len() as int) =~= bytes@);
}

impl Writer {
    /// The bytes written so far and not taken yet.
    pub closed spec fn written(&self) -> Seq<u8> {
        self.buf@
    }

    pub fn new() -> (w: Writer)
        ensures
            w.written() == Seq::<u8>::empty(),
    {
        Writer { buf: Vec::new() }
    }

    /// Hands over the bytes written so far.
    pub fn take_bytes(&mut self) -> (b: Vec<u8>)
        ensures
            b@ == old(self).written(),
            final(self).written() == Seq::<u8>::empty(),
    {
        let mut out: Vec<u8> = Vec::new();
        std::mem::swap(&mut out, &mut self.buf);
        out
    }

    pub fn write_bytes(&mut self, bytes: &[u8])
        ensures
            final(self).written() == old(self).written() + bytes@,
    {
        append_bytes(&mut self.buf, bytes);
    }

    /// A header line; nothing for an empty header.
    pub fn write_header(&mut self, row: &str)
        ensures
            row@.len() == 0 ==> final(self).written() == old(self).written(),
            row@.len() > 0 ==> final(self).written() == old(self).written() + row.spec_bytes() + terminator(),
    {
        if !row.is_empty() {
            self.write_line(row);
        }
    }

    /// A line, then a newline.
    pub fn write_line(&mut self, row: &str)
        ensures
            final(self).written() == old(self).written() + row.spec_bytes() + terminator(),
    {
        append_bytes(&mut self.buf, row.as_bytes());
        self.buf.push(10u8);
        assert(self.buf@ =~= old(self).written() + row.spec_bytes() + terminator());
    }

    /// Each line, then a newline.
    pub fn write_lines(&mut self, lines: &[&str])
        ensures
            final(self).written() == old(self).written()
                + lines_bytes(lines@.map_values(|l: &str| l.spec_bytes())),
    {
        let ghost all = lines@.map_values(|l: &str| l.spec_bytes());
        let mut i: usize = 0;
        while i < lines.len()
            invariant
                i <= lines@.len(),
                all == lines@.map_values(|l: &str| l.spec_bytes()),
                self.written() == old(self).written() + lines_bytes(all.take(i as int)),
            decreases lines@.len() - i,
        {
            self.write_line(lines[i]);
            i += 1;
            assert(all.take(i as int).drop_last() =~= all.take(i - 1));
            assert(self.written() =~= old(self).written() + lines_bytes(all.take(i as int)));
        }
        assert(all.take(lines@.len() as int) =~= all);
    }

    /// The fields joined with `sep` (a comma when `None`), then a newline;
    /// nothing for no fields.
    pub fn write_line_by_field(&mut self, line: &[&str], sep: Option<&[u8]>)
        ensures
            final(self).written() == old(self).written()
                + line_by_field_bytes(line@.map_values(|f: &str| f.spec_bytes()), sep_or_comma(sep)),
    {
        let ghost all = line@.map_values(|f: &str| f.spec_bytes());
        let ghost s = sep_or_comma(sep);
        let mut i: usize = 0;
        assert(all.skip(0) =~= all);
        while i < line.len()
            invariant
                i <= line@.len(),
                all == line@.map_values(|f: &str| f.spec_bytes()),
                s == sep_or_comma(sep),
                old(self).written() + line_by_field_bytes(all, s)
                    == self.written() + line_by_field_bytes(all.skip(i as int), s),
            decreases line@.len() - i,
        {
            let ghost before = self.written();
            append_bytes(&mut self.buf, line[i].as_bytes());
            if i + 1 == line.len() {
                self.buf.push(10u8);
                assert(all.skip(i as int) =~= seq![all[i as int]]);
                assert(all.skip(i + 1) =~= Seq::<Seq<u8>>::empty());
                assert(self.buf@ =~= before + all[i as int] + terminator());
            } else {
                match sep {
                    Some(b) => append_bytes(&mut self.buf, b),
                    None => self.buf.push(44u8),
                }
                assert(all.skip(i as int).drop_first() =~= all.skip(i + 1));
                assert(self.buf@ =~= before + all[i as int] + s);
            }
            i += 1;
        }
        assert(all.skip(i as int) =~= Seq::<Seq<u8>>::empty());
    }

    /// Each line by field, in turn.
    pub fn write_lines_by_field(&mut self, lines: &[Vec<&str>], sep: Option<&[u8]>)
        ensures
            final(self).written() == old(self).written() + lines_by_field_bytes(lines@, sep_or_comma(sep)),
    {
        let mut i: usize = 0;
        while i < lines.len()
            invariant
                i <= lines@.len(),
                self.written() == old(self).written() + lines_by_field_bytes(lines@.take(i as int), sep_or_comma(sep)),
            decreases lines@.len() - i,
        {
            self.write_line_by_field(lines[i].as_slice(), sep);
            i += 1;
            assert(lines@.take(i as int).drop_last() =~= lines@.take(i - 1));
            assert(self.written() =~= old(self).written() + lines_by_field_bytes(lines@.take(i as int), sep_or_comma(sep)));
        }
        assert(lines@.take(lines@.len() as int) =~= lines@);
    }
}

/// The bytes of each line by field, in turn.
pub open spec fn lines_by_field_bytes(lines: Seq<Vec<&str>>, sep: Seq<u8>) -> Seq<u8>
    decreases lines.len(),
{
    if lines.len() == 0 {
        seq![]
    } else {
        lines_by_field_bytes(lines.drop_last(), sep)
            + line_by_field_bytes(lines.last()@.map_values(|f: &str| f.spec_bytes()), sep)
    }
}

} // verus!
