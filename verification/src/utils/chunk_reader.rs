//! Chunks of lines handed from the reader to the workers: lines are read one
//! by one and sent on in chunks of a fixed number of lines, each with its
//! size in bytes and its number, counting from 1.
use vstd::prelude::*;
use crate::io::split::byte_len;

verus! {

pub struct Task {
    pub lines: Vec<String>,
    pub bytes: usize,
    pub chunk: usize,
}

/// The size in bytes of the lines, without their line ends.
pub open spec fn lines_bytes(lines: Seq<String>) -> int
    decreases lines.len(),
{
    if lines.len() == 0 { 0 } else { lines_bytes(lines.drop_last()) + byte_len(lines.last()@) }
}

/// The lines read and not sent yet, in the order read.
pub struct Chunker {
    line_buffer_n: usize,
    lines: Vec<String>,
    bytes: usize,
    chunk: usize,
}

impl Chunker {
    /// The number of lines of a full chunk.
    pub closed spec fn size(&self) -> usize {
        self.line_buffer_n
    }

    /// The lines read and not sent yet.
    pub closed spec fn pending(&self) -> Seq<String> {
        self.lines@
    }

    /// The number of the next chunk.
    pub closed spec fn next_chunk(&self) -> usize {
        self.chunk
    }

    /// The pending lines are fewer than a full chunk, and their size is
    /// counted.
    pub closed spec fn wf(&self) -> bool {
        &&& self.lines@.len() < self.line_buffer_n || self.lines@.len() == 0
        &&& self.bytes == lines_bytes(self.lines@)
        &&& self.chunk >= 1
    }

    /// Nothing read yet; the first chunk is chunk 1.
    pub fn new(line_buffer_n: usize) -> (c: Chunker)
        ensures
            c.wf(),
            c.size() == line_buffer_n,
            c.pending() == Seq::<String>::empty(),
            c.next_chunk() == 1,
    {
        Chunker { line_buffer_n, lines: Vec::new(), bytes: 0, chunk: 1 }
    }

    /// Takes in the line read next. When it fills a chunk, the chunk is
    /// given back to be sent, and the next one starts empty.
    pub fn push(&mut self, line: String) -> (t: Option<Task>)
        requires
            old(self).wf(),
            lines_bytes(old(self).pending()) + byte_len(line@) <= usize::MAX,
            old(self).next_chunk() < usize::MAX,
        ensures
            final(self).wf(),
            final(self).size() == old(self).size(),
            ({
                let all = old(self).pending().push(line);
                if all.len() >= old(self).size() {
                    &&& t matches Some(task)
                    &&& task.lines@ == all
                    &&& task.bytes == lines_bytes(all)
                    &&& task.chunk == old(self).next_chunk()
                    &&& final(self).pending() == Seq::<String>::empty()
                    &&& final(self).next_chunk() == old(self).next_chunk() + 1
                } else {
                    &&& t is None
                    &&& final(self).pending() == all
                    &&& final(self).next_chunk() == old(self).next_chunk()
                }
            }),
    {
        let ghost before = self.lines@;
        let k = line.as_str().len();
        self.bytes = self.bytes + k;
        self.lines.push(line);
        assert(self.lines@.drop_last() =~= before);
        if self.lines.len() >= self.line_buffer_n {
            let mut lines: Vec<String> = Vec::new();
            std::mem::swap(&mut lines, &mut self.lines);
            let task = Task { lines, bytes: self.bytes, chunk: self.chunk };
            self.bytes = 0;
            self.chunk = self.chunk + 1;
            Some(task)
        } else {
            None
        }
    }

    /// The lines left when reading ends, as a last chunk, if there are any.
    pub fn finish(self) -> (t: Option<Task>)
        requires
            self.wf(),
        ensures
            self.pending().len() == 0 ==> t is None,
            self.pending().len() > 0 ==> (t matches Some(task) && task.lines@ == self.pending()
                && task.bytes == lines_bytes(self.pending()) && task.chunk == self.next_chunk()),
    {
        if self.lines.len() == 0 {
            None
        } else {
            Some(Task { lines: self.lines, bytes: self.bytes, chunk: self.chunk })
        }
    }
}

/// The chunks that pushing `lines` in turn sends, when `p` is pending at
/// the start, and the lines left pending at the end: each push that makes
/// the pending lines reach `size` sends them, as `Chunker::push` says.
pub open spec fn chunk_run(size: usize, p: Seq<String>, lines: Seq<String>) -> (Seq<Seq<String>>, Seq<String>)
    decreases lines.len(),
{
    if lines.len() == 0 {
        (seq![], p)
    } else {
        let all = p.push(lines[0]);
        if all.len() >= size {
            let (cs, q) = chunk_run(size, seq![], lines.drop_first());
            (seq![all] + cs, q)
        } else {
            chunk_run(size, all, lines.drop_first())
        }
    }
}

/// The chunks, one after the other.
pub open spec fn joined_chunks(cs: Seq<Seq<String>>) -> Seq<String>
    decreases cs.len(),
{
    if cs.len() == 0 { seq![] } else { cs[0] + joined_chunks(cs.drop_first()) }
}

/// Every line pushed comes out once and in order: the chunks sent, then the
/// lines left for the last chunk, are the lines pending at the start and
/// the lines pushed. Every chunk sent is full, and fewer lines than a full
/// chunk are left.
pub proof fn chunks_rejoin(size: usize, p: Seq<String>, lines: Seq<String>)
    requires
        p.len() < size || p.len() == 0,
    ensures
        joined_chunks(chunk_run(size, p, lines).0) + chunk_run(size, p, lines).1 == p + lines,
        forall|k: int| 0 <= k < chunk_run(size, p, lines).0.len()
            ==> (#[trigger] chunk_run(size, p, lines).0[k]).len() == if size == 0 { 1 } else { size as int },
        chunk_run(size, p, lines).1.len() < size || chunk_run(size, p, lines).1.len() == 0,
    decreases lines.len(),
{
    if lines.len() > 0 {
        let all = p.push(lines[0]);
        let rest = lines.drop_first();
        if all.len() >= size {
            chunks_rejoin(size, seq![], rest);
            let (cs, q) = chunk_run(size, seq![], rest);
            let out = seq![all] + cs;
            assert(out.drop_first() =~= cs);
            assert(out[0] == all);
            assert(joined_chunks(out) == all + joined_chunks(cs));
            assert(all + joined_chunks(cs) + q =~= p + lines) by {
                assert(joined_chunks(cs) + q =~= Seq::<String>::empty() + rest);
                assert(lines =~= seq![lines[0]] + rest);
            }
            assert forall|k: int| 0 <= k < out.len() implies (#[trigger] out[k]).len() == if size == 0 { 1 } else { size as int } by {
                if k > 0 {
                    assert(out[k] == cs[k - 1]);
                }
            }
        } else {
            chunks_rejoin(size, all, rest);
            assert(all + rest =~= p + lines) by {
                assert(lines =~= seq![lines[0]] + rest);
            }
        }
    } else {
        assert(p + lines =~= p);
        assert(joined_chunks(Seq::<Seq<String>>::empty()) + p =~= p);
    }
}

} // verus!
