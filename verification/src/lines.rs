//! The lines of a stream of documents, one document to a line.

use vstd::prelude::*;

verus! {

/// The byte that ends a line.
pub const NEWLINE: u8 = 10;

/// Gathers the chunks of a line.
#[derive(Debug)]
pub struct JLWriter {
    pub buf: Vec<u8>,
}

/// What has to be done after a chunk.
#[derive(Debug, PartialEq)]
pub enum LineAction {
    /// Nothing: the chunk belongs to a line that goes on.
    Wait,
    /// The line is complete and has to be sent.
    Send(Vec<u8>),
}

/// Whether a chunk ends a line.
pub open spec fn ends_line(chunk: Seq<u8>) -> bool {
    chunk == seq![NEWLINE]
}

/// What is gathered of a line after some chunks of it.
pub open spec fn gathered(buf: Seq<u8>, chunks: Seq<Seq<u8>>) -> Seq<u8>
    decreases chunks.len(),
{
    if chunks.len() == 0 {
        buf
    } else {
        gathered(buf, chunks.drop_last()) + chunks.last()
    }
}

/// The line that a chunk completes, if it does.
pub open spec fn completed(buf: Seq<u8>, chunk: Seq<u8>) -> Option<Seq<u8>> {
    if ends_line(chunk) {
        Some(buf)
    } else {
        None
    }
}

/// What is gathered of the current line after a chunk, once a line that it completes has been sent.
pub open spec fn left(buf: Seq<u8>, chunk: Seq<u8>) -> Seq<u8> {
    if ends_line(chunk) {
        Seq::empty()
    } else {
        buf + chunk
    }
}

/// The lines that chunks complete, when every line can be sent, and what is then gathered of the
/// next one.
pub open spec fn lines(chunks: Seq<Seq<u8>>) -> (Seq<Seq<u8>>, Seq<u8>)
    decreases chunks.len(),
{
    if chunks.len() == 0 {
        (Seq::empty(), Seq::empty())
    } else {
        let (done, buf) = lines(chunks.drop_last());
        match completed(buf, chunks.last()) {
            Some(line) => (done.push(line), left(buf, chunks.last())),
            None => (done, left(buf, chunks.last())),
        }
    }
}

impl JLWriter {
    /// Nothing is gathered yet.
    pub fn new() -> (writer: JLWriter)
        ensures
            writer.buf@ == Seq::<u8>::empty(),
    {
        JLWriter { buf: Vec::new() }
    }

    /// Takes a chunk. A chunk that is a newline completes the line, which stays gathered until it
    /// has been sent; any other chunk is added to it.
    pub fn write(&mut self, buf: &[u8]) -> (action: LineAction)
        ensures
            match action {
                LineAction::Send(line) => {
                    &&& completed(old(self).buf@, buf@) == Some(line@)
                    &&& final(self).buf@ == old(self).buf@
                },
                LineAction::Wait => {
                    &&& completed(old(self).buf@, buf@) is None
                    &&& final(self).buf@ == left(old(self).buf@, buf@)
                },
            },
    {
        if buf.len() == 1 && buf[0] == NEWLINE {
            assert(buf@ =~= seq![NEWLINE]);
            let mut line: Vec<u8> = Vec::new();
            line.extend_from_slice(self.buf.as_slice());
            assert(line@ =~= self.buf@);
            LineAction::Send(line)
        } else {
            self.buf.extend_from_slice(buf);
            assert(self.buf@ =~= old(self).buf@ + buf@);
            LineAction::Wait
        }
    }

    /// Notes that the line has been sent.
    pub fn sent(&mut self)
        ensures
            final(self).buf@ == Seq::<u8>::empty(),
    {
        self.buf.clear();
        assert(self.buf@ =~= Seq::<u8>::empty());
    }
}

/// A line is what its chunks hold, one after the other: chunks none of which is a newline complete
/// no line, and the newline behind them completes the line that holds them all.
pub proof fn law_line_holds_its_chunks(chunks: Seq<Seq<u8>>, line: Seq<Seq<u8>>)
    requires
        chunks.len() == 0 || ends_line(chunks.last()),
        forall|i: int| 0 <= i < line.len() ==> !ends_line(#[trigger] line[i]),
    ensures
        lines(chunks + line) == (lines(chunks).0, gathered(Seq::empty(), line)),
        lines((chunks + line).push(seq![NEWLINE])) == (
            lines(chunks).0.push(gathered(Seq::empty(), line)),
            Seq::<u8>::empty(),
        ),
    decreases line.len(),
{
    let all = chunks + line;
    if line.len() == 0 {
        assert(all =~= chunks);
    } else {
        law_line_holds_its_chunks(chunks, line.drop_last());
        assert(all.drop_last() =~= chunks + line.drop_last());
        assert(all.last() == line.last());
        assert(!ends_line(line[line.len() - 1]));
    }
    let more = all.push(seq![NEWLINE]);
    assert(more.drop_last() =~= all);
    assert(ends_line(more.last()));
    assert(lines(more) == (lines(all).0.push(lines(all).1), Seq::<u8>::empty()));
}

/// From the start, chunks none of which is a newline and a newline behind them give one line, which
/// is the chunks joined together.
pub proof fn law_lines_are_joined_chunks(line: Seq<Seq<u8>>)
    requires
        forall|i: int| 0 <= i < line.len() ==> #[trigger] line[i] != seq![10u8],
    ensures
        lines(line).0.len() == 0,
        lines(line.push(seq![10u8])) == (seq![line.flatten_alt()], Seq::<u8>::empty()),
{
    let none: Seq<Seq<u8>> = Seq::empty();
    assert(none + line =~= line);
    law_line_holds_its_chunks(none, line);
    lemma_gathered_is_flattened(line);
    assert(lines(none).0.push(line.flatten_alt()) =~= seq![line.flatten_alt()]);
}

proof fn lemma_gathered_is_flattened(chunks: Seq<Seq<u8>>)
    ensures
        gathered(Seq::empty(), chunks) == chunks.flatten_alt(),
    decreases chunks.len(),
{
    if chunks.len() > 0 {
        lemma_gathered_is_flattened(chunks.drop_last());
    }
}

} // verus!
