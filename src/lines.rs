//! Splitting the encoder's diagnostic byte stream into lines. The encoder
//! rewrites its progress line in place with carriage returns, so both CR and
//! LF end a line, and empty lines between delimiters are skipped.
use vstd::prelude::*;

verus! {

pub open spec fn is_line_end(b: u8) -> bool {
    b == 13 || b == 10
}

/// One byte fed to a splitter whose unfinished line is `buf`: the new
/// unfinished line, and the line completed by this byte, if any.
pub open spec fn spec_push_byte(buf: Seq<u8>, b: u8) -> (Seq<u8>, Option<Seq<u8>>) {
    if is_line_end(b) {
        if buf.len() > 0 {
            (Seq::empty(), Some(buf))
        } else {
            (Seq::empty(), None)
        }
    } else {
        (buf.push(b), None)
    }
}

/// The lines completed by the bytes `s`, and the bytes after the last delimiter.
pub open spec fn spec_split(s: Seq<u8>) -> (Seq<Seq<u8>>, Seq<u8>)
    decreases s.len(),
{
    if s.len() == 0 {
        (Seq::empty(), Seq::empty())
    } else {
        let (lines, buf) = spec_split(s.drop_last());
        let (next, done) = spec_push_byte(buf, s.last());
        match done {
            Some(l) => (lines.push(l), next),
            None => (lines, next),
        }
    }
}

/// Turns bytes, one at a time, into lines.
pub struct LineSplitter {
    /// The bytes since the last delimiter.
    pub buffer: Vec<u8>,
}

impl LineSplitter {
    pub fn new() -> (r: LineSplitter)
        ensures
            r.buffer@ == Seq::<u8>::empty(),
    {
        LineSplitter { buffer: Vec::new() }
    }

    /// Feeds one byte; a delimiter after a nonempty line hands that line out.
    pub fn push_byte(&mut self, b: u8) -> (r: Option<Vec<u8>>)
        ensures
            (final(self).buffer@, match r {
                Some(l) => Some(l@),
                None => None,
            }) == spec_push_byte(old(self).buffer@, b),
    {
        if b == 13 || b == 10 {
            if self.buffer.len() > 0 {
                let mut line: Vec<u8> = Vec::new();
                std::mem::swap(&mut line, &mut self.buffer);
                Some(line)
            } else {
                None
            }
        } else {
            self.buffer.push(b);
            None
        }
    }
}

/// All the lines completed by `bytes`. Bytes after the last delimiter form no
/// line: the stream ended before the line did.
pub fn split_lines(bytes: &[u8]) -> (r: Vec<Vec<u8>>)
    ensures
        r.deep_view() == spec_split(bytes@).0,
{
    let mut splitter = LineSplitter::new();
    let mut out: Vec<Vec<u8>> = Vec::new();
    let mut i: usize = 0;
    while i < bytes.len()
        invariant
            0 <= i <= bytes@.len(),
            (out.deep_view(), splitter.buffer@) == spec_split(bytes@.subrange(0, i as int)),
        decreases bytes@.len() - i,
    {
        assert(bytes@.subrange(0, i + 1).drop_last() =~= bytes@.subrange(0, i as int));
        match splitter.push_byte(bytes[i]) {
            Some(line) => {
                let ghost before = out.deep_view();
                assert(line.deep_view() =~= line@);
                out.push(line);
                assert(out.deep_view() =~= before.push(line@));
                assert(out.deep_view() =~= spec_split(bytes@.subrange(0, i + 1)).0);
            },
            None => {},
        }
        i = i + 1;
    }
    assert(bytes@.subrange(0, i as int) =~= bytes@);
    out
}

} // verus!
