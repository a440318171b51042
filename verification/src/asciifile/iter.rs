//! Iterators over the positions of a source file.
use super::{all_ascii, lemma_step, lemma_valid_is_position_of, position_of, spec_next, spec_prev, AsciiFile, Position, Span};
use vstd::prelude::*;
use vstd::string::StringSliceAdditionalSpecFns;

verus! {

/// `prefix` is what `text` starts with.
pub open spec fn starts_with(text: Seq<u8>, prefix: Seq<u8>) -> bool {
    prefix.len() <= text.len() && text.subrange(0, prefix.len() as int) == prefix
}

/// Walks the positions of a file from a given one to the end.
#[derive(Copy, Clone)]
pub struct PositionIterator<'t> {
    file: &'t AsciiFile<'t>,
    /// Always the next position to emit.
    position_to_emit: Option<Position>,
}

impl<'t> PositionIterator<'t> {
    /// The bytes of the file that is walked.
    pub closed spec fn source(&self) -> Seq<u8> {
        self.file@
    }

    /// The position that `next` returns next, if any is left.
    pub closed spec fn upcoming(&self) -> Option<Position> {
        self.position_to_emit
    }

    /// The file is ASCII and the upcoming position lies in it.
    pub open spec fn wf(&self) -> bool {
        &&& all_ascii(self.source())
        &&& self.upcoming() matches Some(p) ==> p.valid_in(self.source())
    }

    /// What is left to read: the bytes from the upcoming position on.
    pub open spec fn remaining(&self) -> Seq<u8> {
        match self.upcoming() {
            Some(p) => self.source().subrange(p.byte_offset as int, self.source().len() as int),
            None => Seq::empty(),
        }
    }

    /// An iterator over `file` that starts at `position`.
    pub fn new(file: &'t AsciiFile<'t>, position: Option<Position>) -> (it: Self)
        requires
            file.wf(),
            position matches Some(p) ==> p.valid_in(file@),
        ensures
            it.wf(),
            it.source() == file@,
            it.upcoming() == position,
    {
        Self { file, position_to_emit: position }
    }

    /// The upcoming position. Moves on to the one after it.
    pub fn next(&mut self) -> (r: Option<Position>)
        requires
            old(self).wf(),
        ensures
            final(self).wf(),
            final(self).source() == old(self).source(),
            r == old(self).upcoming(),
            final(self).upcoming() == (match old(self).upcoming() {
                Some(p) => spec_next(old(self).source(), p),
                None => None,
            }),
    {
        match self.position_to_emit {
            None => None,
            Some(position) => {
                self.position_to_emit = self.file.next_position(position);
                Some(position)
            },
        }
    }

    /// The span of the next `n` characters, or `None` if fewer than `n`
    /// are left. Does not move.
    pub fn peek_exactly(&self, n: usize) -> (r: Option<Span>)
        requires
            self.wf(),
            n >= 1,
        ensures
            r is Some <==> n <= self.remaining().len(),
            r matches Some(span) ==> {
                &&& Some(span.start) == self.upcoming()
                &&& span.end == position_of(self.source(), span.start.byte_offset + n - 1)
                &&& span.end.byte_offset == span.start.byte_offset + n - 1
                &&& span.valid_in(self.source())
                &&& span.spec_len() == n
            },
    {
        match self.peek_at_most(n) {
            None => None,
            Some(span) => {
                if span.end.byte_offset - span.start.byte_offset + 1 < n {
                    None
                } else {
                    Some(span)
                }
            },
        }
    }

    /// The span of the next `n` characters, or of all that are left if
    /// they are fewer. `None` if nothing is left, since a span holds at
    /// least one character. Does not move.
    pub fn peek_at_most(&self, n: usize) -> (r: Option<Span>)
        requires
            self.wf(),
            n >= 1,
        ensures
            r is Some <==> self.upcoming() is Some,
            r matches Some(span) ==> {
                &&& Some(span.start) == self.upcoming()
                &&& span.end == position_of(
                    self.source(),
                    if n <= self.remaining().len() {
                        span.start.byte_offset + n - 1
                    } else {
                        self.source().len() - 1
                    },
                )
                &&& span.end.byte_offset == (if n <= self.remaining().len() {
                    span.start.byte_offset + n - 1
                } else {
                    self.source().len() - 1
                })
                &&& span.valid_in(self.source())
            },
    {
        match self.position_to_emit {
            None => None,
            Some(span_start) => {
                let mut span_end = span_start;
                let mut taken: usize = 1;
                proof {
                    lemma_valid_is_position_of(self.file@, span_start);
                }
                while taken < n
                    invariant
                        self.wf(),
                        self.position_to_emit == Some(span_start),
                        1 <= taken <= n,
                        span_end.valid_in(self.file@),
                        span_end.byte_offset == span_start.byte_offset + taken - 1,
                        span_end == position_of(self.file@, span_end.byte_offset as int),
                    ensures
                        span_end.valid_in(self.file@),
                        span_end == position_of(self.file@, span_end.byte_offset as int),
                        span_start.byte_offset <= span_end.byte_offset,
                        n <= self.remaining().len() ==> span_end.byte_offset
                            == span_start.byte_offset + n - 1,
                        n > self.remaining().len() ==> span_end.byte_offset == self.file@.len() - 1,
                    decreases n - taken,
                {
                    let len = self.file.len();
                    proof {
                        lemma_step(self.file@, span_end);
                    }
                    match self.file.next_position(span_end) {
                        Some(q) => {
                            span_end = q;
                            taken += 1;
                        },
                        None => {
                            break ;
                        },
                    }
                }
                Some(Span::new(span_start, span_end))
            },
        }
    }

    /// The next characters are those of `wanted`. The empty text always
    /// matches. Does not move.
    pub fn matches(&self, wanted: &str) -> (r: bool)
        requires
            self.wf(),
        ensures
            r == starts_with(self.remaining(), wanted.spec_bytes()),
    {
        let w = wanted.as_bytes();
        let bytes = self.file.as_bytes();
        let start = match self.position_to_emit {
            None => {
                assert(self.remaining().subrange(0, 0) =~= Seq::<u8>::empty());
                assert(w@.len() == 0 ==> w@ =~= Seq::<u8>::empty());
                return w.len() == 0;
            },
            Some(p) => p.byte_offset,
        };
        let blen = bytes.len();
        if blen - start < w.len() {
            return false;
        }
        let mut i: usize = 0;
        while i < w.len()
            invariant
                i <= w@.len(),
                start + w@.len() <= bytes@.len(),
                bytes@ == self.source(),
                blen == bytes@.len(),
                w@ == wanted.spec_bytes(),
                self.upcoming() matches Some(p) && p.byte_offset == start,
                forall|k: int| 0 <= k < i ==> bytes@[start + k] == w@[k],
            decreases w@.len() - i,
        {
            if bytes[start + i] != w[i] {
                assert(self.remaining().subrange(0, w@.len() as int)[i as int] != w@[i as int]);
                return false;
            }
            i += 1;
        }
        assert(self.remaining().subrange(0, w@.len() as int) =~= w@);
        true
    }

    /// The upcoming position. Does not move.
    pub fn peek(&self) -> (r: Option<Position>)
        ensures
            r == self.upcoming(),
    {
        self.position_to_emit
    }

    /// Nothing is left to read.
    pub fn eof_reached(&self) -> (r: bool)
        ensures
            r == (self.upcoming() is None),
    {
        self.peek().is_none()
    }
}

/// Walks the positions of a file from a given one back to the start.
#[derive(Copy, Clone)]
pub struct ReversePositionIterator<'t> {
    file: &'t AsciiFile<'t>,
    /// Always the next position to emit.
    position_to_emit: Option<Position>,
}

impl<'t> ReversePositionIterator<'t> {
    /// The bytes of the file that is walked.
    pub closed spec fn source(&self) -> Seq<u8> {
        self.file@
    }

    /// The position that `next` returns next, if any is left.
    pub closed spec fn upcoming(&self) -> Option<Position> {
        self.position_to_emit
    }

    /// The file is ASCII and the upcoming position lies in it.
    pub open spec fn wf(&self) -> bool {
        &&& all_ascii(self.source())
        &&& self.upcoming() matches Some(p) ==> p.valid_in(self.source())
    }

    /// An iterator over `file` that starts at `position` and walks back.
    pub fn new(file: &'t AsciiFile<'t>, position: Option<Position>) -> (it: Self)
        requires
            file.wf(),
            position matches Some(p) ==> p.valid_in(file@),
        ensures
            it.wf(),
            it.source() == file@,
            it.upcoming() == position,
    {
        Self { file, position_to_emit: position }
    }

    /// The upcoming position. Moves on to the one before it.
    pub fn next(&mut self) -> (r: Option<Position>)
        requires
            old(self).wf(),
        ensures
            final(self).wf(),
            final(self).source() == old(self).source(),
            r == old(self).upcoming(),
            final(self).upcoming() == (match old(self).upcoming() {
                Some(p) => spec_prev(old(self).source(), p),
                None => None,
            }),
    {
        match self.position_to_emit {
            None => None,
            Some(position) => {
                self.position_to_emit = self.file.prev_position(position);
                Some(position)
            },
        }
    }
}

} // verus!
