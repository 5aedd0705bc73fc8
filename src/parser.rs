use vstd::prelude::*;

verus! {

/// Why a buffer could not be read as a DNS message.
#[derive(Debug, Clone, Copy, PartialEq, Eq, Structural)]
pub enum ParseError {
    /// A read needed the buffer to reach the first position; the buffer has the second length.
    BufferOverflow(usize, usize),
    /// A label length byte that is neither a label length (1 to 63), a terminator nor a pointer.
    InvalidLabelLength(usize),
    /// A fixed-size field has the wrong declared length.
    FormatError,
    /// A label is not valid UTF-8.
    InvalidUtf8,
    /// A decode path that this codec does not handle.
    NotImplemented,
    /// Following compression pointers did not end: the chain revisits a pointer.
    CompressionLoop,
    /// An EDNS option runs past the data of its OPT record.
    OptionLengthMismatch,
}

/// `x`, or `usize::MAX` where `x` does not fit.
pub open spec fn capped(x: int) -> usize {
    if x <= usize::MAX {
        x as usize
    } else {
        usize::MAX
    }
}

/// `a + b`, or `usize::MAX` where the sum does not fit.
pub open spec fn saturated(a: int, b: int) -> usize {
    capped(a + b)
}

/// The error for taking `n` bytes at `pos` that run past the end of `buf`: it names the position
/// where they would end.
pub open spec fn overflow(buf: Seq<u8>, pos: int, n: int) -> ParseError {
    ParseError::BufferOverflow(saturated(pos, n), buf.len() as usize)
}

/// The error for a fixed-size read at `pos` that runs past the end of `buf`: it names the first
/// position that could not be read, which is the end of the buffer (or `pos`, where that lies
/// beyond it).
pub open spec fn past_end(buf: Seq<u8>, pos: int) -> ParseError {
    ParseError::BufferOverflow(
        if pos < buf.len() {
            buf.len() as usize
        } else {
            pos as usize
        },
        buf.len() as usize,
    )
}

/// Whether `n` bytes can be read at `pos` of `buf`.
pub open spec fn fits(buf: Seq<u8>, pos: int, n: int) -> bool {
    pos + n <= buf.len()
}

/// The big-endian 16-bit value at `pos` of `buf`.
pub open spec fn be_u16(buf: Seq<u8>, pos: int) -> u16 {
    (buf[pos] as int * 0x100 + buf[pos + 1] as int) as u16
}

/// The big-endian 32-bit value at `pos` of `buf`.
pub open spec fn be_u32(buf: Seq<u8>, pos: int) -> u32 {
    (buf[pos] as int * 0x1000000 + buf[pos + 1] as int * 0x10000 + buf[pos + 2] as int * 0x100
        + buf[pos + 3] as int) as u32
}

/// A bounds-checked reader over a received buffer, with a read position.
pub struct Parser<'a> {
    buf: &'a [u8],
    pos: usize,
}

impl<'a> Parser<'a> {
    #[verifier::type_invariant]
    spec fn inv(&self) -> bool {
        self.pos <= self.buf@.len()
    }

    /// The bytes being read.
    pub closed spec fn data(&self) -> Seq<u8> {
        self.buf@
    }

    /// The read position.
    pub closed spec fn pos(&self) -> int {
        self.pos as int
    }

    pub fn new(buf: &'a [u8]) -> (p: Self)
        ensures
            p.data() == buf@,
            p.pos() == 0,
    {
        Parser { buf, pos: 0 }
    }

    /// How many bytes are left after the read position.
    pub fn remaining(&self) -> (r: usize)
        ensures
            r == self.data().len() - self.pos(),
    {
        proof {
            use_type_invariant(self);
        }
        self.buf.len() - self.pos
    }

    /// The length of the whole buffer.
    pub fn buffer_len(&self) -> (r: usize)
        ensures
            r == self.data().len(),
    {
        self.buf.len()
    }

    pub fn position(&self) -> (r: usize)
        ensures
            r == self.pos(),
    {
        self.pos
    }

    /// Moves the read position to `pos`, which may be at most the buffer's length.
    pub fn seek(&mut self, pos: usize) -> (r: Result<(), ParseError>)
        ensures
            final(self).data() == old(self).data(),
            pos <= old(self).data().len() ==> r is Ok && final(self).pos() == pos,
            pos > old(self).data().len() ==> r == Err::<(), ParseError>(
                ParseError::BufferOverflow(old(self).pos() as usize, old(self).data().len() as usize),
            ) && final(self).pos() == old(self).pos(),
    {
        if pos > self.buf.len() {
            return Err(ParseError::BufferOverflow(self.pos, self.buf.len()));
        }
        *self = Parser { buf: self.buf, pos };
        Ok(())
    }

    /// Where a fixed-size read that runs past the end of the buffer fails: the end, or the read
    /// position where that lies beyond it.
    fn end_or_pos(&self) -> (r: usize)
        ensures
            past_end(self.data(), self.pos()) == ParseError::BufferOverflow(r, self.data().len() as usize),
    {
        if self.pos < self.buf.len() {
            self.buf.len()
        } else {
            self.pos
        }
    }

    /// Reads a big-endian 32-bit value.
    pub fn consume_u32(&mut self) -> (r: Result<u32, ParseError>)
        ensures
            final(self).data() == old(self).data(),
            fits(old(self).data(), old(self).pos(), 4) ==> r == Ok::<u32, ParseError>(
                be_u32(old(self).data(), old(self).pos()),
            ) && final(self).pos() == old(self).pos() + 4,
            !fits(old(self).data(), old(self).pos(), 4) ==> r == Err::<u32, ParseError>(
                past_end(old(self).data(), old(self).pos()),
            ) && final(self).pos() == old(self).pos(),
    {
        if self.buf.len() < 4 || self.pos > self.buf.len() - 4 {
            return Err(ParseError::BufferOverflow(self.end_or_pos(), self.buf.len()));
        }
        let b0 = self.buf[self.pos] as u32;
        let b1 = self.buf[self.pos + 1] as u32;
        let b2 = self.buf[self.pos + 2] as u32;
        let b3 = self.buf[self.pos + 3] as u32;
        self.pos = self.pos + 4;
        Ok(b0 * 0x1000000 + b1 * 0x10000 + b2 * 0x100 + b3)
    }

    /// Reads a big-endian 16-bit value.
    pub fn consume_u16(&mut self) -> (r: Result<u16, ParseError>)
        ensures
            final(self).data() == old(self).data(),
            fits(old(self).data(), old(self).pos(), 2) ==> r == Ok::<u16, ParseError>(
                be_u16(old(self).data(), old(self).pos()),
            ) && final(self).pos() == old(self).pos() + 2,
            !fits(old(self).data(), old(self).pos(), 2) ==> r == Err::<u16, ParseError>(
                past_end(old(self).data(), old(self).pos()),
            ) && final(self).pos() == old(self).pos(),
    {
        if self.buf.len() < 2 || self.pos > self.buf.len() - 2 {
            return Err(ParseError::BufferOverflow(self.end_or_pos(), self.buf.len()));
        }
        let b0 = self.buf[self.pos] as u16;
        let b1 = self.buf[self.pos + 1] as u16;
        self.pos = self.pos + 2;
        Ok(b0 * 0x100 + b1)
    }

    /// Reads one byte.
    pub fn consume_u8(&mut self) -> (r: Result<u8, ParseError>)
        ensures
            final(self).data() == old(self).data(),
            fits(old(self).data(), old(self).pos(), 1) ==> r == Ok::<u8, ParseError>(
                old(self).data()[old(self).pos()],
            ) && final(self).pos() == old(self).pos() + 1,
            !fits(old(self).data(), old(self).pos(), 1) ==> r == Err::<u8, ParseError>(
                past_end(old(self).data(), old(self).pos()),
            ) && final(self).pos() == old(self).pos(),
    {
        if self.pos >= self.buf.len() {
            return Err(ParseError::BufferOverflow(self.pos, self.buf.len()));
        }
        let value = self.buf[self.pos];
        *self = Parser { buf: self.buf, pos: self.pos + 1 };
        Ok(value)
    }

    /// The byte at the read position, which stays where it is.
    pub fn read_u8(&self) -> (r: Result<u8, ParseError>)
        ensures
            fits(self.data(), self.pos(), 1) ==> r == Ok::<u8, ParseError>(self.data()[self.pos()]),
            !fits(self.data(), self.pos(), 1) ==> r == Err::<u8, ParseError>(
                past_end(self.data(), self.pos()),
            ),
    {
        if self.pos >= self.buf.len() {
            return Err(ParseError::BufferOverflow(self.pos, self.buf.len()));
        }
        Ok(self.buf[self.pos])
    }

    /// Reads the next `len` bytes.
    pub fn consume_bytes(&mut self, len: usize) -> (r: Result<&'a [u8], ParseError>)
        ensures
            final(self).data() == old(self).data(),
            fits(old(self).data(), old(self).pos(), len as int) ==> r is Ok && r->Ok_0@
                == old(self).data().subrange(old(self).pos(), old(self).pos() + len)
                && final(self).pos() == old(self).pos() + len,
            !fits(old(self).data(), old(self).pos(), len as int) ==> r == Err::<&'a [u8], ParseError>(
                overflow(old(self).data(), old(self).pos(), len as int),
            ) && final(self).pos() == old(self).pos(),
    {
        proof {
            use_type_invariant(&*self);
        }
        if len > self.buf.len() - self.pos {
            return Err(ParseError::BufferOverflow(self.pos.saturating_add(len), self.buf.len()));
        }
        let bytes = &self.buf[self.pos..self.pos + len];
        self.pos = self.pos + len;
        Ok(bytes)
    }
}

/// The read position of a parser is never negative.
pub proof fn lemma_pos_nonneg(p: Parser)
    ensures
        0 <= p.pos(),
{
}

/// A value that can be read from a buffer through a `Parser`.
pub trait Parse: Sized + View {
    /// What reading a value at `pos` of `buf` gives: the value with the position after it, or the error.
    spec fn spec_parse(buf: Seq<u8>, pos: int) -> Result<(Self::V, int), ParseError>;

    fn parse(parser: &mut Parser) -> (r: Result<Self, ParseError>)
        ensures
            final(parser).data() == old(parser).data(),
            match Self::spec_parse(old(parser).data(), old(parser).pos()) {
                Ok((v, end)) => r is Ok && r->Ok_0@ == v && final(parser).pos() == end,
                Err(e) => r == Err::<Self, ParseError>(e),
            },
    ;
}

/// Adds `pre` in front of the values of a successful read.
pub open spec fn prepend<V>(pre: Seq<V>, r: Result<(Seq<V>, int), ParseError>) -> Result<
    (Seq<V>, int),
    ParseError,
> {
    match r {
        Ok((vs, end)) => Ok((pre + vs, end)),
        Err(e) => Err(e),
    }
}

pub proof fn lemma_prepend_assoc<V>(a: Seq<V>, b: Seq<V>, r: Result<(Seq<V>, int), ParseError>)
    ensures
        prepend(a, prepend(b, r)) == prepend(a + b, r),
        prepend(Seq::<V>::empty(), r) == r,
{
    if let Ok((vs, end)) = r {
        assert(a + (b + vs) =~= (a + b) + vs);
        assert(Seq::<V>::empty() + vs =~= vs);
    }
}

/// Reads `n` values one after the other at `pos` of `buf`.
pub open spec fn many_at<T: Parse>(buf: Seq<u8>, pos: int, n: nat) -> Result<(Seq<T::V>, int), ParseError>
    decreases n,
{
    if n == 0 {
        Ok((Seq::empty(), pos))
    } else {
        match T::spec_parse(buf, pos) {
            Err(e) => Err(e),
            Ok((v, p)) => prepend(seq![v], many_at::<T>(buf, p, (n - 1) as nat)),
        }
    }
}

/// Reads `n` values one after the other.
pub fn parse_many<T: Parse>(parser: &mut Parser, n: u16) -> (r: Result<Vec<T>, ParseError>)
    ensures
        final(parser).data() == old(parser).data(),
        match many_at::<T>(old(parser).data(), old(parser).pos(), n as nat) {
            Ok((vs, end)) => r is Ok && r->Ok_0@.map_values(|x: T| x@) == vs && final(parser).pos()
                == end,
            Err(e) => r == Err::<Vec<T>, ParseError>(e),
        },
{
    let ghost buf = parser.data();
    let ghost start = parser.pos();
    let mut items: Vec<T> = Vec::new();
    let mut i: u16 = 0;
    proof {
        lemma_prepend_assoc(Seq::<T::V>::empty(), Seq::<T::V>::empty(), many_at::<T>(buf, start, n as nat));
        assert(items@.map_values(|x: T| x@) =~= Seq::<T::V>::empty());
    }
    while i < n
        invariant
            0 <= i <= n,
            parser.data() == buf,
            buf == old(parser).data(),
            start == old(parser).pos(),
            many_at::<T>(buf, start, n as nat) == prepend(
                items@.map_values(|x: T| x@),
                many_at::<T>(buf, parser.pos(), (n - i) as nat),
            ),
        decreases n - i,
    {
        let ghost before = items@.map_values(|x: T| x@);
        let item = T::parse(parser)?;
        let ghost v = item@;
        items.push(item);
        proof {
            assert(items@.map_values(|x: T| x@) =~= before + seq![v]);
            lemma_prepend_assoc(before, seq![v], many_at::<T>(buf, parser.pos(), (n - i - 1) as nat));
        }
        i = i + 1;
    }
    proof {
        let vs = items@.map_values(|x: T| x@);
        assert(vs + Seq::<T::V>::empty() =~= vs);
    }
    Ok(items)
}

} // verus!
