//! Reading packet lines: a four-digit hexadecimal length that counts itself, then
//! that many bytes less four of data; `0000` is a flush line.

use vstd::prelude::*;

verus! {

/// The most data bytes a line can carry.
pub const MAX_DATA_LEN: usize = 65516;

/// The most bytes a line can take, length prefix included.
pub const MAX_LINE_LEN: usize = 65520;

/// Why bytes could not be had from a source.
#[derive(Clone, Debug, PartialEq, Eq)]
pub enum ReadError {
    /// The source ended first.
    UnexpectedEof,
    /// Any other failure, described.
    Other(String),
}

/// Something that hands out bytes in order, the way a stream does.
pub trait ByteSource {
    /// The bytes still to be read. Sources that Verus checks state it; for others
    /// nothing is known of it.
    closed spec fn pending(&self) -> Seq<u8> {
        Seq::empty()
    }

    /// Reads exactly `n` bytes, or fails. What comes back is the next `n` bytes, which
    /// are then no longer pending.
    fn read_exact(&mut self, n: usize) -> (r: Result<Vec<u8>, ReadError>)
        ensures
            r matches Ok(v) ==> {
                &&& old(self).pending().len() >= n
                &&& v@ == old(self).pending().take(n as int)
                &&& final(self).pending() == old(self).pending().skip(n as int)
            },
    ;
}

/// A source that reads from bytes held in memory.
pub struct BytesSource {
    data: Vec<u8>,
    pos: usize,
}

impl BytesSource {
    pub closed spec fn wf(&self) -> bool {
        self.pos <= self.data@.len()
    }

    /// A source that will hand out `data`.
    pub fn new(data: Vec<u8>) -> (r: BytesSource)
        ensures
            r.wf(),
            r.pending() == data@,
    {
        let r = BytesSource { data, pos: 0 };
        assert(r.pending() =~= r.data@);
        r
    }
}

impl ByteSource for BytesSource {
    closed spec fn pending(&self) -> Seq<u8> {
        self.data@.subrange(self.pos as int, self.data@.len() as int)
    }

    fn read_exact(&mut self, n: usize) -> (r: Result<Vec<u8>, ReadError>) {
        if self.pos > self.data.len() || self.data.len() - self.pos < n {
            return Err(ReadError::UnexpectedEof);
        }
        let start = self.pos;
        let end = start + n;
        let mut v: Vec<u8> = Vec::new();
        let mut i: usize = start;
        while i < end
            invariant
                start <= i <= end,
                end <= self.data@.len(),
                start == self.pos,
                v@ == self.data@.subrange(start as int, i as int),
            decreases end - i,
        {
            v.push(self.data[i]);
            i = i + 1;
            assert(v@ =~= self.data@.subrange(start as int, i as int));
        }
        let ghost p = self.data@.subrange(start as int, self.data@.len() as int);
        assert(v@ =~= p.take(n as int));
        self.pos = end;
        assert(self.data@.subrange(end as int, self.data@.len() as int) =~= p.skip(n as int));
        Ok(v)
    }
}

/// A decoded packet line.
#[derive(Clone, Debug, PartialEq, Eq)]
pub enum PacketLine {
    /// A line that carries data.
    Data(Vec<u8>),
    /// The flush line, `0000`.
    Flush,
}

/// Why a packet line could not be decoded.
#[derive(Clone, Copy, Debug, PartialEq, Eq)]
pub enum DecodeError {
    /// The length prefix is not four hexadecimal digits.
    HexDecode,
    /// The length prefix announces a line without data.
    DataIsEmpty,
    /// The length prefix announces fewer bytes than the prefix itself, or more than a
    /// line may hold.
    InvalidLineLength(u16),
}

/// What a length prefix says: a complete line, or how many data bytes follow.
#[derive(Clone, Debug, PartialEq, Eq)]
pub enum PacketLineOrWantedSize {
    Line(PacketLine),
    Wanted(u16),
}

/// The value of a hexadecimal digit, either case, or `None`.
pub open spec fn hex_digit(c: u8) -> Option<int> {
    if 48 <= c <= 57 {
        Some(c - 48)
    } else if 97 <= c <= 102 {
        Some(c - 87)
    } else if 65 <= c <= 70 {
        Some(c - 55)
    } else {
        None
    }
}

/// The value of four hexadecimal digits, most significant first, or `None`.
pub open spec fn hex4(s: Seq<u8>) -> Option<int> {
    if s.len() == 4 && hex_digit(s[0]) is Some && hex_digit(s[1]) is Some && hex_digit(s[2]) is Some
        && hex_digit(s[3]) is Some {
        Some(
            hex_digit(s[0])->Some_0 * 4096 + hex_digit(s[1])->Some_0 * 256 + hex_digit(s[2])->Some_0
                * 16 + hex_digit(s[3])->Some_0,
        )
    } else {
        None
    }
}

/// What the four bytes of a length prefix decode to.
pub open spec fn prefix_spec(s: Seq<u8>) -> Result<PacketLineOrWantedSize, DecodeError> {
    if s == seq![48u8, 48, 48, 48] {
        Ok(PacketLineOrWantedSize::Line(PacketLine::Flush))
    } else if hex4(s) is None {
        Err(DecodeError::HexDecode)
    } else if hex4(s)->Some_0 == 4 {
        Err(DecodeError::DataIsEmpty)
    } else if hex4(s)->Some_0 < 4 || hex4(s)->Some_0 > MAX_LINE_LEN {
        Err(DecodeError::InvalidLineLength(hex4(s)->Some_0 as u16))
    } else {
        Ok(PacketLineOrWantedSize::Wanted((hex4(s)->Some_0 - 4) as u16))
    }
}

/// Decodes one hexadecimal digit.
pub fn decode_hex_digit(c: u8) -> (r: Option<u8>)
    ensures
        r matches Some(v) ==> hex_digit(c) == Some(v as int),
        r is None <==> hex_digit(c) is None,
{
    if 48 <= c && c <= 57 {
        Some(c - 48)
    } else if 97 <= c && c <= 102 {
        Some(c - 87)
    } else if 65 <= c && c <= 70 {
        Some(c - 55)
    } else {
        None
    }
}

/// Decodes the four-byte length prefix of a packet line.
pub fn hex_prefix(four_bytes: &[u8]) -> (r: Result<PacketLineOrWantedSize, DecodeError>)
    requires
        four_bytes@.len() == 4,
    ensures
        r == prefix_spec(four_bytes@),
{
    if four_bytes[0] == 48 && four_bytes[1] == 48 && four_bytes[2] == 48 && four_bytes[3] == 48 {
        assert(four_bytes@ =~= seq![48u8, 48, 48, 48]);
        return Ok(PacketLineOrWantedSize::Line(PacketLine::Flush));
    }
    assert(four_bytes@ != seq![48u8, 48, 48, 48]);
    let d0 = decode_hex_digit(four_bytes[0]);
    let d1 = decode_hex_digit(four_bytes[1]);
    let d2 = decode_hex_digit(four_bytes[2]);
    let d3 = decode_hex_digit(four_bytes[3]);
    match (d0, d1, d2, d3) {
        (Some(a), Some(b), Some(c), Some(d)) => {
            let wanted: u16 = (a as u16) * 4096 + (b as u16) * 256 + (c as u16) * 16 + (d as u16);
            if wanted == 4 {
                Err(DecodeError::DataIsEmpty)
            } else if wanted < 4 || wanted as usize > MAX_LINE_LEN {
                Err(DecodeError::InvalidLineLength(wanted))
            } else {
                Ok(PacketLineOrWantedSize::Wanted(wanted - 4))
            }
        },
        _ => Err(DecodeError::HexDecode),
    }
}

/// Turns the data bytes of a line into a data line.
pub fn to_data_line(data: Vec<u8>) -> (r: Result<PacketLine, DecodeError>)
    ensures
        data@.len() == 0 ==> r == Err::<PacketLine, DecodeError>(DecodeError::DataIsEmpty),
        data@.len() > 0 ==> r == Ok::<PacketLine, DecodeError>(PacketLine::Data(data)),
{
    if data.len() == 0 {
        Err(DecodeError::DataIsEmpty)
    } else {
        Ok(PacketLine::Data(data))
    }
}

/// Reading one line from the bytes `p` gives `line` and leaves `rest`: four bytes of
/// length prefix, then as many data bytes as the prefix announces. A flush prefix or
/// a bad prefix takes the four bytes only.
pub open spec fn reads_line(p: Seq<u8>, line: Result<PacketLine, DecodeError>, rest: Seq<u8>) -> bool {
    &&& p.len() >= 4
    &&& match prefix_spec(p.take(4)) {
        Ok(PacketLineOrWantedSize::Line(l)) => line == Ok::<PacketLine, DecodeError>(l) && rest
            == p.skip(4),
        Ok(PacketLineOrWantedSize::Wanted(w)) => {
            &&& p.len() >= 4 + w
            &&& line matches Ok(PacketLine::Data(d))
            &&& d@ == p.subrange(4, 4 + w)
            &&& rest == p.skip(4 + w)
        },
        Err(e) => line == Err::<PacketLine, DecodeError>(e) && rest == p.skip(4),
    }
}

/// Reads packet lines one after another, without taking more than needed from the
/// source. A flush line makes the reader stop producing lines until it is reset,
/// leaving the source at the start of whatever comes next.
pub struct Reader<T> {
    pub inner: T,
    is_done: bool,
}

impl<T: ByteSource> Reader<T> {
    /// Whether a flush line was read since the reader was made or last reset.
    pub closed spec fn done(&self) -> bool {
        self.is_done
    }

    /// The source lines are read from.
    pub closed spec fn source(&self) -> T {
        self.inner
    }

    /// A reader of the lines of `inner`.
    pub fn new(inner: T) -> (r: Self)
        ensures
            r.source() == inner,
            !r.done(),
    {
        Reader { inner, is_done: false }
    }

    /// Lets the reader produce lines again after a flush line.
    pub fn reset(&mut self)
        ensures
            final(self).source() == old(self).source(),
            !final(self).done(),
    {
        self.is_done = false;
    }

    /// Reads one line: its length prefix, then its data.
    fn read_line_inner(reader: &mut T) -> (r: Result<Result<PacketLine, DecodeError>, ReadError>)
        ensures
            r matches Ok(line) ==> reads_line(old(reader).pending(), line, final(reader).pending()),
            r matches Ok(Ok(PacketLine::Data(d))) ==> 0 < d@.len() <= MAX_DATA_LEN,
    {
        let ghost p = reader.pending();
        let hex_bytes = match reader.read_exact(4) {
            Ok(v) => v,
            Err(e) => return Err(e),
        };
        let num_data_bytes = match hex_prefix(hex_bytes.as_slice()) {
            Ok(PacketLineOrWantedSize::Line(line)) => return Ok(Ok(line)),
            Ok(PacketLineOrWantedSize::Wanted(additional_bytes)) => additional_bytes as usize,
            Err(err) => return Ok(Err(err)),
        };
        let data_bytes = match reader.read_exact(num_data_bytes) {
            Ok(v) => v,
            Err(e) => return Err(e),
        };
        assert(data_bytes@ =~= p.subrange(4, 4 + num_data_bytes));
        assert(reader.pending() =~= p.skip(4 + num_data_bytes));
        Ok(to_data_line(data_bytes))
    }

    /// Reads the next line. Returns `None`, without reading, once a flush line has been
    /// read; reading the flush line itself returns `None` too.
    pub fn read_line(&mut self) -> (r: Option<Result<Result<PacketLine, DecodeError>, ReadError>>)
        ensures
            old(self).done() ==> r is None && final(self).done() && final(self).source() == old(self).source(),
            !old(self).done() ==> (r is None <==> final(self).done()),
            !old(self).done() && r is None ==> reads_line(
                old(self).source().pending(),
                Ok(PacketLine::Flush),
                final(self).source().pending(),
            ),
            r matches Some(Ok(line)) ==> reads_line(
                old(self).source().pending(),
                line,
                final(self).source().pending(),
            ),
            !(r matches Some(Ok(Ok(PacketLine::Flush)))),
            r matches Some(Ok(Ok(PacketLine::Data(d)))) ==> 0 < d@.len() <= MAX_DATA_LEN,
    {
        if self.is_done {
            return None;
        }
        match Self::read_line_inner(&mut self.inner) {
            Ok(Ok(PacketLine::Flush)) => {
                self.is_done = true;
                None
            },
            other => Some(other),
        }
    }
}

} // verus!
