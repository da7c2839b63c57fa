//! The pkt-line framing of the git wire protocol: four hexadecimal digits
//! giving the length of the line (header included), then the payload.
//! Lengths 0, 1 and 2 are the flush, delimiter and response-end markers.
use vstd::prelude::*;

use crate::error::GitError;

verus! {

broadcast use vstd::seq::group_seq_axioms;

/// One pkt-line, borrowing its payload from the buffer it was read from.
#[derive(Debug)]
pub enum PktLine<'a> {
    Data(&'a [u8]),
    Flush,
    Delim,
    ResponseEnd,
}

/// What a pkt-line holds.
pub enum PktFrame {
    Data(Seq<u8>),
    Flush,
    Delim,
    ResponseEnd,
}

impl<'a> View for PktLine<'a> {
    type V = PktFrame;

    open spec fn view(&self) -> PktFrame {
        match self {
            PktLine::Data(d) => PktFrame::Data(d@),
            PktLine::Flush => PktFrame::Flush,
            PktLine::Delim => PktFrame::Delim,
            PktLine::ResponseEnd => PktFrame::ResponseEnd,
        }
    }
}

/// The payload of a data line without one trailing newline.
pub open spec fn trimmed_spec(f: PktFrame) -> Option<Seq<u8>> {
    match f {
        PktFrame::Data(d) => Some(
            if d.len() > 0 && d.last() == 0x0a {
                d.drop_last()
            } else {
                d
            },
        ),
        _ => None,
    }
}

/// The value of a hexadecimal digit (either case).
pub open spec fn hex_digit(b: u8) -> Option<nat> {
    if 0x30 <= b <= 0x39 {
        Some((b - 0x30) as nat)
    } else if 0x61 <= b <= 0x66 {
        Some((b - 0x61 + 10) as nat)
    } else if 0x41 <= b <= 0x46 {
        Some((b - 0x41 + 10) as nat)
    } else {
        None
    }
}

pub open spec fn all_hex_digits(s: Seq<u8>) -> bool {
    forall|i: int| 0 <= i < s.len() ==> #[trigger] hex_digit(s[i]) is Some
}

/// The number that hexadecimal digits spell, most significant first.
pub open spec fn hex_value(s: Seq<u8>) -> nat
    decreases s.len(),
{
    if s.len() == 0 {
        0
    } else {
        16 * hex_value(s.drop_last()) + hex_digit(s.last()).unwrap()
    }
}

/// A length header as `usize::from_str_radix(_, 16)` reads it: hexadecimal
/// digits, optionally after one `+`, fitting in a `usize`.
pub open spec fn parse_len_spec(h: Seq<u8>) -> Option<nat> {
    let digits = if h.len() > 0 && h[0] == 0x2b {
        h.drop_first()
    } else {
        h
    };
    if digits.len() > 0 && all_hex_digits(digits) && hex_value(digits) <= usize::MAX {
        Some(hex_value(digits))
    } else {
        None
    }
}

pub proof fn lemma_hex_value_prefix_le(s: Seq<u8>, k: int)
    requires
        0 <= k <= s.len(),
    ensures
        hex_value(s.subrange(0, k)) <= hex_value(s),
    decreases s.len(),
{
    if k < s.len() {
        lemma_hex_value_prefix_le(s.drop_last(), k);
        assert(s.drop_last().subrange(0, k) =~= s.subrange(0, k));
    } else {
        assert(s.subrange(0, k) =~= s);
    }
}

fn hex_digit_exec(b: u8) -> (r: Option<usize>)
    ensures
        match r {
            Some(v) => hex_digit(b) == Some(v as nat) && v < 16,
            None => hex_digit(b) is None,
        },
{
    if 0x30 <= b && b <= 0x39 {
        Some((b - 0x30) as usize)
    } else if 0x61 <= b && b <= 0x66 {
        Some((b - 0x61 + 10) as usize)
    } else if 0x41 <= b && b <= 0x46 {
        Some((b - 0x41 + 10) as usize)
    } else {
        None
    }
}

/// Reads a pkt-line length header.
pub fn parse_len(hex: &[u8]) -> (r: Result<usize, GitError>)
    ensures
        match r {
            Ok(n) => parse_len_spec(hex@) == Some(n as nat),
            Err(e) => parse_len_spec(hex@) is None && e is PktBadLength,
        },
{
    let start: usize = if hex.len() > 0 && hex[0] == 0x2b {
        1
    } else {
        0
    };
    let ghost digits = hex@.subrange(start as int, hex@.len() as int);
    assert(start == 1 ==> digits =~= hex@.drop_first());
    assert(start == 0 ==> digits =~= hex@);
    if start == hex.len() {
        return Err(GitError::PktBadLength);
    }
    let mut i: usize = start;
    while i < hex.len()
        invariant
            start <= i <= hex.len(),
            digits == hex@.subrange(start as int, hex@.len() as int),
            digits == (if hex@.len() > 0 && hex@[0] == 0x2b {
                hex@.drop_first()
            } else {
                hex@
            }),
            forall|j: int| 0 <= j < i - start ==> #[trigger] hex_digit(digits[j]) is Some,
        decreases hex.len() - i,
    {
        if hex_digit_exec(hex[i]).is_none() {
            assert(hex_digit(digits[i - start]) is None);
            assert(!all_hex_digits(digits));
            return Err(GitError::PktBadLength);
        }
        i = i + 1;
    }
    let mut v: usize = 0;
    let mut i: usize = start;
    while i < hex.len()
        invariant
            start <= i <= hex.len(),
            digits == hex@.subrange(start as int, hex@.len() as int),
            digits == (if hex@.len() > 0 && hex@[0] == 0x2b {
                hex@.drop_first()
            } else {
                hex@
            }),
            all_hex_digits(digits),
            v as nat == hex_value(digits.subrange(0, i - start)),
        decreases hex.len() - i,
    {
        let d = match hex_digit_exec(hex[i]) {
            Some(d) => d,
            None => {
                assert(hex_digit(digits[i - start]) is Some);
                return Err(GitError::PktBadLength);
            },
        };
        let ghost pre = digits.subrange(0, i + 1 - start);
        assert(pre.drop_last() =~= digits.subrange(0, i - start));
        assert(pre.last() == hex[i as int]);
        if v > (usize::MAX - d) / 16 {
            proof {
                lemma_hex_value_prefix_le(digits, i + 1 - start);
                assert(16 * v + d > usize::MAX) by (nonlinear_arith)
                    requires
                        v > (usize::MAX - d) / 16,
                        d < 16,
                ;
                assert(hex_value(pre) == 16 * v + d);
            }
            return Err(GitError::PktBadLength);
        }
        v = v * 16 + d;
        i = i + 1;
    }
    assert(digits.subrange(0, hex@.len() - start) =~= digits);
    Ok(v)
}

/// Four lowercase hexadecimal digits of `n`.
pub open spec fn hex4(n: nat) -> Seq<u8> {
    seq![hex_char(n / 4096 % 16), hex_char(n / 256 % 16), hex_char(n / 16 % 16), hex_char(n % 16)]
}

pub open spec fn hex_char(d: nat) -> u8 {
    if d < 10 {
        (0x30 + d) as u8
    } else {
        (0x61 + d - 10) as u8
    }
}

/// The bytes of a pkt-line on the wire.
pub open spec fn encode_spec(f: PktFrame) -> Seq<u8> {
    match f {
        PktFrame::Data(d) => hex4(d.len() + 4) + d,
        PktFrame::Flush => hex4(0),
        PktFrame::Delim => hex4(1),
        PktFrame::ResponseEnd => hex4(2),
    }
}

/// A pkt-line can be written when its length fits four hexadecimal digits.
pub open spec fn encodable(f: PktFrame) -> bool {
    f matches PktFrame::Data(d) ==> d.len() + 4 <= 0xffff
}

fn hex_char_exec(d: usize) -> (r: u8)
    requires
        d < 16,
    ensures
        r == hex_char(d as nat),
{
    if d < 10 {
        (0x30 + d) as u8
    } else {
        (0x61 + d - 10) as u8
    }
}

fn push_hex4(out: &mut Vec<u8>, n: usize)
    requires
        n <= 0xffff,
    ensures
        final(out)@ == old(out)@ + hex4(n as nat),
{
    out.push(hex_char_exec(n / 4096 % 16));
    out.push(hex_char_exec(n / 256 % 16));
    out.push(hex_char_exec(n / 16 % 16));
    out.push(hex_char_exec(n % 16));
    assert(out@ =~= old(out)@ + hex4(n as nat));
}

impl<'a> PktLine<'a> {
    /// A data line carrying `payload`.
    pub fn data(payload: &'a [u8]) -> (r: PktLine<'a>)
        ensures
            r@ == PktFrame::Data(payload@),
    {
        PktLine::Data(payload)
    }

    /// The flush marker `0000`.
    pub fn flush() -> (r: PktLine<'a>)
        ensures
            r@ == PktFrame::Flush,
    {
        PktLine::Flush
    }

    /// The payload of a data line without one trailing newline.
    pub fn trimmed(&self) -> (r: Option<&'a [u8]>)
        ensures
            match r {
                Some(d) => trimmed_spec(self@) == Some(d@),
                None => trimmed_spec(self@) is None,
            },
    {
        match self {
            PktLine::Data(data) => {
                let n = data.len();
                if n > 0 && data[n - 1] == 0x0a {
                    let t = &data[0..n - 1];
                    assert(t@ =~= data@.drop_last());
                    Some(t)
                } else {
                    Some(*data)
                }
            },
            _ => None,
        }
    }

    /// The wire form of this line.
    pub fn encode(&self) -> (r: Vec<u8>)
        requires
            encodable(self@),
        ensures
            r@ == encode_spec(self@),
    {
        let mut out: Vec<u8> = Vec::new();
        match self {
            PktLine::Data(d) => {
                push_hex4(&mut out, d.len() + 4);
                crate::text::push_all(&mut out, d);
            },
            PktLine::Flush => push_hex4(&mut out, 0),
            PktLine::Delim => push_hex4(&mut out, 1),
            PktLine::ResponseEnd => push_hex4(&mut out, 2),
        }
        assert(out@ =~= encode_spec(self@));
        out
    }
}

/// One step of reading: the item read (none at the end) and the new position.
pub open spec fn pkt_next_spec(buf: Seq<u8>, pos: int) -> (Option<Result<PktFrame, GitError>>, int) {
    let len = buf.len() as int;
    if pos >= len {
        (None, pos)
    } else if len - pos < 4 {
        (Some(Err(GitError::PktHeaderTooShort)), len)
    } else {
        match parse_len_spec(buf.subrange(pos, pos + 4)) {
            None => (Some(Err(GitError::PktBadLength)), len),
            Some(n) => if n == 0 {
                (Some(Ok(PktFrame::Flush)), pos + 4)
            } else if n == 1 {
                (Some(Ok(PktFrame::Delim)), pos + 4)
            } else if n == 2 {
                (Some(Ok(PktFrame::ResponseEnd)), pos + 4)
            } else if n == 3 {
                (Some(Err(GitError::PktInvalidLength)), len)
            } else if pos + n > len {
                (Some(Err(GitError::PktTruncated)), pos + len)
            } else {
                (Some(Ok(PktFrame::Data(buf.subrange(pos + 4, pos + n)))), pos + n)
            },
        }
    }
}

/// Every item the reader yields from `pos` on, up to and including the first error.
pub open spec fn pkt_items(buf: Seq<u8>, pos: int) -> Seq<Result<PktFrame, GitError>>
    decreases buf.len() - pos,
{
    if 0 <= pos < buf.len() {
        match pkt_next_spec(buf, pos) {
            (Some(Ok(f)), p) => if pos < p <= buf.len() {
                seq![Ok(f)] + pkt_items(buf, p)
            } else {
                seq![Ok(f)]
            },
            (Some(Err(e)), _) => seq![Err(e)],
            (None, _) => seq![],
        }
    } else {
        seq![]
    }
}

pub open spec fn item_view<'a>(r: Option<Result<PktLine<'a>, GitError>>) -> Option<
    Result<PktFrame, GitError>,
> {
    match r {
        None => None,
        Some(Ok(l)) => Some(Ok(l@)),
        Some(Err(e)) => Some(Err(e)),
    }
}

/// Reads pkt-lines one after another from a buffer.
pub struct PktLineReader<'a> {
    buf: &'a [u8],
    pos: usize,
}

impl<'a> PktLineReader<'a> {
    #[verifier::type_invariant]
    spec fn inv(self) -> bool {
        &&& self.buf@.len() <= isize::MAX
        &&& self.pos <= 2 * self.buf@.len()
    }

    /// The bytes being read.
    pub closed spec fn buf_view(self) -> Seq<u8> {
        self.buf@
    }

    /// The read position.
    pub closed spec fn position(self) -> int {
        self.pos as int
    }

    /// The read position is never negative.
    pub proof fn lemma_position_nonneg(self)
        ensures
            0 <= self.position(),
    {
    }

    /// A reader at the start of `buf`.
    pub fn new(buf: &'a [u8]) -> (r: Self)
        requires
            buf@.len() <= isize::MAX,
        ensures
            r.buf_view() == buf@,
            r.position() == 0,
            r.buf_view().len() <= isize::MAX,
    {
        PktLineReader { buf, pos: 0 }
    }

    /// The bytes not read yet.
    pub fn remaining(&self) -> (r: &'a [u8])
        requires
            self.position() <= self.buf_view().len(),
        ensures
            r@ == self.buf_view().subrange(self.position(), self.buf_view().len() as int),
    {
        &self.buf[self.pos..self.buf.len()]
    }

    /// Reads the next pkt-line; `None` once the buffer is used up. After an
    /// error the reader yields nothing more.
    pub fn next(&mut self) -> (r: Option<Result<PktLine<'a>, GitError>>)
        ensures
            final(self).buf_view() == old(self).buf_view(),
            0 <= final(self).position() <= 2 * final(self).buf_view().len(),
            final(self).buf_view().len() <= isize::MAX,
            (item_view(r), final(self).position()) == pkt_next_spec(
                old(self).buf_view(),
                old(self).position(),
            ),
    {
        proof {
            use_type_invariant(&*self);
        }
        let len = self.buf.len();
        if self.pos >= len {
            return None;
        }
        if len - self.pos < 4 {
            self.pos = len;
            return Some(Err(GitError::PktHeaderTooShort));
        }
        let n = match parse_len(&self.buf[self.pos..self.pos + 4]) {
            Ok(l) => l,
            Err(e) => {
                self.pos = len;
                return Some(Err(e));
            },
        };
        if n == 0 {
            self.pos = self.pos + 4;
            Some(Ok(PktLine::Flush))
        } else if n == 1 {
            self.pos = self.pos + 4;
            Some(Ok(PktLine::Delim))
        } else if n == 2 {
            self.pos = self.pos + 4;
            Some(Ok(PktLine::ResponseEnd))
        } else if n == 3 {
            self.pos = len;
            Some(Err(GitError::PktInvalidLength))
        } else if n > len - self.pos {
            self.pos = self.pos + len;
            Some(Err(GitError::PktTruncated))
        } else {
            let end = self.pos + n;
            let payload = &self.buf[self.pos + 4..end];
            self.pos = end;
            Some(Ok(PktLine::Data(payload)))
        }
    }
}

/// Reading at `pos` reads the bytes that remain there: the same item as
/// reading those bytes from their start, the reader moving past a line it
/// read, staying put at the end, and moving to the end or past it after an
/// error.
pub proof fn law_next_reads_remaining(buf: Seq<u8>, pos: int)
    requires
        0 <= pos <= buf.len(),
    ensures
        ({
            let rem = buf.subrange(pos, buf.len() as int);
            let step = pkt_next_spec(buf, pos);
            let from_start = pkt_next_spec(rem, 0);
            &&& step.0 == from_start.0
            &&& (from_start.0 matches Some(Ok(_)) ==> step.1 == pos + from_start.1)
            &&& (from_start.0 is None ==> step.1 == pos)
            &&& (from_start.0 matches Some(Err(_)) ==> step.1 >= buf.len())
        }),
{
    let rem = buf.subrange(pos, buf.len() as int);
    if rem.len() >= 4 {
        assert(buf.subrange(pos, pos + 4) =~= rem.subrange(0, 4));
        if let Some(n) = parse_len_spec(rem.subrange(0, 4)) {
            if 4 <= n && pos + n <= buf.len() {
                assert(buf.subrange(pos + 4, pos + n) =~= rem.subrange(4, n as int));
            }
        }
    }
}

pub proof fn lemma_hex_char_digit(d: nat)
    requires
        d < 16,
    ensures
        hex_digit(hex_char(d)) == Some(d),
{
}

/// Four hexadecimal digits read back as the number they were written from.
pub proof fn lemma_hex4_parse(n: nat)
    requires
        n <= 0xffff,
    ensures
        parse_len_spec(hex4(n)) == Some(n),
{
    let h = hex4(n);
    let (a, b, c, d) = (n / 4096 % 16, n / 256 % 16, n / 16 % 16, n % 16);
    lemma_hex_char_digit(a);
    lemma_hex_char_digit(b);
    lemma_hex_char_digit(c);
    lemma_hex_char_digit(d);
    assert(h[0] != 0x2b);
    let h3 = h.drop_last();
    let h2 = h3.drop_last();
    let h1 = h2.drop_last();
    assert(h1.drop_last() =~= Seq::<u8>::empty());
    assert(h1.last() == h[0] && h2.last() == h[1] && h3.last() == h[2] && h.last() == h[3]);
    assert(hex_value(h1.drop_last()) == 0);
    assert(hex_value(h.drop_last().drop_last().drop_last()) == a);
    assert(hex_value(h.drop_last().drop_last()) == 16 * a + b);
    assert(hex_value(h.drop_last()) == 16 * (16 * a + b) + c);
    assert(hex_value(h) == 16 * (16 * (16 * a + b) + c) + d);
    assert(16 * (16 * (16 * a + b) + c) + d == n) by (nonlinear_arith)
        requires
            n <= 0xffff,
            a == n / 4096 % 16,
            b == n / 256 % 16,
            c == n / 16 % 16,
            d == n % 16,
    ;
    assert(all_hex_digits(h));
}

/// Reading a written pkt-line gives back the line, and the reader moves
/// exactly past it, whatever follows.
pub proof fn law_pkt_read_write(f: PktFrame, buf: Seq<u8>, pos: int)
    requires
        encodable(f),
        0 <= pos,
        pos + encode_spec(f).len() <= buf.len(),
        buf.subrange(pos, pos + encode_spec(f).len()) == encode_spec(f),
    ensures
        pkt_next_spec(buf, pos) == (Some(Ok::<PktFrame, GitError>(f)), pos + encode_spec(
            f,
        ).len()),
{
    let e = encode_spec(f);
    let n: nat = match f {
        PktFrame::Data(d) => d.len() + 4,
        PktFrame::Flush => 0,
        PktFrame::Delim => 1,
        PktFrame::ResponseEnd => 2,
    };
    lemma_hex4_parse(n);
    assert(buf.subrange(pos, pos + 4) =~= hex4(n)) by {
        assert forall|i: int| 0 <= i < 4 implies buf.subrange(pos, pos + 4)[i] == hex4(n)[i] by {
            assert(buf.subrange(pos, pos + e.len())[i] == e[i]);
        }
    }
    if let PktFrame::Data(d) = f {
        assert(buf.subrange(pos + 4, pos + n) =~= d) by {
            assert forall|i: int| 0 <= i < d.len() implies buf.subrange(pos + 4, pos + n)[i]
                == d[i] by {
                assert(buf.subrange(pos, pos + e.len())[i + 4] == e[i + 4]);
            }
        }
    }
}

/// The wire form of a sequence of pkt-lines, one after another.
pub open spec fn encode_all(fs: Seq<PktFrame>) -> Seq<u8>
    decreases fs.len(),
{
    if fs.len() == 0 {
        seq![]
    } else {
        encode_spec(fs[0]) + encode_all(fs.drop_first())
    }
}

/// Successful reads of the given lines.
pub open spec fn all_ok(fs: Seq<PktFrame>) -> Seq<Result<PktFrame, GitError>>
    decreases fs.len(),
{
    if fs.len() == 0 {
        seq![]
    } else {
        seq![Ok(fs[0])] + all_ok(fs.drop_first())
    }
}

/// Reading back written pkt-lines gives every line, in order.
pub proof fn law_pkt_read_all(fs: Seq<PktFrame>)
    requires
        forall|i: int| 0 <= i < fs.len() ==> encodable(#[trigger] fs[i]),
    ensures
        pkt_items(encode_all(fs), 0) == all_ok(fs),
{
    lemma_pkt_read_all_at(fs, seq![]);
    assert(Seq::<u8>::empty() + encode_all(fs) =~= encode_all(fs));
}

proof fn lemma_pkt_read_all_at(fs: Seq<PktFrame>, pre: Seq<u8>)
    requires
        forall|i: int| 0 <= i < fs.len() ==> encodable(#[trigger] fs[i]),
    ensures
        pkt_items(pre + encode_all(fs), pre.len() as int) == all_ok(fs),
    decreases fs.len(),
{
    let buf = pre + encode_all(fs);
    if fs.len() == 0 {
    } else {
        let e = encode_spec(fs[0]);
        let tail = fs.drop_first();
        assert(encodable(fs[0]));
        assert forall|i: int| 0 <= i < tail.len() implies encodable(#[trigger] tail[i]) by {
            assert(encodable(fs[i + 1]));
        }
        assert(buf =~= (pre + e) + encode_all(tail));
        assert(buf.subrange(pre.len() as int, (pre.len() + e.len()) as int) =~= e);
        law_pkt_read_write(fs[0], buf, pre.len() as int);
        lemma_pkt_read_all_at(tail, pre + e);
    }
}

} // verus!
