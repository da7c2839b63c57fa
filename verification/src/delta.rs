//! The numbers and deltas inside packfiles: base-128 numbers, entry headers
//! (type and size), and deltas that rebuild an object from a base.
use vstd::prelude::*;

use crate::error::GitError;
use crate::text::push_all;

verus! {

broadcast use vstd::seq::group_seq_axioms;

/// The number of bytes of the base-128 number at the start of `s`: up to
/// and including the first byte whose high bit is clear.
pub open spec fn varint_len(s: Seq<u8>) -> Option<nat>
    decreases s.len(),
{
    if s.len() == 0 {
        None
    } else if s[0] < 0x80 {
        Some(1)
    } else {
        match varint_len(s.drop_first()) {
            Some(n) => Some(n + 1),
            None => None,
        }
    }
}

/// The low seven bits of each of the first `n` bytes of `s`, the k-th put
/// at bit `shift0 + 7 * k` over `init` (bits past the width of `usize` are lost).
pub open spec fn le7_bits(s: Seq<u8>, n: nat, shift0: nat, init: usize) -> usize
    decreases n,
{
    if n == 0 {
        init
    } else {
        le7_bits(s, (n - 1) as nat, shift0, init) | (((s[n - 1] & 0x7f) as usize) << ((shift0 + 7
            * (n - 1)) as usize))
    }
}

/// The little-endian base-128 number of `n` bytes at the start of `s`.
pub open spec fn varint_value(s: Seq<u8>, n: nat) -> usize {
    le7_bits(s, n, 0, 0)
}

/// A base-128 number of `n` bytes can be read without shifting past the
/// width of `usize`.
pub open spec fn varint_fits(n: nat, shift0: nat) -> bool {
    n > 0 && shift0 + 7 * (n - 1) < usize::BITS
}

pub proof fn lemma_varint_len(s: Seq<u8>)
    ensures
        varint_len(s) matches Some(n) ==> {
            &&& 0 < n <= s.len()
            &&& s[n - 1] < 0x80
            &&& forall|j: int| 0 <= j < n - 1 ==> #[trigger] s[j] >= 0x80
        },
        varint_len(s) is None ==> forall|j: int| 0 <= j < s.len() ==> #[trigger] s[j] >= 0x80,
    decreases s.len(),
{
    if s.len() > 0 && s[0] >= 0x80 {
        lemma_varint_len(s.drop_first());
        if let Some(n) = varint_len(s) {
            assert forall|j: int| 0 <= j < n - 1 implies #[trigger] s[j] >= 0x80 by {
                if j > 0 {
                    assert(s[j] == s.drop_first()[j - 1]);
                }
            }
        } else {
            assert forall|j: int| 0 <= j < s.len() implies #[trigger] s[j] >= 0x80 by {
                if j > 0 {
                    assert(s[j] == s.drop_first()[j - 1]);
                }
            }
        }
    }
}

/// Reads the base-128 number at `data[pos..]` into `init`, its k-th byte
/// at bit `shift0 + 7 * k`; gives the value and the position after it.
fn read_le7(data: &[u8], pos: usize, shift0: usize, init: usize) -> (r: (usize, usize))
    requires
        pos <= data.len(),
        shift0 <= 4,
        varint_len(data@.subrange(pos as int, data@.len() as int)) matches Some(n) && varint_fits(
            n,
            shift0 as nat,
        ),
    ensures
        varint_len(data@.subrange(pos as int, data@.len() as int)) == Some((r.1 - pos) as nat),
        pos < r.1 <= data.len(),
        r.0 == le7_bits(
            data@.subrange(pos as int, data@.len() as int),
            (r.1 - pos) as nat,
            shift0 as nat,
            init,
        ),
{
    let ghost s = data@.subrange(pos as int, data@.len() as int);
    let ghost n = varint_len(s).unwrap();
    proof {
        lemma_varint_len(s);
    }
    let mut p: usize = pos;
    let mut result: usize = init;
    let mut shift: usize = shift0;
    loop
        invariant
            pos <= p,
            pos <= data.len(),
            p - pos < n,
            n <= s.len(),
            s == data@.subrange(pos as int, data@.len() as int),
            varint_len(s) == Some(n),
            varint_fits(n, shift0 as nat),
            s[n - 1] < 0x80,
            forall|j: int| 0 <= j < n - 1 ==> #[trigger] s[j] >= 0x80,
            shift == shift0 + 7 * (p - pos),
            result == le7_bits(s, (p - pos) as nat, shift0 as nat, init),
        decreases n - (p - pos),
    {
        let b = data[p];
        assert(b == s[p - pos]);
        result = result | (((b & 0x7f) as usize) << shift);
        p = p + 1;
        if b & 0x80 == 0 {
            assert(b < 0x80) by (bit_vector)
                requires
                    b & 0x80 == 0,
            ;
            return (result, p);
        }
        assert(b >= 0x80) by (bit_vector)
            requires
                b & 0x80 != 0,
        ;
        shift = shift + 7;
    }
}

/// Reads the little-endian base-128 number at `data[start..]` (as delta
/// headers hold sizes): its value and how many bytes it took.
pub fn read_varint(data: &[u8], start: usize) -> (r: (usize, usize))
    requires
        start <= data.len(),
        varint_len(data@.subrange(start as int, data@.len() as int)) matches Some(n) && varint_fits(
            n,
            0,
        ),
    ensures
        varint_len(data@.subrange(start as int, data@.len() as int)) == Some(r.1 as nat),
        r.0 == varint_value(data@.subrange(start as int, data@.len() as int), r.1 as nat),
{
    let (v, end) = read_le7(data, start, 0, 0);
    (v, end - start)
}

/// The number of bytes of a pack entry header at the start of `s`.
pub open spec fn type_size_len(s: Seq<u8>) -> Option<nat> {
    if s.len() == 0 {
        None
    } else if s[0] < 0x80 {
        Some(1)
    } else {
        match varint_len(s.drop_first()) {
            Some(m) => Some(m + 1),
            None => None,
        }
    }
}

/// An entry header can be read: it ends inside `s` and its size bits do not
/// shift past the width of `usize`.
pub open spec fn type_size_readable(s: Seq<u8>) -> bool {
    match type_size_len(s) {
        Some(n) => n == 1 || varint_fits((n - 1) as nat, 4),
        None => false,
    }
}

/// The type of a pack entry: bits 4 to 6 of its first byte.
pub open spec fn entry_type(s: Seq<u8>) -> u8 {
    (s[0] >> 4) & 0x07
}

/// The size of a pack entry: the low four bits of its first byte, then
/// seven bits from each following header byte.
pub open spec fn entry_size(s: Seq<u8>) -> usize {
    if s[0] < 0x80 {
        (s[0] & 0x0f) as usize
    } else {
        le7_bits(s.drop_first(), (type_size_len(s).unwrap() - 1) as nat, 4, (s[0] & 0x0f) as usize)
    }
}

/// Reads a pack entry header at `bytes[pos..]`: the type, the size, and the
/// position after the header.
pub fn parse_type_size(bytes: &[u8], pos: usize) -> (r: (u8, usize, usize))
    requires
        pos <= bytes.len(),
        type_size_readable(bytes@.subrange(pos as int, bytes@.len() as int)),
    ensures
        ({
            let s = bytes@.subrange(pos as int, bytes@.len() as int);
            &&& r.0 == entry_type(s)
            &&& r.1 == entry_size(s)
            &&& type_size_len(s) == Some((r.2 - pos) as nat)
        }),
        pos < r.2 <= bytes.len(),
{
    let ghost s = bytes@.subrange(pos as int, bytes@.len() as int);
    let b = bytes[pos];
    assert(b == s[0]);
    let obj_type = (b >> 4) & 0x07;
    let size = (b & 0x0f) as usize;
    if b & 0x80 == 0 {
        assert(b < 0x80) by (bit_vector)
            requires
                b & 0x80 == 0,
        ;
        return (obj_type, size, pos + 1);
    }
    assert(b >= 0x80) by (bit_vector)
        requires
            b & 0x80 != 0,
    ;
    assert(s.drop_first() =~= bytes@.subrange(pos + 1, bytes@.len() as int));
    let (size, end) = read_le7(bytes, pos + 1, 4, size);
    (obj_type, size, end)
}

/// Reads the bytes that the flag bits `first + i`, `first + i + 1`, ...
/// below `first + count` of `instr` select, from `p` on, into `acc`: the
/// j-th flag's byte goes to bits `8 * j`. `None` where a byte is missing.
pub open spec fn flag_bytes(
    delta: Seq<u8>,
    p: int,
    instr: u8,
    first: nat,
    count: nat,
    i: nat,
    acc: usize,
) -> Option<(usize, int)>
    decreases count - i,
{
    if i >= count {
        Some((acc, p))
    } else if instr & (1u8 << ((first + i) as u8)) != 0 {
        if p < 0 || p >= delta.len() {
            None
        } else {
            flag_bytes(
                delta,
                p + 1,
                instr,
                first,
                count,
                i + 1,
                acc | ((delta[p] as usize) << ((8 * i) as usize)),
            )
        }
    } else {
        flag_bytes(delta, p, instr, first, count, i + 1, acc)
    }
}

/// How applying a delta ends.
pub enum DeltaOutcome {
    /// The rebuilt object.
    Done(Seq<u8>),
    /// An instruction byte of zero.
    InvalidOpcode,
    /// The output length (second) differs from the announced size (first).
    SizeMismatch(nat, nat),
    /// An instruction reaches outside the delta or the base.
    OutOfBounds,
}

/// Runs the delta instructions from `pos` on, appending to `out`. A byte
/// with the high bit set copies a range of the base (offset and size bytes
/// selected by its low bits, a size of 0 meaning 0x10000); a byte `n` from
/// 1 to 127 inserts the next `n` bytes of the delta.
pub open spec fn delta_ops(base: Seq<u8>, delta: Seq<u8>, pos: int, target: nat, out: Seq<u8>) -> DeltaOutcome
    decreases delta.len() - pos,
{
    if pos < 0 {
        DeltaOutcome::OutOfBounds
    } else if pos >= delta.len() {
        if out.len() == target {
            DeltaOutcome::Done(out)
        } else {
            DeltaOutcome::SizeMismatch(target, out.len())
        }
    } else {
        let instr = delta[pos];
        let p = pos + 1;
        if instr & 0x80 != 0 {
            match flag_bytes(delta, p, instr, 0, 4, 0, 0) {
                None => DeltaOutcome::OutOfBounds,
                Some((offset, p2)) => match flag_bytes(delta, p2, instr, 4, 3, 0, 0) {
                    None => DeltaOutcome::OutOfBounds,
                    Some((size0, p3)) => {
                        let size: nat = if size0 == 0 {
                            0x10000
                        } else {
                            size0 as nat
                        };
                        if !(pos < p3 <= delta.len()) || offset + size > base.len() {
                            DeltaOutcome::OutOfBounds
                        } else {
                            delta_ops(
                                base,
                                delta,
                                p3,
                                target,
                                out + base.subrange(offset as int, offset + size),
                            )
                        }
                    },
                },
            }
        } else if instr != 0 {
            let n = instr as int;
            if p + n > delta.len() {
                DeltaOutcome::OutOfBounds
            } else {
                delta_ops(base, delta, p + n, target, out + delta.subrange(p, p + n))
            }
        } else {
            DeltaOutcome::InvalidOpcode
        }
    }
}

/// Applying `delta` to `base`: the source size, the target size, then the
/// instructions.
pub open spec fn delta_spec(base: Seq<u8>, delta: Seq<u8>) -> DeltaOutcome {
    match varint_len(delta) {
        None => DeltaOutcome::OutOfBounds,
        Some(n1) => if !varint_fits(n1, 0) {
            DeltaOutcome::OutOfBounds
        } else {
            let rest = delta.subrange(n1 as int, delta.len() as int);
            match varint_len(rest) {
                None => DeltaOutcome::OutOfBounds,
                Some(n2) => if !varint_fits(n2, 0) {
                    DeltaOutcome::OutOfBounds
                } else {
                    let target = varint_value(rest, n2);
                    if target > isize::MAX {
                        DeltaOutcome::OutOfBounds
                    } else {
                        delta_ops(base, delta, (n1 + n2) as int, target as nat, seq![])
                    }
                },
            }
        },
    }
}

/// The result of running a delta.
pub enum DeltaRun {
    Done(Vec<u8>),
    InvalidOpcode,
    SizeMismatch(usize, usize),
    OutOfBounds,
}

pub open spec fn run_matches(o: DeltaOutcome, r: DeltaRun) -> bool {
    match o {
        DeltaOutcome::Done(out) => r matches DeltaRun::Done(v) && v@ == out,
        DeltaOutcome::InvalidOpcode => r is InvalidOpcode,
        DeltaOutcome::SizeMismatch(e, g) => r matches DeltaRun::SizeMismatch(re, rg) && re == e
            && rg == g,
        DeltaOutcome::OutOfBounds => r is OutOfBounds,
    }
}

/// Reads the bytes selected by `count` flag bits of `instr` from `first` on.
fn read_flag_bytes(delta: &[u8], pos: usize, instr: u8, first: usize, count: usize) -> (r: Option<
    (usize, usize),
>)
    requires
        pos <= delta.len(),
        first + count <= 7,
        count <= 4,
    ensures
        match r {
            Some((v, p)) => flag_bytes(delta@, pos as int, instr, first as nat, count as nat, 0, 0)
                == Some((v, p as int)) && pos <= p <= delta.len(),
            None => flag_bytes(delta@, pos as int, instr, first as nat, count as nat, 0, 0) is None,
        },
{
    let mut i: usize = 0;
    let mut p: usize = pos;
    let mut acc: usize = 0;
    while i < count
        invariant
            i <= count,
            count <= 4,
            first + count <= 7,
            pos <= p <= delta.len(),
            flag_bytes(delta@, pos as int, instr, first as nat, count as nat, 0, 0) == flag_bytes(
                delta@,
                p as int,
                instr,
                first as nat,
                count as nat,
                i as nat,
                acc,
            ),
        decreases count - i,
    {
        let bit: u8 = 1u8 << ((first + i) as u8);
        if instr & bit != 0 {
            if p >= delta.len() {
                return None;
            }
            acc = acc | ((delta[p] as usize) << (8 * i));
            p = p + 1;
        }
        i = i + 1;
    }
    Some((acc, p))
}

/// Runs a delta against a base, reporting where the instructions reach out of bounds.
pub fn run_delta(base: &[u8], delta: &[u8]) -> (r: DeltaRun)
    ensures
        run_matches(delta_spec(base@, delta@), r),
{
    proof {
        lemma_varint_len(delta@);
    }
    assert(delta@.subrange(0, delta@.len() as int) =~= delta@);
    let n1 = match varint_prefix_len(delta, 0) {
        Some(n) => n,
        None => return DeltaRun::OutOfBounds,
    };
    if !fits_shift(n1) {
        return DeltaRun::OutOfBounds;
    }
    let (_source_size, _) = read_varint(delta, 0);
    let n2 = match varint_prefix_len(delta, n1) {
        Some(n) => n,
        None => return DeltaRun::OutOfBounds,
    };
    if !fits_shift(n2) {
        return DeltaRun::OutOfBounds;
    }
    let (target_size, _) = read_varint(delta, n1);
    if target_size > isize::MAX as usize {
        return DeltaRun::OutOfBounds;
    }
    let mut pos: usize = n1 + n2;
    let mut out: Vec<u8> = Vec::new();
    let ghost target = target_size as nat;
    assert(out@ =~= Seq::<u8>::empty());
    while pos < delta.len()
        invariant
            n1 + n2 <= pos <= delta.len(),
            delta_spec(base@, delta@) == delta_ops(base@, delta@, pos as int, target, out@),
            target == target_size as nat,
        decreases delta.len() - pos,
    {
        let instr = delta[pos];
        let p = pos + 1;
        if instr & 0x80 != 0 {
            let (offset, p2) = match read_flag_bytes(delta, p, instr, 0, 4) {
                Some(x) => x,
                None => return DeltaRun::OutOfBounds,
            };
            let (size0, p3) = match read_flag_bytes(delta, p2, instr, 4, 3) {
                Some(x) => x,
                None => return DeltaRun::OutOfBounds,
            };
            let size: usize = if size0 == 0 {
                0x10000
            } else {
                size0
            };
            if offset > base.len() || size > base.len() - offset {
                return DeltaRun::OutOfBounds;
            }
            push_all(&mut out, &base[offset..offset + size]);
            pos = p3;
        } else if instr != 0 {
            let n = instr as usize;
            if n > delta.len() - p {
                return DeltaRun::OutOfBounds;
            }
            push_all(&mut out, &delta[p..p + n]);
            pos = p + n;
        } else {
            return DeltaRun::InvalidOpcode;
        }
    }
    if out.len() != target_size {
        let got = out.len();
        return DeltaRun::SizeMismatch(target_size, got);
    }
    DeltaRun::Done(out)
}

/// Whether a base-128 number of `n` bytes can be read.
fn fits_shift(n: usize) -> (r: bool)
    requires
        n > 0,
    ensures
        r == varint_fits(n as nat, 0),
{
    let k = n - 1;
    let limit = (usize::BITS as usize - 1) / 7;
    proof {
        let b = usize::BITS as int;
        assert(7 * k < b <==> k <= (b - 1) / 7) by (nonlinear_arith)
            requires
                b > 0,
        ;
    }
    k <= limit
}

/// Whether a base-128 number of `n` bytes, put from bit 4 on, can be read.
pub(crate) fn fits_shift4(n: usize) -> (r: bool)
    requires
        n > 0,
    ensures
        r == varint_fits(n as nat, 4),
{
    let k = n - 1;
    let limit = (usize::BITS as usize - 5) / 7;
    proof {
        let b = usize::BITS as int;
        assert(4 + 7 * k < b <==> k <= (b - 5) / 7) by (nonlinear_arith)
            requires
                b >= 32,
        ;
    }
    k <= limit
}

/// The length of the base-128 number at `data[pos..]`, if it ends inside `data`.
pub(crate) fn varint_prefix_len(data: &[u8], pos: usize) -> (r: Option<usize>)
    requires
        pos <= data.len(),
    ensures
        match r {
            Some(n) => varint_len(data@.subrange(pos as int, data@.len() as int)) == Some(n as nat)
                && pos + n <= data.len(),
            None => varint_len(data@.subrange(pos as int, data@.len() as int)) is None,
        },
{
    let ghost s = data@.subrange(pos as int, data@.len() as int);
    let mut p: usize = pos;
    while p < data.len()
        invariant
            pos <= p <= data.len(),
            s == data@.subrange(pos as int, data@.len() as int),
            varint_len(s) == match varint_len(data@.subrange(p as int, data@.len() as int)) {
                Some(m) => Some(m + (p - pos) as nat),
                None => None,
            },
        decreases data.len() - p,
    {
        let ghost t = data@.subrange(p as int, data@.len() as int);
        assert(t[0] == data@[p as int]);
        if data[p] < 0x80 {
            return Some(p + 1 - pos);
        }
        assert(t.drop_first() =~= data@.subrange(p + 1, data@.len() as int));
        p = p + 1;
    }
    None
}

/// Rebuilds an object from the content of its base and a delta.
pub fn apply_delta(base: &[u8], delta: &[u8]) -> (r: Result<Vec<u8>, GitError>)
    requires
        !(delta_spec(base@, delta@) is OutOfBounds),
    ensures
        match delta_spec(base@, delta@) {
            DeltaOutcome::Done(out) => r matches Ok(v) && v@ == out,
            DeltaOutcome::InvalidOpcode => r matches Err(GitError::InvalidDeltaOpcode),
            DeltaOutcome::SizeMismatch(e, g) => r matches Err(
                GitError::DeltaSizeMismatch { expected, got },
            ) && expected == e && got == g,
            DeltaOutcome::OutOfBounds => false,
        },
{
    match run_delta(base, delta) {
        DeltaRun::Done(v) => Ok(v),
        DeltaRun::InvalidOpcode => Err(GitError::InvalidDeltaOpcode),
        DeltaRun::SizeMismatch(expected, got) => Err(GitError::DeltaSizeMismatch { expected, got }),
        DeltaRun::OutOfBounds => Err(GitError::DeltaOutOfBounds),
    }
}

proof fn lemma_delta_ops_len(base: Seq<u8>, delta: Seq<u8>, pos: int, target: nat, out: Seq<u8>)
    ensures
        delta_ops(base, delta, pos, target, out) matches DeltaOutcome::Done(o) ==> o.len() == target,
        delta_ops(base, delta, pos, target, out) matches DeltaOutcome::SizeMismatch(e, g) ==> e
            == target && g != target,
    decreases delta.len() - pos,
{
    if 0 <= pos < delta.len() {
        let instr = delta[pos];
        let p = pos + 1;
        if instr & 0x80 != 0 {
            if let Some((offset, p2)) = flag_bytes(delta, p, instr, 0, 4, 0, 0) {
                if let Some((size0, p3)) = flag_bytes(delta, p2, instr, 4, 3, 0, 0) {
                    let size: nat = if size0 == 0 {
                        0x10000
                    } else {
                        size0 as nat
                    };
                    if pos < p3 <= delta.len() && offset + size <= base.len() {
                        lemma_delta_ops_len(
                            base,
                            delta,
                            p3,
                            target,
                            out + base.subrange(offset as int, offset + size),
                        );
                    }
                }
            }
        } else if instr != 0 {
            if p + instr <= delta.len() {
                lemma_delta_ops_len(base, delta, p + instr, target, out + delta.subrange(p, p + instr));
            }
        }
    }
}

/// A delta that applies gives exactly as many bytes as its header announces;
/// one that does not match is reported with the announced size.
pub proof fn law_delta_target_size(base: Seq<u8>, delta: Seq<u8>)
    ensures
        delta_spec(base, delta) matches DeltaOutcome::Done(out) ==> {
            let n1 = varint_len(delta).unwrap();
            let rest = delta.subrange(n1 as int, delta.len() as int);
            out.len() == varint_value(rest, varint_len(rest).unwrap())
        },
{
    if let Some(n1) = varint_len(delta) {
        let rest = delta.subrange(n1 as int, delta.len() as int);
        if let Some(n2) = varint_len(rest) {
            let target = varint_value(rest, n2);
            lemma_delta_ops_len(base, delta, (n1 + n2) as int, target as nat, seq![]);
        }
    }
}


/// A copy instruction with all seven flags (`0xff`) is followed by four
/// offset bytes and three size bytes, each little-endian; it appends
/// `base[offset..offset + size]` (a size of 0 meaning 0x10000) and the
/// delta goes on after its eight bytes.
pub proof fn law_delta_copy_all_flags(base: Seq<u8>, delta: Seq<u8>, pos: int, target: nat, out: Seq<u8>)
    requires
        0 <= pos,
        pos + 8 <= delta.len(),
        delta[pos] == 0xff,
    ensures
        ({
            let offset = delta[pos + 1] + delta[pos + 2] * 0x100 + delta[pos + 3] * 0x10000
                + delta[pos + 4] * 0x1000000;
            let s = delta[pos + 5] + delta[pos + 6] * 0x100 + delta[pos + 7] * 0x10000;
            let size = if s == 0 {
                0x10000
            } else {
                s
            };
            offset + size <= base.len() ==> delta_ops(base, delta, pos, target, out) == delta_ops(
                base,
                delta,
                pos + 8,
                target,
                out + base.subrange(offset, offset + size),
            )
        }),
{
    reveal_with_fuel(flag_bytes, 5);
    let instr: u8 = 0xff;
    let (o0, o1, o2, o3) = (delta[pos + 1], delta[pos + 2], delta[pos + 3], delta[pos + 4]);
    let (s0, s1, s2) = (delta[pos + 5], delta[pos + 6], delta[pos + 7]);
    assert(instr & 0x80 != 0 && instr & (1u8 << 0u8) != 0 && instr & (1u8 << 1u8) != 0 && instr & (
    1u8 << 2u8) != 0 && instr & (1u8 << 3u8) != 0 && instr & (1u8 << 4u8) != 0 && instr & (1u8
        << 5u8) != 0 && instr & (1u8 << 6u8) != 0) by (bit_vector)
        requires
            instr == 0xff,
    ;
    let off: usize = ((((0usize | ((o0 as usize) << 0usize)) | ((o1 as usize) << 8usize)) | ((
    o2 as usize) << 16usize)) | ((o3 as usize) << 24usize));
    let sz: usize = (((0usize | ((s0 as usize) << 0usize)) | ((s1 as usize) << 8usize)) | ((
    s2 as usize) << 16usize));
    assert(off == o0 + o1 * 0x100 + o2 * 0x10000 + o3 * 0x1000000) by (bit_vector)
        requires
            off == ((((0usize | ((o0 as usize) << 0usize)) | ((o1 as usize) << 8usize)) | ((
            o2 as usize) << 16usize)) | ((o3 as usize) << 24usize)),
    ;
    assert(sz == s0 + s1 * 0x100 + s2 * 0x10000) by (bit_vector)
        requires
            sz == (((0usize | ((s0 as usize) << 0usize)) | ((s1 as usize) << 8usize)) | ((
            s2 as usize) << 16usize)),
    ;
    assert(flag_bytes(delta, pos + 1, instr, 0, 4, 0, 0) == Some((off, pos + 5)));
    assert(flag_bytes(delta, pos + 5, instr, 4, 3, 0, 0) == Some((sz, pos + 8)));
}


/// The weight of the byte selected by flag bit `i` of an offset or size: 256 to the `i`.
pub open spec fn byte_weight(i: nat) -> nat
    decreases i,
{
    if i == 0 {
        1
    } else {
        256 * byte_weight((i - 1) as nat)
    }
}

/// A copy instruction with one offset flag `i` (bits 0 to 3) and one size
/// flag `4 + j` is followed by one offset byte and one size byte, each
/// counted at its own flag's weight: it appends `base[o * 256^i ..][.. s * 256^j]`
/// (a size of 0 meaning 0x10000) and the delta goes on after its three bytes.
pub proof fn law_delta_copy_one_flag_each(
    base: Seq<u8>,
    delta: Seq<u8>,
    pos: int,
    target: nat,
    out: Seq<u8>,
    i: u8,
    j: u8,
)
    requires
        0 <= pos,
        pos + 3 <= delta.len(),
        i < 4,
        j < 3,
        delta[pos] == 0x80u8 | (1u8 << i) | (1u8 << (4 + j) as u8),
    ensures
        ({
            let offset = delta[pos + 1] * byte_weight(i as nat);
            let s = delta[pos + 2] * byte_weight(j as nat);
            let size = if s == 0 {
                0x10000
            } else {
                s
            };
            offset + size <= base.len() ==> delta_ops(base, delta, pos, target, out) == delta_ops(
                base,
                delta,
                pos + 3,
                target,
                out + base.subrange(offset, offset + size),
            )
        }),
{
    reveal_with_fuel(flag_bytes, 5);
    reveal_with_fuel(byte_weight, 4);
    let instr: u8 = delta[pos];
    let ob: u8 = delta[pos + 1];
    let sb: u8 = delta[pos + 2];
    assert(instr & 0x80 != 0) by (bit_vector)
        requires
            instr == 0x80u8 | (1u8 << i) | (1u8 << (4 + j) as u8),
            i < 4,
            j < 3,
    ;
    assert(((instr & (1u8 << 0u8) != 0) == (i == 0)) && ((instr & (1u8 << 1u8) != 0) == (i == 1))
        && ((instr & (1u8 << 2u8) != 0) == (i == 2)) && ((instr & (1u8 << 3u8) != 0) == (i == 3))
        && ((instr & (1u8 << 4u8) != 0) == (j == 0)) && ((instr & (1u8 << 5u8) != 0) == (j == 1))
        && ((instr & (1u8 << 6u8) != 0) == (j == 2))) by (bit_vector)
        requires
            instr == 0x80u8 | (1u8 << i) | (1u8 << (4 + j) as u8),
            i < 4,
            j < 3,
    ;
    let off: usize = 0usize | ((ob as usize) << ((8 * i) as usize));
    let sz: usize = 0usize | ((sb as usize) << ((8 * j) as usize));
    assert(off == ob * (if i == 0 {
        1usize
    } else if i == 1 {
        0x100usize
    } else if i == 2 {
        0x10000usize
    } else {
        0x1000000usize
    })) by (bit_vector)
        requires
            off == 0usize | ((ob as usize) << ((8 * i) as usize)),
            i < 4,
    ;
    assert(sz == sb * (if j == 0 {
        1usize
    } else if j == 1 {
        0x100usize
    } else {
        0x10000usize
    })) by (bit_vector)
        requires
            sz == 0usize | ((sb as usize) << ((8 * j) as usize)),
            j < 3,
    ;
    assert(flag_bytes(delta, pos + 1, instr, 0, 4, 0, 0) == Some((off, pos + 2)));
    assert(flag_bytes(delta, pos + 2, instr, 4, 3, 0, 0) == Some((sz, pos + 3)));
}

} // verus!
