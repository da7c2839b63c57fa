//! The ref advertisement a server sends first: between the first and the
//! second flush, one line per ref (`<sha> <name>`), the first of them also
//! carrying the capabilities after a NUL byte.
use vstd::prelude::*;
use vstd::utf8::*;

use crate::error::GitError;
use crate::pktline::{pkt_items, pkt_next_spec, PktFrame, PktLine, PktLineReader};
use crate::text::{
    find_byte, first_index, lemma_first_index_facts, lemma_valid_utf8_drop_ascii,
    lemma_valid_utf8_split, lemma_valid_utf8_sub, split_once_byte, split_once_spec, str_bytes,
    trim, trim_bounds, valid_to_string,
};

verus! {

broadcast use vstd::seq::group_seq_axioms;

/// One advertised ref.
#[derive(Debug)]
pub struct Ref {
    pub sha: String,
    pub name: String,
}

/// The refs and capabilities a server advertises.
#[derive(Debug)]
pub struct Advertisement {
    pub capabilities: Vec<String>,
    pub refs: Vec<Ref>,
}

/// The bytes of each string.
pub open spec fn strings_view(v: Seq<String>) -> Seq<Seq<u8>> {
    Seq::new(v.len(), |i: int| str_bytes(v[i]))
}

/// The (sha, name) bytes of each ref.
pub open spec fn refs_view(v: Seq<Ref>) -> Seq<(Seq<u8>, Seq<u8>)> {
    Seq::new(v.len(), |i: int| (str_bytes(v[i].sha), str_bytes(v[i].name)))
}

/// The pieces of `s` between the occurrences of `sep` (`str::split`).
pub open spec fn split_all(s: Seq<u8>, sep: u8) -> Seq<Seq<u8>>
    decreases s.len(),
{
    match first_index(s, sep) {
        Some(i) => if 0 <= i < s.len() {
            seq![s.subrange(0, i)] + split_all(s.subrange(i + 1, s.len() as int), sep)
        } else {
            seq![s]
        },
        None => seq![s],
    }
}

/// What has been gathered so far while reading an advertisement.
pub struct AdvState {
    pub flushes: nat,
    pub caps: Seq<Seq<u8>>,
    pub refs: Seq<(Seq<u8>, Seq<u8>)>,
}

/// How reading an advertisement ends: with the gathered state, with an
/// error, or on a line that cannot be read at all (no space in a ref line).
pub enum AdvOutcome {
    Done(AdvState),
    Failed(GitError),
    Malformed,
}

/// The ref line of a data line, with the capabilities it adds.
pub open spec fn adv_data_step(d: Seq<u8>, st: AdvState) -> AdvOutcome {
    let first = st.refs.len() == 0;
    let zero = match first_index(d, 0) {
        Some(i) => i,
        None => 0,
    };
    let ref_bit = if first {
        d.subrange(0, zero)
    } else {
        d
    };
    let rest = d.subrange(zero, d.len() as int);
    if first && !valid_utf8(rest) {
        AdvOutcome::Failed(GitError::InvalidUtf8)
    } else if !valid_utf8(ref_bit) {
        AdvOutcome::Failed(GitError::InvalidUtf8)
    } else {
        let caps = if first {
            st.caps + split_all(rest, 0x20)
        } else {
            st.caps
        };
        match split_once_spec(ref_bit, 0x20) {
            None => AdvOutcome::Malformed,
            Some((sha, name)) => AdvOutcome::Done(
                AdvState { flushes: st.flushes, caps, refs: st.refs.push((trim(sha), trim(name))) },
            ),
        }
    }
}

/// Reads the given pkt-line items on from state `st`.
pub open spec fn adv_fold(items: Seq<Result<PktFrame, GitError>>, st: AdvState) -> AdvOutcome
    decreases items.len(),
{
    if items.len() == 0 {
        AdvOutcome::Done(st)
    } else {
        let rest = items.drop_first();
        match items[0] {
            Ok(PktFrame::Flush) => adv_fold(
                rest,
                AdvState { flushes: st.flushes + 1, caps: st.caps, refs: st.refs },
            ),
            Ok(PktFrame::Data(d)) => if st.flushes == 1 {
                match adv_data_step(d, st) {
                    AdvOutcome::Done(st2) => adv_fold(rest, st2),
                    other => other,
                }
            } else {
                adv_fold(rest, st)
            },
            _ => adv_fold(rest, st),
        }
    }
}

pub open spec fn adv_start() -> AdvState {
    AdvState { flushes: 0, caps: seq![], refs: seq![] }
}

/// The advertisement that `bytes` hold.
pub open spec fn advertisement_spec(bytes: Seq<u8>) -> AdvOutcome {
    adv_fold(pkt_items(bytes, 0), adv_start())
}

/// Appends the space-separated pieces of valid UTF-8 `s` to `out`.
fn push_split(out: &mut Vec<String>, s: &[u8])
    requires
        valid_utf8(s@),
    ensures
        strings_view(final(out)@) == strings_view(old(out)@) + split_all(s@, 0x20),
{
    let mut cur: &[u8] = s;
    loop
        invariant
            valid_utf8(cur@),
            strings_view(out@) + split_all(cur@, 0x20) == strings_view(old(out)@) + split_all(
                s@,
                0x20,
            ),
        decreases cur.len(),
    {
        proof {
            lemma_first_index_facts(cur@, 0x20);
        }
        let ghost before = strings_view(out@);
        match find_byte(cur, 0x20) {
            Some(i) => {
                proof {
                    lemma_valid_utf8_split(cur@, i as int);
                    let tail = cur@.subrange(i as int, cur@.len() as int);
                    lemma_valid_utf8_drop_ascii(tail);
                    assert(tail.subrange(1, tail.len() as int) =~= cur@.subrange(
                        i + 1,
                        cur@.len() as int,
                    ));
                }
                let piece = valid_to_string(&cur[0..i]);
                out.push(piece);
                assert(strings_view(out@) =~= before.push(cur@.subrange(0, i as int)));
                let ghost old_cur = cur@;
                cur = &cur[i + 1..cur.len()];
                assert(split_all(old_cur, 0x20) == seq![old_cur.subrange(0, i as int)]
                    + split_all(cur@, 0x20));
                assert(strings_view(out@) + split_all(cur@, 0x20) =~= before + split_all(
                    old_cur,
                    0x20,
                ));
            },
            None => {
                let piece = valid_to_string(cur);
                out.push(piece);
                assert(strings_view(out@) =~= before.push(cur@));
                assert(split_all(cur@, 0x20) == seq![cur@]);
                assert(strings_view(out@) =~= before + split_all(cur@, 0x20));
                return ;
            },
        }
    }
}

/// The trimmed text of `s`, valid UTF-8.
fn trimmed_string(s: &[u8]) -> (r: String)
    requires
        valid_utf8(s@),
    ensures
        str_bytes(r) == trim(s@),
{
    let (i, j) = trim_bounds(s);
    valid_to_string(&s[i..j])
}

/// Handles one data line between the first and second flush. `None` where
/// the line cannot be read (a ref line without a space).
fn adv_data(d: &[u8], caps: &mut Vec<String>, refs: &mut Vec<Ref>) -> (r: Option<
    Result<(), GitError>,
>)
    ensures
        match adv_data_step(
            d@,
            AdvState {
                flushes: 1,
                caps: strings_view(old(caps)@),
                refs: refs_view(old(refs)@),
            },
        ) {
            AdvOutcome::Done(st) => r == Some(Ok::<(), GitError>(())) && st.caps == strings_view(
                final(caps)@,
            ) && st.refs == refs_view(final(refs)@),
            AdvOutcome::Failed(e) => r == Some(Err::<(), GitError>(e)),
            AdvOutcome::Malformed => r is None,
        },
{
    let ghost st = AdvState {
        flushes: 1,
        caps: strings_view(caps@),
        refs: refs_view(refs@),
    };
    proof {
        lemma_first_index_facts(d@, 0);
    }
    let first = refs.len() == 0;
    let zero = match find_byte(d, 0) {
        Some(i) => i,
        None => 0,
    };
    let ref_bit: &[u8] = if first {
        &d[0..zero]
    } else {
        d
    };
    if first {
        let rest = &d[zero..d.len()];
        if crate::text::bytes_to_string(rest).is_none() {
            return Some(Err(GitError::InvalidUtf8));
        }
        push_split(caps, rest);
    }
    if crate::text::bytes_to_string(ref_bit).is_none() {
        return Some(Err(GitError::InvalidUtf8));
    }
    proof {
        lemma_first_index_facts(ref_bit@, 0x20);
    }
    match split_once_byte(ref_bit, 0x20) {
        None => None,
        Some((sha, name)) => {
            let ghost i = first_index(ref_bit@, 0x20).unwrap();
            proof {
                lemma_valid_utf8_sub(ref_bit@, 0, i);
                lemma_valid_utf8_split(ref_bit@, i);
                let tail = ref_bit@.subrange(i, ref_bit@.len() as int);
                lemma_valid_utf8_drop_ascii(tail);
                assert(tail.subrange(1, tail.len() as int) =~= name@);
                assert(ref_bit@.subrange(0, i) =~= sha@);
            }
            let sha_s = trimmed_string(sha);
            let name_s = trimmed_string(name);
            let ghost before = refs_view(refs@);
            refs.push(Ref { sha: sha_s, name: name_s });
            assert(refs_view(refs@) =~= before.push((trim(sha@), trim(name@))));
            Some(Ok(()))
        },
    }
}

/// Reads an advertisement; `None` where a ref line has no space to split
/// its sha from its name.
pub fn try_parse_advertisement(bytes: &[u8]) -> (r: Option<Result<Advertisement, GitError>>)
    requires
        bytes@.len() <= isize::MAX,
    ensures
        match advertisement_spec(bytes@) {
            AdvOutcome::Done(st) => r matches Some(Ok(a)) && st.caps == strings_view(
                a.capabilities@,
            ) && st.refs == refs_view(a.refs@),
            AdvOutcome::Failed(e) => r == Some(Err::<Advertisement, GitError>(e)),
            AdvOutcome::Malformed => r is None,
        },
{
    let mut reader = PktLineReader::new(bytes);
    let mut flushes: usize = 0;
    let mut refs: Vec<Ref> = Vec::new();
    let mut capabilities: Vec<String> = Vec::new();
    assert(strings_view(capabilities@) =~= Seq::<Seq<u8>>::empty());
    assert(refs_view(refs@) =~= Seq::<(Seq<u8>, Seq<u8>)>::empty());
    loop
        invariant
            reader.buf_view() == bytes@,
            reader.buf_view().len() <= isize::MAX,
            0 <= reader.position() <= 2 * bytes@.len(),
            flushes <= reader.position(),
            advertisement_spec(bytes@) == adv_fold(
                pkt_items(bytes@, reader.position()),
                AdvState {
                    flushes: flushes as nat,
                    caps: strings_view(capabilities@),
                    refs: refs_view(refs@),
                },
            ),
        decreases 2 * bytes@.len() - reader.position(),
    {
        let ghost pos = reader.position();
        let ghost st = AdvState {
            flushes: flushes as nat,
            caps: strings_view(capabilities@),
            refs: refs_view(refs@),
        };
        let item = reader.next();
        let ghost p2 = reader.position();
        match item {
            None => {
                assert(pkt_items(bytes@, pos) =~= Seq::<Result<PktFrame, GitError>>::empty());
                return Some(Ok(Advertisement { capabilities, refs }));
            },
            Some(Err(e)) => {
                assert(pkt_items(bytes@, pos) == seq![Err::<PktFrame, GitError>(e)]);
                assert(pkt_items(bytes@, pos).drop_first() =~= Seq::<
                    Result<PktFrame, GitError>,
                >::empty());
                assert(pkt_items(bytes@, p2) =~= Seq::<Result<PktFrame, GitError>>::empty());
            },
            Some(Ok(line)) => {
                assert(pkt_items(bytes@, pos) == seq![Ok::<PktFrame, GitError>(line@)]
                    + pkt_items(bytes@, p2));
                assert(pkt_items(bytes@, pos).drop_first() =~= pkt_items(bytes@, p2));
                match line {
                    PktLine::Flush => {
                        flushes = flushes + 1;
                    },
                    PktLine::Data(data) => {
                        if flushes == 1 {
                            match adv_data(data, &mut capabilities, &mut refs) {
                                None => {
                                    return None;
                                },
                                Some(Err(e)) => {
                                    return Some(Err(e));
                                },
                                Some(Ok(())) => {},
                            }
                        }
                    },
                    _ => {},
                }
            },
        }
    }
}

/// Reads the refs and capabilities a server advertises.
pub fn parse_advertisement(bytes: &[u8]) -> (r: Result<Advertisement, GitError>)
    requires
        bytes@.len() <= isize::MAX,
        !(advertisement_spec(bytes@) is Malformed),
    ensures
        match advertisement_spec(bytes@) {
            AdvOutcome::Done(st) => r matches Ok(a) && st.caps == strings_view(a.capabilities@)
                && st.refs == refs_view(a.refs@),
            AdvOutcome::Failed(e) => r == Err::<Advertisement, GitError>(e),
            AdvOutcome::Malformed => false,
        },
{
    match try_parse_advertisement(bytes) {
        Some(r) => r,
        None => {
            assert(false);
            Err(GitError::InvalidUtf8)
        },
    }
}

} // verus!
