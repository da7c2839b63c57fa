//! The upload-pack negotiation: the request that asks for objects, and the
//! acknowledgement that precedes the pack in the reply.
use vstd::prelude::*;
use vstd::string::*;

use crate::discovery::{refs_view, Advertisement};
use crate::error::GitError;
use crate::text::str_bytes;
use crate::pktline::{
    all_ok, encodable, encode_all, encode_spec, law_pkt_read_all, law_pkt_read_write, pkt_items,
    pkt_next_spec, trimmed_spec, PktFrame, PktLine, PktLineReader,
};

verus! {

broadcast use vstd::seq::group_seq_axioms;

/// `want <sha>\n`
pub open spec fn want_line(sha: Seq<u8>) -> Seq<u8> {
    seq![0x77u8, 0x61, 0x6e, 0x74, 0x20] + sha + seq![0x0au8]
}

/// `done\n`
pub open spec fn done_line() -> Seq<u8> {
    seq![0x64u8, 0x6f, 0x6e, 0x65, 0x0a]
}

/// `NAK`
pub open spec fn nak() -> Seq<u8> {
    seq![0x4eu8, 0x41, 0x4b]
}

/// The lines of a request: one `want` per object, a flush, then `done`.
pub open spec fn request_frames(shas: Seq<Seq<u8>>) -> Seq<PktFrame> {
    Seq::new(shas.len(), |i: int| PktFrame::Data(want_line(shas[i]))) + seq![
        PktFrame::Flush,
        PktFrame::Data(done_line()),
    ]
}

pub open spec fn str_views(shas: Seq<&str>) -> Seq<Seq<u8>> {
    Seq::new(shas.len(), |i: int| shas[i].spec_bytes())
}

pub proof fn lemma_encode_all_push(fs: Seq<PktFrame>, f: PktFrame)
    ensures
        encode_all(fs.push(f)) == encode_all(fs) + encode_spec(f),
    decreases fs.len(),
{
    if fs.len() == 0 {
        assert(fs.push(f).drop_first() =~= Seq::<PktFrame>::empty());
        assert(encode_all(fs.push(f)) =~= encode_spec(f) + encode_all(Seq::<PktFrame>::empty()));
    } else {
        lemma_encode_all_push(fs.drop_first(), f);
        assert(fs.push(f).drop_first() =~= fs.drop_first().push(f));
        assert(encode_all(fs.push(f)) =~= encode_spec(fs[0]) + encode_all(fs.drop_first().push(f)));
    }
}

fn want_bytes(sha: &str) -> (r: Vec<u8>)
    ensures
        r@ == want_line(sha.spec_bytes()),
{
    let mut line: Vec<u8> = Vec::new();
    line.push(0x77);
    line.push(0x61);
    line.push(0x6e);
    line.push(0x74);
    line.push(0x20);
    crate::text::push_all(&mut line, sha.as_bytes());
    line.push(0x0a);
    assert(line@ =~= want_line(sha.spec_bytes()));
    line
}

/// The request body asking for the objects `shas`: a `want` line for each,
/// a flush, then `done`. No capabilities are sent, so the server answers
/// with a bare `NAK` and the pack.
pub fn build_request(shas: &[&str]) -> (body: Vec<u8>)
    requires
        forall|i: int| 0 <= i < shas@.len() ==> #[trigger] shas@[i].spec_bytes().len() + 10 <= 0xffff,
    ensures
        body@ == encode_all(request_frames(str_views(shas@))),
{
    let ghost views = str_views(shas@);
    let ghost frames = request_frames(views);
    let mut body: Vec<u8> = Vec::new();
    let mut i: usize = 0;
    while i < shas.len()
        invariant
            i <= shas.len(),
            views == str_views(shas@),
            frames == request_frames(views),
            forall|k: int| 0 <= k < shas@.len() ==> #[trigger] shas@[k].spec_bytes().len() + 10 <= 0xffff,
            body@ == encode_all(frames.subrange(0, i as int)),
        decreases shas.len() - i,
    {
        let line = want_bytes(shas[i]);
        let pkt = PktLine::data(line.as_slice());
        assert(shas@[i as int].spec_bytes().len() + 10 <= 0xffff);
        let enc = pkt.encode();
        crate::text::push_all(&mut body, enc.as_slice());
        proof {
            assert(frames[i as int] == PktFrame::Data(want_line(views[i as int])));
            lemma_encode_all_push(frames.subrange(0, i as int), frames[i as int]);
            assert(frames.subrange(0, i as int).push(frames[i as int]) =~= frames.subrange(
                0,
                i + 1,
            ));
        }
        i = i + 1;
    }
    let flush = PktLine::flush();
    let enc = flush.encode();
    crate::text::push_all(&mut body, enc.as_slice());
    proof {
        lemma_encode_all_push(frames.subrange(0, i as int), PktFrame::Flush);
        assert(frames.subrange(0, i as int).push(PktFrame::Flush) =~= frames.subrange(0, i + 1));
    }
    let done: [u8; 5] = [0x64, 0x6f, 0x6e, 0x65, 0x0a];
    let done_pkt = PktLine::data(done.as_slice());
    assert(done@ =~= done_line());
    let enc = done_pkt.encode();
    crate::text::push_all(&mut body, enc.as_slice());
    proof {
        lemma_encode_all_push(frames.subrange(0, i + 1), PktFrame::Data(done_line()));
        assert(frames.subrange(0, i + 1).push(PktFrame::Data(done_line())) =~= frames);
    }
    body
}

/// What `strip_nak` gives: the bytes after a first line that reads `NAK`.
pub open spec fn strip_nak_spec(buf: Seq<u8>) -> Option<Seq<u8>> {
    match pkt_next_spec(buf, 0) {
        (Some(Ok(f)), p) => if trimmed_spec(f) == Some(nak()) {
            Some(buf.subrange(p, buf.len() as int))
        } else {
            None
        },
        _ => None,
    }
}

/// The pack that follows the `NAK` line of an upload-pack reply.
pub fn strip_nak(reply: &[u8]) -> (r: Result<&[u8], GitError>)
    requires
        reply@.len() <= isize::MAX,
    ensures
        match r {
            Ok(rest) => strip_nak_spec(reply@) == Some(rest@),
            Err(e) => strip_nak_spec(reply@) is None && e is ExpectedNak,
        },
{
    let mut reader = PktLineReader::new(reply);
    match reader.next() {
        Some(Ok(line)) => {
            match line.trimmed() {
                Some(t) => {
                    let expected: [u8; 3] = [0x4e, 0x41, 0x4b];
                    assert(expected@ =~= nak());
                    if crate::text::bytes_equal(t, expected.as_slice()) {
                        Ok(reader.remaining())
                    } else {
                        Err(GitError::ExpectedNak)
                    }
                },
                None => Err(GitError::ExpectedNak),
            }
        },
        _ => Err(GitError::ExpectedNak),
    }
}

/// Reading back a request gives its `want` lines, the flush and `done`.
pub proof fn law_request_reads_back(shas: Seq<Seq<u8>>)
    requires
        forall|i: int| 0 <= i < shas.len() ==> #[trigger] shas[i].len() + 10 <= 0xffff,
    ensures
        pkt_items(encode_all(request_frames(shas)), 0) == all_ok(request_frames(shas)),
{
    let fs = request_frames(shas);
    assert forall|i: int| 0 <= i < fs.len() implies encodable(#[trigger] fs[i]) by {
        if i < shas.len() {
            assert(fs[i] == PktFrame::Data(want_line(shas[i])));
        }
    }
    law_pkt_read_all(fs);
}

/// A reply that starts with a `NAK` line is stripped down to what follows it.
pub proof fn law_strip_nak(rest: Seq<u8>)
    ensures
        strip_nak_spec(encode_spec(PktFrame::Data(nak().push(0x0a))) + rest) == Some(rest),
{
    let f = PktFrame::Data(nak().push(0x0a));
    let e = encode_spec(f);
    let buf = e + rest;
    assert(buf.subrange(0, e.len() as int) =~= e);
    law_pkt_read_write(f, buf, 0);
    assert(nak().push(0x0a).drop_last() =~= nak());
    assert(buf.subrange(e.len() as int, buf.len() as int) =~= rest);
}

/// The request a clone sends: a `want` for the first advertised ref.
/// `None` where no ref is advertised or its id is too long for a pkt-line.
pub fn clone_request(adv: &Advertisement) -> (r: Option<Vec<u8>>)
    ensures
        refs_view(adv.refs@).len() == 0 ==> r is None,
        refs_view(adv.refs@).len() > 0 ==> {
            let sha = refs_view(adv.refs@)[0].0;
            if sha.len() + 10 <= 0xffff {
                r matches Some(body) && body@ == encode_all(request_frames(seq![sha]))
            } else {
                r is None
            }
        },
{
    if adv.refs.len() == 0 {
        return None;
    }
    let sha: &str = adv.refs[0].sha.as_str();
    if sha.as_bytes().len() > 0xffff - 10 {
        return None;
    }
    let shas: [&str; 1] = [sha];
    assert(shas@.len() == 1);
    assert(shas@[0] == sha);
    assert(shas@[0].spec_bytes().len() + 10 <= 0xffff);
    assert(sha.spec_bytes() == str_bytes(adv.refs@[0].sha));
    assert(refs_view(adv.refs@)[0].0 == str_bytes(adv.refs@[0].sha));
    let body = build_request(shas.as_slice());
    assert(str_views(shas@) =~= seq![str_bytes(adv.refs@[0].sha)]);
    Some(body)
}

} // verus!
