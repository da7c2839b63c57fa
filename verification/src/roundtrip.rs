//! Reading back what is written: loose objects read back as the objects
//! they were written from.
use vstd::prelude::*;
use vstd::utf8::*;

use crate::codec::zlib_decoded;
use crate::encode::{
    blob_tag, commit_body, commit_tag, decimal, entries_bytes, entry_bytes, framed, object_bytes,
    parent_lines, sort_entries, tree_tag,
};
use crate::kind::{
    directory_code, executable_code, law_mode_roundtrip, law_person_roundtrip, mode_bytes,
    mode_from_bytes, parse_person_spec, person_bytes, regular_code, well_formed_person, EntryView,
    ModeView, ObjectView, PersonView,
};
use crate::objects::{
    after, author_kw, commit_scan, commit_spec, commit_start, commit_step, committer_kw,
    parent_kw, parse_body_spec, parse_object_spec, prepend_entries, strip_cr, tree_kw, tree_spec,
    CommitState, ParseOutcome,
};
use crate::text::{first_index, is_first_index, lemma_ascii_valid_utf8, lemma_first_index_is, starts_with};

verus! {

broadcast use vstd::seq::group_seq_axioms;

pub proof fn lemma_decimal_digits(n: nat)
    ensures
        decimal(n).len() > 0,
        forall|i: int| 0 <= i < decimal(n).len() ==> 0x30 <= #[trigger] decimal(n)[i] <= 0x39,
    decreases n,
{
    if n >= 10 {
        lemma_decimal_digits(n / 10);
        let d = decimal(n / 10);
        assert forall|i: int| 0 <= i < decimal(n).len() implies 0x30 <= #[trigger] decimal(n)[i]
            <= 0x39 by {
            if i < d.len() {
                assert(decimal(n)[i] == d[i]);
            }
        }
    }
}

/// The header of a framed body is read back: its type, then the body.
proof fn lemma_framed_header(kind: Seq<u8>, body: Seq<u8>)
    requires
        forall|i: int| 0 <= i < kind.len() ==> 0x21 <= #[trigger] kind[i] <= 0x7e,
    ensures
        parse_object_spec(framed(kind, body)) == parse_body_spec(kind, body),
{
    let d = decimal(body.len());
    lemma_decimal_digits(body.len());
    let b = framed(kind, body);
    let k = kind.len() as int;
    let nul = k + 1 + d.len();
    assert(b =~= kind + seq![0x20u8] + d + seq![0u8] + body);
    assert forall|j: int| 0 <= j < nul implies b[j] != 0 by {
        if j < k {
            assert(b[j] == kind[j]);
        } else if j > k {
            assert(b[j] == d[j - k - 1]);
        }
    }
    assert(is_first_index(b, 0, nul));
    lemma_first_index_is(b, 0, nul);
    let header = b.subrange(0, nul);
    assert(is_first_index(header, 0x20, k)) by {
        assert forall|j: int| 0 <= j < k implies header[j] != 0x20 by {
            assert(header[j] == kind[j]);
        }
    }
    lemma_first_index_is(header, 0x20, k);
    assert(header.subrange(0, k) =~= kind);
    assert(b.subrange(nul + 1, b.len() as int) =~= body);
    lemma_ascii_valid_utf8(kind);
}

/// A blob reads back as the same blob.
pub proof fn law_blob_roundtrip(data: Seq<u8>)
    ensures
        parse_object_spec(object_bytes(ObjectView::Blob(data))) == ParseOutcome::Parsed(
            ObjectView::Blob(data),
        ),
{
    lemma_framed_header(blob_tag(), data);
}

/// Text that fits on one commit line: UTF-8, no newline, and no carriage
/// return at its end.
pub open spec fn line_safe(s: Seq<u8>) -> bool {
    &&& valid_utf8(s)
    &&& forall|i: int| 0 <= i < s.len() ==> #[trigger] s[i] != 0x0a
    &&& !(s.len() > 0 && s.last() == 0x0d)
}

/// A commit whose parts read back as written.
pub open spec fn commit_roundtrips(
    tree: Seq<u8>,
    parents: Seq<Seq<u8>>,
    author: PersonView,
    committer: PersonView,
    message: Seq<u8>,
) -> bool {
    &&& line_safe(tree)
    &&& forall|i: int| 0 <= i < parents.len() ==> line_safe(#[trigger] parents[i])
    &&& well_formed_person(author)
    &&& well_formed_person(committer)
    &&& line_safe(person_bytes(author))
    &&& line_safe(person_bytes(committer))
    &&& line_safe(message)
}

proof fn lemma_scan_line(line: Seq<u8>, rest: Seq<u8>, st: CommitState)
    requires
        forall|i: int| 0 <= i < line.len() ==> #[trigger] line[i] != 0x0a,
        !(line.len() > 0 && line.last() == 0x0d),
    ensures
        commit_scan(line + seq![0x0au8] + rest, st) == match commit_step(st, line) {
            Ok(s2) => commit_scan(rest, s2),
            Err(e) => Err(e),
        },
{
    let s = line + seq![0x0au8] + rest;
    let n = line.len() as int;
    assert(is_first_index(s, 0x0a, n)) by {
        assert forall|j: int| 0 <= j < n implies s[j] != 0x0a by {
            assert(s[j] == line[j]);
        }
    }
    lemma_first_index_is(s, 0x0a, n);
    assert(s.subrange(0, n) =~= line);
    assert(s.subrange(n + 1, s.len() as int) =~= rest);
}

proof fn lemma_no_prefix(line: Seq<u8>, kw: Seq<u8>)
    requires
        line.len() > 0,
        kw.len() > 0,
        line[0] != kw[0],
    ensures
        !starts_with(line, kw),
{
    if starts_with(line, kw) {
        assert(line.subrange(0, kw.len() as int)[0] == line[0]);
    }
}

proof fn lemma_keyword_line(kw: Seq<u8>, x: Seq<u8>)
    ensures
        starts_with(kw + x, kw),
        after(kw + x, kw) == x,
        kw.len() > 0 ==> (kw + x)[0] == kw[0],
        (kw + x).len() == kw.len() + x.len(),
{
    assert((kw + x).subrange(0, kw.len() as int) =~= kw);
    assert((kw + x).subrange(kw.len() as int, (kw + x).len() as int) =~= x);
}

proof fn lemma_line_shape(kw: Seq<u8>, x: Seq<u8>)
    requires
        kw.len() > 0,
        line_safe(x),
        forall|i: int| 0 <= i < kw.len() ==> 0x21 <= #[trigger] kw[i] <= 0x7e || kw[i] == 0x20,
    ensures
        forall|i: int| 0 <= i < (kw + x).len() ==> #[trigger] (kw + x)[i] != 0x0a,
        !((kw + x).len() > 0 && (kw + x).last() == 0x0d),
{
    assert forall|i: int| 0 <= i < (kw + x).len() implies #[trigger] (kw + x)[i] != 0x0a by {
        if i < kw.len() {
            assert((kw + x)[i] == kw[i]);
        } else {
            assert((kw + x)[i] == x[i - kw.len()]);
        }
    }
    if x.len() > 0 {
        assert((kw + x).last() == x.last());
    } else {
        assert((kw + x).last() == kw.last());
    }
}

proof fn lemma_kw_facts()
    ensures
        tree_kw().len() == 5 && tree_kw()[0] == 0x74,
        parent_kw().len() == 7 && parent_kw()[0] == 0x70,
        author_kw().len() == 7 && author_kw()[0] == 0x61,
        committer_kw().len() == 10 && committer_kw()[0] == 0x63,
        forall|i: int| 0 <= i < tree_kw().len() ==> 0x20 <= #[trigger] tree_kw()[i] <= 0x7e,
        forall|i: int| 0 <= i < parent_kw().len() ==> 0x20 <= #[trigger] parent_kw()[i] <= 0x7e,
        forall|i: int| 0 <= i < author_kw().len() ==> 0x20 <= #[trigger] author_kw()[i] <= 0x7e,
        forall|i: int| 0 <= i < committer_kw().len() ==> 0x20 <= #[trigger] committer_kw()[i]
            <= 0x7e,
{
}

proof fn lemma_scan_parents(ps: Seq<Seq<u8>>, rest: Seq<u8>, st: CommitState)
    requires
        !st.is_message,
        forall|i: int| 0 <= i < ps.len() ==> line_safe(#[trigger] ps[i]),
    ensures
        commit_scan(parent_lines(ps) + rest, st) == commit_scan(
            rest,
            CommitState { parents: st.parents + ps, ..st },
        ),
    decreases ps.len(),
{
    if ps.len() == 0 {
        assert(parent_lines(ps) + rest =~= rest);
        assert(st.parents + ps =~= st.parents);
    } else {
        let d = ps.drop_last();
        let last = ps.last();
        assert(line_safe(ps[ps.len() - 1]));
        assert forall|i: int| 0 <= i < d.len() implies line_safe(#[trigger] d[i]) by {
            assert(line_safe(ps[i]));
        }
        let line = parent_kw() + last;
        let rest2 = line + seq![0x0au8] + rest;
        assert(parent_lines(ps) + rest =~= parent_lines(d) + rest2);
        lemma_scan_parents(d, rest2, st);
        let st1 = CommitState { parents: st.parents + d, ..st };
        lemma_kw_facts();
        lemma_keyword_line(parent_kw(), last);
        lemma_line_shape(parent_kw(), last);
        lemma_scan_line(line, rest, st1);
        lemma_no_prefix(line, tree_kw());
        lemma_no_prefix(line, author_kw());
        lemma_no_prefix(line, committer_kw());
        assert((st.parents + d).push(last) =~= st.parents + ps);
    }
}

proof fn lemma_parent_lines_valid(ps: Seq<Seq<u8>>)
    requires
        forall|i: int| 0 <= i < ps.len() ==> line_safe(#[trigger] ps[i]),
    ensures
        valid_utf8(parent_lines(ps)),
    decreases ps.len(),
{
    if ps.len() > 0 {
        let d = ps.drop_last();
        assert(line_safe(ps[ps.len() - 1]));
        assert forall|i: int| 0 <= i < d.len() implies line_safe(#[trigger] d[i]) by {
            assert(line_safe(ps[i]));
        }
        lemma_parent_lines_valid(d);
        lemma_kw_facts();
        lemma_ascii_valid_utf8(parent_kw());
        lemma_ascii_valid_utf8(seq![0x0au8]);
        valid_utf8_concat(parent_lines(d), parent_kw());
        valid_utf8_concat(parent_lines(d) + parent_kw(), ps.last());
        valid_utf8_concat(parent_lines(d) + parent_kw() + ps.last(), seq![0x0au8]);
    } else {
        assert(parent_lines(ps) =~= Seq::<u8>::empty());
    }
}

pub open spec fn commit_tail(author: PersonView, committer: PersonView, message: Seq<u8>) -> Seq<u8> {
    author_kw() + person_bytes(author) + seq![0x0au8] + (committer_kw() + person_bytes(committer)
        + seq![0x0au8] + (Seq::<u8>::empty() + seq![0x0au8] + (message + seq![0x0au8]
        + Seq::<u8>::empty())))
}

proof fn lemma_commit_body_shape(
    tree: Seq<u8>,
    parents: Seq<Seq<u8>>,
    author: PersonView,
    committer: PersonView,
    message: Seq<u8>,
)
    ensures
        commit_body(tree, parents, author, committer, message) == tree_kw() + tree + seq![0x0au8]
            + (parent_lines(parents) + commit_tail(author, committer, message)),
{
    assert(commit_body(tree, parents, author, committer, message) =~= tree_kw() + tree + seq![
        0x0au8,
    ] + (parent_lines(parents) + commit_tail(author, committer, message)));
}

proof fn lemma_commit_body_valid(
    tree: Seq<u8>,
    parents: Seq<Seq<u8>>,
    author: PersonView,
    committer: PersonView,
    message: Seq<u8>,
)
    requires
        commit_roundtrips(tree, parents, author, committer, message),
    ensures
        valid_utf8(commit_body(tree, parents, author, committer, message)),
{
    let nl = seq![0x0au8];
    let e = Seq::<u8>::empty();
    lemma_kw_facts();
    lemma_parent_lines_valid(parents);
    lemma_ascii_valid_utf8(tree_kw());
    lemma_ascii_valid_utf8(author_kw());
    lemma_ascii_valid_utf8(committer_kw());
    lemma_ascii_valid_utf8(nl);
    lemma_ascii_valid_utf8(e);
    let tail3 = message + nl + e;
    valid_utf8_concat(message, nl);
    valid_utf8_concat(message + nl, e);
    let tail2 = e + nl + tail3;
    valid_utf8_concat(e, nl);
    valid_utf8_concat(e + nl, tail3);
    let l_committer = committer_kw() + person_bytes(committer);
    valid_utf8_concat(committer_kw(), person_bytes(committer));
    valid_utf8_concat(l_committer, nl);
    valid_utf8_concat(l_committer + nl, tail2);
    let tail1 = l_committer + nl + tail2;
    let l_author = author_kw() + person_bytes(author);
    valid_utf8_concat(author_kw(), person_bytes(author));
    valid_utf8_concat(l_author, nl);
    valid_utf8_concat(l_author + nl, tail1);
    let tail0 = commit_tail(author, committer, message);
    assert(tail0 == l_author + nl + tail1);
    valid_utf8_concat(parent_lines(parents), tail0);
    valid_utf8_concat(tree_kw(), tree);
    valid_utf8_concat(tree_kw() + tree, nl);
    valid_utf8_concat(tree_kw() + tree + nl, parent_lines(parents) + tail0);
    lemma_commit_body_shape(tree, parents, author, committer, message);
}

#[verifier::rlimit(30)]
proof fn lemma_scan_message(message: Seq<u8>, st4: CommitState)
    requires
        line_safe(message),
        !st4.is_message,
        st4.message == Seq::<u8>::empty(),
    ensures
        commit_scan(Seq::<u8>::empty() + seq![0x0au8] + (message + seq![0x0au8] + Seq::<u8>::empty()), st4)
            == Ok::<CommitState, crate::error::GitError>(
            CommitState { is_message: true, message, ..st4 },
        ),
{
    let e = Seq::<u8>::empty();
    lemma_scan_line(e, message + seq![0x0au8] + e, st4);
    let st5 = CommitState { is_message: true, ..st4 };
    assert(!starts_with(e, tree_kw()));
    assert(!starts_with(e, parent_kw()));
    assert(!starts_with(e, author_kw()));
    assert(!starts_with(e, committer_kw()));
    assert(commit_step(st4, e) == Ok::<CommitState, crate::error::GitError>(st5));
    lemma_scan_line(message, e, st5);
    assert(st5.message + message =~= message);
}

proof fn lemma_scan_tail(author: PersonView, committer: PersonView, message: Seq<u8>, st2: CommitState)
    requires
        well_formed_person(author),
        well_formed_person(committer),
        line_safe(person_bytes(author)),
        line_safe(person_bytes(committer)),
        line_safe(message),
        !st2.is_message,
        st2.message == Seq::<u8>::empty(),
    ensures
        commit_scan(commit_tail(author, committer, message), st2) == Ok::<
            CommitState,
            crate::error::GitError,
        >(
            CommitState {
                is_message: true,
                author: Some(author),
                committer: Some(committer),
                message,
                ..st2
            },
        ),
{
    let nl = seq![0x0au8];
    let e = Seq::<u8>::empty();
    let l_author = author_kw() + person_bytes(author);
    let l_committer = committer_kw() + person_bytes(committer);
    let tail2 = e + nl + (message + nl + e);
    let tail1 = l_committer + nl + tail2;
    lemma_kw_facts();
    lemma_keyword_line(author_kw(), person_bytes(author));
    lemma_line_shape(author_kw(), person_bytes(author));
    lemma_scan_line(l_author, tail1, st2);
    lemma_no_prefix(l_author, tree_kw());
    lemma_no_prefix(l_author, parent_kw());
    lemma_no_prefix(l_author, committer_kw());
    law_person_roundtrip(author);
    let st3 = CommitState { author: Some(author), ..st2 };
    assert(commit_step(st2, l_author) == Ok::<CommitState, crate::error::GitError>(st3));
    lemma_keyword_line(committer_kw(), person_bytes(committer));
    lemma_line_shape(committer_kw(), person_bytes(committer));
    lemma_scan_line(l_committer, tail2, st3);
    lemma_no_prefix(l_committer, tree_kw());
    lemma_no_prefix(l_committer, parent_kw());
    lemma_no_prefix(l_committer, author_kw());
    law_person_roundtrip(committer);
    let st4 = CommitState { committer: Some(committer), ..st3 };
    assert(commit_step(st3, l_committer) == Ok::<CommitState, crate::error::GitError>(st4));
    lemma_scan_message(message, st4);
}

proof fn lemma_commit_body_scan(
    tree: Seq<u8>,
    parents: Seq<Seq<u8>>,
    author: PersonView,
    committer: PersonView,
    message: Seq<u8>,
)
    requires
        commit_roundtrips(tree, parents, author, committer, message),
    ensures
        commit_scan(commit_body(tree, parents, author, committer, message), commit_start()) == Ok::<
            CommitState,
            crate::error::GitError,
        >(
            CommitState {
                is_message: true,
                tree: Some(tree),
                parents,
                author: Some(author),
                committer: Some(committer),
                message,
            },
        ),
{
    let tail0 = commit_tail(author, committer, message);
    let l_tree = tree_kw() + tree;
    lemma_commit_body_shape(tree, parents, author, committer, message);
    let st0 = commit_start();
    lemma_kw_facts();
    lemma_keyword_line(tree_kw(), tree);
    lemma_line_shape(tree_kw(), tree);
    lemma_scan_line(l_tree, parent_lines(parents) + tail0, st0);
    lemma_no_prefix(l_tree, parent_kw());
    lemma_no_prefix(l_tree, author_kw());
    lemma_no_prefix(l_tree, committer_kw());
    let st1 = CommitState { tree: Some(tree), ..st0 };
    assert(commit_step(st0, l_tree) == Ok::<CommitState, crate::error::GitError>(st1));
    lemma_scan_parents(parents, tail0, st1);
    assert(st1.parents + parents =~= parents);
    let st2 = CommitState { parents, ..st1 };
    lemma_scan_tail(author, committer, message, st2);
}

proof fn lemma_commit_body_dispatch(body: Seq<u8>)
    ensures
        parse_object_spec(framed(commit_tag(), body)) == commit_spec(body),
{
    lemma_framed_header(commit_tag(), body);
    assert(commit_tag() != blob_tag()) by {
        assert(commit_tag().len() != blob_tag().len());
    }
    assert(commit_tag() != tree_tag()) by {
        assert(commit_tag().len() != tree_tag().len());
    }
    assert(parse_body_spec(commit_tag(), body) == commit_spec(body));
}

proof fn lemma_commit_spec_done(body: Seq<u8>, st: CommitState)
    requires
        valid_utf8(body),
        commit_scan(body, commit_start()) == Ok::<CommitState, crate::error::GitError>(st),
        st.tree is Some,
        st.author is Some,
        st.committer is Some,
    ensures
        commit_spec(body) == ParseOutcome::Parsed(
            ObjectView::Commit {
                tree: st.tree.unwrap(),
                parents: st.parents,
                author: st.author.unwrap(),
                committer: st.committer.unwrap(),
                message: st.message,
            },
        ),
{
}

/// A commit whose parts fit on their lines reads back as the same commit.
pub proof fn law_commit_roundtrip(
    tree: Seq<u8>,
    parents: Seq<Seq<u8>>,
    author: PersonView,
    committer: PersonView,
    message: Seq<u8>,
)
    requires
        commit_roundtrips(tree, parents, author, committer, message),
    ensures
        parse_object_spec(
            object_bytes(ObjectView::Commit { tree, parents, author, committer, message }),
        ) == ParseOutcome::Parsed(ObjectView::Commit { tree, parents, author, committer, message }),
{
    let body = commit_body(tree, parents, author, committer, message);
    lemma_commit_body_valid(tree, parents, author, committer, message);
    lemma_commit_body_scan(tree, parents, author, committer, message);
    let st = CommitState {
        is_message: true,
        tree: Some(tree),
        parents,
        author: Some(author),
        committer: Some(committer),
        message,
    };
    lemma_commit_spec_done(body, st);
    lemma_commit_body_dispatch(body);
}

/// A tree entry that reads back as written: a mode text without spaces
/// that does not spell a known mode unless it is that mode, a name without
/// NUL bytes, both UTF-8, and a 20-byte id.
pub open spec fn entry_roundtrips(e: EntryView) -> bool {
    &&& valid_utf8(mode_bytes(e.mode))
    &&& forall|i: int| 0 <= i < mode_bytes(e.mode).len() ==> #[trigger] mode_bytes(e.mode)[i] != 0x20
    &&& e.mode matches ModeView::Unsupported(s) ==> s != regular_code() && s != executable_code()
        && s != directory_code()
    &&& valid_utf8(e.name)
    &&& forall|i: int| 0 <= i < e.name.len() ==> #[trigger] e.name[i] != 0
    &&& e.sha1.len() == 20
}

proof fn lemma_prepend_twice(a: Seq<EntryView>, b: Seq<EntryView>, o: ParseOutcome)
    ensures
        prepend_entries(a, prepend_entries(b, o)) == prepend_entries(a + b, o),
{
    if let ParseOutcome::Parsed(ObjectView::Tree(es)) = o {
        assert(a + (b + es) =~= (a + b) + es);
    }
}

proof fn lemma_tree_entry(e: EntryView, rest: Seq<u8>)
    requires
        entry_roundtrips(e),
    ensures
        tree_spec(entry_bytes(e) + rest) == prepend_entries(seq![e], tree_spec(rest)),
{
    let m = mode_bytes(e.mode);
    let s = entry_bytes(e) + rest;
    assert(s =~= m + (seq![0x20u8] + (e.name + (seq![0u8] + (e.sha1 + rest)))));
    let i = m.len() as int;
    assert(is_first_index(s, 0x20, i)) by {
        assert forall|j: int| 0 <= j < i implies s[j] != 0x20 by {
            assert(s[j] == m[j]);
        }
    }
    lemma_first_index_is(s, 0x20, i);
    assert(s.subrange(0, i) =~= m);
    let r1 = s.subrange(i + 1, s.len() as int);
    assert(r1 =~= e.name + (seq![0u8] + (e.sha1 + rest)));
    let j = e.name.len() as int;
    assert(is_first_index(r1, 0, j)) by {
        assert forall|k: int| 0 <= k < j implies r1[k] != 0 by {
            assert(r1[k] == e.name[k]);
        }
    }
    lemma_first_index_is(r1, 0, j);
    assert(r1.subrange(0, j) =~= e.name);
    let r2 = r1.subrange(j + 1, r1.len() as int);
    assert(r2 =~= e.sha1 + rest);
    assert(r2.subrange(0, 20) =~= e.sha1);
    assert(r2.subrange(20, r2.len() as int) =~= rest);
    law_mode_roundtrip(e.mode);
    let e2 = EntryView { mode: mode_from_bytes(m), name: e.name, sha1: e.sha1 };
    assert(e2 == e);
}

proof fn lemma_tree_entries(es: Seq<EntryView>, rest: Seq<u8>)
    requires
        forall|k: int| 0 <= k < es.len() ==> entry_roundtrips(#[trigger] es[k]),
    ensures
        tree_spec(entries_bytes(es) + rest) == prepend_entries(es, tree_spec(rest)),
    decreases es.len(),
{
    if es.len() == 0 {
        assert(entries_bytes(es) + rest =~= rest);
        if let ParseOutcome::Parsed(ObjectView::Tree(t)) = tree_spec(rest) {
            assert(es + t =~= t);
        }
    } else {
        let d = es.drop_last();
        let last = es.last();
        assert(entry_roundtrips(es[es.len() - 1]));
        assert forall|k: int| 0 <= k < d.len() implies entry_roundtrips(#[trigger] d[k]) by {
            assert(entry_roundtrips(es[k]));
        }
        assert(entries_bytes(es) + rest =~= entries_bytes(d) + (entry_bytes(last) + rest));
        lemma_tree_entries(d, entry_bytes(last) + rest);
        lemma_tree_entry(last, rest);
        lemma_prepend_twice(d, seq![last], tree_spec(rest));
        assert(d + seq![last] =~= es);
    }
}

proof fn lemma_sorted_members(es: Seq<EntryView>)
    ensures
        forall|k: int| 0 <= k < sort_entries(es).len() ==> es.contains(#[trigger] sort_entries(es)[k]),
    decreases es.len(),
{
    if es.len() > 0 {
        let d = es.drop_last();
        lemma_sorted_members(d);
        crate::encode::lemma_insert_sorted_members(sort_entries(d), es.last());
        let r = sort_entries(es);
        assert forall|k: int| 0 <= k < r.len() implies es.contains(#[trigger] r[k]) by {
            if r[k] == es.last() {
                assert(es[es.len() - 1] == es.last());
            } else {
                let m = choose|m: int| 0 <= m < sort_entries(d).len() && sort_entries(d)[m] == r[k];
                let n = choose|n: int| 0 <= n < d.len() && d[n] == sort_entries(d)[m];
                assert(es[n] == d[n]);
            }
        }
    }
}

proof fn lemma_tree_body_dispatch(body: Seq<u8>)
    ensures
        parse_object_spec(framed(tree_tag(), body)) == tree_spec(body),
{
    lemma_framed_header(tree_tag(), body);
    assert(tree_tag() != blob_tag()) by {
        assert(tree_tag()[0] != blob_tag()[0]);
    }
    assert(parse_body_spec(tree_tag(), body) == tree_spec(body));
}

proof fn lemma_sorted_roundtrips(es: Seq<EntryView>)
    requires
        forall|k: int| 0 <= k < es.len() ==> entry_roundtrips(#[trigger] es[k]),
    ensures
        forall|k: int| 0 <= k < sort_entries(es).len() ==> entry_roundtrips(#[trigger] sort_entries(es)[k]),
{
    let sorted = sort_entries(es);
    lemma_sorted_members(es);
    assert forall|k: int| 0 <= k < sorted.len() implies entry_roundtrips(#[trigger] sorted[k]) by {
        assert(es.contains(sorted[k]));
        let n = choose|n: int| 0 <= n < es.len() && es[n] == sorted[k];
        assert(entry_roundtrips(es[n]));
    }
}

/// A tree reads back as its entries in git's order, when each entry reads
/// back as written.
pub proof fn law_tree_roundtrip(es: Seq<EntryView>)
    requires
        forall|k: int| 0 <= k < es.len() ==> entry_roundtrips(#[trigger] es[k]),
    ensures
        parse_object_spec(object_bytes(ObjectView::Tree(es))) == ParseOutcome::Parsed(
            ObjectView::Tree(sort_entries(es)),
        ),
{
    let sorted = sort_entries(es);
    lemma_sorted_roundtrips(es);
    let body = entries_bytes(sorted);
    lemma_tree_entries(sorted, Seq::<u8>::empty());
    assert(body + Seq::<u8>::empty() =~= body);
    assert(sorted + Seq::<EntryView>::empty() =~= sorted);
    assert(object_bytes(ObjectView::Tree(es)) == framed(tree_tag(), body));
    lemma_tree_body_dispatch(body);
}

/// An object whose parts read back as written: any blob, a tree whose
/// entries read back, a commit whose parts fit on their lines.
pub open spec fn object_roundtrips(o: ObjectView) -> bool {
    match o {
        ObjectView::Blob(_) => true,
        ObjectView::Tree(es) => forall|k: int| 0 <= k < es.len() ==> entry_roundtrips(#[trigger] es[k]),
        ObjectView::Commit { tree, parents, author, committer, message } => commit_roundtrips(
            tree,
            parents,
            author,
            committer,
            message,
        ),
    }
}

/// The object as it reads back: a tree's entries in git's order.
pub open spec fn as_stored(o: ObjectView) -> ObjectView {
    match o {
        ObjectView::Tree(es) => ObjectView::Tree(sort_entries(es)),
        other => other,
    }
}

/// What storing an object writes (a zlib stream of its loose form) is read
/// back as the same object, a tree with its entries in git's order.
pub proof fn law_stored_object_reads_back(o: ObjectView, stored: Seq<u8>)
    requires
        object_roundtrips(o),
        zlib_decoded(stored) == Some(object_bytes(o)),
    ensures
        zlib_decoded(stored) matches Some(bytes) && parse_object_spec(bytes)
            == ParseOutcome::Parsed(as_stored(o)),
{
    match o {
        ObjectView::Blob(data) => law_blob_roundtrip(data),
        ObjectView::Tree(es) => law_tree_roundtrip(es),
        ObjectView::Commit { tree, parents, author, committer, message } => law_commit_roundtrip(
            tree,
            parents,
            author,
            committer,
            message,
        ),
    }
}

} // verus!
