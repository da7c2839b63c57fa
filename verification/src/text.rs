//! Byte-level text handling: UTF-8 validation, searching, whitespace trimming
//! and tokenizing, all stated over the raw bytes of the text.
use vstd::prelude::*;
use vstd::string::*;
use vstd::utf8::*;

verus! {

broadcast use vstd::seq::group_seq_axioms;

/// The UTF-8 bytes of a string.
pub open spec fn str_bytes(s: String) -> Seq<u8> {
    encode_utf8(s@)
}

/// Every byte is an ASCII byte.
pub open spec fn all_ascii(s: Seq<u8>) -> bool {
    forall|i: int| 0 <= i < s.len() ==> #[trigger] s[i] < 0x80
}

pub proof fn lemma_ascii_valid_utf8(s: Seq<u8>)
    requires
        all_ascii(s),
    ensures
        valid_utf8(s),
    decreases s.len(),
{
    if s.len() > 0 {
        assert(is_leading_byte_width_1(s[0]));
        assert(pop_first_scalar(s) =~= s.subrange(1, s.len() as int));
        lemma_ascii_valid_utf8(s.subrange(1, s.len() as int));
    }
}

/// Splitting valid UTF-8 at a byte that does not continue a character gives
/// two valid halves.
pub proof fn lemma_valid_utf8_split(s: Seq<u8>, i: int)
    requires
        valid_utf8(s),
        0 <= i <= s.len(),
        i < s.len() ==> !is_continuation_byte(s[i]),
    ensures
        valid_utf8(s.subrange(0, i)),
        valid_utf8(s.subrange(i, s.len() as int)),
{
    is_char_boundary_start_end_of_seq(s);
    if i < s.len() {
        is_char_boundary_iff_not_is_continuation_byte(s, i);
    }
    valid_utf8_split(s, i);
}

/// A valid UTF-8 text whose first byte is ASCII stays valid without that byte.
pub proof fn lemma_valid_utf8_drop_ascii(s: Seq<u8>)
    requires
        valid_utf8(s),
        s.len() > 0,
        s[0] < 0x80,
    ensures
        valid_utf8(s.subrange(1, s.len() as int)),
{
    assert(pop_first_scalar(s) =~= s.subrange(1, s.len() as int));
}

/// Valid UTF-8 pieces of a valid text, cut at bytes that start characters.
pub proof fn lemma_valid_utf8_sub(s: Seq<u8>, i: int, j: int)
    requires
        valid_utf8(s),
        0 <= i <= j <= s.len(),
        i < s.len() ==> !is_continuation_byte(s[i]),
        j < s.len() ==> !is_continuation_byte(s[j]),
    ensures
        valid_utf8(s.subrange(i, j)),
{
    lemma_valid_utf8_split(s, j);
    let a = s.subrange(0, j);
    if i < j {
        assert(a[i] == s[i]);
    }
    lemma_valid_utf8_split(a, i);
    assert(a.subrange(i, a.len() as int) =~= s.subrange(i, j));
}

/// `std::str::from_utf8`: succeeds exactly on valid UTF-8 and views the same bytes.
#[verifier::external_body]
pub(crate) fn utf8_text(bytes: &[u8]) -> (r: Option<&str>)
    ensures
        r is Some <==> valid_utf8(bytes@),
        r matches Some(s) ==> s.spec_bytes() == bytes@,
{
    std::str::from_utf8(bytes).ok()
}

/// The text of `bytes` as a `String`, or `None` when they are not UTF-8.
pub fn bytes_to_string(bytes: &[u8]) -> (r: Option<String>)
    ensures
        r is Some <==> valid_utf8(bytes@),
        r matches Some(s) ==> str_bytes(s) == bytes@,
{
    match utf8_text(bytes) {
        Some(s) => Some(s.to_owned()),
        None => None,
    }
}

/// The text of bytes known to be valid UTF-8.
pub fn valid_to_string(bytes: &[u8]) -> (r: String)
    requires
        valid_utf8(bytes@),
    ensures
        str_bytes(r) == bytes@,
{
    match bytes_to_string(bytes) {
        Some(s) => s,
        None => {
            assert(false);
            String::new()
        },
    }
}

/// The text of ASCII bytes.
pub fn ascii_to_string(bytes: &[u8]) -> (r: String)
    requires
        all_ascii(bytes@),
    ensures
        str_bytes(r) == bytes@,
{
    proof {
        lemma_ascii_valid_utf8(bytes@);
    }
    valid_to_string(bytes)
}

/// The UTF-8 bytes of a string.
pub fn string_to_bytes(s: &String) -> (r: Vec<u8>)
    ensures
        r@ == str_bytes(*s),
{
    vstd::slice::slice_to_vec(s.as_str().as_bytes())
}

/// Appends `src` to `dst`.
pub fn push_all(dst: &mut Vec<u8>, src: &[u8])
    ensures
        final(dst)@ == old(dst)@ + src@,
{
    let mut i: usize = 0;
    while i < src.len()
        invariant
            i <= src.len(),
            dst@ == old(dst)@ + src@.subrange(0, i as int),
        decreases src.len() - i,
    {
        dst.push(src[i]);
        i = i + 1;
        assert(dst@ =~= old(dst)@ + src@.subrange(0, i as int));
    }
    assert(src@.subrange(0, src@.len() as int) =~= src@);
}

/// The index of the first occurrence of `b` in `s`.
pub open spec fn first_index(s: Seq<u8>, b: u8) -> Option<int> {
    if exists|i: int| is_first_index(s, b, i) {
        Some(choose|i: int| is_first_index(s, b, i))
    } else {
        None
    }
}

pub open spec fn is_first_index(s: Seq<u8>, b: u8, i: int) -> bool {
    &&& 0 <= i < s.len()
    &&& s[i] == b
    &&& forall|j: int| 0 <= j < i ==> s[j] != b
}

pub proof fn lemma_first_index_is(s: Seq<u8>, b: u8, i: int)
    requires
        is_first_index(s, b, i),
    ensures
        first_index(s, b) == Some(i),
{
    let k = choose|k: int| is_first_index(s, b, k);
    assert(is_first_index(s, b, k));
    if k < i {
        assert(s[k] != b);
    }
    if i < k {
        assert(s[i] != b);
    }
}

pub proof fn lemma_first_index_none(s: Seq<u8>, b: u8)
    requires
        forall|j: int| 0 <= j < s.len() ==> s[j] != b,
    ensures
        first_index(s, b) is None,
{
    if exists|i: int| is_first_index(s, b, i) {
        let k = choose|k: int| is_first_index(s, b, k);
        assert(s[k] == b);
    }
}

pub proof fn lemma_first_index_facts(s: Seq<u8>, b: u8)
    ensures
        first_index(s, b) matches Some(i) ==> is_first_index(s, b, i),
        first_index(s, b) is None ==> forall|j: int| 0 <= j < s.len() ==> s[j] != b,
{
    if first_index(s, b) is None {
        assert forall|j: int| 0 <= j < s.len() implies s[j] != b by {
            if s[j] == b {
                lemma_exists_first(s, b, j);
            }
        }
    }
}

/// Where `b` occurs, it has a first occurrence.
pub proof fn lemma_exists_first(s: Seq<u8>, b: u8, j: int)
    requires
        0 <= j < s.len(),
        s[j] == b,
    ensures
        exists|i: int| is_first_index(s, b, i),
    decreases j,
{
    if exists|m: int| 0 <= m < j && s[m] == b {
        let m = choose|m: int| 0 <= m < j && s[m] == b;
        lemma_exists_first(s, b, m);
    } else {
        assert(is_first_index(s, b, j));
    }
}

/// The first index where `s` holds `b`.
pub fn find_byte(s: &[u8], b: u8) -> (r: Option<usize>)
    ensures
        r matches Some(i) ==> i < s.len() && s@[i as int] == b,
        match r {
            Some(i) => first_index(s@, b) == Some(i as int),
            None => first_index(s@, b) is None,
        },
{
    let mut i: usize = 0;
    while i < s.len()
        invariant
            i <= s.len(),
            forall|j: int| 0 <= j < i ==> s@[j] != b,
        decreases s.len() - i,
    {
        if s[i] == b {
            proof {
                lemma_first_index_is(s@, b, i as int);
            }
            return Some(i);
        }
        i = i + 1;
    }
    proof {
        lemma_first_index_none(s@, b);
    }
    None
}

/// The two parts of `s` around the first `sep`, without the separator.
pub open spec fn split_once_spec(s: Seq<u8>, sep: u8) -> Option<(Seq<u8>, Seq<u8>)> {
    match first_index(s, sep) {
        Some(i) => Some((s.subrange(0, i), s.subrange(i + 1, s.len() as int))),
        None => None,
    }
}

/// Splits `s` around the first occurrence of `sep`.
pub fn split_once_byte(s: &[u8], sep: u8) -> (r: Option<(&[u8], &[u8])>)
    ensures
        match r {
            Some((a, b)) => split_once_spec(s@, sep) == Some((a@, b@)),
            None => split_once_spec(s@, sep) is None,
        },
{
    proof {
        lemma_first_index_facts(s@, sep);
    }
    match find_byte(s, sep) {
        Some(i) => Some((&s[0..i], &s[i + 1..s.len()])),
        None => None,
    }
}

/// True when `s` begins with `p`.
pub open spec fn starts_with(s: Seq<u8>, p: Seq<u8>) -> bool {
    p.len() <= s.len() && s.subrange(0, p.len() as int) == p
}

/// Whether `s` begins with `p`.
pub fn has_prefix(s: &[u8], p: &[u8]) -> (r: bool)
    ensures
        r == starts_with(s@, p@),
{
    if p.len() > s.len() {
        return false;
    }
    let mut i: usize = 0;
    while i < p.len()
        invariant
            p.len() <= s.len(),
            i <= p.len(),
            forall|j: int| 0 <= j < i ==> s@[j] == p@[j],
        decreases p.len() - i,
    {
        if s[i] != p[i] {
            assert(s@.subrange(0, p@.len() as int)[i as int] != p@[i as int]);
            return false;
        }
        i = i + 1;
    }
    assert(s@.subrange(0, p@.len() as int) =~= p@);
    true
}

/// Whether two byte strings are equal.
pub fn bytes_equal(a: &[u8], b: &[u8]) -> (r: bool)
    ensures
        r == (a@ == b@),
{
    if a.len() != b.len() {
        return false;
    }
    let r = has_prefix(a, b);
    assert(a@.subrange(0, b@.len() as int) =~= a@);
    r
}

/// Length in bytes of a Unicode whitespace character whose UTF-8 encoding
/// has three bytes `a b c`.
pub open spec fn is_wide_space(a: u8, b: u8, c: u8) -> bool {
    ||| (a == 0xe1 && b == 0x9a && c == 0x80)
    ||| (a == 0xe2 && b == 0x80 && ((0x80 <= c <= 0x8a) || c == 0xa8 || c == 0xa9 || c == 0xaf))
    ||| (a == 0xe2 && b == 0x81 && c == 0x9f)
    ||| (a == 0xe3 && b == 0x80 && c == 0x80)
}

pub open spec fn is_ascii_space(a: u8) -> bool {
    a == 0x20 || (0x09 <= a <= 0x0d)
}

/// Byte length of the Unicode whitespace character (the `White_Space`
/// property, as `char::is_whitespace` uses it) that starts `s`; 0 if none.
pub open spec fn ws_prefix(s: Seq<u8>) -> int {
    if s.len() >= 1 && is_ascii_space(s[0]) {
        1
    } else if s.len() >= 2 && s[0] == 0xc2 && (s[1] == 0x85 || s[1] == 0xa0) {
        2
    } else if s.len() >= 3 && is_wide_space(s[0], s[1], s[2]) {
        3
    } else {
        0
    }
}

/// Byte length of the Unicode whitespace character that ends `s`; 0 if none.
pub open spec fn ws_suffix(s: Seq<u8>) -> int {
    let n = s.len() as int;
    if n >= 1 && is_ascii_space(s[n - 1]) {
        1
    } else if n >= 2 && s[n - 2] == 0xc2 && (s[n - 1] == 0x85 || s[n - 1] == 0xa0) {
        2
    } else if n >= 3 && is_wide_space(s[n - 3], s[n - 2], s[n - 1]) {
        3
    } else {
        0
    }
}

/// `s` without its leading whitespace.
pub open spec fn trim_start(s: Seq<u8>) -> Seq<u8>
    decreases s.len(),
{
    if ws_prefix(s) > 0 {
        trim_start(s.subrange(ws_prefix(s), s.len() as int))
    } else {
        s
    }
}

/// `s` without its trailing whitespace.
pub open spec fn trim_end(s: Seq<u8>) -> Seq<u8>
    decreases s.len(),
{
    if ws_suffix(s) > 0 {
        trim_end(s.subrange(0, s.len() - ws_suffix(s)))
    } else {
        s
    }
}

/// `s` without leading and trailing whitespace (`str::trim`).
pub open spec fn trim(s: Seq<u8>) -> Seq<u8> {
    trim_end(trim_start(s))
}

fn ws_prefix_at(s: &[u8], i: usize) -> (n: usize)
    requires
        i <= s.len(),
    ensures
        n == ws_prefix(s@.subrange(i as int, s@.len() as int)),
{
    let ghost t = s@.subrange(i as int, s@.len() as int);
    let rem = s.len() - i;
    if rem >= 1 && (s[i] == 0x20 || (0x09 <= s[i] && s[i] <= 0x0d)) {
        1
    } else if rem >= 2 && s[i] == 0xc2 && (s[i + 1] == 0x85 || s[i + 1] == 0xa0) {
        2
    } else if rem >= 3 && wide_space(s[i], s[i + 1], s[i + 2]) {
        3
    } else {
        0
    }
}

fn wide_space(a: u8, b: u8, c: u8) -> (r: bool)
    ensures
        r == is_wide_space(a, b, c),
{
    (a == 0xe1 && b == 0x9a && c == 0x80) || (a == 0xe2 && b == 0x80 && ((0x80 <= c && c <= 0x8a)
        || c == 0xa8 || c == 0xa9 || c == 0xaf)) || (a == 0xe2 && b == 0x81 && c == 0x9f) || (a
        == 0xe3 && b == 0x80 && c == 0x80)
}

fn ws_suffix_in(s: &[u8], lo: usize, j: usize) -> (n: usize)
    requires
        lo <= j <= s.len(),
    ensures
        n == ws_suffix(s@.subrange(lo as int, j as int)),
        n <= j - lo,
{
    let len = j - lo;
    if len >= 1 && (s[j - 1] == 0x20 || (0x09 <= s[j - 1] && s[j - 1] <= 0x0d)) {
        1
    } else if len >= 2 && s[j - 2] == 0xc2 && (s[j - 1] == 0x85 || s[j - 1] == 0xa0) {
        2
    } else if len >= 3 && wide_space(s[j - 3], s[j - 2], s[j - 1]) {
        3
    } else {
        0
    }
}

/// The index at which `s[from..]` stops starting with whitespace.
pub fn skip_ws(s: &[u8], from: usize) -> (i: usize)
    requires
        from <= s.len(),
    ensures
        from <= i <= s.len(),
        s@.subrange(i as int, s@.len() as int) == trim_start(s@.subrange(from as int, s@.len() as int)),
        valid_utf8(s@.subrange(from as int, s@.len() as int)) ==> valid_utf8(
            s@.subrange(i as int, s@.len() as int),
        ),
{
    let ghost start = s@.subrange(from as int, s@.len() as int);
    let mut i: usize = from;
    loop
        invariant
            from <= i <= s.len(),
            start == s@.subrange(from as int, s@.len() as int),
            trim_start(s@.subrange(i as int, s@.len() as int)) == trim_start(start),
            valid_utf8(start) ==> valid_utf8(s@.subrange(i as int, s@.len() as int)),
        ensures
            from <= i <= s.len(),
            trim_start(s@.subrange(i as int, s@.len() as int)) == trim_start(start),
            ws_prefix(s@.subrange(i as int, s@.len() as int)) == 0,
            valid_utf8(start) ==> valid_utf8(s@.subrange(i as int, s@.len() as int)),
        decreases s.len() - i,
    {
        let n = ws_prefix_at(s, i);
        if n == 0 {
            break;
        }
        let ghost t = s@.subrange(i as int, s@.len() as int);
        assert(t.subrange(n as int, t.len() as int) =~= s@.subrange(i + n, s@.len() as int));
        proof {
            if valid_utf8(start) {
                assert(pop_first_scalar(t) == t.subrange(n as int, t.len() as int));
            }
        }
        i = i + n;
    }
    i
}

/// The bounds of `trim(s)` inside `s`.
pub fn trim_bounds(s: &[u8]) -> (r: (usize, usize))
    ensures
        r.0 <= r.1 <= s.len(),
        s@.subrange(r.0 as int, r.1 as int) == trim(s@),
        valid_utf8(s@) ==> valid_utf8(trim(s@)),
{
    assert(s@.subrange(0, s@.len() as int) =~= s@);
    let i = skip_ws(s, 0);
    let ghost t = s@.subrange(i as int, s@.len() as int);
    let mut j: usize = s.len();
    loop
        invariant
            i <= j <= s.len(),
            t == s@.subrange(i as int, s@.len() as int),
            trim_start(s@) == t,
            trim_end(s@.subrange(i as int, j as int)) == trim_end(t),
            valid_utf8(s@) ==> valid_utf8(s@.subrange(i as int, j as int)),
        ensures
            i <= j <= s.len(),
            trim_end(s@.subrange(i as int, j as int)) == trim_end(t),
            ws_suffix(s@.subrange(i as int, j as int)) == 0,
            valid_utf8(s@) ==> valid_utf8(s@.subrange(i as int, j as int)),
        decreases j,
    {
        let n = ws_suffix_in(s, i, j);
        if n == 0 {
            break;
        }
        let ghost u = s@.subrange(i as int, j as int);
        assert(u.subrange(0, u.len() - n) =~= s@.subrange(i as int, j - n));
        proof {
            if valid_utf8(s@) {
                lemma_valid_utf8_split(u, u.len() - n);
            }
        }
        j = j - n;
    }
    assert(trim_end(s@.subrange(i as int, j as int)) == s@.subrange(i as int, j as int));
    (i, j)
}

/// Number of bytes before the first whitespace character of `t` (or its end).
pub open spec fn token_len(t: Seq<u8>) -> int
    decreases t.len(),
{
    if t.len() == 0 || ws_prefix(t) > 0 {
        0
    } else {
        1 + token_len(t.drop_first())
    }
}

/// The first whitespace-separated token of `s` and what follows it, as
/// `str::split_whitespace` finds them.
pub open spec fn next_token(s: Seq<u8>) -> Option<(Seq<u8>, Seq<u8>)> {
    let t = trim_start(s);
    if t.len() == 0 {
        None
    } else {
        let k = token_len(t);
        Some((t.subrange(0, k), t.subrange(k, t.len() as int)))
    }
}

/// The bounds of the first token of `s[from..]`; the rest follows from the end bound.
pub fn token_bounds(s: &[u8], from: usize) -> (r: Option<(usize, usize)>)
    requires
        from <= s.len(),
    ensures
        match r {
            Some((a, b)) => {
                &&& from <= a <= b <= s.len()
                &&& next_token(s@.subrange(from as int, s@.len() as int)) == Some(
                    (s@.subrange(a as int, b as int), s@.subrange(b as int, s@.len() as int)),
                )
                &&& valid_utf8(s@.subrange(from as int, s@.len() as int)) ==> valid_utf8(
                    s@.subrange(a as int, b as int),
                ) && valid_utf8(s@.subrange(b as int, s@.len() as int))
            },
            None => next_token(s@.subrange(from as int, s@.len() as int)) is None,
        },
{
    let a = skip_ws(s, from);
    if a == s.len() {
        return None;
    }
    let ghost t = s@.subrange(a as int, s@.len() as int);
    let mut b: usize = a;
    loop
        invariant
            a <= b <= s.len(),
            t == s@.subrange(a as int, s@.len() as int),
            token_len(t) == (b - a) + token_len(s@.subrange(b as int, s@.len() as int)),
        ensures
            a <= b <= s.len(),
            token_len(t) == b - a,
            b < s.len() ==> ws_prefix(s@.subrange(b as int, s@.len() as int)) > 0,
        decreases s.len() - b,
    {
        if b == s.len() {
            break;
        }
        let n = ws_prefix_at(s, b);
        if n > 0 {
            break;
        }
        let ghost u = s@.subrange(b as int, s@.len() as int);
        assert(u.drop_first() =~= s@.subrange(b + 1, s@.len() as int));
        b = b + 1;
    }
    proof {
        assert(t.subrange(0, b - a) =~= s@.subrange(a as int, b as int));
        assert(t.subrange(b - a, t.len() as int) =~= s@.subrange(b as int, s@.len() as int));
        if valid_utf8(s@.subrange(from as int, s@.len() as int)) {
            if b < s.len() {
                assert(t[b - a] == s@[b as int]);
                assert(s@.subrange(b as int, s@.len() as int)[0] == s@[b as int]);
            }
            lemma_valid_utf8_split(t, b - a);
        }
    }
    Some((a, b))
}

} // verus!
