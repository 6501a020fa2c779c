//! Scanning helpers over raw request bytes: the search for a byte string,
//! the test for a request-method prefix, and the scanner for the header
//! that carries the destination.

use vstd::prelude::*;
use vstd::string::StringSliceAdditionalSpecFns;

verus! {

/// `needle` stands in `buf` at index `at`.
pub open spec fn occurs_at(buf: Seq<u8>, needle: Seq<u8>, at: int) -> bool {
    &&& 0 <= at
    &&& at + needle.len() <= buf.len()
    &&& buf.subrange(at, at + needle.len()) == needle
}

/// `needle` stands somewhere in `buf`, as consecutive bytes.
pub open spec fn contains_bytes(buf: Seq<u8>, needle: Seq<u8>) -> bool {
    exists|at: int| occurs_at(buf, needle, at)
}

/// The least index from `from` on at which `needle` stands in `buf`.
pub open spec fn first_occurrence(buf: Seq<u8>, needle: Seq<u8>, from: int) -> Option<int>
    decreases buf.len() + 1 - from,
{
    if from < 0 || from + needle.len() > buf.len() {
        None
    } else if occurs_at(buf, needle, from) {
        Some(from)
    } else {
        first_occurrence(buf, needle, from + 1)
    }
}

/// `first_occurrence` is the least index of an occurrence from `from` on,
/// and is `None` exactly where there is none.
pub proof fn lemma_first_occurrence(buf: Seq<u8>, needle: Seq<u8>, from: int)
    requires
        0 <= from,
    ensures
        match first_occurrence(buf, needle, from) {
            Some(at) => {
                &&& from <= at
                &&& occurs_at(buf, needle, at)
                &&& forall|j: int| from <= j < at ==> !occurs_at(buf, needle, j)
            },
            None => forall|j: int| from <= j ==> !occurs_at(buf, needle, j),
        },
    decreases buf.len() + 1 - from,
{
    if from + needle.len() <= buf.len() && !occurs_at(buf, needle, from) {
        lemma_first_occurrence(buf, needle, from + 1);
    }
}

/// A byte string is contained exactly where it has a first occurrence.
pub proof fn lemma_contains_first(buf: Seq<u8>, needle: Seq<u8>)
    ensures
        first_occurrence(buf, needle, 0) is Some <==> contains_bytes(buf, needle),
{
    lemma_first_occurrence(buf, needle, 0);
    if contains_bytes(buf, needle) {
        let at = choose|at: int| occurs_at(buf, needle, at);
        assert(occurs_at(buf, needle, at));
    }
}

/// Compares `needle` with the bytes of `buf` at `at`.
fn matches_at(buf: &[u8], needle: &[u8], at: usize) -> (same: bool)
    requires
        at + needle@.len() <= buf@.len(),
    ensures
        same == occurs_at(buf@, needle@, at as int),
{
    let n: usize = needle.len();
    let h: usize = buf.len();
    let mut k: usize = 0;
    while k < n
        invariant
            n == needle@.len(),
            h == buf@.len(),
            at + n <= h,
            0 <= k <= n,
            forall|j: int| 0 <= j < k ==> buf@[at + j] == needle@[j],
        decreases n - k,
    {
        if buf[at + k] != needle[k] {
            assert(buf@.subrange(at as int, at + n)[k as int] != needle@[k as int]);
            return false;
        }
        k = k + 1;
    }
    assert(buf@.subrange(at as int, at + n) =~= needle@);
    true
}

/// The first index at which `needle` stands in `haystack`.
pub fn find_subsequence(haystack: &[u8], needle: &[u8]) -> (found: Option<usize>)
    ensures
        match found {
            Some(at) => {
                &&& occurs_at(haystack@, needle@, at as int)
                &&& forall|j: int| 0 <= j < at ==> !occurs_at(haystack@, needle@, j)
            },
            None => !contains_bytes(haystack@, needle@),
        },
{
    proof {
        lemma_contains_first(haystack@, needle@);
    }
    find_from(haystack, needle, 0)
}

/// The first index from `from` on at which `needle` stands in `haystack`.
pub fn find_from(haystack: &[u8], needle: &[u8], from: usize) -> (found: Option<usize>)
    ensures
        match found {
            Some(at) => first_occurrence(haystack@, needle@, from as int) == Some(at as int),
            None => first_occurrence(haystack@, needle@, from as int) is None,
        },
        match found {
            Some(at) => {
                &&& from <= at
                &&& occurs_at(haystack@, needle@, at as int)
                &&& forall|j: int| from <= j < at ==> !occurs_at(haystack@, needle@, j)
            },
            None => forall|j: int| from <= j ==> !occurs_at(haystack@, needle@, j),
        },
{
    proof {
        lemma_first_occurrence(haystack@, needle@, from as int);
    }
    let h: usize = haystack.len();
    let n: usize = needle.len();
    if n > h || from > h - n {
        return None;
    }
    let last: usize = h - n;
    let mut at: usize = from;
    loop
        invariant
            h == haystack@.len(),
            n == needle@.len(),
            last == h - n,
            from <= at <= last,
            first_occurrence(haystack@, needle@, from as int) == first_occurrence(
                haystack@,
                needle@,
                at as int,
            ),
        decreases last - at,
    {
        proof {
            lemma_first_occurrence(haystack@, needle@, from as int);
        }
        if matches_at(haystack, needle, at) {
            return Some(at);
        }
        if at == last {
            return None;
        }
        at = at + 1;
    }
}

/// Whether `dest` stands somewhere in `buf`, as consecutive bytes.
pub fn bytes_contains(buf: &[u8], dest: &[u8]) -> (found: bool)
    ensures
        found == contains_bytes(buf@, dest@),
{
    let blen: usize = buf.len();
    let dlen: usize = dest.len();
    if dlen > blen {
        return false;
    }
    let mut start: usize = 0;
    while start <= blen - dlen
        invariant
            blen == buf@.len(),
            dlen == dest@.len(),
            dlen <= blen,
            start <= blen - dlen + 1,
            forall|j: int| 0 <= j < start ==> !occurs_at(buf@, dest@, j),
        decreases blen + 1 - start,
    {
        let mut di: usize = 0;
        while di < dlen && buf[start + di] == dest[di]
            invariant
                blen == buf@.len(),
                dlen == dest@.len(),
                dlen <= blen,
                start <= blen - dlen,
                0 <= di <= dlen,
                forall|j: int| 0 <= j < di ==> buf@[start + j] == dest@[j],
            decreases dlen - di,
        {
            di = di + 1;
        }
        if di >= dlen {
            assert(buf@.subrange(start as int, start + dlen) =~= dest@);
            assert(occurs_at(buf@, dest@, start as int));
            return true;
        }
        assert(buf@.subrange(start as int, start + dlen)[di as int] != dest@[di as int]);
        start = start + 1;
    }
    false
}

/// Whether `dest` stands somewhere in `buf`, by way of its first index.
pub fn bytes_contains2(buf: &[u8], dest: &[u8]) -> (found: bool)
    ensures
        found == contains_bytes(buf@, dest@),
{
    find_subsequence(buf, dest).is_some()
}

/// Whether `data` begins with one of the request methods that mark a
/// camouflaged request.
pub open spec fn is_http_request(data: Seq<u8>) -> bool {
    ||| occurs_at(data, "GET".spec_bytes(), 0)
    ||| occurs_at(data, "POST".spec_bytes(), 0)
    ||| occurs_at(data, "HEAD".spec_bytes(), 0)
    ||| occurs_at(data, "PUT".spec_bytes(), 0)
    ||| occurs_at(data, "COPY".spec_bytes(), 0)
    ||| occurs_at(data, "DELETE".spec_bytes(), 0)
    ||| occurs_at(data, "MOVE".spec_bytes(), 0)
    ||| occurs_at(data, "OPTIONS".spec_bytes(), 0)
    ||| occurs_at(data, "LINK".spec_bytes(), 0)
    ||| occurs_at(data, "UNLINK".spec_bytes(), 0)
    ||| occurs_at(data, "TRACE".spec_bytes(), 0)
    ||| occurs_at(data, "PATCH".spec_bytes(), 0)
    ||| occurs_at(data, "WRAPPED".spec_bytes(), 0)
}

/// Whether `data` begins with the bytes of `prefix`.
fn starts_with(data: &[u8], prefix: &str) -> (same: bool)
    ensures
        same == occurs_at(data@, prefix.spec_bytes(), 0),
{
    let bytes = prefix.as_bytes();
    if bytes.len() > data.len() {
        return false;
    }
    matches_at(data, bytes, 0)
}

/// Whether `data` begins with one of the request methods that mark a
/// camouflaged request.
pub fn is_http_header(data: &[u8]) -> (is_http: bool)
    ensures
        is_http == is_http_request(data@),
{
    starts_with(data, "GET") || starts_with(data, "POST") || starts_with(data, "HEAD")
        || starts_with(data, "PUT") || starts_with(data, "COPY") || starts_with(data, "DELETE")
        || starts_with(data, "MOVE") || starts_with(data, "OPTIONS") || starts_with(data, "LINK")
        || starts_with(data, "UNLINK") || starts_with(data, "TRACE") || starts_with(data, "PATCH")
        || starts_with(data, "WRAPPED")
}

/// The bytes that may stand between the header's token and its value:
/// space, tab, line feed, vertical tab and form feed.
pub open spec fn is_blank(b: u8) -> bool {
    b == 0x20 || b == 0x09 || b == 0x0a || b == 0x0b || b == 0x0c
}

/// The first index from `from` on that holds no blank, or the length of
/// `buf` where only blanks follow.
pub open spec fn skip_blanks(buf: Seq<u8>, from: int) -> int
    decreases buf.len() + 1 - from,
{
    if 0 <= from < buf.len() && is_blank(buf[from]) {
        skip_blanks(buf, from + 1)
    } else {
        from
    }
}

/// Where the value of the destination header stands in `buf`: behind the
/// first `Meng:` and the blanks that follow it, up to the first carriage
/// return from there on. The pair is the index of the value's first byte
/// and the index of that carriage return.
pub open spec fn locate_header(buf: Seq<u8>) -> Option<(int, int)> {
    match first_occurrence(buf, "Meng:".spec_bytes(), 0) {
        None => None,
        Some(at) => {
            let start = skip_blanks(buf, at + "Meng:".spec_bytes().len());
            match first_occurrence(buf, seq![0x0du8], start) {
                None => None,
                Some(end) => Some((start, end)),
            }
        },
    }
}

/// The value of the destination header in `buf`.
pub open spec fn header_value(buf: Seq<u8>) -> Option<Seq<u8>> {
    match locate_header(buf) {
        None => None,
        Some((start, end)) => Some(buf.subrange(start, end)),
    }
}

/// Over a run of blanks, `skip_blanks` goes to the byte behind the run.
proof fn lemma_skip_blanks_run(buf: Seq<u8>, from: int, run: int)
    requires
        0 <= from,
        0 <= run,
        from + run <= buf.len(),
        forall|j: int| from <= j < from + run ==> is_blank(buf[j]),
        from + run < buf.len() ==> !is_blank(buf[from + run]),
    ensures
        skip_blanks(buf, from) == from + run,
    decreases run,
{
    if run > 0 {
        lemma_skip_blanks_run(buf, from + 1, run - 1);
    }
}

/// Over bytes other than `byte`, the first occurrence of `byte` is the one
/// behind them.
proof fn lemma_first_byte(buf: Seq<u8>, byte: u8, from: int, gap: int)
    requires
        0 <= from,
        0 <= gap,
        from + gap < buf.len(),
        forall|j: int| from <= j < from + gap ==> buf[j] != byte,
        buf[from + gap] == byte,
    ensures
        first_occurrence(buf, seq![byte], from) == Some(from + gap),
    decreases gap,
{
    if gap > 0 {
        assert(buf.subrange(from, from + 1)[0] != seq![byte][0]);
        lemma_first_byte(buf, byte, from + 1, gap - 1);
    } else {
        assert(buf.subrange(from, from + 1) =~= seq![byte]);
    }
}

/// The scanner reads a header wherever it stands: with any bytes `lead`
/// before the token that do not bring the token about earlier, any blanks
/// behind the token, and any bytes `trail` behind the carriage return, the
/// value is what stands between the blanks and the carriage return.
pub proof fn lemma_header_value_framed(
    lead: Seq<u8>,
    blanks: Seq<u8>,
    value: Seq<u8>,
    trail: Seq<u8>,
)
    requires
        forall|j: int|
            0 <= j < lead.len() ==> !occurs_at(
                lead + "Meng:".spec_bytes(),
                "Meng:".spec_bytes(),
                j,
            ),
        forall|j: int| 0 <= j < blanks.len() ==> is_blank(blanks[j]),
        value.len() > 0 ==> !is_blank(value[0]),
        forall|j: int| 0 <= j < value.len() ==> value[j] != 0x0d,
    ensures
        header_value(lead + "Meng:".spec_bytes() + blanks + value + seq![0x0du8] + trail) == Some(
            value,
        ),
{
    let token = "Meng:".spec_bytes();
    let buf = lead + token + blanks + value + seq![0x0du8] + trail;
    let at = lead.len() as int;
    let start = at + token.len() + blanks.len();
    let end = start + value.len();
    assert(buf.subrange(at, at + token.len()) =~= token);
    assert(occurs_at(buf, token, at));
    lemma_first_occurrence(buf, token, 0);
    let found = first_occurrence(buf, token, 0);
    assert(found is Some);
    let first = found->0;
    if first < at {
        assert((lead + token).subrange(first, first + token.len()) =~= buf.subrange(
            first,
            first + token.len(),
        ));
        assert(occurs_at(lead + token, token, first));
    }
    assert(first == at);
    assert(forall|j: int| at + token.len() <= j < start ==> buf[j] == blanks[j - at - token.len()]);
    assert(buf[end] == 0x0d);
    if value.len() > 0 {
        assert(buf[start] == value[0]);
    }
    lemma_skip_blanks_run(buf, at + token.len(), blanks.len() as int);
    assert(forall|j: int| start <= j < end ==> buf[j] == value[j - start]);
    lemma_first_byte(buf, 0x0d, start, value.len() as int);
    assert(buf.subrange(start, end) =~= value);
}

/// Finds the value of the destination header: the index of its first byte
/// and the index of the carriage return that ends it.
pub fn locate_proxy_host(buf: &[u8]) -> (span: Option<(usize, usize)>)
    ensures
        match span {
            Some((start, end)) => {
                &&& locate_header(buf@) == Some((start as int, end as int))
                &&& start <= end < buf@.len()
            },
            None => locate_header(buf@) is None,
        },
{
    let token = "Meng:".as_bytes();
    let at = match find_from(buf, token, 0) {
        Some(at) => at,
        None => {
            return None;
        },
    };
    let len: usize = buf.len();
    let mut start: usize = at + token.len();
    while start < len && (buf[start] == 0x20 || buf[start] == 0x09 || buf[start] == 0x0a
        || buf[start] == 0x0b || buf[start] == 0x0c)
        invariant
            len == buf@.len(),
            at + token@.len() <= start <= len,
            skip_blanks(buf@, at + token@.len()) == skip_blanks(buf@, start as int),
        decreases len - start,
    {
        start = start + 1;
    }
    let cr: [u8; 1] = [0x0d];
    assert(cr@ =~= seq![0x0du8]);
    match find_from(buf, cr.as_slice(), start) {
        Some(end) => Some((start, end)),
        None => None,
    }
}

/// `String::from_utf8`: the bytes become a string exactly where they are
/// well-formed UTF-8, and the string then holds those bytes.
#[verifier::external_body]
pub(crate) fn string_from_utf8(bytes: Vec<u8>) -> (text: Option<String>)
    ensures
        text is Some <==> vstd::utf8::valid_utf8(bytes@),
        text matches Some(s) ==> vstd::utf8::encode_utf8(s@) == bytes@,
{
    match String::from_utf8(bytes) {
        Ok(s) => Some(s),
        Err(_) => None,
    }
}

/// Copies `buf[from..to]` into a new vector.
pub(crate) fn copy_range(buf: &[u8], from: usize, to: usize) -> (out: Vec<u8>)
    requires
        from <= to <= buf@.len(),
    ensures
        out@ == buf@.subrange(from as int, to as int),
{
    let mut out: Vec<u8> = Vec::with_capacity(to - from);
    let mut i: usize = from;
    while i < to
        invariant
            from <= i <= to <= buf@.len(),
            out@ == buf@.subrange(from as int, i as int),
        decreases to - i,
    {
        out.push(buf[i]);
        i = i + 1;
        assert(out@ =~= buf@.subrange(from as int, i as int));
    }
    out
}

/// Reads the destination header of a request: the text between the blanks
/// behind the first `Meng:` and the first carriage return that follows.
/// There is none where the token or the carriage return is missing, or
/// where the value is not UTF-8.
pub fn get_proxy_host(buf: &[u8]) -> (host: Option<String>)
    ensures
        host is Some <==> (header_value(buf@) matches Some(value) && vstd::utf8::valid_utf8(
            value,
        )),
        host matches Some(text) ==> header_value(buf@) == Some(vstd::utf8::encode_utf8(text@)),
{
    match locate_proxy_host(buf) {
        None => None,
        Some((start, end)) => string_from_utf8(copy_range(buf, start, end)),
    }
}

} // verus!
