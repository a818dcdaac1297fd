//! The small HTTP client that fetches lists and blobs from a peer: the request,
//! the reply, and bodies that come in chunks.

use vstd::prelude::*;
use vstd::slice::*;
use vstd::string::*;
use vstd::utf8::*;

use crate::blob::is_hex;
use crate::text::{
    bytes_text, cat, cat3, chars_of, contains, decimal, decimal_text, digits_value, has_text, lossy,
    lower_text, lowered, parse_unsigned, second_word, second_word_of, trim, trimmed, unsigned_value,
};
use crate::text_laws::{all_white, law_numbers_are_read_back, law_second_word, none_white};

verus! {

/// The request for a path of a peer.
pub open spec fn request_of(hostport: Seq<char>, path: Seq<char>) -> Seq<char> {
    "GET "@ + path + " HTTP/1.1\r\nHost: "@ + hostport + "\r\nConnection: close\r\n\r\n"@
}

/// Writes the request for a path of a peer.
pub fn request(hostport: &str, path: &str) -> (r: String)
    ensures
        r@ == request_of(hostport@, path@),
{
    let head = cat3("GET ", path, " HTTP/1.1\r\nHost: ");
    cat3(&head, hostport, "\r\nConnection: close\r\n\r\n")
}

/// Where `p` first stands in `s`.
pub open spec fn first_at(s: Seq<u8>, p: Seq<u8>) -> Option<nat>
    decreases s.len(),
{
    if p.is_prefix_of(s) {
        Some(0)
    } else if s.len() == 0 {
        None
    } else {
        match first_at(s.skip(1), p) {
            Some(i) => Some(i + 1),
            None => None,
        }
    }
}

fn stands_at(s: &[u8], i: usize, p: &[u8]) -> (r: bool)
    requires
        i <= s@.len(),
    ensures
        r == p@.is_prefix_of(s@.skip(i as int)),
{
    let n = s.len();
    if n - i < p.len() {
        return false;
    }
    let mut k: usize = 0;
    while k < p.len()
        invariant
            n == s@.len(),
            i + p@.len() <= n,
            k <= p@.len(),
            forall|j: int| 0 <= j < k ==> s@[i + j] == p@[j],
        decreases p@.len() - k,
    {
        if s[i + k] != p[k] {
            assert(s@.skip(i as int).subrange(0, p@.len() as int)[k as int] != p@[k as int]);
            return false;
        }
        k += 1;
    }
    assert(s@.skip(i as int).subrange(0, p@.len() as int) =~= p@);
    true
}

/// Where `p` first stands in `s` from `from` on.
fn find(s: &[u8], from: usize, p: &[u8]) -> (r: Option<usize>)
    requires
        from <= s@.len(),
    ensures
        match r {
            Some(i) => from <= i && i + p@.len() <= s@.len() && first_at(s@.skip(from as int), p@)
                == Some((i - from) as nat),
            None => first_at(s@.skip(from as int), p@) is None,
        },
{
    let mut i: usize = from;
    loop
        invariant
            from <= i <= s@.len(),
            match first_at(s@.skip(i as int), p@) {
                Some(k) => first_at(s@.skip(from as int), p@) == Some((k + i - from) as nat),
                None => first_at(s@.skip(from as int), p@) is None,
            },
        decreases s@.len() - i,
    {
        if stands_at(s, i, p) {
            return Some(i);
        }
        if i == s.len() {
            return None;
        }
        assert(s@.skip(i as int).skip(1) == s@.skip(i + 1));
        i += 1;
    }
}

/// The end of a line.
pub open spec fn crlf() -> Seq<u8> {
    seq![0x0du8, 0x0au8]
}

/// The line that ends a head, with the end of the line before it.
pub open spec fn head_end() -> Seq<u8> {
    seq![0x0du8, 0x0au8, 0x0du8, 0x0au8]
}

/// The text up to the first `;`.
pub open spec fn before_semicolon(s: Seq<char>) -> Seq<char>
    decreases s.len(),
{
    if s.len() == 0 || s[0] == ';' {
        Seq::empty()
    } else {
        seq![s[0]] + before_semicolon(s.skip(1))
    }
}

/// The size of a chunk in its first line: base 16, with anything after a `;`
/// left out. A line that is no text stands for the last chunk.
pub open spec fn chunk_size(line: Seq<u8>) -> Option<nat> {
    if valid_utf8(line) {
        unsigned_value(trimmed(before_semicolon(decode_utf8(line))), 16)
    } else {
        Some(0)
    }
}

/// The chunks one after the other, up to the empty one, or to the first that
/// does not read or is cut off.
pub open spec fn dechunked(body: Seq<u8>) -> Seq<u8>
    decreases body.len(),
{
    match first_at(body, crlf()) {
        None => Seq::empty(),
        Some(nl) => match chunk_size(body.take(nl as int)) {
            None => Seq::empty(),
            Some(len) => if len == 0 || nl + 2 + len > body.len() {
                Seq::empty()
            } else {
                let end = (nl + 2 + len) as int;
                let next = if end + 2 <= body.len() {
                    end + 2
                } else {
                    body.len() as int
                };
                body.subrange(end - len, end) + dechunked(body.skip(next))
            },
        },
    }
}

fn cut_semicolon(s: &str) -> (r: String)
    ensures
        r@ == before_semicolon(s@),
{
    let v = chars_of(s);
    let mut n: usize = 0;
    assert(v@.skip(0) == v@);
    assert(v@.take(0) + before_semicolon(v@) == before_semicolon(v@));
    while n < v.len() && v[n] != ';'
        invariant
            n <= v@.len(),
            v@ == s@,
            before_semicolon(s@) == v@.take(n as int) + before_semicolon(v@.skip(n as int)),
        decreases v@.len() - n,
    {
        let ghost rest = v@.skip(n as int);
        assert(rest.skip(1) == v@.skip(n + 1));
        n += 1;
        assert(v@.take(n as int) + before_semicolon(v@.skip(n as int)) == v@.take(n - 1) + (
        seq![rest[0]] + before_semicolon(v@.skip(n as int))));
    }
    assert(before_semicolon(v@.skip(n as int)) == Seq::<char>::empty());
    assert(v@.take(n as int) == before_semicolon(s@));
    s.substring_char(0, n).to_owned()
}

/// The size in the first line of a chunk; none where it does not read, or is
/// more than any body holds.
fn read_size(line: &[u8]) -> (r: Option<usize>)
    ensures
        match r {
            Some(n) => chunk_size(line@) == Some(n as nat),
            None => match chunk_size(line@) {
                Some(n) => n > usize::MAX,
                None => true,
            },
        },
{
    match core::str::from_utf8(line) {
        Err(_) => Some(0),
        Ok(s) => {
            let size = trim(&cut_semicolon(s));
            match parse_unsigned(&size, 16, usize::MAX as u64) {
                Some(n) => Some(n as usize),
                None => None,
            }
        },
    }
}

/// Puts the chunks of a body together.
pub fn dechunk(body: &[u8]) -> (r: Vec<u8>)
    ensures
        r@ == dechunked(body@),
{
    let mut out: Vec<u8> = Vec::new();
    let mut at: usize = 0;
    let n = body.len();
    assert(body@.skip(0) == body@);
    loop
        invariant
            n == body@.len(),
            at <= n,
            dechunked(body@) == out@ + dechunked(body@.skip(at as int)),
        decreases n - at,
    {
        let ghost rest = body@.skip(at as int);
        let line_end = [0x0du8, 0x0au8];
        assert(line_end@ == crlf());
        let nl = match find(body, at, &line_end) {
            Some(nl) => nl,
            None => {
                assert(out@ == dechunked(body@));
                return out;
            },
        };
        let line = slice_subrange(body, at, nl);
        assert(line@ == rest.take(nl - at));
        let len = match read_size(line) {
            Some(len) => len,
            None => {
                assert(out@ == dechunked(body@));
                return out;
            },
        };
        if len == 0 || len > n - nl - 2 {
            assert(out@ == dechunked(body@));
            return out;
        }
        let data = slice_subrange(body, nl + 2, nl + 2 + len);
        assert(data@ == rest.subrange(nl - at + 2, nl - at + 2 + len));
        let ghost before = out@;
        out.extend_from_slice(data);
        assert(out@ == before + data@);
        let end = nl + 2 + len;
        at = if n - end >= 2 {
            end + 2
        } else {
            n
        };
        assert(body@.skip(at as int) == rest.skip(at - (n - rest.len())));
        assert(out@ + dechunked(body@.skip(at as int)) == before + (data@ + dechunked(
            body@.skip(at as int),
        )));
    }
}

/// Why a reply cannot be used.
pub enum HttpError {
    NoTerminator,
    BadStatus,
    Peer(u16),
}

impl HttpError {
    /// The error in words.
    pub open spec fn words(self) -> Seq<char> {
        match self {
            HttpError::NoTerminator => "bad http: no header terminator"@,
            HttpError::BadStatus => "bad http: status line"@,
            HttpError::Peer(status) => "peer http "@ + decimal_text(status as nat),
        }
    }

    /// Puts the error in words.
    pub fn message(&self) -> (r: String)
        ensures
            r@ == self.words(),
    {
        match self {
            HttpError::NoTerminator => "bad http: no header terminator".to_owned(),
            HttpError::BadStatus => "bad http: status line".to_owned(),
            HttpError::Peer(status) => cat("peer http ", &decimal(*status as u64)),
        }
    }
}

/// The status in a head: its second word, a number of 16 bits.
pub open spec fn status_of(head: Seq<char>) -> Option<u16> {
    match second_word_of(head) {
        None => None,
        Some(w) => match unsigned_value(w, 10) {
            Some(n) => if n <= u16::MAX {
                Some(n as u16)
            } else {
                None
            },
            None => None,
        },
    }
}

/// What a reply with this head, in lower case, and this body gives.
pub open spec fn reply_of(head: Seq<char>, body: Seq<u8>) -> Result<Seq<u8>, HttpError> {
    match status_of(head) {
        None => Err(HttpError::BadStatus),
        Some(status) => if status != 200 {
            Err(HttpError::Peer(status))
        } else if has_text(head, "transfer-encoding: chunked"@) {
            Ok(dechunked(body))
        } else {
            Ok(body)
        },
    }
}

/// Reads a reply whose head, in lower case, has been taken off.
pub fn read_reply(head: &str, body: &[u8]) -> (r: Result<Vec<u8>, HttpError>)
    ensures
        match r {
            Ok(data) => reply_of(head@, body@) == Ok::<Seq<u8>, HttpError>(data@),
            Err(e) => reply_of(head@, body@) == Err::<Seq<u8>, HttpError>(e),
        },
{
    let word = match second_word(head) {
        Some(word) => word,
        None => {
            return Err(HttpError::BadStatus);
        },
    };
    let status: u16 = match parse_unsigned(&word, 10, u16::MAX as u64) {
        Some(n) => n as u16,
        None => {
            return Err(HttpError::BadStatus);
        },
    };
    if status != 200 {
        Err(HttpError::Peer(status))
    } else if contains(head, "transfer-encoding: chunked") {
        Ok(dechunk(body))
    } else {
        Ok(slice_to_vec(body))
    }
}

/// What the bytes of a whole reply give.
pub open spec fn response_of(raw: Seq<u8>) -> Result<Seq<u8>, HttpError> {
    match first_at(raw, head_end()) {
        None => Err(HttpError::NoTerminator),
        Some(sep) => reply_of(
            lower_text(bytes_text(raw.take(sep as int))),
            raw.skip(sep as int + 4),
        ),
    }
}

/// Reads the bytes of a whole reply.
pub fn read_response(raw: &[u8]) -> (r: Result<Vec<u8>, HttpError>)
    ensures
        match r {
            Ok(data) => response_of(raw@) == Ok::<Seq<u8>, HttpError>(data@),
            Err(e) => response_of(raw@) == Err::<Seq<u8>, HttpError>(e),
        },
{
    let end = [0x0du8, 0x0au8, 0x0du8, 0x0au8];
    assert(end@ == head_end());
    assert(raw@.skip(0) == raw@);
    match find(raw, 0, &end) {
        None => Err(HttpError::NoTerminator),
        Some(sep) => {
            let first = slice_subrange(raw, 0, sep);
            assert(first@ == raw@.take(sep as int));
            let head = lossy(first).to_lowercase();
            let n = raw.len();
            assert(end@.len() == 4);
            let body = slice_subrange(raw, sep + 4, n);
            assert(body@ == raw@.skip(sep + 4));
            read_reply(&head, body)
        },
    }
}

/// A body in chunks as a peer sends it: before each chunk the line with its size, behind
/// it the end of a line; then the line of the last chunk, which is empty.
pub open spec fn chunked(lines: Seq<Seq<u8>>, chunks: Seq<Seq<u8>>) -> Seq<u8>
    decreases chunks.len(),
{
    if chunks.len() == 0 {
        lines[0] + crlf()
    } else {
        lines[0] + crlf() + chunks[0] + crlf() + chunked(lines.drop_first(), chunks.drop_first())
    }
}

/// A line that gives this size.
pub open spec fn gives_size(line: Seq<u8>, n: nat) -> bool {
    &&& chunk_size(line) == Some(n)
    &&& forall|i: int| 0 <= i < line.len() ==> #[trigger] line[i] != 0x0d
}

/// Each chunk holds something and has a line with its size; one more line gives zero.
pub open spec fn lines_fit(lines: Seq<Seq<u8>>, chunks: Seq<Seq<u8>>) -> bool {
    &&& lines.len() == chunks.len() + 1
    &&& gives_size(lines.last(), 0)
    &&& forall|i: int|
        0 <= i < chunks.len() ==> (#[trigger] chunks[i]).len() > 0 && gives_size(
            lines[i],
            chunks[i].len(),
        )
}

proof fn lemma_first_crlf(line: Seq<u8>, rest: Seq<u8>)
    requires
        forall|i: int| 0 <= i < line.len() ==> #[trigger] line[i] != 0x0d,
    ensures
        first_at(line + crlf() + rest, crlf()) == Some(line.len()),
    decreases line.len(),
{
    let s = line + crlf() + rest;
    if line.len() == 0 {
        assert(s.subrange(0, 2) =~= crlf());
    } else {
        assert(s[0] == line[0]);
        if crlf().is_prefix_of(s) {
            assert(s.subrange(0, 2)[0] == crlf()[0]);
        }
        assert(s.skip(1) =~= line.skip(1) + crlf() + rest);
        lemma_first_crlf(line.skip(1), rest);
    }
}

proof fn lemma_before_semicolon(s: Seq<char>, tail: Seq<char>)
    requires
        forall|i: int| 0 <= i < s.len() ==> #[trigger] s[i] != ';',
        tail.len() > 0 ==> tail[0] == ';',
    ensures
        before_semicolon(s + tail) == s,
    decreases s.len(),
{
    if s.len() == 0 {
        assert(s + tail =~= tail);
    } else {
        assert(s[0] != ';');
        assert((s + tail).skip(1) =~= s.skip(1) + tail);
        lemma_before_semicolon(s.skip(1), tail);
        assert(s =~= seq![s[0]] + s.skip(1));
    }
}

/// Digits of base 16, in either case, give their number as the size of a chunk; so they
/// do with anything behind a `;` that ends no line.
pub proof fn law_sizes_are_read(digits: Seq<char>, extension: Seq<char>)
    requires
        digits.len() > 0,
        forall|i: int| 0 <= i < digits.len() ==> is_hex(#[trigger] digits[i]),
        extension.len() > 0 ==> extension[0] == ';',
        is_ascii_chars(extension),
        !extension.contains('\r'),
    ensures
        digits_value(digits, 16) is Some,
        gives_size(encode_utf8(digits + extension), digits_value(digits, 16)->0),
{
    let s = digits + extension;
    lemma_hex_digits(digits);
    assert(is_ascii_chars(s)) by {
        assert forall|i: int| 0 <= i < s.len() implies '\0' <= #[trigger] s[i] <= '\u{7f}' by {
            if i < digits.len() {
                assert(is_hex(digits[i]));
            } else {
                assert(s[i] == extension[i - digits.len()]);
            }
        }
    }
    is_ascii_chars_encode_utf8(s);
    encode_utf8_valid_utf8(s);
    encode_utf8_decode_utf8(s);
    assert forall|i: int| 0 <= i < digits.len() implies #[trigger] digits[i] != ';' by {
        assert(is_hex(digits[i]));
    }
    lemma_before_semicolon(digits, extension);
    assert(is_hex(digits[0]));
    assert(is_hex(digits.last()));
    assert(trimmed(digits) == digits);
    assert forall|i: int| 0 <= i < encode_utf8(s).len() implies #[trigger] encode_utf8(s)[i]
        != 0x0d by {
        assert(encode_utf8(s)[i] == s[i] as u8);
        if i < digits.len() {
            assert(is_hex(digits[i]));
        } else {
            assert(s[i] == extension[i - digits.len()]);
            assert(extension.contains(s[i]));
        }
    }
}

proof fn lemma_hex_digits(s: Seq<char>)
    requires
        forall|i: int| 0 <= i < s.len() ==> is_hex(#[trigger] s[i]),
    ensures
        digits_value(s, 16) is Some,
    decreases s.len(),
{
    if s.len() > 0 {
        assert(is_hex(s.last()));
        assert forall|i: int| 0 <= i < s.len() - 1 implies is_hex(#[trigger] s.drop_last()[i]) by {
            assert(s.drop_last()[i] == s[i]);
        }
        lemma_hex_digits(s.drop_last());
    }
}

/// What a peer sends in chunks, none of them empty, comes out whole, whatever follows the
/// last chunk.
pub proof fn law_dechunk_undoes_chunking(
    lines: Seq<Seq<u8>>,
    chunks: Seq<Seq<u8>>,
    trailer: Seq<u8>,
)
    requires
        lines_fit(lines, chunks),
    ensures
        dechunked(chunked(lines, chunks) + trailer) == chunks.flatten(),
    decreases chunks.len(),
{
    let body = chunked(lines, chunks) + trailer;
    let line = lines[0];
    if chunks.len() == 0 {
        assert(body =~= line + crlf() + trailer);
        lemma_first_crlf(line, trailer);
        assert(body.take(line.len() as int) =~= line);
    } else {
        let data = chunks[0];
        let next = chunks.drop_first();
        let more = lines.drop_first();
        let tail = chunked(more, next) + trailer;
        let rest = data + crlf() + tail;
        assert(body =~= line + crlf() + rest);
        assert(gives_size(line, data.len()));
        lemma_first_crlf(line, rest);
        assert(body.take(line.len() as int) =~= line);
        assert forall|i: int| 0 <= i < next.len() implies (#[trigger] next[i]).len() > 0
            && gives_size(more[i], next[i].len()) by {
            assert(next[i] == chunks[i + 1]);
            assert(more[i] == lines[i + 1]);
        }
        assert(more.last() == lines.last());
        law_dechunk_undoes_chunking(more, next, trailer);
        let end = (line.len() + 2 + data.len()) as int;
        assert(body.subrange(end - data.len(), end) =~= data);
        assert(body.skip(end + 2) =~= tail);
        assert(chunks.flatten() =~= data + next.flatten());
    }
}

/// A reply with an ASCII head, whose first empty line ends it, gives its body
/// back where its status is 200: as it is, or without its chunks.
pub proof fn law_reply_gives_body_back(
    head: Seq<char>,
    body: Seq<u8>,
    lines: Seq<Seq<u8>>,
    chunks: Seq<Seq<u8>>,
    trailer: Seq<u8>,
)
    requires
        is_ascii_chars(head),
        status_of(lowered(head)) == Some(200u16),
        first_at(encode_utf8(head) + head_end() + body, head_end()) == Some(head.len()),
        lines_fit(lines, chunks),
    ensures
        !has_text(lowered(head), "transfer-encoding: chunked"@) ==> response_of(
            encode_utf8(head) + head_end() + body,
        ) == Ok::<Seq<u8>, HttpError>(body),
        has_text(lowered(head), "transfer-encoding: chunked"@) && body == chunked(lines, chunks)
            + trailer
            ==> response_of(encode_utf8(head) + head_end() + body) == Ok::<Seq<u8>, HttpError>(
            chunks.flatten(),
        ),
{
    let raw = encode_utf8(head) + head_end() + body;
    is_ascii_chars_encode_utf8(head);
    encode_utf8_valid_utf8(head);
    encode_utf8_decode_utf8(head);
    assert(raw.take(head.len() as int) =~= encode_utf8(head));
    assert(raw.skip(head.len() as int + 4) =~= body);
    law_dechunk_undoes_chunking(lines, chunks, trailer);
}

/// Where something first stands: it stands there, and nowhere before; where it stands
/// nowhere, there is no such place.
pub proof fn law_first_place(s: Seq<u8>, p: Seq<u8>)
    ensures
        match first_at(s, p) {
            Some(i) => {
                &&& i + p.len() <= s.len()
                &&& s.subrange(i as int, i as int + p.len()) == p
                &&& forall|k: int| 0 <= k < i ==> #[trigger] s.subrange(k, k + p.len()) != p
            },
            None => forall|k: int|
                0 <= k <= s.len() - p.len() ==> #[trigger] s.subrange(k, k + p.len()) != p,
        },
    decreases s.len(),
{
    if p.is_prefix_of(s) {
        assert(s.subrange(0, 0 + p.len() as int) =~= p);
    } else {
        if p.len() <= s.len() {
            assert(s.subrange(0, p.len() as int) != p);
        }
        if s.len() > 0 {
            let t = s.skip(1);
            law_first_place(t, p);
            match first_at(t, p) {
                Some(i) => {
                    let at = i as int;
                    assert(s.subrange(at + 1, at + 1 + p.len()) =~= t.subrange(
                        at,
                        at + p.len(),
                    ));
                    assert forall|k: int| 0 <= k < i + 1 implies #[trigger] s.subrange(
                        k,
                        k + p.len(),
                    ) != p by {
                        if k > 0 {
                            assert(s.subrange(k, k + p.len()) =~= t.subrange(
                                k - 1,
                                k - 1 + p.len(),
                            ));
                        }
                    }
                },
                None => {
                    assert forall|k: int|
                        0 <= k <= s.len() - p.len() implies #[trigger] s.subrange(k, k + p.len())
                        != p by {
                        if k > 0 {
                            assert(s.subrange(k, k + p.len()) =~= t.subrange(
                                k - 1,
                                k - 1 + p.len(),
                            ));
                        }
                    }
                },
            }
        }
    }
}

/// A chunk and what follows it come out as its data and what comes of the rest, whether or
/// not a line ends behind it.
pub proof fn law_chunk_comes_out(line: Seq<u8>, data: Seq<u8>, rest: Seq<u8>)
    requires
        data.len() > 0,
        gives_size(line, data.len()),
    ensures
        dechunked(line + crlf() + data + crlf() + rest) == data + dechunked(rest),
        dechunked(line + crlf() + data) == data,
{
    let body = line + crlf() + data + crlf() + rest;
    assert(body =~= line + crlf() + (data + crlf() + rest));
    lemma_first_crlf(line, data + crlf() + rest);
    assert(body.take(line.len() as int) =~= line);
    let end = (line.len() + 2 + data.len()) as int;
    assert(body.subrange(end - data.len(), end) =~= data);
    assert(body.skip(end + 2) =~= rest);
    let short = line + crlf() + data;
    lemma_first_crlf(line, data);
    assert(short.take(line.len() as int) =~= line);
    assert(short.subrange(end - data.len(), end) =~= data);
    assert(short.skip(end) =~= Seq::<u8>::empty());
    assert(crlf().len() == 2);
    assert(dechunked(Seq::<u8>::empty()) =~= Seq::<u8>::empty());
    assert(data + Seq::<u8>::empty() =~= data);
}

/// The chunks end with the empty one, with a line that gives no size, with a chunk that is
/// cut off, and where no line ends: whatever stands there, nothing more comes out.
pub proof fn law_chunks_end(line: Seq<u8>, rest: Seq<u8>, body: Seq<u8>)
    ensures
        (forall|i: int| 0 <= i < line.len() ==> #[trigger] line[i] != 0x0d) && (match chunk_size(
            line,
        ) {
            None => true,
            Some(n) => n == 0 || n > rest.len(),
        }) ==> dechunked(line + crlf() + rest).len() == 0,
        (forall|k: int| 0 <= k <= body.len() - 2 ==> #[trigger] body.subrange(k, k + 2) != crlf())
            ==> dechunked(body).len() == 0,
{
    if forall|i: int| 0 <= i < line.len() ==> #[trigger] line[i] != 0x0d {
        lemma_first_crlf(line, rest);
        assert((line + crlf() + rest).take(line.len() as int) =~= line);
    }
    law_first_place(body, crlf());
    if forall|k: int| 0 <= k <= body.len() - 2 ==> #[trigger] body.subrange(k, k + 2) != crlf() {
        match first_at(body, crlf()) {
            Some(i) => {
                assert(body.subrange(i as int, i as int + 2) != crlf());
            },
            None => {},
        }
    }
}

/// A line that is no text stands for the last chunk.
pub proof fn law_line_that_is_no_text(line: Seq<u8>)
    requires
        !valid_utf8(line),
    ensures
        chunk_size(line) == Some(0nat),
{
}

/// The status of a reply is the number behind the first word of its head, in decimal: every
/// number of 16 bits is read, and a larger one is none.
pub proof fn law_status_is_read(protocol: Seq<char>, gap: Seq<char>, n: nat, tail: Seq<char>)
    requires
        protocol.len() > 0,
        none_white(protocol),
        gap.len() > 0,
        all_white(gap),
        tail.len() == 0 || crate::text::is_white(tail[0]),
    ensures
        n <= u16::MAX ==> status_of(protocol + gap + decimal_text(n) + tail) == Some(n as u16),
        n > u16::MAX ==> status_of(protocol + gap + decimal_text(n) + tail) is None,
{
    let none = Seq::<char>::empty();
    lemma_decimal_is_a_word(n);
    law_second_word(none, protocol, gap, decimal_text(n), tail);
    assert(none + protocol + gap + decimal_text(n) + tail =~= protocol + gap + decimal_text(n)
        + tail);
    law_numbers_are_read_back(n);
}

proof fn lemma_decimal_is_a_word(n: nat)
    ensures
        decimal_text(n).len() > 0,
        none_white(decimal_text(n)),
    decreases n,
{
    assert(!crate::text::is_white(crate::text::digit_char(n % 10)));
    if n >= 10 {
        lemma_decimal_is_a_word(n / 10);
    }
}

/// A head without a second word has no status.
pub proof fn law_status_that_is_missing(head: Seq<char>, gap: Seq<char>, body: Seq<u8>)
    requires
        head.len() > 0,
        none_white(head),
        all_white(gap),
    ensures
        status_of(head + gap) is None,
        reply_of(head + gap, body) == Err::<Seq<u8>, HttpError>(HttpError::BadStatus),
{
    let none = Seq::<char>::empty();
    law_second_word(none, head, gap, none, none);
    assert(none + head + gap + none + none =~= head + gap);
}

/// A reply gives its body only with the status 200: whole where its head does not speak of
/// chunks, and without them where it does. With any other status it gives that status, and
/// without an end of its head nothing.
pub proof fn law_reply_is_read(head: Seq<char>, body: Seq<u8>, raw: Seq<u8>, status: u16)
    requires
        status_of(head) == Some(status),
    ensures
        status != 200 ==> reply_of(head, body) == Err::<Seq<u8>, HttpError>(
            HttpError::Peer(status),
        ),
        status == 200 && !has_text(head, "transfer-encoding: chunked"@) ==> reply_of(head, body)
            == Ok::<Seq<u8>, HttpError>(body),
        status == 200 && has_text(head, "transfer-encoding: chunked"@) ==> reply_of(head, body)
            == Ok::<Seq<u8>, HttpError>(dechunked(body)),
        (forall|k: int|
            0 <= k <= raw.len() - 4 ==> #[trigger] raw.subrange(k, k + 4) != head_end())
            ==> response_of(raw) == Err::<Seq<u8>, HttpError>(HttpError::NoTerminator),
{
    law_first_place(raw, head_end());
    if forall|k: int|
        0 <= k <= raw.len() - 4 ==> #[trigger] raw.subrange(k, k + 4) != head_end() {
        match first_at(raw, head_end()) {
            Some(i) => {
                assert(raw.subrange(i as int, i as int + 4) != head_end());
            },
            None => {},
        }
    }
}

/// A reply is cut at the first empty line: what stands before it is the head, and all that
/// stands behind it the body.
pub proof fn law_reply_is_cut(head: Seq<u8>, body: Seq<u8>)
    requires
        first_at(head + head_end() + body, head_end()) == Some(head.len()),
    ensures
        response_of(head + head_end() + body) == reply_of(lower_text(bytes_text(head)), body),
{
    let raw = head + head_end() + body;
    assert(raw.take(head.len() as int) =~= head);
    assert(raw.skip(head.len() as int + 4) =~= body);
}

/// What is asked of a peer: the path in the first line, the peer in the line of the host,
/// that the connection be closed, and an empty line at the end.
pub proof fn law_request_names_peer_and_path(hostport: Seq<char>, path: Seq<char>)
    ensures
        request_of(hostport, path) == "GET "@ + path + " HTTP/1.1\r\nHost: "@ + hostport
            + "\r\nConnection: close\r\n\r\n"@,
{
}

/// Why a reply cannot be used, in words.
pub proof fn law_errors_in_words(status: u16)
    ensures
        HttpError::NoTerminator.words() == "bad http: no header terminator"@,
        HttpError::BadStatus.words() == "bad http: status line"@,
        HttpError::Peer(status).words() == "peer http "@ + decimal_text(status as nat),
{
}

/// The size in a line is the number of base 16 before the first `;`, with white space
/// around it or not; without a number there is none.
pub proof fn law_size_of_a_line(size: Seq<char>, extension: Seq<char>)
    requires
        !size.contains(';'),
        extension.len() > 0 ==> extension[0] == ';',
    ensures
        chunk_size(encode_utf8(size + extension)) == unsigned_value(trimmed(size), 16),
{
    let s = size + extension;
    encode_utf8_valid_utf8(s);
    encode_utf8_decode_utf8(s);
    assert forall|i: int| 0 <= i < size.len() implies #[trigger] size[i] != ';' by {
        assert(size.contains(size[i]));
    }
    lemma_before_semicolon(size, extension);
}

} // verus!
