//! Text as sequences of characters: trimming, searching, replacing, and
//! numbers written in digits.

use vstd::prelude::*;
use vstd::string::*;
use vstd::utf8::*;

verus! {

/// `String::push` appends the character at the end.
pub assume_specification[ String::push ](s: &mut String, c: char)
    ensures
        final(s)@ == old(s)@.push(c),
;

/// `core::str::Utf8Error`, which says where bytes stop being UTF-8; opaque here.
#[verifier::external_type_specification]
#[verifier::external_body]
pub struct ExUtf8Error(core::str::Utf8Error);

/// `core::str::from_utf8`: the text that the bytes encode, if they are UTF-8.
pub assume_specification<'a>[ core::str::from_utf8 ](v: &'a [u8]) -> (r: Result<
    &'a str,
    core::str::Utf8Error,
>)
    ensures
        match r {
            Ok(s) => valid_utf8(v@) && s@ == decode_utf8(v@),
            Err(_) => !valid_utf8(v@),
        },
;

/// What `String::from_utf8_lossy` reads from bytes.
pub uninterp spec fn utf8_lossy(bytes: Seq<u8>) -> Seq<char>;

/// The text of bytes: what they encode, or, where they are not UTF-8, what is
/// read from them all the same.
pub open spec fn bytes_text(bytes: Seq<u8>) -> Seq<char> {
    if valid_utf8(bytes) {
        decode_utf8(bytes)
    } else {
        utf8_lossy(bytes)
    }
}

/// `String::from_utf8_lossy`: of UTF-8 it is the text that the bytes encode; what
/// is read from other bytes is named, not stated.
#[verifier::external_body]
pub(crate) fn lossy(bytes: &[u8]) -> (r: String)
    ensures
        valid_utf8(bytes@) ==> r@ == decode_utf8(bytes@),
        r@ == utf8_lossy(bytes@),
{
    String::from_utf8_lossy(bytes).into_owned()
}

/// What `str::to_lowercase` makes of a text.
pub uninterp spec fn lowercase(s: Seq<char>) -> Seq<char>;

/// The text in lower case: of ASCII only the capital letters change.
pub open spec fn lower_text(s: Seq<char>) -> Seq<char> {
    if is_ascii_chars(s) {
        lowered(s)
    } else {
        lowercase(s)
    }
}

/// A capital of the Latin alphabet as its small letter; any other character as
/// it is.
pub open spec fn lower_char(c: char) -> char {
    if 'A' <= c <= 'Z' {
        (c as u32 + 0x20) as char
    } else {
        c
    }
}

/// The text with the capitals of the Latin alphabet as small letters.
pub open spec fn lowered(s: Seq<char>) -> Seq<char> {
    s.map_values(|c: char| lower_char(c))
}

/// `str::to_lowercase`: the lower case of each character by Unicode's tables,
/// which are named, not stated. In ASCII only the capital letters change.
pub assume_specification[ str::to_lowercase ](s: &str) -> (r: String)
    ensures
        r@ == lowercase(s@),
        is_ascii_chars(s@) ==> r@ == lowered(s@),
;

/// The characters of a string, in order.
pub fn chars_of(s: &str) -> (r: Vec<char>)
    ensures
        r@ == s@,
{
    let mut out: Vec<char> = Vec::new();
    for c in it: s.chars()
        invariant
            out@ == it.seq().take(it.index() as int),
            it.seq() == s@,
    {
        out.push(c);
        assert(out@ == it.seq().take(it.index() + 1));
    }
    out
}

/// Writes the capitals of the Latin alphabet as small letters.
pub fn lower(s: &str) -> (r: String)
    ensures
        r@ == lowered(s@),
{
    let v = chars_of(s);
    let mut out = String::new();
    let mut i: usize = 0;
    while i < v.len()
        invariant
            i <= v@.len(),
            v@ == s@,
            out@ == lowered(s@.take(i as int)),
        decreases v@.len() - i,
    {
        let c = v[i];
        if 'A' <= c && c <= 'Z' {
            out.push((c as u8 + 0x20) as char);
        } else {
            out.push(c);
        }
        i += 1;
        assert(out@ == lowered(s@.take(i as int)));
    }
    assert(s@.take(i as int) == s@);
    out
}

/// The two texts one after the other.
pub fn cat(a: &str, b: &str) -> (r: String)
    ensures
        r@ == a@ + b@,
{
    let mut out = a.to_owned();
    out.append(b);
    out
}

/// The three texts one after the other.
pub fn cat3(a: &str, b: &str, c: &str) -> (r: String)
    ensures
        r@ == a@ + b@ + c@,
{
    let mut out = a.to_owned();
    out.append(b);
    out.append(c);
    out
}

/// Whether two texts are the same.
pub fn same(a: &str, b: &str) -> (r: bool)
    ensures
        r == (a@ == b@),
{
    let x = chars_of(a);
    let y = chars_of(b);
    assert(x@.subrange(0, x@.len() as int) == x@);
    x.len() == y.len() && matches_at(&x, 0, &y)
}

/// Whether two pieces of data are the same.
pub fn same_bytes(a: &[u8], b: &[u8]) -> (r: bool)
    ensures
        r == (a@ == b@),
{
    if a.len() != b.len() {
        return false;
    }
    let mut i: usize = 0;
    while i < a.len()
        invariant
            a@.len() == b@.len(),
            i <= a@.len(),
            forall|k: int| 0 <= k < i ==> a@[k] == b@[k],
        decreases a@.len() - i,
    {
        if a[i] != b[i] {
            return false;
        }
        i += 1;
    }
    assert(a@ =~= b@);
    true
}

/// Two texts one after the other take the bytes of both.
pub proof fn lemma_encode_concat(a: Seq<char>, b: Seq<char>)
    ensures
        encode_utf8(a + b) == encode_utf8(a) + encode_utf8(b),
    decreases a.len(),
{
    if a.len() == 0 {
        assert(a + b =~= b);
        assert(encode_utf8(a) + encode_utf8(b) =~= encode_utf8(b));
    } else {
        assert((a + b).drop_first() =~= a.drop_first() + b);
        lemma_encode_concat(a.drop_first(), b);
        assert(encode_utf8(a + b) =~= encode_utf8(a) + encode_utf8(b));
    }
}

/// Whether `p` stands in `v` at position `i`.
pub fn matches_at(v: &[char], i: usize, p: &[char]) -> (r: bool)
    ensures
        r == (i + p@.len() <= v@.len() && v@.subrange(i as int, i + p@.len()) == p@),
{
    let n = v.len();
    if i > n || n - i < p.len() {
        return false;
    }
    let mut k: usize = 0;
    while k < p.len()
        invariant
            n == v@.len(),
            i + p@.len() <= n,
            k <= p@.len(),
            forall|j: int| 0 <= j < k ==> v@[i + j] == p@[j],
        decreases p@.len() - k,
    {
        if v[i + k] != p[k] {
            assert(v@.subrange(i as int, i + p@.len())[k as int] != p@[k as int]);
            return false;
        }
        k += 1;
    }
    assert(v@.subrange(i as int, i + p@.len()) =~= p@);
    true
}

/// Whether a text begins with another.
pub fn starts_with(s: &str, p: &str) -> (r: bool)
    ensures
        r == p@.is_prefix_of(s@),
{
    matches_at(&chars_of(s), 0, &chars_of(p))
}

/// Whether a text ends with another.
pub fn ends_with(s: &str, p: &str) -> (r: bool)
    ensures
        r == p@.is_suffix_of(s@),
{
    let v = chars_of(s);
    let w = chars_of(p);
    v.len() >= w.len() && matches_at(&v, v.len() - w.len(), &w)
}

/// `p` stands somewhere in `s`.
pub open spec fn has_text(s: Seq<char>, p: Seq<char>) -> bool {
    exists|i: int|
        0 <= i && i + p.len() <= s.len() && #[trigger] s.subrange(i, i + p.len()) == p
}

/// Whether a text holds another.
pub fn contains(s: &str, p: &str) -> (r: bool)
    ensures
        r == has_text(s@, p@),
{
    let v = chars_of(s);
    let w = chars_of(p);
    if v.len() < w.len() {
        return false;
    }
    let mut i: usize = 0;
    while i <= v.len() - w.len()
        invariant
            v@ == s@,
            w@ == p@,
            w@.len() <= v@.len(),
            i <= v@.len() - w@.len() + 1,
            forall|k: int| 0 <= k < i ==> #[trigger] v@.subrange(k, k + w@.len()) != w@,
        decreases v@.len() + 1 - i,
    {
        if matches_at(&v, i, &w) {
            return true;
        }
        if i == v.len() - w.len() {
            return false;
        }
        i += 1;
    }
    false
}

/// The text without the prefix `p`, taken off as often as it stands there.
pub open spec fn stripped_start(s: Seq<char>, p: Seq<char>) -> Seq<char>
    decreases s.len(),
{
    if p.len() > 0 && p.is_prefix_of(s) {
        stripped_start(s.skip(p.len() as int), p)
    } else {
        s
    }
}

/// Takes the prefix `p` off as often as it stands there.
pub fn strip_start(s: &str, p: &str) -> (r: String)
    ensures
        r@ == stripped_start(s@, p@),
{
    let v = chars_of(s);
    let w = chars_of(p);
    let n = v.len();
    let mut i: usize = 0;
    assert(v@.skip(0) == v@);
    while w.len() > 0 && matches_at(&v, i, &w)
        invariant
            n == v@.len(),
            i <= n,
            v@ == s@,
            w@ == p@,
            stripped_start(s@, p@) == stripped_start(v@.skip(i as int), p@),
        decreases v@.len() - i,
    {
        assert(v@.skip(i as int).subrange(0, w@.len() as int) == v@.subrange(
            i as int,
            i + w@.len(),
        ));
        assert(v@.skip(i as int).skip(w@.len() as int) == v@.skip(i + w@.len()));
        i += w.len();
    }
    assert(v@.skip(i as int).len() >= w@.len() ==> v@.skip(i as int).subrange(0, w@.len() as int)
        == v@.subrange(i as int, i + w@.len()));
    s.substring_char(i, n).to_owned()
}

/// The text without the characters `c` at its end.
pub open spec fn stripped_end(s: Seq<char>, c: char) -> Seq<char>
    decreases s.len(),
{
    if s.len() > 0 && s.last() == c {
        stripped_end(s.drop_last(), c)
    } else {
        s
    }
}

/// Takes the characters `c` off the end.
pub fn strip_end(s: &str, c: char) -> (r: String)
    ensures
        r@ == stripped_end(s@, c),
{
    let v = chars_of(s);
    let mut n: usize = v.len();
    assert(v@.take(n as int) == v@);
    while n > 0 && v[n - 1] == c
        invariant
            n <= v@.len(),
            v@ == s@,
            stripped_end(s@, c) == stripped_end(v@.take(n as int), c),
        decreases n,
    {
        assert(v@.take(n as int).drop_last() == v@.take(n - 1));
        n -= 1;
    }
    s.substring_char(0, n).to_owned()
}

/// The text with each occurrence of `p` replaced by `w`, from the left and
/// without overlap.
pub open spec fn replaced(s: Seq<char>, p: Seq<char>, w: Seq<char>) -> Seq<char>
    decreases s.len(),
{
    if p.len() == 0 || s.len() == 0 {
        s
    } else if p.is_prefix_of(s) {
        w + replaced(s.skip(p.len() as int), p, w)
    } else {
        seq![s[0]] + replaced(s.skip(1), p, w)
    }
}

/// A text that does not hold `p` stays as it is.
pub proof fn lemma_replaced_without(s: Seq<char>, p: Seq<char>, w: Seq<char>)
    requires
        !has_text(s, p),
    ensures
        replaced(s, p, w) == s,
    decreases s.len(),
{
    if p.len() > 0 && s.len() > 0 {
        if p.is_prefix_of(s) {
            assert(s.subrange(0, 0 + p.len() as int) == p);
            assert(has_text(s, p));
        }
        let t = s.skip(1);
        if has_text(t, p) {
            let i = choose|i: int|
                0 <= i && i + p.len() <= t.len() && #[trigger] t.subrange(i, i + p.len()) == p;
            assert(s.subrange(i + 1, i + 1 + p.len()) == t.subrange(i, i + p.len()));
            assert(has_text(s, p));
        }
        lemma_replaced_without(t, p, w);
        assert(seq![s[0]] + t == s);
    }
}

/// A text that is put in for another: with a `/`, and without braces.
pub open spec fn is_filling(w: Seq<char>) -> bool {
    w.contains('/') && !w.contains('{') && !w.contains('}')
}

/// A place to be filled: it begins and ends with a brace, and has no `/`.
pub open spec fn is_place(q: Seq<char>) -> bool {
    q.len() > 0 && q[0] == '{' && q.last() == '}' && !q.contains('/')
}

proof fn lemma_replaced_prefix(s: Seq<char>, p: Seq<char>, w: Seq<char>, u: Seq<char>)
    requires
        is_filling(w),
        p.len() > 0,
        u.is_prefix_of(replaced(s, p, w)),
        u.len() > 0 ==> u.last() == '}',
        !u.contains('/'),
    ensures
        u.is_prefix_of(s),
    decreases s.len(),
{
    let t = replaced(s, p, w);
    if u.len() > 0 && s.len() > 0 {
        if p.is_prefix_of(s) {
            if u.len() <= w.len() {
                assert(u.last() == t[u.len() - 1]);
                assert(w.contains(u.last()));
            } else {
                let k = choose|k: int| 0 <= k < w.len() && w[k] == '/';
                assert(u[k] == t[k]);
                assert(u.contains('/'));
            }
        } else {
            let v = u.skip(1);
            assert(u[0] == t[0]);
            assert(t.skip(1) =~= replaced(s.skip(1), p, w));
            assert(v =~= t.skip(1).subrange(0, v.len() as int)) by {
                assert(u =~= t.subrange(0, u.len() as int));
            }
            assert forall|c: char| v.contains(c) implies u.contains(c) by {
                let k = choose|k: int| 0 <= k < v.len() && v[k] == c;
                assert(u[k + 1] == c);
            }
            lemma_replaced_prefix(s.skip(1), p, w, v);
            assert(u =~= s.subrange(0, u.len() as int)) by {
                assert(v =~= s.skip(1).subrange(0, v.len() as int));
                assert forall|i: int| 0 <= i < u.len() implies u[i] == s[i] by {
                    if i > 0 {
                        assert(u[i] == v[i - 1]);
                    }
                }
            }
        }
    }
}

/// Filling a place makes no new ones: the text holds afterwards no place that it did not
/// hold before, and not the one that was filled.
pub proof fn lemma_replaced_makes_no_place(s: Seq<char>, p: Seq<char>, w: Seq<char>, q: Seq<char>)
    requires
        is_filling(w),
        p.len() > 0,
        is_place(q),
        has_text(replaced(s, p, w), q),
    ensures
        has_text(s, q),
        p != q,
    decreases s.len(),
{
    let t = replaced(s, p, w);
    let i = choose|i: int|
        0 <= i && i + q.len() <= t.len() && #[trigger] t.subrange(i, i + q.len()) == q;
    assert(t[i] == t.subrange(i, i + q.len())[0]);
    if s.len() > 0 {
        if p.is_prefix_of(s) {
            let rest = s.skip(p.len() as int);
            let r = replaced(rest, p, w);
            if i < w.len() {
                assert(t[i] == w[i]);
                assert(w.contains('{'));
            }
            let j = i - w.len();
            assert(r.subrange(j, j + q.len()) =~= t.subrange(i, i + q.len()));
            assert(has_text(r, q));
            lemma_replaced_makes_no_place(rest, p, w, q);
            let k = choose|k: int|
                0 <= k && k + q.len() <= rest.len() && #[trigger] rest.subrange(k, k + q.len())
                    == q;
            assert(s.subrange(k + p.len(), k + p.len() + q.len()) =~= rest.subrange(
                k,
                k + q.len(),
            ));
        } else if i == 0 {
            assert(q.is_prefix_of(t));
            assert(t[0] == s[0]);
            let v = q.skip(1);
            let r = replaced(s.skip(1), p, w);
            assert(t.skip(1) =~= r);
            assert(v =~= r.subrange(0, v.len() as int)) by {
                assert(q =~= t.subrange(0, q.len() as int));
            }
            assert forall|c: char| v.contains(c) implies q.contains(c) by {
                let k = choose|k: int| 0 <= k < v.len() && v[k] == c;
                assert(q[k + 1] == c);
            }
            lemma_replaced_prefix(s.skip(1), p, w, v);
            assert(q =~= s.subrange(0, 0 + q.len() as int)) by {
                assert(v =~= s.skip(1).subrange(0, v.len() as int));
                assert forall|k: int| 0 <= k < q.len() implies q[k] == s[k] by {
                    if k > 0 {
                        assert(q[k] == v[k - 1]);
                    }
                }
            }
            assert(has_text(s, q));
        } else {
            let rest = s.skip(1);
            let r = replaced(rest, p, w);
            assert(r.subrange(i - 1, i - 1 + q.len()) =~= t.subrange(i, i + q.len()));
            assert(has_text(r, q));
            lemma_replaced_makes_no_place(rest, p, w, q);
            let k = choose|k: int|
                0 <= k && k + q.len() <= rest.len() && #[trigger] rest.subrange(k, k + q.len())
                    == q;
            assert(s.subrange(k + 1, k + 1 + q.len()) =~= rest.subrange(k, k + q.len()));
        }
    }
}

/// Replaces each occurrence of `p` by `w`.
pub fn replace(s: &str, p: &str, w: &str) -> (r: String)
    requires
        p@.len() > 0,
    ensures
        r@ == replaced(s@, p@, w@),
{
    let v = chars_of(s);
    let q = chars_of(p);
    let mut out = String::new();
    let mut i: usize = 0;
    assert(v@.skip(0) == v@);
    while i < v.len()
        invariant
            i <= v@.len(),
            v@ == s@,
            q@ == p@,
            p@.len() > 0,
            replaced(s@, p@, w@) == out@ + replaced(v@.skip(i as int), p@, w@),
        decreases v@.len() - i,
    {
        let ghost rest = v@.skip(i as int);
        proof {
            if rest.len() >= q@.len() {
                assert(rest.subrange(0, q@.len() as int) == v@.subrange(i as int, i + q@.len()));
                assert(rest.skip(q@.len() as int) == v@.skip(i + q@.len()));
            }
            assert(rest.skip(1) == v@.skip(i + 1));
        }
        if matches_at(&v, i, &q) {
            assert(q@.is_prefix_of(rest));
            let ghost before = out@;
            out.append(w);
            i += q.len();
            assert(out@ + replaced(v@.skip(i as int), p@, w@) == before + (w@ + replaced(
                v@.skip(i as int),
                p@,
                w@,
            )));
        } else {
            assert(!q@.is_prefix_of(rest));
            let ghost before = out@;
            out.push(v[i]);
            i += 1;
            assert(out@ + replaced(v@.skip(i as int), p@, w@) == before + (seq![rest[0]]
                + replaced(v@.skip(i as int), p@, w@)));
        }
    }
    assert(v@.skip(i as int) == Seq::<char>::empty());
    assert(out@ == replaced(s@, p@, w@));
    out
}

/// The characters with the Unicode property `White_Space`.
pub open spec fn is_white(c: char) -> bool {
    let u = c as u32;
    ||| 0x9 <= u <= 0xd
    ||| u == 0x20
    ||| u == 0x85
    ||| u == 0xa0
    ||| u == 0x1680
    ||| 0x2000 <= u <= 0x200a
    ||| u == 0x2028
    ||| u == 0x2029
    ||| u == 0x202f
    ||| u == 0x205f
    ||| u == 0x3000
}

/// Whether a character is white space.
pub fn white(c: char) -> (r: bool)
    ensures
        r == is_white(c),
{
    let u = c as u32;
    (0x9 <= u && u <= 0xd) || u == 0x20 || u == 0x85 || u == 0xa0 || u == 0x1680 || (0x2000 <= u
        && u <= 0x200a) || u == 0x2028 || u == 0x2029 || u == 0x202f || u == 0x205f || u == 0x3000
}

/// The text without white space at its end.
pub open spec fn trimmed_end(s: Seq<char>) -> Seq<char>
    decreases s.len(),
{
    if s.len() > 0 && is_white(s.last()) {
        trimmed_end(s.drop_last())
    } else {
        s
    }
}

/// The text without white space at its start.
pub open spec fn trimmed_start(s: Seq<char>) -> Seq<char>
    decreases s.len(),
{
    if s.len() > 0 && is_white(s[0]) {
        trimmed_start(s.skip(1))
    } else {
        s
    }
}

/// The text without white space at either end.
pub open spec fn trimmed(s: Seq<char>) -> Seq<char> {
    trimmed_end(trimmed_start(s))
}

/// How many characters white space at the end leaves.
fn trim_end_len(v: &[char]) -> (n: usize)
    ensures
        n <= v@.len(),
        trimmed_end(v@) == v@.take(n as int),
{
    let mut n: usize = v.len();
    assert(v@.take(n as int) == v@);
    while n > 0 && white(v[n - 1])
        invariant
            n <= v@.len(),
            trimmed_end(v@) == trimmed_end(v@.take(n as int)),
        decreases n,
    {
        assert(v@.take(n as int).drop_last() == v@.take(n - 1));
        n -= 1;
    }
    n
}

/// How many characters of white space stand at the start of `v` from `from`
/// on, plus `from`.
fn trim_start_at(v: &[char], from: usize) -> (n: usize)
    requires
        from <= v@.len(),
    ensures
        from <= n <= v@.len(),
        trimmed_start(v@.skip(from as int)) == v@.skip(n as int),
{
    let mut n: usize = from;
    while n < v.len() && white(v[n])
        invariant
            from <= n <= v@.len(),
            trimmed_start(v@.skip(from as int)) == trimmed_start(v@.skip(n as int)),
        decreases v@.len() - n,
    {
        assert(v@.skip(n as int).skip(1) == v@.skip(n + 1));
        n += 1;
    }
    n
}

/// Takes white space off the end.
pub fn trim_end(s: &str) -> (r: String)
    ensures
        r@ == trimmed_end(s@),
{
    let v = chars_of(s);
    let n = trim_end_len(&v);
    s.substring_char(0, n).to_owned()
}

/// Takes white space off both ends.
pub fn trim(s: &str) -> (r: String)
    ensures
        r@ == trimmed(s@),
{
    let v = chars_of(s);
    let n = trim_start_at(&v, 0);
    assert(v@.skip(0) == v@);
    let rest = s.substring_char(n, v.len());
    assert(rest@ == v@.skip(n as int));
    trim_end(rest)
}

/// The characters up to the first white space.
pub open spec fn word_len(s: Seq<char>) -> nat
    decreases s.len(),
{
    if s.len() > 0 && !is_white(s[0]) {
        1 + word_len(s.skip(1))
    } else {
        0
    }
}

/// The text behind its first word.
pub open spec fn after_word(s: Seq<char>) -> Seq<char> {
    let t = trimmed_start(s);
    t.skip(word_len(t) as int)
}

/// The first of the words that white space separates.
pub open spec fn first_word(s: Seq<char>) -> Option<Seq<char>> {
    let t = trimmed_start(s);
    if t.len() == 0 {
        None
    } else {
        Some(t.take(word_len(t) as int))
    }
}

/// The second of the words that white space separates.
pub open spec fn second_word_of(s: Seq<char>) -> Option<Seq<char>> {
    first_word(after_word(s))
}

pub proof fn lemma_word_len(s: Seq<char>)
    ensures
        word_len(s) <= s.len(),
        forall|i: int| 0 <= i < word_len(s) ==> !is_white(#[trigger] s[i]),
        word_len(s) < s.len() ==> is_white(s[word_len(s) as int]),
    decreases s.len(),
{
    if s.len() > 0 && !is_white(s[0]) {
        lemma_word_len(s.skip(1));
        assert forall|i: int| 0 <= i < word_len(s) implies !is_white(#[trigger] s[i]) by {
            if i > 0 {
                assert(s[i] == s.skip(1)[i - 1]);
            }
        }
    }
}

/// Where the word that begins at `from` ends.
fn word_end(v: &[char], from: usize) -> (n: usize)
    requires
        from <= v@.len(),
    ensures
        from <= n <= v@.len(),
        n == from + word_len(v@.skip(from as int)),
{
    let mut n: usize = from;
    while n < v.len() && !white(v[n])
        invariant
            from <= n <= v@.len(),
            word_len(v@.skip(from as int)) == (n - from) + word_len(v@.skip(n as int)),
        decreases v@.len() - n,
    {
        assert(v@.skip(n as int).skip(1) == v@.skip(n + 1));
        n += 1;
    }
    n
}

/// The second word of a text.
pub fn second_word(s: &str) -> (r: Option<String>)
    ensures
        match r {
            Some(w) => second_word_of(s@) == Some(w@),
            None => second_word_of(s@) is None,
        },
{
    let v = chars_of(s);
    assert(v@.skip(0) == v@);
    let a = trim_start_at(&v, 0);
    let b = word_end(&v, a);
    assert(v@.skip(a as int).skip(b - a) == v@.skip(b as int));
    let c = trim_start_at(&v, b);
    if c == v.len() {
        return None;
    }
    let d = word_end(&v, c);
    assert(v@.skip(c as int).take(d - c) == v@.subrange(c as int, d as int));
    Some(s.substring_char(c, d).to_owned())
}

/// What a digit is worth; the letters of base 16 in either case.
pub open spec fn digit_value(c: char, base: nat) -> Option<nat> {
    let u = c as u32;
    let v: int = if 0x30 <= u <= 0x39 {
        u - 0x30
    } else if 0x61 <= u <= 0x66 {
        u - 0x61 + 10
    } else if 0x41 <= u <= 0x46 {
        u - 0x41 + 10
    } else {
        99
    };
    if v < base {
        Some(v as nat)
    } else {
        None
    }
}

/// The number that a text of digits writes; none with any other character.
pub open spec fn digits_value(s: Seq<char>, base: nat) -> Option<nat>
    decreases s.len(),
{
    if s.len() == 0 {
        Some(0)
    } else {
        match (digits_value(s.drop_last(), base), digit_value(s.last(), base)) {
            (Some(a), Some(d)) => Some(a * base + d),
            _ => None,
        }
    }
}

/// An unsigned number in text: digits, at least one, after at most one `+`.
pub open spec fn unsigned_value(s: Seq<char>, base: nat) -> Option<nat> {
    let d = if s.len() > 0 && s[0] == '+' {
        s.skip(1)
    } else {
        s
    };
    if d.len() == 0 {
        None
    } else {
        digits_value(d, base)
    }
}

fn digit(c: char, base: u64) -> (r: Option<u64>)
    requires
        base <= 16,
    ensures
        match r {
            Some(d) => digit_value(c, base as nat) == Some(d as nat),
            None => digit_value(c, base as nat) is None,
        },
{
    let u = c as u32;
    let v: u64 = if 0x30 <= u && u <= 0x39 {
        (u - 0x30) as u64
    } else if 0x61 <= u && u <= 0x66 {
        (u - 0x61 + 10) as u64
    } else if 0x41 <= u && u <= 0x46 {
        (u - 0x41 + 10) as u64
    } else {
        99
    };
    if v < base {
        Some(v)
    } else {
        None
    }
}

/// Reads an unsigned number of at most `max`.
pub fn parse_unsigned(s: &str, base: u64, max: u64) -> (r: Option<u64>)
    requires
        2 <= base <= 16,
    ensures
        match r {
            Some(n) => unsigned_value(s@, base as nat) == Some(n as nat) && n <= max,
            None => match unsigned_value(s@, base as nat) {
                Some(n) => n > max,
                None => true,
            },
        },
{
    let v = chars_of(s);
    let from: usize = if v.len() > 0 && v[0] == '+' {
        1
    } else {
        0
    };
    assert(v@.skip(0) == v@);
    if from == v.len() {
        return None;
    }
    let ghost d = v@.skip(from as int);
    let mut i: usize = from;
    let mut acc: u64 = 0;
    let mut over: bool = false;
    while i < v.len()
        invariant
            from <= i <= v@.len(),
            d == v@.skip(from as int),
            unsigned_value(s@, base as nat) == digits_value(d, base as nat),
            2 <= base <= 16,
            digits_value(d.take(i - from), base as nat) is Some,
            !over ==> digits_value(d.take(i - from), base as nat) == Some(acc as nat) && acc
                <= max,
            over ==> digits_value(d.take(i - from), base as nat)->0 > max,
        decreases v@.len() - i,
    {
        let ghost next = d.take(i + 1 - from);
        assert(next.drop_last() == d.take(i - from));
        assert(next.last() == v@[i as int]);
        match digit(v[i], base) {
            None => {
                proof {
                    lemma_digits_prefix(d, i + 1 - from, base as nat);
                }
                return None;
            },
            Some(x) => {
                let ghost a = digits_value(d.take(i - from), base as nat)->0;
                assert(a * base + x >= a) by (nonlinear_arith)
                    requires
                        base >= 2,
                        a >= 0,
                        x >= 0,
                ;
                if !over {
                    match acc.checked_mul(base) {
                        None => {
                            over = true;
                        },
                        Some(m) => match m.checked_add(x) {
                            None => {
                                over = true;
                            },
                            Some(t) => {
                                acc = t;
                                if t > max {
                                    over = true;
                                }
                            },
                        },
                    }
                }
            },
        }
        i += 1;
    }
    assert(d.take(i - from) == d);
    if over {
        None
    } else {
        Some(acc)
    }
}

/// A text with a character that is no digit has no value, whatever follows.
pub proof fn lemma_digits_prefix(d: Seq<char>, n: int, base: nat)
    requires
        0 <= n <= d.len(),
        digits_value(d.take(n), base) is None,
    ensures
        digits_value(d, base) is None,
    decreases d.len() - n,
{
    if n < d.len() {
        assert(d.take(n + 1).drop_last() == d.take(n));
        lemma_digits_prefix(d, n + 1, base);
    } else {
        assert(d.take(n) == d);
    }
}

/// The character of a decimal digit.
pub open spec fn digit_char(d: nat) -> char {
    (0x30 + d) as char
}

/// A number in decimal.
pub open spec fn decimal_text(n: nat) -> Seq<char>
    decreases n,
{
    if n < 10 {
        seq![digit_char(n)]
    } else {
        decimal_text(n / 10).push(digit_char(n % 10))
    }
}

/// An integer in decimal, with `-` before a negative one.
pub open spec fn signed_text(n: int) -> Seq<char> {
    if n < 0 {
        seq!['-'] + decimal_text((-n) as nat)
    } else {
        decimal_text(n as nat)
    }
}

/// Writes a number in decimal.
pub fn decimal(n: u64) -> (r: String)
    ensures
        r@ == decimal_text(n as nat),
    decreases n,
{
    let d = (0x30 + (n % 10) as u8) as char;
    if n < 10 {
        let mut out = String::new();
        out.push(d);
        assert(out@ == decimal_text(n as nat));
        out
    } else {
        let mut out = decimal(n / 10);
        out.push(d);
        out
    }
}

/// Writes an integer in decimal.
pub fn signed_decimal(n: i64) -> (r: String)
    ensures
        r@ == signed_text(n as int),
{
    if n < 0 {
        let m: u64 = if n == i64::MIN {
            0x8000_0000_0000_0000
        } else {
            (-n) as u64
        };
        let mut out = String::new();
        out.push('-');
        assert(out@ == seq!['-']);
        out.append(&decimal(m));
        out
    } else {
        decimal(n as u64)
    }
}

/// The longest part at the start of a text that takes at most `n` bytes.
pub open spec fn byte_prefix(s: Seq<char>, n: nat) -> Seq<char>
    decreases s.len(),
{
    if s.len() == 0 || encode_scalar(s[0] as u32).len() > n {
        Seq::empty()
    } else {
        seq![s[0]] + byte_prefix(s.skip(1), (n - encode_scalar(s[0] as u32).len()) as nat)
    }
}

/// How many bytes a character takes.
pub fn scalar_len(c: char) -> (r: usize)
    ensures
        r == encode_scalar(c as u32).len(),
        r >= 1,
{
    let u = c as u32;
    proof {
        char_is_scalar(c);
    }
    if u <= 0x7f {
        1
    } else if u <= 0x7ff {
        2
    } else if u <= 0xffff {
        3
    } else {
        4
    }
}

/// Cuts a text to at most `n` bytes, between two characters.
pub fn cut(s: &str, n: usize) -> (r: String)
    ensures
        r@ == byte_prefix(s@, n as nat),
{
    let v = chars_of(s);
    let mut i: usize = 0;
    let mut left: usize = n;
    assert(v@.skip(0) == v@);
    assert(v@.take(0) + byte_prefix(v@, n as nat) == byte_prefix(v@, n as nat));
    while i < v.len() && scalar_len(v[i]) <= left
        invariant
            v@ == s@,
            i <= v@.len(),
            byte_prefix(s@, n as nat) == v@.take(i as int) + byte_prefix(
                v@.skip(i as int),
                left as nat,
            ),
        decreases v@.len() - i,
    {
        let ghost rest = v@.skip(i as int);
        assert(rest.skip(1) == v@.skip(i + 1));
        left -= scalar_len(v[i]);
        i += 1;
        assert(v@.take(i as int) + byte_prefix(v@.skip(i as int), left as nat) == v@.take(i - 1) + (
        seq![rest[0]] + byte_prefix(v@.skip(i as int), left as nat)));
    }
    assert(byte_prefix(v@.skip(i as int), left as nat) == Seq::<char>::empty());
    assert(v@.take(i as int) == byte_prefix(s@, n as nat));
    s.substring_char(0, i).to_owned()
}

} // verus!
