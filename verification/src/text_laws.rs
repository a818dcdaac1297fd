//! What holds of texts whatever they are: how trimming, stripping, replacing, cutting and
//! reading numbers go with putting texts together.

use vstd::prelude::*;
use vstd::utf8::*;

use crate::text::{
    byte_prefix, bytes_text, decimal_text, digit_char, digit_value, digits_value, has_text,
    is_white, lemma_encode_concat, lower_text, lowercase, lowered, replaced, second_word_of,
    signed_text, stripped_end, stripped_start, trimmed, trimmed_end, trimmed_start,
    unsigned_value, utf8_lossy, word_len,
};

verus! {

/// The text is white space throughout.
pub open spec fn all_white(s: Seq<char>) -> bool {
    forall|i: int| 0 <= i < s.len() ==> is_white(#[trigger] s[i])
}

/// There is no white space in the text.
pub open spec fn none_white(s: Seq<char>) -> bool {
    forall|i: int| 0 <= i < s.len() ==> !is_white(#[trigger] s[i])
}

/// White space is the tabulator, the ends of lines and pages, the blanks of all widths, and
/// nothing else.
pub proof fn law_white_space(c: char)
    ensures
        is_white(c) <==> {
            ||| c == '\t' || c == '\n' || c == '\u{b}' || c == '\u{c}' || c == '\r'
            ||| c == ' ' || c == '\u{85}' || c == '\u{a0}' || c == '\u{1680}'
            ||| c == '\u{2000}' || c == '\u{2001}' || c == '\u{2002}' || c == '\u{2003}'
            ||| c == '\u{2004}' || c == '\u{2005}' || c == '\u{2006}' || c == '\u{2007}'
            ||| c == '\u{2008}' || c == '\u{2009}' || c == '\u{200a}' || c == '\u{2028}'
            ||| c == '\u{2029}' || c == '\u{202f}' || c == '\u{205f}' || c == '\u{3000}'
        },
{
}

/// White space at the end goes, all of it, and nothing else does.
pub proof fn law_trim_end(s: Seq<char>, white: Seq<char>)
    requires
        all_white(white),
        s.len() == 0 || !is_white(s.last()),
    ensures
        trimmed_end(s + white) == s,
    decreases white.len(),
{
    if white.len() == 0 {
        assert(s + white =~= s);
    } else {
        let first = white.drop_last();
        assert(is_white(white[white.len() - 1]));
        assert forall|i: int| 0 <= i < first.len() implies is_white(#[trigger] first[i]) by {
            assert(first[i] == white[i]);
        }
        law_trim_end(s, first);
        assert((s + white).drop_last() =~= s + first);
        assert((s + white).last() == white.last());
    }
}

proof fn lemma_trim_start(white: Seq<char>, s: Seq<char>)
    requires
        all_white(white),
        s.len() == 0 || !is_white(s[0]),
    ensures
        trimmed_start(white + s) == s,
    decreases white.len(),
{
    if white.len() == 0 {
        assert(white + s =~= s);
    } else {
        let rest = white.skip(1);
        assert forall|i: int| 0 <= i < rest.len() implies is_white(#[trigger] rest[i]) by {
            assert(rest[i] == white[i + 1]);
        }
        lemma_trim_start(rest, s);
        assert((white + s).skip(1) =~= rest + s);
        assert((white + s)[0] == white[0]);
    }
}

/// White space at both ends goes, all of it, and what stands between stays.
pub proof fn law_trim(before: Seq<char>, s: Seq<char>, behind: Seq<char>)
    requires
        all_white(before),
        all_white(behind),
        s.len() > 0 ==> !is_white(s[0]) && !is_white(s.last()),
    ensures
        trimmed(before + s + behind) == s,
{
    if s.len() == 0 {
        let all = before + behind;
        assert(before + s + behind =~= all + Seq::<char>::empty());
        assert forall|i: int| 0 <= i < all.len() implies is_white(#[trigger] all[i]) by {
            if i < before.len() {
                assert(all[i] == before[i]);
            } else {
                assert(all[i] == behind[i - before.len()]);
            }
        }
        lemma_trim_start(all, Seq::empty());
        law_trim_end(s, Seq::empty());
        assert(s + Seq::<char>::empty() =~= s);
        assert(s =~= Seq::<char>::empty());
    } else {
        assert(before + s + behind =~= before + (s + behind));
        assert((s + behind)[0] == s[0]);
        lemma_trim_start(before, s + behind);
        law_trim_end(s, behind);
    }
}

proof fn lemma_word(w: Seq<char>, tail: Seq<char>)
    requires
        none_white(w),
        tail.len() == 0 || is_white(tail[0]),
    ensures
        word_len(w + tail) == w.len(),
    decreases w.len(),
{
    if w.len() == 0 {
        assert(w + tail =~= tail);
    } else {
        let rest = w.skip(1);
        assert forall|i: int| 0 <= i < rest.len() implies !is_white(#[trigger] rest[i]) by {
            assert(rest[i] == w[i + 1]);
        }
        lemma_word(rest, tail);
        assert((w + tail).skip(1) =~= rest + tail);
        assert((w + tail)[0] == w[0]);
    }
}

/// The second word is what stands behind the first white space after a word, up to the
/// next; where nothing stands there, there is none.
pub proof fn law_second_word(
    before: Seq<char>,
    first: Seq<char>,
    gap: Seq<char>,
    second: Seq<char>,
    tail: Seq<char>,
)
    requires
        all_white(before),
        first.len() > 0,
        none_white(first),
        all_white(gap),
        none_white(second),
        second.len() > 0 ==> gap.len() > 0,
        tail.len() == 0 || is_white(tail[0]),
        second.len() == 0 ==> tail.len() == 0,
    ensures
        second_word_of(before + first + gap + second + tail) == if second.len() > 0 {
            Some(second)
        } else {
            None
        },
{
    let s = before + first + gap + second + tail;
    let behind = gap + (second + tail);
    assert(s =~= before + (first + behind));
    assert(!is_white(first[0]));
    assert((first + behind)[0] == first[0]);
    lemma_trim_start(before, first + behind);
    if gap.len() > 0 {
        assert(is_white(gap[0]));
        assert(behind[0] == gap[0]);
    } else {
        assert(behind.len() == 0);
    }
    lemma_word(first, behind);
    assert((first + behind).skip(first.len() as int) =~= behind);
    let t = second + tail;
    if second.len() > 0 {
        assert(!is_white(second[0]));
        assert(t[0] == second[0]);
        lemma_trim_start(gap, t);
        lemma_word(second, tail);
        assert(t.take(second.len() as int) =~= second);
    } else {
        assert(t.len() == 0);
        lemma_trim_start(gap, t);
    }
}

/// A prefix is taken off as often as it stands there, and from a text that does not begin
/// with it nothing is taken.
pub proof fn law_strip_start(p: Seq<char>, s: Seq<char>)
    requires
        p.len() > 0,
    ensures
        stripped_start(p + s, p) == stripped_start(s, p),
        !p.is_prefix_of(s) ==> stripped_start(s, p) == s,
{
    assert((p + s).subrange(0, p.len() as int) =~= p);
    assert((p + s).skip(p.len() as int) =~= s);
}

/// A character is taken off the end as often as it stands there, and from a text that
/// does not end with it nothing is taken.
pub proof fn law_strip_end(s: Seq<char>, c: char)
    ensures
        stripped_end(s.push(c), c) == stripped_end(s, c),
        s.len() == 0 || s.last() != c ==> stripped_end(s, c) == s,
{
    assert(s.push(c).drop_last() =~= s);
}

/// A text holds each of its parts; and what it holds is a part of it.
pub proof fn law_has_text(before: Seq<char>, p: Seq<char>, behind: Seq<char>, s: Seq<char>)
    ensures
        has_text(before + p + behind, p),
        has_text(s, p) ==> exists|i: int|
            0 <= i <= s.len() - p.len() && s == #[trigger] s.take(i) + p + s.skip(i + p.len()),
{
    let whole = before + p + behind;
    let at = before.len() as int;
    assert(whole.subrange(at, at + p.len()) =~= p);
    if has_text(s, p) {
        let i = choose|i: int|
            0 <= i && i + p.len() <= s.len() && #[trigger] s.subrange(i, i + p.len()) == p;
        assert(s =~= s.take(i) + p + s.skip(i + p.len()));
    }
}

/// The first occurrence is replaced, and behind it each other one; what stands before it
/// stays.
pub proof fn law_replace_each(before: Seq<char>, p: Seq<char>, behind: Seq<char>, w: Seq<char>)
    requires
        p.len() > 0,
        forall|i: int|
            0 <= i < before.len() ==> #[trigger] (before + p).subrange(i, i + p.len()) != p,
    ensures
        replaced(before + p + behind, p, w) == before + w + replaced(behind, p, w),
    decreases before.len(),
{
    let s = before + p + behind;
    if before.len() == 0 {
        assert(s.subrange(0, p.len() as int) =~= p);
        assert(s.skip(p.len() as int) =~= behind);
        assert(before + w + replaced(behind, p, w) =~= w + replaced(behind, p, w));
    } else {
        let rest = before.skip(1);
        assert(s.subrange(0, p.len() as int) =~= (before + p).subrange(0, 0 + p.len() as int));
        assert(!p.is_prefix_of(s));
        assert(s.skip(1) =~= rest + p + behind);
        assert forall|i: int| 0 <= i < rest.len() implies #[trigger] (rest + p).subrange(
            i,
            i + p.len(),
        ) != p by {
            assert((rest + p).subrange(i, i + p.len()) =~= (before + p).subrange(
                i + 1,
                i + 1 + p.len(),
            ));
        }
        law_replace_each(rest, p, behind, w);
        assert(before + w + replaced(behind, p, w) =~= seq![s[0]] + (rest + w + replaced(
            behind,
            p,
            w,
        )));
    }
}

/// A text without an occurrence stays as it is.
pub proof fn law_replace_nothing(s: Seq<char>, p: Seq<char>, w: Seq<char>)
    requires
        forall|i: int|
            0 <= i <= s.len() - p.len() ==> #[trigger] s.subrange(i, i + p.len()) != p,
    ensures
        replaced(s, p, w) == s,
{
    crate::text::lemma_replaced_without(s, p, w);
}

/// Of capitals of the Latin alphabet the small letters come out, 32 places on; any other
/// character stays, and so do the places.
pub proof fn law_lowered(s: Seq<char>, i: int)
    requires
        0 <= i < s.len(),
    ensures
        lowered(s).len() == s.len(),
        'A' <= s[i] <= 'Z' ==> lowered(s)[i] as u32 == s[i] as u32 + 32,
        !('A' <= s[i] <= 'Z') ==> lowered(s)[i] == s[i],
{
}

/// Texts put together are put in lower case together.
pub proof fn law_lower_case_goes_with_joining(a: Seq<char>, b: Seq<char>)
    ensures
        lowered(a + b) == lowered(a) + lowered(b),
        is_ascii_chars(a) ==> lower_text(a) == lowered(a),
        !is_ascii_chars(a) ==> lower_text(a) == lowercase(a),
{
    assert(lowered(a + b) =~= lowered(a) + lowered(b));
}

/// Bytes that encode a text are read as that text; any others as `from_utf8_lossy` reads
/// them.
pub proof fn law_bytes_are_read(text: Seq<char>, other: Seq<u8>)
    ensures
        bytes_text(encode_utf8(text)) == text,
        !valid_utf8(other) ==> bytes_text(other) == utf8_lossy(other),
{
    encode_utf8_valid_utf8(text);
    encode_utf8_decode_utf8(text);
}

/// What is left of a text that is cut to so many bytes is its start, takes no more than
/// those, and one character more would take more.
pub proof fn law_cut_is_the_longest_start(s: Seq<char>, n: nat)
    ensures
        byte_prefix(s, n).is_prefix_of(s),
        encode_utf8(byte_prefix(s, n)).len() <= n,
        byte_prefix(s, n).len() < s.len() ==> encode_utf8(
            s.take(byte_prefix(s, n).len() as int + 1),
        ).len() > n,
    decreases s.len(),
{
    let r = byte_prefix(s, n);
    if s.len() == 0 {
        assert(r =~= s.subrange(0, 0));
    } else {
        let one = seq![s[0]];
        let size = encode_scalar(s[0] as u32).len();
        assert(one.drop_first() =~= Seq::<char>::empty());
        assert(encode_utf8(one.drop_first()).len() == 0);
        assert(encode_utf8(one) =~= encode_scalar(s[0] as u32));
        if size > n {
            assert(r =~= s.subrange(0, 0));
            assert(encode_utf8(r).len() == 0);
            assert(s.take(1) =~= one);
        } else {
            let rest = s.skip(1);
            let left = (n - size) as nat;
            law_cut_is_the_longest_start(rest, left);
            let t = byte_prefix(rest, left);
            assert(t =~= rest.subrange(0, t.len() as int));
            assert(r =~= s.subrange(0, r.len() as int)) by {
                assert forall|i: int| 0 <= i < r.len() implies r[i] == s[i] by {
                    if i > 0 {
                        assert(r[i] == t[i - 1]);
                        assert(t[i - 1] == rest[i - 1]);
                    }
                }
            }
            lemma_encode_concat(one, t);
            if r.len() < s.len() {
                assert(s.take(r.len() as int + 1) =~= one + rest.take(t.len() as int + 1));
                lemma_encode_concat(one, rest.take(t.len() as int + 1));
            }
        }
    }
}

proof fn lemma_decimal_digits(n: nat)
    ensures
        decimal_text(n).len() > 0,
        '0' <= decimal_text(n)[0] <= '9',
        digits_value(decimal_text(n), 10) == Some(n),
    decreases n,
{
    let d = digit_char(n % 10);
    assert(digit_value(d, 10) == Some((n % 10) as nat));
    if n < 10 {
        let s = decimal_text(n);
        assert(s.drop_last() =~= Seq::<char>::empty());
        assert(digits_value(s.drop_last(), 10) == Some(0nat));
    } else {
        lemma_decimal_digits(n / 10);
        assert(decimal_text(n).drop_last() =~= decimal_text(n / 10));
        assert(decimal_text(n)[0] == decimal_text(n / 10)[0]);
    }
}

/// A number that is written in decimal is read as that number, with and without a `+`
/// before it; a negative one is written with a `-` before it.
pub proof fn law_numbers_are_read_back(n: nat)
    ensures
        unsigned_value(decimal_text(n), 10) == Some(n),
        unsigned_value(seq!['+'] + decimal_text(n), 10) == Some(n),
        signed_text(n as int) == decimal_text(n),
        n > 0 ==> signed_text(-(n as int)) == seq!['-'] + decimal_text(n),
{
    lemma_decimal_digits(n);
    assert((seq!['+'] + decimal_text(n)).skip(1) =~= decimal_text(n));
}

/// Each digit stands for its value, in either case, and no other character does.
pub proof fn law_digits(c: char, v: nat)
    requires
        v < 16,
    ensures
        digit_value(c, 16) == Some(v) <==> {
            ||| v < 10 && c as u32 == 0x30 + v
            ||| v >= 10 && (c as u32 == 0x61 + v - 10 || c as u32 == 0x41 + v - 10)
        },
        digit_value(c, 10) == Some(v) <==> v < 10 && c as u32 == 0x30 + v,
        digit_value(c, 16) is Some ==> digit_value(c, 16)->0 < 16,
        digit_value(c, 10) is Some ==> digit_value(c, 10)->0 < 10,
{
}

/// A digit more makes the number as many times larger as the base says, and adds its
/// value; without digits there is nothing, and with anything else no number.
pub proof fn law_digits_have_places(s: Seq<char>, c: char, base: nat)
    ensures
        digits_value(Seq::empty(), base) == Some(0nat),
        digits_value(s, base) is Some && digit_value(c, base) is Some ==> digits_value(
            s.push(c),
            base,
        ) == Some(digits_value(s, base)->0 * base + digit_value(c, base)->0),
        digits_value(s, base) is None || digit_value(c, base) is None ==> digits_value(
            s.push(c),
            base,
        ) is None,
        unsigned_value(Seq::empty(), base) is None,
        unsigned_value(seq!['+'], base) is None,
        s.len() > 0 && s[0] != '+' ==> unsigned_value(s, base) == digits_value(s, base),
        s.len() > 0 ==> unsigned_value(seq!['+'] + s, base) == digits_value(s, base),
{
    assert(s.push(c).drop_last() =~= s);
    assert((seq!['+'] + s).skip(1) =~= s);
    assert(seq!['+'].skip(1) =~= Seq::<char>::empty());
}

/// Where no occurrence begins in its first part, that part stays, and the rest is replaced
/// as if it stood alone.
pub proof fn law_replace_skips(a: Seq<char>, b: Seq<char>, p: Seq<char>, w: Seq<char>)
    requires
        forall|i: int| 0 <= i < a.len() ==> !p.is_prefix_of(#[trigger] (a + b).skip(i)),
    ensures
        replaced(a + b, p, w) == a + replaced(b, p, w),
    decreases a.len(),
{
    let s = a + b;
    if a.len() == 0 {
        assert(s =~= b);
        assert(a + replaced(b, p, w) =~= replaced(b, p, w));
    } else {
        let rest = a.skip(1);
        assert(s.skip(0) =~= s);
        assert(!p.is_prefix_of(s.skip(0)));
        assert(s.skip(1) =~= rest + b);
        assert forall|i: int| 0 <= i < rest.len() implies !p.is_prefix_of(
            #[trigger] (rest + b).skip(i),
        ) by {
            assert((rest + b).skip(i) =~= s.skip(i + 1));
        }
        law_replace_skips(rest, b, p, w);
        if p.len() == 0 {
            assert(p =~= s.subrange(0, 0));
        }
        assert(a + replaced(b, p, w) =~= seq![s[0]] + (rest + replaced(b, p, w)));
    }
}

/// A text of white space alone has no second word.
pub proof fn law_white_space_has_no_words(s: Seq<char>)
    requires
        all_white(s),
    ensures
        second_word_of(s) is None,
{
    let none = Seq::<char>::empty();
    lemma_trim_start(s, none);
    assert(s + none =~= s);
    assert(word_len(none) == 0);
    assert(none.skip(0) =~= none);
    lemma_trim_start(none, none);
    assert(none + none =~= none);
}

} // verus!
