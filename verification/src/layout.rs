//! How a value is written without white space: its keys in order at every level, and the
//! characters of its texts as they are.

use vstd::prelude::*;

use crate::digest::hex_digit;
use crate::json::{JsonModel, JsonNumber};
use crate::order::{
    key_lt, keys_sorted, lemma_keys_sorted_unique, lemma_same_members, lemma_text_lt_irreflexive,
    lemma_text_lt_total, lemma_text_lt_transitive, text_lt, SortKey,
};
use crate::text::{decimal_text, digit_char, is_white, signed_text};

verus! {

/// A character in a text: a quote, a backslash and the control characters are escaped,
/// and any other stands as it is.
pub open spec fn escaped_char(c: char) -> Seq<char> {
    if c == '"' || c == '\\' {
        seq!['\\', c]
    } else if c == '\u{8}' {
        seq!['\\', 'b']
    } else if c == '\t' {
        seq!['\\', 't']
    } else if c == '\n' {
        seq!['\\', 'n']
    } else if c == '\u{c}' {
        seq!['\\', 'f']
    } else if c == '\r' {
        seq!['\\', 'r']
    } else if (c as u32) < 0x20 {
        seq!['\\', 'u', '0', '0', hex_digit(c as int / 16), hex_digit(c as int % 16)]
    } else {
        seq![c]
    }
}

/// The characters of a text, one after the other.
pub open spec fn escaped(s: Seq<char>) -> Seq<char>
    decreases s.len(),
{
    if s.len() == 0 {
        Seq::empty()
    } else {
        escaped_char(s[0]) + escaped(s.skip(1))
    }
}

/// A text in quotes.
pub open spec fn quoted(s: Seq<char>) -> Seq<char> {
    seq!['"'] + escaped(s) + seq!['"']
}

/// The keys ascend.
pub open spec fn ascends(ks: Seq<Seq<char>>) -> bool {
    forall|i: int, j: int| 0 <= i < j < ks.len() ==> text_lt(#[trigger] ks[i], #[trigger] ks[j])
}

/// Just these keys, ascending.
pub open spec fn lists_keys(ks: Seq<Seq<char>>, keys: Set<Seq<char>>) -> bool {
    &&& ascends(ks)
    &&& forall|k: Seq<char>| #[trigger] ks.contains(k) <==> keys.contains(k)
}

/// The keys in ascending order.
pub open spec fn keys_in_order(keys: Set<Seq<char>>) -> Seq<Seq<char>> {
    choose|ks: Seq<Seq<char>>| lists_keys(ks, keys)
}

/// A number that is an integer.
pub open spec fn integer_layout(n: JsonNumber) -> Seq<char> {
    match n {
        JsonNumber::Pos(u) => decimal_text(u as nat),
        JsonNumber::Neg(i) => signed_text(i as int),
        JsonNumber::Other(_) => Seq::empty(),
    }
}

/// The text of a value whose numbers are integers.
pub open spec fn layout(m: JsonModel) -> Seq<char>
    decreases m, 0nat,
{
    match m {
        JsonModel::Null => "null"@,
        JsonModel::Bool(b) => if b {
            "true"@
        } else {
            "false"@
        },
        JsonModel::Number(n) => integer_layout(n),
        JsonModel::Text(s) => quoted(s),
        JsonModel::Array(items) => seq!['['] + items_layout(items) + seq![']'],
        JsonModel::Object(fields) => seq!['{'] + fields_layout(
            fields,
            keys_in_order(fields.dom()),
        ) + seq!['}'],
    }
}

/// The items of a list in their order, with commas between them.
pub open spec fn items_layout(items: Seq<JsonModel>) -> Seq<char>
    decreases items, 0nat,
{
    if items.len() == 0 {
        Seq::empty()
    } else if items.len() == 1 {
        layout(items[0])
    } else {
        layout(items[0]) + seq![','] + items_layout(items.skip(1))
    }
}

/// One field.
pub open spec fn field_layout(fields: Map<Seq<char>, JsonModel>, k: Seq<char>) -> Seq<char>
    decreases fields, 0nat,
{
    if fields.dom().finite() && fields.contains_key(k) {
        quoted(k) + seq![':'] + layout(fields[k])
    } else {
        Seq::empty()
    }
}

/// The fields under these keys, with commas between them.
pub open spec fn fields_layout(
    fields: Map<Seq<char>, JsonModel>,
    ks: Seq<Seq<char>>,
) -> Seq<char>
    decreases fields, ks.len(),
{
    if ks.len() == 0 {
        Seq::empty()
    } else if ks.len() == 1 {
        field_layout(fields, ks[0])
    } else {
        field_layout(fields, ks[0]) + seq![','] + fields_layout(fields, ks.skip(1))
    }
}

/// An integer, with the variant that its sign calls for.
pub open spec fn is_integer(n: JsonNumber) -> bool {
    match n {
        JsonNumber::Pos(_) => true,
        JsonNumber::Neg(i) => i < 0,
        JsonNumber::Other(_) => false,
    }
}

/// All numbers in a value are integers.
pub open spec fn integers_only(m: JsonModel) -> bool
    decreases m,
{
    match m {
        JsonModel::Number(n) => is_integer(n),
        JsonModel::Array(items) => forall|i: int|
            0 <= i < items.len() ==> integers_only(#[trigger] items[i]),
        JsonModel::Object(fields) => fields.dom().finite() && forall|k: Seq<char>| #[trigger]
            fields.contains_key(k) ==> integers_only(fields[k]),
        _ => true,
    }
}

proof fn lemma_insert_key(ks: Seq<Seq<char>>, k: Seq<char>) -> (r: Seq<Seq<char>>)
    requires
        ascends(ks),
        !ks.contains(k),
    ensures
        ascends(r),
        forall|x: Seq<char>| #[trigger] r.contains(x) <==> ks.contains(x) || x == k,
    decreases ks.len(),
{
    if ks.len() == 0 {
        let r = seq![k];
        assert(r[0] == k);
        r
    } else {
        let last = ks.last();
        let first = ks.drop_last();
        assert(ks[ks.len() - 1] == last);
        assert(ks.contains(last));
        lemma_text_lt_total(last, k);
        if text_lt(last, k) {
            let r = ks.push(k);
            assert forall|i: int, j: int| 0 <= i < j < r.len() implies text_lt(
                #[trigger] r[i],
                #[trigger] r[j],
            ) by {
                if j == ks.len() && i < ks.len() - 1 {
                    lemma_text_lt_transitive(ks[i], last, k);
                }
            }
            assert forall|x: Seq<char>| #[trigger] r.contains(x) <==> ks.contains(x) || x
                == k by {
                if ks.contains(x) {
                    let i = choose|i: int| 0 <= i < ks.len() && ks[i] == x;
                    assert(r[i] == x);
                }
                assert(r[ks.len() as int] == k);
            }
            r
        } else {
            assert forall|x: Seq<char>| #[trigger] first.contains(x) implies ks.contains(x) by {
                let i = choose|i: int| 0 <= i < first.len() && first[i] == x;
                assert(ks[i] == x);
            }
            let r1 = lemma_insert_key(first, k);
            let r = r1.push(last);
            assert forall|i: int, j: int| 0 <= i < j < r.len() implies text_lt(
                #[trigger] r[i],
                #[trigger] r[j],
            ) by {
                if j == r1.len() {
                    assert(r1.contains(r1[i]));
                    if first.contains(r1[i]) {
                        let n = choose|n: int| 0 <= n < first.len() && first[n] == r1[i];
                        assert(text_lt(ks[n], ks[ks.len() - 1]));
                    }
                }
            }
            assert forall|x: Seq<char>| #[trigger] r.contains(x) <==> ks.contains(x) || x
                == k by {
                if r.contains(x) {
                    let i = choose|i: int| 0 <= i < r.len() && r[i] == x;
                    if i < r1.len() {
                        assert(r1[i] == x);
                        assert(r1.contains(x));
                    }
                }
                if ks.contains(x) || x == k {
                    if x == last {
                        assert(r[r1.len() as int] == x);
                    } else {
                        if ks.contains(x) {
                            let i = choose|i: int| 0 <= i < ks.len() && ks[i] == x;
                            assert(first[i] == x);
                            assert(first.contains(x));
                        }
                        assert(r1.contains(x));
                        let i = choose|i: int| 0 <= i < r1.len() && r1[i] == x;
                        assert(r[i] == x);
                    }
                }
            }
            r
        }
    }
}

proof fn lemma_order_keys(keys: Set<Seq<char>>) -> (r: Seq<Seq<char>>)
    requires
        keys.finite(),
    ensures
        lists_keys(r, keys),
    decreases keys.len(),
{
    if keys.len() == 0 {
        assert(keys =~= Set::empty());
        Seq::empty()
    } else {
        let k = keys.choose();
        let rest = keys.remove(k);
        let ks = lemma_order_keys(rest);
        let r = lemma_insert_key(ks, k);
        assert forall|x: Seq<char>| #[trigger] r.contains(x) <==> keys.contains(x) by {
            assert(ks.contains(x) <==> rest.contains(x));
        }
        r
    }
}

/// The keys of an object are written in ascending order, each once: there is one way to
/// list them so, and it is the one that is taken.
pub proof fn law_keys_are_in_order(keys: Set<Seq<char>>, ks: Seq<Seq<char>>)
    requires
        keys.finite(),
    ensures
        lists_keys(keys_in_order(keys), keys),
        lists_keys(ks, keys) ==> ks == keys_in_order(keys),
{
    let found = lemma_order_keys(keys);
    let r = keys_in_order(keys);
    assert(lists_keys(r, keys));
    if lists_keys(ks, keys) {
        let key = |k: Seq<char>| SortKey { first: k, second: Seq::empty(), third: 0 };
        lemma_ascending_keys(r, key);
        lemma_ascending_keys(ks, key);
        assert forall|k: Seq<char>| #[trigger] r.contains(k) <==> ks.contains(k) by {}
        lemma_same_members(r, ks);
        lemma_keys_sorted_unique(ks, r, key);
    }
}

proof fn lemma_ascending_keys(ks: Seq<Seq<char>>, key: spec_fn(Seq<char>) -> SortKey)
    requires
        ascends(ks),
        key == (|k: Seq<char>| SortKey { first: k, second: Seq::empty(), third: 0 }),
    ensures
        ks.no_duplicates(),
        keys_sorted(ks, key),
{
    assert forall|i: int, j: int| 0 <= i < j < ks.len() implies ks[i] != ks[j] && !key_lt(
        key(#[trigger] ks[j]),
        key(#[trigger] ks[i]),
    ) by {
        lemma_text_lt_irreflexive(ks[i]);
        lemma_text_lt_irreflexive(Seq::<char>::empty());
        assert(text_lt(ks[i], ks[j]));
        if text_lt(ks[j], ks[i]) {
            lemma_text_lt_transitive(ks[i], ks[j], ks[i]);
        }
    }
}

/// A text without quotes, backslashes and control characters is written as it is.
pub proof fn law_characters_stand_as_they_are(s: Seq<char>)
    requires
        forall|i: int|
            0 <= i < s.len() ==> #[trigger] s[i] != '"' && s[i] != '\\' && s[i] as u32 >= 0x20,
    ensures
        quoted(s) == seq!['"'] + s + seq!['"'],
    decreases s.len(),
{
    if s.len() > 0 {
        let rest = s.skip(1);
        assert forall|i: int| 0 <= i < rest.len() implies #[trigger] rest[i] != '"' && rest[i]
            != '\\' && rest[i] as u32 >= 0x20 by {
            assert(rest[i] == s[i + 1]);
        }
        law_characters_stand_as_they_are(rest);
        assert(escaped(rest) =~= quoted(rest).subrange(1, quoted(rest).len() - 1));
        assert(rest =~= (seq!['"'] + rest + seq!['"']).subrange(1, rest.len() as int + 1));
        assert(escaped(s) == seq![s[0]] + rest);
        assert(seq![s[0]] + rest =~= s);
    } else {
        assert(escaped(s) =~= s);
    }
}

/// No white space stands in the text.
pub open spec fn unspaced(s: Seq<char>) -> bool {
    forall|i: int| 0 <= i < s.len() ==> !is_white(#[trigger] s[i])
}

/// No text and no key in the value holds white space.
pub open spec fn texts_unspaced(m: JsonModel) -> bool
    decreases m,
{
    match m {
        JsonModel::Text(s) => unspaced(s),
        JsonModel::Array(items) => forall|i: int|
            0 <= i < items.len() ==> texts_unspaced(#[trigger] items[i]),
        JsonModel::Object(fields) => fields.dom().finite() && forall|k: Seq<char>| #[trigger]
            fields.contains_key(k) ==> unspaced(k) && texts_unspaced(fields[k]),
        _ => true,
    }
}

proof fn lemma_escape_unspaced(c: char)
    requires
        !is_white(c),
    ensures
        unspaced(escaped_char(c)),
{
    if (c as u32) < 0x20 {
        assert(0 <= c as int / 16 < 16);
        assert(0 <= c as int % 16 < 16);
    }
}

proof fn lemma_quoted_unspaced(s: Seq<char>)
    requires
        unspaced(s),
    ensures
        unspaced(quoted(s)),
    decreases s.len(),
{
    assert(unspaced(escaped(s))) by {
        if s.len() > 0 {
            let rest = s.skip(1);
            assert forall|i: int| 0 <= i < rest.len() implies !is_white(#[trigger] rest[i]) by {
                assert(rest[i] == s[i + 1]);
            }
            lemma_quoted_unspaced(rest);
            assert forall|i: int| 0 <= i < escaped(rest).len() implies !is_white(
                #[trigger] escaped(rest)[i],
            ) by {
                assert(quoted(rest)[i + 1] == escaped(rest)[i]);
            }
            lemma_escape_unspaced(s[0]);
        }
    }
}

proof fn lemma_decimal_unspaced(n: nat)
    ensures
        unspaced(decimal_text(n)),
    decreases n,
{
    assert(!is_white(digit_char(n % 10)));
    if n >= 10 {
        lemma_decimal_unspaced(n / 10);
    }
}

proof fn lemma_layout_unspaced(m: JsonModel)
    requires
        texts_unspaced(m),
    ensures
        unspaced(layout(m)),
    decreases m, 0nat,
{
    reveal_strlit("null");
    reveal_strlit("true");
    reveal_strlit("false");
    match m {
        JsonModel::Number(JsonNumber::Pos(u)) => {
            lemma_decimal_unspaced(u as nat);
        },
        JsonModel::Number(JsonNumber::Neg(i)) => {
            lemma_decimal_unspaced(if i < 0 {
                (-i) as nat
            } else {
                i as nat
            });
        },
        JsonModel::Text(s) => {
            lemma_quoted_unspaced(s);
        },
        JsonModel::Array(items) => {
            lemma_items_unspaced(items);
        },
        JsonModel::Object(fields) => {
            lemma_fields_unspaced(fields, keys_in_order(fields.dom()));
        },
        _ => {},
    }
}

proof fn lemma_items_unspaced(items: Seq<JsonModel>)
    requires
        forall|i: int| 0 <= i < items.len() ==> texts_unspaced(#[trigger] items[i]),
    ensures
        unspaced(items_layout(items)),
    decreases items, 0nat,
{
    if items.len() > 0 {
        let rest = items.skip(1);
        assert forall|i: int| 0 <= i < rest.len() implies texts_unspaced(#[trigger] rest[i]) by {
            assert(rest[i] == items[i + 1]);
        }
        lemma_items_unspaced(rest);
        lemma_layout_unspaced(items[0]);
    }
}

proof fn lemma_fields_unspaced(fields: Map<Seq<char>, JsonModel>, ks: Seq<Seq<char>>)
    requires
        fields.dom().finite(),
        forall|k: Seq<char>| #[trigger]
            fields.contains_key(k) ==> unspaced(k) && texts_unspaced(fields[k]),
    ensures
        unspaced(fields_layout(fields, ks)),
    decreases fields, ks.len(),
{
    if ks.len() > 0 {
        let k = ks[0];
        lemma_fields_unspaced(fields, ks.skip(1));
        if fields.contains_key(k) {
            lemma_quoted_unspaced(k);
            lemma_layout_unspaced(fields[k]);
        }
        assert(unspaced(field_layout(fields, k)));
    }
}

/// White space stands in the text of a value only inside its texts and keys: where these
/// hold none, there is none.
pub proof fn law_layout_is_compact(m: JsonModel)
    requires
        integers_only(m),
        texts_unspaced(m),
    ensures
        unspaced(layout(m)),
{
    lemma_layout_unspaced(m);
}

proof fn lemma_same_head(h: Seq<char>, x: Seq<char>, k: Seq<char>, y: Seq<char>)
    requires
        h + x == k + y,
        h.len() == k.len(),
    ensures
        h == k,
        x == y,
{
    assert(h =~= (h + x).take(h.len() as int));
    assert(k =~= (k + y).take(k.len() as int));
    assert(x =~= (h + x).skip(h.len() as int));
    assert(y =~= (k + y).skip(k.len() as int));
}

proof fn lemma_escapes_differ(c: char, x: Seq<char>, d: char, y: Seq<char>)
    requires
        escaped_char(c) + x == escaped_char(d) + y,
    ensures
        c == d,
        x == y,
{
    let (e, f) = (escaped_char(c), escaped_char(d));
    assert((e + x)[0] == e[0]);
    assert((f + y)[0] == f[0]);
    if e.len() > 1 && f.len() > 1 {
        assert((e + x)[1] == e[1]);
        assert((f + y)[1] == f[1]);
        if e.len() == 6 && f.len() == 6 {
            assert((e + x)[4] == e[4]);
            assert((f + y)[4] == f[4]);
            assert((e + x)[5] == e[5]);
            assert((f + y)[5] == f[5]);
            assert(0 <= c as int / 16 < 16);
            assert(0 <= d as int / 16 < 16);
            assert(0 <= c as int % 16 < 16);
            assert(0 <= d as int % 16 < 16);
        }
    }
    assert(c == d);
    lemma_same_head(e, x, f, y);
}

proof fn lemma_escapes_part(s: Seq<char>, x: Seq<char>, t: Seq<char>, y: Seq<char>)
    requires
        escaped(s) + seq!['"'] + x == escaped(t) + seq!['"'] + y,
    ensures
        s == t,
        x == y,
    decreases s.len(),
{
    let (a, b) = (escaped(s) + seq!['"'] + x, escaped(t) + seq!['"'] + y);
    if s.len() > 0 {
        assert(a =~= escaped_char(s[0]) + (escaped(s.skip(1)) + seq!['"'] + x));
        assert(a[0] == escaped_char(s[0])[0]);
    } else {
        assert(a[0] == '"');
    }
    if t.len() > 0 {
        assert(b =~= escaped_char(t[0]) + (escaped(t.skip(1)) + seq!['"'] + y));
        assert(b[0] == escaped_char(t[0])[0]);
    } else {
        assert(b[0] == '"');
    }
    if s.len() == 0 {
        assert(t.len() == 0);
        assert(s =~= t);
        lemma_same_head(escaped(s) + seq!['"'], x, escaped(t) + seq!['"'], y);
    } else {
        assert(t.len() > 0);
        lemma_escapes_differ(
            s[0],
            escaped(s.skip(1)) + seq!['"'] + x,
            t[0],
            escaped(t.skip(1)) + seq!['"'] + y,
        );
        lemma_escapes_part(s.skip(1), x, t.skip(1), y);
        assert(s =~= seq![s[0]] + s.skip(1));
        assert(t =~= seq![t[0]] + t.skip(1));
    }
}

proof fn lemma_quoted_part(s: Seq<char>, x: Seq<char>, t: Seq<char>, y: Seq<char>)
    requires
        quoted(s) + x == quoted(t) + y,
    ensures
        s == t,
        x == y,
{
    assert(quoted(s) + x =~= seq!['"'] + (escaped(s) + seq!['"'] + x));
    assert(quoted(t) + y =~= seq!['"'] + (escaped(t) + seq!['"'] + y));
    lemma_same_head(
        seq!['"'],
        escaped(s) + seq!['"'] + x,
        seq!['"'],
        escaped(t) + seq!['"'] + y,
    );
    lemma_escapes_part(s, x, t, y);
}

spec fn is_figure(c: char) -> bool {
    '0' <= c <= '9'
}

proof fn lemma_figures(n: nat)
    ensures
        decimal_text(n).len() > 0,
        forall|i: int| 0 <= i < decimal_text(n).len() ==> is_figure(#[trigger] decimal_text(n)[i]),
    decreases n,
{
    assert(is_figure(digit_char(n % 10)));
    if n >= 10 {
        lemma_figures(n / 10);
    }
}

proof fn lemma_decimals_differ(a: nat, b: nat)
    requires
        decimal_text(a) == decimal_text(b),
    ensures
        a == b,
    decreases a,
{
    assert(decimal_text(a).last() == digit_char(a % 10));
    assert(decimal_text(b).last() == digit_char(b % 10));
    assert(a % 10 == b % 10);
    if a >= 10 {
        lemma_figures(a / 10);
    }
    if b >= 10 {
        lemma_figures(b / 10);
    }
    if a >= 10 && b >= 10 {
        assert(decimal_text(a).drop_last() =~= decimal_text(a / 10));
        assert(decimal_text(b).drop_last() =~= decimal_text(b / 10));
        lemma_decimals_differ(a / 10, b / 10);
    }
}

/// What can stand behind a value: nothing, or a mark that ends an item.
spec fn ends_value(r: Seq<char>) -> bool {
    r.len() == 0 || r[0] == ',' || r[0] == ']' || r[0] == '}'
}

proof fn lemma_decimals_part(a: nat, x: Seq<char>, b: nat, y: Seq<char>)
    requires
        decimal_text(a) + x == decimal_text(b) + y,
        ends_value(x),
        ends_value(y),
    ensures
        a == b,
        x == y,
{
    let (s, t) = (decimal_text(a), decimal_text(b));
    lemma_figures(a);
    lemma_figures(b);
    if s.len() < t.len() {
        assert((t + y)[s.len() as int] == t[s.len() as int]);
        assert((s + x).len() == (t + y).len());
        assert((s + x)[s.len() as int] == x[0]);
    }
    if t.len() < s.len() {
        assert((s + x)[t.len() as int] == s[t.len() as int]);
        assert((s + x).len() == (t + y).len());
        assert((t + y)[t.len() as int] == y[0]);
    }
    lemma_same_head(s, x, t, y);
    lemma_decimals_differ(a, b);
}

/// How the text of a value of this kind begins.
spec fn begins_kind(m: JsonModel, c: char) -> bool {
    match m {
        JsonModel::Null => c == 'n',
        JsonModel::Bool(b) => c == (if b {
            't'
        } else {
            'f'
        }),
        JsonModel::Number(JsonNumber::Neg(_)) => c == '-',
        JsonModel::Number(_) => is_figure(c),
        JsonModel::Text(_) => c == '"',
        JsonModel::Array(_) => c == '[',
        JsonModel::Object(_) => c == '{',
    }
}

proof fn lemma_begins(m: JsonModel)
    requires
        integers_only(m),
    ensures
        layout(m).len() > 0,
        begins_kind(m, layout(m)[0]),
{
    reveal_strlit("null");
    reveal_strlit("true");
    reveal_strlit("false");
    match m {
        JsonModel::Number(JsonNumber::Pos(u)) => {
            lemma_figures(u as nat);
        },
        _ => {},
    }
}

proof fn lemma_layouts_part(v: JsonModel, x: Seq<char>, w: JsonModel, y: Seq<char>)
    requires
        integers_only(v),
        integers_only(w),
        layout(v) + x == layout(w) + y,
        ends_value(x),
        ends_value(y),
    ensures
        v == w,
        x == y,
    decreases v, 0nat,
{
    lemma_begins(v);
    lemma_begins(w);
    assert((layout(v) + x)[0] == layout(v)[0]);
    assert((layout(w) + y)[0] == layout(w)[0]);
    match (v, w) {
        (JsonModel::Null, JsonModel::Null) => {
            lemma_same_head(layout(v), x, layout(w), y);
        },
        (JsonModel::Bool(a), JsonModel::Bool(b)) => {
            assert(a == b);
            lemma_same_head(layout(v), x, layout(w), y);
        },
        (JsonModel::Number(a), JsonModel::Number(b)) => {
            lemma_numbers_part(a, x, b, y);
        },
        (JsonModel::Text(a), JsonModel::Text(b)) => {
            lemma_quoted_part(a, x, b, y);
        },
        (JsonModel::Array(a), JsonModel::Array(b)) => {
            let (s, t) = (items_layout(a) + seq![']'] + x, items_layout(b) + seq![']'] + y);
            assert(layout(v) + x =~= seq!['['] + s);
            assert(layout(w) + y =~= seq!['['] + t);
            lemma_same_head(seq!['['], s, seq!['['], t);
            lemma_items_part(a, x, b, y);
        },
        (JsonModel::Object(f), JsonModel::Object(g)) => {
            let (ks, ls) = (keys_in_order(f.dom()), keys_in_order(g.dom()));
            law_keys_are_in_order(f.dom(), ks);
            law_keys_are_in_order(g.dom(), ls);
            let (s, t) = (
                fields_layout(f, ks) + seq!['}'] + x,
                fields_layout(g, ls) + seq!['}'] + y,
            );
            assert(layout(v) + x =~= seq!['{'] + s);
            assert(layout(w) + y =~= seq!['{'] + t);
            lemma_same_head(seq!['{'], s, seq!['{'], t);
            assert forall|k: Seq<char>| #[trigger] ks.contains(k) implies f.contains_key(k) by {}
            assert forall|k: Seq<char>| #[trigger] ls.contains(k) implies g.contains_key(k) by {}
            lemma_fields_part(f, ks, x, g, ls, y);
            assert forall|k: Seq<char>| f.contains_key(k) <==> g.contains_key(k) by {
                assert(ks.contains(k) <==> f.dom().contains(k));
                assert(ls.contains(k) <==> g.dom().contains(k));
            }
            assert forall|k: Seq<char>| f.contains_key(k) implies f[k] == g[k] by {
                assert(ks.contains(k));
            }
            assert(f =~= g);
        },
        _ => {
            assert(false);
        },
    }
}

proof fn lemma_numbers_part(a: JsonNumber, x: Seq<char>, b: JsonNumber, y: Seq<char>)
    requires
        is_integer(a),
        is_integer(b),
        integer_layout(a) + x == integer_layout(b) + y,
        ends_value(x),
        ends_value(y),
    ensures
        a == b,
        x == y,
{
    lemma_begins(JsonModel::Number(a));
    lemma_begins(JsonModel::Number(b));
    assert((integer_layout(a) + x)[0] == integer_layout(a)[0]);
    assert((integer_layout(b) + y)[0] == integer_layout(b)[0]);
    match (a, b) {
        (JsonNumber::Pos(u), JsonNumber::Pos(w)) => {
            lemma_decimals_part(u as nat, x, w as nat, y);
        },
        (JsonNumber::Neg(i), JsonNumber::Neg(j)) => {
            let (p, q) = ((-i) as nat, (-j) as nat);
            assert(integer_layout(a) + x =~= seq!['-'] + (decimal_text(p) + x));
            assert(integer_layout(b) + y =~= seq!['-'] + (decimal_text(q) + y));
            lemma_same_head(seq!['-'], decimal_text(p) + x, seq!['-'], decimal_text(q) + y);
            lemma_decimals_part(p, x, q, y);
        },
        _ => {
            assert(false);
        },
    }
}

proof fn lemma_items_part(a: Seq<JsonModel>, x: Seq<char>, b: Seq<JsonModel>, y: Seq<char>)
    requires
        forall|i: int| 0 <= i < a.len() ==> integers_only(#[trigger] a[i]),
        forall|i: int| 0 <= i < b.len() ==> integers_only(#[trigger] b[i]),
        items_layout(a) + seq![']'] + x == items_layout(b) + seq![']'] + y,
    ensures
        a == b,
        x == y,
    decreases a, 0nat,
{
    let (s, t) = (items_layout(a) + seq![']'] + x, items_layout(b) + seq![']'] + y);
    let p = if a.len() > 1 {
        seq![','] + (items_layout(a.skip(1)) + seq![']'] + x)
    } else {
        seq![']'] + x
    };
    let q = if b.len() > 1 {
        seq![','] + (items_layout(b.skip(1)) + seq![']'] + y)
    } else {
        seq![']'] + y
    };
    if a.len() > 0 {
        lemma_begins(a[0]);
        assert(s =~= layout(a[0]) + p);
        assert(s[0] == layout(a[0])[0]);
    } else {
        assert(s =~= p);
    }
    if b.len() > 0 {
        lemma_begins(b[0]);
        assert(t =~= layout(b[0]) + q);
        assert(t[0] == layout(b[0])[0]);
    } else {
        assert(t =~= q);
    }
    if a.len() == 0 || b.len() == 0 {
        assert(a.len() == 0 && b.len() == 0);
        assert(a =~= b);
        lemma_same_head(seq![']'], x, seq![']'], y);
    } else {
        lemma_layouts_part(a[0], p, b[0], q);
        assert(p[0] == q[0]);
        if a.len() == 1 {
            assert(b.len() == 1);
            assert(a =~= b);
            lemma_same_head(seq![']'], x, seq![']'], y);
        } else {
            assert(b.len() > 1);
            lemma_same_head(
                seq![','],
                items_layout(a.skip(1)) + seq![']'] + x,
                seq![','],
                items_layout(b.skip(1)) + seq![']'] + y,
            );
            assert forall|i: int| 0 <= i < a.skip(1).len() implies integers_only(
                #[trigger] a.skip(1)[i],
            ) by {
                assert(a.skip(1)[i] == a[i + 1]);
            }
            assert forall|i: int| 0 <= i < b.skip(1).len() implies integers_only(
                #[trigger] b.skip(1)[i],
            ) by {
                assert(b.skip(1)[i] == b[i + 1]);
            }
            lemma_items_part(a.skip(1), x, b.skip(1), y);
            assert(a =~= seq![a[0]] + a.skip(1));
            assert(b =~= seq![b[0]] + b.skip(1));
        }
    }
}

proof fn lemma_fields_part(
    f: Map<Seq<char>, JsonModel>,
    ks: Seq<Seq<char>>,
    x: Seq<char>,
    g: Map<Seq<char>, JsonModel>,
    ls: Seq<Seq<char>>,
    y: Seq<char>,
)
    requires
        integers_only(JsonModel::Object(f)),
        integers_only(JsonModel::Object(g)),
        forall|k: Seq<char>| #[trigger] ks.contains(k) ==> f.contains_key(k),
        forall|k: Seq<char>| #[trigger] ls.contains(k) ==> g.contains_key(k),
        fields_layout(f, ks) + seq!['}'] + x == fields_layout(g, ls) + seq!['}'] + y,
    ensures
        ks == ls,
        forall|k: Seq<char>| #[trigger] ks.contains(k) ==> f[k] == g[k],
        x == y,
    decreases f, ks.len(),
{
    let (s, t) = (fields_layout(f, ks) + seq!['}'] + x, fields_layout(g, ls) + seq!['}'] + y);
    let p = if ks.len() > 1 {
        seq![','] + (fields_layout(f, ks.skip(1)) + seq!['}'] + x)
    } else {
        seq!['}'] + x
    };
    let q = if ls.len() > 1 {
        seq![','] + (fields_layout(g, ls.skip(1)) + seq!['}'] + y)
    } else {
        seq!['}'] + y
    };
    if ks.len() > 0 {
        assert(ks.contains(ks[0]));
        assert(field_layout(f, ks[0]) == quoted(ks[0]) + seq![':'] + layout(f[ks[0]]));
        assert(s =~= field_layout(f, ks[0]) + p);
        assert(s =~= quoted(ks[0]) + (seq![':'] + (layout(f[ks[0]]) + p)));
        assert(s[0] == '"');
    } else {
        assert(s =~= p);
    }
    if ls.len() > 0 {
        assert(ls.contains(ls[0]));
        assert(field_layout(g, ls[0]) == quoted(ls[0]) + seq![':'] + layout(g[ls[0]]));
        assert(t =~= field_layout(g, ls[0]) + q);
        assert(t =~= quoted(ls[0]) + (seq![':'] + (layout(g[ls[0]]) + q)));
        assert(t[0] == '"');
    } else {
        assert(t =~= q);
    }
    if ks.len() == 0 || ls.len() == 0 {
        assert(ks.len() == 0 && ls.len() == 0);
        assert(ks =~= ls);
        lemma_same_head(seq!['}'], x, seq!['}'], y);
    } else {
        let (k, l) = (ks[0], ls[0]);
        lemma_quoted_part(
            k,
            seq![':'] + (layout(f[k]) + p),
            l,
            seq![':'] + (layout(g[l]) + q),
        );
        lemma_same_head(seq![':'], layout(f[k]) + p, seq![':'], layout(g[l]) + q);
        assert(f.contains_key(k) && g.contains_key(l));
        lemma_layouts_part(f[k], p, g[l], q);
        assert(p[0] == q[0]);
        if ks.len() == 1 {
            assert(ls.len() == 1);
            assert(ks =~= ls);
            lemma_same_head(seq!['}'], x, seq!['}'], y);
        } else {
            assert(ls.len() > 1);
            let (kr, lr) = (ks.skip(1), ls.skip(1));
            lemma_same_head(
                seq![','],
                fields_layout(f, kr) + seq!['}'] + x,
                seq![','],
                fields_layout(g, lr) + seq!['}'] + y,
            );
            assert forall|n: Seq<char>| #[trigger] kr.contains(n) implies f.contains_key(n) by {
                let i = choose|i: int| 0 <= i < kr.len() && kr[i] == n;
                assert(ks[i + 1] == n);
                assert(ks.contains(n));
            }
            assert forall|n: Seq<char>| #[trigger] lr.contains(n) implies g.contains_key(n) by {
                let i = choose|i: int| 0 <= i < lr.len() && lr[i] == n;
                assert(ls[i + 1] == n);
                assert(ls.contains(n));
            }
            lemma_fields_part(f, kr, x, g, lr, y);
            assert(ks =~= seq![k] + kr);
            assert(ls =~= seq![l] + lr);
            assert forall|n: Seq<char>| #[trigger] ks.contains(n) implies f[n] == g[n] by {
                let i = choose|i: int| 0 <= i < ks.len() && ks[i] == n;
                if i > 0 {
                    assert(kr[i - 1] == n);
                    assert(kr.contains(n));
                }
            }
        }
    }
}

/// The text tells the value: two values whose numbers are integers have one text exactly
/// where they are the same value.
pub proof fn law_layout_tells_the_value(v: JsonModel, w: JsonModel)
    requires
        integers_only(v),
        integers_only(w),
    ensures
        layout(v) == layout(w) <==> v == w,
{
    if layout(v) == layout(w) {
        lemma_layouts_part(v, Seq::empty(), w, Seq::empty());
    }
}

} // verus!
