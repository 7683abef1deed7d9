//! Text primitives on character sequences: ordering, trimming and
//! case-insensitive comparison.

use vstd::prelude::*;

verus! {

/// How one string sorts against another.
#[derive(Clone, Copy, Debug, PartialEq, Eq, Structural)]
pub enum Order {
    Before,
    Same,
    After,
}

/// `a` sorts strictly before `b` when compared character by character on
/// Unicode code points, a proper prefix coming first. UTF-8 preserves this
/// order, so it is also the byte order of the two strings.
pub open spec fn lex_lt(a: Seq<char>, b: Seq<char>) -> bool
    decreases a.len(),
{
    if b.len() == 0 {
        false
    } else if a.len() == 0 {
        true
    } else if a[0] != b[0] {
        a[0] < b[0]
    } else {
        lex_lt(a.drop_first(), b.drop_first())
    }
}

/// The sequences stand in strictly increasing order; in particular no
/// sequence occurs twice.
pub open spec fn strictly_sorted(items: Seq<Seq<char>>) -> bool {
    forall|i: int, j: int| 0 <= i < j < items.len() ==> lex_lt(items[i], items[j])
}

/// Nothing sorts before itself.
pub proof fn law_order_irreflexive(a: Seq<char>)
    ensures
        !lex_lt(a, a),
    decreases a.len(),
{
    if a.len() > 0 {
        law_order_irreflexive(a.drop_first());
    }
}

/// The order is transitive.
pub proof fn law_order_transitive(a: Seq<char>, b: Seq<char>, c: Seq<char>)
    requires
        lex_lt(a, b),
        lex_lt(b, c),
    ensures
        lex_lt(a, c),
    decreases a.len(),
{
    if a.len() > 0 && a[0] == b[0] && b[0] == c[0] {
        law_order_transitive(a.drop_first(), b.drop_first(), c.drop_first());
    }
}

/// Of two different sequences one sorts before the other.
pub proof fn law_order_total(a: Seq<char>, b: Seq<char>)
    ensures
        a == b || lex_lt(a, b) || lex_lt(b, a),
    decreases a.len(),
{
    if a.len() == 0 {
        if b.len() == 0 {
            assert(a =~= b);
        }
    } else if b.len() > 0 {
        if a[0] == b[0] {
            law_order_total(a.drop_first(), b.drop_first());
            if a.drop_first() == b.drop_first() {
                assert(a =~= seq![a[0]] + a.drop_first());
                assert(b =~= seq![b[0]] + b.drop_first());
            }
        }
    }
}

/// The first place at which two sequences differ decides their order: the
/// smaller code point sorts first, and so does a sequence that ends there.
pub proof fn law_first_difference_decides_order(a: Seq<char>, b: Seq<char>)
    ensures
        lex_lt(a, b) <==> exists|k: int|
            0 <= k <= a.len() && k < b.len() && #[trigger] a.take(k) == b.take(k) && (k == a.len()
                || a[k] < b[k]),
{
    if exists|k: int|
        0 <= k <= a.len() && k < b.len() && #[trigger] a.take(k) == b.take(k) && (k == a.len() || a[k] < b[k]) {
        let k = choose|k: int|
            0 <= k <= a.len() && k < b.len() && #[trigger] a.take(k) == b.take(k) && (k == a.len()
                || a[k] < b[k]);
        lemma_order_skips_common_prefix(a, b, k);
        if k < a.len() {
            assert(a.skip(k)[0] == a[k]);
        }
        assert(b.skip(k)[0] == b[k]);
    }
    if lex_lt(a, b) {
        let k = lemma_first_difference(a, b);
        assert(a.take(k) == b.take(k));
    }
}

/// Where sequences in order first differ.
proof fn lemma_first_difference(a: Seq<char>, b: Seq<char>) -> (k: int)
    requires
        lex_lt(a, b),
    ensures
        0 <= k <= a.len(),
        k < b.len(),
        a.take(k) == b.take(k),
        k == a.len() || a[k] < b[k],
    decreases a.len(),
{
    if a.len() == 0 || a[0] != b[0] {
        assert(a.take(0) =~= b.take(0));
        0
    } else {
        let k = lemma_first_difference(a.drop_first(), b.drop_first());
        assert forall|i: int| 0 <= i < k + 1 implies #[trigger] a[i] == b[i] by {
            if i > 0 {
                assert(a.drop_first().take(k)[i - 1] == b.drop_first().take(k)[i - 1]);
            }
        }
        assert(a.take(k + 1) =~= b.take(k + 1));
        k + 1
    }
}

/// Of two items of a sorted sequence, the one that stands first sorts first.
pub proof fn law_sorted_items_stand_in_order(items: Seq<Seq<char>>, i: int, j: int)
    requires
        strictly_sorted(items),
        0 <= i < j < items.len(),
    ensures
        lex_lt(items[i], items[j]),
        items[i] != items[j],
{
    law_order_irreflexive(items[i]);
}

/// The characters of a string, in order.
pub fn chars_of(text: &str) -> (chars: Vec<char>)
    ensures
        chars@ == text@,
{
    let mut chars: Vec<char> = Vec::new();
    for c in it: text.chars()
        invariant
            it.seq() == text@,
            chars@ == text@.take(it.index() as int),
    {
        chars.push(c);
    }
    assert(text@.take(text@.len() as int) =~= text@);
    chars
}

/// A common prefix does not influence the order.
proof fn lemma_order_skips_common_prefix(a: Seq<char>, b: Seq<char>, n: int)
    requires
        0 <= n <= a.len(),
        n <= b.len(),
        a.take(n) == b.take(n),
    ensures
        lex_lt(a, b) == lex_lt(a.skip(n), b.skip(n)),
    decreases n,
{
    if n == 0 {
        assert(a.skip(0) =~= a);
        assert(b.skip(0) =~= b);
    } else {
        assert(a[0] == a.take(n)[0] && b[0] == b.take(n)[0]);
        assert(a.drop_first().take(n - 1) =~= a.take(n).drop_first());
        assert(b.drop_first().take(n - 1) =~= b.take(n).drop_first());
        lemma_order_skips_common_prefix(a.drop_first(), b.drop_first(), n - 1);
        assert(a.drop_first().skip(n - 1) =~= a.skip(n));
        assert(b.drop_first().skip(n - 1) =~= b.skip(n));
    }
}

/// Compares two strings in the order of [`lex_lt`].
pub fn compare(a: &str, b: &str) -> (order: Order)
    ensures
        order == Order::Same <==> a@ == b@,
        order == Order::Before <==> lex_lt(a@, b@),
        order == Order::After <==> lex_lt(b@, a@),
{
    let left = chars_of(a);
    let right = chars_of(b);
    proof {
        law_order_irreflexive(a@);
    }
    let mut i: usize = 0;
    while i < left.len() && i < right.len() && left[i] == right[i]
        invariant
            left@ == a@,
            right@ == b@,
            i <= left.len(),
            i <= right.len(),
            a@.take(i as int) == b@.take(i as int),
        decreases left.len() - i,
    {
        assert(a@.take(i + 1) =~= a@.take(i as int).push(a@[i as int]));
        assert(b@.take(i + 1) =~= b@.take(i as int).push(b@[i as int]));
        i = i + 1;
    }
    proof {
        lemma_order_skips_common_prefix(a@, b@, i as int);
        lemma_order_skips_common_prefix(b@, a@, i as int);
    }
    if i == left.len() {
        if i == right.len() {
            assert(a@.take(i as int) =~= a@);
            assert(b@.take(i as int) =~= b@);
            Order::Same
        } else {
            Order::Before
        }
    } else if i == right.len() {
        Order::After
    } else if left[i] < right[i] {
        assert(a@[i as int] != b@[i as int]);
        Order::Before
    } else {
        assert(a@[i as int] != b@[i as int]);
        Order::After
    }
}

/// Tells whether two strings hold the same characters.
pub fn same_text(a: &str, b: &str) -> (same: bool)
    ensures
        same == (a@ == b@),
{
    match compare(a, b) {
        Order::Same => true,
        Order::Before | Order::After => false,
    }
}

/// Tells whether a list of strings holds the given characters.
pub fn list_holds(list: &[String], text: &str) -> (found: bool)
    ensures
        found == texts(list@).contains(text@),
{
    for i in 0..list.len()
        invariant
            forall|j: int| 0 <= j < i ==> (#[trigger] list@[j])@ != text@,
    {
        if same_text(list[i].as_str(), text) {
            assert(texts(list@)[i as int] == text@);
            return true;
        }
    }
    assert forall|j: int| 0 <= j < texts(list@).len() implies #[trigger] texts(list@)[j] != text@ by {
        assert(list@[j]@ != text@);
    }
    false
}

/// The character sequences of a list of strings.
pub open spec fn texts(list: Seq<String>) -> Seq<Seq<char>> {
    list.map_values(|text: String| text@)
}

/// A list of strings has the texts of its strings, each at its place.
pub proof fn law_texts_are_those_of_the_strings(list: Seq<String>)
    ensures
        texts(list).len() == list.len(),
        forall|i: int| 0 <= i < list.len() ==> #[trigger] texts(list)[i] == list[i]@,
{
}

/// The code points with the Unicode property White_Space.
pub open spec fn is_white_space(c: char) -> bool {
    ||| '\u{9}' <= c <= '\u{d}'
    ||| c == '\u{20}'
    ||| c == '\u{85}'
    ||| c == '\u{a0}'
    ||| c == '\u{1680}'
    ||| '\u{2000}' <= c <= '\u{200a}'
    ||| c == '\u{2028}'
    ||| c == '\u{2029}'
    ||| c == '\u{202f}'
    ||| c == '\u{205f}'
    ||| c == '\u{3000}'
}

/// White space is a matter of these code points.
pub proof fn law_white_space_code_points(c: char)
    ensures
        is_white_space(c) <==> {
            let code = c as u32;
            9 <= code <= 13 || code == 32 || code == 133 || code == 160 || code == 5760 || 8192
                <= code <= 8202 || code == 8232 || code == 8233 || code == 8239 || code == 8287
                || code == 12288
        },
{
}

/// The text without its leading and trailing white space.
pub open spec fn trimmed(text: Seq<char>) -> Seq<char>
    decreases text.len(),
{
    if text.len() == 0 {
        text
    } else if is_white_space(text[0]) {
        trimmed(text.drop_first())
    } else if is_white_space(text.last()) {
        trimmed(text.drop_last())
    } else {
        text
    }
}

/// Tells whether a character is white space.
pub fn white_space(c: char) -> (yes: bool)
    ensures
        yes == is_white_space(c),
{
    ('\u{9}' <= c && c <= '\u{d}') || c == '\u{20}' || c == '\u{85}' || c == '\u{a0}'
        || c == '\u{1680}' || ('\u{2000}' <= c && c <= '\u{200a}') || c == '\u{2028}'
        || c == '\u{2029}' || c == '\u{202f}' || c == '\u{205f}' || c == '\u{3000}'
}

/// Cuts the white space off both ends of a string.
#[verifier::spinoff_prover]
#[verifier::rlimit(50)]
pub fn trim(text: &str) -> (inner: &str)
    ensures
        inner@ == trimmed(text@),
{
    let chars = chars_of(text);
    let mut from: usize = 0;
    let mut to: usize = chars.len();
    assert(text@.subrange(0, to as int) =~= text@);
    while from < to && white_space(chars[from])
        invariant
            chars@ == text@,
            from <= to == chars.len(),
            trimmed(text@) == trimmed(text@.subrange(from as int, to as int)),
        decreases to - from,
    {
        assert(text@.subrange(from as int, to as int).drop_first() =~= text@.subrange(
            from + 1,
            to as int,
        ));
        from = from + 1;
    }
    while from < to && white_space(chars[to - 1])
        invariant
            chars@ == text@,
            from <= to <= chars.len(),
            from < to ==> !is_white_space(chars@[from as int]),
            trimmed(text@) == trimmed(text@.subrange(from as int, to as int)),
        decreases to - from,
    {
        assert(text@.subrange(from as int, to as int).drop_last() =~= text@.subrange(
            from as int,
            to - 1,
        ));
        to = to - 1;
    }
    text.substring_char(from, to)
}

/// Trimming cuts white space off both ends and keeps everything between: the
/// result is a stretch of the text, all around it is white space, and it
/// neither starts nor ends with white space.
pub proof fn law_trimming_cuts_white_space_only(text: Seq<char>)
    ensures
        exists|from: int, to: int|
            {
                &&& 0 <= from <= to <= text.len()
                &&& trimmed(text) == #[trigger] text.subrange(from, to)
                &&& forall|j: int| 0 <= j < from ==> is_white_space(#[trigger] text[j])
                &&& forall|j: int| to <= j < text.len() ==> is_white_space(#[trigger] text[j])
                &&& from < to ==> !is_white_space(text[from]) && !is_white_space(text[to - 1])
            },
{
    let (from, to) = lemma_trimmed_stretch(text);
    assert(trimmed(text) == text.subrange(from, to));
}

/// A text that neither starts nor ends with white space is trimmed already.
pub proof fn law_trimming_keeps_what_stands_clear(text: Seq<char>)
    requires
        text.len() > 0,
        !is_white_space(text[0]),
        !is_white_space(text.last()),
    ensures
        trimmed(text) == text,
{
    let (from, to) = lemma_trimmed_stretch(text);
    assert(from == 0 && to == text.len());
    assert(text.subrange(from, to) =~= text);
}

/// Nothing is left of a text exactly when all of it is white space.
pub proof fn law_trimming_leaves_nothing_of_blank_text(text: Seq<char>)
    ensures
        trimmed(text).len() == 0 <==> forall|j: int|
            0 <= j < text.len() ==> is_white_space(#[trigger] text[j]),
{
    let (from, to) = lemma_trimmed_stretch(text);
    if from < to {
        assert(!is_white_space(text[from]));
    }
}

/// The stretch of a text that is left when it is trimmed.
#[verifier::spinoff_prover]
#[verifier::rlimit(50)]
proof fn lemma_trimmed_stretch(text: Seq<char>) -> (stretch: (int, int))
    ensures
        0 <= stretch.0 <= stretch.1 <= text.len(),
        trimmed(text) == text.subrange(stretch.0, stretch.1),
        forall|j: int| 0 <= j < stretch.0 ==> is_white_space(#[trigger] text[j]),
        forall|j: int| stretch.1 <= j < text.len() ==> is_white_space(#[trigger] text[j]),
        stretch.0 < stretch.1 ==> !is_white_space(text[stretch.0]) && !is_white_space(
            text[stretch.1 - 1],
        ),
    decreases text.len(),
{
    if text.len() == 0 {
        assert(text.subrange(0, 0) =~= text);
        (0, 0)
    } else if is_white_space(text[0]) {
        let rest = text.drop_first();
        let (from, to) = lemma_trimmed_stretch(rest);
        assert(rest.subrange(from, to) =~= text.subrange(from + 1, to + 1));
        assert forall|j: int| 0 <= j < from + 1 implies is_white_space(#[trigger] text[j]) by {
            if j > 0 {
                assert(is_white_space(rest[j - 1]));
            }
        }
        assert forall|j: int| to + 1 <= j < text.len() implies is_white_space(#[trigger] text[j]) by {
            assert(is_white_space(rest[j - 1]));
        }
        (from + 1, to + 1)
    } else if is_white_space(text.last()) {
        let rest = text.drop_last();
        let (from, to) = lemma_trimmed_stretch(rest);
        assert(rest.subrange(from, to) =~= text.subrange(from, to));
        assert forall|j: int| 0 <= j < from implies is_white_space(#[trigger] text[j]) by {
            assert(is_white_space(rest[j]));
        }
        assert forall|j: int| to <= j < text.len() implies is_white_space(#[trigger] text[j]) by {
            if j < rest.len() {
                assert(is_white_space(rest[j]));
            }
        }
        (from, to)
    } else {
        assert(text.subrange(0, text.len() as int) =~= text);
        (0, text.len() as int)
    }
}

/// Trimming a trimmed text changes nothing.
pub proof fn law_trimmed_idempotent(text: Seq<char>)
    ensures
        trimmed(trimmed(text)) == trimmed(text),
    decreases text.len(),
{
    if text.len() > 0 {
        if is_white_space(text[0]) {
            law_trimmed_idempotent(text.drop_first());
        } else if is_white_space(text.last()) {
            law_trimmed_idempotent(text.drop_last());
        }
    }
}

/// The lower-case form of an ASCII letter; every other character as it is.
pub open spec fn ascii_lower(c: char) -> char {
    if 'A' <= c <= 'Z' {
        (c as u32 + 32) as char
    } else {
        c
    }
}

/// Two texts are equal but for the case of ASCII letters.
pub open spec fn same_but_ascii_case(a: Seq<char>, b: Seq<char>) -> bool {
    a.len() == b.len() && forall|i: int|
        0 <= i < a.len() ==> ascii_lower(#[trigger] a[i]) == ascii_lower(b[i])
}

/// Two texts count as equal but for case exactly when they are as long as
/// each other and at each place hold the same character, or an ASCII letter
/// in its two cases.
pub proof fn law_ascii_case_alone_may_differ(a: Seq<char>, b: Seq<char>)
    ensures
        same_but_ascii_case(a, b) <==> a.len() == b.len() && forall|i: int|
            0 <= i < a.len() ==> {
                ||| #[trigger] a[i] == b[i]
                ||| 65 <= a[i] as u32 <= 90 && b[i] as u32 == a[i] as u32 + 32
                ||| 65 <= b[i] as u32 <= 90 && a[i] as u32 == b[i] as u32 + 32
            },
{
}

/// The code point of [`ascii_lower`].
fn ascii_lower_code(c: char) -> (code: u32)
    ensures
        code == ascii_lower(c) as u32,
{
    let code: u32 = c as u32;
    if 65 <= code && code <= 90 {
        code + 32
    } else {
        code
    }
}

/// Compares two strings, ignoring the case of ASCII letters.
pub fn eq_ignore_ascii_case(a: &str, b: &str) -> (same: bool)
    ensures
        same == same_but_ascii_case(a@, b@),
{
    let left = chars_of(a);
    let right = chars_of(b);
    if left.len() != right.len() {
        return false;
    }
    for i in 0..left.len()
        invariant
            left@ == a@,
            right@ == b@,
            left.len() == right.len(),
            forall|j: int| 0 <= j < i ==> ascii_lower(#[trigger] a@[j]) == ascii_lower(b@[j]),
    {
        if ascii_lower_code(left[i]) != ascii_lower_code(right[i]) {
            assert(ascii_lower(a@[i as int]) != ascii_lower(b@[i as int]));
            return false;
        }
        assert(ascii_lower(a@[i as int]) == ascii_lower(b@[i as int]));
    }
    true
}

} // verus!
