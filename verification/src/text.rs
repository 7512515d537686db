//! Characters and strings: words, numbers, UTF-8 and UTF-16 text, ligatures.

use crate::bytes;
use vstd::prelude::*;
use vstd::string::StringSliceAdditionalSpecFns;

verus! {

/// What `String::from_utf8_lossy` makes of `bytes`: the text they encode, with
/// U+FFFD in place of every malformed sequence.
pub uninterp spec fn utf8_lossy(bytes: Seq<u8>) -> Seq<char>;

/// Every byte is below 0x80.
pub open spec fn ascii_only(bytes: Seq<u8>) -> bool {
    forall|i: int| 0 <= i < bytes.len() ==> #[trigger] bytes[i] < 0x80
}

/// The bytes of an ASCII string, as characters.
pub open spec fn as_chars(bytes: Seq<u8>) -> Seq<char> {
    Seq::new(bytes.len(), |i: int| bytes[i] as char)
}

/// Calls `String::from_utf8_lossy` and takes ownership of the text. The result
/// is a function of the bytes; well-formed UTF-8 is decoded unchanged.
#[verifier::external_body]
pub(crate) fn from_utf8_lossy(bytes: &[u8]) -> (r: String)
    ensures
        r@ == utf8_lossy(bytes@),
        vstd::utf8::valid_utf8(bytes@) ==> r@ == vstd::utf8::decode_utf8(bytes@),
{
    String::from_utf8_lossy(bytes).into_owned()
}

#[verifier::external_type_specification]
#[verifier::external_body]
pub struct ExUtf8Error(std::str::Utf8Error);

/// `std::str::from_utf8`: the text that the bytes encode, if they are
/// well-formed UTF-8, else an error.
pub assume_specification[ std::str::from_utf8 ](v: &[u8]) -> (r: Result<
    &str,
    std::str::Utf8Error,
>)
    ensures
        r is Ok <==> vstd::utf8::valid_utf8(v@),
        r matches Ok(s) ==> s.spec_bytes() == v@,
;

/// `String::push`: appends one character.
pub assume_specification[ String::push ](s: &mut String, ch: char)
    ensures
        final(s)@ == old(s)@.push(ch),
;

/// A Unicode scalar value: a code point that is not a surrogate.
pub open spec fn is_scalar(v: u32) -> bool {
    v <= 0xD7FF || 0xE000 <= v <= 0x10FFFF
}

/// The character of a code point, where there is one.
pub open spec fn scalar_char(v: u32) -> Option<char> {
    if is_scalar(v) {
        Some(v as char)
    } else {
        None
    }
}

/// `char::from_u32`: the character of a code point that is a Unicode scalar
/// value, `None` for every other number.
pub assume_specification[ char::from_u32 ](i: u32) -> (r: Option<char>)
    ensures
        r == scalar_char(i),
;

/// The characters of a string.
pub fn chars_of(s: &str) -> (r: Vec<char>)
    ensures
        r@ == s@,
{
    let mut r: Vec<char> = Vec::new();
    for c in it: s.chars()
        invariant
            it.seq() == s@,
            r@ == s@.take(it.index()),
    {
        r.push(c);
        assert(r@ =~= s@.take(it.index() + 1));
    }
    assert(s@.take(s@.len() as int) =~= s@);
    r
}

/// The string of the given characters.
pub fn string_of(chars: &[char]) -> (r: String)
    ensures
        r@ == chars@,
{
    let mut r: String = String::new();
    push_chars(&mut r, chars);
    assert(r@ =~= chars@);
    r
}

/// Append characters to a string.
pub fn push_chars(out: &mut String, chars: &[char])
    ensures
        final(out)@ == old(out)@ + chars@,
{
    let mut i: usize = 0;
    while i < chars.len()
        invariant
            i <= chars.len(),
            out@ == old(out)@ + chars@.take(i as int),
        decreases chars.len() - i,
    {
        out.push(chars[i]);
        i += 1;
        assert(out@ =~= old(out)@ + chars@.take(i as int));
    }
    assert(chars@.take(i as int) =~= chars@);
    assert(out@ =~= old(out)@ + chars@);
}

/// Append a string to a string.
pub fn push_text(out: &mut String, s: &str)
    ensures
        final(out)@ == old(out)@ + s@,
{
    for c in it: s.chars()
        invariant
            it.seq() == s@,
            out@ == old(out)@ + s@.take(it.index()),
    {
        out.push(c);
        assert(out@ =~= old(out)@ + s@.take(it.index() + 1));
    }
    assert(s@.take(s@.len() as int) =~= s@);
}

/// Whether two strings are the same.
pub fn same_text(a: &str, b: &str) -> (r: bool)
    ensures
        r == (a@ == b@),
{
    proof {
        vstd::utf8::encode_utf8_decode_utf8(a@);
        vstd::utf8::encode_utf8_decode_utf8(b@);
    }
    bytes::same_bytes(a.as_bytes(), b.as_bytes())
}

/// The string of an ASCII byte string.
pub fn ascii_string(bytes: &[u8]) -> (r: String)
    requires
        ascii_only(bytes@),
    ensures
        r@ == as_chars(bytes@),
{
    let mut r: String = String::new();
    let mut i: usize = 0;
    while i < bytes.len()
        invariant
            i <= bytes.len(),
            ascii_only(bytes@),
            r@ == as_chars(bytes@.take(i as int)),
        decreases bytes.len() - i,
    {
        r.push(bytes[i] as char);
        i += 1;
        assert(r@ =~= as_chars(bytes@.take(i as int)));
    }
    assert(bytes@.take(i as int) =~= bytes@);
    r
}

/// Whether two character strings are the same.
pub fn same_chars(a: &[char], b: &[char]) -> (r: bool)
    ensures
        r == (a@ == b@),
{
    if a.len() != b.len() {
        return false;
    }
    let mut i: usize = 0;
    while i < a.len()
        invariant
            i <= a.len(),
            a.len() == b.len(),
            forall|j: int| 0 <= j < i ==> a@[j] == b@[j],
        decreases a.len() - i,
    {
        if a[i] != b[i] {
            return false;
        }
        i += 1;
    }
    assert(a@ =~= b@);
    true
}

/// Whether a character string spells the given word.
pub fn spells(a: &[char], word: &str) -> (r: bool)
    ensures
        r == (a@ == word@),
{
    let w = chars_of(word);
    same_chars(a, w.as_slice())
}

/// The characters with the Unicode `White_Space` property.
pub open spec fn is_white(c: char) -> bool {
    let v = c as u32;
    ||| 0x9 <= v <= 0xD
    ||| v == 0x20
    ||| v == 0x85
    ||| v == 0xA0
    ||| v == 0x1680
    ||| 0x2000 <= v <= 0x200A
    ||| v == 0x2028
    ||| v == 0x2029
    ||| v == 0x202F
    ||| v == 0x205F
    ||| v == 0x3000
}

/// Whether a character is white space.
pub fn white(c: char) -> (r: bool)
    ensures
        r == is_white(c),
{
    let v: u32 = c as u32;
    (0x9 <= v && v <= 0xD) || v == 0x20 || v == 0x85 || v == 0xA0 || v == 0x1680 || (0x2000 <= v
        && v <= 0x200A) || v == 0x2028 || v == 0x2029 || v == 0x202F || v == 0x205F || v == 0x3000
}

/// The number of characters before the first white space.
pub open spec fn word_len(s: Seq<char>) -> nat
    decreases s.len(),
{
    if s.len() > 0 && !is_white(s[0]) {
        1 + word_len(s.drop_first())
    } else {
        0
    }
}

/// A word does not run past the end of the text.
pub proof fn lemma_word_len(s: Seq<char>)
    ensures
        word_len(s) <= s.len(),
    decreases s.len(),
{
    if s.len() > 0 && !is_white(s[0]) {
        lemma_word_len(s.drop_first());
    }
}

/// The maximal runs of characters that are not white space, in order.
pub open spec fn words(s: Seq<char>) -> Seq<Seq<char>>
    decreases s.len(),
{
    if s.len() == 0 {
        Seq::empty()
    } else if is_white(s[0]) {
        words(s.drop_first())
    } else {
        proof {
            lemma_word_len(s);
        }
        seq![s.take(word_len(s) as int)] + words(s.skip(word_len(s) as int))
    }
}

/// The characters of each word.
pub open spec fn word_views(v: Seq<Vec<char>>) -> Seq<Seq<char>> {
    v.map_values(|w: Vec<char>| w@)
}

/// Split a text at white space.
pub fn split_words(s: &[char]) -> (r: Vec<Vec<char>>)
    ensures
        word_views(r@) == words(s@),
{
    let mut r: Vec<Vec<char>> = Vec::new();
    let mut i: usize = 0;
    assert(s@.skip(0) =~= s@);
    assert(word_views(r@) + words(s@) =~= words(s@));
    while i < s.len()
        invariant
            i <= s.len(),
            word_views(r@) + words(s@.skip(i as int)) == words(s@),
        decreases s.len() - i,
    {
        let ghost rest = s@.skip(i as int);
        if white(s[i]) {
            assert(rest.drop_first() =~= s@.skip(i + 1));
            i += 1;
        } else {
            let start: usize = i;
            let mut w: Vec<char> = Vec::new();
            assert(rest.skip(0) =~= rest);
            while i < s.len() && !white(s[i])
                invariant
                    start <= i <= s.len(),
                    rest == s@.skip(start as int),
                    w@ == rest.take(i - start),
                    word_len(rest) == (i - start) + word_len(rest.skip(i - start)),
                decreases s.len() - i,
            {
                w.push(s[i]);
                assert(rest.skip(i - start).drop_first() =~= rest.skip(i + 1 - start));
                i += 1;
                assert(w@ =~= rest.take(i - start));
            }
            proof {
                assert(word_len(rest.skip(i - start)) == 0);
                assert(word_len(rest) == i - start);
                assert(i > start) by {
                    if i == start {
                        assert(rest.skip(0) =~= rest);
                    }
                }
                assert(rest.skip(i - start) =~= s@.skip(i as int));
            }
            let ghost before = r@;
            r.push(w);
            proof {
                assert(word_views(r@) =~= word_views(before).push(w@));
                assert(words(rest) == seq![rest.take(i - start)] + words(s@.skip(i as int)));
                assert(word_views(before) + words(rest) =~= word_views(r@) + words(
                    s@.skip(i as int),
                ));
            }
        }
    }
    assert(s@.skip(i as int) =~= Seq::<char>::empty());
    assert(word_views(r@) + words(s@.skip(i as int)) =~= word_views(r@));
    r
}

/// The text without leading white space.
pub open spec fn trim_front(s: Seq<char>) -> Seq<char>
    decreases s.len(),
{
    if s.len() > 0 && is_white(s[0]) {
        trim_front(s.drop_first())
    } else {
        s
    }
}

/// The text without trailing white space.
pub open spec fn trim_back(s: Seq<char>) -> Seq<char>
    decreases s.len(),
{
    if s.len() > 0 && is_white(s.last()) {
        trim_back(s.drop_last())
    } else {
        s
    }
}

/// The text without white space at either end.
pub open spec fn trimmed(s: Seq<char>) -> Seq<char> {
    trim_back(trim_front(s))
}

/// What is trimmed begins and ends without white space, and is not trimmed
/// further.
pub proof fn lemma_trimmed(s: Seq<char>)
    ensures
        trimmed(s).len() > 0 ==> !is_white(trimmed(s)[0]) && !is_white(trimmed(s).last()),
        trimmed(trimmed(s)) == trimmed(s),
{
    lemma_trim_front(s);
    lemma_trim_back(trim_front(s));
    lemma_trim_front(trimmed(s));
    lemma_trim_back(trimmed(s));
}

proof fn lemma_trim_front(s: Seq<char>)
    ensures
        trim_front(s).len() > 0 ==> !is_white(trim_front(s)[0]),
        s.len() > 0 && !is_white(s[0]) ==> trim_front(s) == s,
        s.len() == 0 ==> trim_front(s) == s,
    decreases s.len(),
{
    if s.len() > 0 && is_white(s[0]) {
        lemma_trim_front(s.drop_first());
    }
}

proof fn lemma_trim_back(s: Seq<char>)
    ensures
        trim_back(s).len() > 0 ==> !is_white(trim_back(s).last()) && trim_back(s)[0] == s[0],
        s.len() > 0 && !is_white(s.last()) ==> trim_back(s) == s,
        s.len() == 0 ==> trim_back(s) == s,
    decreases s.len(),
{
    if s.len() > 0 && is_white(s.last()) {
        lemma_trim_back(s.drop_last());
    }
}

/// The part of the text without white space at either end.
pub fn trim(s: &[char]) -> (r: Vec<char>)
    ensures
        r@ == trimmed(s@),
{
    let mut a: usize = 0;
    assert(s@.skip(0) =~= s@);
    while a < s.len() && white(s[a])
        invariant
            a <= s.len(),
            trim_front(s@) == trim_front(s@.skip(a as int)),
        decreases s.len() - a,
    {
        assert(s@.skip(a as int).drop_first() =~= s@.skip(a + 1));
        a += 1;
    }
    let ghost front = s@.skip(a as int);
    assert(trim_front(s@) == front);
    let mut b: usize = s.len();
    assert(front.take(b - a) =~= front);
    while b > a && white(s[b - 1])
        invariant
            a <= b <= s.len(),
            front == s@.skip(a as int),
            trim_back(front) == trim_back(front.take(b - a)),
        decreases b,
    {
        assert(front.take(b - a).drop_last() =~= front.take(b - a - 1));
        b -= 1;
    }
    let mut r: Vec<char> = Vec::new();
    let mut i: usize = a;
    while i < b
        invariant
            a <= i <= b <= s.len(),
            front == s@.skip(a as int),
            r@ == front.take(i - a),
        decreases b - i,
    {
        r.push(s[i]);
        i += 1;
        assert(r@ =~= front.take(i - a));
    }
    r
}

/// A decimal digit character.
pub open spec fn is_digit_char(c: char) -> bool {
    '0' <= c <= '9'
}

/// The value of a string of digit characters.
pub open spec fn digits_value(s: Seq<char>) -> nat
    decreases s.len(),
{
    if s.len() == 0 {
        0
    } else {
        digits_value(s.drop_last()) * 10 + (s.last() as u32 - 0x30) as nat
    }
}

/// The text without a leading `+`.
pub open spec fn after_plus(s: Seq<char>) -> Seq<char> {
    if s.len() > 0 && s[0] == '+' {
        s.drop_first()
    } else {
        s
    }
}

/// An unsigned decimal number: digits, with at most one `+` before them.
pub open spec fn unsigned_value(s: Seq<char>) -> Option<nat> {
    let d = after_plus(s);
    if d.len() > 0 && forall|i: int| 0 <= i < d.len() ==> is_digit_char(#[trigger] d[i]) {
        Some(digits_value(d))
    } else {
        None
    }
}

/// A longer digit string has no smaller value than its prefix.
proof fn lemma_digits_prefix(s: Seq<char>, i: int)
    requires
        0 <= i <= s.len(),
    ensures
        digits_value(s.take(i)) <= digits_value(s),
    decreases s.len(),
{
    if i == s.len() {
        assert(s.take(i) =~= s);
    } else {
        assert(s.drop_last().take(i) =~= s.take(i));
        lemma_digits_prefix(s.drop_last(), i);
    }
}

/// Read an unsigned decimal number that is at most `limit`.
pub fn read_unsigned(s: &[char], limit: usize) -> (r: Option<usize>)
    ensures
        match r {
            Some(v) => unsigned_value(s@) == Some(v as nat) && v <= limit,
            None => unsigned_value(s@) matches Some(v) ==> v > limit,
        },
{
    let start: usize = if s.len() > 0 && s[0] == '+' {
        1
    } else {
        0
    };
    let ghost d = after_plus(s@);
    assert(d =~= s@.skip(start as int));
    if s.len() == start {
        return None;
    }
    let mut k: usize = start;
    while k < s.len()
        invariant
            start <= k <= s.len(),
            d == after_plus(s@),
            d == s@.skip(start as int),
            forall|j: int| 0 <= j < k - start ==> is_digit_char(#[trigger] d[j]),
        decreases s.len() - k,
    {
        let c: char = s[k];
        if !('0' <= c && c <= '9') {
            assert(!is_digit_char(d[k - start]));
            return None;
        }
        k += 1;
    }
    let mut v: usize = 0;
    let mut i: usize = start;
    while i < s.len()
        invariant
            start <= i <= s.len(),
            d == after_plus(s@),
            d == s@.skip(start as int),
            forall|j: int| 0 <= j < d.len() ==> is_digit_char(#[trigger] d[j]),
            unsigned_value(s@) == Some(digits_value(d)),
            v == digits_value(d.take(i - start)),
            v <= limit,
        decreases s.len() - i,
    {
        proof {
            assert(is_digit_char(d[i - start]));
            assert(d.take(i + 1 - start).drop_last() =~= d.take(i - start));
            lemma_digits_prefix(d, i + 1 - start);
        }
        let x: usize = (s[i] as u32 - 0x30) as usize;
        match v.checked_mul(10) {
            None => {
                return None;
            },
            Some(t) => match t.checked_add(x) {
                None => {
                    return None;
                },
                Some(u) => {
                    if u > limit {
                        return None;
                    }
                    v = u;
                },
            },
        }
        i += 1;
    }
    assert(d.take(i - start) =~= d);
    Some(v)
}

/// A UTF-16 unit that opens a surrogate pair.
pub open spec fn is_lead(u: u16) -> bool {
    0xD800 <= u <= 0xDBFF
}

/// A UTF-16 unit that closes a surrogate pair.
pub open spec fn is_trail(u: u16) -> bool {
    0xDC00 <= u <= 0xDFFF
}

/// The text of a sequence of UTF-16 units: each surrogate pair is one
/// character, each unpaired surrogate is U+FFFD.
pub open spec fn utf16_text(u: Seq<u16>) -> Seq<char>
    decreases u.len(),
{
    if u.len() == 0 {
        Seq::empty()
    } else if is_lead(u[0]) && u.len() > 1 && is_trail(u[1]) {
        seq![(0x10000 + (u[0] - 0xD800) * 0x400 + (u[1] - 0xDC00)) as char] + utf16_text(u.skip(2))
    } else if is_lead(u[0]) || is_trail(u[0]) {
        seq!['\u{FFFD}'] + utf16_text(u.skip(1))
    } else {
        seq![u[0] as char] + utf16_text(u.skip(1))
    }
}

/// Decode UTF-16 units.
pub fn utf16_string(u: &[u16]) -> (r: String)
    ensures
        r@ == utf16_text(u@),
{
    let mut r: String = String::new();
    let mut i: usize = 0;
    assert(u@.skip(0) =~= u@);
    assert(r@ + utf16_text(u@) =~= utf16_text(u@));
    while i < u.len()
        invariant
            i <= u.len(),
            r@ + utf16_text(u@.skip(i as int)) == utf16_text(u@),
        decreases u.len() - i,
    {
        let ghost rest = u@.skip(i as int);
        let ghost before = r@;
        let a: u32 = u[i] as u32;
        let mut c: char = '\u{FFFD}';
        let mut step: usize = 1;
        if 0xD800 <= a && a <= 0xDFFF {
            if a <= 0xDBFF && u.len() - i > 1 && 0xDC00 <= u[i + 1] && u[i + 1] <= 0xDFFF {
                let b: u32 = u[i + 1] as u32;
                let v: u32 = 0x10000 + (a - 0xD800) * 0x400 + (b - 0xDC00);
                match char::from_u32(v) {
                    Some(x) => {
                        c = x;
                    },
                    None => {},
                }
                step = 2;
            }
        } else {
            match char::from_u32(a) {
                Some(x) => {
                    c = x;
                },
                None => {},
            }
        }
        r.push(c);
        proof {
            assert(rest.skip(step as int) =~= u@.skip(i + step));
            assert(utf16_text(rest) == seq![c] + utf16_text(u@.skip(i + step)));
            assert(before + utf16_text(rest) =~= r@ + utf16_text(u@.skip(i + step)));
        }
        i += step;
    }
    assert(u@.skip(i as int) =~= Seq::<u16>::empty());
    assert(r@ + utf16_text(u@.skip(i as int)) =~= r@);
    r
}

/// A Latin presentation-form ligature spelled out; any other character is
/// itself.
pub open spec fn spelled(c: char) -> Seq<char> {
    match c {
        '\u{FB00}' => seq!['f', 'f'],
        '\u{FB01}' => seq!['f', 'i'],
        '\u{FB02}' => seq!['f', 'l'],
        '\u{FB03}' => seq!['f', 'f', 'i'],
        '\u{FB04}' => seq!['f', 'f', 'l'],
        '\u{FB05}' => seq!['f', 't'],
        '\u{FB06}' => seq!['s', 't'],
        _ => seq![c],
    }
}

/// A text with every ligature spelled out.
pub open spec fn spelled_out(s: Seq<char>) -> Seq<char>
    decreases s.len(),
{
    if s.len() == 0 {
        Seq::empty()
    } else {
        spelled_out(s.drop_last()) + spelled(s.last())
    }
}

/// A presentation-form ligature.
pub open spec fn is_ligature(c: char) -> bool {
    '\u{FB00}' <= c <= '\u{FB06}'
}

/// A text without ligatures is unchanged by spelling them out.
pub proof fn law_plain_text_is_unchanged(s: Seq<char>)
    requires
        forall|i: int| 0 <= i < s.len() ==> !is_ligature(#[trigger] s[i]),
    ensures
        spelled_out(s) == s,
    decreases s.len(),
{
    if s.len() > 0 {
        law_plain_text_is_unchanged(s.drop_last());
        assert(!is_ligature(s[s.len() - 1]));
        assert(spelled_out(s) =~= s);
    } else {
        assert(spelled_out(s) =~= s);
    }
}

/// No ligature is left once a text is spelled out.
pub proof fn law_no_ligature_is_left(s: Seq<char>)
    ensures
        forall|i: int|
            0 <= i < spelled_out(s).len() ==> !is_ligature(#[trigger] spelled_out(s)[i]),
    decreases s.len(),
{
    if s.len() > 0 {
        law_no_ligature_is_left(s.drop_last());
        let a = spelled_out(s.drop_last());
        let b = spelled(s.last());
        assert forall|i: int| 0 <= i < spelled_out(s).len() implies !is_ligature(
            #[trigger] spelled_out(s)[i],
        ) by {
            if i < a.len() {
                assert(spelled_out(s)[i] == a[i]);
            } else {
                assert(spelled_out(s)[i] == b[i - a.len()]);
            }
        }
    }
}

/// Spell out the Latin ligatures of a text.
pub fn decompose_ligatures(s: &str) -> (r: String)
    ensures
        r@ == spelled_out(s@),
{
    let mut r: String = String::new();
    for c in it: s.chars()
        invariant
            it.seq() == s@,
            r@ == spelled_out(s@.take(it.index())),
    {
        let ghost before = r@;
        let ghost k = it.index();
        match c {
            '\u{FB00}' => {
                r.push('f');
                r.push('f');
            },
            '\u{FB01}' => {
                r.push('f');
                r.push('i');
            },
            '\u{FB02}' => {
                r.push('f');
                r.push('l');
            },
            '\u{FB03}' => {
                r.push('f');
                r.push('f');
                r.push('i');
            },
            '\u{FB04}' => {
                r.push('f');
                r.push('f');
                r.push('l');
            },
            '\u{FB05}' => {
                r.push('f');
                r.push('t');
            },
            '\u{FB06}' => {
                r.push('s');
                r.push('t');
            },
            _ => {
                r.push(c);
            },
        }
        assert(s@.take(k + 1).drop_last() =~= s@.take(k));
        assert(r@ =~= before + spelled(c));
    }
    assert(s@.take(s@.len() as int) =~= s@);
    r
}

} // verus!
