//! Byte-level helpers shared by the decoder, the encoder and the name type:
//! ASCII case folding, searching, blank skipping and decimal lengths.

use vstd::prelude::*;
use vstd::string::StringSliceAdditionalSpecFns;
use vstd::utf8::decode_utf8;
use vstd::utf8::encode_utf8;
use vstd::utf8::encode_utf8_decode_utf8;
use vstd::utf8::is_ascii_chars;
use vstd::utf8::is_ascii_chars_encode_utf8;
use vstd::utf8::valid_utf8;

verus! {

/// `core::str::Utf8Error`: why bytes are no text. Nothing is known of its inside.
#[verifier::external_type_specification]
#[verifier::external_body]
pub struct ExUtf8Error(core::str::Utf8Error);

/// `core::str::from_utf8` accepts exactly the byte strings that are valid
/// UTF-8, and the text it returns is made of the bytes it was given.
pub assume_specification[ core::str::from_utf8 ](v: &[u8]) -> (r: Result<
    &str,
    core::str::Utf8Error,
>)
    ensures
        r is Ok <==> valid_utf8(v@),
        r matches Ok(s) ==> s.spec_bytes() == v@,
;

/// The text that `String::from_utf8_lossy` makes of a byte string.
pub uninterp spec fn lossy_text(bytes: Seq<u8>) -> Seq<char>;

/// `String::from_utf8_lossy`, owned: the bytes as text, each ill-formed part
/// replaced by U+FFFD. Valid UTF-8 comes back as the text it encodes.
#[verifier::external_body]
pub(crate) fn text_lossy(bytes: &[u8]) -> (r: String)
    ensures
        r@ == lossy_text(bytes@),
        valid_utf8(bytes@) ==> r@ == decode_utf8(bytes@),
{
    String::from_utf8_lossy(bytes).into_owned()
}

/// The text that `str::to_uppercase` makes of a text.
pub uninterp spec fn upper_text(text: Seq<char>) -> Seq<char>;

/// Whether `char::is_uppercase` holds of a character.
pub uninterp spec fn upper_char(c: char) -> bool;

/// Whether `char::is_alphabetic` holds of a character.
pub uninterp spec fn letter_char(c: char) -> bool;

/// `str::to_uppercase`: the text with each character in upper case.
#[verifier::external_body]
pub(crate) fn text_upper(text: &str) -> (r: String)
    ensures
        r@ == upper_text(text@),
{
    text.to_uppercase()
}

/// `char::is_uppercase`: whether the character is an upper-case letter.
#[verifier::external_body]
pub(crate) fn char_is_upper(c: char) -> (r: bool)
    ensures
        r == upper_char(c),
{
    c.is_uppercase()
}

/// `char::is_alphabetic`: whether the character is a letter.
#[verifier::external_body]
pub(crate) fn char_is_letter(c: char) -> (r: bool)
    ensures
        r == letter_char(c),
{
    c.is_alphabetic()
}

/// The decimal digits of `n` as text, most significant first, without
/// leading zeros.
pub open spec fn decimal_chars(n: nat) -> Seq<char>
    decreases n,
{
    if n < 10 {
        seq![(0x30 + n) as char]
    } else {
        decimal_chars(n / 10).push((0x30 + n % 10) as char)
    }
}

/// `itoa::Buffer::format` on a `usize`, owned: the number in decimal digits.
#[verifier::external_body]
pub(crate) fn format_length(n: usize) -> (r: String)
    ensures
        r@ == decimal_chars(n as nat),
{
    itoa::Buffer::new().format(n).to_owned()
}

/// The lower-case form of an ASCII letter; every other byte is unchanged.
pub open spec fn lower(b: u8) -> u8 {
    if 0x41 <= b <= 0x5a {
        (b + 0x20) as u8
    } else {
        b
    }
}

/// A byte string with every ASCII capital replaced by its small letter.
pub open spec fn folded(s: Seq<u8>) -> Seq<u8> {
    Seq::new(s.len(), |i: int| lower(s[i]))
}

/// Two byte strings are alike when they differ at most in ASCII letter case.
pub open spec fn alike(a: Seq<u8>, b: Seq<u8>) -> bool {
    folded(a) =~= folded(b)
}

/// Index of the first occurrence of `byte` in `s`, or `s.len()` if there is none.
pub open spec fn first_at(s: Seq<u8>, byte: u8) -> nat
    decreases s.len(),
{
    if s.len() == 0 {
        0
    } else if s[0] == byte {
        0
    } else {
        1 + first_at(s.skip(1), byte)
    }
}

/// ASCII white space: space, tab, line feed, form feed, carriage return.
pub open spec fn blank(b: u8) -> bool {
    b == 0x20 || b == 0x09 || b == 0x0a || b == 0x0c || b == 0x0d
}

/// Length of the longest prefix of `s` made of blanks only.
pub open spec fn blanks(s: Seq<u8>) -> nat
    decreases s.len(),
{
    if s.len() == 0 {
        0
    } else if !blank(s[0]) {
        0
    } else {
        1 + blanks(s.skip(1))
    }
}

/// An ASCII decimal digit.
pub open spec fn digit(b: u8) -> bool {
    0x30 <= b <= 0x39
}

/// Every byte of `s` is a decimal digit.
pub open spec fn all_digits(s: Seq<u8>) -> bool {
    forall|i: int| 0 <= i < s.len() ==> digit(#[trigger] s[i])
}

/// The number that a string of decimal digits denotes (most significant first).
pub open spec fn digits_value(s: Seq<u8>) -> nat
    decreases s.len(),
{
    if s.len() == 0 {
        0
    } else {
        digits_value(s.drop_last()) * 10 + (s.last() - 0x30) as nat
    }
}

/// The digits of a length field once an optional leading `+` is taken off.
pub open spec fn unsigned_part(s: Seq<u8>) -> Seq<u8> {
    if s.len() > 0 && s[0] == 0x2b {
        s.skip(1)
    } else {
        s
    }
}

/// A length field: an optional `+`, then one or more decimal digits whose
/// value fits the machine word. Anything else is no length.
pub open spec fn length_value(s: Seq<u8>) -> Option<nat> {
    let d = unsigned_part(s);
    if d.len() > 0 && all_digits(d) && digits_value(d) <= usize::MAX {
        Some(digits_value(d))
    } else {
        None
    }
}

/// The decimal digits of `n`, most significant first, without leading zeros.
pub open spec fn decimal_digits(n: nat) -> Seq<u8>
    decreases n,
{
    if n < 10 {
        seq![(0x30 + n) as u8]
    } else {
        decimal_digits(n / 10).push((0x30 + n % 10) as u8)
    }
}

pub proof fn lemma_first_at(s: Seq<u8>, byte: u8)
    ensures
        first_at(s, byte) <= s.len(),
        forall|j: int| 0 <= j < first_at(s, byte) ==> s[j] != byte,
        first_at(s, byte) < s.len() ==> s[first_at(s, byte) as int] == byte,
    decreases s.len(),
{
    if s.len() > 0 && s[0] != byte {
        lemma_first_at(s.skip(1), byte);
        let k: nat = first_at(s.skip(1), byte);
        assert forall|j: int| 0 <= j < first_at(s, byte) implies s[j] != byte by {
            if j > 0 {
                assert(s.skip(1)[j - 1] == s[j]);
            }
        }
        if k < s.skip(1).len() {
            assert(s.skip(1)[k as int] == s[k as int + 1]);
        }
    }
}

/// The first occurrence is the only index that holds `byte` with none before it.
pub proof fn lemma_first_at_is(s: Seq<u8>, byte: u8, k: int)
    requires
        0 <= k <= s.len(),
        forall|j: int| 0 <= j < k ==> s[j] != byte,
        k < s.len() ==> s[k] == byte,
    ensures
        first_at(s, byte) == k,
{
    lemma_first_at(s, byte);
    let f: int = first_at(s, byte) as int;
    if f < k {
        assert(s[f] == byte);
    } else if k < f {
        assert(s[k] == byte);
    }
}

pub proof fn lemma_blanks(s: Seq<u8>)
    ensures
        blanks(s) <= s.len(),
        forall|j: int| 0 <= j < blanks(s) ==> blank(#[trigger] s[j]),
        blanks(s) < s.len() ==> !blank(s[blanks(s) as int]),
    decreases s.len(),
{
    if s.len() > 0 && blank(s[0]) {
        lemma_blanks(s.skip(1));
        let k: nat = blanks(s.skip(1));
        assert forall|j: int| 0 <= j < blanks(s) implies blank(#[trigger] s[j]) by {
            if j > 0 {
                assert(s.skip(1)[j - 1] == s[j]);
            }
        }
        if k < s.skip(1).len() {
            assert(s.skip(1)[k as int] == s[k as int + 1]);
        }
    }
}

/// The blank prefix ends at the only index that has blanks before it and none at it.
pub proof fn lemma_blanks_is(s: Seq<u8>, k: int)
    requires
        0 <= k <= s.len(),
        forall|j: int| 0 <= j < k ==> blank(#[trigger] s[j]),
        k < s.len() ==> !blank(s[k]),
    ensures
        blanks(s) == k,
{
    lemma_blanks(s);
    let f: int = blanks(s) as int;
    if f < k {
        assert(blank(s[f]));
    } else if k < f {
        assert(blank(s[k]));
    }
}

/// In two byte strings joined, the first occurrence is the one in the first
/// string if it has one, else the one in the second.
pub proof fn lemma_first_at_concat(a: Seq<u8>, b: Seq<u8>, byte: u8)
    ensures
        first_at(a + b, byte) == if first_at(a, byte) < a.len() {
            first_at(a, byte)
        } else {
            a.len() + first_at(b, byte)
        },
{
    lemma_first_at(a, byte);
    lemma_first_at(b, byte);
    let k: int = if first_at(a, byte) < a.len() {
        first_at(a, byte) as int
    } else {
        (a.len() + first_at(b, byte)) as int
    };
    assert forall|j: int| 0 <= j < k implies (a + b)[j] != byte by {
        if j >= a.len() {
            assert((a + b)[j] == b[j - a.len()]);
        }
    }
    lemma_first_at_is(a + b, byte, k);
}

/// Dropping bytes before the first occurrence moves it by as many places.
pub proof fn lemma_first_at_skip(s: Seq<u8>, byte: u8, k: int)
    requires
        0 <= k <= first_at(s, byte),
    ensures
        first_at(s.skip(k), byte) == first_at(s, byte) - k,
{
    lemma_first_at(s, byte);
    let f: int = first_at(s, byte) as int;
    assert forall|j: int| 0 <= j < f - k implies s.skip(k)[j] != byte by {
        assert(s.skip(k)[j] == s[j + k]);
    }
    lemma_first_at_is(s.skip(k), byte, f - k);
}

/// In two byte strings joined, the blanks at the front are those of the
/// first string, and those of the second as well if the first is all blank.
pub proof fn lemma_blanks_concat(a: Seq<u8>, b: Seq<u8>)
    ensures
        blanks(a + b) == if blanks(a) < a.len() {
            blanks(a)
        } else {
            a.len() + blanks(b)
        },
{
    lemma_blanks(a);
    lemma_blanks(b);
    let k: int = if blanks(a) < a.len() {
        blanks(a) as int
    } else {
        (a.len() + blanks(b)) as int
    };
    assert forall|j: int| 0 <= j < k implies blank(#[trigger] (a + b)[j]) by {
        if j >= a.len() {
            assert((a + b)[j] == b[j - a.len()]);
        }
    }
    lemma_blanks_is(a + b, k);
}

/// The bytes of a text of ASCII characters are its characters, one byte each.
pub proof fn lemma_ascii_bytes(chars: Seq<char>)
    requires
        is_ascii_chars(chars),
    ensures
        encode_utf8(chars) =~= Seq::new(chars.len(), |i: int| chars[i] as u8),
{
    is_ascii_chars_encode_utf8(chars);
}

/// The decimal digits of a number are digits, begin with no sign, and
/// denote the number.
pub proof fn lemma_decimal_digits(n: nat)
    ensures
        decimal_digits(n).len() > 0,
        all_digits(decimal_digits(n)),
        digits_value(decimal_digits(n)) == n,
        unsigned_part(decimal_digits(n)) == decimal_digits(n),
    decreases n,
{
    if n >= 10 {
        lemma_decimal_digits(n / 10);
        let d = decimal_digits(n);
        assert(d.drop_last() =~= decimal_digits(n / 10));
        assert forall|i: int| 0 <= i < d.len() implies digit(#[trigger] d[i]) by {
            if i < d.len() - 1 {
                assert(d[i] == decimal_digits(n / 10)[i]);
            }
        }
        assert(d[0] == decimal_digits(n / 10)[0]);
    } else {
        let d = decimal_digits(n);
        assert(d.drop_last() =~= Seq::<u8>::empty());
        assert(digits_value(d.drop_last()) == 0);
    }
}

/// The decimal text of a number is ASCII, and its bytes are the decimal
/// digits of the number.
pub proof fn lemma_decimal_chars(n: nat)
    ensures
        is_ascii_chars(decimal_chars(n)),
        encode_utf8(decimal_chars(n)) == decimal_digits(n),
    decreases n,
{
    lemma_decimal_chars_each(n);
    lemma_ascii_bytes(decimal_chars(n));
    assert(encode_utf8(decimal_chars(n)) =~= decimal_digits(n));
}

proof fn lemma_decimal_chars_each(n: nat)
    ensures
        is_ascii_chars(decimal_chars(n)),
        decimal_chars(n).len() == decimal_digits(n).len(),
        forall|i: int|
            0 <= i < decimal_chars(n).len() ==> (#[trigger] decimal_chars(n)[i]) as u8
                == decimal_digits(n)[i],
    decreases n,
{
    if n >= 10 {
        lemma_decimal_chars_each(n / 10);
        let c = decimal_chars(n);
        let before = decimal_chars(n / 10);
        assert forall|i: int| 0 <= i < c.len() implies '\0' <= #[trigger] c[i] <= '\u{7f}'
            && c[i] as u8 == decimal_digits(n)[i] by {
            if i < c.len() - 1 {
                assert(c[i] == before[i]);
                assert(decimal_digits(n)[i] == decimal_digits(n / 10)[i]);
            }
        }
    }
}

/// A length written in decimal digits reads back as itself.
pub proof fn lemma_length_reads_back(n: nat)
    requires
        n <= usize::MAX,
    ensures
        length_value(encode_utf8(decimal_chars(n))) == Some(n),
{
    lemma_decimal_chars(n);
    lemma_decimal_digits(n);
}

/// Folds one byte to lower case.
pub fn lower_byte(b: u8) -> (r: u8)
    ensures
        r == lower(b),
{
    if 0x41 <= b && b <= 0x5a {
        b + 0x20
    } else {
        b
    }
}

/// Compares two byte strings without regard to ASCII letter case.
pub fn eq_ignore_case(a: &[u8], b: &[u8]) -> (r: bool)
    ensures
        r == alike(a@, b@),
{
    if a.len() != b.len() {
        assert(folded(a@).len() != folded(b@).len());
        return false;
    }
    let mut i: usize = 0;
    while i < a.len()
        invariant
            i <= a.len(),
            a.len() == b.len(),
            forall|j: int| 0 <= j < i ==> lower(a@[j]) == lower(b@[j]),
        decreases a.len() - i,
    {
        if lower_byte(a[i]) != lower_byte(b[i]) {
            assert(folded(a@)[i as int] != folded(b@)[i as int]);
            return false;
        }
        i += 1;
    }
    true
}

/// Compares two byte strings.
pub fn same_bytes(a: &[u8], b: &[u8]) -> (r: bool)
    ensures
        r == (a@ =~= b@),
{
    if a.len() != b.len() {
        return false;
    }
    let mut i: usize = 0;
    while i < a.len()
        invariant
            i <= a.len(),
            a.len() == b.len(),
            forall|j: int| 0 <= j < i ==> a@[j] == b@[j],
        decreases a.len() - i,
    {
        if a[i] != b[i] {
            return false;
        }
        i += 1;
    }
    true
}

/// Two texts are the same exactly when their UTF-8 bytes are.
pub proof fn lemma_text_by_bytes(a: Seq<char>, b: Seq<char>)
    ensures
        (encode_utf8(a) == encode_utf8(b)) <==> a == b,
{
    encode_utf8_decode_utf8(a);
    encode_utf8_decode_utf8(b);
}

/// Compares two texts.
pub fn same_text(a: &str, b: &str) -> (r: bool)
    ensures
        r == (a@ == b@),
{
    proof {
        lemma_text_by_bytes(a@, b@);
    }
    same_bytes(a.as_bytes(), b.as_bytes())
}

/// Finds the first `byte` at or after `start`; the length of `data` if there is none.
pub fn find_byte(data: &[u8], start: usize, byte: u8) -> (r: usize)
    requires
        start <= data.len(),
    ensures
        r == start + first_at(data@.skip(start as int), byte),
        start <= r <= data.len(),
{
    let mut i: usize = start;
    while i < data.len() && data[i] != byte
        invariant
            start <= i <= data.len(),
            forall|j: int| start <= j < i ==> data@[j] != byte,
        decreases data.len() - i,
    {
        i += 1;
    }
    proof {
        let rest = data@.skip(start as int);
        assert forall|j: int| 0 <= j < i - start implies rest[j] != byte by {
            assert(rest[j] == data@[start + j]);
        }
        lemma_first_at_is(rest, byte, i - start);
    }
    i
}

/// True for the ASCII white space bytes.
pub fn is_blank(b: u8) -> (r: bool)
    ensures
        r == blank(b),
{
    b == 0x20 || b == 0x09 || b == 0x0a || b == 0x0c || b == 0x0d
}

/// Counts the blanks that `data` holds from `start` up to the first other byte.
pub fn count_blanks(data: &[u8], start: usize) -> (r: usize)
    requires
        start <= data.len(),
    ensures
        r == blanks(data@.skip(start as int)),
        start + r <= data.len(),
{
    let mut i: usize = start;
    while i < data.len() && is_blank(data[i])
        invariant
            start <= i <= data.len(),
            forall|j: int| start <= j < i ==> blank(#[trigger] data@[j]),
        decreases data.len() - i,
    {
        i += 1;
    }
    proof {
        let rest = data@.skip(start as int);
        assert forall|j: int| 0 <= j < i - start implies blank(#[trigger] rest[j]) by {
            assert(rest[j] == data@[start + j]);
        }
        lemma_blanks_is(rest, i - start);
    }
    i - start
}

proof fn lemma_digits_value_monotone(s: Seq<u8>, k: int)
    requires
        0 <= k <= s.len(),
    ensures
        digits_value(s.take(k)) <= digits_value(s),
    decreases s.len() - k,
{
    if k < s.len() {
        lemma_digits_value_monotone(s, k + 1);
        assert(s.take(k + 1).drop_last() =~= s.take(k));
    } else {
        assert(s.take(k) =~= s);
    }
}

/// Reads a length field: an optional `+` and decimal digits that fit `usize`.
pub fn parse_length(field: &[u8]) -> (r: Option<usize>)
    ensures
        match r {
            Some(n) => length_value(field@) == Some(n as nat),
            None => length_value(field@) is None,
        },
{
    let start: usize = if field.len() > 0 && field[0] == 0x2b {
        1
    } else {
        0
    };
    let ghost d = unsigned_part(field@);
    assert(d == field@.skip(start as int));
    if start == field.len() {
        return None;
    }
    let mut i: usize = start;
    let mut acc: usize = 0;
    assert(d.take(0).len() == 0);
    while i < field.len()
        invariant
            start <= i <= field.len(),
            d == field@.skip(start as int),
            d == unsigned_part(field@),
            forall|j: int| 0 <= j < i - start ==> digit(#[trigger] d[j]),
            acc == digits_value(d.take(i - start)),
        decreases field.len() - i,
    {
        let b: u8 = field[i];
        assert(d[i - start] == b);
        if b < 0x30 || b > 0x39 {
            assert(!digit(d[i - start]));
            return None;
        }
        let ghost next = d.take(i - start + 1);
        proof {
            assert(next.drop_last() =~= d.take(i - start));
            assert(next.last() == b);
            assert(digits_value(next) == acc * 10 + (b - 0x30));
            lemma_digits_value_monotone(d, i - start + 1);
        }
        let scaled: usize = match acc.checked_mul(10) {
            Some(v) => v,
            None => {
                return None;
            },
        };
        acc = match scaled.checked_add((b - 0x30) as usize) {
            Some(v) => v,
            None => {
                return None;
            },
        };
        i += 1;
    }
    assert(d.take(i - start) =~= d);
    Some(acc)
}

} // verus!
