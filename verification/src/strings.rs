//! String operations of the standard library.
use vstd::prelude::*;
use vstd::utf8::{
    decode_utf8, decode_utf8_encode_utf8, encode_utf8, encode_utf8_decode_utf8,
    encode_utf8_valid_utf8, is_ascii_chars, valid_utf8,
};

verus! {

/// The lower-case form that `str::to_lowercase` gives a text that is not ASCII.
pub uninterp spec fn lower_text(text: Seq<char>) -> Seq<char>;

/// The text that `String::from_utf8_lossy` reads from bytes that are not UTF-8.
pub uninterp spec fn lossy_text(data: Seq<u8>) -> Seq<char>;

/// The quoted and escaped form in which a string's `Debug` prints a text that is not plain.
pub uninterp spec fn debug_text(text: Seq<char>) -> Seq<char>;

/// The small form of an ASCII letter, and every other character as it is.
pub open spec fn ascii_small(c: char) -> char {
    if 'A' <= c <= 'Z' {
        (c as u32 + 32) as char
    } else {
        c
    }
}

/// A text with its ASCII letters in small form.
pub open spec fn ascii_lower(text: Seq<char>) -> Seq<char> {
    text.map_values(|c: char| ascii_small(c))
}

/// The capital form of an ASCII letter, and every other character as it is.
pub open spec fn ascii_capital(c: char) -> char {
    if 'a' <= c <= 'z' {
        (c as u32 - 32) as char
    } else {
        c
    }
}

/// A text with its ASCII letters in capital form.
pub open spec fn ascii_upper(text: Seq<char>) -> Seq<char> {
    text.map_values(|c: char| ascii_capital(c))
}

/// A text in lower case, for which the case of its ASCII letters does not matter.
pub open spec fn lower_case(text: Seq<char>) -> Seq<char> {
    if is_ascii_chars(text) {
        ascii_lower(text)
    } else {
        lower_text(ascii_lower(text))
    }
}

/// Two texts differ at most in the case of ASCII letters.
pub open spec fn same_but_for_case(a: Seq<char>, b: Seq<char>) -> bool {
    ascii_lower(a) == ascii_lower(b)
}

/// Texts that differ at most in the case of ASCII letters have the same lower-case form.
pub proof fn law_lower_case_of_same_text(a: Seq<char>, b: Seq<char>)
    requires
        same_but_for_case(a, b),
    ensures
        lower_case(a) == lower_case(b),
{
    lemma_ascii_lower_is_ascii(a);
    lemma_ascii_lower_is_ascii(b);
}

/// Small letters keep a text ASCII, or not ASCII.
proof fn lemma_ascii_lower_is_ascii(text: Seq<char>)
    ensures
        is_ascii_chars(ascii_lower(text)) == is_ascii_chars(text),
{
    let lower = ascii_lower(text);
    assert forall|i: int| 0 <= i < text.len() implies ('\0' <= #[trigger] text[i] <= '\u{7f}') == (
    '\0' <= lower[i] <= '\u{7f}') by {
        assert(lower[i] == ascii_small(text[i]));
    }
    if is_ascii_chars(lower) {
        assert forall|i: int| 0 <= i < text.len() implies '\0' <= #[trigger] text[i] <= '\u{7f}' by {
            assert('\0' <= lower[i] <= '\u{7f}');
        }
    }
}

/// Writing the ASCII letters of a text small or as capitals changes nothing but their case.
pub proof fn law_case_of_ascii_letters(text: Seq<char>)
    ensures
        same_but_for_case(text, ascii_lower(text)),
        same_but_for_case(text, ascii_upper(text)),
{
    assert(ascii_lower(ascii_lower(text)) =~= ascii_lower(text));
    assert(ascii_lower(ascii_upper(text)) =~= ascii_lower(text));
}

/// The text that bytes spell.
pub open spec fn decoded_text(data: Seq<u8>) -> Seq<char> {
    if valid_utf8(data) {
        decode_utf8(data)
    } else {
        lossy_text(data)
    }
}

/// A text of printable ASCII characters without quotes and backslashes.
pub open spec fn is_plain(text: Seq<char>) -> bool {
    forall|i: int|
        0 <= i < text.len() ==> ' ' <= (#[trigger] text[i]) <= '~' && text[i] != '"' && text[i]
            != '\'' && text[i] != '\\'
}

/// A text in quotes, escaped where it has to be.
pub open spec fn quoted_text(text: Seq<char>) -> Seq<char> {
    if is_plain(text) {
        seq!['"'] + text + seq!['"']
    } else {
        debug_text(text)
    }
}

/// `part` occurs in `text` as a run of consecutive characters.
pub open spec fn occurs_in(text: Seq<char>, part: Seq<char>) -> bool {
    exists|i: int|
        0 <= i && i + part.len() <= text.len() && #[trigger] text.subrange(i, i + part.len())
            == part
}

/// Calls `str::to_lowercase` and claims that it puts the letters of an ASCII text in small form. The
/// result on other texts is named [`lower_text`]: it depends on the text alone, by Unicode's
/// lower-case tables, which are not written out here. Claimed is that putting the ASCII letters of a
/// text in small form first makes no difference: Unicode gives both cases of such a letter the same
/// small form, and the one mapping that looks at neighbours, that of a sigma at the end of a word,
/// takes a letter of either case for part of the word.
#[verifier::external_body]
pub(crate) fn to_lowercase(text: &str) -> (lower: String)
    ensures
        is_ascii_chars(text@) ==> lower@ == ascii_lower(text@),
        !is_ascii_chars(text@) ==> lower@ == lower_text(text@),
        !is_ascii_chars(text@) ==> lower@ == lower_text(ascii_lower(text@)),
{
    text.to_lowercase()
}

/// Calls `str::contains` with a string pattern and claims that it tells whether the pattern matches
/// a sub-slice of the text.
#[verifier::external_body]
pub(crate) fn contains(text: &str, part: &str) -> (found: bool)
    ensures
        found == occurs_in(text@, part@),
{
    text.contains(part)
}

/// Calls `String::from_utf8_lossy` and claims that it decodes valid UTF-8. The result on other bytes
/// is named [`lossy_text`]; how invalid sequences are replaced is not written out here.
#[verifier::external_body]
pub(crate) fn from_utf8_lossy(data: &[u8]) -> (text: String)
    ensures
        valid_utf8(data@) ==> text@ == decode_utf8(data@),
        !valid_utf8(data@) ==> text@ == lossy_text(data@),
{
    String::from_utf8_lossy(data).into_owned()
}

/// Formats a string with `{:?}` and claims that this puts a text of printable ASCII characters
/// without quotes and backslashes in quotes. The result on other texts is named [`debug_text`]: it
/// depends on the text alone, by the escaping rules of `str`'s `Debug`, which are not written out
/// here.
#[verifier::external_body]
pub(crate) fn format_debug(text: &str) -> (shown: String)
    ensures
        is_plain(text@) ==> shown@ == seq!['"'] + text@ + seq!['"'],
        !is_plain(text@) ==> shown@ == debug_text(text@),
{
    format!("{:?}", text)
}

/// A text in lower case: an ASCII text keeps its length and has each of its letters `A` to `Z` 32 code
/// points further; any other text is what its tables make of it, with such letters put so first.
pub proof fn law_lower_case(text: Seq<char>)
    ensures
        ascii_lower(text).len() == text.len(),
        forall|i: int|
            0 <= i < text.len() ==> ascii_lower(text)[i] as int == if 65 <= (
            #[trigger] text[i]) as int <= 90 {
                text[i] as int + 32
            } else {
                text[i] as int
            },
        (forall|i: int| 0 <= i < text.len() ==> ((#[trigger] text[i]) as int) < 128) ==> lower_case(
            text,
        ) == ascii_lower(text),
        (exists|i: int| 0 <= i < text.len() && (#[trigger] text[i]) as int >= 128) ==> lower_case(
            text,
        ) == lower_text(ascii_lower(text)),
{
    if exists|i: int| 0 <= i < text.len() && (#[trigger] text[i]) as int >= 128 {
        let i = choose|i: int| 0 <= i < text.len() && (#[trigger] text[i]) as int >= 128;
        assert(!('\0' <= text[i] <= '\u{7f}'));
    } else {
        assert forall|i: int| 0 <= i < text.len() implies '\0' <= #[trigger] text[i] <= '\u{7f}' by {
            assert((text[i] as int) < 128);
            lemma_char_from_zero(text[i]);
        }
    }
}

/// Characters are counted from zero.
proof fn lemma_char_from_zero(c: char)
    ensures
        '\0' <= c,
{
}

/// Bytes that are UTF-8 spell the text whose bytes they are.
pub proof fn law_decoded_text(data: Seq<u8>, text: Seq<char>)
    ensures
        decoded_text(encode_utf8(text)) == text,
        valid_utf8(data) ==> encode_utf8(decoded_text(data)) == data,
        !valid_utf8(data) ==> decoded_text(data) == lossy_text(data),
{
    encode_utf8_valid_utf8(text);
    encode_utf8_decode_utf8(text);
    if valid_utf8(data) {
        decode_utf8_encode_utf8(data);
    }
}

/// A plain text stands between two quotes as it is; others are escaped.
pub proof fn law_quoted_text(text: Seq<char>)
    ensures
        (forall|i: int|
            0 <= i < text.len() ==> 32 <= (#[trigger] text[i]) as int <= 126 && text[i] as int != 34
                && text[i] as int != 39 && text[i] as int != 92) ==> {
            &&& quoted_text(text).len() == text.len() + 2
            &&& quoted_text(text).first() == '"'
            &&& quoted_text(text).last() == '"'
            &&& quoted_text(text).subrange(1, 1 + text.len() as int) == text
        },
        (exists|i: int|
            0 <= i < text.len() && !(32 <= (#[trigger] text[i]) as int <= 126 && text[i] as int
                != 34 && text[i] as int != 39 && text[i] as int != 92)) ==> quoted_text(text)
            == debug_text(text),
{
    if is_plain(text) {
        assert(quoted_text(text).subrange(1, 1 + text.len() as int) =~= text);
    }
}

} // verus!
