//! Characters and strings: the alphabet, conversions between strings and
//! their characters, and the normalisation of a text before analysis.

use vstd::prelude::*;

verus! {

/// `c` is one of `a` to `z`.
pub open spec fn is_lowercase_letter(c: char) -> bool {
    'a' <= c <= 'z'
}

/// `c` is one of `A` to `Z`.
pub open spec fn is_uppercase_letter(c: char) -> bool {
    'A' <= c <= 'Z'
}

/// `c` is a letter of the 26-letter alphabet, in either case.
pub open spec fn is_letter(c: char) -> bool {
    is_lowercase_letter(c) || is_uppercase_letter(c)
}

/// The place of the letter `c` in the alphabet, from 0 for `a` or `A` to 25
/// for `z` or `Z`. It has no meaning for other characters.
pub open spec fn letter_index(c: char) -> int {
    if is_uppercase_letter(c) {
        c as int - 65
    } else {
        c as int - 97
    }
}

/// The lowercase letter at place `index` of the alphabet, for `index` from
/// 0 to 25.
pub open spec fn letter_at(index: int) -> char {
    (97 + index) as char
}

/// The text with each uppercase letter replaced by its lowercase form.
pub open spec fn ascii_lowercase(text: Seq<char>) -> Seq<char> {
    text.map_values(
        |c: char|
            if is_uppercase_letter(c) {
                letter_at(letter_index(c))
            } else {
                c
            },
    )
}

/// The place of a lowercase letter in the alphabet; `None` for any other
/// character.
pub fn lowercase_index(c: char) -> (index: Option<u8>)
    ensures
        index is Some <==> is_lowercase_letter(c),
        index matches Some(i) ==> i == letter_index(c) && i < 26,
{
    if 'a' <= c && c <= 'z' {
        Some((c as u32 - 97) as u8)
    } else {
        None
    }
}

/// The place of a letter in the alphabet, whatever its case; `None` for any
/// other character.
pub fn alphabet_index(c: char) -> (index: Option<u8>)
    ensures
        index is Some <==> is_letter(c),
        index matches Some(i) ==> i == letter_index(c) && i < 26,
{
    if 'a' <= c && c <= 'z' {
        Some((c as u32 - 97) as u8)
    } else if 'A' <= c && c <= 'Z' {
        Some((c as u32 - 65) as u8)
    } else {
        None
    }
}

/// The lowercase letter at a place of the alphabet.
pub fn letter(index: u8) -> (c: char)
    requires
        index < 26,
    ensures
        c == letter_at(index as int),
        is_lowercase_letter(c),
        letter_index(c) == index,
{
    (index + 97) as char
}

/// `String::push` of the standard library: the character is appended, and
/// the characters before it stay as they were.
pub assume_specification[ String::push ](s: &mut String, ch: char)
    ensures
        final(s)@ == old(s)@.push(ch),
;

/// What `str::to_lowercase` of the standard library returns for a text: its
/// lowercase equivalent by the Unicode rules, which may differ in length
/// from the text.
pub uninterp spec fn lowercase_of(text: Seq<char>) -> Seq<char>;

/// `str::to_lowercase` of the standard library: the result is a function
/// of the characters of the text alone. Nothing more is claimed of it.
pub assume_specification[ str::to_lowercase ](s: &str) -> (lowered: String)
    ensures
        lowered@ == lowercase_of(s@),
;

/// The characters of a string, in order.
pub fn to_chars(s: &String) -> (chars: Vec<char>)
    ensures
        chars@ == s@,
{
    broadcast use vstd::string::group_string_axioms;

    let mut chars: Vec<char> = Vec::new();
    for c in it: s.as_str().chars()
        invariant
            it.seq() == s@,
            chars@ == it.history(),
    {
        chars.push(c);
    }
    chars
}

/// The string made of the characters from `from` up to `to`.
pub fn from_chars(chars: &Vec<char>, from: usize, to: usize) -> (s: String)
    requires
        from <= to <= chars.len(),
    ensures
        s@ == chars@.subrange(from as int, to as int),
{
    let mut s = String::new();
    let mut i: usize = from;
    while i < to
        invariant
            from <= i <= to <= chars.len(),
            s@ == chars@.subrange(from as int, i as int),
        decreases to - i,
    {
        s.push(chars[i]);
        i += 1;
    }
    s
}

/// The characters that normalisation removes: the space, the comma, the
/// full stop and the left and right single quotation marks.
pub open spec fn is_stripped(c: char) -> bool {
    c == ' ' || c == ',' || c == '.' || c == '\u{2018}' || c == '\u{2019}'
}

/// The test for the characters that normalisation keeps.
pub open spec fn is_kept() -> spec_fn(char) -> bool {
    |c: char| !is_stripped(c)
}

/// The text without the characters that normalisation removes; the others
/// keep their order.
pub open spec fn stripped(text: Seq<char>) -> Seq<char> {
    text.filter(is_kept())
}

/// The normalised form of a text: the kept characters, in lowercase.
pub open spec fn sanitized(text: Seq<char>) -> Seq<char> {
    lowercase_of(stripped(text))
}

/// Normalises a text for analysis: removes spaces, commas, full stops and
/// single quotation marks, and puts what is left in lowercase.
pub fn sanitize_input(input: &String) -> (output: String)
    ensures
        output@ == sanitized(input@),
{
    let chars = to_chars(input);
    let mut kept = String::new();
    let mut i: usize = 0;
    while i < chars.len()
        invariant
            i <= chars.len(),
            kept@ == stripped(chars@.take(i as int)),
        decreases chars.len() - i,
    {
        let c = chars[i];
        proof {
            assert(chars@.take(i + 1) == chars@.take(i as int).push(c));
            chars@.take(i as int).lemma_filter_push(c, is_kept());
        }
        if !(c == ' ' || c == ',' || c == '.' || c == '\u{2018}' || c == '\u{2019}') {
            kept.push(c);
        }
        i += 1;
    }
    proof {
        assert(chars@.take(i as int) == chars@);
    }
    kept.as_str().to_lowercase()
}

} // verus!
