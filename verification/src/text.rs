//! Characters and strings: the two classes of characters that a pattern is
//! read by, and the passage between strings and vectors of characters.

use vstd::prelude::*;

verus! {

/// Whether Unicode gives `c` the `Alphabetic` property.
pub uninterp spec fn unicode_alphabetic(c: char) -> bool;

/// Whether `c` is in one of Unicode's general categories for numbers.
pub uninterp spec fn unicode_numeric(c: char) -> bool;

/// `char::is_alphabetic` of the standard library: the result depends on the
/// character alone. Nothing further is claimed of it.
pub assume_specification[ char::is_alphabetic ](c: char) -> (r: bool)
    ensures
        r == unicode_alphabetic(c),
;

/// `char::is_numeric` of the standard library: the result depends on the
/// character alone. Nothing further is claimed of it.
pub assume_specification[ char::is_numeric ](c: char) -> (r: bool)
    ensures
        r == unicode_numeric(c),
;

/// `String::push` of the standard library: the character is appended to the
/// end of the string, and the rest of the string stays as it was.
pub assume_specification[ String::push ](s: &mut String, ch: char)
    ensures
        final(s)@ == old(s)@.push(ch),
;

/// The string made of the characters of `chars`, in order.
pub fn string_of(chars: &Vec<char>) -> (s: String)
    ensures
        s@ == chars@,
{
    let mut s = String::new();
    let mut i: usize = 0;
    while i < chars.len()
        invariant
            i <= chars.len(),
            s@ == chars@.take(i as int),
        decreases chars.len() - i,
    {
        s.push(chars[i]);
        assert(s@ =~= chars@.take(i as int + 1));
        i = i + 1;
    }
    assert(chars@.take(chars.len() as int) =~= chars@);
    s
}

/// The characters of `s`, in order.
pub fn chars_of(s: &str) -> (chars: Vec<char>)
    ensures
        chars@ == s@,
{
    let mut chars: Vec<char> = Vec::new();
    for c in it: s.chars()
        invariant
            it.seq() == s@,
            chars@ == it.seq().take(it.index()),
    {
        chars.push(c);
    }
    chars
}

/// A copy of `chars`.
pub fn copy_chars(chars: &Vec<char>) -> (copy: Vec<char>)
    ensures
        copy@ == chars@,
{
    let mut copy: Vec<char> = Vec::new();
    let mut i: usize = 0;
    while i < chars.len()
        invariant
            i <= chars.len(),
            copy@ == chars@.take(i as int),
        decreases chars.len() - i,
    {
        copy.push(chars[i]);
        assert(copy@ =~= chars@.take(i as int + 1));
        i = i + 1;
    }
    assert(chars@.take(chars.len() as int) =~= chars@);
    copy
}

/// What a vector of character vectors holds, as texts.
pub open spec fn rows(v: Seq<Vec<char>>) -> Seq<Seq<char>> {
    Seq::new(v.len(), |i: int| v[i]@)
}

/// What a vector of strings holds, as texts.
pub open spec fn texts(v: Seq<String>) -> Seq<Seq<char>> {
    Seq::new(v.len(), |i: int| v[i]@)
}

/// Each character vector as a string, in the same order.
pub fn strings_of(names: &Vec<Vec<char>>) -> (strings: Vec<String>)
    ensures
        texts(strings@) == rows(names@),
{
    let mut strings: Vec<String> = Vec::new();
    let mut i: usize = 0;
    while i < names.len()
        invariant
            i <= names.len(),
            strings@.len() == i,
            forall|k: int| 0 <= k < i ==> (#[trigger] strings@[k])@ == names@[k]@,
        decreases names.len() - i,
    {
        strings.push(string_of(&names[i]));
        i = i + 1;
    }
    assert(texts(strings@) =~= rows(names@));
    strings
}

/// Each string as a character vector, in the same order.
pub fn rows_of(strings: &Vec<String>) -> (names: Vec<Vec<char>>)
    ensures
        rows(names@) == texts(strings@),
{
    let mut names: Vec<Vec<char>> = Vec::new();
    let mut i: usize = 0;
    while i < strings.len()
        invariant
            i <= strings.len(),
            names@.len() == i,
            forall|k: int| 0 <= k < i ==> (#[trigger] names@[k])@ == strings@[k]@,
        decreases strings.len() - i,
    {
        names.push(chars_of(strings[i].as_str()));
        i = i + 1;
    }
    assert(rows(names@) =~= texts(strings@));
    names
}

} // verus!
