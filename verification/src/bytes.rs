//! Byte strings: prefixes, suffixes and ASCII case folding.

use vstd::prelude::*;
use vstd::string::*;

verus! {

/// The byte `.`
pub const FULL_STOP: u8 = 46;

/// The byte `_`, which parts the fields of a name.
pub const UNDERSCORE: u8 = 95;

/// The byte `#`
pub const HASH: u8 = 35;

/// The byte `2`
pub const DIGIT_TWO: u8 = 50;

/// How far a lower-case ASCII letter stands from its upper-case form.
pub const CASE_GAP: u8 = 32;

/// The reserved name prefix `play`.
pub open spec fn play_prefix() -> Seq<u8> {
    seq![112u8, 108u8, 97u8, 121u8]
}

/// The name suffix `.txt`.
pub open spec fn txt_suffix() -> Seq<u8> {
    seq![FULL_STOP, 116u8, 120u8, 116u8]
}

/// The characters that bytes stand for, each byte by itself.
pub open spec fn chars_of(s: Seq<u8>) -> Seq<char> {
    s.map_values(|b: u8| b as char)
}

/// A text whose characters are the ASCII bytes of `text` is encoded as just those bytes.
pub proof fn lemma_ascii_word(word: &str, text: Seq<u8>)
    requires
        word@ == chars_of(text),
        forall|i: int| 0 <= i < text.len() ==> text[i] < 128,
    ensures
        word.spec_bytes() == text,
{
    assert forall|i: int| 0 <= i < word@.len() implies (word@[i] as u32) < 128 by {
        assert(word@[i] == text[i] as char);
    }
    assert(is_ascii(word));
    is_ascii_spec_bytes(word);
    assert(word.spec_bytes() =~= text) by {
        assert forall|i: int| 0 <= i < text.len() implies word@[i] as u8 == text[i] by {
            assert(word@[i] == text[i] as char);
        }
    }
}

/// The upper-case form of an ASCII letter; any other byte stays.
pub open spec fn to_upper(b: u8) -> u8 {
    if 97 <= b <= 122 {
        (b - CASE_GAP) as u8
    } else {
        b
    }
}

/// The lower-case form of an ASCII letter; any other byte stays.
pub open spec fn to_lower(b: u8) -> u8 {
    if 65 <= b <= 90 {
        (b + CASE_GAP) as u8
    } else {
        b
    }
}

/// `s` with every ASCII letter in upper case.
pub open spec fn upper(s: Seq<u8>) -> Seq<u8> {
    s.map_values(|b: u8| to_upper(b))
}

/// `s` with every ASCII letter in lower case.
pub open spec fn lower(s: Seq<u8>) -> Seq<u8> {
    s.map_values(|b: u8| to_lower(b))
}

/// Computes `to_upper`.
pub fn upper_byte(b: u8) -> (u: u8)
    ensures
        u == to_upper(b),
{
    if 97 <= b && b <= 122 {
        b - CASE_GAP
    } else {
        b
    }
}

/// Computes `to_lower`.
pub fn lower_byte(b: u8) -> (l: u8)
    ensures
        l == to_lower(b),
{
    if 65 <= b && b <= 90 {
        b + CASE_GAP
    } else {
        b
    }
}

/// Whether `name` begins with `play`.
pub fn has_play_prefix(name: &[u8]) -> (r: bool)
    ensures
        r == play_prefix().is_prefix_of(name@),
{
    let r = name.len() >= 4 && name[0] == 112 && name[1] == 108 && name[2] == 97 && name[3] == 121;
    proof {
        if r {
            assert(play_prefix() =~= name@.subrange(0, 4));
        } else if name.len() >= 4 {
            let head = name@.subrange(0, 4);
            assert(head[0] == name@[0] && head[1] == name@[1] && head[2] == name@[2] && head[3] == name@[3]);
        }
    }
    r
}

/// Whether `name` ends with `.txt`.
pub fn has_txt_suffix(name: &[u8]) -> (r: bool)
    ensures
        r == txt_suffix().is_suffix_of(name@),
{
    let n: usize = name.len();
    let r = n >= 4 && name[n - 4] == FULL_STOP && name[n - 3] == 116 && name[n - 2] == 120 && name[n - 1]
        == 116;
    proof {
        if r {
            assert(txt_suffix() =~= name@.subrange(n - 4, n as int));
        } else if n >= 4 {
            let tail = name@.subrange(n - 4, n as int);
            assert(tail[0] == name@[n - 4] && tail[1] == name@[n - 3] && tail[2] == name@[n - 2] && tail[3]
                == name@[n - 1]);
        }
    }
    r
}

/// The first position in `[from, to)` at which `name` holds `_`, or `to` where there is none.
pub fn find_underscore(name: &[u8], from: usize, to: usize) -> (at: usize)
    requires
        from <= to <= name.len(),
    ensures
        from <= at <= to,
        at < to ==> name@[at as int] == UNDERSCORE,
        forall|j: int| from <= j < at ==> name@[j] != UNDERSCORE,
{
    let mut at: usize = from;
    while at < to
        invariant
            from <= at <= to <= name.len(),
            forall|j: int| from <= j < at ==> name@[j] != UNDERSCORE,
        decreases to - at,
    {
        if name[at] == UNDERSCORE {
            return at;
        }
        at += 1;
    }
    at
}

/// The component name that stands for a directory itself: `.`
pub open spec fn dot() -> Seq<u8> {
    seq![FULL_STOP]
}

/// The component name that stands for a directory's parent: `..`
pub open spec fn dot_dot() -> Seq<u8> {
    seq![FULL_STOP, FULL_STOP]
}

/// Whether two byte strings hold the same bytes.
pub fn bytes_eq(a: &[u8], b: &[u8]) -> (same: bool)
    ensures
        same == (a@ == b@),
{
    if a.len() != b.len() {
        return false;
    }
    let mut i: usize = 0;
    while i < a.len()
        invariant
            a.len() == b.len(),
            i <= a.len(),
            forall|j: int| 0 <= j < i ==> a@[j] == b@[j],
        decreases a.len() - i,
    {
        if a[i] != b[i] {
            return false;
        }
        i += 1;
    }
    assert(a@ =~= b@);
    true
}

/// Whether `name` is `.`
pub fn is_dot(name: &[u8]) -> (r: bool)
    ensures
        r == (name@ == dot()),
{
    let r = name.len() == 1 && name[0] == FULL_STOP;
    assert(r ==> name@ =~= dot());
    r
}

/// Whether `name` is `..`
pub fn is_dot_dot(name: &[u8]) -> (r: bool)
    ensures
        r == (name@ == dot_dot()),
{
    let r = name.len() == 2 && name[0] == FULL_STOP && name[1] == FULL_STOP;
    assert(r ==> name@ =~= dot_dot());
    r
}

} // verus!
