//! Case, letters and digits, UTF-8 lengths, and the search for one text in another.
use vstd::prelude::*;
use vstd::utf8::encode_utf8;
use vstd::utf8::is_ascii_chars;

use crate::text::chars_of;

verus! {

/// What `str::to_lowercase` makes of a text.
pub uninterp spec fn unicode_lowercase(s: Seq<char>) -> Seq<char>;

/// Calls `str::to_lowercase`. Its result, by the Unicode case mappings, is a function of the
/// text; that function is named, not described.
#[verifier::external_body]
fn str_to_lowercase(s: &str) -> (res: String)
    ensures
        res@ == unicode_lowercase(s@),
{
    s.to_lowercase()
}

/// Whether `char::is_alphanumeric` holds of a character.
pub uninterp spec fn unicode_alphanumeric(c: char) -> bool;

/// Calls `char::is_alphanumeric`. Its result, by the Unicode tables, is a function of the
/// character; that function is named, not described.
#[verifier::external_body]
fn char_is_alphanumeric(c: char) -> (res: bool)
    ensures
        res == unicode_alphanumeric(c),
{
    c.is_alphanumeric()
}

/// The lower case of an ASCII character.
pub open spec fn ascii_lower(c: char) -> char {
    if 'A' <= c <= 'Z' {
        (c as u8 + 32) as char
    } else {
        c
    }
}

/// `s` in lower case: letter by letter where it is ASCII, else by the Unicode mappings.
pub open spec fn lowercase(s: Seq<char>) -> Seq<char> {
    if is_ascii_chars(s) {
        s.map_values(|c: char| ascii_lower(c))
    } else {
        unicode_lowercase(s)
    }
}

/// `s` in lower case.
pub fn to_lower(s: &str) -> (res: String)
    ensures
        res@ == lowercase(s@),
        !is_ascii_chars(s@) ==> res@ == unicode_lowercase(s@),
        is_ascii_chars(s@) ==> res@.len() == s@.len() && forall|i: int|
            0 <= i < s@.len() ==> (if 'A' <= s@[i] <= 'Z' {
                (#[trigger] res@[i]) as int == s@[i] as int + 32
            } else {
                res@[i] == s@[i]
            }),
{
    proof {
        if is_ascii_chars(s@) {
            law_lowercase(s@);
        }
    }
    if !s.is_ascii() {
        return str_to_lowercase(s);
    }
    let cs = chars_of(s);
    let mut res = String::new();
    let mut i: usize = 0;
    while i < cs.len()
        invariant
            i <= cs@.len(),
            cs@ == s@,
            res@ == s@.take(i as int).map_values(|c: char| ascii_lower(c)),
        decreases cs@.len() - i,
    {
        let c: char = cs[i];
        if 'A' <= c && c <= 'Z' {
            res.push((c as u8 + 32) as char);
        } else {
            res.push(c);
        }
        i += 1;
        assert(res@ =~= s@.take(i as int).map_values(|c: char| ascii_lower(c)));
    }
    assert(s@.take(i as int) =~= s@);
    res
}

/// Letters and digits.
pub open spec fn alphanumeric(c: char) -> bool {
    if c <= '\u{7f}' {
        '0' <= c <= '9' || 'A' <= c <= 'Z' || 'a' <= c <= 'z'
    } else {
        unicode_alphanumeric(c)
    }
}

/// Whether `c` is a letter or a digit.
pub fn is_alphanumeric(c: char) -> (res: bool)
    ensures
        res == alphanumeric(c),
        c as u32 > 0x7f ==> res == unicode_alphanumeric(c),
{
    if c <= '\u{7f}' {
        ('0' <= c && c <= '9') || ('A' <= c && c <= 'Z') || ('a' <= c && c <= 'z')
    } else {
        char_is_alphanumeric(c)
    }
}

// UTF-8 lengths.

/// The number of bytes of `c` in UTF-8.
pub open spec fn utf8_width(c: char) -> nat {
    if c <= '\u{7f}' {
        1
    } else if c <= '\u{7ff}' {
        2
    } else if c <= '\u{ffff}' {
        3
    } else {
        4
    }
}

/// The number of bytes of `c` in UTF-8.
pub fn width_of(c: char) -> (res: usize)
    ensures
        res == utf8_width(c),
        1 <= res <= 4,
{
    if c <= '\u{7f}' {
        1
    } else if c <= '\u{7ff}' {
        2
    } else if c <= '\u{ffff}' {
        3
    } else {
        4
    }
}

/// The number of bytes of `s` in UTF-8.
pub open spec fn byte_len(s: Seq<char>) -> nat
    decreases s.len(),
{
    if s.len() == 0 {
        0
    } else {
        byte_len(s.drop_last()) + utf8_width(s.last())
    }
}

/// Byte lengths add up.
pub proof fn lemma_byte_len_add(a: Seq<char>, b: Seq<char>)
    ensures
        byte_len(a + b) == byte_len(a) + byte_len(b),
    decreases b.len(),
{
    if b.len() == 0 {
        assert(a + b =~= a);
    } else {
        assert((a + b).drop_last() =~= a + b.drop_last());
        lemma_byte_len_add(a, b.drop_last());
    }
}

/// A longer prefix has more bytes.
pub proof fn lemma_byte_len_take(s: Seq<char>, i: int, j: int)
    requires
        0 <= i <= j <= s.len(),
    ensures
        byte_len(s.take(i)) + byte_len(s.subrange(i, j)) == byte_len(s.take(j)),
        byte_len(s.take(j)) <= byte_len(s),
{
    assert(s.take(i) + s.subrange(i, j) =~= s.take(j));
    lemma_byte_len_add(s.take(i), s.subrange(i, j));
    assert(s.take(j) + s.skip(j) =~= s);
    lemma_byte_len_add(s.take(j), s.skip(j));
}

/// `utf8_width` counts the bytes of the UTF-8 encoding of one character.
proof fn lemma_width(c: char)
    ensures
        vstd::utf8::encode_scalar(c as u32).len() == utf8_width(c),
{
    vstd::utf8::char_is_scalar(c);
}

/// `byte_len` counts the bytes of the UTF-8 encoding.
pub proof fn lemma_byte_len_is_encoding(s: Seq<char>)
    ensures
        byte_len(s) == encode_utf8(s).len(),
    decreases s.len(),
{
    if s.len() > 0 {
        let head = seq![s[0]];
        let tail = s.drop_first();
        lemma_byte_len_is_encoding(tail);
        assert(s =~= head + tail);
        lemma_byte_len_add(head, tail);
        reveal_with_fuel(byte_len, 2);
        assert(head.drop_last().len() == 0);
        assert(byte_len(head) == utf8_width(s[0]));
        lemma_width(s[0]);
    }
}

/// The number of bytes of `s`.
pub fn byte_count(s: &str) -> (res: usize)
    ensures
        res == byte_len(s@),
{
    proof {
        lemma_byte_len_is_encoding(s@);
    }
    s.as_bytes().len()
}

/// The number of bytes of the first `n` characters of `cs`.
pub fn bytes_before(cs: &[char], n: usize, total: usize) -> (res: usize)
    requires
        n <= cs@.len(),
        byte_len(cs@) == total,
    ensures
        res == byte_len(cs@.take(n as int)),
{
    let mut bytes: usize = 0;
    let mut i: usize = 0;
    assert(cs@.take(0) =~= Seq::<char>::empty());
    while i < n
        invariant
            i <= n <= cs@.len(),
            total == byte_len(cs@),
            bytes == byte_len(cs@.take(i as int)),
        decreases n - i,
    {
        proof {
            lemma_byte_len_take(cs@, i as int, i + 1);
            assert(cs@.take(i + 1).drop_last() =~= cs@.take(i as int));
        }
        bytes += width_of(cs[i]);
        i += 1;
    }
    bytes
}

// Search.

/// The position of the first `c` of `s`.
pub open spec fn first_of(s: Seq<char>, c: char) -> Option<int>
    decreases s.len(),
{
    if s.len() == 0 {
        None
    } else if s.first() == c {
        Some(0)
    } else {
        match first_of(s.drop_first(), c) {
            Some(k) => Some(k + 1),
            None => None,
        }
    }
}

/// `first_of` is a position of the text, and the first of its kind.
pub proof fn lemma_first_of(s: Seq<char>, c: char)
    ensures
        match first_of(s, c) {
            Some(k) => 0 <= k < s.len() && s[k] == c && forall|j: int| 0 <= j < k ==> s[j] != c,
            None => forall|j: int| 0 <= j < s.len() ==> s[j] != c,
        },
    decreases s.len(),
{
    if s.len() > 0 && s.first() != c {
        let t = s.drop_first();
        lemma_first_of(t, c);
        assert forall|j: int| 1 <= j < s.len() implies s[j] == t[j - 1] by {}
    }
}

/// The position, from `from` on, of the first `c`.
pub fn find_char(cs: &[char], c: char, from: usize) -> (res: Option<usize>)
    requires
        from <= cs@.len(),
    ensures
        match res {
            Some(k) => from <= k < cs@.len() && first_of(cs@.skip(from as int), c) == Some(
                k - from,
            ),
            None => first_of(cs@.skip(from as int), c) is None,
        },
{
    let mut i: usize = from;
    while i < cs.len()
        invariant
            from <= i <= cs@.len(),
            first_of(cs@.skip(from as int), c) == (match first_of(cs@.skip(i as int), c) {
                Some(k) => Some(k + i - from),
                None => None::<int>,
            }),
        decreases cs@.len() - i,
    {
        let ghost rest = cs@.skip(i as int);
        if cs[i] == c {
            return Some(i);
        }
        assert(rest.drop_first() =~= cs@.skip(i + 1));
        i += 1;
    }
    None
}

/// Whether `needle` stands in `hay` at position `i`.
pub open spec fn occurs_at(hay: Seq<char>, needle: Seq<char>, i: int) -> bool {
    0 <= i && i + needle.len() <= hay.len() && hay.subrange(i, i + needle.len()) == needle
}

/// Whether `needle` stands in `hay` anywhere.
pub open spec fn contains_text(hay: Seq<char>, needle: Seq<char>) -> bool {
    exists|i: int| occurs_at(hay, needle, i)
}

/// The first position, from `i` on, at which `needle` stands in `hay`.
pub open spec fn find_from(hay: Seq<char>, needle: Seq<char>, i: int) -> Option<int>
    decreases hay.len() + 1 - i,
{
    if i < 0 || i + needle.len() > hay.len() {
        None
    } else if occurs_at(hay, needle, i) {
        Some(i)
    } else {
        find_from(hay, needle, i + 1)
    }
}

/// `find_from` finds the first occurrence.
pub proof fn lemma_find_from(hay: Seq<char>, needle: Seq<char>, i: int)
    requires
        0 <= i,
    ensures
        match find_from(hay, needle, i) {
            Some(k) => i <= k && occurs_at(hay, needle, k) && forall|j: int|
                i <= j < k ==> !occurs_at(hay, needle, j),
            None => forall|j: int| i <= j ==> !occurs_at(hay, needle, j),
        },
    decreases hay.len() + 1 - i,
{
    if i + needle.len() <= hay.len() && !occurs_at(hay, needle, i) {
        lemma_find_from(hay, needle, i + 1);
    }
}

/// Whether the characters of `needle` stand in `hay` at position `i`.
fn stands_at(hay: &[char], needle: &[char], i: usize) -> (res: bool)
    requires
        i + needle@.len() <= hay@.len(),
    ensures
        res == occurs_at(hay@, needle@, i as int),
{
    let n: usize = hay.len();
    let mut k: usize = 0;
    while k < needle.len()
        invariant
            k <= needle@.len(),
            i + needle@.len() <= n == hay@.len(),
            forall|j: int| 0 <= j < k ==> hay@[i + j] == needle@[j],
        decreases needle@.len() - k,
    {
        if hay[i + k] != needle[k] {
            assert(hay@.subrange(i as int, i + needle@.len())[k as int] != needle@[k as int]);
            return false;
        }
        k += 1;
    }
    assert(hay@.subrange(i as int, i + needle@.len()) =~= needle@);
    true
}

/// The first position, from `from` on, at which `needle` stands in `hay`.
pub fn find_chars(hay: &[char], needle: &[char], from: usize) -> (res: Option<usize>)
    ensures
        match res {
            Some(k) => find_from(hay@, needle@, from as int) == Some(k as int),
            None => find_from(hay@, needle@, from as int) is None,
        },
{
    let mut i: usize = from;
    while i <= hay.len() && needle.len() <= hay.len() - i
        invariant
            find_from(hay@, needle@, from as int) == find_from(hay@, needle@, i as int),
        decreases hay@.len() + 1 - i,
    {
        if stands_at(hay, needle, i) {
            return Some(i);
        }
        if i == hay.len() {
            assert(find_from(hay@, needle@, i + 1) is None);
            return None;
        }
        i += 1;
    }
    None
}

/// A text stands in another where the other is made of it and what stands before and behind it.
pub proof fn law_contains_text(hay: Seq<char>, needle: Seq<char>)
    ensures
        contains_text(hay, needle) <==> exists|before: Seq<char>, after: Seq<char>|
            hay == #[trigger] (before + needle + after),
{
    if contains_text(hay, needle) {
        let i = choose|i: int| occurs_at(hay, needle, i);
        let (before, after) = (hay.take(i), hay.skip(i + needle.len()));
        assert(hay =~= before + hay.subrange(i, i + needle.len()) + after);
        assert(hay == before + needle + after);
    }
    if exists|before: Seq<char>, after: Seq<char>| hay == #[trigger] (before + needle + after) {
        let (before, after) = choose|before: Seq<char>, after: Seq<char>|
            hay == #[trigger] (before + needle + after);
        let i = before.len() as int;
        assert(hay.subrange(i, i + needle.len()) =~= needle);
        assert(occurs_at(hay, needle, i));
    }
}

/// The lower case of ASCII text has a small letter for every capital, and leaves all else as it
/// is.
pub proof fn law_lowercase(s: Seq<char>)
    requires
        is_ascii_chars(s),
    ensures
        lowercase(s).len() == s.len(),
        forall|i: int|
            0 <= i < s.len() ==> (if 'A' <= s[i] <= 'Z' {
                (#[trigger] lowercase(s)[i]) as int == s[i] as int + 32
            } else {
                lowercase(s)[i] == s[i]
            }),
        lowercase(lowercase(s)) == lowercase(s),
{
    let t = lowercase(s);
    assert forall|i: int| 0 <= i < s.len() implies '\0' <= #[trigger] t[i] <= '\u{7f}' && !('A'
        <= t[i] <= 'Z') && (if 'A' <= s[i] <= 'Z' {
        t[i] as int == s[i] as int + 32
    } else {
        t[i] == s[i]
    }) by {
        assert('\0' <= s[i] <= '\u{7f}');
    }
    assert(is_ascii_chars(t));
    assert(lowercase(t) =~= t);
}

/// The lower case of other text is that of Unicode.
pub proof fn law_unicode_lowercase(s: Seq<char>)
    requires
        !is_ascii_chars(s),
    ensures
        lowercase(s) == unicode_lowercase(s),
{
}

/// Of the ASCII characters, the letters and the digits are alphanumeric and no others.
pub proof fn law_alphanumeric(c: char)
    requires
        c as u32 <= 0x7f,
    ensures
        alphanumeric(c) <==> 0x30 <= c as u32 <= 0x39 || 0x41 <= c as u32 <= 0x5a || 0x61 <= c as u32
            <= 0x7a,
{
}

/// Whether `needle` stands in `hay`.
pub fn contains_chars(hay: &[char], needle: &[char]) -> (res: bool)
    ensures
        res == contains_text(hay@, needle@),
{
    proof {
        lemma_find_from(hay@, needle@, 0);
    }
    let found = find_chars(hay, needle, 0);
    assert(found is None ==> forall|j: int| !occurs_at(hay@, needle@, j));
    found.is_some()
}

} // verus!
