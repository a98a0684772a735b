//! Characters and strings: what the rest of the crate says about text.
//!
//! Strings are modelled by their views, sequences of characters. The executable functions work
//! on vectors of characters, so that an index is a position in the model.
use vstd::prelude::*;

verus! {

/// `String::push` appends one character.
pub assume_specification[ String::push ](s: &mut String, c: char)
    ensures
        final(s)@ == old(s)@.push(c),
;

/// `String::push_str` appends the characters of a string slice.
pub assume_specification[ String::push_str ](s: &mut String, t: &str)
    ensures
        final(s)@ == old(s)@ + t@,
;

/// `char::from_u32` gives the character with a code point, for every code point up to 10FFFF
/// (hexadecimal) that is not a surrogate, and nothing else.
pub assume_specification[ char::from_u32 ](v: u32) -> (res: Option<char>)
    ensures
        res == (if v < 0xd800 || 0xdfff < v <= 0x10ffff {
            Some(v as char)
        } else {
            None::<char>
        }),
;

/// The texts that a vector of strings holds.
pub open spec fn texts(v: Seq<String>) -> Seq<Seq<char>> {
    v.map_values(|s: String| s@)
}

/// The text that an optional string holds.
pub open spec fn text_of(s: Option<String>) -> Option<Seq<char>> {
    match s {
        Some(s) => Some(s@),
        None => None,
    }
}

/// `a` followed by `b`.
pub fn concatenated(a: &str, b: &str) -> (res: String)
    ensures
        res@ == a@ + b@,
{
    let mut res = String::new();
    res.push_str(a);
    res.push_str(b);
    assert(res@ =~= a@ + b@);
    res
}

/// The characters of `s`, in order.
pub fn chars_of(s: &str) -> (res: Vec<char>)
    ensures
        res@ == s@,
{
    let mut res: Vec<char> = Vec::new();
    for c in it: s.chars()
        invariant
            res@ == it.seq().take(it.index() as int),
            it.seq() == s@,
    {
        res.push(c);
    }
    res
}

/// Appends the characters of `cs` from `from` up to `to`.
pub fn push_chars(out: &mut String, cs: &[char], from: usize, to: usize)
    requires
        from <= to <= cs@.len(),
    ensures
        final(out)@ == old(out)@ + cs@.subrange(from as int, to as int),
{
    let mut i: usize = from;
    while i < to
        invariant
            from <= i <= to <= cs@.len(),
            out@ == old(out)@ + cs@.subrange(from as int, i as int),
        decreases to - i,
    {
        out.push(cs[i]);
        i += 1;
    }
}

/// The string of the characters of `cs` from `from` up to `to`.
pub fn string_of(cs: &[char], from: usize, to: usize) -> (res: String)
    requires
        from <= to <= cs@.len(),
    ensures
        res@ == cs@.subrange(from as int, to as int),
{
    let mut res = String::new();
    push_chars(&mut res, cs, from, to);
    res
}

/// Whether the characters of `cs` from `from` up to `to` are those of `lit`.
pub fn range_is(cs: &[char], from: usize, to: usize, lit: &str) -> (res: bool)
    requires
        from <= to <= cs@.len(),
    ensures
        res == (cs@.subrange(from as int, to as int) == lit@),
{
    let other = chars_of(lit);
    if other.len() != to - from {
        return false;
    }
    let mut i: usize = 0;
    while i < other.len()
        invariant
            other@ == lit@,
            from <= to <= cs@.len(),
            other@.len() == to - from,
            i <= other@.len(),
            forall|j: int| 0 <= j < i ==> cs@[from + j] == other@[j],
        decreases other@.len() - i,
    {
        if cs[from + i] != other[i] {
            assert(cs@.subrange(from as int, to as int)[i as int] != other@[i as int]);
            return false;
        }
        i += 1;
    }
    assert(cs@.subrange(from as int, to as int) =~= lit@);
    true
}

/// Whether two strings hold the same characters.
pub fn same_text(a: &str, b: &str) -> (res: bool)
    ensures
        res == (a@ == b@),
{
    let cs = chars_of(a);
    let n: usize = cs.len();
    assert(cs@.subrange(0, n as int) =~= a@);
    range_is(&cs, 0, n, b)
}

/// Whether the characters of `cs` begin with those of `lit`.
pub fn begins_with(cs: &[char], lit: &str) -> (res: bool)
    ensures
        res == lit@.is_prefix_of(cs@),
{
    let n: usize = chars_of(lit).len();
    if cs.len() < n {
        return false;
    }
    range_is(cs, 0, n, lit)
}

/// Whether `s` begins with `lit`.
pub fn starts_with(s: &str, lit: &str) -> (res: bool)
    ensures
        res == lit@.is_prefix_of(s@),
{
    let cs = chars_of(s);
    begins_with(&cs, lit)
}

// White space.

/// The characters with the Unicode property White_Space.
pub open spec fn white_space(c: char) -> bool {
    ||| '\u{9}' <= c <= '\u{d}'
    ||| c == ' '
    ||| c == '\u{85}'
    ||| c == '\u{a0}'
    ||| c == '\u{1680}'
    ||| '\u{2000}' <= c <= '\u{200a}'
    ||| c == '\u{2028}'
    ||| c == '\u{2029}'
    ||| c == '\u{202f}'
    ||| c == '\u{205f}'
    ||| c == '\u{3000}'
}

/// Whether `c` has the Unicode property White_Space.
pub fn is_white_space(c: char) -> (res: bool)
    ensures
        res == white_space(c),
{
    ('\u{9}' <= c && c <= '\u{d}') || c == ' ' || c == '\u{85}' || c == '\u{a0}' || c == '\u{1680}'
        || ('\u{2000}' <= c && c <= '\u{200a}') || c == '\u{2028}' || c == '\u{2029}'
        || c == '\u{202f}' || c == '\u{205f}' || c == '\u{3000}'
}

/// `s` without its leading white space.
pub open spec fn trim_start(s: Seq<char>) -> Seq<char>
    decreases s.len(),
{
    if s.len() > 0 && white_space(s.first()) {
        trim_start(s.drop_first())
    } else {
        s
    }
}

/// `s` without its trailing white space.
pub open spec fn trim_end(s: Seq<char>) -> Seq<char>
    decreases s.len(),
{
    if s.len() > 0 && white_space(s.last()) {
        trim_end(s.drop_last())
    } else {
        s
    }
}

/// `s` without its leading and trailing white space.
pub open spec fn trim(s: Seq<char>) -> Seq<char> {
    trim_end(trim_start(s))
}

/// The bounds, within `from` and `to`, of the trimmed characters of `cs`.
pub fn trim_range(cs: &[char], from: usize, to: usize) -> (res: (usize, usize))
    requires
        from <= to <= cs@.len(),
    ensures
        from <= res.0 <= res.1 <= to,
        cs@.subrange(res.0 as int, res.1 as int) == trim(cs@.subrange(from as int, to as int)),
{
    let ghost whole = cs@.subrange(from as int, to as int);
    let mut start: usize = from;
    while start < to && is_white_space(cs[start])
        invariant
            from <= start <= to <= cs@.len(),
            whole == cs@.subrange(from as int, to as int),
            trim_start(whole) == trim_start(cs@.subrange(start as int, to as int)),
        decreases to - start,
    {
        let ghost here = cs@.subrange(start as int, to as int);
        assert(here.drop_first() =~= cs@.subrange(start + 1, to as int));
        start += 1;
    }
    let ghost left = cs@.subrange(start as int, to as int);
    assert(trim_start(whole) == left);
    let mut end: usize = to;
    while start < end && is_white_space(cs[end - 1])
        invariant
            from <= start <= end <= to <= cs@.len(),
            left == cs@.subrange(start as int, to as int),
            trim_end(left) == trim_end(cs@.subrange(start as int, end as int)),
        decreases end,
    {
        let ghost here = cs@.subrange(start as int, end as int);
        assert(here.drop_last() =~= cs@.subrange(start as int, end - 1));
        end -= 1;
    }
    (start, end)
}

/// `s` trimmed.
pub fn trimmed(s: &str) -> (res: String)
    ensures
        res@ == trim(s@),
{
    let cs = chars_of(s);
    let n: usize = cs.len();
    let (a, b) = trim_range(&cs, 0, n);
    assert(cs@.subrange(0, n as int) =~= s@);
    string_of(&cs, a, b)
}

/// The number of characters before the first white space of `s`.
pub open spec fn word_len(s: Seq<char>) -> nat
    decreases s.len(),
{
    if s.len() > 0 && !white_space(s.first()) {
        1 + word_len(s.drop_first())
    } else {
        0
    }
}

/// The maximal runs of characters of `s` without white space, in order.
pub open spec fn words(s: Seq<char>) -> Seq<Seq<char>>
    decreases s.len(),
{
    if s.len() == 0 {
        Seq::empty()
    } else if white_space(s.first()) {
        words(s.drop_first())
    } else {
        let n = word_len(s) as int;
        if 0 < n <= s.len() {
            seq![s.take(n)] + words(s.skip(n))
        } else {
            Seq::empty()
        }
    }
}

/// A word is part of its text.
pub proof fn lemma_word_len(s: Seq<char>)
    ensures
        word_len(s) <= s.len(),
        forall|i: int| 0 <= i < word_len(s) ==> !white_space(#[trigger] s[i]),
        word_len(s) < s.len() ==> white_space(s[word_len(s) as int]),
        s.len() > 0 && !white_space(s.first()) ==> word_len(s) > 0,
    decreases s.len(),
{
    if s.len() > 0 && !white_space(s.first()) {
        let t = s.drop_first();
        lemma_word_len(t);
        assert forall|i: int| 0 <= i < word_len(s) implies !white_space(#[trigger] s[i]) by {
            if i > 0 {
                assert(s[i] == t[i - 1]);
            }
        }
    }
}

/// `word_len` is the length of any run that has no white space and is followed by it.
pub proof fn lemma_word_len_is(s: Seq<char>, n: int)
    requires
        0 <= n <= s.len(),
        forall|i: int| 0 <= i < n ==> !white_space(#[trigger] s[i]),
        n < s.len() ==> white_space(s[n]),
    ensures
        word_len(s) == n,
{
    lemma_word_len(s);
    if word_len(s) < n {
        assert(!white_space(s[word_len(s) as int]));
    } else if n < word_len(s) {
        assert(!white_space(s[n]));
    }
}

/// The words of `cs`, as bounds.
pub fn word_ranges(cs: &[char]) -> (res: Vec<(usize, usize)>)
    ensures
        forall|i: int| 0 <= i < res@.len() ==> (#[trigger] res@[i]).0 <= res@[i].1 <= cs@.len(),
        res@.map_values(|r: (usize, usize)| cs@.subrange(r.0 as int, r.1 as int)) == words(cs@),
{
    let ghost cut = |r: (usize, usize)| cs@.subrange(r.0 as int, r.1 as int);
    let mut res: Vec<(usize, usize)> = Vec::new();
    let mut i: usize = 0;
    assert(cs@.skip(0) =~= cs@);
    while i < cs.len()
        invariant
            i <= cs@.len(),
            cut == (|r: (usize, usize)| cs@.subrange(r.0 as int, r.1 as int)),
            forall|k: int| 0 <= k < res@.len() ==> (#[trigger] res@[k]).0 <= res@[k].1 <= cs@.len(),
            res@.map_values(cut) + words(cs@.skip(i as int)) == words(cs@),
        decreases cs@.len() - i,
    {
        let ghost rest = cs@.skip(i as int);
        if is_white_space(cs[i]) {
            assert(rest.drop_first() =~= cs@.skip(i + 1));
            i += 1;
        } else {
            let start: usize = i;
            while i < cs.len() && !is_white_space(cs[i])
                invariant
                    start <= i <= cs@.len(),
                    forall|k: int| start <= k < i ==> !white_space(#[trigger] cs@[k]),
                decreases cs@.len() - i,
            {
                i += 1;
            }
            proof {
                let n = i - start;
                assert forall|k: int| 0 <= k < n implies !white_space(#[trigger] rest[k]) by {
                    assert(rest[k] == cs@[start + k]);
                }
                lemma_word_len_is(rest, n);
                assert(rest.take(n) =~= cs@.subrange(start as int, i as int));
                assert(rest.skip(n) =~= cs@.skip(i as int));
            }
            let ghost before = res@;
            res.push((start, i));
            proof {
                assert(res@.map_values(cut) =~= before.map_values(cut).push(
                    cs@.subrange(start as int, i as int),
                ));
                assert(res@.map_values(cut) + words(cs@.skip(i as int)) =~= before.map_values(cut)
                    + words(rest));
            }
        }
    }
    assert(words(cs@.skip(i as int)) =~= Seq::<Seq<char>>::empty());
    res
}

/// The texts of `parts`, with `sep` between neighbours.
pub open spec fn join(parts: Seq<Seq<char>>, sep: Seq<char>) -> Seq<char>
    decreases parts.len(),
{
    if parts.len() == 0 {
        Seq::empty()
    } else if parts.len() == 1 {
        parts[0]
    } else {
        join(parts.drop_last(), sep) + sep + parts.last()
    }
}

/// `value` with every run of white space made one space, and none at either end.
pub fn normalize_whitespace(value: &str) -> (res: String)
    ensures
        res@ == join(words(value@), " "@),
{
    let cs = chars_of(value);
    let ranges = word_ranges(&cs);
    let ghost parts = words(cs@);
    let mut res = String::new();
    let mut i: usize = 0;
    while i < ranges.len()
        invariant
            i <= ranges@.len(),
            parts == ranges@.map_values(
                |r: (usize, usize)| cs@.subrange(r.0 as int, r.1 as int),
            ),
            forall|k: int|
                0 <= k < ranges@.len() ==> (#[trigger] ranges@[k]).0 <= ranges@[k].1 <= cs@.len(),
            res@ == join(parts.take(i as int), " "@),
        decreases ranges@.len() - i,
    {
        if i > 0 {
            res.push_str(" ");
        }
        let (a, b) = ranges[i];
        push_chars(&mut res, &cs, a, b);
        assert(parts.take(i + 1).drop_last() =~= parts.take(i as int));
        assert(parts[i as int] == cs@.subrange(a as int, b as int));
        i += 1;
    }
    assert(parts.take(i as int) =~= parts);
    res
}

// Laws.

/// White space is the tabulator, the line feed and the other controls up to the carriage return,
/// the space and the no-break space, the next line, and the spaces and separators of Unicode.
pub proof fn law_white_space(c: char)
    ensures
        white_space(c) <==> {
            let code = c as u32;
            ||| code == 0x20 || code == 0xa0 || code == 0x85
            ||| code == 0x9 || code == 0xa || code == 0xb || code == 0xc || code == 0xd
            ||| code == 0x1680 || code == 0x2028 || code == 0x2029 || code == 0x202f
            ||| code == 0x205f || code == 0x3000 || 0x2000 <= code <= 0x200a
        },
{
}

/// Trimming takes white space from both ends of a text and nothing else.
pub proof fn law_trim_of_parts(before: Seq<char>, core: Seq<char>, after: Seq<char>)
    requires
        forall|i: int| 0 <= i < before.len() ==> white_space(#[trigger] before[i]),
        forall|i: int| 0 <= i < after.len() ==> white_space(#[trigger] after[i]),
        core.len() > 0 ==> !white_space(core.first()) && !white_space(core.last()),
    ensures
        trim(before + core + after) == core,
{
    let s = before + core + after;
    let bounds = law_trimmed(s);
    let (a, b) = (before.len() as int, (before.len() + core.len()) as int);
    assert forall|i: int| 0 <= i < a implies white_space(#[trigger] s[i]) by {
        assert(s[i] == before[i]);
    }
    assert forall|i: int| b <= i < s.len() implies white_space(#[trigger] s[i]) by {
        assert(s[i] == after[i - b]);
    }
    if core.len() > 0 {
        assert(s[a] == core.first());
        assert(s[b - 1] == core.last());
        assert(bounds.0 <= a && b <= bounds.1);
        if bounds.0 < a {
            assert(trim(s).first() == s[bounds.0]);
        }
        if b < bounds.1 {
            assert(trim(s).last() == s[bounds.1 - 1]);
        }
        assert(trim(s) =~= core);
    } else {
        if trim(s).len() > 0 {
            assert(trim(s).first() == s[bounds.0]);
        }
        assert(trim(s) =~= core);
    }
}

/// The texts of a list stand one behind the other, with the separator between two of them.
pub proof fn law_joined(parts: Seq<Seq<char>>, part: Seq<char>, sep: Seq<char>)
    ensures
        join(Seq::empty(), sep) == Seq::<char>::empty(),
        join(seq![part], sep) == part,
        parts.len() > 0 ==> join(parts.push(part), sep) == join(parts, sep) + sep + part,
{
    assert(parts.push(part).drop_last() =~= parts);
}

/// Whether `w` is a word: not empty, and without white space.
pub open spec fn is_word(w: Seq<char>) -> bool {
    w.len() > 0 && forall|i: int| 0 <= i < w.len() ==> !white_space(#[trigger] w[i])
}

/// The words of a text are words.
pub proof fn law_words_are_words(s: Seq<char>)
    ensures
        forall|i: int| 0 <= i < words(s).len() ==> is_word(#[trigger] words(s)[i]),
    decreases s.len(),
{
    if s.len() > 0 {
        if white_space(s.first()) {
            law_words_are_words(s.drop_first());
            assert(words(s) == words(s.drop_first()));
        } else {
            lemma_word_len(s);
            let n = word_len(s) as int;
            law_words_are_words(s.skip(n));
            assert forall|i: int| 0 <= i < words(s).len() implies is_word(
                #[trigger] words(s)[i],
            ) by {
                if i > 0 {
                    assert(words(s)[i] == words(s.skip(n))[i - 1]);
                }
            }
        }
    }
}

/// A word behind a space is the last word of a text.
proof fn lemma_words_push(s: Seq<char>, w: Seq<char>)
    requires
        is_word(w),
    ensures
        words(s + seq![' '] + w) == words(s).push(w),
{
    lemma_words_of_both(s, w);
    lemma_words_of_word(w);
    assert(words(s) + seq![w] =~= words(s).push(w));
}

/// A word is its only word.
pub proof fn lemma_words_of_word(w: Seq<char>)
    requires
        is_word(w),
    ensures
        words(w) == seq![w],
{
    assert(!white_space(w[0]));
    lemma_word_len_is(w, w.len() as int);
    assert(w.take(w.len() as int) =~= w);
    assert(words(w.skip(w.len() as int)) =~= Seq::empty());
    assert(words(w) =~= seq![w]);
}

/// Words that are joined by spaces are the words of the text.
pub proof fn law_joined_words(ws: Seq<Seq<char>>)
    requires
        forall|i: int| 0 <= i < ws.len() ==> is_word(#[trigger] ws[i]),
    ensures
        words(join(ws, " "@)) == ws,
    decreases ws.len(),
{
    reveal_strlit(" ");
    assert(" "@ =~= seq![' ']);
    if ws.len() == 0 {
        assert(words(join(ws, " "@)) =~= ws);
    } else if ws.len() == 1 {
        lemma_words_of_word(ws[0]);
        assert(seq![ws[0]] =~= ws);
    } else {
        assert forall|i: int| 0 <= i < ws.drop_last().len() implies is_word(
            #[trigger] ws.drop_last()[i],
        ) by {
            assert(ws.drop_last()[i] == ws[i]);
        }
        law_joined_words(ws.drop_last());
        assert(is_word(ws[ws.len() - 1]));
        lemma_words_push(join(ws.drop_last(), " "@), ws.last());
        assert(ws.drop_last().push(ws.last()) =~= ws);
    }
}

/// Whether all white space of a text is single spaces between words.
pub open spec fn single_spaced(s: Seq<char>) -> bool {
    forall|i: int|
        0 <= i < s.len() && white_space(#[trigger] s[i]) ==> s[i] == ' ' && 0 < i < s.len() - 1
            && !white_space(s[i - 1])
}

/// Normalizing white space leaves the words of a text, leaves single spaces between them and
/// nothing else, and changes nothing where it has been done.
pub proof fn law_normalized_whitespace(s: Seq<char>)
    ensures
        words(join(words(s), " "@)) == words(s),
        join(words(join(words(s), " "@)), " "@) == join(words(s), " "@),
        single_spaced(join(words(s), " "@)),
{
    law_words_are_words(s);
    law_joined_words(words(s));
    lemma_joined_single_spaced(words(s));
}

/// Words that are joined by spaces are single spaced.
proof fn lemma_joined_single_spaced(ws: Seq<Seq<char>>)
    requires
        forall|i: int| 0 <= i < ws.len() ==> is_word(#[trigger] ws[i]),
    ensures
        single_spaced(join(ws, " "@)),
        ws.len() > 0 ==> join(ws, " "@).len() > 0 && !white_space(join(ws, " "@).last()),
    decreases ws.len(),
{
    reveal_strlit(" ");
    assert(" "@ =~= seq![' ']);
    if ws.len() == 1 {
        assert(is_word(ws[0]));
    } else if ws.len() > 1 {
        let before = ws.drop_last();
        let w = ws.last();
        assert(is_word(ws[ws.len() - 1]));
        assert forall|i: int| 0 <= i < before.len() implies is_word(#[trigger] before[i]) by {
            assert(before[i] == ws[i]);
        }
        lemma_joined_single_spaced(before);
        let a = join(before, " "@);
        let t = join(ws, " "@);
        assert(t =~= a + seq![' '] + w);
        assert forall|i: int| 0 <= i < t.len() && white_space(#[trigger] t[i]) implies t[i] == ' '
            && 0 < i < t.len() - 1 && !white_space(t[i - 1]) by {
            if i < a.len() {
                assert(t[i] == a[i]);
                assert(t[i - 1] == a[i - 1]);
            } else if i == a.len() {
                assert(t[i - 1] == a.last());
            } else {
                assert(t[i] == w[i - a.len() - 1]);
            }
        }
        assert(t.last() == w.last());
        assert(!white_space(w[w.len() - 1]));
    }
}

/// Trimming cuts a text down to one of its parts, which has no white space at its ends.
pub proof fn law_trimmed(s: Seq<char>) -> (bounds: (int, int))
    ensures
        0 <= bounds.0 <= bounds.1 <= s.len(),
        trim(s) == s.subrange(bounds.0, bounds.1),
        trim(s).len() > 0 ==> !white_space(trim(s).first()) && !white_space(trim(s).last()),
        forall|i: int| 0 <= i < bounds.0 ==> white_space(#[trigger] s[i]),
        forall|i: int| bounds.1 <= i < s.len() ==> white_space(#[trigger] s[i]),
{
    let a = lemma_trim_start(s);
    let t = trim_start(s);
    let b = lemma_trim_end(t);
    assert(trim(s) =~= s.subrange(a, a + b));
    assert forall|i: int| a + b <= i < s.len() implies white_space(#[trigger] s[i]) by {
        assert(t[i - a] == s[i]);
    }
    if b > 0 {
        assert(trim(s).first() == t[0]);
        assert(!white_space(t.first()));
        assert(trim(s).last() == trim_end(t).last());
    }
    (a, a + b)
}

/// `trim_start` drops white space up to the first character that is none.
proof fn lemma_trim_start(s: Seq<char>) -> (a: int)
    ensures
        0 <= a <= s.len(),
        trim_start(s) == s.skip(a),
        forall|i: int| 0 <= i < a ==> white_space(#[trigger] s[i]),
        trim_start(s).len() > 0 ==> !white_space(trim_start(s).first()),
    decreases s.len(),
{
    if s.len() > 0 && white_space(s.first()) {
        let t = s.drop_first();
        let a = lemma_trim_start(t);
        assert(t.skip(a) =~= s.skip(a + 1));
        assert forall|i: int| 0 <= i < a + 1 implies white_space(#[trigger] s[i]) by {
            if i > 0 {
                assert(t[i - 1] == s[i]);
            }
        }
        a + 1
    } else {
        assert(s.skip(0) =~= s);
        0
    }
}

/// `trim_end` drops white space down to the last character that is none.
proof fn lemma_trim_end(s: Seq<char>) -> (b: int)
    ensures
        0 <= b <= s.len(),
        trim_end(s) == s.take(b),
        forall|i: int| b <= i < s.len() ==> white_space(#[trigger] s[i]),
        trim_end(s).len() > 0 ==> !white_space(trim_end(s).last()),
    decreases s.len(),
{
    if s.len() > 0 && white_space(s.last()) {
        let t = s.drop_last();
        let b = lemma_trim_end(t);
        assert(t.take(b) =~= s.take(b));
        assert forall|i: int| b <= i < s.len() implies white_space(#[trigger] s[i]) by {
            if i < t.len() {
                assert(t[i] == s[i]);
            }
        }
        b
    } else {
        assert(s.take(s.len() as int) =~= s);
        s.len() as int
    }
}

/// The words of two texts with white space between them are those of the one and then those of the
/// other; a text of white space has none, and one without it is its only word.
pub proof fn law_words_of_parts(a: Seq<char>, c: char, b: Seq<char>)
    requires
        white_space(c),
    ensures
        words(a + seq![c] + b) == words(a) + words(b),
        words(Seq::empty()) == Seq::<Seq<char>>::empty(),
        is_word(a) ==> words(a) == seq![a],
    decreases a.len(),
{
    let t = a + seq![c] + b;
    if is_word(a) {
        lemma_words_of_word(a);
    }
    assert(words(Seq::empty()) =~= Seq::<Seq<char>>::empty());
    if a.len() == 0 {
        assert(t.drop_first() =~= b);
        assert(words(t) =~= words(a) + words(b));
    } else if white_space(a.first()) {
        assert(t.drop_first() =~= a.drop_first() + seq![c] + b);
        law_words_of_parts(a.drop_first(), c, b);
    } else {
        lemma_word_len(a);
        let n = word_len(a) as int;
        assert forall|i: int| 0 <= i < n implies !white_space(#[trigger] t[i]) by {
            assert(t[i] == a[i]);
        }
        if n < a.len() {
            assert(t[n] == a[n]);
        } else {
            assert(t[n] == c);
        }
        lemma_word_len_is(t, n);
        assert(t.take(n) =~= a.take(n));
        assert(t.skip(n) =~= a.skip(n) + seq![c] + b);
        law_words_of_parts(a.skip(n), c, b);
        assert(words(t) =~= words(a) + words(b));
    }
}

/// The words of two texts with a space between them are those of the one and then those of the
/// other.
pub proof fn law_words_of_both(a: Seq<char>, b: Seq<char>)
    ensures
        words(a + " "@ + b) == words(a) + words(b),
{
    reveal_strlit(" ");
    assert(" "@ =~= seq![' ']);
    lemma_words_of_both(a, b);
}

proof fn lemma_words_of_both(a: Seq<char>, b: Seq<char>)
    ensures
        words(a + seq![' '] + b) == words(a) + words(b),
{
    law_words_of_parts(a, ' ', b);
}

} // verus!
