//! Residual HTML: tags are dropped and entities decoded.
use vstd::prelude::*;

use crate::letters::byte_len;
use crate::letters::find_char;
use crate::letters::first_of;
use crate::letters::lemma_byte_len_add;
use crate::letters::lemma_first_of;
use crate::letters::utf8_width;
use crate::letters::width_of;
use crate::number::decimal;
use crate::number::law_decimal_digits;
use crate::number::law_decimal_reads_back;
use crate::number::number_value;
use crate::number::parse_number;
use crate::text::chars_of;
use crate::text::push_chars;
use crate::text::range_is;

verus! {

/// How many bytes from the ampersand on an entity's semicolon is looked for.
pub const ENTITY_WINDOW: usize = 12;

/// The position of the semicolon that ends the name of an entity, where `s` begins with the name:
/// the first one, within `window` bytes, and with no `<` and no `&` before it.
pub open spec fn semicolon_within(s: Seq<char>, window: int) -> Option<int>
    decreases s.len(),
{
    if s.len() == 0 || window <= 0 {
        None
    } else if s.first() == ';' {
        Some(0)
    } else if s.first() == '<' || s.first() == '&' {
        None
    } else {
        match semicolon_within(s.drop_first(), window - utf8_width(s.first())) {
            Some(k) => Some(k + 1),
            None => None,
        }
    }
}

/// The character that an entity's name stands for.
pub open spec fn named_entity(name: Seq<char>) -> Option<char> {
    if name == "amp"@ {
        Some('&')
    } else if name == "lt"@ {
        Some('<')
    } else if name == "gt"@ {
        Some('>')
    } else if name == "quot"@ {
        Some('"')
    } else if name == "apos"@ {
        Some('\'')
    } else if name == "nbsp"@ {
        Some(' ')
    } else if name == "mdash"@ {
        Some('\u{2014}')
    } else if name == "ndash"@ {
        Some('\u{2013}')
    } else if name == "hellip"@ {
        Some('\u{2026}')
    } else if name == "laquo"@ {
        Some('\u{ab}')
    } else if name == "raquo"@ {
        Some('\u{bb}')
    } else if name == "copy"@ {
        Some('\u{a9}')
    } else if name == "reg"@ {
        Some('\u{ae}')
    } else if name == "trade"@ {
        Some('\u{2122}')
    } else if name == "euro"@ {
        Some('\u{20ac}')
    } else if name == "eacute"@ {
        Some('\u{e9}')
    } else if name == "egrave"@ {
        Some('\u{e8}')
    } else if name == "ecirc"@ {
        Some('\u{ea}')
    } else if name == "agrave"@ {
        Some('\u{e0}')
    } else if name == "ugrave"@ {
        Some('\u{f9}')
    } else if name == "ccedil"@ {
        Some('\u{e7}')
    } else {
        None
    }
}

/// The code point of a numeric entity: `#` and decimal digits, or `#x` and hexadecimal ones.
pub open spec fn numeric_entity(name: Seq<char>) -> Option<nat> {
    if name.len() > 1 && (name[1] == 'x' || name[1] == 'X') {
        number_value(name.skip(2), 16, u32::MAX as nat)
    } else {
        number_value(name.skip(1), 10, u32::MAX as nat)
    }
}

/// The character at a code point, with a space for the no-break space.
pub open spec fn character_at(code: nat) -> Option<char> {
    if code == 0xa0 {
        Some(' ')
    } else if code < 0xd800 || 0xdfff < code <= 0x10ffff {
        Some(code as char)
    } else {
        None
    }
}

/// What stands for the entity with the given name: its character; nothing, for a number that
/// is none or that no character has; the entity itself, where the name is unknown.
pub open spec fn entity_text(name: Seq<char>) -> Seq<char> {
    match named_entity(name) {
        Some(c) => seq![c],
        None => if name.len() > 0 && name[0] == '#' {
            match numeric_entity(name) {
                Some(code) => match character_at(code) {
                    Some(c) => seq![c],
                    None => Seq::empty(),
                },
                None => Seq::empty(),
            }
        } else {
            seq!['&'] + name + seq![';']
        },
    }
}

/// `s` without tags and with its entities decoded. A tag runs from `<` to the next `>`, or to
/// the end of the text where there is none; an ampersand that begins no entity, because no
/// semicolon near it ends a name, stays.
pub open spec fn stripped(s: Seq<char>) -> Seq<char>
    decreases s.len(),
{
    if s.len() == 0 {
        Seq::empty()
    } else if s.first() == '<' {
        proof {
            lemma_first_of(s.drop_first(), '>');
        }
        match first_of(s.drop_first(), '>') {
            Some(k) => stripped(s.skip(k + 2)),
            None => Seq::empty(),
        }
    } else if s.first() == '&' {
        proof {
            lemma_semicolon_within(s.drop_first(), ENTITY_WINDOW as int);
        }
        match semicolon_within(s.drop_first(), ENTITY_WINDOW as int) {
            Some(k) => entity_text(s.subrange(1, k + 1)) + stripped(s.skip(k + 2)),
            None => seq!['&'] + stripped(s.drop_first()),
        }
    } else {
        seq![s.first()] + stripped(s.drop_first())
    }
}

/// `semicolon_within` is a position of the text, behind a name without `<` and `&`.
pub proof fn lemma_semicolon_within(s: Seq<char>, window: int)
    ensures
        semicolon_within(s, window) matches Some(k) ==> 0 <= k < s.len() && s[k] == ';'
            && forall|i: int| 0 <= i < k ==> #[trigger] s[i] != '<' && s[i] != '&',
    decreases s.len(),
{
    if s.len() > 0 && window > 0 && s.first() != ';' && s.first() != '<' && s.first() != '&' {
        let t = s.drop_first();
        lemma_semicolon_within(t, window - utf8_width(s.first()));
        assert forall|i: int| 1 <= i < s.len() implies #[trigger] s[i] == t[i - 1] by {}
    }
}

/// The position of the semicolon that ends the name of an entity, where the name begins at `from`.
fn find_semicolon(cs: &[char], from: usize) -> (res: Option<usize>)
    requires
        from <= cs@.len(),
    ensures
        match res {
            Some(k) => from <= k < cs@.len() && semicolon_within(
                cs@.skip(from as int),
                ENTITY_WINDOW as int,
            ) == Some(k - from),
            None => semicolon_within(cs@.skip(from as int), ENTITY_WINDOW as int) is None,
        },
{
    let mut i: usize = from;
    let mut seen: usize = 0;
    while i < cs.len() && seen < ENTITY_WINDOW
        invariant
            from <= i <= cs@.len(),
            seen <= ENTITY_WINDOW + 4,
            semicolon_within(cs@.skip(from as int), ENTITY_WINDOW as int) == (
            match semicolon_within(cs@.skip(i as int), ENTITY_WINDOW - seen) {
                Some(k) => Some(k + i - from),
                None => None::<int>,
            }),
        decreases cs@.len() - i,
    {
        let ghost rest = cs@.skip(i as int);
        if cs[i] == ';' {
            return Some(i);
        }
        if cs[i] == '<' || cs[i] == '&' {
            return None;
        }
        assert(rest.drop_first() =~= cs@.skip(i + 1));
        seen += width_of(cs[i]);
        i += 1;
    }
    None
}

/// The character that the name from `from` up to `to` stands for.
fn find_named(cs: &[char], from: usize, to: usize) -> (res: Option<char>)
    requires
        from <= to <= cs@.len(),
    ensures
        res == named_entity(cs@.subrange(from as int, to as int)),
{
    if range_is(cs, from, to, "amp") {
        Some('&')
    } else if range_is(cs, from, to, "lt") {
        Some('<')
    } else if range_is(cs, from, to, "gt") {
        Some('>')
    } else if range_is(cs, from, to, "quot") {
        Some('"')
    } else if range_is(cs, from, to, "apos") {
        Some('\'')
    } else if range_is(cs, from, to, "nbsp") {
        Some(' ')
    } else if range_is(cs, from, to, "mdash") {
        Some('\u{2014}')
    } else if range_is(cs, from, to, "ndash") {
        Some('\u{2013}')
    } else if range_is(cs, from, to, "hellip") {
        Some('\u{2026}')
    } else if range_is(cs, from, to, "laquo") {
        Some('\u{ab}')
    } else if range_is(cs, from, to, "raquo") {
        Some('\u{bb}')
    } else if range_is(cs, from, to, "copy") {
        Some('\u{a9}')
    } else if range_is(cs, from, to, "reg") {
        Some('\u{ae}')
    } else if range_is(cs, from, to, "trade") {
        Some('\u{2122}')
    } else if range_is(cs, from, to, "euro") {
        Some('\u{20ac}')
    } else if range_is(cs, from, to, "eacute") {
        Some('\u{e9}')
    } else if range_is(cs, from, to, "egrave") {
        Some('\u{e8}')
    } else if range_is(cs, from, to, "ecirc") {
        Some('\u{ea}')
    } else if range_is(cs, from, to, "agrave") {
        Some('\u{e0}')
    } else if range_is(cs, from, to, "ugrave") {
        Some('\u{f9}')
    } else if range_is(cs, from, to, "ccedil") {
        Some('\u{e7}')
    } else {
        None
    }
}

/// Appends what stands for the entity named from `from` up to `to`.
fn push_entity(out: &mut String, cs: &[char], from: usize, to: usize)
    requires
        from <= to <= cs@.len(),
    ensures
        final(out)@ == old(out)@ + entity_text(cs@.subrange(from as int, to as int)),
{
    let ghost name = cs@.subrange(from as int, to as int);
    if let Some(c) = find_named(cs, from, to) {
        out.push(c);
        assert(out@ =~= old(out)@ + entity_text(name));
        return;
    }
    if from == to || cs[from] != '#' {
        out.push('&');
        push_chars(out, cs, from, to);
        out.push(';');
        assert(out@ =~= old(out)@ + entity_text(name));
        return;
    }
    let code: Option<u64> = if to - from > 1 && (cs[from + 1] == 'x' || cs[from + 1] == 'X') {
        assert(name.skip(2) =~= cs@.subrange(from + 2, to as int));
        parse_number(cs, from + 2, to, 16, 0xffff_ffff)
    } else {
        assert(name.skip(1) =~= cs@.subrange(from + 1, to as int));
        parse_number(cs, from + 1, to, 10, 0xffff_ffff)
    };
    if let Some(v) = code {
        if v == 0xa0 {
            out.push(' ');
        } else if let Some(c) = char::from_u32(v as u32) {
            out.push(c);
        }
    }
    assert(out@ =~= old(out)@ + entity_text(name));
}

/// `input` without tags and with its entities decoded.
pub fn strip_and_decode(input: &str) -> (res: String)
    ensures
        res@ == stripped(input@),
{
    let cs = chars_of(input);
    let mut out = String::new();
    let mut i: usize = 0;
    assert(cs@.skip(0) =~= cs@);
    while i < cs.len()
        invariant
            i <= cs@.len(),
            cs@ == input@,
            out@ + stripped(cs@.skip(i as int)) == stripped(input@),
        decreases cs@.len() - i,
    {
        let ghost rest = cs@.skip(i as int);
        let ghost before = out@;
        let c: char = cs[i];
        assert(rest.drop_first() =~= cs@.skip(i + 1));
        if c == '<' {
            match find_char(&cs, '>', i + 1) {
                Some(k) => {
                    assert(rest.skip(k - i - 1 + 2) =~= cs@.skip(k + 1));
                    i = k + 1;
                },
                None => {
                    assert(out@ + stripped(rest) =~= out@);
                    return out;
                },
            }
        } else if c == '&' {
            match find_semicolon(&cs, i + 1) {
                Some(k) => {
                    assert(rest.subrange(1, k - i) =~= cs@.subrange(i + 1, k as int));
                    assert(rest.skip(k - i + 1) =~= cs@.skip(k + 1));
                    push_entity(&mut out, &cs, i + 1, k);
                    assert(out@ + stripped(cs@.skip(k + 1)) =~= before + stripped(rest));
                    i = k + 1;
                },
                None => {
                    out.push('&');
                    assert(out@ + stripped(cs@.skip(i + 1)) =~= before + stripped(rest));
                    i += 1;
                },
            }
        } else {
            out.push(c);
            assert(out@ + stripped(cs@.skip(i + 1)) =~= before + stripped(rest));
            i += 1;
        }
    }
    assert(out@ + stripped(cs@.skip(i as int)) =~= out@);
    out
}

// Laws.

/// Whether `s` holds neither the start of a tag nor that of an entity.
pub open spec fn plain(s: Seq<char>) -> bool {
    !s.contains('<') && !s.contains('&')
}

/// Plain text before anything else stays as it is.
pub proof fn law_plain_text_stays(text: Seq<char>, rest: Seq<char>)
    requires
        plain(text),
    ensures
        stripped(text + rest) == text + stripped(rest),
    decreases text.len(),
{
    let s = text + rest;
    if text.len() == 0 {
        assert(s =~= rest);
        assert(text + stripped(rest) =~= stripped(rest));
    } else {
        let t = text.drop_first();
        assert(text.contains(text[0]));
        assert forall|c: char| t.contains(c) implies text.contains(c) by {
            let i = choose|i: int| 0 <= i < t.len() && t[i] == c;
            assert(text[i + 1] == c);
        }
        assert(s.drop_first() =~= t + rest);
        law_plain_text_stays(t, rest);
        assert(stripped(s) =~= text + stripped(rest));
    }
}

/// A tag leaves nothing.
pub proof fn law_tag_vanishes(tag: Seq<char>, rest: Seq<char>)
    requires
        !tag.contains('>'),
    ensures
        stripped(seq!['<'] + tag + seq!['>'] + rest) == stripped(rest),
{
    let s = seq!['<'] + tag + seq!['>'] + rest;
    let t = s.drop_first();
    let n = tag.len() as int;
    assert(t[n] == '>');
    assert forall|i: int| 0 <= i < n implies t[i] != '>' by {
        assert(t[i] == tag[i]);
        assert(tag.contains(tag[i]));
    }
    lemma_first_of(t, '>');
    let k = first_of(t, '>')->0;
    assert(k == n);
    assert(s.skip(k + 2) =~= rest);
}

/// A tag that is never closed leaves nothing, nor does what follows it.
pub proof fn law_open_tag_vanishes(tag: Seq<char>)
    requires
        !tag.contains('>'),
    ensures
        stripped(seq!['<'] + tag) == Seq::<char>::empty(),
{
    let s = seq!['<'] + tag;
    assert(s.drop_first() =~= tag);
    lemma_first_of(tag, '>');
    if let Some(k) = first_of(tag, '>') {
        assert(tag.contains(tag[k]));
    }
}

/// The semicolon behind a short name is the first one.
proof fn lemma_semicolon_behind(name: Seq<char>, rest: Seq<char>, window: int)
    requires
        !name.contains(';') && plain(name),
        byte_len(name) < window,
    ensures
        semicolon_within(name + seq![';'] + rest, window) == Some(name.len() as int),
    decreases name.len(),
{
    let s = name + seq![';'] + rest;
    if name.len() > 0 {
        let t = name.drop_first();
        assert(name.contains(name[0]));
        assert forall|c: char| t.contains(c) implies name.contains(c) by {
            let i = choose|i: int| 0 <= i < t.len() && t[i] == c;
            assert(name[i + 1] == c);
        }
        assert(name =~= seq![name[0]] + t);
        lemma_byte_len_add(seq![name[0]], t);
        assert(seq![name[0]].drop_last() =~= Seq::empty());
        assert(byte_len(seq![name[0]]) == byte_len(Seq::empty()) + utf8_width(name[0]));
        assert(s.drop_first() =~= t + seq![';'] + rest);
        lemma_semicolon_behind(t, rest, window - utf8_width(name[0]));
    }
}

/// An entity whose name is shorter than the window gives way to the text it stands for.
pub proof fn law_entity_decoded(name: Seq<char>, rest: Seq<char>)
    requires
        !name.contains(';') && plain(name),
        byte_len(name) < 12,
    ensures
        stripped(seq!['&'] + name + seq![';'] + rest) == entity_text(name) + stripped(rest),
{
    let s = seq!['&'] + name + seq![';'] + rest;
    lemma_semicolon_behind(name, rest, ENTITY_WINDOW as int);
    assert(s.drop_first() =~= name + seq![';'] + rest);
    let k = name.len() as int;
    assert(s.subrange(1, k + 1) =~= name);
    assert(s.skip(k + 2) =~= rest);
}

/// How the names of the entities are written, letter by letter.
proof fn lemma_entity_names()
    ensures
        "amp"@.len() == 3,
        "amp"@[0] == 'a' && "amp"@[1] == 'm' && "amp"@[2] == 'p',
        "lt"@.len() == 2,
        "lt"@[0] == 'l' && "lt"@[1] == 't',
        "gt"@.len() == 2,
        "gt"@[0] == 'g' && "gt"@[1] == 't',
        "quot"@.len() == 4,
        "quot"@[0] == 'q' && "quot"@[1] == 'u' && "quot"@[2] == 'o' && "quot"@[3] == 't',
        "apos"@.len() == 4,
        "apos"@[0] == 'a' && "apos"@[1] == 'p' && "apos"@[2] == 'o' && "apos"@[3] == 's',
        "nbsp"@.len() == 4,
        "nbsp"@[0] == 'n' && "nbsp"@[1] == 'b' && "nbsp"@[2] == 's' && "nbsp"@[3] == 'p',
        "mdash"@.len() == 5,
        "mdash"@[0] == 'm' && "mdash"@[1] == 'd' && "mdash"@[2] == 'a' && "mdash"@[3] == 's'
            && "mdash"@[4] == 'h',
        "ndash"@.len() == 5,
        "ndash"@[0] == 'n' && "ndash"@[1] == 'd' && "ndash"@[2] == 'a' && "ndash"@[3] == 's'
            && "ndash"@[4] == 'h',
        "hellip"@.len() == 6,
        "hellip"@[0] == 'h' && "hellip"@[1] == 'e' && "hellip"@[2] == 'l' && "hellip"@[3] == 'l'
            && "hellip"@[4] == 'i' && "hellip"@[5] == 'p',
        "laquo"@.len() == 5,
        "laquo"@[0] == 'l' && "laquo"@[1] == 'a' && "laquo"@[2] == 'q' && "laquo"@[3] == 'u'
            && "laquo"@[4] == 'o',
        "raquo"@.len() == 5,
        "raquo"@[0] == 'r' && "raquo"@[1] == 'a' && "raquo"@[2] == 'q' && "raquo"@[3] == 'u'
            && "raquo"@[4] == 'o',
        "copy"@.len() == 4,
        "copy"@[0] == 'c' && "copy"@[1] == 'o' && "copy"@[2] == 'p' && "copy"@[3] == 'y',
        "reg"@.len() == 3,
        "reg"@[0] == 'r' && "reg"@[1] == 'e' && "reg"@[2] == 'g',
        "trade"@.len() == 5,
        "trade"@[0] == 't' && "trade"@[1] == 'r' && "trade"@[2] == 'a' && "trade"@[3] == 'd'
            && "trade"@[4] == 'e',
        "euro"@.len() == 4,
        "euro"@[0] == 'e' && "euro"@[1] == 'u' && "euro"@[2] == 'r' && "euro"@[3] == 'o',
        "eacute"@.len() == 6,
        "eacute"@[0] == 'e' && "eacute"@[1] == 'a' && "eacute"@[2] == 'c' && "eacute"@[3] == 'u'
            && "eacute"@[4] == 't' && "eacute"@[5] == 'e',
        "egrave"@.len() == 6,
        "egrave"@[0] == 'e' && "egrave"@[1] == 'g' && "egrave"@[2] == 'r' && "egrave"@[3] == 'a'
            && "egrave"@[4] == 'v' && "egrave"@[5] == 'e',
        "ecirc"@.len() == 5,
        "ecirc"@[0] == 'e' && "ecirc"@[1] == 'c' && "ecirc"@[2] == 'i' && "ecirc"@[3] == 'r'
            && "ecirc"@[4] == 'c',
        "agrave"@.len() == 6,
        "agrave"@[0] == 'a' && "agrave"@[1] == 'g' && "agrave"@[2] == 'r' && "agrave"@[3] == 'a'
            && "agrave"@[4] == 'v' && "agrave"@[5] == 'e',
        "ugrave"@.len() == 6,
        "ugrave"@[0] == 'u' && "ugrave"@[1] == 'g' && "ugrave"@[2] == 'r' && "ugrave"@[3] == 'a'
            && "ugrave"@[4] == 'v' && "ugrave"@[5] == 'e',
        "ccedil"@.len() == 6,
        "ccedil"@[0] == 'c' && "ccedil"@[1] == 'c' && "ccedil"@[2] == 'e' && "ccedil"@[3] == 'd'
            && "ccedil"@[4] == 'i' && "ccedil"@[5] == 'l',
{
    reveal_strlit("amp");
    reveal_strlit("lt");
    reveal_strlit("gt");
    reveal_strlit("quot");
    reveal_strlit("apos");
    reveal_strlit("nbsp");
    reveal_strlit("mdash");
    reveal_strlit("ndash");
    reveal_strlit("hellip");
    reveal_strlit("laquo");
    reveal_strlit("raquo");
    reveal_strlit("copy");
    reveal_strlit("reg");
    reveal_strlit("trade");
    reveal_strlit("euro");
    reveal_strlit("eacute");
    reveal_strlit("egrave");
    reveal_strlit("ecirc");
    reveal_strlit("agrave");
    reveal_strlit("ugrave");
    reveal_strlit("ccedil");
}

/// An entity with one of these names stands for its character.
pub proof fn law_named_entities()
    ensures
        entity_text("amp"@) == seq!['&'],
        entity_text("lt"@) == seq!['<'],
        entity_text("gt"@) == seq!['>'],
        entity_text("quot"@) == seq!['"'],
        entity_text("apos"@) == seq!['\''],
        entity_text("nbsp"@) == seq![' '],
        entity_text("mdash"@) == seq!['\u{2014}'],
        entity_text("ndash"@) == seq!['\u{2013}'],
        entity_text("hellip"@) == seq!['\u{2026}'],
        entity_text("laquo"@) == seq!['\u{ab}'],
        entity_text("raquo"@) == seq!['\u{bb}'],
        entity_text("copy"@) == seq!['\u{a9}'],
        entity_text("reg"@) == seq!['\u{ae}'],
        entity_text("trade"@) == seq!['\u{2122}'],
        entity_text("euro"@) == seq!['\u{20ac}'],
        entity_text("eacute"@) == seq!['\u{e9}'],
        entity_text("egrave"@) == seq!['\u{e8}'],
        entity_text("ecirc"@) == seq!['\u{ea}'],
        entity_text("agrave"@) == seq!['\u{e0}'],
        entity_text("ugrave"@) == seq!['\u{f9}'],
        entity_text("ccedil"@) == seq!['\u{e7}'],
{
    lemma_entity_names();
}

/// An entity with any other name, which is no number, stays as it is.
pub proof fn law_unknown_entity(name: Seq<char>)
    requires
        name.len() == 0 || name[0] != '#',
        name != "amp"@,
        name != "lt"@,
        name != "gt"@,
        name != "quot"@,
        name != "apos"@,
        name != "nbsp"@,
        name != "mdash"@,
        name != "ndash"@,
        name != "hellip"@,
        name != "laquo"@,
        name != "raquo"@,
        name != "copy"@,
        name != "reg"@,
        name != "trade"@,
        name != "euro"@,
        name != "eacute"@,
        name != "egrave"@,
        name != "ecirc"@,
        name != "agrave"@,
        name != "ugrave"@,
        name != "ccedil"@,
    ensures
        entity_text(name) == seq!['&'] + name + seq![';'],
{
}

/// What is shown for the number of a character: the character, but a space for the no-break space,
/// and nothing for a surrogate or a number that no character has.
pub open spec fn shown_for(n: nat) -> Seq<char> {
    if n == 0xa0 {
        seq![' ']
    } else if n <= 0xd7ff || 0xe000 <= n <= 0x10ffff {
        seq![n as char]
    } else {
        Seq::empty()
    }
}

/// An entity that is a decimal number stands for the character with that number.
pub proof fn law_decimal_entity(n: nat)
    requires
        n <= 0xffff_ffff,
    ensures
        entity_text(seq!['#'] + decimal(n)) == shown_for(n),
{
    lemma_entity_names();
    let a = seq!['#'] + decimal(n);
    law_decimal_reads_back(n, 0xffff_ffff);
    law_decimal_digits(n);
    assert(a[0] == '#');
    assert(a.len() > 1 && a[1] == decimal(n)[0]);
    assert(a.skip(1) =~= decimal(n));
}

/// An entity that is an `x` and a hexadecimal number stands for the character with that number;
/// where there is no such number, for nothing.
pub proof fn law_hexadecimal_entity(digits: Seq<char>, x: char)
    requires
        x == 'x' || x == 'X',
    ensures
        entity_text(seq!['#', x] + digits) == (match number_value(digits, 16, 0xffff_ffff) {
            Some(n) => shown_for(n),
            None => Seq::empty(),
        }),
{
    lemma_entity_names();
    let b = seq!['#', x] + digits;
    assert(b[0] == '#' && b[1] == x);
    assert(b.skip(2) =~= digits);
}

/// An ampersand stays where no semicolon ends the name of an entity behind it: there is none, or
/// it stands twelve bytes or more behind the ampersand, or a tag or another ampersand comes first.
pub proof fn law_ampersand_stays(rest: Seq<char>)
    requires
        forall|k: int|
            0 <= k < rest.len() && #[trigger] rest[k] == ';' ==> byte_len(rest.take(k)) >= 12
                || rest.take(k).contains('<') || rest.take(k).contains('&'),
    ensures
        stripped(seq!['&'] + rest) == seq!['&'] + stripped(rest),
{
    let s = seq!['&'] + rest;
    assert(s.drop_first() =~= rest);
    lemma_semicolon_within(rest, ENTITY_WINDOW as int);
    lemma_semicolon_is_near(rest, ENTITY_WINDOW as int);
    if let Some(k) = semicolon_within(rest, ENTITY_WINDOW as int) {
        let name = rest.take(k);
        assert(rest[k] == ';');
        if name.contains('<') {
            let i = choose|i: int| 0 <= i < name.len() && name[i] == '<';
            assert(rest[i] == '<');
        }
        if name.contains('&') {
            let i = choose|i: int| 0 <= i < name.len() && name[i] == '&';
            assert(rest[i] == '&');
        }
    }
}

/// The semicolon that ends a name stands within the window.
proof fn lemma_semicolon_is_near(s: Seq<char>, window: int)
    ensures
        semicolon_within(s, window) matches Some(k) ==> 0 <= k < s.len() && byte_len(s.take(k))
            < window,
    decreases s.len(),
{
    if s.len() > 0 && window > 0 {
        assert(s.take(0) =~= Seq::empty());
        let t = s.drop_first();
        let head = seq![s.first()];
        lemma_semicolon_is_near(t, window - utf8_width(s.first()));
        assert(head.drop_last() =~= Seq::empty());
        assert(byte_len(head) == byte_len(Seq::empty()) + utf8_width(head.last()));
        if let Some(k) = semicolon_within(t, window - utf8_width(s.first())) {
            assert(s.take(k + 1) =~= head + t.take(k));
            lemma_byte_len_add(head, t.take(k));
        }
    }
}

/// Whether one of the entities of `s` outside its tags stands for `<`.
pub open spec fn spells_less_than(s: Seq<char>) -> bool
    decreases s.len(),
{
    if s.len() == 0 {
        false
    } else if s.first() == '<' {
        proof {
            lemma_first_of(s.drop_first(), '>');
        }
        match first_of(s.drop_first(), '>') {
            Some(k) => spells_less_than(s.skip(k + 2)),
            None => false,
        }
    } else if s.first() == '&' {
        proof {
            lemma_semicolon_within(s.drop_first(), ENTITY_WINDOW as int);
        }
        match semicolon_within(s.drop_first(), ENTITY_WINDOW as int) {
            Some(k) => entity_text(s.subrange(1, k + 1)).contains('<') || spells_less_than(
                s.skip(k + 2),
            ),
            None => spells_less_than(s.drop_first()),
        }
    } else {
        spells_less_than(s.drop_first())
    }
}

/// No tag is left of a text: where `<` is left, an entity stands for it.
pub proof fn law_no_tag_left(s: Seq<char>)
    ensures
        stripped(s).contains('<') <==> spells_less_than(s),
    decreases s.len(),
{
    if s.len() > 0 {
        lemma_first_of(s.drop_first(), '>');
        lemma_semicolon_within(s.drop_first(), ENTITY_WINDOW as int);
        if s.first() == '<' {
            if let Some(k) = first_of(s.drop_first(), '>') {
                law_no_tag_left(s.skip(k + 2));
            }
        } else if s.first() == '&' {
            match semicolon_within(s.drop_first(), ENTITY_WINDOW as int) {
                Some(k) => {
                    law_no_tag_left(s.skip(k + 2));
                    lemma_contains_add(
                        entity_text(s.subrange(1, k + 1)),
                        stripped(s.skip(k + 2)),
                        '<',
                    );
                },
                None => {
                    law_no_tag_left(s.drop_first());
                    lemma_contains_add(seq!['&'], stripped(s.drop_first()), '<');
                },
            }
        } else {
            law_no_tag_left(s.drop_first());
            lemma_contains_add(seq![s.first()], stripped(s.drop_first()), '<');
        }
    }
}

/// A text holds the characters of its parts.
proof fn lemma_contains_add(a: Seq<char>, b: Seq<char>, c: char)
    ensures
        (a + b).contains(c) <==> a.contains(c) || b.contains(c),
{
    if a.contains(c) {
        let i = choose|i: int| 0 <= i < a.len() && a[i] == c;
        assert((a + b)[i] == c);
    }
    if b.contains(c) {
        let i = choose|i: int| 0 <= i < b.len() && b[i] == c;
        assert((a + b)[a.len() + i] == c);
    }
    if (a + b).contains(c) {
        let i = choose|i: int| 0 <= i < (a + b).len() && (a + b)[i] == c;
        if i < a.len() {
            assert(a[i] == c);
        } else {
            assert(b[i - a.len()] == c);
        }
    }
}

/// Where plain text is left, stripping it again changes nothing.
pub proof fn law_stripping_again(s: Seq<char>)
    requires
        plain(stripped(s)),
    ensures
        stripped(stripped(s)) == stripped(s),
{
    let t = stripped(s);
    law_plain_text_stays(t, Seq::empty());
    assert(t + Seq::empty() =~= t);
    assert(t + stripped(Seq::empty()) =~= t);
}

/// Nothing else than its own characters is left of a text without entities, and it is plain.
pub proof fn law_text_without_entities(s: Seq<char>)
    requires
        !s.contains('&'),
    ensures
        plain(stripped(s)),
        stripped(s).len() <= s.len(),
        forall|c: char| #[trigger] stripped(s).contains(c) ==> s.contains(c),
{
    lemma_no_tag_left(s);
}

proof fn lemma_no_tag_left(s: Seq<char>)
    requires
        !s.contains('&'),
    ensures
        !stripped(s).contains('<'),
        stripped(s).len() <= s.len(),
        forall|c: char| #[trigger] stripped(s).contains(c) ==> s.contains(c),
    decreases s.len(),
{
    if s.len() > 0 {
        assert(s.contains(s[0]));
        if s.first() == '<' {
            lemma_first_of(s.drop_first(), '>');
            if let Some(k) = first_of(s.drop_first(), '>') {
                let t = s.skip(k + 2);
                assert forall|c: char| t.contains(c) implies s.contains(c) by {
                    let i = choose|i: int| 0 <= i < t.len() && t[i] == c;
                    assert(s[i + k + 2] == c);
                }
                lemma_no_tag_left(t);
            }
        } else {
            let t = s.drop_first();
            assert forall|c: char| t.contains(c) implies s.contains(c) by {
                let i = choose|i: int| 0 <= i < t.len() && t[i] == c;
                assert(s[i + 1] == c);
            }
            lemma_no_tag_left(t);
            let out = stripped(s);
            assert forall|c: char| #[trigger] out.contains(c) implies c == s[0] || stripped(
                t,
            ).contains(c) by {
                let i = choose|i: int| 0 <= i < out.len() && out[i] == c;
                if i > 0 {
                    assert(stripped(t)[i - 1] == c);
                }
            }
        }
    }
}

} // verus!
