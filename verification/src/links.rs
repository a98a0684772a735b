//! Markdown links: those whose text spans lines are flattened into their text.
use vstd::prelude::*;

use crate::letters::byte_count;
use crate::letters::byte_len;
use crate::letters::bytes_before;
use crate::letters::find_char;
use crate::letters::first_of;
use crate::letters::lemma_first_of;
use crate::text::chars_of;
use crate::text::push_chars;

verus! {

/// The position of the first `close` of `s` that brings the nesting down to none, where
/// `depth` is the nesting before `s`.
pub open spec fn closing(s: Seq<char>, open: char, close: char, depth: int) -> Option<int>
    decreases s.len(),
{
    if s.len() == 0 {
        None
    } else if s.first() == close && s.first() != open && depth == 1 {
        Some(0)
    } else {
        let inner = if s.first() == open {
            depth + 1
        } else if s.first() == close {
            depth - 1
        } else {
            depth
        };
        match closing(s.drop_first(), open, close, inner) {
            Some(k) => Some(k + 1),
            None => None,
        }
    }
}

/// The position of the bracket that matches the first `[` of `s`.
pub open spec fn closing_bracket(s: Seq<char>) -> Option<int> {
    closing(s, '[', ']', 0)
}

/// The position of the parenthesis that matches the first `(` of `s`.
pub open spec fn closing_paren(s: Seq<char>) -> Option<int> {
    closing(s, '(', ')', 0)
}

/// `closing` is a position of the text.
pub proof fn lemma_closing(s: Seq<char>, open: char, close: char, depth: int)
    ensures
        closing(s, open, close, depth) matches Some(k) ==> 0 <= k < s.len() && s[k] == close,
    decreases s.len(),
{
    if s.len() > 0 {
        let t = s.drop_first();
        lemma_closing(t, open, close, depth + 1);
        lemma_closing(t, open, close, depth - 1);
        lemma_closing(t, open, close, depth);
    }
}

/// `s` with its block links flattened. A link is `[`, a text, the bracket that matches, and
/// directly behind it a parenthesis and the one that matches that; an exclamation mark before
/// it makes it an image. A link whose text spans lines gives way to its text; everything else
/// stays as it is.
pub open spec fn flattened(s: Seq<char>) -> Seq<char>
    decreases s.len(),
{
    proof {
        lemma_first_of(s, '[');
    }
    match first_of(s, '[') {
        None => s,
        Some(start) => {
            let link = s.skip(start);
            let image = start > 0 && s[start - 1] == '!';
            proof {
                lemma_closing(link, '[', ']', 0);
            }
            match closing_bracket(link) {
                None => s,
                Some(end) => {
                    let text = link.subrange(1, end);
                    let after = link.skip(end + 1);
                    proof {
                        lemma_closing(after, '(', ')', 0);
                    }
                    if !image && after.len() > 0 && after[0] == '(' && closing_paren(
                        after,
                    ) is Some {
                        let paren = closing_paren(after)->0;
                        let kept = if text.contains('\n') {
                            text
                        } else {
                            link.take(end + 1) + after.take(paren + 1)
                        };
                        s.take(start) + kept + flattened(after.skip(paren + 1))
                    } else {
                        s.take(start + 1) + flattened(link.drop_first())
                    }
                },
            }
        },
    }
}

/// The position, from `from` on, of the `close` that brings the nesting down to none.
fn find_closing(cs: &[char], open: char, close: char, from: usize) -> (res: Option<usize>)
    requires
        from <= cs@.len(),
        open != close,
    ensures
        match res {
            Some(k) => from <= k < cs@.len() && closing(cs@.skip(from as int), open, close, 0)
                == Some(k - from),
            None => closing(cs@.skip(from as int), open, close, 0) is None,
        },
{
    let n: usize = cs.len();
    let mut depth: i128 = 0;
    let mut i: usize = from;
    while i < n
        invariant
            open != close,
            from <= i <= n == cs@.len(),
            -(i - from) <= depth <= i - from,
            closing(cs@.skip(from as int), open, close, 0) == (match closing(
                cs@.skip(i as int),
                open,
                close,
                depth as int,
            ) {
                Some(k) => Some(k + i - from),
                None => None::<int>,
            }),
        decreases n - i,
    {
        let ghost rest = cs@.skip(i as int);
        let c: char = cs[i];
        assert(rest.drop_first() =~= cs@.skip(i + 1));
        if c == open {
            depth += 1;
        } else if c == close {
            if depth == 1 {
                return Some(i);
            }
            depth -= 1;
        }
        i += 1;
    }
    None
}

/// The byte position in `input` of the parenthesis that brings the nesting down to none.
pub fn find_matching_paren(input: &str) -> (res: Option<usize>)
    ensures
        match res {
            Some(b) => closing_paren(input@) matches Some(k) && b == byte_len(input@.take(k)),
            None => closing_paren(input@) is None,
        },
{
    let cs = chars_of(input);
    assert(cs@.skip(0) =~= input@);
    let total: usize = byte_count(input);
    match find_closing(&cs, '(', ')', 0) {
        Some(k) => Some(bytes_before(&cs, k, total)),
        None => None,
    }
}

/// Whether there is a line break from `from` up to `to`.
fn spans_lines(cs: &[char], from: usize, to: usize) -> (res: bool)
    requires
        from <= to <= cs@.len(),
    ensures
        res == cs@.subrange(from as int, to as int).contains('\n'),
{
    let ghost text = cs@.subrange(from as int, to as int);
    let mut i: usize = from;
    while i < to
        invariant
            from <= i <= to <= cs@.len(),
            text == cs@.subrange(from as int, to as int),
            forall|j: int| 0 <= j < i - from ==> text[j] != '\n',
        decreases to - i,
    {
        if cs[i] == '\n' {
            assert(text[i - from] == '\n');
            return true;
        }
        i += 1;
    }
    false
}

/// What the first link from position `at` of `cs` leaves behind.
proof fn lemma_flattened_link(cs: Seq<char>, at: int, start: int, end: int, paren: int)
    requires
        0 <= at <= start < end < paren < cs.len(),
        first_of(cs.skip(at), '[') == Some(start - at),
        closing_bracket(cs.skip(start)) == Some(end - start),
        !(start > at && cs[start - 1] == '!'),
        cs[end + 1] == '(',
        closing_paren(cs.skip(end + 1)) == Some(paren - (end + 1)),
    ensures
        flattened(cs.skip(at)) == cs.subrange(at, start) + (if cs.subrange(
            start + 1,
            end,
        ).contains('\n') {
            cs.subrange(start + 1, end)
        } else {
            cs.subrange(start, paren + 1)
        }) + flattened(cs.skip(paren + 1)),
{
    let s = cs.skip(at);
    let link = s.skip(start - at);
    assert(link =~= cs.skip(start));
    let after = link.skip(end - start + 1);
    assert(after =~= cs.skip(end + 1));
    let p = paren - (end + 1);
    assert(s.take(start - at) =~= cs.subrange(at, start));
    assert(link.subrange(1, end - start) =~= cs.subrange(start + 1, end));
    assert(link.take(end - start + 1) + after.take(p + 1) =~= cs.subrange(start, paren + 1));
    assert(after.skip(p + 1) =~= cs.skip(paren + 1));
}

/// What the first bracket from position `at` of `cs` leaves behind where it begins no link.
proof fn lemma_flattened_bracket(cs: Seq<char>, at: int, start: int, end: int)
    requires
        0 <= at <= start < end < cs.len(),
        first_of(cs.skip(at), '[') == Some(start - at),
        closing_bracket(cs.skip(start)) == Some(end - start),
        (start > at && cs[start - 1] == '!') || end + 1 == cs.len() || cs[end + 1] != '('
            || closing_paren(cs.skip(end + 1)) is None,
    ensures
        flattened(cs.skip(at)) == cs.subrange(at, start + 1) + flattened(cs.skip(start + 1)),
{
    let s = cs.skip(at);
    let link = s.skip(start - at);
    assert(link =~= cs.skip(start));
    assert(link.skip(end - start + 1) =~= cs.skip(end + 1));
    assert(s.take(start - at + 1) =~= cs.subrange(at, start + 1));
    assert(link.drop_first() =~= cs.skip(start + 1));
}

/// `input` with its block links flattened.
pub fn fix_block_links(input: &str) -> (res: String)
    ensures
        res@ == flattened(input@),
{
    let cs = chars_of(input);
    let n: usize = cs.len();
    let mut out = String::new();
    let mut at: usize = 0;
    assert(cs@.skip(0) =~= cs@);
    loop
        invariant
            at <= n == cs@.len(),
            cs@ == input@,
            out@ + flattened(cs@.skip(at as int)) == flattened(input@),
        decreases n - at,
    {
        let ghost before = out@;
        let start: usize = match find_char(&cs, '[', at) {
            Some(start) => start,
            None => {
                push_chars(&mut out, &cs, at, n);
                assert(cs@.subrange(at as int, n as int) =~= cs@.skip(at as int));
                return out;
            },
        };
        let image: bool = start > at && cs[start - 1] == '!';
        let end: usize = match find_closing(&cs, '[', ']', start) {
            Some(end) => end,
            None => {
                push_chars(&mut out, &cs, at, n);
                assert(cs@.subrange(at as int, n as int) =~= cs@.skip(at as int));
                assert(cs@.skip(at as int).skip(start - at) =~= cs@.skip(start as int));
                return out;
            },
        };
        proof {
            lemma_first_of(cs@.skip(at as int), '[');
            lemma_closing(cs@.skip(start as int), '[', ']', 0);
        }
        let paren: Option<usize> = if !image && end + 1 < n && cs[end + 1] == '(' {
            find_closing(&cs, '(', ')', end + 1)
        } else {
            None
        };
        match paren {
            Some(paren) => {
                proof {
                    lemma_flattened_link(cs@, at as int, start as int, end as int, paren as int);
                }
                push_chars(&mut out, &cs, at, start);
                if spans_lines(&cs, start + 1, end) {
                    push_chars(&mut out, &cs, start + 1, end);
                } else {
                    push_chars(&mut out, &cs, start, paren + 1);
                }
                assert(out@ + flattened(cs@.skip(paren + 1)) =~= before + flattened(
                    cs@.skip(at as int),
                ));
                at = paren + 1;
            },
            None => {
                proof {
                    lemma_flattened_bracket(cs@, at as int, start as int, end as int);
                }
                push_chars(&mut out, &cs, at, start + 1);
                assert(out@ + flattened(cs@.skip(start + 1)) =~= before + flattened(
                    cs@.skip(at as int),
                ));
                at = start + 1;
            },
        }
    }
}

// Laws.

/// How much deeper the nesting is behind a text than before it.
pub open spec fn deeper(s: Seq<char>, open: char, close: char) -> int
    decreases s.len(),
{
    if s.len() == 0 {
        0
    } else {
        deeper(s.drop_last(), open, close) + (if s.last() == open {
            1int
        } else if s.last() == close {
            -1
        } else {
            0
        })
    }
}

/// The first sign adds to the nesting what it adds wherever it stands.
proof fn lemma_deeper(s: Seq<char>, open: char, close: char)
    requires
        s.len() > 0,
    ensures
        deeper(s, open, close) == deeper(s.drop_first(), open, close) + (if s.first() == open {
            1int
        } else if s.first() == close {
            -1
        } else {
            0
        }),
    decreases s.len(),
{
    if s.len() > 1 {
        assert(s.drop_last().drop_first() =~= s.drop_first().drop_last());
        lemma_deeper(s.drop_last(), open, close);
    } else {
        assert(s.drop_last() =~= Seq::empty());
        assert(s.drop_first() =~= Seq::empty());
    }
}

/// What closes a nesting is the first sign that closes and leaves no depth.
pub proof fn law_closing(s: Seq<char>, open: char, close: char, depth: int)
    requires
        open != close,
    ensures
        match closing(s, open, close, depth) {
            Some(k) => 0 <= k < s.len() && s[k] == close && depth + deeper(
                s.take(k + 1),
                open,
                close,
            ) == 0 && forall|j: int|
                0 <= j < k && #[trigger] s[j] == close ==> depth + deeper(
                    s.take(j + 1),
                    open,
                    close,
                ) != 0,
            None => forall|j: int|
                0 <= j < s.len() && #[trigger] s[j] == close ==> depth + deeper(
                    s.take(j + 1),
                    open,
                    close,
                ) != 0,
        },
    decreases s.len(),
{
    if s.len() > 0 {
        let t = s.drop_first();
        let step: int = if s.first() == open {
            1
        } else if s.first() == close {
            -1
        } else {
            0
        };
        law_closing(t, open, close, depth + step);
        assert forall|j: int| 0 <= j < t.len() implies deeper(s.take(j + 2), open, close) == step
            + deeper(#[trigger] t.take(j + 1), open, close) by {
            assert(s.take(j + 2).drop_first() =~= t.take(j + 1));
            lemma_deeper(s.take(j + 2), open, close);
        }
        assert(s.take(1).drop_last() =~= Seq::empty());
        assert(s.take(1).last() == s.first());
        assert(deeper(s.take(1), open, close) == step) by {
            assert(deeper(s.take(1).drop_last(), open, close) == 0);
        }
        let found = closing(s, open, close, depth);
        let bound = match found {
            Some(k) => k,
            None => s.len() as int,
        };
        if s.first() == close && depth == 1 {
            assert(found == Some(0int));
        } else {
            if let Some(k) = closing(t, open, close, depth + step) {
                assert(t.take(k + 1).len() == k + 1);
                assert(s[k + 1] == t[k]);
            }
            assert forall|j: int| 0 <= j < bound && #[trigger] s[j] == close implies depth + deeper(
                s.take(j + 1),
                open,
                close,
            ) != 0 by {
                if j > 0 {
                    assert(t[j - 1] == close);
                    assert(t.take(j - 1 + 1).len() == j);
                }
            }
        }
    }
}

/// A bracket that nothing closes stays, and so does all that follows it.
pub proof fn law_open_bracket_stays(before: Seq<char>, rest: Seq<char>)
    requires
        !before.contains('['),
        closing_bracket(seq!['['] + rest) is None,
    ensures
        flattened(before + seq!['['] + rest) == before + seq!['['] + rest,
{
    let s = before + seq!['['] + rest;
    lemma_first_bracket(before, rest);
    assert(s.skip(before.len() as int) =~= seq!['['] + rest);
}

/// Brackets without an address in parentheses directly behind them are no link: the first stays,
/// and what follows it is read on.
pub proof fn law_brackets_stay(before: Seq<char>, text: Seq<char>, after: Seq<char>)
    requires
        !before.contains('['),
        closing_bracket(seq!['['] + text + seq![']']) == Some(text.len() as int + 1),
        after.len() == 0 || after[0] != '(' || closing_paren(after) is None,
    ensures
        flattened(before + seq!['['] + text + seq![']'] + after) == before + seq!['['] + flattened(
            text + seq![']'] + after,
        ),
{
    let rest = text + seq![']'] + after;
    let s = before + seq!['['] + rest;
    let start = before.len() as int;
    lemma_first_bracket(before, rest);
    let l = s.skip(start);
    let bracketed = seq!['['] + text + seq![']'];
    assert(l =~= bracketed + after);
    lemma_closing_add(bracketed, after, '[', ']', 0);
    let end = text.len() as int + 1;
    assert(l.skip(end + 1) =~= after);
    assert(l.drop_first() =~= rest);
    assert(s.take(start + 1) =~= before + seq!['[']);
    assert(before + seq!['['] + text + seq![']'] + after =~= s);
}

/// The Markdown of a link.
pub open spec fn link(text: Seq<char>, address: Seq<char>) -> Seq<char> {
    seq!['['] + text + seq![']'] + seq!['('] + address + seq![')']
}

/// Whether the brackets of a link's text and the parentheses of its address are balanced, so that
/// the link ends where it seems to.
pub open spec fn balanced(text: Seq<char>, address: Seq<char>) -> bool {
    &&& closing_bracket(seq!['['] + text + seq![']']) == Some(text.len() as int + 1)
    &&& closing_paren(seq!['('] + address + seq![')']) == Some(address.len() as int + 1)
}

/// A text without brackets and an address without parentheses are balanced.
pub proof fn law_plain_link_is_balanced(text: Seq<char>, address: Seq<char>)
    requires
        !text.contains('[') && !text.contains(']'),
        !address.contains('(') && !address.contains(')'),
    ensures
        balanced(text, address),
{
    let bracketed = seq!['['] + text + seq![']'];
    assert(bracketed.drop_first() =~= text + seq![']']);
    lemma_closing_plain(text, '[', ']');
    let parenthesized = seq!['('] + address + seq![')'];
    assert(parenthesized.drop_first() =~= address + seq![')']);
    lemma_closing_plain(address, '(', ')');
}

/// Where a text has no signs of nesting, the one behind it closes what was open.
proof fn lemma_closing_plain(s: Seq<char>, open: char, close: char)
    requires
        !s.contains(open) && !s.contains(close),
        open != close,
    ensures
        closing(s + seq![close], open, close, 1) == Some(s.len() as int),
    decreases s.len(),
{
    if s.len() > 0 {
        let t = s.drop_first();
        assert(s.contains(s[0]));
        assert forall|c: char| t.contains(c) implies s.contains(c) by {
            let i = choose|i: int| 0 <= i < t.len() && t[i] == c;
            assert(s[i + 1] == c);
        }
        assert((s + seq![close]).drop_first() =~= t + seq![close]);
        lemma_closing_plain(t, open, close);
    }
}

/// Where a text ends its nesting, what follows does not matter.
proof fn lemma_closing_add(s: Seq<char>, rest: Seq<char>, open: char, close: char, depth: int)
    requires
        closing(s, open, close, depth) is Some,
    ensures
        closing(s + rest, open, close, depth) == closing(s, open, close, depth),
    decreases s.len(),
{
    if s.len() > 0 {
        assert((s + rest).drop_first() =~= s.drop_first() + rest);
        if !(s.first() == close && s.first() != open && depth == 1) {
            let inner = if s.first() == open {
                depth + 1
            } else if s.first() == close {
                depth - 1
            } else {
                depth
            };
            lemma_closing_add(s.drop_first(), rest, open, close, inner);
        }
    }
}

/// The first bracket of a text that none stands before.
proof fn lemma_first_bracket(before: Seq<char>, rest: Seq<char>)
    requires
        !before.contains('['),
    ensures
        first_of(before + seq!['['] + rest, '[') == Some(before.len() as int),
{
    let s = before + seq!['['] + rest;
    let n = before.len() as int;
    assert(s[n] == '[');
    assert forall|i: int| 0 <= i < n implies s[i] != '[' by {
        assert(s[i] == before[i]);
        assert(before.contains(before[i]));
    }
    lemma_first_of(s, '[');
}

/// A text without brackets stays as it is.
pub proof fn law_no_link(s: Seq<char>)
    requires
        !s.contains('['),
    ensures
        flattened(s) == s,
{
    lemma_first_of(s, '[');
    if let Some(k) = first_of(s, '[') {
        assert(s.contains(s[k]));
    }
}

/// What becomes of the first link of a text.
proof fn lemma_first_link(before: Seq<char>, text: Seq<char>, address: Seq<char>, rest: Seq<char>)
    requires
        !before.contains('['),
        before.len() == 0 || before.last() != '!',
        balanced(text, address),
    ensures
        flattened(before + link(text, address) + rest) == before + (if text.contains('\n') {
            text
        } else {
            link(text, address)
        }) + flattened(rest),
{
    let s = before + link(text, address) + rest;
    let tail = text + seq![']'] + seq!['('] + address + seq![')'] + rest;
    let start = before.len() as int;
    assert(s =~= before + seq!['['] + tail);
    lemma_first_bracket(before, tail);
    let l = s.skip(start);
    let bracketed = seq!['['] + text + seq![']'];
    let after = seq!['('] + address + seq![')'] + rest;
    assert(l =~= bracketed + after);
    lemma_closing_add(bracketed, after, '[', ']', 0);
    let end = text.len() as int + 1;
    assert(closing_bracket(l) == Some(end));
    assert(l.subrange(1, end) =~= text);
    assert(l.skip(end + 1) =~= after);
    let parenthesized = seq!['('] + address + seq![')'];
    assert(after =~= parenthesized + rest);
    lemma_closing_add(parenthesized, rest, '(', ')', 0);
    let paren = address.len() as int + 1;
    assert(closing_paren(after) == Some(paren));
    assert(after.skip(paren + 1) =~= rest);
    assert(after.take(paren + 1) =~= parenthesized);
    assert(l.take(end + 1) =~= bracketed);
    assert(bracketed + parenthesized =~= link(text, address));
    assert(s.take(start) =~= before);
    if start > 0 {
        assert(s[start - 1] == before.last());
    }
}

/// A link whose text stands on one line stays as it is, also where its address has parentheses of
/// its own.
pub proof fn law_link_stays(
    before: Seq<char>,
    text: Seq<char>,
    address: Seq<char>,
    rest: Seq<char>,
)
    requires
        !before.contains('['),
        before.len() == 0 || before.last() != '!',
        balanced(text, address),
        !text.contains('\n'),
    ensures
        flattened(before + link(text, address) + rest) == before + link(text, address) + flattened(
            rest,
        ),
{
    lemma_first_link(before, text, address, rest);
}

/// A link whose text spans lines gives way to its text.
pub proof fn law_block_link_is_flattened(
    before: Seq<char>,
    text: Seq<char>,
    address: Seq<char>,
    rest: Seq<char>,
)
    requires
        !before.contains('['),
        before.len() == 0 || before.last() != '!',
        balanced(text, address),
        text.contains('\n'),
    ensures
        flattened(before + link(text, address) + rest) == before + text + flattened(rest),
{
    lemma_first_link(before, text, address, rest);
}

/// An image keeps its bracket, and what follows is read on.
pub proof fn law_image_stays(before: Seq<char>, rest: Seq<char>)
    requires
        !before.contains('['),
        closing_bracket(seq!['['] + rest) is Some,
    ensures
        flattened(before + seq!['!'] + seq!['['] + rest) == before + seq!['!'] + seq!['[']
            + flattened(rest),
{
    let head = before + seq!['!'];
    let s = head + seq!['['] + rest;
    let start = head.len() as int;
    assert forall|c: char| head.contains(c) implies before.contains(c) || c == '!' by {
        let i = choose|i: int| 0 <= i < head.len() && head[i] == c;
        if i < before.len() {
            assert(before[i] == c);
        }
    }
    lemma_first_bracket(head, rest);
    let l = s.skip(start);
    assert(l =~= seq!['['] + rest);
    assert(s[start - 1] == '!');
    assert(l.drop_first() =~= rest);
    assert(s.take(start + 1) =~= head + seq!['[']);
    lemma_closing(l, '[', ']', 0);
}

/// Nothing is added to a text: what is left of it is no longer, and has no other characters.
pub proof fn law_nothing_added(s: Seq<char>)
    ensures
        flattened(s).len() <= s.len(),
        forall|c: char| #[trigger] flattened(s).contains(c) ==> s.contains(c),
    decreases s.len(),
{
    lemma_first_of(s, '[');
    if let Some(start) = first_of(s, '[') {
        let l = s.skip(start);
        lemma_closing(l, '[', ']', 0);
        if let Some(end) = closing_bracket(l) {
            let text = l.subrange(1, end);
            let after = l.skip(end + 1);
            lemma_closing(after, '(', ')', 0);
            let image = start > 0 && s[start - 1] == '!';
            if !image && after.len() > 0 && after[0] == '(' && closing_paren(after) is Some {
                let paren = closing_paren(after)->0;
                let rest = after.skip(paren + 1);
                law_nothing_added(rest);
                let kept = if text.contains('\n') {
                    text
                } else {
                    l.take(end + 1) + after.take(paren + 1)
                };
                assert forall|c: char| kept.contains(c) implies s.contains(c) by {
                    let i = choose|i: int| 0 <= i < kept.len() && kept[i] == c;
                    if text.contains('\n') {
                        assert(s[start + 1 + i] == c);
                    } else {
                        assert(s[start + i] == c);
                    }
                }
                assert forall|c: char| rest.contains(c) implies s.contains(c) by {
                    let i = choose|i: int| 0 <= i < rest.len() && rest[i] == c;
                    assert(s[start + end + 1 + paren + 1 + i] == c);
                }
                lemma_three_parts(s, s.take(start), kept, flattened(rest));
            } else {
                let rest = l.drop_first();
                law_nothing_added(rest);
                assert forall|c: char| rest.contains(c) implies s.contains(c) by {
                    let i = choose|i: int| 0 <= i < rest.len() && rest[i] == c;
                    assert(s[start + 1 + i] == c);
                }
                assert(s.take(start + 1) =~= s.take(start + 1) + Seq::empty());
                lemma_three_parts(s, s.take(start + 1), Seq::empty(), flattened(rest));
            }
        }
    }
}

/// What holds of the characters of three parts holds of the whole.
proof fn lemma_three_parts(s: Seq<char>, a: Seq<char>, b: Seq<char>, c: Seq<char>)
    requires
        a.is_prefix_of(s),
        forall|x: char| b.contains(x) ==> s.contains(x),
        forall|x: char| c.contains(x) ==> s.contains(x),
    ensures
        forall|x: char| #[trigger] (a + b + c).contains(x) ==> s.contains(x),
{
    let all = a + b + c;
    assert forall|x: char| #[trigger] all.contains(x) implies s.contains(x) by {
        let i = choose|i: int| 0 <= i < all.len() && all[i] == x;
        if i < a.len() {
            assert(s[i] == x);
        } else if i < a.len() + b.len() {
            assert(b[i - a.len()] == x);
        } else {
            assert(c[i - a.len() - b.len()] == x);
        }
    }
}

} // verus!
