//! The last steps from rewritten HTML to Markdown: post-processing and excerpts.
use vstd::prelude::*;

use crate::letters::byte_len;
use crate::letters::find_char;
use crate::letters::first_of;
use crate::letters::lemma_byte_len_add;
use crate::letters::lemma_byte_len_take;
use crate::letters::lemma_first_of;
use crate::letters::utf8_width;
use crate::letters::width_of;
use crate::links::fix_block_links;
use crate::links::flattened;
use crate::links::law_no_link;
use crate::links::law_nothing_added;
use crate::markup::law_no_tag_left;
use crate::markup::law_plain_text_stays;
use crate::markup::plain;
use crate::markup::spells_less_than;
use crate::markup::strip_and_decode;
use crate::markup::stripped;
use crate::text::chars_of;
use crate::text::law_trim_of_parts;
use crate::text::law_trimmed;
use crate::text::push_chars;
use crate::text::string_of;
use crate::text::trim;
use crate::text::trim_end;
use crate::text::trim_range;
use crate::text::trim_start;
use crate::text::white_space;

verus! {

/// The lines of `s`, without their line feeds. A line feed at the end begins no further line.
pub open spec fn lines(s: Seq<char>) -> Seq<Seq<char>>
    decreases s.len(),
{
    proof {
        lemma_first_of(s, '\n');
    }
    if s.len() == 0 {
        Seq::empty()
    } else {
        match first_of(s, '\n') {
            None => seq![s],
            Some(k) => seq![s.take(k)] + lines(s.skip(k + 1)),
        }
    }
}

/// The lines `ls`, each trimmed and ended by a line feed, with one blank line for every run of
/// blank lines, and none where `after_blank` says that one stands before them.
pub open spec fn tidied(ls: Seq<Seq<char>>, after_blank: bool) -> Seq<char>
    decreases ls.len(),
{
    if ls.len() == 0 {
        Seq::empty()
    } else {
        let line = trim(ls.first());
        if line.len() > 0 {
            line + seq!['\n'] + tidied(ls.drop_first(), false)
        } else if after_blank {
            tidied(ls.drop_first(), true)
        } else {
            seq!['\n'] + tidied(ls.drop_first(), true)
        }
    }
}

/// `s` with its lines trimmed and its blank lines collapsed.
pub open spec fn normalized_lines(s: Seq<char>) -> Seq<char> {
    trim(tidied(lines(s), false))
}

/// The Markdown of a rewritten page: without tags, its entities decoded, its block links
/// flattened and its lines normalized.
pub open spec fn post_processed(raw: Seq<char>) -> Seq<char> {
    normalized_lines(flattened(stripped(raw)))
}

/// `text` with its lines trimmed and its blank lines collapsed.
pub fn normalize_lines(text: &str) -> (res: String)
    ensures
        res@ == normalized_lines(text@),
{
    let cs = chars_of(text);
    let n: usize = cs.len();
    let mut out = String::new();
    let mut after_blank: bool = false;
    let mut at: usize = 0;
    assert(cs@.skip(0) =~= cs@);
    while at < n
        invariant
            at <= n == cs@.len(),
            cs@ == text@,
            out@ + tidied(lines(cs@.skip(at as int)), after_blank) == tidied(lines(text@), false),
        decreases n - at,
    {
        let ghost rest = cs@.skip(at as int);
        let ghost before = out@;
        let ghost was_blank = after_blank;
        let end: usize = match find_char(&cs, '\n', at) {
            Some(k) => k,
            None => n,
        };
        let (a, b) = trim_range(&cs, at, end);
        let ghost line = cs@.subrange(at as int, end as int);
        let next: usize = if end < n {
            end + 1
        } else {
            n
        };
        proof {
            if end < n {
                assert(rest.take(end - at) =~= line);
                assert(rest.skip(end - at + 1) =~= cs@.skip(next as int));
            } else {
                assert(rest =~= line);
                assert(lines(cs@.skip(next as int)) =~= Seq::<Seq<char>>::empty());
            }
            assert(lines(rest) =~= seq![line] + lines(cs@.skip(next as int)));
            assert(lines(rest).drop_first() =~= lines(cs@.skip(next as int)));
        }
        if a == b {
            if !after_blank {
                out.push('\n');
            }
            after_blank = true;
        } else {
            push_chars(&mut out, &cs, a, b);
            out.push('\n');
            after_blank = false;
        }
        assert(out@ + tidied(lines(cs@.skip(next as int)), after_blank) =~= before + tidied(
            lines(rest),
            was_blank,
        ));
        at = next;
    }
    assert(out@ + tidied(lines(cs@.skip(at as int)), after_blank) =~= out@);
    crate::text::trimmed(out.as_str())
}

/// The Markdown of a rewritten page.
pub fn post_process(raw: &str) -> (res: String)
    ensures
        res@ == post_processed(raw@),
        res@ == normalized_lines(flattened(stripped(raw@))),
{
    let decoded = strip_and_decode(raw);
    let fixed = fix_block_links(decoded.as_str());
    normalize_lines(fixed.as_str())
}

/// How many characters from the start of `s` fit into `max` bytes.
pub open spec fn fitting(s: Seq<char>, max: int) -> nat
    decreases s.len(),
{
    if s.len() == 0 || utf8_width(s.first()) > max {
        0
    } else {
        1 + fitting(s.drop_first(), max - utf8_width(s.first()))
    }
}

/// The start of `markdown` that fits into `max_chars` bytes, trimmed.
pub fn markdown_excerpt(markdown: &str, max_chars: usize) -> (res: String)
    ensures
        res@ == trim(markdown@.take(fitting(markdown@, max_chars as int) as int)),
        byte_len(markdown@) <= max_chars ==> res@ == trim(markdown@),
        forall|n: int|
            0 <= n < markdown@.len() && byte_len(#[trigger] markdown@.take(n)) <= max_chars
                < byte_len(markdown@.take(n + 1)) ==> res@ == trim(markdown@.take(n)),
{
    proof {
        law_excerpt_is_longest(markdown@, max_chars as nat);
    }
    let cs = chars_of(markdown);
    let mut left: usize = max_chars;
    let mut i: usize = 0;
    assert(cs@.skip(0) =~= cs@);
    while i < cs.len() && width_of(cs[i]) <= left
        invariant
            i <= cs@.len(),
            cs@ == markdown@,
            fitting(markdown@, max_chars as int) == i + fitting(cs@.skip(i as int), left as int),
        decreases cs@.len() - i,
    {
        assert(cs@.skip(i as int).drop_first() =~= cs@.skip(i + 1));
        left -= width_of(cs[i]);
        i += 1;
    }
    let (a, b) = trim_range(&cs, 0, i);
    assert(cs@.subrange(0, i as int) =~= markdown@.take(i as int));
    string_of(&cs, a, b)
}

// Laws.

/// Whether every line feed of `s` stands next to characters that are no other white space.
pub open spec fn clean_line_ends(s: Seq<char>) -> bool {
    &&& forall|i: int|
        0 < i < s.len() && #[trigger] s[i] == '\n' ==> s[i - 1] == '\n' || !white_space(s[i - 1])
    &&& forall|i: int|
        0 < i < s.len() && white_space(#[trigger] s[i]) && s[i - 1] == '\n' ==> s[i] == '\n'
}

/// Whether no two blank lines of `s` follow each other.
pub open spec fn single_blank_lines(s: Seq<char>) -> bool {
    forall|i: int|
        1 < i < s.len() && #[trigger] s[i] == '\n' && s[i - 1] == '\n' ==> s[i - 2] != '\n'
}

/// Whether `s` is tidy: no white space at its ends or at the ends of its lines, and no two blank
/// lines that follow each other.
pub open spec fn tidy(s: Seq<char>) -> bool {
    &&& clean_line_ends(s)
    &&& single_blank_lines(s)
    &&& s.len() > 0 ==> !white_space(s.first()) && !white_space(s.last())
}

/// The lines of a text hold no line feed.
proof fn lemma_lines(s: Seq<char>)
    ensures
        forall|i: int| 0 <= i < lines(s).len() ==> !(#[trigger] lines(s)[i]).contains('\n'),
    decreases s.len(),
{
    lemma_first_of(s, '\n');
    if s.len() > 0 {
        match first_of(s, '\n') {
            None => {},
            Some(k) => {
                lemma_lines(s.skip(k + 1));
                assert forall|i: int| 0 <= i < lines(s).len() implies !(
                #[trigger] lines(s)[i]).contains('\n') by {
                    if i > 0 {
                        assert(lines(s)[i] == lines(s.skip(k + 1))[i - 1]);
                    }
                }
            },
        }
    }
}

/// Tidied lines end with a line feed, have no white space at their ends, and have no two blank
/// lines that follow each other, nor one after a blank line before them.
proof fn lemma_tidied(ls: Seq<Seq<char>>, after_blank: bool)
    requires
        forall|i: int| 0 <= i < ls.len() ==> !(#[trigger] ls[i]).contains('\n'),
    ensures
        ({
            let t = tidied(ls, after_blank);
            &&& clean_line_ends(t)
            &&& single_blank_lines(t)
            &&& t.len() > 0 ==> t.last() == '\n' && (t[0] == '\n' || !white_space(t[0]))
            &&& after_blank && t.len() > 0 ==> t[0] != '\n'
            &&& t.len() > 1 && t[0] == '\n' ==> t[1] != '\n'
        }),
    decreases ls.len(),
{
    if ls.len() > 0 {
        let t = tidied(ls, after_blank);
        let more = ls.drop_first();
        assert forall|i: int| 0 <= i < more.len() implies !(#[trigger] more[i]).contains('\n') by {
            assert(more[i] == ls[i + 1]);
        }
        let bounds = law_trimmed(ls[0]);
        let line = trim(ls.first());
        assert forall|i: int| 0 <= i < line.len() implies line[i] != '\n' by {
            assert(line[i] == ls[0][bounds.0 + i]);
            assert(ls[0].contains(line[i]));
        }
        if line.len() > 0 {
            lemma_tidied(more, false);
            let rest = tidied(more, false);
            let n = line.len() as int;
            assert(t =~= line + seq!['\n'] + rest);
            assert forall|i: int|
                0 < i < t.len() && #[trigger] t[i] == '\n' implies t[i - 1] == '\n'
                || !white_space(t[i - 1]) by {
                if i == n {
                    assert(t[i - 1] == line.last());
                } else if i > n + 1 {
                    assert(t[i] == rest[i - n - 1]);
                    assert(t[i - 1] == rest[i - n - 2]);
                }
            }
            assert forall|i: int|
                0 < i < t.len() && white_space(#[trigger] t[i]) && t[i - 1] == '\n' implies t[i]
                == '\n' by {
                if i < n {
                    assert(t[i - 1] == line[i - 1]);
                } else if i == n + 1 {
                    assert(t[i] == rest[0]);
                } else if i > n + 1 {
                    assert(t[i] == rest[i - n - 1]);
                    assert(t[i - 1] == rest[i - n - 2]);
                }
            }
            assert forall|i: int|
                1 < i < t.len() && #[trigger] t[i] == '\n' && t[i - 1] == '\n' implies t[i - 2]
                != '\n' by {
                if i <= n {
                    assert(t[i - 1] == line[i - 1]);
                } else if i == n + 1 {
                    assert(t[i - 2] == line.last());
                    assert(line[n - 1] != '\n');
                } else if i == n + 2 {
                    assert(t[i] == rest[1]);
                    assert(t[i - 1] == rest[0]);
                } else {
                    assert(t[i] == rest[i - n - 1]);
                    assert(t[i - 1] == rest[i - n - 2]);
                    assert(t[i - 2] == rest[i - n - 3]);
                }
            }
            assert(t[0] == line[0]);
            if rest.len() > 0 {
                assert(t.last() == rest.last());
            }
        } else if after_blank {
            lemma_tidied(more, true);
        } else {
            lemma_tidied(more, true);
            let rest = tidied(more, true);
            assert(t =~= seq!['\n'] + rest);
            assert forall|i: int| 0 < i < t.len() implies #[trigger] t[i] == rest[i - 1] by {}
            assert forall|i: int|
                0 < i < t.len() && #[trigger] t[i] == '\n' implies t[i - 1] == '\n'
                || !white_space(t[i - 1]) by {
                if i > 1 {
                    assert(rest[i - 1] == '\n');
                    assert(t[i - 1] == rest[i - 2]);
                }
            }
            assert forall|i: int|
                0 < i < t.len() && white_space(#[trigger] t[i]) && t[i - 1] == '\n' implies t[i]
                == '\n' by {
                if i > 1 {
                    assert(t[i - 1] == rest[i - 2]);
                    assert(white_space(rest[i - 1]));
                } else {
                    assert(t[i] == rest[0]);
                }
            }
            assert forall|i: int|
                1 < i < t.len() && #[trigger] t[i] == '\n' && t[i - 1] == '\n' implies t[i - 2]
                != '\n' by {
                assert(t[i - 1] == rest[i - 2]);
                assert(rest[i - 1] == '\n');
                if i > 2 {
                    assert(t[i - 2] == rest[i - 3]);
                }
            }
            if rest.len() > 0 {
                assert(t.last() == rest.last());
                assert(t[1] == rest[0]);
            }
        }
    }
}

/// Normalized lines are tidy.
pub proof fn law_normalized_lines_are_tidy(s: Seq<char>)
    ensures
        tidy(normalized_lines(s)),
{
    let t = tidied(lines(s), false);
    lemma_lines(s);
    lemma_tidied(lines(s), false);
    let bounds = law_trimmed(t);
    let out = normalized_lines(s);
    assert forall|i: int| 0 <= i < out.len() implies #[trigger] out[i] == t[bounds.0 + i] by {}
    assert forall|i: int| 0 < i < out.len() && #[trigger] out[i] == '\n' implies out[i - 1] == '\n'
        || !white_space(out[i - 1]) by {
        assert(t[bounds.0 + i] == '\n');
        assert(out[i - 1] == t[bounds.0 + i - 1]);
    }
    assert forall|i: int|
        0 < i < out.len() && white_space(#[trigger] out[i]) && out[i - 1] == '\n' implies out[i]
        == '\n' by {
        assert(white_space(t[bounds.0 + i]));
        assert(out[i - 1] == t[bounds.0 + i - 1]);
    }
    assert forall|i: int|
        1 < i < out.len() && #[trigger] out[i] == '\n' && out[i - 1] == '\n' implies out[i - 2]
        != '\n' by {
        assert(t[bounds.0 + i] == '\n');
        assert(out[i - 1] == t[bounds.0 + i - 1]);
        assert(out[i - 2] == t[bounds.0 + i - 2]);
    }
}

/// The Markdown of a page is tidy.
pub proof fn law_markdown_is_tidy(raw: Seq<char>)
    ensures
        tidy(post_processed(raw)),
{
    law_normalized_lines_are_tidy(flattened(stripped(raw)));
}

/// Text that is tidy up to its start stays as it is when its lines are tidied, but for the line
/// feed at its end.
proof fn lemma_tidied_tidy(s: Seq<char>, after_blank: bool)
    requires
        clean_line_ends(s),
        single_blank_lines(s),
        s.len() > 0,
        s[0] == '\n' || !white_space(s[0]),
        !white_space(s.last()),
        after_blank ==> s[0] != '\n',
        s.len() > 1 && s[0] == '\n' ==> s[1] != '\n',
    ensures
        tidied(lines(s), after_blank) == s.push('\n'),
    decreases s.len(),
{
    lemma_first_of(s, '\n');
    match first_of(s, '\n') {
        None => {
            lemma_trim_none(s);
            assert(lines(s).first() == s);
            assert(tidied(lines(s).drop_first(), false) =~= Seq::empty());
            assert(tidied(lines(s), after_blank) =~= s.push('\n'));
        },
        Some(k) => {
            let line = s.take(k);
            let rest = s.skip(k + 1);
            assert(s[s.len() - 1] != '\n');
            assert forall|i: int|
                0 <= i < rest.len() implies #[trigger] rest[i] == s[k + 1 + i] by {}
            assert(rest.last() == s.last());
            assert(rest[0] == s[k + 1]);
            assert(clean_line_ends(rest)) by {
                assert forall|i: int|
                    0 < i < rest.len() && #[trigger] rest[i] == '\n' implies rest[i - 1] == '\n'
                    || !white_space(rest[i - 1]) by {
                    assert(s[k + 1 + i] == '\n');
                    assert(rest[i - 1] == s[k + i]);
                }
                assert forall|i: int|
                    0 < i < rest.len() && white_space(#[trigger] rest[i]) && rest[i - 1]
                        == '\n' implies rest[i] == '\n' by {
                    assert(white_space(s[k + 1 + i]));
                    assert(rest[i - 1] == s[k + i]);
                }
            }
            assert(single_blank_lines(rest)) by {
                assert forall|i: int|
                    1 < i < rest.len() && #[trigger] rest[i] == '\n' && rest[i - 1]
                        == '\n' implies rest[i - 2] != '\n' by {
                    assert(s[k + 1 + i] == '\n');
                    assert(rest[i - 1] == s[k + i]);
                    assert(rest[i - 2] == s[k + i - 1]);
                }
            }
            if rest.len() > 1 && rest[0] == '\n' && rest[1] == '\n' {
                assert(s[k + 2] == '\n' && s[k + 1] == '\n' && s[k] == '\n');
                assert(false);
            }
            assert(lines(s).drop_first() =~= lines(rest));
            assert(lines(s).first() == line);
            if k == 0 {
                assert(line =~= Seq::empty());
                lemma_tidied_tidy(rest, true);
            } else {
                assert(s[k - 1] != '\n');
                assert(line.last() == s[k - 1]);
                assert(line[0] == s[0]);
                lemma_trim_none(line);
                lemma_tidied_tidy(rest, false);
            }
            assert(tidied(lines(s), after_blank) =~= s.push('\n'));
        },
    }
}

/// A text without white space at its ends is trimmed.
proof fn lemma_trim_none(s: Seq<char>)
    requires
        s.len() > 0 ==> !white_space(s.first()) && !white_space(s.last()),
    ensures
        trim(s) == s,
{
}

/// A tidy text stays as it is when its lines are normalized.
pub proof fn law_tidy_lines_stay(s: Seq<char>)
    requires
        tidy(s),
    ensures
        normalized_lines(s) == s,
{
    if s.len() > 0 {
        lemma_tidied_tidy(s, false);
        let t = s.push('\n');
        assert(trim_start(t) == t);
        assert(t.drop_last() =~= s);
        assert(trim_end(t) == trim_end(s));
        lemma_trim_none(s);
    } else {
        assert(normalized_lines(s) =~= s);
    }
}

/// Normalizing lines that have been normalized changes nothing.
pub proof fn law_normalizing_lines_again(s: Seq<char>)
    ensures
        normalized_lines(normalized_lines(s)) == normalized_lines(s),
{
    law_normalized_lines_are_tidy(s);
    law_tidy_lines_stay(normalized_lines(s));
}

/// Whether a text is nothing but white space.
pub open spec fn blank(s: Seq<char>) -> bool {
    forall|i: int| 0 <= i < s.len() ==> white_space(#[trigger] s[i])
}

/// White space at the ends of a text does not matter for what trimming leaves.
proof fn lemma_trim_blank(a: Seq<char>, s: Seq<char>, b: Seq<char>)
    requires
        blank(a),
        blank(b),
    ensures
        trim(a + s + b) == trim(s),
{
    let bounds = law_trimmed(s);
    let before = a + s.take(bounds.0);
    let after = s.skip(bounds.1) + b;
    assert forall|i: int| 0 <= i < before.len() implies white_space(#[trigger] before[i]) by {
        if i >= a.len() {
            assert(before[i] == s[i - a.len()]);
        }
    }
    let n = s.len() - bounds.1;
    assert forall|i: int| 0 <= i < after.len() implies white_space(#[trigger] after[i]) by {
        if i < n {
            assert(after[i] == s[bounds.1 + i]);
        } else {
            assert(after[i] == b[i - n]);
        }
    }
    law_trim_of_parts(before, trim(s), after);
    assert(a + s + b =~= before + trim(s) + after);
}

/// Tidied lines of a text are blank where the text is.
proof fn lemma_tidied_blank(s: Seq<char>, after_blank: bool)
    requires
        blank(s),
    ensures
        blank(tidied(lines(s), after_blank)),
    decreases s.len(),
{
    lemma_first_of(s, '\n');
    if s.len() > 0 {
        let none = Seq::<char>::empty();
        let (line, rest) = match first_of(s, '\n') {
            None => (s, none),
            Some(k) => (s.take(k), s.skip(k + 1)),
        };
        assert(blank(line)) by {
            assert forall|i: int| 0 <= i < line.len() implies white_space(#[trigger] line[i]) by {
                assert(line[i] == s[i]);
            }
        }
        assert(blank(rest)) by {
            assert forall|i: int| 0 <= i < rest.len() implies white_space(#[trigger] rest[i]) by {
                assert(rest[i] == s[s.len() - rest.len() + i]);
            }
        }
        lemma_tidied_blank(rest, true);
        law_trim_of_parts(line, none, none);
        assert(line + none + none =~= line);
        assert(lines(none) =~= Seq::empty());
        assert(lines(s) =~= seq![line] + lines(rest));
        assert(lines(s).drop_first() =~= lines(rest));
        let t = tidied(lines(rest), true);
        assert forall|i: int| 0 <= i < (seq!['\n'] + t).len() implies white_space(
            #[trigger] (seq!['\n'] + t)[i],
        ) by {
            if i > 0 {
                assert((seq!['\n'] + t)[i] == t[i - 1]);
            }
        }
    }
}

/// White space before a text begins with one blank line where it holds a line feed and none stands
/// before it, and is nothing otherwise.
#[verifier::rlimit(40)]
proof fn lemma_tidied_behind_blank(gap: Seq<char>, s: Seq<char>, after_blank: bool)
    requires
        blank(gap),
        s.len() > 0,
        !white_space(s.first()),
    ensures
        tidied(lines(gap + s), after_blank) == (if gap.contains('\n') && !after_blank {
            seq!['\n']
        } else {
            Seq::empty()
        }) + tidied(lines(s), false),
        tidied(lines(s), true) == tidied(lines(s), false),
        tidied(lines(s), false).len() > 0,
        !white_space(tidied(lines(s), false).first()),
    decreases gap.len(),
{
    let none = Seq::<char>::empty();
    let t = gap + s;
    lemma_first_of(s, '\n');
    lemma_first_of(gap, '\n');
    lemma_first_of(t, '\n');
    let (line, rest) = match first_of(s, '\n') {
        None => (s, none),
        Some(k) => (s.take(k), s.skip(k + 1)),
    };
    assert(white_space('\n'));
    assert(lines(none) =~= Seq::empty());
    assert(lines(s) =~= seq![line] + lines(rest));
    assert(lines(s).drop_first() =~= lines(rest));
    assert(line.first() == s.first());
    let bounds = law_trimmed(line);
    assert(bounds.0 == 0) by {
        if bounds.0 > 0 {
            assert(white_space(line[0]));
        }
    }
    assert(bounds.1 > 0) by {
        if bounds.1 == 0 {
            assert(white_space(line[0]));
        }
    }
    assert(trim(line).first() == line[0]);
    match first_of(gap, '\n') {
        None => {
            assert(!gap.contains('\n'));
            assert forall|j: int| 0 <= j < gap.len() implies t[j] != '\n' by {
                assert(t[j] == gap[j]);
            }
            assert forall|j: int| 0 <= j < s.len() implies #[trigger] t[gap.len() + j] == s[j] by {}
            match first_of(s, '\n') {
                None => {
                    assert(first_of(t, '\n') is None) by {
                        if let Some(m) = first_of(t, '\n') {
                            assert(m >= gap.len());
                            assert(s[m - gap.len()] == '\n');
                        }
                    }
                    assert(lines(t) =~= seq![gap + line] + lines(rest));
                },
                Some(k) => {
                    let m = gap.len() + k;
                    assert(t[m] == '\n');
                    assert forall|j: int| 0 <= j < m implies t[j] != '\n' by {
                        if j >= gap.len() {
                            assert(t[j] == s[j - gap.len()]);
                        }
                    }
                    assert(first_of(t, '\n') == Some(m as int));
                    assert(t.take(m as int) =~= gap + line);
                    assert(t.skip(m + 1) =~= rest);
                    assert(lines(t) =~= seq![gap + line] + lines(rest));
                },
            }
            lemma_trim_blank(gap, line, none);
            assert(gap + line + none =~= gap + line);
            assert(lines(t).drop_first() =~= lines(rest));
            assert(tidied(lines(t), after_blank) =~= none + tidied(lines(s), false));
        },
        Some(k) => {
            assert(gap.contains(gap[k]));
            assert(t[k] == '\n');
            assert forall|j: int| 0 <= j < k implies t[j] != '\n' by {
                assert(t[j] == gap[j]);
            }
            assert(first_of(t, '\n') == Some(k));
            let first = gap.take(k);
            let more = gap.skip(k + 1);
            assert(t.take(k) =~= first);
            assert(t.skip(k + 1) =~= more + s);
            assert(blank(first)) by {
                assert forall|i: int| 0 <= i < first.len() implies white_space(
                    #[trigger] first[i],
                ) by {
                    assert(first[i] == gap[i]);
                }
            }
            assert(blank(more)) by {
                assert forall|i: int| 0 <= i < more.len() implies white_space(
                    #[trigger] more[i],
                ) by {
                    assert(more[i] == gap[k + 1 + i]);
                }
            }
            law_trim_of_parts(first, none, none);
            assert(first + none + none =~= first);
            lemma_tidied_behind_blank(more, s, true);
            assert(lines(t) =~= seq![first] + lines(more + s));
            assert(lines(t).drop_first() =~= lines(more + s));
            assert(none + tidied(lines(s), false) =~= tidied(lines(s), false));
        },
    }
}

/// Whether a text holds two line feeds or more.
pub open spec fn two_line_feeds(s: Seq<char>) -> bool {
    exists|i: int, j: int|
        0 <= i < j < s.len() && #[trigger] s[i] == '\n' && #[trigger] s[j] == '\n'
}

/// The tidied lines of a line and a text with a line feed in the white space between them.
#[verifier::rlimit(40)]
proof fn lemma_tidied_parts_of_line(a: Seq<char>, gap: Seq<char>, b: Seq<char>, after_blank: bool)
    requires
        a.len() > 0 && !white_space(a.last()),
        blank(gap),
        gap.contains('\n'),
        b.len() > 0 ==> !white_space(b.first()),
        first_of(a, '\n') is None,
    ensures
        b.len() > 0 ==> tidied(lines(a + gap + b), after_blank) == tidied(lines(a), after_blank) + (
        if two_line_feeds(gap) {
            seq!['\n']
        } else {
            Seq::empty()
        }) + tidied(lines(b), false),
        b.len() == 0 ==> exists|tail: Seq<char>|
            blank(tail) && tidied(lines(a + gap), after_blank) == #[trigger] (tidied(
                lines(a),
                after_blank,
            ) + tail),
        tidied(lines(a), after_blank).len() > 1,
        tidied(lines(a), after_blank).last() == '\n',
        !white_space(tidied(lines(a), after_blank)[tidied(lines(a), after_blank).len() - 2]),
{
    let none = Seq::<char>::empty();
    let t = a + gap + b;
    assert(b.len() == 0 ==> a + gap =~= t);
    lemma_first_of(a, '\n');
    lemma_first_of(gap, '\n');
    lemma_first_of(t, '\n');
    assert(white_space('\n'));
    let g = first_of(gap, '\n')->0;
    let m = a.len() + g;
    assert(t[m] == '\n');
    assert forall|j: int| 0 <= j < m implies t[j] != '\n' by {
        if j >= a.len() {
            assert(t[j] == gap[j - a.len()]);
        } else {
            assert(t[j] == a[j]);
        }
    }
    assert(first_of(t, '\n') == Some(m as int));
    let end = gap.take(g);
    let more = gap.skip(g + 1);
    assert(t.take(m as int) =~= a + end);
    assert(t.skip(m + 1) =~= more + b);
    assert(blank(end)) by {
        assert forall|i: int| 0 <= i < end.len() implies white_space(#[trigger] end[i]) by {
            assert(end[i] == gap[i]);
        }
    }
    assert(blank(more)) by {
        assert forall|i: int| 0 <= i < more.len() implies white_space(
            #[trigger] more[i],
        ) by {
            assert(more[i] == gap[g + 1 + i]);
        }
    }
    lemma_trim_blank(none, a, end);
    assert(none + a + end =~= a + end);
    let bounds = law_trimmed(a);
    assert(bounds.1 == a.len()) by {
        if bounds.1 < a.len() {
            assert(white_space(a[a.len() - 1]));
        }
    }
    assert(bounds.0 < a.len()) by {
        if bounds.0 == a.len() {
            assert(white_space(a[a.len() - 1]));
        }
    }
    assert(trim(a).last() == a.last());
    assert(lines(a) =~= seq![a]);
    assert(lines(a).drop_first() =~= Seq::empty());
    assert(tidied(lines(a).drop_first(), false) =~= none);
    assert(tidied(lines(a), after_blank) =~= trim(a) + seq!['\n']);
    assert(lines(t) =~= seq![a + end] + lines(more + b));
    assert(lines(t).drop_first() =~= lines(more + b));
    assert(tidied(lines(t), after_blank) =~= trim(a) + seq!['\n'] + tidied(
        lines(more + b),
        false,
    ));
    if b.len() > 0 {
        lemma_tidied_behind_blank(more, b, false);
        if more.contains('\n') {
            let i = choose|i: int| 0 <= i < more.len() && more[i] == '\n';
            assert(gap[g] == '\n' && gap[g + 1 + i] == '\n');
        } else if two_line_feeds(gap) {
            let (i, j) = choose|i: int, j: int|
                0 <= i < j < gap.len() && #[trigger] gap[i] == '\n' && #[trigger] gap[j]
                    == '\n';
            assert(g < j);
            assert(more[j - g - 1] == '\n');
        }
        assert(more.contains('\n') <==> two_line_feeds(gap));
        assert(tidied(lines(t), after_blank) =~= tidied(lines(a), after_blank) + (
        if two_line_feeds(gap) {
            seq!['\n']
        } else {
            Seq::empty()
        }) + tidied(lines(b), false));
    } else {
        assert(more + b =~= more);
        lemma_tidied_blank(more, false);
        let tail = tidied(lines(more), false);
        assert(tidied(lines(t), after_blank) =~= tidied(lines(a), after_blank) + tail);
    }
}

/// The tidied lines of two texts with a line feed in the white space between them.
#[verifier::rlimit(40)]
proof fn lemma_tidied_parts(a: Seq<char>, gap: Seq<char>, b: Seq<char>, after_blank: bool)
    requires
        a.len() > 0 && !white_space(a.last()),
        blank(gap),
        gap.contains('\n'),
        b.len() > 0 ==> !white_space(b.first()),
    ensures
        b.len() > 0 ==> tidied(lines(a + gap + b), after_blank) == tidied(lines(a), after_blank) + (
        if two_line_feeds(gap) {
            seq!['\n']
        } else {
            Seq::empty()
        }) + tidied(lines(b), false),
        b.len() == 0 ==> exists|tail: Seq<char>|
            blank(tail) && tidied(lines(a + gap), after_blank) == #[trigger] (tidied(
                lines(a),
                after_blank,
            ) + tail),
        tidied(lines(a), after_blank).len() > 1,
        tidied(lines(a), after_blank).last() == '\n',
        !white_space(tidied(lines(a), after_blank)[tidied(lines(a), after_blank).len() - 2]),
    decreases a.len(),
{
    let none = Seq::<char>::empty();
    let t = a + gap + b;
    assert(b.len() == 0 ==> a + gap =~= t);
    lemma_first_of(a, '\n');
    lemma_first_of(gap, '\n');
    lemma_first_of(t, '\n');
    assert(white_space('\n'));
    match first_of(a, '\n') {
        None => {
            lemma_tidied_parts_of_line(a, gap, b, after_blank);
        },
        Some(k) => {
            assert(t[k] == '\n');
            assert forall|j: int| 0 <= j < k implies t[j] != '\n' by {
                assert(t[j] == a[j]);
            }
            assert(first_of(t, '\n') == Some(k));
            let line = a.take(k);
            let rest = a.skip(k + 1);
            assert(k < a.len() - 1) by {
                if k == a.len() - 1 {
                    assert(a.last() == '\n');
                }
            }
            assert(rest.last() == a.last());
            assert(t.take(k) =~= line);
            assert(t.skip(k + 1) =~= rest + gap + b);
            assert(lines(t) =~= seq![line] + lines(rest + gap + b));
            assert(lines(t).drop_first() =~= lines(rest + gap + b));
            assert(lines(a).drop_first() =~= lines(rest));
            lemma_tidied_parts(rest, gap, b, false);
            lemma_tidied_parts(rest, gap, b, true);
            let next = trim(line).len() == 0;
            let head = if !next {
                trim(line) + seq!['\n']
            } else if after_blank {
                none
            } else {
                seq!['\n']
            };
            let inner = tidied(lines(rest), next);
            assert(tidied(lines(a), after_blank) =~= head + inner);
            assert(tidied(lines(t), after_blank) =~= head + tidied(lines(rest + gap + b), next));
            let all = tidied(lines(a), after_blank);
            assert(all.last() == inner.last());
            assert(all[all.len() - 2] == inner[inner.len() - 2]);
            if b.len() > 0 {
                assert(tidied(lines(t), after_blank) =~= all + (if two_line_feeds(gap) {
                    seq!['\n']
                } else {
                    Seq::empty()
                }) + tidied(lines(b), false));
            } else {
                assert(rest + gap + b =~= rest + gap);
                let tail = choose|tail: Seq<char>|
                    blank(tail) && tidied(lines(rest + gap), next) == #[trigger] (tidied(
                        lines(rest),
                        next,
                    ) + tail);
                assert(tidied(lines(t), after_blank) =~= all + tail);
            }
        },
    }
}

/// Lines stay lines, and paragraphs stay paragraphs: two texts with one line feed in the white
/// space between them stand on lines of their own, and with more there is one blank line between
/// them. What each of them becomes does not depend on the other.
#[verifier::rlimit(40)]
pub proof fn law_normalized_parts(a: Seq<char>, gap: Seq<char>, b: Seq<char>)
    requires
        a.len() > 0 && !white_space(a.last()),
        b.len() > 0 && !white_space(b.first()),
        blank(gap),
        gap.contains('\n'),
    ensures
        normalized_lines(a + gap + b) == normalized_lines(a) + (if two_line_feeds(gap) {
            "\n\n"@
        } else {
            "\n"@
        }) + normalized_lines(b),
{
    reveal_strlit("\n\n");
    reveal_strlit("\n");
    lemma_tidied_parts(a, gap, b, false);
    lemma_tidied_behind_blank(gap, b, false);
    let (x, y) = (tidied(lines(a), false), tidied(lines(b), false));
    let (p, q) = (law_trimmed(x), law_trimmed(y));
    let n = x.len() as int;
    assert(white_space('\n'));
    assert(p.1 == n - 1) by {
        if p.1 < n - 1 {
            assert(white_space(x[n - 2]));
        } else if p.1 == n && p.0 < n {
            assert(trim(x).last() == x.last());
        } else if p.0 == n {
            assert(white_space(x[n - 2]));
        }
    }
    assert(p.0 < n - 1) by {
        if p.0 >= n - 1 {
            assert(white_space(x[n - 2]));
        }
    }
    assert(q.0 == 0) by {
        if q.0 > 0 {
            assert(white_space(y[0]));
        }
    }
    assert(q.1 > 0) by {
        if q.1 == 0 {
            assert(white_space(y[0]));
        }
    }
    let sep = if two_line_feeds(gap) {
        "\n\n"@
    } else {
        "\n"@
    };
    let core = trim(x) + sep + trim(y);
    let (before, after) = (x.take(p.0), y.skip(q.1));
    assert forall|i: int| 0 <= i < before.len() implies white_space(#[trigger] before[i]) by {
        assert(before[i] == x[i]);
    }
    assert forall|i: int| 0 <= i < after.len() implies white_space(#[trigger] after[i]) by {
        assert(after[i] == y[q.1 + i]);
    }
    assert(core.first() == trim(x).first());
    assert(core.last() == trim(y).last());
    law_trim_of_parts(before, core, after);
    assert(tidied(lines(a + gap + b), false) =~= before + core + after);
}

/// A text on one line is trimmed, and white space before and behind a text does not matter.
pub proof fn law_normalized_line(before: Seq<char>, s: Seq<char>, after: Seq<char>)
    requires
        blank(before),
        blank(after),
        s.len() > 0 ==> !white_space(s.first()) && !white_space(s.last()),
    ensures
        !s.contains('\n') ==> normalized_lines(s) == s,
        normalized_lines(before + s + after) == normalized_lines(s),
{
    let none = Seq::<char>::empty();
    if !s.contains('\n') {
        lemma_first_of(s, '\n');
        if let Some(k) = first_of(s, '\n') {
            assert(s.contains(s[k]));
        }
        lemma_trim_none(s);
        if s.len() > 0 {
            assert(lines(s).drop_first() =~= Seq::empty());
            assert(tidied(lines(s).drop_first(), false) =~= none);
            assert(tidied(lines(s), false) =~= none + s + seq!['\n']);
            law_trim_of_parts(none, s, seq!['\n']);
        } else {
            assert(normalized_lines(s) =~= s);
        }
    }
    let whole = before + s + after;
    if s.len() == 0 {
        assert(blank(whole)) by {
            assert forall|i: int| 0 <= i < whole.len() implies white_space(#[trigger] whole[i]) by {
                if i < before.len() {
                    assert(whole[i] == before[i]);
                } else {
                    assert(whole[i] == after[i - before.len()]);
                }
            }
        }
        lemma_tidied_blank(whole, false);
        let t = tidied(lines(whole), false);
        law_trim_of_parts(t, none, none);
        assert(t + none + none =~= t);
        assert(normalized_lines(s) =~= none);
    } else {
        let t = s + after;
        assert(t.first() == s.first());
        lemma_tidied_behind_blank(before, t, false);
        assert(whole =~= before + t);
        let head = if before.contains('\n') {
            seq!['\n']
        } else {
            none
        };
        let tail = lemma_tidied_before_blank(s, after, false);
        let core = tidied(lines(s), false);
        assert(tidied(lines(whole), false) =~= head + core + tail);
        lemma_trim_blank(head, core, tail);
    }
}

/// White space behind a text leaves white space behind its tidied lines.
proof fn lemma_tidied_before_blank(s: Seq<char>, gap: Seq<char>, after_blank: bool) -> (tail: Seq<
    char,
>)
    requires
        s.len() > 0,
        !white_space(s.last()),
        blank(gap),
    ensures
        blank(tail),
        tidied(lines(s + gap), after_blank) == tidied(lines(s), after_blank) + tail,
    decreases s.len(),
{
    let none = Seq::<char>::empty();
    if gap.contains('\n') {
        lemma_tidied_parts(s, gap, none, after_blank);
        choose|tail: Seq<char>|
            blank(tail) && tidied(lines(s + gap), after_blank) == #[trigger] (tidied(
                lines(s),
                after_blank,
            ) + tail)
    } else {
        let t = s + gap;
        lemma_first_of(s, '\n');
        lemma_first_of(t, '\n');
        assert(white_space('\n'));
        match first_of(s, '\n') {
            None => {
                if let Some(k) = first_of(t, '\n') {
                    if k < s.len() {
                        assert(s[k] == '\n');
                    } else {
                        assert(gap[k - s.len()] == '\n');
                        assert(gap.contains('\n'));
                    }
                }
                lemma_trim_blank(none, s, gap);
                assert(none + s + gap =~= t);
                assert(lines(t).drop_first() =~= lines(s).drop_first());
                assert(tidied(lines(t), after_blank) =~= tidied(lines(s), after_blank) + none);
                none
            },
            Some(k) => {
                assert(t[k] == '\n');
                assert forall|j: int| 0 <= j < k implies t[j] != '\n' by {
                    assert(t[j] == s[j]);
                }
                assert(first_of(t, '\n') == Some(k));
                let rest = s.skip(k + 1);
                assert(k < s.len() - 1) by {
                    if k == s.len() - 1 {
                        assert(s.last() == '\n');
                    }
                }
                assert(rest.last() == s.last());
                assert(t.take(k) =~= s.take(k));
                assert(t.skip(k + 1) =~= rest + gap);
                assert(lines(t).drop_first() =~= lines(rest + gap));
                assert(lines(s).drop_first() =~= lines(rest));
                assert(lines(t).first() == lines(s).first());
                let next = trim(s.take(k)).len() == 0;
                let tail = lemma_tidied_before_blank(rest, gap, next);
                assert(tidied(lines(t), after_blank) =~= tidied(lines(s), after_blank) + tail);
                tail
            },
        }
    }
}

/// Tidy text without tags, entities and links is its own Markdown.
pub proof fn law_tidy_text_stays(s: Seq<char>)
    requires
        tidy(s),
        plain(s),
        !s.contains('['),
    ensures
        post_processed(s) == s,
{
    law_plain_text_stays(s, Seq::empty());
    assert(s + Seq::empty() =~= s);
    assert(s + stripped(Seq::empty()) =~= s);
    law_no_link(s);
    law_tidy_lines_stay(s);
}

/// Normalizing lines adds no characters but line feeds.
proof fn lemma_tidied_characters(ls: Seq<Seq<char>>, after_blank: bool, c: char)
    requires
        c != '\n',
        forall|i: int| 0 <= i < ls.len() ==> !(#[trigger] ls[i]).contains(c),
    ensures
        !tidied(ls, after_blank).contains(c),
    decreases ls.len(),
{
    if ls.len() > 0 {
        let more = ls.drop_first();
        assert forall|i: int| 0 <= i < more.len() implies !(#[trigger] more[i]).contains(c) by {
            assert(more[i] == ls[i + 1]);
        }
        lemma_tidied_characters(more, true, c);
        lemma_tidied_characters(more, false, c);
        let bounds = law_trimmed(ls[0]);
        let line = trim(ls.first());
        let t = tidied(ls, after_blank);
        if t.contains(c) {
            let i = choose|i: int| 0 <= i < t.len() && t[i] == c;
            let n = line.len() as int;
            if n > 0 {
                let rest = tidied(more, false);
                if i < n {
                    assert(t[i] == ls[0][bounds.0 + i]);
                    assert(ls[0].contains(c));
                } else if i > n {
                    assert(rest[i - n - 1] == c);
                    assert(rest.contains(c));
                }
            } else if !after_blank {
                if i > 0 {
                    assert(tidied(more, true)[i - 1] == c);
                    assert(tidied(more, true).contains(c));
                }
            }
        }
    }
}

/// The lines of a text hold no other characters than the text.
proof fn lemma_lines_characters(s: Seq<char>, c: char)
    requires
        !s.contains(c),
    ensures
        forall|i: int| 0 <= i < lines(s).len() ==> !(#[trigger] lines(s)[i]).contains(c),
    decreases s.len(),
{
    lemma_first_of(s, '\n');
    if s.len() > 0 {
        match first_of(s, '\n') {
            None => {
                assert(lines(s)[0] == s);
            },
            Some(k) => {
                let rest = s.skip(k + 1);
                assert forall|x: char| rest.contains(x) implies s.contains(x) by {
                    let i = choose|i: int| 0 <= i < rest.len() && rest[i] == x;
                    assert(s[k + 1 + i] == x);
                }
                lemma_lines_characters(rest, c);
                assert forall|i: int| 0 <= i < lines(s).len() implies !(
                #[trigger] lines(s)[i]).contains(c) by {
                    if i > 0 {
                        assert(lines(s)[i] == lines(rest)[i - 1]);
                    } else if lines(s)[0].contains(c) {
                        let j = choose|j: int| 0 <= j < k && s.take(k)[j] == c;
                        assert(s[j] == c);
                    }
                }
            },
        }
    }
}

/// No tag is left in the Markdown of a page: where it has the character `<`, an entity of the
/// page stands for it.
pub proof fn law_markdown_has_no_tags(raw: Seq<char>)
    ensures
        post_processed(raw).contains('<') ==> spells_less_than(raw),
{
    let a = stripped(raw);
    law_no_tag_left(raw);
    if !a.contains('<') {
        let b = flattened(a);
        law_nothing_added(a);
        lemma_lines_characters(b, '<');
        lemma_tidied_characters(lines(b), false, '<');
        let t = tidied(lines(b), false);
        let bounds = law_trimmed(t);
        let out = post_processed(raw);
        if out.contains('<') {
            let i = choose|i: int| 0 <= i < out.len() && out[i] == '<';
            assert(t[bounds.0 + i] == '<');
        }
    }
}

/// What fits is a part of the text, and fits; with one more character it would not.
proof fn lemma_fitting(s: Seq<char>, max: int)
    requires
        max >= 0,
    ensures
        fitting(s, max) <= s.len(),
        byte_len(s.take(fitting(s, max) as int)) <= max,
        fitting(s, max) < s.len() ==> max < byte_len(s.take(fitting(s, max) as int + 1)),
    decreases s.len(),
{
    if s.len() > 0 {
        let head = seq![s.first()];
        assert(head.drop_last() =~= Seq::empty());
        assert(byte_len(head) == byte_len(Seq::empty()) + utf8_width(head.last()));
        assert(s.take(1) =~= head);
        let t = s.drop_first();
        let n = fitting(t, max - utf8_width(s.first())) as int;
        if utf8_width(s.first()) <= max && n < t.len() {
            lemma_fitting(t, max - utf8_width(s.first()));
            assert(s.take(n + 2) =~= head + t.take(n + 1));
            lemma_byte_len_add(head, t.take(n + 1));
        }
    }
    if s.len() > 0 && utf8_width(s.first()) <= max {
        let t = s.drop_first();
        let n = fitting(t, max - utf8_width(s.first())) as int;
        lemma_fitting(t, max - utf8_width(s.first()));
        let head = seq![s.first()];
        assert(s.take(n + 1) =~= head + t.take(n));
        lemma_byte_len_add(head, t.take(n));
        assert(head.drop_last() =~= Seq::empty());
        assert(byte_len(head) == byte_len(Seq::empty()) + utf8_width(head.last()));
    } else {
        assert(s.take(0) =~= Seq::empty());
    }
}

/// An excerpt is the longest start of the text that fits, trimmed: the whole text where it fits,
/// and otherwise so much that one more character would not.
pub proof fn law_excerpt_is_longest(s: Seq<char>, max: nat)
    ensures
        ({
            let out = trim(s.take(fitting(s, max as int) as int));
            &&& byte_len(s) <= max ==> out == trim(s)
            &&& forall|n: int|
                0 <= n < s.len() && byte_len(#[trigger] s.take(n)) <= max < byte_len(s.take(n + 1))
                    ==> out == trim(s.take(n))
        }),
{
    let k = fitting(s, max as int) as int;
    lemma_fitting(s, max as int);
    if byte_len(s) <= max {
        if k < s.len() {
            lemma_byte_len_take(s, k + 1, s.len() as int);
        }
        assert(s.take(k) =~= s);
    }
    assert forall|n: int|
        0 <= n < s.len() && byte_len(#[trigger] s.take(n)) <= max < byte_len(s.take(n + 1)) implies n
        == k by {
        if n < k {
            lemma_byte_len_take(s, n + 1, k);
        } else if k < n {
            lemma_byte_len_take(s, k + 1, n);
        }
    }
}

/// An excerpt takes no more bytes than it may, is a part of the text, and has no white space at
/// its ends.
pub proof fn law_excerpt_fits(s: Seq<char>, max: nat)
    ensures
        ({
            let out = trim(s.take(fitting(s, max as int) as int));
            &&& byte_len(out) <= max
            &&& exists|a: int, b: int| 0 <= a <= b <= s.len() && out == s.subrange(a, b)
            &&& out.len() > 0 ==> !white_space(out.first()) && !white_space(out.last())
        }),
{
    lemma_fitting(s, max as int);
    let t = s.take(fitting(s, max as int) as int);
    let bounds = law_trimmed(t);
    let out = trim(t);
    assert(out =~= s.subrange(bounds.0, bounds.1));
    assert(t =~= t.take(bounds.0) + out + t.skip(bounds.1));
    lemma_byte_len_add(t.take(bounds.0) + out, t.skip(bounds.1));
    lemma_byte_len_add(t.take(bounds.0), out);
}

} // verus!
