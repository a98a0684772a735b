//! The title of an HTML page.
use vstd::prelude::*;
use vstd::utf8::is_ascii_chars;

use crate::letters::ascii_lower;
use crate::letters::byte_count;
use crate::letters::byte_len;
use crate::letters::bytes_before;
use crate::letters::find_chars;
use crate::letters::find_from;
use crate::letters::lemma_byte_len_add;
use crate::letters::lemma_byte_len_take;
use crate::letters::lemma_find_from;
use crate::letters::lowercase;
use crate::letters::occurs_at;
use crate::letters::to_lower;
use crate::letters::utf8_width;
use crate::letters::width_of;
use crate::text::chars_of;
use crate::text::join;
use crate::text::law_normalized_whitespace;
use crate::text::normalize_whitespace;
use crate::text::string_of;
use crate::text::words;

verus! {

/// The bounds, in characters of `lower`, of what stands between the first `<title>` and the
/// next `</title>`.
pub open spec fn title_bounds(lower: Seq<char>) -> Option<(int, int)> {
    match find_from(lower, "<title>"@, 0) {
        Some(start) => match find_from(lower, "</title>"@, start + 7) {
            Some(end) => Some((start + 7, end)),
            None => None,
        },
        None => None,
    }
}

/// The number of characters of `s` whose encodings take exactly the first `bytes` bytes.
pub open spec fn char_at_byte(s: Seq<char>, bytes: int) -> Option<int>
    decreases s.len(),
{
    if bytes == 0 {
        Some(0)
    } else if s.len() == 0 || bytes < utf8_width(s.first()) {
        None
    } else {
        match char_at_byte(s.drop_first(), bytes - utf8_width(s.first())) {
            Some(k) => Some(k + 1),
            None => None,
        }
    }
}

/// The bounds, in characters of `html`, of the bytes at which the title stands in `lower`.
pub open spec fn title_range(html: Seq<char>, lower: Seq<char>) -> Option<(int, int)> {
    match title_bounds(lower) {
        Some((a, b)) => match (
            char_at_byte(html, byte_len(lower.take(a)) as int),
            char_at_byte(html, byte_len(lower.take(b)) as int),
        ) {
            (Some(i), Some(j)) => Some((i, j)),
            _ => None,
        },
        None => None,
    }
}

/// Whether the bytes at which the title stands in `lower`, if it has one, are characters of
/// `html`. They always are where `lower` has the byte lengths of `html`.
pub open spec fn title_aligned(html: Seq<char>, lower: Seq<char>) -> bool {
    title_bounds(lower) is Some ==> title_range(html, lower) is Some
}

/// The title that stands in `html` where the tags stand in `lower`, with its white space
/// normalized, if it is not empty.
pub open spec fn title_text(html: Seq<char>, lower: Seq<char>) -> Option<Seq<char>> {
    match title_range(html, lower) {
        Some((i, j)) => {
            let title = join(words(html.subrange(i, j)), " "@);
            if title.len() > 0 {
                Some(title)
            } else {
                None
            }
        },
        None => None,
    }
}

/// `char_at_byte` counts characters, and more of them for more bytes.
proof fn lemma_char_at_byte(s: Seq<char>, a: int, b: int)
    requires
        0 <= a <= b,
    ensures
        char_at_byte(s, a) matches Some(i) ==> 0 <= i <= s.len(),
        char_at_byte(s, b) matches Some(j) ==> 0 <= j <= s.len(),
        (char_at_byte(s, a) matches Some(i) && char_at_byte(s, b) matches Some(j)) ==>
            char_at_byte(s, a)->0 <= char_at_byte(s, b)->0,
    decreases s.len(),
{
    if s.len() > 0 {
        let w = utf8_width(s.first());
        if a >= w {
            lemma_char_at_byte(s.drop_first(), a - w, b - w);
        } else if b >= w {
            lemma_char_at_byte(s.drop_first(), 0, b - w);
        }
    }
}

/// The number of characters of `cs` whose encodings take exactly the first `bytes` bytes.
fn find_char_at_byte(cs: &[char], bytes: usize) -> (res: Option<usize>)
    ensures
        match res {
            Some(k) => k <= cs@.len() && char_at_byte(cs@, bytes as int) == Some(k as int),
            None => char_at_byte(cs@, bytes as int) is None,
        },
{
    let mut left: usize = bytes;
    let mut i: usize = 0;
    assert(cs@.skip(0) =~= cs@);
    while i < cs.len() && left > 0
        invariant
            i <= cs@.len(),
            char_at_byte(cs@, bytes as int) == (match char_at_byte(
                cs@.skip(i as int),
                left as int,
            ) {
                Some(k) => Some(k + i),
                None => None::<int>,
            }),
        decreases cs@.len() - i,
    {
        let w: usize = width_of(cs[i]);
        if left < w {
            return None;
        }
        assert(cs@.skip(i as int).drop_first() =~= cs@.skip(i + 1));
        left -= w;
        i += 1;
    }
    if left == 0 {
        Some(i)
    } else {
        None
    }
}

/// The title that stands in `html` where the tags stand in `lower`: `None` where the bytes in
/// question are no characters of `html`, `Some(None)` where there is no title.
pub fn title_in(html: &str, lower: &str) -> (res: Option<Option<String>>)
    ensures
        match res {
            None => !title_aligned(html@, lower@),
            Some(None) => title_aligned(html@, lower@) && title_text(html@, lower@) is None,
            Some(Some(title)) => title_aligned(html@, lower@) && title_text(html@, lower@)
                == Some(title@),
        },
{
    let ls = chars_of(lower);
    let open = chars_of("<title>");
    let close = chars_of("</title>");
    let total: usize = byte_count(lower);
    proof {
        reveal_strlit("<title>");
        lemma_find_from(ls@, open@, 0);
    }
    let start: usize = match find_chars(&ls, &open, 0) {
        Some(start) => start,
        None => {
            return Some(None);
        },
    };
    assert(start + open@.len() <= ls.len());
    let from: usize = start + open.len();
    proof {
        lemma_find_from(ls@, close@, from as int);
    }
    let end: usize = match find_chars(&ls, &close, from) {
        Some(end) => end,
        None => {
            return Some(None);
        },
    };
    let a: usize = bytes_before(&ls, from, total);
    let b: usize = bytes_before(&ls, end, total);
    let cs = chars_of(html);
    proof {
        lemma_byte_len_take(ls@, from as int, end as int);
        lemma_char_at_byte(html@, a as int, b as int);
    }
    match (find_char_at_byte(&cs, a), find_char_at_byte(&cs, b)) {
        (Some(i), Some(j)) => {
            let raw = string_of(&cs, i, j);
            let title = normalize_whitespace(raw.as_str());
            if title.as_str().is_empty() {
                Some(None)
            } else {
                Some(Some(title))
            }
        },
        _ => None,
    }
}

/// The title of a page: what stands between `<title>` and `</title>`, whatever the case of
/// the tags, with its white space normalized. The tags are looked for in the lower case of the
/// page, and the title is taken from the page at the same bytes.
pub fn extract_html_title(html: &str) -> (res: Option<String>)
    requires
        title_aligned(html@, lowercase(html@)),
    ensures
        match res {
            Some(title) => title_text(html@, lowercase(html@)) == Some(title@),
            None => title_text(html@, lowercase(html@)) is None,
        },
{
    let lower = to_lower(html);
    match title_in(html, lower.as_str()) {
        Some(title) => title,
        None => None,
    }
}

/// The title of a page, or `None` where the lower case of the page has other byte lengths and
/// the title's bytes are therefore no characters of the page.
pub fn try_extract_html_title(html: &str) -> (res: Option<Option<String>>)
    ensures
        match res {
            None => !title_aligned(html@, lowercase(html@)),
            Some(None) => title_aligned(html@, lowercase(html@)) && title_text(
                html@,
                lowercase(html@),
            ) is None,
            Some(Some(title)) => title_aligned(html@, lowercase(html@)) && title_text(
                html@,
                lowercase(html@),
            ) == Some(title@),
        },
{
    let lower = to_lower(html);
    if title_in(html, lower.as_str()).is_none() {
        return None;
    }
    Some(extract_html_title(html))
}

// Laws.

/// Whether two texts have characters of the same widths.
pub open spec fn same_widths(a: Seq<char>, b: Seq<char>) -> bool {
    a.len() == b.len() && forall|i: int|
        0 <= i < a.len() ==> utf8_width(#[trigger] a[i]) == utf8_width(b[i])
}

/// The bytes of the first characters of a text lead back to them.
proof fn lemma_char_at_byte_len(s: Seq<char>, k: int)
    requires
        0 <= k <= s.len(),
    ensures
        char_at_byte(s, byte_len(s.take(k)) as int) == Some(k),
    decreases k,
{
    if k > 0 {
        let t = s.drop_first();
        let head = seq![s.first()];
        assert(s.take(k) =~= head + t.take(k - 1));
        lemma_byte_len_add(head, t.take(k - 1));
        assert(head.drop_last() =~= Seq::empty());
        assert(byte_len(head) == byte_len(Seq::empty()) + utf8_width(head.last()));
        lemma_char_at_byte_len(t, k - 1);
    } else {
        assert(s.take(0) =~= Seq::empty());
    }
}

/// Characters of the same widths take as many bytes.
proof fn lemma_same_widths(a: Seq<char>, b: Seq<char>, k: int)
    requires
        same_widths(a, b),
        0 <= k <= a.len(),
    ensures
        byte_len(a.take(k)) == byte_len(b.take(k)),
    decreases k,
{
    if k > 0 {
        lemma_same_widths(a, b, k - 1);
        assert(a.take(k).drop_last() =~= a.take(k - 1));
        assert(b.take(k).drop_last() =~= b.take(k - 1));
        assert(utf8_width(a[k - 1]) == utf8_width(b[k - 1]));
    } else {
        assert(a.take(0) =~= b.take(0));
    }
}

/// Where a page and its lower case have characters of the same widths, its title, if it has one,
/// is what stands between the tags, with its white space normalized.
pub proof fn law_title_stands_between_tags(html: Seq<char>, lower: Seq<char>)
    requires
        same_widths(html, lower),
    ensures
        title_aligned(html, lower),
        title_range(html, lower) == title_bounds(lower),
        title_bounds(lower) matches Some((a, b)) ==> 0 <= a <= b <= html.len() && ({
            let title = join(words(html.subrange(a, b)), " "@);
            title_text(html, lower) == if title.len() > 0 {
                Some(title)
            } else {
                None
            }
        }),
{
    reveal_strlit("<title>");
    reveal_strlit("</title>");
    lemma_find_from(lower, "<title>"@, 0);
    if let Some(start) = find_from(lower, "<title>"@, 0) {
        lemma_find_from(lower, "</title>"@, start + 7);
    }
    if let Some((a, b)) = title_bounds(lower) {
        lemma_same_widths(html, lower, a);
        lemma_same_widths(html, lower, b);
        lemma_char_at_byte_len(html, a);
        lemma_char_at_byte_len(html, b);
    }
}

/// The title of a page is what stands, at the bytes between the first `<title>` of its lower case
/// and the next `</title>`, in the page itself, with single spaces between its words; where there
/// is no word between the tags, it has none.
pub proof fn law_title(
    html: Seq<char>,
    lower: Seq<char>,
    start: int,
    end: int,
    from: int,
    to: int,
)
    requires
        0 <= start <= lower.len() - 7,
        lower.subrange(start, start + 7) == "<title>"@,
        forall|j: int| 0 <= j < start ==> #[trigger] lower.subrange(j, j + 7) != "<title>"@,
        start + 7 <= end <= lower.len() - 8,
        lower.subrange(end, end + 8) == "</title>"@,
        forall|j: int| start + 7 <= j < end ==> #[trigger] lower.subrange(j, j + 8) != "</title>"@,
        0 <= from <= html.len(),
        0 <= to <= html.len(),
        byte_len(html.take(from)) == byte_len(lower.take(start + 7)),
        byte_len(html.take(to)) == byte_len(lower.take(end)),
    ensures
        title_aligned(html, lower),
        from <= to,
        words(html.subrange(from, to)).len() > 0 ==> title_text(html, lower) == Some(
            join(words(html.subrange(from, to)), " "@),
        ),
        words(html.subrange(from, to)).len() == 0 ==> title_text(html, lower) is None,
{
    lemma_title_bounds(lower, start, end);
    lemma_char_at_byte_len(html, from);
    lemma_char_at_byte_len(html, to);
    lemma_byte_len_take(lower, start + 7, end);
    lemma_char_at_byte(
        html,
        byte_len(lower.take(start + 7)) as int,
        byte_len(lower.take(end)) as int,
    );
    let inner = html.subrange(from, to);
    law_normalized_whitespace(inner);
    if words(inner).len() == 0 {
        assert(join(words(inner), " "@) =~= Seq::empty());
    } else if join(words(inner), " "@).len() == 0 {
        assert(words(join(words(inner), " "@)) =~= Seq::empty());
    }
}

/// The first `<title>` and the next `</title>` of a text are where nothing before them looks the
/// same.
proof fn lemma_title_bounds(lower: Seq<char>, start: int, end: int)
    requires
        0 <= start <= lower.len() - 7,
        lower.subrange(start, start + 7) == "<title>"@,
        forall|j: int| 0 <= j < start ==> #[trigger] lower.subrange(j, j + 7) != "<title>"@,
        start + 7 <= end <= lower.len() - 8,
        lower.subrange(end, end + 8) == "</title>"@,
        forall|j: int| start + 7 <= j < end ==> #[trigger] lower.subrange(j, j + 8) != "</title>"@,
    ensures
        title_bounds(lower) == Some((start + 7, end)),
{
    reveal_strlit("<title>");
    reveal_strlit("</title>");
    let (open, close) = ("<title>"@, "</title>"@);
    lemma_find_from(lower, open, 0);
    assert(occurs_at(lower, open, start));
    let found = find_from(lower, open, 0);
    assert(found == Some(start)) by {
        let k = found->0;
        if k < start {
            assert(lower.subrange(k, k + 7) != open);
        } else if start < k {
            assert(!occurs_at(lower, open, start));
        }
    }
    lemma_find_from(lower, close, start + 7);
    let ended = find_from(lower, close, start + 7);
    assert(occurs_at(lower, close, end));
    assert(ended == Some(end)) by {
        let k = ended->0;
        if k < end {
            assert(lower.subrange(k, k + 8) != close);
        } else if end < k {
            assert(!occurs_at(lower, close, end));
        }
    }
}

/// A page whose title is never closed has none.
pub proof fn law_open_title(html: Seq<char>, lower: Seq<char>)
    requires
        forall|j: int|
            0 <= j <= lower.len() - 8 ==> #[trigger] lower.subrange(j, j + 8) != "</title>"@,
    ensures
        title_text(html, lower) is None,
        title_aligned(html, lower),
{
    reveal_strlit("<title>");
    reveal_strlit("</title>");
    lemma_find_from(lower, "<title>"@, 0);
    if let Some(start) = find_from(lower, "<title>"@, 0) {
        lemma_find_from(lower, "</title>"@, start + 7);
        if let Some(k) = find_from(lower, "</title>"@, start + 7) {
            assert(lower.subrange(k, k + 8) != "</title>"@);
        }
    }
}

/// A page whose lower case has no `<title>` has no title.
pub proof fn law_no_title(html: Seq<char>, lower: Seq<char>)
    requires
        forall|j: int|
            0 <= j <= lower.len() - 7 ==> #[trigger] lower.subrange(j, j + 7) != "<title>"@,
    ensures
        title_text(html, lower) is None,
        title_aligned(html, lower),
{
    reveal_strlit("<title>");
    lemma_find_from(lower, "<title>"@, 0);
    if let Some(k) = find_from(lower, "<title>"@, 0) {
        assert(lower.subrange(k, k + 7) != "<title>"@);
    }
}

/// A page of ASCII characters and its lower case have characters of the same widths.
pub proof fn law_ascii_page_is_aligned(html: Seq<char>)
    requires
        is_ascii_chars(html),
    ensures
        same_widths(html, lowercase(html)),
        title_aligned(html, lowercase(html)),
{
    let lower = lowercase(html);
    assert forall|i: int| 0 <= i < html.len() implies utf8_width(#[trigger] html[i]) == utf8_width(
        lower[i],
    ) by {
        assert(lower[i] == ascii_lower(html[i]));
        assert((html[i] as char) as u32 <= 0x7f);
        assert(lower[i] <= '\u{7f}');
    }
    law_title_stands_between_tags(html, lower);
}

} // verus!
