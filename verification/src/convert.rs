//! From the HTML of a page to its Markdown.
//!
//! A rewriter walks the page and hands out each element; a table says, for each tag, which
//! Markdown stands in the element's place. The text that comes out of the rewriter still holds
//! entities and the tags that no rule names, and [`post_process`] makes Markdown of it.
use vstd::prelude::*;
use vstd::utf8::decode_utf8;
use vstd::utf8::encode_utf8;
use vstd::utf8::encode_utf8_decode_utf8;
use vstd::utf8::encode_utf8_valid_utf8;
use vstd::utf8::is_ascii_chars;
use vstd::utf8::is_ascii_chars_encode_utf8;
use vstd::utf8::valid_utf8;

use std::borrow::Cow;

use lol_html::errors::RewritingError;
use lol_html::html_content::ContentType::Text;
use lol_html::html_content::Element;
use lol_html::ElementContentHandlers;
use lol_html::HtmlRewriter;
use lol_html::Settings;

use crate::letters::ascii_lower;
use crate::letters::byte_len;
use crate::links::balanced;
use crate::links::closing;
use crate::links::flattened;
use crate::links::law_block_link_is_flattened;
use crate::links::law_image_stays;
use crate::links::law_link_stays;
use crate::links::law_no_link;
use crate::links::link;
use crate::markup::entity_text;
use crate::markup::law_entity_decoded;
use crate::markup::law_plain_text_stays;
use crate::markup::law_tag_vanishes;
use crate::markup::plain;
use crate::markup::stripped;
use crate::page::law_markdown_is_tidy;
use crate::page::normalized_lines;
use crate::page::post_process;
use crate::page::post_processed;
use crate::page::tidy;
use crate::text::same_text;
use crate::text::starts_with;
use crate::text::concatenated;
use crate::urls::first_value;
use crate::urls::resolve_url;
use crate::urls::resolved;
use crate::text::text_of;

verus! {

/// `lol_html::errors::RewritingError`: why a page could not be rewritten.
#[verifier::external_type_specification]
#[verifier::external_body]
pub struct ExRewritingError(RewritingError);

/// What happens to the elements with one tag.
pub struct TagRule {
    /// The tag's name.
    pub tag: &'static str,
    /// The attribute that holds the address of what an element links to or shows.
    pub address: &'static str,
    /// The attribute that holds a text to show in the place of an element.
    pub label: &'static str,
    /// The text put before the element.
    pub before: &'static str,
    /// The text put after the element.
    pub after: &'static str,
    /// Whether only the element's tags are removed, not what is between them.
    pub keeps_content: bool,
}

/// The model of a [`TagRule`].
pub ghost struct RuleModel {
    pub tag: Seq<char>,
    pub address: Seq<char>,
    pub label: Seq<char>,
    pub before: Seq<char>,
    pub after: Seq<char>,
    pub keeps_content: bool,
}

impl View for TagRule {
    type V = RuleModel;

    open spec fn view(&self) -> RuleModel {
        RuleModel {
            tag: self.tag@,
            address: self.address@,
            label: self.label@,
            before: self.before@,
            after: self.after@,
            keeps_content: self.keeps_content,
        }
    }
}

/// The models of a list of rules.
pub open spec fn rule_models(rules: Seq<TagRule>) -> Seq<RuleModel> {
    rules.map_values(|r: TagRule| r@)
}

/// What happens to one element.
pub struct ElementEdit {
    /// The text put before the element.
    pub before: String,
    /// The text put after the element.
    pub after: String,
    /// Whether only the element's tags are removed, not what is between them.
    pub keeps_content: bool,
}

/// The model of an [`ElementEdit`].
pub ghost struct EditModel {
    pub before: Seq<char>,
    pub after: Seq<char>,
    pub keeps_content: bool,
}

impl EditModel {
    /// Whether both texts of the edit are ASCII.
    pub open spec fn is_ascii(self) -> bool {
        is_ascii_chars(self.before) && is_ascii_chars(self.after)
    }
}

impl View for ElementEdit {
    type V = EditModel;

    open spec fn view(&self) -> EditModel {
        EditModel { before: self.before@, after: self.after@, keeps_content: self.keeps_content }
    }
}

/// The rule of a tag whose elements go with all that is in them.
pub open spec fn removed_with(tag: Seq<char>, before: Seq<char>) -> RuleModel {
    RuleModel {
        tag,
        address: "src"@,
        label: "alt"@,
        before,
        after: ""@,
        keeps_content: false,
    }
}

/// The rule of a tag whose elements leave their content.
pub open spec fn unwrapped(tag: Seq<char>, before: Seq<char>, after: Seq<char>) -> RuleModel {
    RuleModel { tag, address: "href"@, label: "alt"@, before, after, keeps_content: true }
}

/// The rules of a page. What stands around a link and in the place of an image depends on the
/// element's attributes: see [`edited`].
pub open spec fn page_rules() -> Seq<RuleModel> {
    seq![
        removed_with("script"@, ""@),
        removed_with("style"@, ""@),
        removed_with("head"@, ""@),
        removed_with("nav"@, ""@),
        removed_with("footer"@, ""@),
        removed_with("iframe"@, ""@),
        removed_with("noscript"@, ""@),
        removed_with("svg"@, ""@),
        removed_with("input"@, ""@),
        removed_with("select"@, ""@),
        removed_with("textarea"@, ""@),
        removed_with("button"@, ""@),
        unwrapped("h1"@, "\n\n# "@, "\n"@),
        unwrapped("h2"@, "\n\n## "@, "\n"@),
        unwrapped("h3"@, "\n\n### "@, "\n"@),
        unwrapped("h4"@, "\n\n#### "@, "\n"@),
        unwrapped("h5"@, "\n\n##### "@, "\n"@),
        unwrapped("h6"@, "\n\n###### "@, "\n"@),
        unwrapped("p"@, "\n\n"@, "\n\n"@),
        unwrapped("blockquote"@, "\n\n> "@, "\n\n"@),
        unwrapped("pre"@, "\n\n```\n"@, "\n```\n\n"@),
        unwrapped("ul"@, "\n"@, "\n"@),
        unwrapped("ol"@, "\n"@, "\n"@),
        unwrapped("li"@, "\n* "@, ""@),
        unwrapped("strong"@, "**"@, "**"@),
        unwrapped("b"@, "**"@, "**"@),
        unwrapped("em"@, "_"@, "_"@),
        unwrapped("i"@, "_"@, "_"@),
        unwrapped("code"@, "`"@, "`"@),
        unwrapped("a"@, ""@, ""@),
        removed_with("img"@, ""@),
        removed_with("br"@, "\n"@),
        removed_with("hr"@, "\n\n---\n\n"@),
        unwrapped("table"@, "\n\n"@, "\n\n"@),
        unwrapped("tr"@, "\n"@, " |"@),
        unwrapped("th"@, "| **"@, "** "@),
        unwrapped("td"@, "| "@, " "@),
        unwrapped("thead"@, ""@, ""@),
        unwrapped("tbody"@, ""@, ""@),
        unwrapped("tfoot"@, ""@, ""@),
        unwrapped("dl"@, "\n\n"@, ""@),
        unwrapped("dt"@, "\n**"@, "**"@),
        unwrapped("dd"@, "\n: "@, ""@),
        unwrapped("figure"@, "\n"@, ""@),
        unwrapped("figcaption"@, "\n_"@, "_\n"@),
        unwrapped("html"@, ""@, ""@),
        unwrapped("body"@, ""@, ""@),
        unwrapped("main"@, ""@, ""@),
        unwrapped("header"@, ""@, ""@),
        unwrapped("aside"@, ""@, ""@),
        unwrapped("span"@, ""@, ""@),
        unwrapped("label"@, ""@, ""@),
        unwrapped("form"@, ""@, ""@),
        unwrapped("fieldset"@, ""@, ""@),
        unwrapped("div"@, "\n"@, ""@),
        unwrapped("section"@, "\n\n"@, ""@),
        unwrapped("article"@, "\n\n"@, ""@),
    ]
}

fn remove_with(tag: &'static str, before: &'static str) -> (res: TagRule)
    ensures
        res@ == removed_with(tag@, before@),
{
    TagRule { tag, address: "src", label: "alt", before, after: "", keeps_content: false }
}

fn unwrap(tag: &'static str, before: &'static str, after: &'static str) -> (res: TagRule)
    ensures
        res@ == unwrapped(tag@, before@, after@),
{
    TagRule { tag, address: "href", label: "alt", before, after, keeps_content: true }
}

/// The rules of a page.
pub fn tag_rules() -> (res: Vec<TagRule>)
    ensures
        rule_models(res@) == page_rules(),
        forall|k: int|
            0 <= k < res@.len() ==> (#[trigger] res@[k]).keeps_content == !goes_whole(
                res@[k].tag@,
            ),
{
    let rules: Vec<TagRule> = vec![
        remove_with("script", ""),
        remove_with("style", ""),
        remove_with("head", ""),
        remove_with("nav", ""),
        remove_with("footer", ""),
        remove_with("iframe", ""),
        remove_with("noscript", ""),
        remove_with("svg", ""),
        remove_with("input", ""),
        remove_with("select", ""),
        remove_with("textarea", ""),
        remove_with("button", ""),
        unwrap("h1", "\n\n# ", "\n"),
        unwrap("h2", "\n\n## ", "\n"),
        unwrap("h3", "\n\n### ", "\n"),
        unwrap("h4", "\n\n#### ", "\n"),
        unwrap("h5", "\n\n##### ", "\n"),
        unwrap("h6", "\n\n###### ", "\n"),
        unwrap("p", "\n\n", "\n\n"),
        unwrap("blockquote", "\n\n> ", "\n\n"),
        unwrap("pre", "\n\n```\n", "\n```\n\n"),
        unwrap("ul", "\n", "\n"),
        unwrap("ol", "\n", "\n"),
        unwrap("li", "\n* ", ""),
        unwrap("strong", "**", "**"),
        unwrap("b", "**", "**"),
        unwrap("em", "_", "_"),
        unwrap("i", "_", "_"),
        unwrap("code", "`", "`"),
        unwrap("a", "", ""),
        remove_with("img", ""),
        remove_with("br", "\n"),
        remove_with("hr", "\n\n---\n\n"),
        unwrap("table", "\n\n", "\n\n"),
        unwrap("tr", "\n", " |"),
        unwrap("th", "| **", "** "),
        unwrap("td", "| ", " "),
        unwrap("thead", "", ""),
        unwrap("tbody", "", ""),
        unwrap("tfoot", "", ""),
        unwrap("dl", "\n\n", ""),
        unwrap("dt", "\n**", "**"),
        unwrap("dd", "\n: ", ""),
        unwrap("figure", "\n", ""),
        unwrap("figcaption", "\n_", "_\n"),
        unwrap("html", "", ""),
        unwrap("body", "", ""),
        unwrap("main", "", ""),
        unwrap("header", "", ""),
        unwrap("aside", "", ""),
        unwrap("span", "", ""),
        unwrap("label", "", ""),
        unwrap("form", "", ""),
        unwrap("fieldset", "", ""),
        unwrap("div", "\n", ""),
        unwrap("section", "\n\n", ""),
        unwrap("article", "\n\n", ""),
    ];
    proof {
        assert(rule_models(rules@) =~= page_rules());
        assert forall|k: int| 0 <= k < rules@.len() implies (#[trigger] rules@[k]).keeps_content
            == !goes_whole(rules@[k].tag@) by {
            assert(rule_models(rules@)[k] == rules@[k]@);
            assert(page_rules().contains(rules@[k]@));
            law_rules(rules@[k]@);
        }
    }
    rules
}

/// A text, or the empty text where there is none.
pub open spec fn or_empty(text: Option<Seq<char>>) -> Seq<char> {
    match text {
        Some(t) => t,
        None => Seq::empty(),
    }
}

/// What happens to a link: where it leads somewhere else than into the page itself, its text is
/// put into brackets and its address, made absolute, follows in parentheses.
pub open spec fn linked(base: Seq<char>, href: Seq<char>) -> EditModel {
    if href.len() == 0 || href[0] == '#' {
        EditModel { before: Seq::empty(), after: Seq::empty(), keeps_content: true }
    } else {
        EditModel {
            before: "["@,
            after: "]("@ + resolved(base, href) + ")"@,
            keeps_content: true,
        }
    }
}

/// What happens to an image: where it has an address, its alternative text and its address, made
/// absolute, take its place.
pub open spec fn pictured(base: Seq<char>, src: Seq<char>, alt: Seq<char>) -> EditModel {
    EditModel {
        before: if src.len() == 0 {
            Seq::empty()
        } else {
            "!["@ + alt + "]("@ + resolved(base, src) + ")"@
        },
        after: Seq::empty(),
        keeps_content: false,
    }
}

/// What happens to an element with the rule `rule`, on the page at `base`, where the attributes
/// that the rule names for its address and its label have the values `address` and `label`.
pub open spec fn edited(
    rule: RuleModel,
    base: Seq<char>,
    address: Option<Seq<char>>,
    label: Option<Seq<char>>,
) -> EditModel {
    if rule.tag == "a"@ {
        linked(base, or_empty(address))
    } else if rule.tag == "img"@ {
        pictured(base, or_empty(address), or_empty(label))
    } else {
        EditModel { before: rule.before, after: rule.after, keeps_content: rule.keeps_content }
    }
}

fn text_or_empty(text: Option<String>) -> (res: String)
    ensures
        res@ == or_empty(text_of(text)),
{
    match text {
        Some(t) => t,
        None => String::new(),
    }
}

/// What happens to a link to `href`.
pub fn link_edit(base: &str, href: &str) -> (res: ElementEdit)
    ensures
        res@ == linked(base@, href@),
        res.keeps_content,
        href@.len() == 0 || href@[0] == '#' ==> res.before@ == ""@ && res.after@ == ""@,
        href@.len() > 0 && href@[0] != '#' ==> res.before@ == "["@ && res.after@ == "]("@
            + resolved(base@, href@) + ")"@,
        is_ascii_chars(href@) ==> res@.is_ascii(),
{
    proof {
        reveal_strlit("");
        assert(""@ =~= Seq::empty());
        reveal_strlit("#");
        reveal_strlit("[");
        reveal_strlit("](");
        reveal_strlit(")");
        if "#"@.is_prefix_of(href@) {
            assert(href@[0] == "#"@[0]);
        } else if href@.len() > 0 {
            assert(href@.subrange(0, 1)[0] == href@[0]);
        }
    }
    if href.is_empty() || starts_with(href, "#") {
        return ElementEdit {
            before: String::new(),
            after: String::new(),
            keeps_content: true,
        };
    }
    let mut after: String = concatenated("](", resolve_url(base, href).as_str());
    after.push_str(")");
    ElementEdit { before: "[".to_owned(), after, keeps_content: true }
}

/// What happens to an image at `src` with the alternative text `alt`.
pub fn image_edit(base: &str, src: &str, alt: &str) -> (res: ElementEdit)
    ensures
        res@ == pictured(base@, src@, alt@),
        !res.keeps_content,
        res.after@ == ""@,
        src@.len() == 0 ==> res.before@ == ""@,
        src@.len() > 0 ==> res.before@ == "!["@ + alt@ + "]("@ + resolved(base@, src@) + ")"@,
        is_ascii_chars(src@) && is_ascii_chars(alt@) ==> res@.is_ascii(),
{
    proof {
        reveal_strlit("");
        assert(""@ =~= Seq::empty());
        reveal_strlit("![");
        reveal_strlit("](");
        reveal_strlit(")");
    }
    let mut before: String = String::new();
    if !src.is_empty() {
        before.push_str("![");
        before.push_str(alt);
        before.push_str("](");
        before.push_str(resolve_url(base, src).as_str());
        before.push_str(")");
    }
    ElementEdit { before, after: String::new(), keeps_content: false }
}

/// What happens to an element with the rule `rule`, on the page at `base`, where the attributes
/// that the rule names for its address and its label have the values `address` and `label`. For
/// ASCII texts, its texts are ASCII, too.
pub fn element_edit(
    rule: &TagRule,
    base: &str,
    address: Option<String>,
    label: Option<String>,
) -> (res: ElementEdit)
    ensures
        res@ == edited(rule@, base@, text_of(address), text_of(label)),
        is_ascii_chars(rule.before@) && is_ascii_chars(rule.after@) && is_ascii_chars(
            or_empty(text_of(address)),
        ) && is_ascii_chars(or_empty(text_of(label))) ==> res@.is_ascii(),
{
    if same_text(rule.tag, "a") {
        link_edit(base, text_or_empty(address).as_str())
    } else if same_text(rule.tag, "img") {
        image_edit(base, text_or_empty(address).as_str(), text_or_empty(label).as_str())
    } else {
        ElementEdit {
            before: rule.before.to_owned(),
            after: rule.after.to_owned(),
            keeps_content: rule.keeps_content,
        }
    }
}

/// What comes of rewriting a page.
pub ghost enum Rewriting {
    /// The page was rewritten, and came out in these pieces.
    Pieces(Seq<Seq<u8>>),
    /// A piece of the page was refused.
    PageRefused,
    /// The end of the page was refused.
    EndRefused,
}

/// The bytes that a vector of byte vectors holds.
pub open spec fn pieces_of(v: Seq<Vec<u8>>) -> Seq<Seq<u8>> {
    v.map_values(|p: Vec<u8>| p@)
}

/// What comes of rewriting a page into `pieces`, where the outer result is that of its chunks and
/// the inner one that of its end.
pub open spec fn rewriting_of(
    res: Result<Result<(), RewritingError>, RewritingError>,
    pieces: Seq<Vec<u8>>,
) -> Rewriting {
    match res {
        Ok(Ok(_)) => Rewriting::Pieces(pieces_of(pieces)),
        Ok(Err(_)) => Rewriting::EndRefused,
        Err(_) => Rewriting::PageRefused,
    }
}

/// `s` as text in HTML: with entities for `&`, `<` and `>`.
pub open spec fn escaped(s: Seq<char>) -> Seq<char>
    decreases s.len(),
{
    if s.len() == 0 {
        Seq::empty()
    } else {
        (if s.first() == '&' {
            "&amp;"@
        } else if s.first() == '<' {
            "&lt;"@
        } else if s.first() == '>' {
            "&gt;"@
        } else {
            seq![s.first()]
        }) + escaped(s.drop_first())
    }
}

/// A page, or the content of an element: texts, comments, declarations and elements, one behind
/// the other.
pub ghost enum Page {
    /// Nothing.
    Empty,
    /// A text, and what follows it.
    Text { text: Seq<char>, rest: Box<Page> },
    /// A comment, and what follows it.
    Comment { text: Seq<char>, rest: Box<Page> },
    /// A declaration, such as that of the document type, and what follows it.
    Declaration { text: Seq<char>, rest: Box<Page> },
    /// An element with the tag of a rule, and what follows it. A slash may end its start tag.
    Element {
        rule: RuleModel,
        attributes: Seq<(Seq<char>, Seq<char>)>,
        slash: bool,
        content: Box<Page>,
        rest: Box<Page>,
    },
    /// An element with a tag that no rule names, and what follows it.
    Other {
        tag: Seq<char>,
        attributes: Seq<(Seq<char>, Seq<char>)>,
        slash: bool,
        content: Box<Page>,
        rest: Box<Page>,
    },
}

/// Whether the elements with a tag have neither content nor an end tag.
pub open spec fn void_tag(tag: Seq<char>) -> bool {
    ||| tag == "input"@
    ||| tag == "img"@
    ||| tag == "br"@
    ||| tag == "hr"@
    ||| tag == "area"@
    ||| tag == "base"@
    ||| tag == "basefont"@
    ||| tag == "bgsound"@
    ||| tag == "col"@
    ||| tag == "embed"@
    ||| tag == "keygen"@
    ||| tag == "link"@
    ||| tag == "meta"@
    ||| tag == "param"@
    ||| tag == "source"@
    ||| tag == "track"@
    ||| tag == "wbr"@
}

/// Whether the elements with a tag hold text in which no tag begins but the end tag.
pub open spec fn raw_tag(tag: Seq<char>) -> bool {
    ||| tag == "script"@
    ||| tag == "style"@
    ||| tag == "iframe"@
    ||| tag == "noscript"@
    ||| tag == "textarea"@
    ||| tag == "title"@
    ||| tag == "xmp"@
    ||| tag == "noembed"@
    ||| tag == "noframes"@
}

/// Whether the elements with a tag may not stand in a `select` element.
pub open spec fn no_option_tag(tag: Seq<char>) -> bool {
    ||| tag == "style"@
    ||| tag == "iframe"@
    ||| tag == "noscript"@
    ||| tag == "title"@
    ||| tag == "xmp"@
    ||| tag == "noembed"@
    ||| tag == "noframes"@
    ||| tag == "template"@
}

/// Whether the elements with a tag that no rule names end a drawing, or begin HTML in it.
pub open spec fn no_drawing_tag(tag: Seq<char>) -> bool {
    ||| tag == "big"@
    ||| tag == "center"@
    ||| tag == "desc"@
    ||| tag == "font"@
    ||| tag == "foreignobject"@
    ||| tag == "listing"@
    ||| tag == "menu"@
    ||| tag == "nobr"@
    ||| tag == "ruby"@
    ||| tag == "s"@
    ||| tag == "small"@
    ||| tag == "strike"@
    ||| tag == "sub"@
    ||| tag == "sup"@
    ||| tag == "tt"@
    ||| tag == "u"@
    ||| tag == "var"@
}

/// Whether an element with a tag changes how what follows the element is read.
pub open spec fn lasting_tag(tag: Seq<char>) -> bool {
    tag == "plaintext"@ || tag == "frameset"@ || tag == "math"@
}

/// Whether a name is of lower-case letters.
pub open spec fn lower_case_name(name: Seq<char>) -> bool {
    name.len() > 0 && forall|i: int| 0 <= i < name.len() ==> 'a' <= #[trigger] name[i] <= 'z'
}

/// Whether a rule names a tag.
pub open spec fn has_rule(tag: Seq<char>) -> bool {
    exists|rule: RuleModel| #[trigger] page_rules().contains(rule) && rule.tag == tag
}

/// Whether a character may stand in the name of an attribute.
pub open spec fn attribute_name_char(c: char) -> bool {
    'a' <= c <= 'z' || '0' <= c <= '9' || c == '-' || c == '_' || c == ':'
}

/// Whether an attribute can be written in a tag, and is read back: its name is of lower-case
/// letters, digits and a few signs, and its value has no quotation mark and does not begin with a
/// byte order mark.
pub open spec fn writable(attribute: (Seq<char>, Seq<char>)) -> bool {
    let (name, value) = attribute;
    &&& name.len() > 0
    &&& forall|i: int| 0 <= i < name.len() ==> attribute_name_char(#[trigger] name[i])
    &&& !value.contains('"')
    &&& !(value.len() > 0 && value[0] == '\u{feff}')
}

/// Whether all of the attributes can be written in a tag.
pub open spec fn all_writable(attributes: Seq<(Seq<char>, Seq<char>)>) -> bool {
    forall|i: int| 0 <= i < attributes.len() ==> writable(#[trigger] attributes[i])
}

/// Whether a comment with this text ends where it seems to.
pub open spec fn comment_text(text: Seq<char>) -> bool {
    &&& forall|i: int| 0 < i < text.len() && #[trigger] text[i] == '-' ==> text[i - 1] != '-'
    &&& text.len() > 0 ==> text[0] != '>' && text.last() != '-'
    &&& !(text.len() > 1 && text[0] == '-' && text[1] == '>')
}

/// Whether a declaration with this text is neither a comment nor character data, and ends where
/// it seems to.
pub open spec fn declaration_text(text: Seq<char>) -> bool {
    &&& text.len() > 0 && ('a' <= text[0] <= 'z' || 'A' <= text[0] <= 'Z')
    &&& !text.contains('>')
}

/// Whether the element with the tag `tag` can hold this text and nothing else: nothing in it looks
/// like the end tag or begins a comment.
pub open spec fn raw_text(tag: Seq<char>, text: Seq<char>) -> bool {
    &&& forall|i: int| 0 < i < text.len() && #[trigger] text[i] == '!' ==> text[i - 1] != '<'
    &&& forall|i: int|
        1 < i < text.len() && text[i - 2] == '<' && text[i - 1] == '/' ==> #[trigger] ascii_lower(
            text[i],
        ) != tag[0]
    &&& text.len() > 0 ==> text.last() != '<'
    &&& text.len() > 1 && text.last() == '/' ==> text[text.len() - 2] != '<'
}

/// Whether the element with the tag `tag` holds nothing but a text that it can hold.
pub open spec fn raw_content(tag: Seq<char>, content: Page) -> bool {
    match content {
        Page::Empty => true,
        Page::Text { text, rest } => raw_text(tag, text) && *rest == Page::Empty,
        _ => false,
    }
}

/// Whether all elements of a page, however deep, may stand in a `select` element.
pub open spec fn optional(page: Page) -> bool
    decreases page,
{
    match page {
        Page::Empty => true,
        Page::Text { rest, .. } | Page::Comment { rest, .. } | Page::Declaration { rest, .. } =>
            optional(*rest),
        Page::Element { rule, content, rest, .. } => {
            !no_option_tag(rule.tag) && optional(*content) && optional(*rest)
        },
        Page::Other { tag, content, rest, .. } => {
            !no_option_tag(tag) && optional(*content) && optional(*rest)
        },
    }
}

/// Whether a page is the well-formed content of a drawing, an `svg` element.
pub open spec fn drawn(page: Page) -> bool
    decreases page,
{
    match page {
        Page::Empty => true,
        Page::Text { text, rest } => !text.contains('<') && drawn(*rest),
        Page::Comment { text, rest } => comment_text(text) && drawn(*rest),
        Page::Declaration { text, rest } => declaration_text(text) && drawn(*rest),
        Page::Element { .. } => false,
        Page::Other { tag, attributes, slash, content, rest } => {
            &&& other_tag(tag) && !void_tag(tag) && !raw_tag(tag) && !no_drawing_tag(tag)
            &&& all_writable(attributes)
            &&& slash ==> *content == Page::Empty
            &&& drawn(*content) && drawn(*rest)
        },
    }
}

/// Whether a tag is one that no rule names, and an element with it leaves what follows as it is.
pub open spec fn other_tag(tag: Seq<char>) -> bool {
    lower_case_name(tag) && !has_rule(tag) && !lasting_tag(tag)
}

/// Whether an element with this tag can be written: void elements have no content, a slash ends
/// only the start tag of these, and the elements whose content is read otherwise than that of a
/// page hold what they can.
pub open spec fn well_formed_element(
    tag: Seq<char>,
    attributes: Seq<(Seq<char>, Seq<char>)>,
    slash: bool,
    content: Page,
) -> bool {
    &&& all_writable(attributes)
    &&& slash ==> void_tag(tag)
    &&& void_tag(tag) ==> content == Page::Empty
    &&& raw_tag(tag) ==> raw_content(tag, content)
    &&& tag == "svg"@ ==> drawn(content)
    &&& tag == "select"@ ==> optional(content)
}

/// Whether a page is well formed: all that is in it can be written and is read back, and no text
/// looks like a tag.
pub open spec fn well_formed(page: Page) -> bool
    decreases page,
{
    match page {
        Page::Empty => true,
        Page::Text { text, rest } => !text.contains('<') && well_formed(*rest),
        Page::Comment { text, rest } => comment_text(text) && well_formed(*rest),
        Page::Declaration { text, rest } => declaration_text(text) && well_formed(*rest),
        Page::Element { rule, attributes, slash, content, rest } => {
            &&& page_rules().contains(rule)
            &&& well_formed_element(rule.tag, attributes, slash, *content)
            &&& raw_tag(rule.tag) || rule.tag == "svg"@ || well_formed(*content)
            &&& well_formed(*rest)
        },
        Page::Other { tag, attributes, slash, content, rest } => {
            &&& other_tag(tag)
            &&& well_formed_element(tag, attributes, slash, *content)
            &&& raw_tag(tag) || well_formed(*content)
            &&& well_formed(*rest)
        },
    }
}

/// Attributes as they are written in a tag.
pub open spec fn attributes_html(attributes: Seq<(Seq<char>, Seq<char>)>) -> Seq<char>
    decreases attributes.len(),
{
    if attributes.len() == 0 {
        Seq::empty()
    } else {
        let (name, value) = attributes.last();
        attributes_html(attributes.drop_last()) + " "@ + name + "=\""@ + value + "\""@
    }
}

/// The HTML of an element around `content`.
pub open spec fn element_html(
    tag: Seq<char>,
    attributes: Seq<(Seq<char>, Seq<char>)>,
    slash: bool,
    content: Seq<char>,
) -> Seq<char> {
    "<"@ + tag + attributes_html(attributes) + (if slash {
        " /"@
    } else {
        Seq::empty()
    }) + ">"@ + (if slash || void_tag(tag) {
        Seq::empty()
    } else {
        content + "</"@ + tag + ">"@
    })
}

/// The HTML of a comment.
pub open spec fn comment_html(text: Seq<char>) -> Seq<char> {
    "<!--"@ + text + "-->"@
}

/// The HTML of a declaration.
pub open spec fn declaration_html(text: Seq<char>) -> Seq<char> {
    "<!"@ + text + ">"@
}

/// The HTML of a page.
pub open spec fn html_of(page: Page) -> Seq<char>
    decreases page,
{
    match page {
        Page::Empty => Seq::empty(),
        Page::Text { text, rest } => text + html_of(*rest),
        Page::Comment { text, rest } => comment_html(text) + html_of(*rest),
        Page::Declaration { text, rest } => declaration_html(text) + html_of(*rest),
        Page::Element { rule, attributes, slash, content, rest } => element_html(
            rule.tag,
            attributes,
            slash,
            html_of(*content),
        ) + html_of(*rest),
        Page::Other { tag, attributes, slash, content, rest } => element_html(
            tag,
            attributes,
            slash,
            html_of(*content),
        ) + html_of(*rest),
    }
}

/// What happens to an element with the rule `rule` and these attributes, on the page at `base`.
/// Where an attribute is there twice, the first counts.
pub open spec fn edited_element(
    rule: RuleModel,
    base: Seq<char>,
    attributes: Seq<(Seq<char>, Seq<char>)>,
) -> EditModel {
    edited(
        rule,
        base,
        first_value(attributes, rule.address),
        first_value(attributes, rule.label),
    )
}

/// What an edit leaves of the content of an element, between the texts that it puts around it.
pub open spec fn marked(edit: EditModel, content: Seq<char>) -> Seq<char> {
    escaped(edit.before) + (if edit.keeps_content {
        content
    } else {
        Seq::empty()
    }) + escaped(edit.after)
}

/// A page at `base` with Markdown in the place of its elements: each of them edited as [`edited`]
/// says. Those that no rule names keep their tags, and comments and declarations stay; all of that
/// is stripped later.
pub open spec fn rendered(base: Seq<char>, page: Page) -> Seq<char>
    decreases page,
{
    match page {
        Page::Empty => Seq::empty(),
        Page::Text { text, rest } => text + rendered(base, *rest),
        Page::Comment { text, rest } => comment_html(text) + rendered(base, *rest),
        Page::Declaration { text, rest } => declaration_html(text) + rendered(base, *rest),
        Page::Element { rule, attributes, content, rest, .. } => marked(
            edited_element(rule, base, attributes),
            rendered(base, *content),
        ) + rendered(base, *rest),
        Page::Other { tag, attributes, slash, content, rest } => element_html(
            tag,
            attributes,
            slash,
            rendered(base, *content),
        ) + rendered(base, *rest),
    }
}

/// What `lol_html` makes of a page that comes in `chunks`, where each element whose tag has a
/// rule is edited as [`edited`] says.
pub uninterp spec fn rewriting(
    rules: Seq<RuleModel>,
    base: Seq<char>,
    chunks: Seq<Seq<u8>>,
) -> Rewriting;

/// `lol_html::HtmlRewriter`, with one element handler for each rule and otherwise its default
/// settings, is given the chunks one after the other, up to the first that it refuses, and then
/// the end of the page; what it hands to its sink is added to `out`. Each handler asks for the
/// two attributes that the rule names, inserts the two texts of the [`ElementEdit`] as text before
/// and after the element, and removes the element or only its tags.
///
/// The claim is that what comes out is settled by the rules, the base and the chunks; and that a
/// well-formed page comes out as it went in, but for the elements with a rule: each leaves its
/// content, or nothing where the element is removed, between the two texts of its edit, which
/// `ContentType::Text` has escaped. And ASCII bytes come out of ASCII bytes: the rest that comes
/// out is the escaped texts of the edits, and [`element_edit`] gives ASCII texts for ASCII
/// attributes. Not stated: what comes of other pages, and which error comes with a refusal.
#[verifier::external_body]
fn rewrite(
    rules: &Vec<TagRule>,
    base: &str,
    chunks: &Vec<Vec<u8>>,
    out: &mut Vec<Vec<u8>>,
) -> (res: Result<Result<(), RewritingError>, RewritingError>)
    requires
        rule_models(rules@) == page_rules(),
        old(out)@.len() == 0,
    ensures
        rewriting_of(res, final(out)@) == rewriting(
            rule_models(rules@),
            base@,
            pieces_of(chunks@),
        ),
        forall|page: Page|
            #![trigger html_of(page)]
            well_formed(page) && pieces_of(chunks@).flatten_alt() == encode_utf8(html_of(page))
                ==> rewriting_of(res, final(out)@) is Pieces && pieces_of(
                final(out)@,
            ).flatten_alt() == encode_utf8(rendered(base@, page)),
        ascii(pieces_of(chunks@).flatten_alt()) ==> ascii(pieces_of(final(out)@).flatten_alt()),
{
    let mut settings = Settings::new();
    for rule in rules {
        settings.element_content_handlers.push((Cow::Owned(rule.tag.parse().unwrap()), ElementContentHandlers::default().element(|el: &mut Element| {
            let edit = element_edit(rule, base, el.get_attribute(rule.address), el.get_attribute(rule.label));
            el.before(&edit.before, Text);
            el.after(&edit.after, Text);
            Ok(if edit.keeps_content { el.remove_and_keep_content() } else { el.remove() })
        })));
    }
    let mut rewriter = HtmlRewriter::new(settings, |piece: &[u8]| out.push(piece.to_vec()));
    for chunk in chunks {
        rewriter.write(chunk)?;
    }
    Ok(rewriter.end())
}

/// What `String::from_utf8_lossy` makes of bytes.
pub uninterp spec fn lossy_utf8(bytes: Seq<u8>) -> Seq<char>;

/// `String::from_utf8_lossy`: the characters that the bytes encode in UTF-8. Where the bytes are
/// not valid UTF-8, the claim is only that they settle the result.
#[verifier::external_body]
fn from_utf8_lossy(bytes: &Vec<u8>) -> (res: String)
    ensures
        res@ == lossy_utf8(bytes@),
        valid_utf8(bytes@) ==> res@ == decode_utf8(bytes@),
{
    String::from_utf8_lossy(bytes).into_owned()
}

/// The text of a page that came in pieces, each of them decoded by itself.
pub open spec fn joined_text(pieces: Seq<Seq<u8>>) -> Seq<char>
    decreases pieces.len(),
{
    if pieces.len() == 0 {
        Seq::empty()
    } else {
        joined_text(pieces.drop_last()) + lossy_utf8(pieces.last())
    }
}

/// The characters of ASCII bytes.
pub open spec fn ascii_text(bytes: Seq<u8>) -> Seq<char> {
    bytes.map_values(|b: u8| b as char)
}

/// Whether bytes are ASCII.
pub open spec fn ascii(bytes: Seq<u8>) -> bool {
    forall|i: int| 0 <= i < bytes.len() ==> #[trigger] bytes[i] < 0x80
}

/// ASCII bytes are valid UTF-8, and encode their characters.
proof fn lemma_ascii(bytes: Seq<u8>)
    requires
        ascii(bytes),
    ensures
        valid_utf8(bytes),
        decode_utf8(bytes) == ascii_text(bytes),
{
    let text = ascii_text(bytes);
    assert(is_ascii_chars(text)) by {
        assert forall|i: int|
            0 <= i < text.len() implies '\0' <= #[trigger] text[i] <= '\u{7f}' by {
            assert(bytes[i] < 0x80);
        }
    }
    is_ascii_chars_encode_utf8(text);
    let encoded = encode_utf8(text);
    assert forall|i: int| 0 <= i < bytes.len() implies #[trigger] encoded[i] == bytes[i] by {
        assert(bytes[i] < 0x80);
        assert(text[i] == bytes[i] as char);
        assert(text[i] as u8 == encoded[i]);
    }
    assert(encoded =~= bytes);
    encode_utf8_valid_utf8(text);
    encode_utf8_decode_utf8(text);
}

/// The encoding of ASCII characters is ASCII bytes, and leads back to them.
proof fn lemma_ascii_encoded(text: Seq<char>)
    requires
        is_ascii_chars(text),
    ensures
        ascii(encode_utf8(text)),
        ascii_text(encode_utf8(text)) == text,
{
    is_ascii_chars_encode_utf8(text);
    let encoded = encode_utf8(text);
    assert forall|i: int| 0 <= i < encoded.len() implies #[trigger] encoded[i] < 0x80
        && encoded[i] as char == text[i] by {
        assert('\0' <= text[i] <= '\u{7f}');
        assert(text[i] as u8 == encoded[i]);
    }
    assert(ascii_text(encoded) =~= text);
}

/// The text of a page that came in pieces: that of the whole, where the whole is ASCII.
pub fn join_pieces(pieces: &Vec<Vec<u8>>) -> (res: String)
    ensures
        res@ == joined_text(pieces_of(pieces@)),
        ascii(pieces_of(pieces@).flatten_alt()) ==> res@ == ascii_text(
            pieces_of(pieces@).flatten_alt(),
        ),
{
    let ghost all = pieces_of(pieces@);
    let mut out: String = String::new();
    proof {
        assert(all.take(0) =~= Seq::empty());
        assert(out@ =~= ascii_text(all.take(0).flatten_alt()));
    }
    for i in 0..pieces.len()
        invariant
            all == pieces_of(pieces@),
            out@ == joined_text(all.take(i as int)),
            ascii(all.take(i as int).flatten_alt()) ==> out@ == ascii_text(
                all.take(i as int).flatten_alt(),
            ),
    {
        let ghost before = all.take(i as int);
        let ghost next = all.take(i + 1);
        let piece: String = from_utf8_lossy(&pieces[i]);
        out.push_str(piece.as_str());
        proof {
            assert(next.drop_last() =~= before);
            assert(next.last() == pieces@[i as int]@);
            let whole = next.flatten_alt();
            let added = pieces@[i as int]@;
            assert(whole == before.flatten_alt() + added);
            if ascii(whole) {
                let n = before.flatten_alt().len() as int;
                assert forall|k: int| 0 <= k < n implies #[trigger] before.flatten_alt()[k]
                    < 0x80 by {
                    assert(before.flatten_alt()[k] == whole[k]);
                }
                assert forall|k: int| 0 <= k < added.len() implies #[trigger] added[k] < 0x80 by {
                    assert(added[k] == whole[n + k]);
                }
                lemma_ascii(added);
                assert(out@ =~= ascii_text(whole));
            }
        }
    }
    proof {
        assert(all.take(pieces@.len() as int) =~= all);
    }
    out
}

/// Why there is no Markdown of a page.
pub enum ConvertError {
    /// The page at this address could not be asked for.
    Unreachable(String),
    /// The reply had this status, which is no success.
    Refused(String),
    /// The rest of the page could not be read.
    Stream,
    /// The rewriter refused a chunk of the page.
    Parse(RewritingError),
    /// The rewriter refused the end of the page.
    Finalization(RewritingError),
}

/// The model of a [`ConvertError`].
pub ghost enum ConvertErrorModel {
    Unreachable(Seq<char>),
    Refused(Seq<char>),
    Stream,
    Parse,
    Finalization,
}

impl View for ConvertError {
    type V = ConvertErrorModel;

    open spec fn view(&self) -> ConvertErrorModel {
        match *self {
            ConvertError::Unreachable(url) => ConvertErrorModel::Unreachable(url@),
            ConvertError::Refused(status) => ConvertErrorModel::Refused(status@),
            ConvertError::Stream => ConvertErrorModel::Stream,
            ConvertError::Parse(_) => ConvertErrorModel::Parse,
            ConvertError::Finalization(_) => ConvertErrorModel::Finalization,
        }
    }
}

/// What the user is told of an error.
pub open spec fn convert_error_text(error: ConvertErrorModel) -> Seq<char> {
    match error {
        ConvertErrorModel::Unreachable(url) => "Failed to fetch: "@ + url,
        ConvertErrorModel::Refused(status) => "HTTP error: "@ + status,
        ConvertErrorModel::Stream => "Stream read error"@,
        ConvertErrorModel::Parse => "HTML parse error"@,
        ConvertErrorModel::Finalization => "HTML finalization error"@,
    }
}

impl ConvertError {
    /// What the user is told.
    pub fn message(&self) -> (res: String)
        ensures
            res@ == convert_error_text(self@),
            match *self {
                ConvertError::Unreachable(url) => res@ == "Failed to fetch: "@ + url@,
                ConvertError::Refused(status) => res@ == "HTTP error: "@ + status@,
                ConvertError::Stream => res@ == "Stream read error"@,
                ConvertError::Parse(_) => res@ == "HTML parse error"@,
                ConvertError::Finalization(_) => res@ == "HTML finalization error"@,
            },
    {
        match self {
            ConvertError::Unreachable(url) => concatenated("Failed to fetch: ", url.as_str()),
            ConvertError::Refused(status) => concatenated("HTTP error: ", status.as_str()),
            ConvertError::Stream => "Stream read error".to_owned(),
            ConvertError::Parse(_) => "HTML parse error".to_owned(),
            ConvertError::Finalization(_) => "HTML finalization error".to_owned(),
        }
    }
}

/// What came of asking for a page.
pub enum Download {
    /// Nothing.
    Unreachable,
    /// A reply with this status, which is no success.
    Refused(String),
    /// The page, in chunks.
    Complete(Vec<Vec<u8>>),
    /// The beginning of the page, in chunks.
    BrokenOff(Vec<Vec<u8>>),
}

/// The model of a [`Download`].
pub ghost enum DownloadModel {
    Unreachable,
    Refused(Seq<char>),
    Complete(Seq<Seq<u8>>),
    BrokenOff(Seq<Seq<u8>>),
}

impl View for Download {
    type V = DownloadModel;

    open spec fn view(&self) -> DownloadModel {
        match *self {
            Download::Unreachable => DownloadModel::Unreachable,
            Download::Refused(status) => DownloadModel::Refused(status@),
            Download::Complete(chunks) => DownloadModel::Complete(pieces_of(chunks@)),
            Download::BrokenOff(chunks) => DownloadModel::BrokenOff(pieces_of(chunks@)),
        }
    }
}

/// The model of a text, or of the reason why there is none.
pub open spec fn converted(res: Result<String, ConvertError>) -> Result<
    Seq<char>,
    ConvertErrorModel,
> {
    match res {
        Ok(text) => Ok(text@),
        Err(error) => Err(error@),
    }
}

/// The text that the rewriter makes of a page, or the reason why there is none.
pub open spec fn rewritten(outcome: Rewriting) -> Result<Seq<char>, ConvertErrorModel> {
    match outcome {
        Rewriting::Pieces(pieces) => Ok(joined_text(pieces)),
        Rewriting::PageRefused => Err(ConvertErrorModel::Parse),
        Rewriting::EndRefused => Err(ConvertErrorModel::Finalization),
    }
}

/// The text of the page at `url`, with Markdown in the place of its elements. Where reading the
/// page broke off, a chunk that the rewriter refused comes before that.
pub open spec fn rewritten_download(url: Seq<char>, download: DownloadModel) -> Result<
    Seq<char>,
    ConvertErrorModel,
> {
    match download {
        DownloadModel::Unreachable => Err(ConvertErrorModel::Unreachable(url)),
        DownloadModel::Refused(status) => Err(ConvertErrorModel::Refused(status)),
        DownloadModel::Complete(chunks) => rewritten(rewriting(page_rules(), url, chunks)),
        DownloadModel::BrokenOff(chunks) => if rewriting(
            page_rules(),
            url,
            chunks,
        ) is PageRefused {
            Err(ConvertErrorModel::Parse)
        } else {
            Err(ConvertErrorModel::Stream)
        },
    }
}

/// Whether `chunks` hold a well-formed page of ASCII characters.
pub open spec fn holds_page(chunks: Seq<Seq<u8>>, page: Page) -> bool {
    &&& well_formed(page)
    &&& chunks.flatten_alt() == encode_utf8(html_of(page))
    &&& is_ascii_chars(html_of(page))
}

/// The text of the page at `url` that came in `chunks`, with Markdown in the place of its
/// elements. A well-formed page comes out as [`rendered`] says.
pub fn rewrite_page(url: &str, chunks: &Vec<Vec<u8>>) -> (res: Result<String, ConvertError>)
    ensures
        converted(res) == rewritten(rewriting(page_rules(), url@, pieces_of(chunks@))),
        match rewriting(page_rules(), url@, pieces_of(chunks@)) {
            Rewriting::Pieces(pieces) => res matches Ok(text) && text@ == joined_text(pieces),
            Rewriting::PageRefused => res matches Err(e) && e is Parse,
            Rewriting::EndRefused => res matches Err(e) && e is Finalization,
        },
        forall|page: Page|
            #![trigger html_of(page)]
            holds_page(pieces_of(chunks@), page) ==> converted(res) == Ok::<
                _,
                ConvertErrorModel,
            >(rendered(url@, page)),
{
    let rules: Vec<TagRule> = tag_rules();
    let mut pieces: Vec<Vec<u8>> = Vec::new();
    let outcome = rewrite(&rules, url, chunks, &mut pieces);
    proof {
        assert forall|page: Page|
            #![trigger html_of(page)]
            holds_page(pieces_of(chunks@), page) implies ({
            let bytes = pieces_of(pieces@).flatten_alt();
            &&& rewriting_of(outcome, pieces@) is Pieces
            &&& ascii(bytes)
            &&& ascii_text(bytes) == rendered(url@, page)
        }) by {
            let text = rendered(url@, page);
            lemma_ascii_encoded(html_of(page));
            lemma_ascii(encode_utf8(text));
            encode_utf8_decode_utf8(text);
        }
    }
    match outcome {
        Ok(Ok(_)) => Ok(join_pieces(&pieces)),
        Ok(Err(e)) => Err(ConvertError::Finalization(e)),
        Err(e) => Err(ConvertError::Parse(e)),
    }
}

/// The text of the page at `url`, with Markdown in the place of its elements.
pub fn rewrite_download(url: &str, download: &Download) -> (res: Result<String, ConvertError>)
    ensures
        converted(res) == rewritten_download(url@, download@),
        forall|page: Page|
            #![trigger html_of(page)]
            download@ is Complete && holds_page(download@->Complete_0, page) ==> converted(
                res,
            ) == Ok::<_, ConvertErrorModel>(rendered(url@, page)),
{
    match download {
        Download::Unreachable => Err(ConvertError::Unreachable(url.to_owned())),
        Download::Refused(status) => Err(ConvertError::Refused(status.clone())),
        Download::Complete(chunks) => rewrite_page(url, chunks),
        Download::BrokenOff(chunks) => match rewrite_page(url, chunks) {
            Err(ConvertError::Parse(e)) => Err(ConvertError::Parse(e)),
            _ => Err(ConvertError::Stream),
        },
    }
}

/// The Markdown of the page at `url`. It is tidy; and that of a well-formed page is what
/// post-processing makes of the page with Markdown in the place of its elements.
pub fn convert_url_to_markdown(url: &str, download: &Download) -> (res: Result<
    String,
    ConvertError,
>)
    ensures
        converted(res) == (match rewritten_download(url@, download@) {
            Ok(raw) => Ok(post_processed(raw)),
            Err(error) => Err(error),
        }),
        res matches Ok(markdown) ==> tidy(markdown@),
        download@ is Unreachable ==> (res matches Err(ConvertError::Unreachable(address))
            && address@ == url@),
        download@ matches DownloadModel::Refused(status) ==> (res matches Err(
            ConvertError::Refused(shown),
        ) && shown@ == status),
        download@ matches DownloadModel::BrokenOff(chunks) ==> (res matches Err(e) && (if rewriting(
            page_rules(),
            url@,
            chunks,
        ) is PageRefused {
            e is Parse
        } else {
            e is Stream
        })),
        download@ matches DownloadModel::Complete(chunks) ==> match rewriting(
            page_rules(),
            url@,
            chunks,
        ) {
            Rewriting::Pieces(pieces) => res matches Ok(markdown) && markdown@ == normalized_lines(
                flattened(stripped(joined_text(pieces))),
            ),
            Rewriting::PageRefused => res matches Err(e) && e is Parse,
            Rewriting::EndRefused => res matches Err(e) && e is Finalization,
        },
        forall|page: Page|
            #![trigger html_of(page)]
            download@ is Complete && holds_page(download@->Complete_0, page) ==> converted(
                res,
            ) == Ok::<_, ConvertErrorModel>(post_processed(rendered(url@, page))),
{
    match rewrite_download(url, download) {
        Ok(raw) => {
            proof {
                law_markdown_is_tidy(raw@);
            }
            Ok(post_process(raw.as_str()))
        },
        Err(e) => Err(e),
    }
}

// Laws.

/// The text of a page that came in pieces is that of the pieces, one behind the other.
pub proof fn law_joined_pieces(pieces: Seq<Seq<u8>>, piece: Seq<u8>)
    ensures
        joined_text(Seq::empty()) == Seq::<char>::empty(),
        joined_text(pieces.push(piece)) == joined_text(pieces) + lossy_utf8(piece),
{
    assert(pieces.push(piece).drop_last() =~= pieces);
}

/// Escaped text is decoded when the page is stripped.
pub proof fn law_escaped_text_is_decoded(text: Seq<char>, rest: Seq<char>)
    ensures
        stripped(escaped(text) + rest) == text + stripped(rest),
    decreases text.len(),
{
    if text.len() == 0 {
        assert(escaped(text) + rest =~= rest);
        assert(text + stripped(rest) =~= stripped(rest));
    } else {
        let c = text.first();
        let tail = escaped(text.drop_first()) + rest;
        law_escaped_text_is_decoded(text.drop_first(), rest);
        let whole = escaped(text) + rest;
        reveal_strlit("&amp;");
        reveal_strlit("&lt;");
        reveal_strlit("&gt;");
        reveal_strlit("amp");
        reveal_strlit("lt");
        reveal_strlit("gt");
        if c == '&' {
            lemma_entity("amp"@, tail);
            assert(whole =~= seq!['&'] + "amp"@ + seq![';'] + tail);
        } else if c == '<' {
            lemma_entity("lt"@, tail);
            assert("lt"@.len() != "amp"@.len());
            assert(whole =~= seq!['&'] + "lt"@ + seq![';'] + tail);
        } else if c == '>' {
            lemma_entity("gt"@, tail);
            assert("gt"@.len() != "amp"@.len());
            assert("gt"@[0] != "lt"@[0]);
            assert(whole =~= seq!['&'] + "gt"@ + seq![';'] + tail);
        } else {
            assert(whole =~= seq![c] + tail);
            assert(whole.drop_first() =~= tail);
        }
        assert(stripped(whole) =~= text + stripped(rest));
    }
}

/// An entity with a name of two or three ASCII letters is decoded.
proof fn lemma_entity(name: Seq<char>, rest: Seq<char>)
    requires
        2 <= name.len() <= 3,
        forall|i: int| 0 <= i < name.len() ==> 'a' <= #[trigger] name[i] <= 'z',
    ensures
        stripped(seq!['&'] + name + seq![';'] + rest) == entity_text(name) + stripped(rest),
{
    reveal_with_fuel(byte_len, 4);
    assert(byte_len(name) <= 3);
    law_entity_decoded(name, rest);
}

/// What an edit leaves of plain text in an element stands in the page's Markdown between the
/// texts that the edit puts around it.
pub proof fn law_marked_text(edit: EditModel, text: Seq<char>)
    requires
        plain(text),
    ensures
        ({
            let kept = if edit.keeps_content {
                text
            } else {
                Seq::empty()
            };
            &&& stripped(marked(edit, text)) == edit.before + kept + edit.after
            &&& post_processed(marked(edit, text)) == normalized_lines(
                flattened(edit.before + kept + edit.after),
            )
        }),
{
    let content = if edit.keeps_content {
        text
    } else {
        Seq::empty()
    };
    let after = escaped(edit.after);
    let none = Seq::<char>::empty();
    law_escaped_text_is_decoded(edit.after, none);
    assert(after + none =~= after);
    assert(edit.after + stripped(none) =~= edit.after);
    law_plain_text_stays(content, after);
    law_escaped_text_is_decoded(edit.before, content + after);
    assert(marked(edit, text) =~= escaped(edit.before) + (content + after));
    assert(edit.before + (content + edit.after) =~= edit.before + content + edit.after);
}

/// A page that is one element around a text.
pub open spec fn around(
    rule: RuleModel,
    attributes: Seq<(Seq<char>, Seq<char>)>,
    text: Seq<char>,
) -> Page {
    Page::Element {
        rule,
        attributes,
        slash: false,
        content: Box::new(Page::Text { text, rest: Box::new(Page::Empty) }),
        rest: Box::new(Page::Empty),
    }
}

/// The text of a page that is one element around a text is what the edit of the element makes of
/// the text.
pub proof fn law_one_element(
    base: Seq<char>,
    rule: RuleModel,
    attributes: Seq<(Seq<char>, Seq<char>)>,
    text: Seq<char>,
)
    ensures
        rendered(base, around(rule, attributes, text)) == marked(
            edited_element(rule, base, attributes),
            text,
        ),
{
    reveal_with_fuel(rendered, 3);
    let none = Seq::<char>::empty();
    assert(text + none =~= text);
    let out = marked(edited_element(rule, base, attributes), text);
    assert(out + none =~= out);
}

/// What stands in the place of an element: nothing, for one that goes whole, but a line break, a
/// horizontal line, or the image that it is; its content between brackets, for a link that leads
/// out of the page, with its address in parentheses; and its content, for any other, between the
/// two texts of its rule. What follows the element follows.
#[verifier::rlimit(40)]
pub proof fn law_element(
    base: Seq<char>,
    rule: RuleModel,
    attributes: Seq<(Seq<char>, Seq<char>)>,
    slash: bool,
    content: Page,
    rest: Page,
)
    requires
        page_rules().contains(rule),
    ensures
        ({
            let out = rendered(
                base,
                Page::Element {
                    rule,
                    attributes,
                    slash,
                    content: Box::new(content),
                    rest: Box::new(rest),
                },
            );
            let inner = rendered(base, content);
            let behind = rendered(base, rest);
            let value = |name: Seq<char>|
                if first_value(attributes, name) is Some {
                    first_value(attributes, name)->0
                } else {
                    Seq::empty()
                };
            let href = value("href"@);
            let src = value("src"@);
            let alt = value("alt"@);
            if rule.tag == "a"@ {
                if href.len() == 0 || href[0] == '#' {
                    out == inner + behind
                } else {
                    out == escaped("["@) + inner + escaped("]("@ + resolved(base, href) + ")"@)
                        + behind
                }
            } else if rule.tag == "img"@ {
                if src.len() == 0 {
                    out == behind
                } else {
                    out == escaped("!["@ + alt + "]("@ + resolved(base, src) + ")"@) + behind
                }
            } else if rule.tag == "br"@ {
                out == escaped("\n"@) + behind
            } else if rule.tag == "hr"@ {
                out == escaped("\n\n---\n\n"@) + behind
            } else if goes_whole(rule.tag) {
                out == behind
            } else {
                out == escaped(rule.before) + inner + escaped(rule.after) + behind
            }
        }),
{
    law_rules(rule);
    lemma_tags();
    reveal_strlit("");
    let none = Seq::<char>::empty();
    assert(""@ =~= none);
    assert(escaped(""@) =~= none);
    let page = Page::Element {
        rule,
        attributes,
        slash,
        content: Box::new(content),
        rest: Box::new(rest),
    };
    let out = rendered(base, page);
    let inner = rendered(base, content);
    let behind = rendered(base, rest);
    let edit = edited_element(rule, base, attributes);
    assert(out == marked(edit, inner) + behind);
    assert(none + behind =~= behind);
    assert(none + inner + none =~= inner);
    if !edit.keeps_content {
        assert(escaped(edit.before) + none + escaped(edit.after) =~= escaped(edit.before)
            + escaped(edit.after));
        assert(escaped(edit.before) + none =~= escaped(edit.before));
    }
}

/// Whether the texts of a page are plain, and no comment, declaration or tag that stays holds the
/// sign that ends a tag.
pub open spec fn simple(page: Page) -> bool
    decreases page,
{
    match page {
        Page::Empty => true,
        Page::Text { text, rest } => plain(text) && simple(*rest),
        Page::Comment { text, rest } | Page::Declaration { text, rest } => !text.contains('>')
            && simple(*rest),
        Page::Element { content, rest, .. } => simple(*content) && simple(*rest),
        Page::Other { tag, attributes, content, rest, .. } => !tag.contains('>')
            && !attributes_html(attributes).contains('>') && simple(*content) && simple(*rest),
    }
}

/// What is seen of a page at `base`: its texts, between what the rules put around the elements
/// that they stand in; of comments, declarations and tags nothing.
pub open spec fn seen(base: Seq<char>, page: Page) -> Seq<char>
    decreases page,
{
    match page {
        Page::Empty => Seq::empty(),
        Page::Text { text, rest } => text + seen(base, *rest),
        Page::Comment { rest, .. } | Page::Declaration { rest, .. } => seen(base, *rest),
        Page::Element { rule, attributes, content, rest, .. } => {
            let edit = edited_element(rule, base, attributes);
            edit.before + (if edit.keeps_content {
                seen(base, *content)
            } else {
                Seq::empty()
            }) + edit.after + seen(base, *rest)
        },
        Page::Other { tag, slash, content, rest, .. } => (if slash || void_tag(tag) {
            Seq::empty()
        } else {
            seen(base, *content)
        }) + seen(base, *rest),
    }
}

/// The tags of a page are stripped, and its texts stay, with what the rules put around them.
#[verifier::rlimit(40)]
pub proof fn law_page_is_seen(base: Seq<char>, page: Page, behind: Seq<char>)
    requires
        simple(page),
    ensures
        stripped(rendered(base, page) + behind) == seen(base, page) + stripped(behind),
    decreases page,
{
    match page {
        Page::Empty => {
            assert(rendered(base, page) + behind =~= behind);
            assert(seen(base, page) + stripped(behind) =~= stripped(behind));
        },
        Page::Text { text, rest } => {
            law_page_is_seen(base, *rest, behind);
            law_plain_text_stays(text, rendered(base, *rest) + behind);
            lemma_behind(text, rendered(base, *rest), behind);
            lemma_behind(text, seen(base, *rest), stripped(behind));
        },
        Page::Comment { text, rest } => {
            law_page_is_seen(base, *rest, behind);
            lemma_comment_is_stripped(text, rendered(base, *rest) + behind);
            lemma_behind(comment_html(text), rendered(base, *rest), behind);
        },
        Page::Declaration { text, rest } => {
            law_page_is_seen(base, *rest, behind);
            lemma_declaration_is_stripped(text, rendered(base, *rest) + behind);
            lemma_behind(declaration_html(text), rendered(base, *rest), behind);
        },
        Page::Element { rule, attributes, content, rest, .. } => {
            let edit = edited_element(rule, base, attributes);
            let tail = rendered(base, *rest) + behind;
            let inner = rendered(base, *content);
            let kept = if edit.keeps_content {
                seen(base, *content)
            } else {
                Seq::empty()
            };
            law_page_is_seen(base, *rest, behind);
            law_page_is_seen(base, *content, escaped(edit.after) + tail);
            lemma_marked_is_seen(edit, inner, seen(base, *content), tail);
            lemma_behind(marked(edit, inner), rendered(base, *rest), behind);
            lemma_behind(edit.before + kept + edit.after, seen(base, *rest), stripped(behind));
        },
        Page::Other { tag, attributes, slash, content, rest } => {
            let tail = rendered(base, *rest) + behind;
            let inner = rendered(base, *content);
            let kept = if slash || void_tag(tag) {
                Seq::empty()
            } else {
                seen(base, *content)
            };
            law_page_is_seen(base, *rest, behind);
            law_page_is_seen(base, *content, end_tag(tag) + tail);
            lemma_tags_are_stripped(tag, attributes, slash, inner, tail);
            lemma_behind(element_html(tag, attributes, slash, inner), rendered(base, *rest), behind);
            lemma_behind(kept, seen(base, *rest), stripped(behind));
            assert(Seq::empty() + stripped(tail) =~= stripped(tail));
        },
    }
}

/// What stands behind two texts stands behind the second.
proof fn lemma_behind(a: Seq<char>, b: Seq<char>, c: Seq<char>)
    ensures
        a + b + c == a + (b + c),
{
    assert(a + b + c =~= a + (b + c));
}

/// A comment is stripped.
proof fn lemma_comment_is_stripped(text: Seq<char>, tail: Seq<char>)
    requires
        !text.contains('>'),
    ensures
        stripped(comment_html(text) + tail) == stripped(tail),
{
    reveal_strlit("<!--");
    reveal_strlit("-->");
    let tag = seq!['!', '-', '-'] + text + seq!['-', '-'];
    lemma_no_end(seq!['!', '-', '-'], text, seq!['-', '-']);
    law_tag_vanishes(tag, tail);
    assert(comment_html(text) + tail =~= seq!['<'] + tag + seq!['>'] + tail);
}

/// A declaration is stripped.
proof fn lemma_declaration_is_stripped(text: Seq<char>, tail: Seq<char>)
    requires
        !text.contains('>'),
    ensures
        stripped(declaration_html(text) + tail) == stripped(tail),
{
    reveal_strlit("<!");
    reveal_strlit(">");
    let none = Seq::<char>::empty();
    let tag = seq!['!'] + text + none;
    lemma_no_end(seq!['!'], text, none);
    law_tag_vanishes(tag, tail);
    assert(declaration_html(text) + tail =~= seq!['<'] + tag + seq!['>'] + tail);
}

/// What is seen of an element is seen between the texts of its edit.
proof fn lemma_marked_is_seen(
    edit: EditModel,
    inner: Seq<char>,
    shown: Seq<char>,
    tail: Seq<char>,
)
    requires
        stripped(inner + (escaped(edit.after) + tail)) == shown + stripped(
            escaped(edit.after) + tail,
        ),
    ensures
        stripped(marked(edit, inner) + tail) == edit.before + (if edit.keeps_content {
            shown
        } else {
            Seq::empty()
        }) + edit.after + stripped(tail),
{
    let after = escaped(edit.after) + tail;
    let none = Seq::<char>::empty();
    law_escaped_text_is_decoded(edit.after, tail);
    if edit.keeps_content {
        law_escaped_text_is_decoded(edit.before, inner + after);
        assert(marked(edit, inner) + tail =~= escaped(edit.before) + (inner + after));
        assert(edit.before + (shown + (edit.after + stripped(tail))) =~= edit.before + shown
            + edit.after + stripped(tail));
    } else {
        law_escaped_text_is_decoded(edit.before, after);
        assert(marked(edit, inner) + tail =~= escaped(edit.before) + after);
        assert(edit.before + (edit.after + stripped(tail)) =~= edit.before + none + edit.after
            + stripped(tail));
    }
}

/// The end tag of an element.
spec fn end_tag(tag: Seq<char>) -> Seq<char> {
    "</"@ + tag + ">"@
}

/// The tags of an element that no rule names are stripped.
proof fn lemma_tags_are_stripped(
    tag: Seq<char>,
    attributes: Seq<(Seq<char>, Seq<char>)>,
    slash: bool,
    inner: Seq<char>,
    tail: Seq<char>,
)
    requires
        !tag.contains('>'),
        !attributes_html(attributes).contains('>'),
    ensures
        slash || void_tag(tag) ==> stripped(element_html(tag, attributes, slash, inner) + tail)
            == stripped(tail),
        !slash && !void_tag(tag) ==> stripped(element_html(tag, attributes, slash, inner) + tail)
            == stripped(inner + (end_tag(tag) + tail)),
        stripped(end_tag(tag) + tail) == stripped(tail),
{
    reveal_strlit("<");
    reveal_strlit("</");
    reveal_strlit(">");
    reveal_strlit(" /");
    let none = Seq::<char>::empty();
    let names = attributes_html(attributes);
    let end = if slash {
        " /"@
    } else {
        none
    };
    let start = tag + names + end;
    lemma_no_end(tag, names, end);
    let close = seq!['/'] + tag + none;
    lemma_no_end(seq!['/'], tag, none);
    law_tag_vanishes(close, tail);
    assert(end_tag(tag) + tail =~= seq!['<'] + close + seq!['>'] + tail);
    let whole = element_html(tag, attributes, slash, inner) + tail;
    if slash || void_tag(tag) {
        law_tag_vanishes(start, tail);
        assert(whole =~= seq!['<'] + start + seq!['>'] + tail);
    } else {
        let more = inner + (end_tag(tag) + tail);
        law_tag_vanishes(start, more);
        assert(whole =~= seq!['<'] + start + seq!['>'] + more);
    }
}

/// Three texts without the sign that ends a tag hold none together.
proof fn lemma_no_end(a: Seq<char>, b: Seq<char>, c: Seq<char>)
    requires
        !a.contains('>') && !b.contains('>') && !c.contains('>'),
    ensures
        !(a + b + c).contains('>'),
{
    let all = a + b + c;
    if all.contains('>') {
        let i = choose|i: int| 0 <= i < all.len() && all[i] == '>';
        if i < a.len() {
            assert(a[i] == '>');
        } else if i < a.len() + b.len() {
            assert(b[i - a.len()] == '>');
        } else {
            assert(c[i - a.len() - b.len()] == '>');
        }
    }
}

/// Whether all elements of a page have rules.
pub open spec fn ruled(page: Page) -> bool
    decreases page,
{
    match page {
        Page::Empty => true,
        Page::Text { rest, .. } | Page::Comment { rest, .. } | Page::Declaration { rest, .. } =>
            ruled(*rest),
        Page::Element { rule, content, rest, .. } => page_rules().contains(rule) && ruled(*content)
            && ruled(*rest),
        Page::Other { content, rest, .. } => ruled(*content) && ruled(*rest),
    }
}

/// Whether a text stands in a page, and in no element of it that goes whole.
pub open spec fn holds_text(page: Page, t: Seq<char>) -> bool
    decreases page,
{
    match page {
        Page::Empty => false,
        Page::Text { text, rest } => text == t || holds_text(*rest, t),
        Page::Comment { rest, .. } | Page::Declaration { rest, .. } => holds_text(*rest, t),
        Page::Element { rule, content, rest, .. } => !goes_whole(rule.tag) && holds_text(
            *content,
            t,
        ) || holds_text(*rest, t),
        Page::Other { tag, slash, content, rest, .. } => !slash && !void_tag(tag) && holds_text(
            *content,
            t,
        ) || holds_text(*rest, t),
    }
}

/// Every text of a page is seen, as it is, unless it stands in an element that goes whole.
#[verifier::rlimit(40)]
pub proof fn law_text_is_seen(base: Seq<char>, page: Page, t: Seq<char>)
    requires
        ruled(page),
        holds_text(page, t),
    ensures
        exists|a: Seq<char>, b: Seq<char>| seen(base, page) == #[trigger] (a + t + b),
    decreases page,
{
    let none = Seq::<char>::empty();
    match page {
        Page::Empty => {},
        Page::Text { text, rest } => {
            if text == t {
                assert(seen(base, page) =~= none + t + seen(base, *rest));
            } else {
                law_text_is_seen(base, *rest, t);
                lemma_part_of_more(text, seen(base, *rest), none, t);
                assert(text + seen(base, *rest) + none =~= seen(base, page));
            }
        },
        Page::Comment { rest, .. } | Page::Declaration { rest, .. } => {
            law_text_is_seen(base, *rest, t);
        },
        Page::Element { rule, attributes, content, rest, .. } => {
            let edit = edited_element(rule, base, attributes);
            law_rules(rule);
            lemma_tags();
            if holds_text(*rest, t) {
                law_text_is_seen(base, *rest, t);
                let before = edit.before + (if edit.keeps_content {
                    seen(base, *content)
                } else {
                    none
                }) + edit.after;
                lemma_part_of_more(before, seen(base, *rest), none, t);
                assert(before + seen(base, *rest) + none =~= seen(base, page));
            } else {
                law_text_is_seen(base, *content, t);
                let after = edit.after + seen(base, *rest);
                assert(edit.keeps_content);
                lemma_part_of_more(edit.before, seen(base, *content), after, t);
                assert(edit.before + seen(base, *content) + after =~= seen(base, page));
            }
        },
        Page::Other { tag, slash, content, rest, .. } => {
            if holds_text(*rest, t) {
                law_text_is_seen(base, *rest, t);
                let before = if slash || void_tag(tag) {
                    none
                } else {
                    seen(base, *content)
                };
                lemma_part_of_more(before, seen(base, *rest), none, t);
                assert(before + seen(base, *rest) + none =~= seen(base, page));
            } else {
                law_text_is_seen(base, *content, t);
                lemma_part_of_more(none, seen(base, *content), seen(base, *rest), t);
                assert(none + seen(base, *content) + seen(base, *rest) =~= seen(base, page));
            }
        },
    }
}

/// A part of a text is a part of more text.
proof fn lemma_part_of_more(before: Seq<char>, s: Seq<char>, after: Seq<char>, t: Seq<char>)
    requires
        exists|a: Seq<char>, b: Seq<char>| s == #[trigger] (a + t + b),
    ensures
        exists|a: Seq<char>, b: Seq<char>| before + s + after == #[trigger] (a + t + b),
{
    let (a, b) = choose|a: Seq<char>, b: Seq<char>| s == #[trigger] (a + t + b);
    let (x, y) = (before + a, b + after);
    assert(before + s + after =~= x + t + y);
}

/// The Markdown of a page with plain texts is what is seen of it, with its block links flattened
/// and its lines normalized.
pub proof fn law_markdown_of_page(base: Seq<char>, page: Page)
    requires
        simple(page),
    ensures
        post_processed(rendered(base, page)) == normalized_lines(flattened(seen(base, page))),
{
    let none = Seq::<char>::empty();
    law_page_is_seen(base, page, none);
    assert(rendered(base, page) + none =~= rendered(base, page));
    assert(seen(base, page) + stripped(none) =~= seen(base, page));
}

/// Whether the elements with a rule are noise: they go with all that is in them, and nothing
/// takes their place.
pub open spec fn noise(rule: RuleModel) -> bool {
    rule == removed_with(rule.tag, ""@) && rule.tag != "a"@ && rule.tag != "img"@
}

/// A page without the elements that are noise.
pub open spec fn without_noise(page: Page) -> Page
    decreases page,
{
    match page {
        Page::Empty => Page::Empty,
        Page::Text { text, rest } => Page::Text { text, rest: Box::new(without_noise(*rest)) },
        Page::Comment { text, rest } => Page::Comment {
            text,
            rest: Box::new(without_noise(*rest)),
        },
        Page::Declaration { text, rest } => Page::Declaration {
            text,
            rest: Box::new(without_noise(*rest)),
        },
        Page::Element { rule, attributes, slash, content, rest } => if noise(rule) {
            without_noise(*rest)
        } else {
            Page::Element {
                rule,
                attributes,
                slash,
                content: Box::new(without_noise(*content)),
                rest: Box::new(without_noise(*rest)),
            }
        },
        Page::Other { tag, attributes, slash, content, rest } => Page::Other {
            tag,
            attributes,
            slash,
            content: Box::new(without_noise(*content)),
            rest: Box::new(without_noise(*rest)),
        },
    }
}

/// Noise leaves no trace: a page without it is well formed where the page is, and comes out the
/// same.
pub proof fn law_noise_leaves_no_trace(base: Seq<char>, page: Page)
    ensures
        rendered(base, without_noise(page)) == rendered(base, page),
        well_formed(page) ==> well_formed(without_noise(page)),
    decreases page,
{
    match page {
        Page::Empty => {},
        Page::Text { rest, .. } | Page::Comment { rest, .. } | Page::Declaration { rest, .. } => {
            law_noise_leaves_no_trace(base, *rest);
        },
        Page::Element { rule, attributes, content, rest, .. } => {
            law_noise_leaves_no_trace(base, *content);
            law_noise_leaves_no_trace(base, *rest);
            if noise(rule) {
                let edit = edited_element(rule, base, attributes);
                reveal_strlit("");
                assert(marked(edit, rendered(base, *content)) =~= Seq::empty());
                assert(rendered(base, page) =~= rendered(base, *rest));
            } else if well_formed(page) {
                lemma_content_without_noise(rule.tag, *content);
            }
        },
        Page::Other { tag, content, rest, .. } => {
            law_noise_leaves_no_trace(base, *content);
            law_noise_leaves_no_trace(base, *rest);
            if well_formed(page) {
                lemma_content_without_noise(tag, *content);
            }
        },
    }
}

/// Removing noise leaves the text of an element and the content of a drawing as they are, and
/// leaves what may stand in a `select` element.
proof fn lemma_content_without_noise(tag: Seq<char>, content: Page)
    ensures
        raw_content(tag, content) ==> without_noise(content) == content,
        drawn(content) ==> without_noise(content) == content,
        optional(content) ==> optional(without_noise(content)),
    decreases content,
{
    match content {
        Page::Empty => {},
        Page::Text { rest, .. } | Page::Comment { rest, .. } | Page::Declaration { rest, .. } => {
            lemma_content_without_noise(tag, *rest);
        },
        Page::Element { content: inner, rest, .. } | Page::Other { content: inner, rest, .. } => {
            lemma_content_without_noise(tag, *inner);
            lemma_content_without_noise(tag, *rest);
        },
    }
}

/// How the tags of the rules are written, letter by letter.
proof fn lemma_tags()
    ensures
        "script"@.len() == 6,
        "script"@[0] == 's' && "script"@[1] == 'c' && "script"@[2] == 'r' && "script"@[3] == 'i'
            && "script"@[4] == 'p' && "script"@[5] == 't',
        "style"@.len() == 5,
        "style"@[0] == 's' && "style"@[1] == 't' && "style"@[2] == 'y' && "style"@[3] == 'l'
            && "style"@[4] == 'e',
        "head"@.len() == 4,
        "head"@[0] == 'h' && "head"@[1] == 'e' && "head"@[2] == 'a' && "head"@[3] == 'd',
        "nav"@.len() == 3,
        "nav"@[0] == 'n' && "nav"@[1] == 'a' && "nav"@[2] == 'v',
        "footer"@.len() == 6,
        "footer"@[0] == 'f' && "footer"@[1] == 'o' && "footer"@[2] == 'o' && "footer"@[3] == 't'
            && "footer"@[4] == 'e' && "footer"@[5] == 'r',
        "iframe"@.len() == 6,
        "iframe"@[0] == 'i' && "iframe"@[1] == 'f' && "iframe"@[2] == 'r' && "iframe"@[3] == 'a'
            && "iframe"@[4] == 'm' && "iframe"@[5] == 'e',
        "noscript"@.len() == 8,
        "noscript"@[0] == 'n' && "noscript"@[1] == 'o' && "noscript"@[2] == 's'
            && "noscript"@[3] == 'c' && "noscript"@[4] == 'r' && "noscript"@[5] == 'i'
            && "noscript"@[6] == 'p' && "noscript"@[7] == 't',
        "svg"@.len() == 3,
        "svg"@[0] == 's' && "svg"@[1] == 'v' && "svg"@[2] == 'g',
        "input"@.len() == 5,
        "input"@[0] == 'i' && "input"@[1] == 'n' && "input"@[2] == 'p' && "input"@[3] == 'u'
            && "input"@[4] == 't',
        "select"@.len() == 6,
        "select"@[0] == 's' && "select"@[1] == 'e' && "select"@[2] == 'l' && "select"@[3] == 'e'
            && "select"@[4] == 'c' && "select"@[5] == 't',
        "textarea"@.len() == 8,
        "textarea"@[0] == 't' && "textarea"@[1] == 'e' && "textarea"@[2] == 'x'
            && "textarea"@[3] == 't' && "textarea"@[4] == 'a' && "textarea"@[5] == 'r'
            && "textarea"@[6] == 'e' && "textarea"@[7] == 'a',
        "button"@.len() == 6,
        "button"@[0] == 'b' && "button"@[1] == 'u' && "button"@[2] == 't' && "button"@[3] == 't'
            && "button"@[4] == 'o' && "button"@[5] == 'n',
        "h1"@.len() == 2,
        "h1"@[0] == 'h' && "h1"@[1] == '1',
        "h2"@.len() == 2,
        "h2"@[0] == 'h' && "h2"@[1] == '2',
        "h3"@.len() == 2,
        "h3"@[0] == 'h' && "h3"@[1] == '3',
        "h4"@.len() == 2,
        "h4"@[0] == 'h' && "h4"@[1] == '4',
        "h5"@.len() == 2,
        "h5"@[0] == 'h' && "h5"@[1] == '5',
        "h6"@.len() == 2,
        "h6"@[0] == 'h' && "h6"@[1] == '6',
        "p"@.len() == 1,
        "p"@[0] == 'p',
        "blockquote"@.len() == 10,
        "blockquote"@[0] == 'b' && "blockquote"@[1] == 'l' && "blockquote"@[2] == 'o'
            && "blockquote"@[3] == 'c' && "blockquote"@[4] == 'k' && "blockquote"@[5] == 'q'
            && "blockquote"@[6] == 'u' && "blockquote"@[7] == 'o' && "blockquote"@[8] == 't'
            && "blockquote"@[9] == 'e',
        "pre"@.len() == 3,
        "pre"@[0] == 'p' && "pre"@[1] == 'r' && "pre"@[2] == 'e',
        "ul"@.len() == 2,
        "ul"@[0] == 'u' && "ul"@[1] == 'l',
        "ol"@.len() == 2,
        "ol"@[0] == 'o' && "ol"@[1] == 'l',
        "li"@.len() == 2,
        "li"@[0] == 'l' && "li"@[1] == 'i',
        "strong"@.len() == 6,
        "strong"@[0] == 's' && "strong"@[1] == 't' && "strong"@[2] == 'r' && "strong"@[3] == 'o'
            && "strong"@[4] == 'n' && "strong"@[5] == 'g',
        "b"@.len() == 1,
        "b"@[0] == 'b',
        "em"@.len() == 2,
        "em"@[0] == 'e' && "em"@[1] == 'm',
        "i"@.len() == 1,
        "i"@[0] == 'i',
        "code"@.len() == 4,
        "code"@[0] == 'c' && "code"@[1] == 'o' && "code"@[2] == 'd' && "code"@[3] == 'e',
        "a"@.len() == 1,
        "a"@[0] == 'a',
        "img"@.len() == 3,
        "img"@[0] == 'i' && "img"@[1] == 'm' && "img"@[2] == 'g',
        "br"@.len() == 2,
        "br"@[0] == 'b' && "br"@[1] == 'r',
        "hr"@.len() == 2,
        "hr"@[0] == 'h' && "hr"@[1] == 'r',
        "table"@.len() == 5,
        "table"@[0] == 't' && "table"@[1] == 'a' && "table"@[2] == 'b' && "table"@[3] == 'l'
            && "table"@[4] == 'e',
        "tr"@.len() == 2,
        "tr"@[0] == 't' && "tr"@[1] == 'r',
        "th"@.len() == 2,
        "th"@[0] == 't' && "th"@[1] == 'h',
        "td"@.len() == 2,
        "td"@[0] == 't' && "td"@[1] == 'd',
        "thead"@.len() == 5,
        "thead"@[0] == 't' && "thead"@[1] == 'h' && "thead"@[2] == 'e' && "thead"@[3] == 'a'
            && "thead"@[4] == 'd',
        "tbody"@.len() == 5,
        "tbody"@[0] == 't' && "tbody"@[1] == 'b' && "tbody"@[2] == 'o' && "tbody"@[3] == 'd'
            && "tbody"@[4] == 'y',
        "tfoot"@.len() == 5,
        "tfoot"@[0] == 't' && "tfoot"@[1] == 'f' && "tfoot"@[2] == 'o' && "tfoot"@[3] == 'o'
            && "tfoot"@[4] == 't',
        "dl"@.len() == 2,
        "dl"@[0] == 'd' && "dl"@[1] == 'l',
        "dt"@.len() == 2,
        "dt"@[0] == 'd' && "dt"@[1] == 't',
        "dd"@.len() == 2,
        "dd"@[0] == 'd' && "dd"@[1] == 'd',
        "figure"@.len() == 6,
        "figure"@[0] == 'f' && "figure"@[1] == 'i' && "figure"@[2] == 'g' && "figure"@[3] == 'u'
            && "figure"@[4] == 'r' && "figure"@[5] == 'e',
        "figcaption"@.len() == 10,
        "figcaption"@[0] == 'f' && "figcaption"@[1] == 'i' && "figcaption"@[2] == 'g'
            && "figcaption"@[3] == 'c' && "figcaption"@[4] == 'a' && "figcaption"@[5] == 'p'
            && "figcaption"@[6] == 't' && "figcaption"@[7] == 'i' && "figcaption"@[8] == 'o'
            && "figcaption"@[9] == 'n',
        "html"@.len() == 4,
        "html"@[0] == 'h' && "html"@[1] == 't' && "html"@[2] == 'm' && "html"@[3] == 'l',
        "body"@.len() == 4,
        "body"@[0] == 'b' && "body"@[1] == 'o' && "body"@[2] == 'd' && "body"@[3] == 'y',
        "main"@.len() == 4,
        "main"@[0] == 'm' && "main"@[1] == 'a' && "main"@[2] == 'i' && "main"@[3] == 'n',
        "header"@.len() == 6,
        "header"@[0] == 'h' && "header"@[1] == 'e' && "header"@[2] == 'a' && "header"@[3] == 'd'
            && "header"@[4] == 'e' && "header"@[5] == 'r',
        "aside"@.len() == 5,
        "aside"@[0] == 'a' && "aside"@[1] == 's' && "aside"@[2] == 'i' && "aside"@[3] == 'd'
            && "aside"@[4] == 'e',
        "span"@.len() == 4,
        "span"@[0] == 's' && "span"@[1] == 'p' && "span"@[2] == 'a' && "span"@[3] == 'n',
        "label"@.len() == 5,
        "label"@[0] == 'l' && "label"@[1] == 'a' && "label"@[2] == 'b' && "label"@[3] == 'e'
            && "label"@[4] == 'l',
        "form"@.len() == 4,
        "form"@[0] == 'f' && "form"@[1] == 'o' && "form"@[2] == 'r' && "form"@[3] == 'm',
        "fieldset"@.len() == 8,
        "fieldset"@[0] == 'f' && "fieldset"@[1] == 'i' && "fieldset"@[2] == 'e'
            && "fieldset"@[3] == 'l' && "fieldset"@[4] == 'd' && "fieldset"@[5] == 's'
            && "fieldset"@[6] == 'e' && "fieldset"@[7] == 't',
        "div"@.len() == 3,
        "div"@[0] == 'd' && "div"@[1] == 'i' && "div"@[2] == 'v',
        "section"@.len() == 7,
        "section"@[0] == 's' && "section"@[1] == 'e' && "section"@[2] == 'c'
            && "section"@[3] == 't' && "section"@[4] == 'i' && "section"@[5] == 'o'
            && "section"@[6] == 'n',
        "article"@.len() == 7,
        "article"@[0] == 'a' && "article"@[1] == 'r' && "article"@[2] == 't'
            && "article"@[3] == 'i' && "article"@[4] == 'c' && "article"@[5] == 'l'
            && "article"@[6] == 'e',
{
    reveal_strlit("script");
    reveal_strlit("style");
    reveal_strlit("head");
    reveal_strlit("nav");
    reveal_strlit("footer");
    reveal_strlit("iframe");
    reveal_strlit("noscript");
    reveal_strlit("svg");
    reveal_strlit("input");
    reveal_strlit("select");
    reveal_strlit("textarea");
    reveal_strlit("button");
    reveal_strlit("h1");
    reveal_strlit("h2");
    reveal_strlit("h3");
    reveal_strlit("h4");
    reveal_strlit("h5");
    reveal_strlit("h6");
    reveal_strlit("p");
    reveal_strlit("blockquote");
    reveal_strlit("pre");
    reveal_strlit("ul");
    reveal_strlit("ol");
    reveal_strlit("li");
    reveal_strlit("strong");
    reveal_strlit("b");
    reveal_strlit("em");
    reveal_strlit("i");
    reveal_strlit("code");
    reveal_strlit("a");
    reveal_strlit("img");
    reveal_strlit("br");
    reveal_strlit("hr");
    reveal_strlit("table");
    reveal_strlit("tr");
    reveal_strlit("th");
    reveal_strlit("td");
    reveal_strlit("thead");
    reveal_strlit("tbody");
    reveal_strlit("tfoot");
    reveal_strlit("dl");
    reveal_strlit("dt");
    reveal_strlit("dd");
    reveal_strlit("figure");
    reveal_strlit("figcaption");
    reveal_strlit("html");
    reveal_strlit("body");
    reveal_strlit("main");
    reveal_strlit("header");
    reveal_strlit("aside");
    reveal_strlit("span");
    reveal_strlit("label");
    reveal_strlit("form");
    reveal_strlit("fieldset");
    reveal_strlit("div");
    reveal_strlit("section");
    reveal_strlit("article");
}

/// Whether an element with a tag goes with all that is in it: it is a script or a style, the head
/// of the page, its navigation or its footer, something that is not text, or a control of a form;
/// or it is an image, a line break or a horizontal line, which stand for themselves.
pub open spec fn goes_whole(tag: Seq<char>) -> bool {
    ||| tag == "script"@
    ||| tag == "style"@
    ||| tag == "head"@
    ||| tag == "nav"@
    ||| tag == "footer"@
    ||| tag == "iframe"@
    ||| tag == "noscript"@
    ||| tag == "svg"@
    ||| tag == "input"@
    ||| tag == "select"@
    ||| tag == "textarea"@
    ||| tag == "button"@
    ||| tag == "img"@
    ||| tag == "br"@
    ||| tag == "hr"@
}

/// The rules say of every element whether it is removed with its content, and what is put around
/// it. All content stays but that of scripts, styles, the head, navigation, footers, frames,
/// drawings, controls, images, line breaks and horizontal lines.
#[verifier::spinoff_prover]
#[verifier::rlimit(60)]
pub proof fn law_rules(rule: RuleModel)
    requires
        page_rules().contains(rule),
    ensures
        !rule.keeps_content <==> {
            ||| rule.tag == "script"@
            ||| rule.tag == "style"@
            ||| rule.tag == "head"@
            ||| rule.tag == "nav"@
            ||| rule.tag == "footer"@
            ||| rule.tag == "iframe"@
            ||| rule.tag == "noscript"@
            ||| rule.tag == "svg"@
            ||| rule.tag == "input"@
            ||| rule.tag == "select"@
            ||| rule.tag == "textarea"@
            ||| rule.tag == "button"@
            ||| rule.tag == "img"@
            ||| rule.tag == "br"@
            ||| rule.tag == "hr"@
        },
        (rule.tag == "script"@ || rule.tag == "style"@ || rule.tag == "head"@
            || rule.tag == "nav"@ || rule.tag == "footer"@ || rule.tag == "iframe"@
            || rule.tag == "noscript"@ || rule.tag == "svg"@ || rule.tag == "input"@
            || rule.tag == "select"@ || rule.tag == "textarea"@ || rule.tag == "button"@
            || rule.tag == "a"@ || rule.tag == "img"@ || rule.tag == "thead"@
            || rule.tag == "tbody"@ || rule.tag == "tfoot"@ || rule.tag == "html"@
            || rule.tag == "body"@ || rule.tag == "main"@ || rule.tag == "header"@
            || rule.tag == "aside"@ || rule.tag == "span"@ || rule.tag == "label"@
            || rule.tag == "form"@ || rule.tag == "fieldset"@)
            ==> rule.before == ""@ && rule.after == ""@,
        rule.tag == "h1"@ ==> rule.before == "\n\n# "@ && rule.after == "\n"@,
        rule.tag == "h2"@ ==> rule.before == "\n\n## "@ && rule.after == "\n"@,
        rule.tag == "h3"@ ==> rule.before == "\n\n### "@ && rule.after == "\n"@,
        rule.tag == "h4"@ ==> rule.before == "\n\n#### "@ && rule.after == "\n"@,
        rule.tag == "h5"@ ==> rule.before == "\n\n##### "@ && rule.after == "\n"@,
        rule.tag == "h6"@ ==> rule.before == "\n\n###### "@ && rule.after == "\n"@,
        (rule.tag == "p"@ || rule.tag == "table"@)
            ==> rule.before == "\n\n"@ && rule.after == "\n\n"@,
        rule.tag == "blockquote"@ ==> rule.before == "\n\n> "@ && rule.after == "\n\n"@,
        rule.tag == "pre"@ ==> rule.before == "\n\n```\n"@ && rule.after == "\n```\n\n"@,
        (rule.tag == "ul"@ || rule.tag == "ol"@) ==> rule.before == "\n"@ && rule.after == "\n"@,
        rule.tag == "li"@ ==> rule.before == "\n* "@ && rule.after == ""@,
        (rule.tag == "strong"@ || rule.tag == "b"@) ==> rule.before == "**"@ && rule.after == "**"@,
        (rule.tag == "em"@ || rule.tag == "i"@) ==> rule.before == "_"@ && rule.after == "_"@,
        rule.tag == "code"@ ==> rule.before == "`"@ && rule.after == "`"@,
        (rule.tag == "br"@ || rule.tag == "figure"@ || rule.tag == "div"@)
            ==> rule.before == "\n"@ && rule.after == ""@,
        rule.tag == "hr"@ ==> rule.before == "\n\n---\n\n"@ && rule.after == ""@,
        rule.tag == "tr"@ ==> rule.before == "\n"@ && rule.after == " |"@,
        rule.tag == "th"@ ==> rule.before == "| **"@ && rule.after == "** "@,
        rule.tag == "td"@ ==> rule.before == "| "@ && rule.after == " "@,
        (rule.tag == "dl"@ || rule.tag == "section"@ || rule.tag == "article"@)
            ==> rule.before == "\n\n"@ && rule.after == ""@,
        rule.tag == "dt"@ ==> rule.before == "\n**"@ && rule.after == "**"@,
        rule.tag == "dd"@ ==> rule.before == "\n: "@ && rule.after == ""@,
        rule.tag == "figcaption"@ ==> rule.before == "\n_"@ && rule.after == "_\n"@,
        rule.tag == "a"@ ==> rule.address == "href"@,
        rule.tag == "img"@ ==> rule.address == "src"@ && rule.label == "alt"@,
{
    lemma_tags();
    let k = choose|k: int| 0 <= k < page_rules().len() && page_rules()[k] == rule;
    if k == 0 {
        assert(rule == removed_with("script"@, ""@));
    } else if k == 1 {
        assert(rule == removed_with("style"@, ""@));
    } else if k == 2 {
        assert(rule == removed_with("head"@, ""@));
    } else if k == 3 {
        assert(rule == removed_with("nav"@, ""@));
    } else if k == 4 {
        assert(rule == removed_with("footer"@, ""@));
    } else if k == 5 {
        assert(rule == removed_with("iframe"@, ""@));
    } else if k == 6 {
        assert(rule == removed_with("noscript"@, ""@));
    } else if k == 7 {
        assert(rule == removed_with("svg"@, ""@));
    } else if k == 8 {
        assert(rule == removed_with("input"@, ""@));
    } else if k == 9 {
        assert(rule == removed_with("select"@, ""@));
    } else if k == 10 {
        assert(rule == removed_with("textarea"@, ""@));
    } else if k == 11 {
        assert(rule == removed_with("button"@, ""@));
    } else if k == 12 {
        assert(rule == unwrapped("h1"@, "\n\n# "@, "\n"@));
    } else if k == 13 {
        assert(rule == unwrapped("h2"@, "\n\n## "@, "\n"@));
    } else if k == 14 {
        assert(rule == unwrapped("h3"@, "\n\n### "@, "\n"@));
    } else if k == 15 {
        assert(rule == unwrapped("h4"@, "\n\n#### "@, "\n"@));
    } else if k == 16 {
        assert(rule == unwrapped("h5"@, "\n\n##### "@, "\n"@));
    } else if k == 17 {
        assert(rule == unwrapped("h6"@, "\n\n###### "@, "\n"@));
    } else if k == 18 {
        assert(rule == unwrapped("p"@, "\n\n"@, "\n\n"@));
    } else if k == 19 {
        assert(rule == unwrapped("blockquote"@, "\n\n> "@, "\n\n"@));
    } else if k == 20 {
        assert(rule == unwrapped("pre"@, "\n\n```\n"@, "\n```\n\n"@));
    } else if k == 21 {
        assert(rule == unwrapped("ul"@, "\n"@, "\n"@));
    } else if k == 22 {
        assert(rule == unwrapped("ol"@, "\n"@, "\n"@));
    } else if k == 23 {
        assert(rule == unwrapped("li"@, "\n* "@, ""@));
    } else if k == 24 {
        assert(rule == unwrapped("strong"@, "**"@, "**"@));
    } else if k == 25 {
        assert(rule == unwrapped("b"@, "**"@, "**"@));
    } else if k == 26 {
        assert(rule == unwrapped("em"@, "_"@, "_"@));
    } else if k == 27 {
        assert(rule == unwrapped("i"@, "_"@, "_"@));
    } else if k == 28 {
        assert(rule == unwrapped("code"@, "`"@, "`"@));
    } else if k == 29 {
        assert(rule == unwrapped("a"@, ""@, ""@));
    } else if k == 30 {
        assert(rule == removed_with("img"@, ""@));
    } else if k == 31 {
        assert(rule == removed_with("br"@, "\n"@));
    } else if k == 32 {
        assert(rule == removed_with("hr"@, "\n\n---\n\n"@));
    } else if k == 33 {
        assert(rule == unwrapped("table"@, "\n\n"@, "\n\n"@));
    } else if k == 34 {
        assert(rule == unwrapped("tr"@, "\n"@, " |"@));
    } else if k == 35 {
        assert(rule == unwrapped("th"@, "| **"@, "** "@));
    } else if k == 36 {
        assert(rule == unwrapped("td"@, "| "@, " "@));
    } else if k == 37 {
        assert(rule == unwrapped("thead"@, ""@, ""@));
    } else if k == 38 {
        assert(rule == unwrapped("tbody"@, ""@, ""@));
    } else if k == 39 {
        assert(rule == unwrapped("tfoot"@, ""@, ""@));
    } else if k == 40 {
        assert(rule == unwrapped("dl"@, "\n\n"@, ""@));
    } else if k == 41 {
        assert(rule == unwrapped("dt"@, "\n**"@, "**"@));
    } else if k == 42 {
        assert(rule == unwrapped("dd"@, "\n: "@, ""@));
    } else if k == 43 {
        assert(rule == unwrapped("figure"@, "\n"@, ""@));
    } else if k == 44 {
        assert(rule == unwrapped("figcaption"@, "\n_"@, "_\n"@));
    } else if k == 45 {
        assert(rule == unwrapped("html"@, ""@, ""@));
    } else if k == 46 {
        assert(rule == unwrapped("body"@, ""@, ""@));
    } else if k == 47 {
        assert(rule == unwrapped("main"@, ""@, ""@));
    } else if k == 48 {
        assert(rule == unwrapped("header"@, ""@, ""@));
    } else if k == 49 {
        assert(rule == unwrapped("aside"@, ""@, ""@));
    } else if k == 50 {
        assert(rule == unwrapped("span"@, ""@, ""@));
    } else if k == 51 {
        assert(rule == unwrapped("label"@, ""@, ""@));
    } else if k == 52 {
        assert(rule == unwrapped("form"@, ""@, ""@));
    } else if k == 53 {
        assert(rule == unwrapped("fieldset"@, ""@, ""@));
    } else if k == 54 {
        assert(rule == unwrapped("div"@, "\n"@, ""@));
    } else if k == 55 {
        assert(rule == unwrapped("section"@, "\n\n"@, ""@));
    } else if k == 56 {
        assert(rule == unwrapped("article"@, "\n\n"@, ""@));
    }
}

/// Every element that has a place in Markdown, and every one that is noise, has a rule.
pub proof fn law_tags_with_rules()
    ensures
        page_rules().len() == 57,
        has_rule("script"@),
        has_rule("style"@),
        has_rule("head"@),
        has_rule("nav"@),
        has_rule("footer"@),
        has_rule("iframe"@),
        has_rule("noscript"@),
        has_rule("svg"@),
        has_rule("input"@),
        has_rule("select"@),
        has_rule("textarea"@),
        has_rule("button"@),
        has_rule("h1"@),
        has_rule("h2"@),
        has_rule("h3"@),
        has_rule("h4"@),
        has_rule("h5"@),
        has_rule("h6"@),
        has_rule("p"@),
        has_rule("blockquote"@),
        has_rule("pre"@),
        has_rule("ul"@),
        has_rule("ol"@),
        has_rule("li"@),
        has_rule("strong"@),
        has_rule("b"@),
        has_rule("em"@),
        has_rule("i"@),
        has_rule("code"@),
        has_rule("a"@),
        has_rule("img"@),
        has_rule("br"@),
        has_rule("hr"@),
        has_rule("table"@),
        has_rule("tr"@),
        has_rule("th"@),
        has_rule("td"@),
        has_rule("thead"@),
        has_rule("tbody"@),
        has_rule("tfoot"@),
        has_rule("dl"@),
        has_rule("dt"@),
        has_rule("dd"@),
        has_rule("figure"@),
        has_rule("figcaption"@),
        has_rule("html"@),
        has_rule("body"@),
        has_rule("main"@),
        has_rule("header"@),
        has_rule("aside"@),
        has_rule("span"@),
        has_rule("label"@),
        has_rule("form"@),
        has_rule("fieldset"@),
        has_rule("div"@),
        has_rule("section"@),
        has_rule("article"@),
{
    assert(page_rules().contains(page_rules()[0]) && page_rules()[0].tag == "script"@);
    assert(page_rules().contains(page_rules()[1]) && page_rules()[1].tag == "style"@);
    assert(page_rules().contains(page_rules()[2]) && page_rules()[2].tag == "head"@);
    assert(page_rules().contains(page_rules()[3]) && page_rules()[3].tag == "nav"@);
    assert(page_rules().contains(page_rules()[4]) && page_rules()[4].tag == "footer"@);
    assert(page_rules().contains(page_rules()[5]) && page_rules()[5].tag == "iframe"@);
    assert(page_rules().contains(page_rules()[6]) && page_rules()[6].tag == "noscript"@);
    assert(page_rules().contains(page_rules()[7]) && page_rules()[7].tag == "svg"@);
    assert(page_rules().contains(page_rules()[8]) && page_rules()[8].tag == "input"@);
    assert(page_rules().contains(page_rules()[9]) && page_rules()[9].tag == "select"@);
    assert(page_rules().contains(page_rules()[10]) && page_rules()[10].tag == "textarea"@);
    assert(page_rules().contains(page_rules()[11]) && page_rules()[11].tag == "button"@);
    assert(page_rules().contains(page_rules()[12]) && page_rules()[12].tag == "h1"@);
    assert(page_rules().contains(page_rules()[13]) && page_rules()[13].tag == "h2"@);
    assert(page_rules().contains(page_rules()[14]) && page_rules()[14].tag == "h3"@);
    assert(page_rules().contains(page_rules()[15]) && page_rules()[15].tag == "h4"@);
    assert(page_rules().contains(page_rules()[16]) && page_rules()[16].tag == "h5"@);
    assert(page_rules().contains(page_rules()[17]) && page_rules()[17].tag == "h6"@);
    assert(page_rules().contains(page_rules()[18]) && page_rules()[18].tag == "p"@);
    assert(page_rules().contains(page_rules()[19]) && page_rules()[19].tag == "blockquote"@);
    assert(page_rules().contains(page_rules()[20]) && page_rules()[20].tag == "pre"@);
    assert(page_rules().contains(page_rules()[21]) && page_rules()[21].tag == "ul"@);
    assert(page_rules().contains(page_rules()[22]) && page_rules()[22].tag == "ol"@);
    assert(page_rules().contains(page_rules()[23]) && page_rules()[23].tag == "li"@);
    assert(page_rules().contains(page_rules()[24]) && page_rules()[24].tag == "strong"@);
    assert(page_rules().contains(page_rules()[25]) && page_rules()[25].tag == "b"@);
    assert(page_rules().contains(page_rules()[26]) && page_rules()[26].tag == "em"@);
    assert(page_rules().contains(page_rules()[27]) && page_rules()[27].tag == "i"@);
    assert(page_rules().contains(page_rules()[28]) && page_rules()[28].tag == "code"@);
    assert(page_rules().contains(page_rules()[29]) && page_rules()[29].tag == "a"@);
    assert(page_rules().contains(page_rules()[30]) && page_rules()[30].tag == "img"@);
    assert(page_rules().contains(page_rules()[31]) && page_rules()[31].tag == "br"@);
    assert(page_rules().contains(page_rules()[32]) && page_rules()[32].tag == "hr"@);
    assert(page_rules().contains(page_rules()[33]) && page_rules()[33].tag == "table"@);
    assert(page_rules().contains(page_rules()[34]) && page_rules()[34].tag == "tr"@);
    assert(page_rules().contains(page_rules()[35]) && page_rules()[35].tag == "th"@);
    assert(page_rules().contains(page_rules()[36]) && page_rules()[36].tag == "td"@);
    assert(page_rules().contains(page_rules()[37]) && page_rules()[37].tag == "thead"@);
    assert(page_rules().contains(page_rules()[38]) && page_rules()[38].tag == "tbody"@);
    assert(page_rules().contains(page_rules()[39]) && page_rules()[39].tag == "tfoot"@);
    assert(page_rules().contains(page_rules()[40]) && page_rules()[40].tag == "dl"@);
    assert(page_rules().contains(page_rules()[41]) && page_rules()[41].tag == "dt"@);
    assert(page_rules().contains(page_rules()[42]) && page_rules()[42].tag == "dd"@);
    assert(page_rules().contains(page_rules()[43]) && page_rules()[43].tag == "figure"@);
    assert(page_rules().contains(page_rules()[44]) && page_rules()[44].tag == "figcaption"@);
    assert(page_rules().contains(page_rules()[45]) && page_rules()[45].tag == "html"@);
    assert(page_rules().contains(page_rules()[46]) && page_rules()[46].tag == "body"@);
    assert(page_rules().contains(page_rules()[47]) && page_rules()[47].tag == "main"@);
    assert(page_rules().contains(page_rules()[48]) && page_rules()[48].tag == "header"@);
    assert(page_rules().contains(page_rules()[49]) && page_rules()[49].tag == "aside"@);
    assert(page_rules().contains(page_rules()[50]) && page_rules()[50].tag == "span"@);
    assert(page_rules().contains(page_rules()[51]) && page_rules()[51].tag == "label"@);
    assert(page_rules().contains(page_rules()[52]) && page_rules()[52].tag == "form"@);
    assert(page_rules().contains(page_rules()[53]) && page_rules()[53].tag == "fieldset"@);
    assert(page_rules().contains(page_rules()[54]) && page_rules()[54].tag == "div"@);
    assert(page_rules().contains(page_rules()[55]) && page_rules()[55].tag == "section"@);
    assert(page_rules().contains(page_rules()[56]) && page_rules()[56].tag == "article"@);
}

/// The rules that keep no content, but for those of images, line breaks and horizontal lines,
/// are noise.
pub proof fn law_noise_rules(k: int)
    requires
        0 <= k < page_rules().len(),
        !page_rules()[k].keeps_content,
    ensures
        noise(page_rules()[k]) || page_rules()[k].tag == "img"@ || page_rules()[k].tag == "br"@
            || page_rules()[k].tag == "hr"@,
{
    reveal_strlit("a");
    reveal_strlit("img");
    reveal_strlit("script");
    reveal_strlit("style");
    reveal_strlit("head");
    reveal_strlit("nav");
    reveal_strlit("footer");
    reveal_strlit("iframe");
    reveal_strlit("noscript");
    reveal_strlit("svg");
    reveal_strlit("input");
    reveal_strlit("select");
    reveal_strlit("textarea");
    reveal_strlit("button");
    assert("nav"@[0] != "img"@[0]);
    assert("svg"@[0] != "img"@[0]);
}

/// A link with plain text on one line becomes a Markdown link to its address, made absolute; one
/// whose text spans lines becomes its text.
pub proof fn law_link_becomes_markdown(base: Seq<char>, href: Seq<char>, text: Seq<char>)
    requires
        href.len() > 0 && href[0] != '#',
        plain(text),
        balanced(text, resolved(base, href)),
    ensures
        post_processed(marked(linked(base, href), text)) == normalized_lines(
            if text.contains('\n') {
                text
            } else {
                link(text, resolved(base, href))
            },
        ),
{
    let edit = linked(base, href);
    let target = resolved(base, href);
    let none = Seq::<char>::empty();
    reveal_strlit("[");
    reveal_strlit("](");
    reveal_strlit(")");
    law_marked_text(edit, text);
    assert(edit.before + text + edit.after =~= none + link(text, target) + none);
    law_no_link(none);
    if text.contains('\n') {
        law_block_link_is_flattened(none, text, target, none);
        assert(none + text + flattened(none) =~= text);
    } else {
        law_link_stays(none, text, target, none);
        assert(none + link(text, target) + flattened(none) =~= link(text, target));
    }
}

/// An image becomes a Markdown image with its alternative text and its address, made absolute.
pub proof fn law_image_becomes_markdown(base: Seq<char>, src: Seq<char>, alt: Seq<char>)
    requires
        src.len() > 0,
        !alt.contains('['),
        !resolved(base, src).contains('['),
    ensures
        post_processed(marked(pictured(base, src, alt), Seq::empty())) == normalized_lines(
            seq!['!'] + link(alt, resolved(base, src)),
        ),
{
    let edit = pictured(base, src, alt);
    let target = resolved(base, src);
    let none = Seq::<char>::empty();
    reveal_strlit("![");
    reveal_strlit("](");
    reveal_strlit(")");
    law_marked_text(edit, none);
    let rest = alt + seq![']'] + seq!['('] + target + seq![')'];
    let whole = none + seq!['!'] + seq!['['] + rest;
    assert(edit.before + none + edit.after =~= whole);
    assert(whole =~= seq!['!'] + link(alt, target));
    assert(!rest.contains('[')) by {
        if rest.contains('[') {
            let i = choose|i: int| 0 <= i < rest.len() && rest[i] == '[';
            if i < alt.len() {
                assert(alt[i] == '[');
            } else if i >= alt.len() + 2 && i < rest.len() - 1 {
                assert(target[i - alt.len() - 2] == '[');
            }
        }
    }
    assert(rest[alt.len() as int] == ']');
    lemma_bracket_closes(rest, alt.len() as int);
    let bracketed = seq!['['] + rest;
    assert(bracketed.drop_first() =~= rest);
    law_no_link(rest);
    law_image_stays(none, rest);
}

/// A text with a closing bracket closes an open one, where it opens none itself.
proof fn lemma_bracket_closes(s: Seq<char>, k: int)
    requires
        0 <= k < s.len(),
        s[k] == ']',
        !s.contains('['),
    ensures
        closing(s, '[', ']', 1) is Some,
    decreases s.len(),
{
    assert(s.contains(s[0]));
    if s.first() != ']' {
        let t = s.drop_first();
        assert forall|c: char| t.contains(c) implies s.contains(c) by {
            let i = choose|i: int| 0 <= i < t.len() && t[i] == c;
            assert(s[i + 1] == c);
        }
        assert(t[k - 1] == ']');
        lemma_bracket_closes(t, k - 1);
    }
}

} // verus!
