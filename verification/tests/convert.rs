use blitzmd::convert::convert_url_to_markdown;
use blitzmd::convert::element_edit;
use blitzmd::convert::image_edit;
use blitzmd::convert::join_pieces;
use blitzmd::convert::link_edit;
use blitzmd::convert::rewrite_page;
use blitzmd::convert::tag_rules;
use blitzmd::convert::ConvertError;
use blitzmd::convert::Download;

const URL: &str = "https://example.com/docs/";

fn convert(download: Download) -> Result<String, String> {
    convert_url_to_markdown(URL, &download).map_err(|e| e.message())
}

fn page(html: &str) -> String {
    convert(Download::Complete(vec![html.as_bytes().to_vec()])).expect("markdown")
}

#[test]
fn headings_and_paragraphs() {
    assert_eq!(page("<h1>Title</h1><p>One &amp; two</p>"), "# Title\n\nOne & two");
    assert_eq!(page("<h2>a</h2><h3>b</h3><h4>c</h4><h5>d</h5><h6>e</h6>"), "## a\n\n### b\n\n#### c\n\n##### d\n\n###### e");
}

#[test]
fn emphasis_and_code() {
    assert_eq!(page("<b>a</b> <strong>b</strong> <i>c</i> <em>d</em> <code>e</code>"), "**a** **b** _c_ _d_ `e`");
    assert_eq!(page("<pre>x\n  y</pre>"), "```\nx\ny\n```");
    assert_eq!(page("<blockquote>q</blockquote>z"), "> q\n\nz");
}

#[test]
fn lists_and_tables() {
    assert_eq!(page("<ul><li>a</li><li>b</li></ul>"), "* a\n* b");
    assert_eq!(page("<ol><li>a<li>b</ol>c"), "* a\n* b\nc");
    assert_eq!(
        page("<table><thead><tr><th>h</th></tr></thead><tbody><tr><td>a</td><td>b</td></tr></tbody></table>"),
        "| **h**  |\n| a | b  |"
    );
    assert_eq!(page("<dl><dt>t</dt><dd>d</dd></dl>"), "**t**\n: d");
}

#[test]
fn links_and_images_are_resolved() {
    assert_eq!(page("<a href='a.html'>A</a>"), "[A](https://example.com/docs/a.html)");
    assert_eq!(page("<a href='//x.example/y'>A</a>"), "[A](https://x.example/y)");
    assert_eq!(page("<a href='#part'>A</a><a>B</a><a href=''>C</a>"), "ABC");
    assert_eq!(page("<img src='/i.png' alt='An image'>"), "![An image](https://example.com/i.png)");
    assert_eq!(page("<img src='/i.png'>"), "![](https://example.com/i.png)");
    assert_eq!(page("x<img alt='none'>y"), "xy");
    assert_eq!(page("<a href='/?a=1&b=2'>A</a>"), "[A](https://example.com/?a=1&b=2)");
}

#[test]
fn noise_is_removed() {
    assert_eq!(
        page(
            "<html><head><title>t</title></head><body><nav>n</nav><script>s</script><style>c</style>\
             <main>kept</main><svg><text>v</text></svg><iframe>f</iframe><noscript>o</noscript>\
             <form><label>l</label><input><select><option>p</option></select><textarea>a</textarea>\
             <button>b</button></form><footer>f</footer></body></html>"
        ),
        "keptl"
    );
}

#[test]
fn block_links_become_text() {
    assert_eq!(page("<a href='/card'><h2>Card</h2><p>Text</p></a>"), "## Card\n\nText");
}

#[test]
fn other_tags_leave_their_content() {
    assert_eq!(page("a<br>b<hr>c<custom-tag x=1>d</custom-tag><span>e</span>"), "a\nb\n\n---\n\ncde");
    assert_eq!(page("<section>a</section><article>b</article><div>c</div>"), "a\n\nb\nc");
    assert_eq!(page("<figure><img src='i'><figcaption>c</figcaption></figure>"), "![](https://example.com/docs/i)\n_c_");
    assert_eq!(page("1 &lt; 2 &amp;&amp; 3 > 2"), "1 < 2 && 3 > 2");
}

#[test]
fn text_without_tags_is_only_post_processed() {
    let text = " One  \n\n\n\ntwo > &amp; [a\nb](c) ";
    assert_eq!(page(text), "One\n\ntwo > & a\nb");
    let tidy = "One\n\ntwo three";
    assert_eq!(page(tidy), tidy);
    assert_eq!(rewrite_page(URL, &vec![text.as_bytes().to_vec()]).ok(), Some(text.to_string()));
}

#[test]
fn chunks_do_not_matter() {
    let html = "<h1>Tëst — title</h1><p>One <a href='x'>two</a></p><script>if (a < b) {}</script>";
    let whole = page(html);
    assert_eq!(whole, "# Tëst — title\n\nOne [two](https://example.com/docs/x)");
    for at in 0..html.len() {
        let (a, b) = html.as_bytes().split_at(at);
        if html.is_char_boundary(at) {
            assert_eq!(convert(Download::Complete(vec![a.to_vec(), b.to_vec()])), Ok(whole.clone()));
        }
    }
    assert_eq!(convert(Download::Complete(vec![])), Ok(String::new()));
}

#[test]
fn each_piece_is_decoded_by_itself() {
    assert_eq!(join_pieces(&vec![b"a".to_vec(), vec![0xc3, 0xa9], vec![0xff], vec![]]), "aé\u{fffd}");
    assert_eq!(join_pieces(&vec![vec![0xc3], vec![0xa9]]), "\u{fffd}\u{fffd}");
    assert_eq!(convert(Download::Complete(vec![vec![0x41, 0xff, 0x42]])), Ok("A\u{fffd}B".to_string()));
}

#[test]
fn every_failure_has_its_message() {
    assert_eq!(convert(Download::Unreachable), Err("Failed to fetch: https://example.com/docs/".to_string()));
    assert_eq!(convert(Download::Refused("404 Not Found".to_string())), Err("HTTP error: 404 Not Found".to_string()));
    assert_eq!(convert(Download::BrokenOff(vec![b"<p>a".to_vec()])), Err("Stream read error".to_string()));
    let ambiguous = b"<select><xmp><script>\"use strict\";</script></select>".to_vec();
    assert_eq!(convert(Download::Complete(vec![ambiguous.clone()])), Err("HTML parse error".to_string()));
    assert_eq!(convert(Download::BrokenOff(vec![ambiguous])), Err("HTML parse error".to_string()));
    let cause = lol_html::errors::RewritingError::ContentHandlerError("cause".into());
    assert_eq!(ConvertError::Finalization(cause).message(), "HTML finalization error");
}

#[test]
fn every_tag_has_one_rule() {
    let rules = tag_rules();
    assert_eq!(rules.len(), 57);
    for (i, rule) in rules.iter().enumerate() {
        assert!(rules[..i].iter().all(|r| r.tag != rule.tag), "{}", rule.tag);
    }
    for tag in ["script", "style", "head", "nav", "footer", "iframe", "noscript", "svg", "input", "select", "textarea", "button"] {
        let rule = rules.iter().find(|r| r.tag == tag).expect("a rule");
        assert!(!rule.keeps_content && rule.before.is_empty() && rule.after.is_empty());
    }
}

#[test]
fn edits_follow_the_rules() {
    let rules = tag_rules();
    let rule = |tag: &str| rules.iter().find(|r| r.tag == tag).expect("a rule");
    let edit = element_edit(rule("th"), URL, Some("ignored".to_string()), None);
    assert_eq!((edit.before.as_str(), edit.after.as_str(), edit.keeps_content), ("| **", "** ", true));
    let edit = element_edit(rule("a"), URL, Some("x".to_string()), None);
    assert_eq!((edit.before.as_str(), edit.after.as_str(), edit.keeps_content), ("[", "](https://example.com/docs/x)", true));
    let edit = element_edit(rule("a"), URL, None, None);
    assert_eq!((edit.before.as_str(), edit.after.as_str(), edit.keeps_content), ("", "", true));
    let edit = element_edit(rule("img"), URL, Some("i".to_string()), Some("t".to_string()));
    assert_eq!((edit.before.as_str(), edit.after.as_str(), edit.keeps_content), ("![t](https://example.com/docs/i)", "", false));
    assert_eq!(link_edit(URL, "#x").after, "");
    assert_eq!(image_edit(URL, "", "t").before, "");
    assert_eq!((rule("a").address, rule("img").address, rule("img").label), ("href", "src", "alt"));
}

fn escaped(text: &str) -> String {
    text.replace('&', "&amp;").replace('<', "&lt;").replace('>', "&gt;")
}

const VOID: [&str; 17] = [
    "input", "img", "br", "hr", "area", "base", "basefont", "bgsound", "col", "embed", "keygen", "link", "meta",
    "param", "source", "track", "wbr",
];
const RAW: [&str; 9] =
    ["script", "style", "iframe", "noscript", "textarea", "title", "xmp", "noembed", "noframes"];
const NO_OPTION: [&str; 8] =
    ["style", "iframe", "noscript", "title", "xmp", "noembed", "noframes", "template"];
const DRAWING: [&str; 6] = ["g", "path", "circle", "text", "defs", "use"];
const OTHER: [&str; 24] = [
    "area", "base", "basefont", "bgsound", "col", "embed", "keygen", "link", "meta", "param", "source", "track",
    "wbr", "title", "xmp", "noembed", "noframes", "u", "center", "option", "font", "template", "desc", "custom",
];

#[test]
fn one_element_comes_out_between_its_marks() {
    for rule in tag_rules().iter().filter(|r| !VOID.contains(&r.tag)) {
        for address in [None, Some("p?q=1&r=<2>"), Some("#x"), Some(""), Some("x\u{feff}")] {
            for content in ["text", "", "a & b > c", "x\n\"y\"", "&lt; é"] {
                let attribute = address.map_or(String::new(), |a| format!(" {}=\"{a}\"", rule.address));
                let html = format!("<{}{attribute}>{content}</{}>", rule.tag, rule.tag);
                let edit = element_edit(rule, URL, address.map(|a| a.to_string()), None);
                let kept = if edit.keeps_content { content } else { "" };
                let expected = format!("{}{kept}{}", escaped(&edit.before), escaped(&edit.after));
                let whole = rewrite_page(URL, &vec![html.as_bytes().to_vec()]);
                assert_eq!(whole.ok(), Some(expected.clone()), "{html}");
                let (a, b) = html.as_bytes().split_at(rule.tag.len() + 1);
                let parts = rewrite_page(URL, &vec![a.to_vec(), vec![], b.to_vec()]);
                assert_eq!(parts.ok(), Some(expected), "{html}");
            }
        }
    }
}

#[test]
fn a_byte_order_mark_before_an_address_is_dropped() {
    assert_eq!(page("<a href=\"\u{feff}\">t</a>"), "t");
    assert_eq!(page("<a href=\"\u{feff}#top\">t</a>"), "t");
    assert_eq!(page("<a href=\"\u{feff}x\">t</a>"), "[t](https://example.com/docs/x)");
}

/// A page: its HTML, the text that it is rewritten to, and the HTML without noise.
struct Sample {
    html: String,
    text: String,
    quiet: String,
}

/// The next of a sequence of numbers that looks like chance.
fn next(seed: &mut u64, below: usize) -> usize {
    *seed = seed.wrapping_mul(6364136223846793005).wrapping_add(1442695040888963407);
    ((*seed >> 33) as usize) % below
}

/// Where a part of a page stands.
#[derive(Clone, Copy, PartialEq)]
enum Place {
    Page,
    Select,
    Drawing,
}

fn attributes(seed: &mut u64) -> Vec<(&'static str, &'static str)> {
    let names = ["href", "src", "alt", "class", "data-x", "xlink:href", "x1"];
    let values = ["/p?q=1&r=2", "#part", "", "x y", "<z>", "//h.example/i"];
    (0..next(seed, 4)).map(|_| (names[next(seed, names.len())], values[next(seed, values.len())])).collect()
}

fn same(part: &str) -> Sample {
    Sample { html: part.to_string(), text: part.to_string(), quiet: part.to_string() }
}

fn raw(seed: &mut u64) -> Sample {
    let texts = ["", "if (a < b && c > d) { x = '</p>'; }", "a<b><c", "</ x", "&lt; é"];
    same(texts[next(seed, texts.len())])
}

fn sample(seed: &mut u64, depth: usize, place: Place) -> Sample {
    let rules = tag_rules();
    let texts = [
        "a", " b & c\n", "1 > 0 &amp; ", "\"q\" ", "[x] ", "<!---->", "<!-- a <b> - c <!x -->", "<!-- <p>d</p> > -->",
        "<!DOCTYPE html>", "<!doctype html PUBLIC \"-//x\" 'y'>", "<!x \"<y\">",
    ];
    let mut out = same("");
    for _ in 0..next(seed, 4) {
        if depth == 0 || next(seed, 3) == 0 {
            let part = texts[next(seed, texts.len())];
            out.html.push_str(part);
            out.text.push_str(part);
            out.quiet.push_str(part);
            continue;
        }
        let choice = next(seed, rules.len() + OTHER.len());
        let written: Vec<(&str, &str)> = attributes(seed);
        let html: String = written.iter().map(|(n, v)| format!(" {n}=\"{v}\"")).collect();
        let tag = if place == Place::Drawing {
            DRAWING[next(seed, DRAWING.len())]
        } else if choice < rules.len() {
            rules[choice].tag
        } else {
            OTHER[choice - rules.len()]
        };
        if place == Place::Select && NO_OPTION.contains(&tag) {
            continue;
        }
        let rule = rules.iter().find(|r| r.tag == tag);
        let slash = (VOID.contains(&tag) || place == Place::Drawing) && next(seed, 2) == 0;
        let empty = slash || VOID.contains(&tag);
        let inner = if empty {
            same("")
        } else if RAW.contains(&tag) {
            raw(seed)
        } else if tag == "svg" {
            sample(seed, depth - 1, Place::Drawing)
        } else if tag == "select" {
            sample(seed, depth - 1, Place::Select)
        } else {
            sample(seed, depth - 1, place)
        };
        let start = format!("<{tag}{html}{}>", if slash { " /" } else { "" });
        let end = if empty { String::new() } else { format!("</{tag}>") };
        out.html.push_str(&format!("{start}{}{end}", inner.html));
        let Some(rule) = rule else {
            out.text.push_str(&format!("{start}{}{end}", inner.text));
            out.quiet.push_str(&format!("{start}{}{end}", inner.quiet));
            continue;
        };
        let value = |name: &str| written.iter().find(|(n, _)| *n == name).map(|(_, v)| v.to_string());
        let edit = element_edit(rule, URL, value(rule.address), value(rule.label));
        let kept = if edit.keeps_content { inner.text.as_str() } else { "" };
        out.text.push_str(&format!("{}{kept}{}", escaped(&edit.before), escaped(&edit.after)));
        if edit.keeps_content || ["img", "br", "hr"].contains(&tag) {
            out.quiet.push_str(&format!("{start}{}{end}", inner.quiet));
        }
    }
    out
}

#[test]
fn well_formed_pages_come_out_with_markdown_in_place_of_elements() {
    let mut seed = 7u64;
    for _ in 0..3000 {
        let page = sample(&mut seed, 6, Place::Page);
        let bytes = page.html.as_bytes();
        let whole = rewrite_page(URL, &vec![bytes.to_vec()]);
        assert_eq!(whole.ok(), Some(page.text.clone()), "{}", page.html);
        let at = next(&mut seed, bytes.len() + 1);
        if page.html.is_char_boundary(at) {
            let parts = rewrite_page(URL, &vec![bytes[..at].to_vec(), bytes[at..].to_vec()]);
            assert_eq!(parts.ok(), Some(page.text), "{}", page.html);
        }
    }
}

#[test]
fn noise_leaves_no_trace() {
    let mut seed = 11u64;
    for _ in 0..500 {
        let sample = sample(&mut seed, 6, Place::Page);
        assert_eq!(page(&sample.html), page(&sample.quiet), "{}", sample.html);
    }
    assert_eq!(page("a<nav>b<p>c<nav>d</nav>e</p></nav>f"), "af");
    assert_eq!(page("<!DOCTYPE html><!-- x -->a<select><option>b</option></select>c"), "ac");
    assert_eq!(page("a<svg viewbox=\"0 0\"><g><path d=\"M0\" /></g><text>b</text></svg>c"), "ac");
    assert_eq!(page("a<script>if (x < y) { z = '</p>'; }</script>b<noscript><p>c</p></noscript>"), "ab");
}

#[test]
fn ascii_comes_out_of_ascii() {
    let text = "<a href='//xn--caf-dma.example/%C3%A9'>a</a><a href='http://[x'>b</a><img src='i' alt='c'>";
    for url in [URL, "https://café.example/é/", "nowhere é"] {
        let raw = rewrite_page(url, &vec![text.as_bytes().to_vec()]).ok().expect("a text");
        assert!(raw.is_ascii(), "{raw}");
    }
    assert_eq!(blitzmd::urls::resolve_url("https://café.example/é/", "x?y=z#t"), "https://xn--caf-dma.example/%C3%A9/x?y=z#t");
}

#[test]
fn images_become_markdown_images() {
    assert_eq!(page("<img src=\"i.png\" alt=\"A [b\">"), "![A [b](https://example.com/docs/i.png)");
    assert_eq!(page("<img alt=\"x\" class=\"y\" src=\"//h.example/i\">"), "![x](https://h.example/i)");
}

#[test]
fn escaped_text_is_decoded() {
    for text in ["a < b & c > d", "&amp;", "<b>", "\n\n> "] {
        assert_eq!(blitzmd::markup::strip_and_decode(&escaped(text)), text);
    }
}
