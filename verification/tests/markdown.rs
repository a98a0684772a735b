use blitzmd::links::find_matching_paren;
use blitzmd::links::fix_block_links;
use blitzmd::markup::strip_and_decode;
use blitzmd::page::markdown_excerpt;
use blitzmd::page::normalize_lines;
use blitzmd::page::post_process;
use blitzmd::title::extract_html_title;
use blitzmd::title::try_extract_html_title;

#[test]
fn fix_block_links_handles_urls_with_parentheses() {
    let input = "[docs](https://example.com/a_(b))";
    let fixed = fix_block_links(input);
    assert_eq!(fixed, input);
}

#[test]
fn extract_html_title_reads_basic_title_tag() {
    let html = "<html><head><title>Athenox Development</title></head><body></body></html>";
    let title = extract_html_title(html).expect("title should be present");
    assert_eq!(title, "Athenox Development");
}

#[test]
fn tags_are_dropped() {
    assert_eq!(strip_and_decode("a<b>c</b>d"), "acd");
    assert_eq!(strip_and_decode("a < b > c"), "a  c");
    assert_eq!(strip_and_decode("a<never closed &amp; so on"), "a");
    assert_eq!(strip_and_decode("<a href='x>y'>z"), "y'>z");
    assert_eq!(strip_and_decode("plain é text"), "plain é text");
    assert_eq!(strip_and_decode(""), "");
}

#[test]
fn named_entities_are_decoded() {
    let table = [
        ("amp", "&"), ("lt", "<"), ("gt", ">"), ("quot", "\""), ("apos", "'"), ("nbsp", " "),
        ("mdash", "—"), ("ndash", "–"), ("hellip", "…"), ("laquo", "«"), ("raquo", "»"),
        ("copy", "©"), ("reg", "®"), ("trade", "™"), ("euro", "€"), ("eacute", "é"),
        ("egrave", "è"), ("ecirc", "ê"), ("agrave", "à"), ("ugrave", "ù"), ("ccedil", "ç"),
    ];
    for (name, text) in table {
        assert_eq!(strip_and_decode(&format!("[&{name};]")), format!("[{text}]"));
    }
    assert_eq!(strip_and_decode("&AMP;&unknown;&;"), "&AMP;&unknown;&;");
}

#[test]
fn numeric_entities_are_decoded() {
    assert_eq!(strip_and_decode("&#65;&#x41;&#X2014;&#+66;"), "AA—B");
    assert_eq!(strip_and_decode("a&#160;b&#xa0;c"), "a b c");
    assert_eq!(strip_and_decode("&#128512;&#x1F600;"), "😀😀");
    assert_eq!(strip_and_decode("[&#xD800;&#x110000;&#;&#x;&#12a;&#4294967296;]"), "[]");
}

#[test]
fn an_ampersand_needs_a_semicolon_near_it() {
    assert_eq!(strip_and_decode("a & b; c"), "a & b; c");
    assert_eq!(strip_and_decode("x&y"), "x&y");
    assert_eq!(strip_and_decode("&01234567890;"), "&01234567890;");
    assert_eq!(strip_and_decode("&012345678901;&lt;"), "&012345678901;<");
    assert_eq!(strip_and_decode("&ééééé;&éééééé;"), "&ééééé;&éééééé;");
    assert_eq!(strip_and_decode("&<b>&amp;</b>"), "&&");
    assert_eq!(strip_and_decode("a & <b>x</b>;"), "a & x;");
    assert_eq!(strip_and_decode("AT&T &lt;"), "AT&T <");
    assert_eq!(strip_and_decode("&&amp;;&amp"), "&&;&amp");
}

#[test]
fn stripping_plain_text_again_changes_nothing() {
    let once = strip_and_decode("<p>one <i>two</i> > three</p>");
    assert_eq!(once, "one two > three");
    assert_eq!(strip_and_decode(&once), once);
}

#[test]
fn block_links_are_flattened() {
    assert_eq!(fix_block_links("a [one\ntwo](https://x.example) b"), "a one\ntwo b");
    assert_eq!(fix_block_links("[one](u) [two\n](v)"), "[one](u) two\n");
    assert_eq!(fix_block_links("[a [b] c](u)"), "[a [b] c](u)");
    assert_eq!(fix_block_links("[a\n[b](c) d](u)"), "a\n[b](c) d");
    assert_eq!(fix_block_links("[open\n](never"), "[open\n](never");
    assert_eq!(fix_block_links("[open"), "[open");
    assert_eq!(fix_block_links("x [a]b [c\nd](e)"), "x [a]b c\nd");
    assert_eq!(fix_block_links("no links"), "no links");
}

#[test]
fn images_are_kept() {
    assert_eq!(fix_block_links("![a\nb](u)"), "![a\nb](u)");
    assert_eq!(fix_block_links("[x ![a](i)\ny](u)"), "x ![a](i)\ny");
}

#[test]
fn matching_parentheses_are_found() {
    assert_eq!(find_matching_paren("(a(b)c)d"), Some(6));
    assert_eq!(find_matching_paren("é(é)"), Some(5));
    assert_eq!(find_matching_paren("(a"), None);
    assert_eq!(find_matching_paren(")("), None);
    assert_eq!(find_matching_paren(")()(x)"), None);
    assert_eq!(find_matching_paren(""), None);
}

#[test]
fn lines_are_normalized() {
    assert_eq!(normalize_lines("\n\n  a  \n\n\n\n b\t\r\n\nc\n\n"), "a\n\nb\n\nc");
    assert_eq!(normalize_lines("   "), "");
    for text in ["a", "a\n\nb\nc d", ""] {
        assert_eq!(normalize_lines(text), text);
    }
}

#[test]
fn post_processing_goes_through_every_step() {
    let raw = "\n\n# Title\n\n\n  [card\n\n text](https://x.example) &amp; <em>more</em>\n";
    assert_eq!(post_process(raw), "# Title\n\ncard\n\ntext & more");
    let once = post_process(raw);
    assert_eq!(post_process(&once), once);
    assert_eq!(post_process("&lt;kept&gt;"), "<kept>");
}

#[test]
fn excerpts_fit_into_their_bytes() {
    assert_eq!(markdown_excerpt("héllo", 2), "h");
    assert_eq!(markdown_excerpt("héllo", 3), "hé");
    assert_eq!(markdown_excerpt("  a b  c", 6), "a b");
    assert_eq!(markdown_excerpt("abc", 100), "abc");
    assert_eq!(markdown_excerpt("abc", 0), "");
}

#[test]
fn titles_are_read() {
    assert_eq!(try_extract_html_title("<TITLE>\n A  b\n</Title>"), Some(Some("A b".to_string())));
    assert_eq!(try_extract_html_title("<title>é</title><title>b</title>"), Some(Some("é".to_string())));
    assert_eq!(try_extract_html_title("<title> </title>"), Some(None));
    assert_eq!(try_extract_html_title("<title>a"), Some(None));
    assert_eq!(try_extract_html_title("</title><title>a"), Some(None));
    assert_eq!(try_extract_html_title("no title"), Some(None));
    assert_eq!(try_extract_html_title("<title lang='en'>a</title>"), Some(None));
}

#[test]
fn a_title_may_stand_where_no_character_begins() {
    assert_eq!(try_extract_html_title("İ<title>é</title>"), None);
}
