//! Addresses: resolved against a page, taken out of redirects, and made comparable.
use vstd::prelude::*;
use vstd::utf8::encode_utf8;
use vstd::utf8::encode_utf8_decode_utf8;
use vstd::utf8::is_ascii_chars;

use crate::letters::lowercase;
use crate::letters::to_lower;
use crate::text::concatenated;
use crate::text::same_text;
use crate::text::starts_with;
use crate::text::text_of;
use crate::text::trim;
use crate::text::trimmed;

verus! {

/// The texts of pairs of strings.
pub open spec fn pair_texts(pairs: Seq<(String, String)>) -> Seq<(Seq<char>, Seq<char>)> {
    pairs.map_values(|p: (String, String)| (p.0@, p.1@))
}

/// What is read of a parsed URL: its scheme, its host, and the decoded pairs of its query.
pub struct UrlParts {
    pub scheme: String,
    pub host: Option<String>,
    pub pairs: Vec<(String, String)>,
}

/// The model of `UrlParts`.
pub struct UrlPartsModel {
    pub scheme: Seq<char>,
    pub host: Option<Seq<char>>,
    pub pairs: Seq<(Seq<char>, Seq<char>)>,
}

impl View for UrlParts {
    type V = UrlPartsModel;

    open spec fn view(&self) -> UrlPartsModel {
        UrlPartsModel {
            scheme: self.scheme@,
            host: text_of(self.host),
            pairs: pair_texts(self.pairs@),
        }
    }
}

/// The model of an optional `UrlParts`.
pub open spec fn parts_model(u: Option<UrlParts>) -> Option<UrlPartsModel> {
    match u {
        Some(u) => Some(u@),
        None => None,
    }
}

/// What is compared of a URL: its serialization, its scheme, its port or the one that its
/// scheme is known to use, and whether it has a query.
pub struct UrlKey {
    pub text: String,
    pub scheme: String,
    pub port: Option<u16>,
    pub has_query: bool,
}

/// The model of `UrlKey`.
pub struct UrlKeyModel {
    pub text: Seq<char>,
    pub scheme: Seq<char>,
    pub port: Option<u16>,
    pub has_query: bool,
}

impl View for UrlKey {
    type V = UrlKeyModel;

    open spec fn view(&self) -> UrlKeyModel {
        UrlKeyModel {
            text: self.text@,
            scheme: self.scheme@,
            port: self.port,
            has_query: self.has_query,
        }
    }
}

/// The model of an optional `UrlKey`.
pub open spec fn key_model(u: Option<UrlKey>) -> Option<UrlKeyModel> {
    match u {
        Some(u) => Some(u@),
        None => None,
    }
}

/// The parts of the URL that `url::Url::parse` makes of a text.
pub uninterp spec fn parsed_url(text: Seq<char>) -> Option<UrlPartsModel>;

/// The URL that `url::Url::parse` makes of a text, after `set_fragment(None)`.
pub uninterp spec fn without_fragment(text: Seq<char>) -> Option<UrlKeyModel>;

/// The URL that `url::Url::parse` makes of a text, after `set_fragment(None)` and then
/// `set_port(None)`.
pub uninterp spec fn without_fragment_and_port(text: Seq<char>) -> Option<UrlKeyModel>;

/// The serialization of what `url::Url::join` makes of a reference, on the URL that
/// `url::Url::parse` makes of a base.
pub uninterp spec fn joined_url(base: Seq<char>, href: Seq<char>) -> Option<Seq<char>>;

/// Calls `url::Url::parse`, and reads `scheme`, `host_str` and `query_pairs`. What they are for a
/// text, by the URL Standard, is named; beside it stands that a text without a colon, which ends
/// the scheme, is not parsed, and that a scheme is of ASCII characters.
#[verifier::external_body]
fn parse_url(text: &str) -> (res: Option<UrlParts>)
    ensures
        parts_model(res) == parsed_url(text@),
        !text@.contains(':') ==> res is None,
        res matches Some(u) ==> is_ascii_chars(u.scheme@),
{
    url::Url::parse(text).ok().map(|url| UrlParts {
        scheme: url.scheme().to_string(),
        host: url.host_str().map(str::to_string),
        pairs: url.query_pairs().map(|(k, v)| (k.into_owned(), v.into_owned())).collect(),
    })
}

/// Calls `url::Url::parse` and `url::Url::set_fragment` with `None`, and reads the serialization,
/// `scheme`, `port_or_known_default` and `query`. What they are for a text, by the URL Standard,
/// is named; beside it stands that the serialization has no number sign, which only a fragment
/// brings, that a text is parsed here if and only if `url::Url::parse` parses it, and that a text
/// without a colon is not.
#[verifier::external_body]
fn parse_without_fragment(text: &str) -> (res: Option<UrlKey>)
    ensures
        key_model(res) == without_fragment(text@),
        !text@.contains(':') ==> res is None,
        res matches Some(u) ==> !u.text@.contains('#'),
        res is Some <==> parsed_url(text@) is Some,
{
    url::Url::parse(text).ok().map(|mut url| {
        url.set_fragment(None);
        UrlKey {
            scheme: url.scheme().to_string(),
            port: url.port_or_known_default(),
            has_query: url.query().is_some(),
            text: url.to_string(),
        }
    })
}

/// Calls `url::Url::parse`, `url::Url::set_fragment` with `None` and `url::Url::set_port` with
/// `None`, and reads the serialization, `scheme`, `port_or_known_default` and `query`. What they
/// are for a text, by the URL Standard, is named; beside it stands that the serialization has no
/// number sign, and that a text is parsed here if and only if `url::Url::parse` parses it.
#[verifier::external_body]
fn parse_without_fragment_and_port(text: &str) -> (res: Option<UrlKey>)
    ensures
        key_model(res) == without_fragment_and_port(text@),
        res matches Some(u) ==> !u.text@.contains('#'),
        res is Some <==> parsed_url(text@) is Some,
{
    url::Url::parse(text).ok().map(|mut url| {
        url.set_fragment(None);
        let _ = url.set_port(None);
        UrlKey {
            scheme: url.scheme().to_string(),
            port: url.port_or_known_default(),
            has_query: url.query().is_some(),
            text: url.to_string(),
        }
    })
}

/// Whether a reference names its host and one of the schemes of the web.
pub open spec fn names_site(href: Seq<char>) -> bool {
    "http://"@.is_prefix_of(href) || "https://"@.is_prefix_of(href)
}

/// Calls `url::Url::parse` on the base and `url::Url::join` on what it gives. The serialization
/// of the result, by the URL Standard, is named; beside it stands that it has a colon, which ends
/// its scheme, that it is of ASCII characters, as every serialization is, and that there is none
/// for a base without a colon, which is not parsed. A reference that begins with `http://` or
/// `https://` is parsed as if there were no base: it is joined where `url::Url::parse` parses it,
/// to the same URL whatever the base, and what stands before its fragment is what
/// `url::Url::parse` makes of it.
#[verifier::external_body]
fn join_url(base: &str, href: &str) -> (res: Option<String>)
    ensures
        text_of(res) == joined_url(base@, href@),
        res matches Some(url) ==> url@.contains(':') && is_ascii_chars(url@),
        !base@.contains(':') ==> res is None,
        names_site(href@) && parsed_url(base@) is Some ==> {
            &&& res is Some <==> parsed_url(href@) is Some
            &&& forall|b: Seq<char>|
                parsed_url(b) is Some ==> #[trigger] joined_url(b, href@) == text_of(res)
            &&& res matches Some(url) ==> without_fragment(href@) matches Some(u)
                && u.text.is_prefix_of(url@) && (!href@.contains('#') ==> url@ == u.text)
        },
{
    url::Url::parse(base).and_then(|url| url.join(href)).ok().map(|url| url.to_string())
}

// Comparison.

/// Whether a URL uses the default port of HTTP or HTTPS.
pub open spec fn on_default_port(u: UrlKeyModel) -> bool {
    ||| u.scheme == "http"@ && u.port == Some(80u16)
    ||| u.scheme == "https"@ && u.port == Some(443u16)
}

/// The text of a URL, without the slash that ends it where it has no query.
pub open spec fn key_text(u: UrlKeyModel) -> Seq<char> {
    if !u.has_query && u.text.len() > 0 && u.text.last() == '/' {
        u.text.drop_last()
    } else {
        u.text
    }
}

/// What two addresses have in common if they are taken for the same: the URL without its
/// fragment, without a default port of HTTP or HTTPS, and without a final slash where it has no
/// query; the text itself, trimmed and in lower case, where it is no URL.
pub open spec fn canonical(value: Seq<char>) -> Seq<char> {
    match without_fragment(value) {
        Some(u) => if on_default_port(u) {
            key_text(without_fragment_and_port(value)->0)
        } else {
            key_text(u)
        },
        None => lowercase(trim(value)),
    }
}

/// Whether a URL uses the default port of HTTP or HTTPS.
pub fn uses_default_port(u: &UrlKey) -> (res: bool)
    ensures
        res == on_default_port(u@),
{
    match u.port {
        Some(port) => (port == 80 && same_text(u.scheme.as_str(), "http")) || (port == 443
            && same_text(u.scheme.as_str(), "https")),
        None => false,
    }
}

/// The text of a URL, without the slash that ends it where it has no query.
pub fn key_text_of(u: &UrlKey) -> (res: String)
    ensures
        res@ == key_text(u@),
        !u.text@.contains('#') ==> !res@.contains('#'),
{
    let cs = crate::text::chars_of(u.text.as_str());
    let n: usize = cs.len();
    let keep: usize = if !u.has_query && n > 0 && cs[n - 1] == '/' {
        n - 1
    } else {
        n
    };
    proof {
        let kept = cs@.subrange(0, keep as int);
        assert(kept =~= key_text(u@));
        if kept.contains('#') {
            let i = choose|i: int| 0 <= i < kept.len() && kept[i] == '#';
            assert(u.text@[i] == '#');
        }
    }
    crate::text::string_of(&cs, 0, keep)
}

/// The text of a URL without a query is not cut but for one slash at its end.
proof fn lemma_key_text(u: UrlKeyModel)
    ensures
        u.has_query ==> key_text(u) == u.text,
        !u.has_query ==> (key_text(u) == u.text || key_text(u) + "/"@ == u.text) && (key_text(u)
            == u.text ==> !"/"@.is_suffix_of(u.text)),
{
    reveal_strlit("/");
    let n = u.text.len();
    if !u.has_query && n > 0 && u.text.last() == '/' {
        assert(key_text(u) + "/"@ =~= u.text);
        assert(key_text(u).len() != n);
    } else if "/"@.is_suffix_of(u.text) {
        assert(u.text.subrange(n - 1, n as int)[0] == "/"@[0]);
    }
}

/// What two addresses have in common if they are taken for the same. That of a URL names no
/// part of a page; that of a text without a colon is the text, trimmed and in lower case.
pub fn canonicalize_for_dedupe(value: &str) -> (res: String)
    ensures
        res@ == canonical(value@),
        parsed_url(value@) is Some ==> !res@.contains('#'),
        !value@.contains(':') ==> res@ == lowercase(trim(value@)),
        without_fragment(value@) is None ==> res@ == lowercase(trim(value@)),
        without_fragment(value@) matches Some(u) ==> {
            let web = u.scheme == "http"@ && u.port == Some(80u16) || u.scheme == "https"@
                && u.port == Some(443u16);
            let key = if web {
                without_fragment_and_port(value@)->0
            } else {
                u
            };
            &&& key.has_query ==> res@ == key.text
            &&& !key.has_query ==> (res@ == key.text || res@ + "/"@ == key.text) && (res@
                == key.text ==> !"/"@.is_suffix_of(key.text))
        },
{
    proof {
        reveal_strlit("/");
        if let Some(u) = without_fragment(value@) {
            lemma_key_text(u);
            lemma_key_text(without_fragment_and_port(value@)->0);
        }
    }
    match parse_without_fragment(value) {
        Some(u) => {
            if uses_default_port(&u) {
                if let Some(v) = parse_without_fragment_and_port(value) {
                    return key_text_of(&v);
                }
            }
            key_text_of(&u)
        },
        None => to_lower(trimmed(value).as_str()),
    }
}

// Redirects of the search engine.

/// The first value that `pairs` gives for `key`.
pub open spec fn first_value(pairs: Seq<(Seq<char>, Seq<char>)>, key: Seq<char>) -> Option<
    Seq<char>,
>
    decreases pairs.len(),
{
    if pairs.len() == 0 {
        None
    } else if pairs.first().0 == key {
        Some(pairs.first().1)
    } else {
        first_value(pairs.drop_first(), key)
    }
}

/// The first value that `pairs` gives for `key`.
pub fn find_value(pairs: &Vec<(String, String)>, key: &str) -> (res: Option<String>)
    ensures
        text_of(res) == first_value(pair_texts(pairs@), key@),
{
    let ghost all = pair_texts(pairs@);
    let mut i: usize = 0;
    assert(all.skip(0) =~= all);
    while i < pairs.len()
        invariant
            i <= pairs@.len(),
            all == pair_texts(pairs@),
            first_value(all, key@) == first_value(all.skip(i as int), key@),
        decreases pairs@.len() - i,
    {
        assert(all[i as int] == (pairs@[i as int].0@, pairs@[i as int].1@));
        if same_text(pairs[i].0.as_str(), key) {
            return Some(pairs[i].1.clone());
        }
        assert(all.skip(i as int).drop_first() =~= all.skip(i + 1));
        i += 1;
    }
    None
}

/// The target that a redirect names in its query.
pub open spec fn redirect_target(url: Seq<char>) -> Option<Seq<char>> {
    match parsed_url(url) {
        Some(u) => first_value(u.pairs, "uddg"@),
        None => None,
    }
}

/// Whether a reference of the search engine's site leads through its redirect.
pub open spec fn is_redirect(href: Seq<char>) -> bool {
    ||| "https://duckduckgo.com/l/?"@.is_prefix_of(href)
    ||| "http://duckduckgo.com/l/?"@.is_prefix_of(href)
    ||| "/l/?"@.is_prefix_of(href)
}

/// The address of a redirect.
pub open spec fn redirect_url(href: Seq<char>) -> Seq<char> {
    if names_site(href) {
        href
    } else {
        "https://duckduckgo.com"@ + href
    }
}

/// Where the reference of a result leads: to the target, for a redirect that names one; else to
/// the reference itself, made absolute.
pub open spec fn result_address(href: Seq<char>) -> Seq<char> {
    let target = if "https://duckduckgo.com/l/?"@.is_prefix_of(href)
        || "http://duckduckgo.com/l/?"@.is_prefix_of(href) {
        redirect_target(href)
    } else if "/l/?"@.is_prefix_of(href) {
        redirect_target("https://duckduckgo.com"@ + href)
    } else {
        None
    };
    match target {
        Some(target) => target,
        None => plain_address(href),
    }
}

/// A reference on the search engine's site, made absolute.
pub open spec fn plain_address(href: Seq<char>) -> Seq<char> {
    if "//"@.is_prefix_of(href) {
        "https:"@ + href
    } else if "http://"@.is_prefix_of(href) || "https://"@.is_prefix_of(href) {
        href
    } else {
        "https://duckduckgo.com"@ + href
    }
}

/// The target that a redirect names in its query.
fn find_redirect_target(url: &str) -> (res: Option<String>)
    ensures
        text_of(res) == redirect_target(url@),
{
    match parse_url(url) {
        Some(u) => find_value(&u.pairs, "uddg"),
        None => None,
    }
}

/// A reference on the search engine's site, made absolute.
pub fn absolute_address(href: &str) -> (res: String)
    ensures
        res@ == plain_address(href@),
        names_site(href@) ==> res@ == href@,
        "//"@.is_prefix_of(href@) ==> res@ == "https:"@ + href@,
        !"//"@.is_prefix_of(href@) && !names_site(href@) ==> res@ == "https://duckduckgo.com"@
            + href@,
{
    proof {
        lemma_site_is_no_path(href@);
    }
    if starts_with(href, "//") {
        concatenated("https:", href)
    } else if starts_with(href, "http://") || starts_with(href, "https://") {
        href.to_owned()
    } else {
        concatenated("https://duckduckgo.com", href)
    }
}

/// Where the reference of a result leads.
pub fn normalize_duckduckgo_url(raw_href: &str) -> (res: String)
    ensures
        res@ == result_address(raw_href@),
        !is_redirect(raw_href@) && names_site(raw_href@) ==> res@ == raw_href@,
        !is_redirect(raw_href@) && "//"@.is_prefix_of(raw_href@) ==> res@ == "https:"@ + raw_href@,
        !is_redirect(raw_href@) && !"//"@.is_prefix_of(raw_href@) && !names_site(raw_href@)
            ==> res@ == "https://duckduckgo.com"@ + raw_href@,
        is_redirect(raw_href@) ==> match parsed_url(redirect_url(raw_href@)) {
            Some(u) => {
                &&& forall|k: int|
                    0 <= k < u.pairs.len() && u.pairs[k].0 == "uddg"@ && (forall|j: int|
                        0 <= j < k ==> (#[trigger] u.pairs[j]).0 != "uddg"@)
                        ==> #[trigger] u.pairs[k].1 == res@
                &&& (forall|j: int| 0 <= j < u.pairs.len() ==> (#[trigger] u.pairs[j]).0 != "uddg"@)
                    ==> res@ == redirect_url(raw_href@)
            },
            None => res@ == redirect_url(raw_href@),
        },
{
    proof {
        law_result_address(raw_href@);
    }
    let target: Option<String> = if starts_with(raw_href, "https://duckduckgo.com/l/?")
        || starts_with(raw_href, "http://duckduckgo.com/l/?") {
        find_redirect_target(raw_href)
    } else if starts_with(raw_href, "/l/?") {
        let absolute = concatenated("https://duckduckgo.com", raw_href);
        find_redirect_target(absolute.as_str())
    } else {
        None
    };
    match target {
        Some(target) => target,
        None => absolute_address(raw_href),
    }
}

/// Whether a host, in lower case, is one that results are expected from.
pub open spec fn external_host(host: Seq<char>) -> bool {
    host.len() > 0 && host != "duckduckgo.com"@ && host != "html.duckduckgo.com"@ && host
        != "duck.co"@
}

/// Whether an address is that of a page outside the search engine.
pub open spec fn plausible(url: Seq<char>) -> bool {
    &&& "http://"@.is_prefix_of(url) || "https://"@.is_prefix_of(url)
    &&& parsed_url(url) matches Some(u) && u.host matches Some(host) && external_host(
        lowercase(host),
    )
}

/// Whether a host, in lower case, is one that results are expected from.
pub fn is_external_host(host: &str) -> (res: bool)
    ensures
        res == external_host(host@),
{
    !host.is_empty() && !same_text(host, "duckduckgo.com") && !same_text(
        host,
        "html.duckduckgo.com",
    ) && !same_text(host, "duck.co")
}

/// Whether an address is that of a page outside the search engine.
pub fn is_plausible_external_result_url(url: &str) -> (res: bool)
    ensures
        res == plausible(url@),
        res ==> names_site(url@) && parsed_url(url@) is Some && (parsed_url(url@)->0).host is Some,
        names_site(url@) ==> (parsed_url(url@) matches Some(u) ==> (u.host matches Some(host) ==> {
            let name = lowercase(host);
            !res <==> name == ""@ || name == "duckduckgo.com"@ || name == "html.duckduckgo.com"@
                || name == "duck.co"@
        })),
{
    proof {
        reveal_strlit("");
        assert forall|s: Seq<char>| s.len() == 0 implies s == ""@ by {
            assert(s =~= ""@);
        }
    }
    if !(starts_with(url, "http://") || starts_with(url, "https://")) {
        return false;
    }
    match parse_url(url) {
        Some(u) => match &u.host {
            Some(host) => {
                let lower = to_lower(host.as_str());
                is_external_host(lower.as_str())
            },
            None => false,
        },
        None => false,
    }
}

// References of a page.

/// Where a reference leads, given what is known of the page's address: its scheme, and the
/// reference joined to it.
pub open spec fn resolution(
    href: Seq<char>,
    scheme: Option<Seq<char>>,
    joined: Option<Seq<char>>,
) -> Seq<char> {
    if "//"@.is_prefix_of(href) {
        (match scheme {
            Some(scheme) => scheme,
            None => "https"@,
        }) + ":"@ + href
    } else {
        match joined {
            Some(url) => url,
            None => href,
        }
    }
}

/// The scheme of an address.
pub open spec fn scheme_of(url: Seq<char>) -> Option<Seq<char>> {
    match parsed_url(url) {
        Some(u) => Some(u.scheme),
        None => None,
    }
}

/// Where a reference of the page at `base` leads.
pub open spec fn resolved(base: Seq<char>, href: Seq<char>) -> Seq<char> {
    resolution(href, scheme_of(base), joined_url(base, href))
}

/// Where a reference leads, given the scheme of the page and the reference joined to it.
pub fn resolve_with(href: &str, scheme: Option<String>, joined: Option<String>) -> (res: String)
    ensures
        res@ == resolution(href@, text_of(scheme), text_of(joined)),
{
    if starts_with(href, "//") {
        let mut res = match scheme {
            Some(scheme) => scheme,
            None => "https".to_owned(),
        };
        res.push_str(":");
        res.push_str(href);
        res
    } else {
        match joined {
            Some(url) => url,
            None => href.to_owned(),
        }
    }
}

/// Where a reference of the page at `base` leads. It is absolute, with a scheme and so with a
/// colon, unless it cannot be joined to the base; where the base is no URL, it stays as it is but
/// for one that lacks only the scheme. Where it is ASCII, so is where it leads.
pub fn resolve_url(base: &str, href: &str) -> (res: String)
    ensures
        res@ == resolved(base@, href@),
        "//"@.is_prefix_of(href@) || joined_url(base@, href@) is Some ==> res@.contains(':'),
        is_ascii_chars(href@) ==> is_ascii_chars(res@),
        !"//"@.is_prefix_of(href@) ==> res@ == (match joined_url(base@, href@) {
            Some(url) => url,
            None => href@,
        }),
        "//"@.is_prefix_of(href@) ==> res@ == (match parsed_url(base@) {
            Some(u) => u.scheme,
            None => "https"@,
        }) + ":"@ + href@,
        names_site(href@) && parsed_url(href@) is Some && parsed_url(base@) is Some ==> {
            &&& forall|b: Seq<char>|
                parsed_url(b) is Some ==> #[trigger] joined_url(b, href@) == Some(res@)
            &&& without_fragment(href@) matches Some(u) && u.text.is_prefix_of(res@) && (
            !href@.contains('#') ==> res@ == u.text)
        },
        !base@.contains(':') ==> res@ == (if "//"@.is_prefix_of(href@) {
            "https:"@ + href@
        } else {
            href@
        }),
{
    proof {
        lemma_site_is_no_path(href@);
    }
    if starts_with(href, "//") {
        proof {
            reveal_strlit("https");
            reveal_strlit(":");
            reveal_strlit("https:");
            let scheme = match scheme_of(base@) {
                Some(scheme) => scheme,
                None => "https"@,
            };
            let whole = scheme + ":"@ + href@;
            assert(whole[scheme.len() as int] == ':');
            assert("https"@ + ":"@ =~= "https:"@);
        }
        let scheme: Option<String> = match parse_url(base) {
            Some(u) => Some(u.scheme),
            None => None,
        };
        resolve_with(href, scheme, None)
    } else {
        let joined = join_url(base, href);
        resolve_with(href, None, joined)
    }
}

// Queries.

/// Whether a byte stands for itself in an encoded query.
pub open spec fn unreserved(b: u8) -> bool {
    ||| 0x30 <= b <= 0x39
    ||| 0x41 <= b <= 0x5a
    ||| 0x61 <= b <= 0x7a
    ||| b == 0x2d
    ||| b == 0x2e
    ||| b == 0x5f
    ||| b == 0x7e
}

/// The hexadecimal digit for `d`, in upper case.
pub open spec fn hex_digit(d: int) -> char {
    if d < 10 {
        (48 + d) as char
    } else {
        (55 + d) as char
    }
}

/// The bytes, percent-encoded but for letters, digits, `-`, `.`, `_` and `~`.
pub open spec fn percent_encoded(bytes: Seq<u8>) -> Seq<char>
    decreases bytes.len(),
{
    if bytes.len() == 0 {
        Seq::empty()
    } else {
        let b = bytes.first();
        (if unreserved(b) {
            seq![b as char]
        } else {
            seq!['%', hex_digit(b as int / 16), hex_digit(b as int % 16)]
        }) + percent_encoded(bytes.drop_first())
    }
}

/// Calls `urlencoding::encode`: the UTF-8 bytes of the text, percent-encoded but for letters,
/// digits, `-`, `.`, `_` and `~`.
#[verifier::external_body]
fn encode(text: &str) -> (res: String)
    ensures
        res@ == percent_encoded(encode_utf8(text@)),
{
    urlencoding::encode(text).into_owned()
}

/// The address that answers `query`, where it follows `prefix` in the address.
pub open spec fn endpoint(prefix: Seq<char>, query: Seq<char>) -> Seq<char> {
    prefix + percent_encoded(encode_utf8(query))
}

/// The address of the search page for `query`.
pub fn duckduckgo_endpoint(query: &str) -> (res: String)
    ensures
        res@ == endpoint("https://html.duckduckgo.com/html/?q="@, query@),
        res@ == "https://html.duckduckgo.com/html/?q="@ + percent_encoded(encode_utf8(query@)),
{
    concatenated("https://html.duckduckgo.com/html/?q=", encode(query).as_str())
}

/// The address of the light search page for `query`.
pub fn duckduckgo_lite_endpoint(query: &str) -> (res: String)
    ensures
        res@ == endpoint("https://lite.duckduckgo.com/lite/?q="@, query@),
        res@ == "https://lite.duckduckgo.com/lite/?q="@ + percent_encoded(encode_utf8(query@)),
{
    concatenated("https://lite.duckduckgo.com/lite/?q=", encode(query).as_str())
}

/// The address of the result feed for `query`.
pub fn bing_rss_endpoint(query: &str) -> (res: String)
    ensures
        res@ == endpoint("https://www.bing.com/search?format=rss&q="@, query@),
        res@ == "https://www.bing.com/search?format=rss&q="@ + percent_encoded(encode_utf8(query@)),
{
    concatenated("https://www.bing.com/search?format=rss&q=", encode(query).as_str())
}

/// `query` between quotation marks.
pub fn quoted(query: &str) -> (res: String)
    ensures
        res@ == "\""@ + query@ + "\""@,
{
    let mut res = concatenated("\"", query);
    res.push_str("\"");
    res
}

// Laws.

/// A reference that names its host has no slash at its start.
proof fn lemma_site_is_no_path(href: Seq<char>)
    ensures
        names_site(href) ==> !"//"@.is_prefix_of(href) && !"/l/?"@.is_prefix_of(href),
{
    reveal_strlit("http://");
    reveal_strlit("https://");
    reveal_strlit("//");
    reveal_strlit("/l/?");
    if names_site(href) {
        if "http://"@.is_prefix_of(href) {
            assert(href.subrange(0, 7)[0] == "http://"@[0]);
        } else {
            assert(href.subrange(0, 8)[0] == "https://"@[0]);
        }
        if "//"@.is_prefix_of(href) {
            assert(href.subrange(0, 2)[0] == "//"@[0]);
        }
        if "/l/?"@.is_prefix_of(href) {
            assert(href.subrange(0, 4)[0] == "/l/?"@[0]);
        }
    }
}

/// A redirect begins with one slash, or names its host.
proof fn lemma_redirect(href: Seq<char>)
    requires
        is_redirect(href),
    ensures
        !"//"@.is_prefix_of(href),
        "/l/?"@.is_prefix_of(href) <==> !names_site(href),
        names_site(href) <==> "https://duckduckgo.com/l/?"@.is_prefix_of(href)
            || "http://duckduckgo.com/l/?"@.is_prefix_of(href),
{
    reveal_strlit("https://duckduckgo.com/l/?");
    reveal_strlit("http://duckduckgo.com/l/?");
    reveal_strlit("http://");
    reveal_strlit("https://");
    reveal_strlit("//");
    reveal_strlit("/l/?");
    lemma_site_is_no_path(href);
    if "https://duckduckgo.com/l/?"@.is_prefix_of(href) {
        assert(href.take(8) =~= "https://duckduckgo.com/l/?"@.take(8));
        assert("https://"@ =~= "https://duckduckgo.com/l/?"@.take(8));
    } else if "http://duckduckgo.com/l/?"@.is_prefix_of(href) {
        assert(href.take(7) =~= "http://duckduckgo.com/l/?"@.take(7));
        assert("http://"@ =~= "http://duckduckgo.com/l/?"@.take(7));
    } else {
        assert(href.subrange(0, 4)[1] == "/l/?"@[1]);
        if "//"@.is_prefix_of(href) {
            assert(href.subrange(0, 2)[1] == "//"@[1]);
        }
    }
}

/// The first value of a key is that of the first pair with the key; there is none where no pair
/// has it.
pub proof fn law_first_value(pairs: Seq<(Seq<char>, Seq<char>)>, key: Seq<char>)
    ensures
        forall|k: int|
            0 <= k < pairs.len() && pairs[k].0 == key && (forall|j: int|
                0 <= j < k ==> (#[trigger] pairs[j]).0 != key) ==> first_value(pairs, key) == Some(
                #[trigger] pairs[k].1,
            ),
        (forall|j: int| 0 <= j < pairs.len() ==> (#[trigger] pairs[j]).0 != key) <==> first_value(
            pairs,
            key,
        ) is None,
    decreases pairs.len(),
{
    if pairs.len() > 0 {
        let rest = pairs.drop_first();
        law_first_value(rest, key);
        assert forall|j: int| 0 <= j < rest.len() implies #[trigger] rest[j] == pairs[j + 1] by {}
        assert forall|j: int| 1 <= j < pairs.len() implies #[trigger] pairs[j] == rest[j - 1] by {}
        if pairs[0].0 != key {
            assert forall|k: int|
                0 <= k < pairs.len() && pairs[k].0 == key && (forall|j: int|
                    0 <= j < k ==> (#[trigger] pairs[j]).0 != key) implies first_value(pairs, key)
                == Some(#[trigger] pairs[k].1) by {
                assert(rest[k - 1].0 == key);
                assert forall|j: int| 0 <= j < k - 1 implies (#[trigger] rest[j]).0 != key by {
                    assert(pairs[j + 1].0 != key);
                }
                assert(rest[k - 1].1 == pairs[k].1);
            }
            if first_value(pairs, key) is None {
                assert forall|j: int| 0 <= j < pairs.len() implies (#[trigger] pairs[j]).0
                    != key by {
                    if j > 0 {
                        assert(rest[j - 1].0 != key);
                    }
                }
            }
            if forall|j: int| 0 <= j < pairs.len() ==> (#[trigger] pairs[j]).0 != key {
                assert forall|j: int| 0 <= j < rest.len() implies (#[trigger] rest[j]).0 != key by {
                    assert(pairs[j + 1].0 != key);
                }
            }
        } else {
            assert forall|k: int|
                0 <= k < pairs.len() && pairs[k].0 == key && (forall|j: int|
                    0 <= j < k ==> (#[trigger] pairs[j]).0 != key) implies first_value(pairs, key)
                == Some(#[trigger] pairs[k].1) by {
                if k > 0 {
                    assert(pairs[0].0 != key);
                }
            }
        }
    }
}

/// Where a result leads: a reference that names its host is its address, as it is; one that lacks
/// only the scheme gets that of the secure web, and any other the search engine's host before it.
/// A redirect leads to the first target that its query names, and where it names none, to itself.
pub proof fn law_result_address(href: Seq<char>)
    ensures
        !is_redirect(href) && names_site(href) ==> result_address(href) == href,
        !is_redirect(href) && "//"@.is_prefix_of(href) ==> result_address(href) == "https:"@ + href,
        !is_redirect(href) && !"//"@.is_prefix_of(href) && !names_site(href) ==> result_address(
            href,
        ) == "https://duckduckgo.com"@ + href,
        is_redirect(href) ==> match parsed_url(redirect_url(href)) {
            Some(u) => {
                &&& forall|k: int|
                    0 <= k < u.pairs.len() && u.pairs[k].0 == "uddg"@ && (forall|j: int|
                        0 <= j < k ==> (#[trigger] u.pairs[j]).0 != "uddg"@)
                        ==> #[trigger] u.pairs[k].1 == result_address(href)
                &&& (forall|j: int| 0 <= j < u.pairs.len() ==> (#[trigger] u.pairs[j]).0 != "uddg"@)
                    ==> result_address(href) == redirect_url(href)
            },
            None => result_address(href) == redirect_url(href),
        },
{
    lemma_site_is_no_path(href);
    if is_redirect(href) {
        lemma_redirect(href);
        if let Some(u) = parsed_url(redirect_url(href)) {
            law_first_value(u.pairs, "uddg"@);
            let target = first_value(u.pairs, "uddg"@);
            assert forall|k: int|
                0 <= k < u.pairs.len() && u.pairs[k].0 == "uddg"@ && (forall|j: int|
                    0 <= j < k ==> (#[trigger] u.pairs[j]).0
                        != "uddg"@) implies #[trigger] u.pairs[k].1 == result_address(href) by {
                assert(target == Some(u.pairs[k].1));
            }
        }
    }
}

/// What two addresses have in common if they are taken for the same: where they are no URLs, their
/// text, trimmed and in lower case; else the URL without its fragment, without the port that its
/// scheme has anyway, where it is one of the web, and without one slash at its end, where it has no
/// query.
pub proof fn law_canonical(value: Seq<char>)
    ensures
        without_fragment(value) is None ==> canonical(value) == lowercase(trim(value)),
        without_fragment(value) matches Some(u) ==> {
            let web = u.scheme == "http"@ && u.port == Some(80u16) || u.scheme == "https"@
                && u.port == Some(443u16);
            let key = if web {
                without_fragment_and_port(value)->0
            } else {
                u
            };
            &&& key.has_query || !"/"@.is_suffix_of(key.text) ==> canonical(value) == key.text
            &&& !key.has_query && "/"@.is_suffix_of(key.text) ==> canonical(value) + "/"@
                == key.text
        },
{
    if let Some(u) = without_fragment(value) {
        lemma_key_text(u);
        lemma_key_text(without_fragment_and_port(value)->0);
        reveal_strlit("/");
        let key = if on_default_port(u) {
            without_fragment_and_port(value)->0
        } else {
            u
        };
        let n = key.text.len() as int;
        if key_text(key) + "/"@ == key.text {
            assert(key.text.subrange(n - 1, n) =~= "/"@);
        }
    }
}

/// An address is that of a page outside the search engine where it begins like one of the web, is
/// a URL, and its host, in lower case, is there and is none of the search engine's.
pub proof fn law_plausible(url: Seq<char>)
    ensures
        plausible(url) ==> names_site(url) && parsed_url(url) is Some && (
        parsed_url(url)->0).host is Some,
        names_site(url) ==> (parsed_url(url) matches Some(u) ==> (u.host matches Some(host) ==> {
            let name = lowercase(host);
            !plausible(url) <==> name == ""@ || name == "duckduckgo.com"@ || name
                == "html.duckduckgo.com"@ || name == "duck.co"@
        })),
{
    reveal_strlit("");
    assert forall|s: Seq<char>| s.len() == 0 implies s == ""@ by {
        assert(s =~= ""@);
    }
}

/// Where a reference of a page leads: one that lacks only the scheme gets that of the page; any
/// other is joined to the address of the page as it is, and stays as it is where it cannot be.
pub proof fn law_resolved(base: Seq<char>, href: Seq<char>)
    ensures
        !"//"@.is_prefix_of(href) && joined_url(base, href) is Some ==> resolved(base, href)
            == joined_url(base, href)->0,
        !"//"@.is_prefix_of(href) && joined_url(base, href) is None ==> resolved(base, href)
            == href,
        "//"@.is_prefix_of(href) && parsed_url(base) is Some ==> resolved(base, href) == (
        parsed_url(base)->0).scheme + ":"@ + href,
        "//"@.is_prefix_of(href) && parsed_url(base) is None ==> resolved(base, href) == "https:"@
            + href,
{
    reveal_strlit("https");
    reveal_strlit(":");
    reveal_strlit("https:");
    assert("https"@ + ":"@ =~= "https:"@);
}

/// A query of letters, digits and the signs `-`, `.`, `_` and `~` stands in an address as it is; a
/// space becomes `%20`, and queries one behind the other are encoded one behind the other.
pub proof fn law_encoded_query(a: Seq<u8>, b: Seq<u8>)
    ensures
        percent_encoded(a + b) == percent_encoded(a) + percent_encoded(b),
        percent_encoded(seq![0x20u8]) == "%20"@,
        (forall|i: int| 0 <= i < a.len() ==> query_safe((#[trigger] a[i]) as char) && a[i] != 0x25)
            ==> percent_encoded(a) == a.map_values(|x: u8| x as char),
    decreases a.len(),
{
    reveal_strlit("%20");
    assert(seq![0x20u8].drop_first() =~= Seq::empty());
    assert(percent_encoded(seq![0x20u8].drop_first()) =~= Seq::empty());
    assert(percent_encoded(seq![0x20u8]) =~= "%20"@);
    if a.len() == 0 {
        assert(a + b =~= b);
        assert(percent_encoded(a) + percent_encoded(b) =~= percent_encoded(b));
        assert(percent_encoded(a) =~= a.map_values(|x: u8| x as char));
    } else {
        let rest = a.drop_first();
        law_encoded_query(rest, b);
        assert((a + b).drop_first() =~= rest + b);
        assert(percent_encoded(a + b) =~= percent_encoded(a) + percent_encoded(b));
        if forall|i: int|
            0 <= i < a.len() ==> query_safe((#[trigger] a[i]) as char) && a[i] != 0x25 {
            assert forall|i: int| 0 <= i < rest.len() implies query_safe(
                (#[trigger] rest[i]) as char,
            ) && rest[i] != 0x25 by {
                assert(rest[i] == a[i + 1]);
            }
            assert(query_safe(a[0] as char));
            assert(percent_encoded(a) =~= a.map_values(|x: u8| x as char));
        }
    }
}

/// Whether a character is a letter, a digit or one of `-`, `.`, `_`, `~` and `%`.
pub open spec fn query_safe(c: char) -> bool {
    ||| '0' <= c <= '9'
    ||| 'A' <= c <= 'Z'
    ||| 'a' <= c <= 'z'
    ||| c == '-'
    ||| c == '.'
    ||| c == '_'
    ||| c == '~'
    ||| c == '%'
}

/// An encoded query holds nothing that could end it, or part it, in an address.
pub proof fn law_encoded_query_is_safe(bytes: Seq<u8>)
    ensures
        forall|i: int|
            0 <= i < percent_encoded(bytes).len() ==> query_safe(
                #[trigger] percent_encoded(bytes)[i],
            ),
    decreases bytes.len(),
{
    if bytes.len() > 0 {
        let b = bytes.first();
        let rest = percent_encoded(bytes.drop_first());
        law_encoded_query_is_safe(bytes.drop_first());
        let out = percent_encoded(bytes);
        assert forall|i: int| 0 <= i < out.len() implies query_safe(#[trigger] out[i]) by {
            let n = out.len() - rest.len();
            if i >= n {
                assert(out[i] == rest[i - n]);
            }
        }
    }
}

/// Different bytes are encoded differently.
proof fn lemma_percent_encoded_injective(a: Seq<u8>, b: Seq<u8>)
    requires
        percent_encoded(a) == percent_encoded(b),
    ensures
        a == b,
    decreases a.len(),
{
    let x = percent_encoded(a);
    let y = percent_encoded(b);
    if a.len() > 0 && b.len() > 0 {
        let (p, q) = (a.first(), b.first());
        let (s, t) = (percent_encoded(a.drop_first()), percent_encoded(b.drop_first()));
        assert(x[0] == y[0]);
        if unreserved(p) {
            assert(x[0] == p as char);
            assert(unreserved(q));
            assert(y[0] == q as char);
            assert(x.skip(1) =~= s);
            assert(y.skip(1) =~= t);
        } else {
            assert(x[0] == '%');
            assert(!unreserved(q));
            assert(x[1] == y[1]);
            assert(x[2] == y[2]);
            assert(hex_digit(p as int / 16) == hex_digit(q as int / 16));
            assert(hex_digit(p as int % 16) == hex_digit(q as int % 16));
            assert(x.skip(3) =~= s);
            assert(y.skip(3) =~= t);
        }
        assert(p == q);
        lemma_percent_encoded_injective(a.drop_first(), b.drop_first());
        assert(a =~= seq![p] + a.drop_first());
        assert(b =~= seq![q] + b.drop_first());
    } else {
        assert(a.len() > 0 ==> x.len() > 0);
        assert(b.len() > 0 ==> y.len() > 0);
        assert(a =~= b);
    }
}

/// Different queries have different addresses.
pub proof fn law_endpoints_differ(prefix: Seq<char>, a: Seq<char>, b: Seq<char>)
    requires
        endpoint(prefix, a) == endpoint(prefix, b),
    ensures
        a == b,
{
    let n = prefix.len() as int;
    let (x, y) = (percent_encoded(encode_utf8(a)), percent_encoded(encode_utf8(b)));
    assert(endpoint(prefix, a).skip(n) =~= x);
    assert(endpoint(prefix, b).skip(n) =~= y);
    lemma_percent_encoded_injective(encode_utf8(a), encode_utf8(b));
    encode_utf8_decode_utf8(a);
    encode_utf8_decode_utf8(b);
}

} // verus!
