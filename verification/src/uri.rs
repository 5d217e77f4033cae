//! URI endpoint parsing and normalization.

use vstd::prelude::*;
use vstd::string::*;

use crate::text::{
    after_last_char, all_digits, ascii_lower, back_ws, before_char, is_digit, is_lower, is_ws, lower_char, concat2, find_char, find_either, find_either_str, find_pat, lemma_back_ws_bounds, lemma_find_pat_bounds, lemma_skip_ws_bounds, occurs_at, skip_ws,
    lemma_find_either_bounds, lemma_rfind_char_bounds, lemma_strip_trailing_bounds, owned,
    parse_bounded, parse_unsigned, rfind_char, rfind_char_str, rsplit_once_char, scheme_sep,
    split_once_pat, split_scheme, strip_trailing, strip_trailing_str, text_eq, to_ascii_lower, trim,
    trim_str,
};

verus! {

/// The port that a URI scheme implies when the URI gives none.
pub open spec fn default_port(scheme: Seq<char>) -> Option<u16> {
    let l = ascii_lower(scheme);
    if l == "ipp"@ || l == "http"@ || l == "ipps"@ {
        Some(631)
    } else if l == "https"@ {
        Some(443)
    } else if l == "socket"@ {
        Some(9100)
    } else if l == "lpd"@ {
        Some(515)
    } else {
        None
    }
}

/// The authority of the part after `://`: the text before the first `/`, after its last
/// `@`, trimmed.
pub open spec fn authority_of(rest: Seq<char>) -> Seq<char> {
    trim(after_last_char(before_char(rest, '/'), '@'))
}

/// Host and port of a bracketed (IPv6) authority.
pub open spec fn bracketed_endpoint(authority: Seq<char>, dflt: Option<u16>) -> Option<
    (Seq<char>, u16),
> {
    let end = find_char(authority, ']', 0);
    if end >= authority.len() {
        None
    } else {
        let suffix = authority.subrange(end + 1, authority.len() as int);
        let explicit = if suffix.len() > 0 && suffix[0] == ':' {
            parse_unsigned(suffix.drop_first(), 65535)
        } else {
            None
        };
        let host = ascii_lower(authority.subrange(0, end + 1));
        match explicit {
            Some(p) => Some((host, p as u16)),
            None => match dflt {
                Some(p) => Some((host, p)),
                None => None,
            },
        }
    }
}

/// Host and port of an authority without brackets: a numeric suffix after the last
/// `:` is the port, otherwise the scheme's default applies.
pub open spec fn plain_endpoint(authority: Seq<char>, dflt: Option<u16>) -> Option<
    (Seq<char>, u16),
> {
    match rsplit_once_char(authority, ':') {
        Some((h, p)) if parse_unsigned(p, 65535) is Some => Some(
            (ascii_lower(h), parse_unsigned(p, 65535)->0 as u16),
        ),
        _ => match dflt {
            Some(p) => Some((ascii_lower(authority), p)),
            None => None,
        },
    }
}

/// The lower-case host and the explicit or default port of a URI.
pub open spec fn endpoint_of(uri: Seq<char>) -> Option<(Seq<char>, u16)> {
    match split_once_pat(uri, scheme_sep()) {
        None => None,
        Some((scheme, rest)) => {
            let authority = authority_of(rest);
            if authority.len() == 0 {
                None
            } else if authority[0] == '[' {
                bracketed_endpoint(authority, default_port(scheme))
            } else {
                plain_endpoint(authority, default_port(scheme))
            }
        },
    }
}

/// The URI without query and fragment, without trailing slashes, lower-cased.
pub open spec fn prefix_of(uri: Seq<char>) -> Seq<char> {
    let cut = uri.subrange(0, find_either(uri, '?', '#', 0));
    ascii_lower(cut.subrange(0, strip_trailing(cut, '/', cut.len() as int)))
}

/// The authority names a port: a `:` after the closing `]` of a bracketed (IPv6) host, or
/// any `:` in an authority without such a host.
pub open spec fn has_port(authority: Seq<char>) -> bool {
    let end = find_char(authority, ']', 0);
    let colon = rfind_char(authority, ':', authority.len() as int);
    if authority.len() > 0 && authority[0] == '[' && end < authority.len() {
        colon > end
    } else {
        colon >= 0
    }
}

/// Whether an authority names a port.
fn has_port_str(authority: &str) -> (r: bool)
    ensures
        r == has_port(authority@),
{
    let n = authority.unicode_len();
    let end = find_either_str(authority, ']', ']', 0);
    let colon = rfind_char_str(authority, ':');
    if n > 0 && authority.get_char(0) == '[' && end < n {
        match colon {
            Some(c) => c > end,
            None => false,
        }
    } else {
        colon.is_some()
    }
}

/// The URI as identities compare it: its prefix, with IPP's default port made explicit
/// and a slash between authority and path.
pub open spec fn identity_uri(uri: Seq<char>) -> Seq<char> {
    let n = prefix_of(uri);
    match split_once_pat(n, scheme_sep()) {
        None => n,
        Some((scheme, rest)) => {
            let slash = find_char(rest, '/', 0);
            let authority = rest.subrange(0, slash);
            let path = if slash < rest.len() {
                rest.subrange(slash + 1, rest.len() as int)
            } else {
                Seq::empty()
            };
            let authority = if (scheme == "ipp"@ || scheme == "ipps"@) && !has_port(authority) {
                authority + ":631"@
            } else {
                authority
            };
            scheme + "://"@ + authority + "/"@ + path
        },
    }
}

/// The schemes whose devices may have a web page on their host.
pub open spec fn web_scheme(scheme: Seq<char>) -> bool {
    scheme == "http"@ || scheme == "https"@ || scheme == "ipp"@ || scheme == "ipps"@ || scheme
        == "socket"@ || scheme == "lpd"@
}

/// `http://` and the host of a device URI whose scheme is a known one.
pub open spec fn web_page_of(device_uri: Seq<char>) -> Option<Seq<char>> {
    let u = trim(device_uri);
    match split_once_pat(u, scheme_sep()) {
        None => None,
        Some((scheme, rest)) => {
            let a1 = trim(before_char(rest, '/'));
            let a2 = trim(after_last_char(a1, '@'));
            let host = trim(before_char(a2, ':'));
            if !web_scheme(scheme) || a1.len() == 0 || a2.len() == 0 || host.len() == 0 {
                None
            } else {
                Some("http://"@ + host)
            }
        },
    }
}

/// The text of `s` before its first `c`.
fn before_char_str(s: &str, c: char) -> (r: &str)
    ensures
        r@ == before_char(s@, c),
{
    let end = find_either_str(s, c, c, 0);
    proof {
        lemma_find_either_bounds(s@, c, c, 0);
    }
    s.substring_char(0, end)
}

/// The text of `s` after its last `c` (all of `s` when it holds none).
fn after_last_char_str(s: &str, c: char) -> (r: &str)
    ensures
        r@ == after_last_char(s@, c),
{
    let n = s.unicode_len();
    match rfind_char_str(s, c) {
        Some(i) => {
            proof {
                lemma_rfind_char_bounds(s@, c, n as int);
            }
            s.substring_char(i + 1, n)
        },
        None => s.substring_char(0, n),
    }
}

fn default_port_of(scheme: &str) -> (r: Option<u16>)
    ensures
        r == default_port(scheme@),
{
    let l = to_ascii_lower(scheme);
    let l = l.as_str();
    if text_eq(l, "ipp") || text_eq(l, "http") || text_eq(l, "ipps") {
        Some(631)
    } else if text_eq(l, "https") {
        Some(443)
    } else if text_eq(l, "socket") {
        Some(9100)
    } else if text_eq(l, "lpd") {
        Some(515)
    } else {
        None
    }
}

/// Parses a URI into a lowercase hostname and explicit or default port.
pub fn parse_uri_endpoint(uri: &str) -> (r: Option<(String, u16)>)
    ensures
        match r {
            Some((host, port)) => endpoint_of(uri@) == Some((host@, port)),
            None => endpoint_of(uri@) is None,
        },
{
    let (scheme, rest) = match split_scheme(uri) {
        Some(parts) => parts,
        None => return None,
    };
    let authority = trim_str(after_last_char_str(before_char_str(rest, '/'), '@'));
    let n = authority.unicode_len();
    if n == 0 {
        return None;
    }
    let dflt = default_port_of(scheme);
    if authority.get_char(0) == '[' {
        let end = find_either_str(authority, ']', ']', 0);
        proof {
            lemma_find_either_bounds(authority@, ']', ']', 0);
        }
        if end >= n {
            return None;
        }
        let suffix = authority.substring_char(end + 1, n);
        let explicit: Option<u64> = if suffix.unicode_len() > 0 && suffix.get_char(0) == ':' {
            let digits = suffix.substring_char(1, suffix.unicode_len());
            assert(digits@ == suffix@.drop_first());
            parse_bounded(digits, 65535)
        } else {
            None
        };
        let host = to_ascii_lower(authority.substring_char(0, end + 1));
        return match explicit {
            Some(p) => Some((host, p as u16)),
            None => match dflt {
                Some(p) => Some((host, p)),
                None => None,
            },
        };
    }
    match rfind_char_str(authority, ':') {
        Some(i) => {
            proof {
                lemma_rfind_char_bounds(authority@, ':', n as int);
            }
            let port_text = authority.substring_char(i + 1, n);
            match parse_bounded(port_text, 65535) {
                Some(p) => {
                    let host = to_ascii_lower(authority.substring_char(0, i));
                    return Some((host, p as u16));
                },
                None => {},
            }
        },
        None => {},
    }
    match dflt {
        Some(p) => Some((to_ascii_lower(authority), p)),
        None => None,
    }
}

/// Removes query, fragment, and trailing slash data and lowercases a URI.
pub fn uri_prefix(uri: &str) -> (r: String)
    ensures
        r@ == prefix_of(uri@),
{
    let end = find_either_str(uri, '?', '#', 0);
    proof {
        lemma_find_either_bounds(uri@, '?', '#', 0);
    }
    let cut = uri.substring_char(0, end);
    let keep = strip_trailing_str(cut, '/');
    proof {
        lemma_strip_trailing_bounds(cut@, '/', cut@.len() as int);
    }
    to_ascii_lower(cut.substring_char(0, keep))
}

/// Normalizes a URI for identity comparison and supplies IPP's default port.
pub fn uri_identity(uri: &str) -> (r: String)
    ensures
        r@ == identity_uri(uri@),
{
    let normalized = uri_prefix(uri);
    let (scheme, rest) = match split_scheme(normalized.as_str()) {
        Some(parts) => parts,
        None => return normalized,
    };
    let n = rest.unicode_len();
    let slash = find_either_str(rest, '/', '/', 0);
    proof {
        lemma_find_either_bounds(rest@, '/', '/', 0);
    }
    let authority = rest.substring_char(0, slash);
    let path = if slash < n {
        rest.substring_char(slash + 1, n)
    } else {
        rest.substring_char(n, n)
    };
    assert(slash >= n ==> path@ == Seq::<char>::empty());
    let mut out = owned(scheme);
    out.append("://");
    out.append(authority);
    if (text_eq(scheme, "ipp") || text_eq(scheme, "ipps")) && !has_port_str(authority) {
        out.append(":631");
    }
    out.append("/");
    out.append(path);
    out
}

/// The device's web page, `http://` and the host of its URI, when its scheme is known.
pub fn web_page_from_device_uri(device_uri: &str) -> (r: Option<String>)
    ensures
        match r {
            Some(page) => web_page_of(device_uri@) == Some(page@),
            None => web_page_of(device_uri@) is None,
        },
{
    let u = trim_str(device_uri);
    let (scheme, rest) = match split_scheme(u) {
        Some(parts) => parts,
        None => return None,
    };
    let supported = text_eq(scheme, "http") || text_eq(scheme, "https") || text_eq(scheme, "ipp")
        || text_eq(scheme, "ipps") || text_eq(scheme, "socket") || text_eq(scheme, "lpd");
    if !supported {
        return None;
    }
    let a1 = trim_str(before_char_str(rest, '/'));
    if a1.unicode_len() == 0 {
        return None;
    }
    let a2 = trim_str(after_last_char_str(a1, '@'));
    if a2.unicode_len() == 0 {
        return None;
    }
    let host = trim_str(before_char_str(a2, ':'));
    if host.unicode_len() == 0 {
        return None;
    }
    Some(concat2("http://", host))
}

} // verus!

verus! {

/// Lower-casing leaves no ASCII upper-case letter.
pub proof fn lemma_ascii_lower_is_lower(s: Seq<char>)
    ensures
        is_lower(ascii_lower(s)),
{
    assert forall|i: int| 0 <= i < ascii_lower(s).len() implies !('A' <= #[trigger] ascii_lower(s)[i] && ascii_lower(s)[i] <= 'Z') by {
        let c = s[i];
        if 'A' <= c && c <= 'Z' {
            assert((c as u32) + 32 >= 'a' as u32);
        }
    }
}

/// Lower-casing a lower-case string changes nothing.
pub proof fn lemma_ascii_lower_fixed(s: Seq<char>)
    requires
        is_lower(s),
    ensures
        ascii_lower(s) == s,
{
    assert forall|i: int| 0 <= i < s.len() implies #[trigger] ascii_lower(s)[i] == s[i] by {
        assert(!('A' <= s[i] && s[i] <= 'Z'));
    }
    assert(ascii_lower(s) =~= s);
}

/// The host of a parsed endpoint holds no ASCII upper-case letter.
pub proof fn lemma_endpoint_host_lower(uri: Seq<char>)
    ensures
        endpoint_of(uri) matches Some((host, _)) ==> is_lower(host),
{
    match split_once_pat(uri, scheme_sep()) {
        None => {},
        Some((scheme, rest)) => {
            let authority = authority_of(rest);
            if authority.len() > 0 {
                if authority[0] == '[' {
                    let end = find_char(authority, ']', 0);
                    if end < authority.len() {
                        lemma_ascii_lower_is_lower(authority.subrange(0, end + 1));
                    }
                } else {
                    lemma_ascii_lower_is_lower(authority);
                    match rsplit_once_char(authority, ':') {
                        Some((h, p)) => {
                            lemma_ascii_lower_is_lower(h);
                        },
                        None => {},
                    }
                }
            }
        },
    }
}

proof fn lemma_find_either_absent(s: Seq<char>, a: char, b: char, i: int)
    requires
        0 <= i <= s.len(),
        forall|k: int| i <= k < s.len() ==> #[trigger] s[k] != a && s[k] != b,
    ensures
        find_either(s, a, b, i) == s.len(),
    decreases s.len() - i,
{
    if i < s.len() {
        lemma_find_either_absent(s, a, b, i + 1);
    }
}

/// Taking the prefix of a URI prefix changes nothing.
pub proof fn lemma_uri_prefix_idempotent(uri: Seq<char>)
    ensures
        prefix_of(prefix_of(uri)) == prefix_of(uri),
{
    let end = find_either(uri, '?', '#', 0);
    lemma_find_either_bounds(uri, '?', '#', 0);
    let cut = uri.subrange(0, end);
    let keep = strip_trailing(cut, '/', cut.len() as int);
    lemma_strip_trailing_bounds(cut, '/', cut.len() as int);
    let c2 = cut.subrange(0, keep);
    let t = ascii_lower(c2);
    assert(t == prefix_of(uri));
    assert forall|k: int| 0 <= k < t.len() implies #[trigger] t[k] != '?' && t[k] != '#' by {
        assert(c2[k] == uri[k]);
        assert(uri[k] != '?' && uri[k] != '#');
    }
    lemma_find_either_absent(t, '?', '#', 0);
    assert(t.subrange(0, t.len() as int) == t);
    if t.len() > 0 {
        assert(c2[t.len() - 1] != '/');
        assert(t[t.len() - 1] != '/');
    }
    assert(strip_trailing(t, '/', t.len() as int) == t.len());
    lemma_ascii_lower_is_lower(c2);
    lemma_ascii_lower_fixed(t);
}

} // verus!

verus! {

/// A URI prefix holds no ASCII upper-case letter.
pub proof fn lemma_uri_prefix_lower(uri: Seq<char>)
    ensures
        is_lower(prefix_of(uri)),
{
    let cut = uri.subrange(0, find_either(uri, '?', '#', 0));
    lemma_ascii_lower_is_lower(cut.subrange(0, strip_trailing(cut, '/', cut.len() as int)));
}

} // verus!

verus! {

proof fn lemma_lower_find_either(s: Seq<char>, a: char, b: char, i: int)
    requires
        0 <= i <= s.len(),
        !('A' <= a && a <= 'Z'),
        !('A' <= b && b <= 'Z'),
        !('a' <= a && a <= 'z'),
        !('a' <= b && b <= 'z'),
    ensures
        find_either(ascii_lower(s), a, b, i) == find_either(s, a, b, i),
    decreases s.len() - i,
{
    if i < s.len() {
        let c = s[i];
        assert(ascii_lower(s)[i] == lower_char(c));
        if 'A' <= c && c <= 'Z' {
            assert((c as u32) + 32 >= 'a' as u32);
            assert((c as u32) + 32 <= 'z' as u32);
        }
        lemma_lower_find_either(s, a, b, i + 1);
    }
}

proof fn lemma_lower_strip_trailing(s: Seq<char>, j: int)
    requires
        0 <= j <= s.len(),
    ensures
        strip_trailing(ascii_lower(s), '/', j) == strip_trailing(s, '/', j),
    decreases j,
{
    if j > 0 {
        let c = s[j - 1];
        assert(ascii_lower(s)[j - 1] == lower_char(c));
        if 'A' <= c && c <= 'Z' {
            assert((c as u32) + 32 >= 'a' as u32);
        }
        lemma_lower_strip_trailing(s, j - 1);
    }
}

/// URIs that differ only in the case of ASCII letters have the same prefix.
pub proof fn lemma_uri_prefix_ignores_case(uri: Seq<char>)
    ensures
        prefix_of(ascii_lower(uri)) == prefix_of(uri),
{
    let l = ascii_lower(uri);
    lemma_lower_find_either(uri, '?', '#', 0);
    let e = find_either(uri, '?', '#', 0);
    lemma_find_either_bounds(uri, '?', '#', 0);
    let cut = uri.subrange(0, e);
    assert(l.subrange(0, e) == ascii_lower(cut));
    lemma_lower_strip_trailing(cut, cut.len() as int);
    let k = strip_trailing(cut, '/', cut.len() as int);
    lemma_strip_trailing_bounds(cut, '/', cut.len() as int);
    assert(ascii_lower(cut).subrange(0, k) == ascii_lower(cut.subrange(0, k)));
    lemma_ascii_lower_is_lower(cut.subrange(0, k));
    lemma_ascii_lower_fixed(ascii_lower(cut.subrange(0, k)));
}

/// URIs that differ only in the case of ASCII letters have the same identity URI.
pub proof fn lemma_identity_uri_ignores_case(uri: Seq<char>)
    ensures
        identity_uri(ascii_lower(uri)) == identity_uri(uri),
{
    lemma_uri_prefix_ignores_case(uri);
}

} // verus!

verus! {

/// `c` is no ASCII letter.
pub open spec fn not_letter(c: char) -> bool {
    !('A' <= c && c <= 'Z') && !('a' <= c && c <= 'z')
}

proof fn lemma_lower_char_against(c: char, d: char)
    requires
        not_letter(d),
    ensures
        (lower_char(c) == d) == (c == d),
        is_ws(lower_char(c)) == is_ws(c),
        is_digit(lower_char(c)) == is_digit(c),
{
    if 'A' <= c && c <= 'Z' {
        assert((c as u32) + 32 >= 'a' as u32);
        assert((c as u32) + 32 <= 'z' as u32);
    }
}

proof fn lemma_lower_subrange(s: Seq<char>, i: int, j: int)
    requires
        0 <= i <= j <= s.len(),
    ensures
        ascii_lower(s).subrange(i, j) == ascii_lower(s.subrange(i, j)),
{
    assert(ascii_lower(s).subrange(i, j) =~= ascii_lower(s.subrange(i, j)));
}

proof fn lemma_lower_idempotent(s: Seq<char>)
    ensures
        ascii_lower(ascii_lower(s)) == ascii_lower(s),
{
    lemma_ascii_lower_is_lower(s);
    lemma_ascii_lower_fixed(ascii_lower(s));
}

proof fn lemma_lower_rfind(s: Seq<char>, c: char, j: int)
    requires
        not_letter(c),
    ensures
        rfind_char(ascii_lower(s), c, j) == rfind_char(s, c, j),
    decreases j,
{
    if 0 < j <= s.len() {
        lemma_lower_char_against(s[j - 1], c);
        lemma_lower_rfind(s, c, j - 1);
    }
}

proof fn lemma_lower_skip_ws(s: Seq<char>, i: int)
    ensures
        skip_ws(ascii_lower(s), i) == skip_ws(s, i),
    decreases s.len() - i,
{
    if 0 <= i < s.len() {
        lemma_lower_char_against(s[i], ' ');
        lemma_lower_skip_ws(s, i + 1);
    }
}

proof fn lemma_lower_back_ws(s: Seq<char>, lo: int, j: int)
    requires
        0 <= lo,
        j <= s.len(),
    ensures
        back_ws(ascii_lower(s), lo, j) == back_ws(s, lo, j),
    decreases j - lo,
{
    if lo < j {
        lemma_lower_char_against(s[j - 1], ' ');
        lemma_lower_back_ws(s, lo, j - 1);
    }
}

/// Trimming and lower-casing ASCII letters can be done in either order.
pub proof fn lemma_lower_trim(s: Seq<char>)
    ensures
        trim(ascii_lower(s)) == ascii_lower(trim(s)),
{
    lemma_lower_skip_ws(s, 0);
    let lo = skip_ws(s, 0);
    lemma_skip_ws_bounds(s, 0);
    lemma_lower_back_ws(s, lo, s.len() as int);
    lemma_back_ws_bounds(s, lo, s.len() as int);
    lemma_lower_subrange(s, lo, back_ws(s, lo, s.len() as int));
}

proof fn lemma_lower_find_pat(s: Seq<char>, p: Seq<char>, i: int)
    requires
        forall|k: int| 0 <= k < p.len() ==> not_letter(#[trigger] p[k]),
    ensures
        find_pat(ascii_lower(s), p, i) == find_pat(s, p, i),
    decreases s.len() + 1 - i,
{
    let l = ascii_lower(s);
    if 0 <= i && i + p.len() <= s.len() {
        if occurs_at(s, p, i) {
            assert forall|k: int| 0 <= k < p.len() implies #[trigger] l.subrange(i, i + p.len())[k]
                == p[k] by {
                assert(s.subrange(i, i + p.len())[k] == p[k]);
                lemma_lower_char_against(s[i + k], p[k]);
            }
            assert(l.subrange(i, i + p.len()) =~= p);
        }
        if occurs_at(l, p, i) {
            assert forall|k: int| 0 <= k < p.len() implies #[trigger] s.subrange(i, i + p.len())[k]
                == p[k] by {
                assert(l.subrange(i, i + p.len())[k] == p[k]);
                lemma_lower_char_against(s[i + k], p[k]);
            }
            assert(s.subrange(i, i + p.len()) =~= p);
        }
        lemma_lower_find_pat(s, p, i + 1);
    }
}

proof fn lemma_lower_parse_unsigned(s: Seq<char>, max: nat)
    ensures
        parse_unsigned(ascii_lower(s), max) == parse_unsigned(s, max),
{
    let l = ascii_lower(s);
    let signed = s.len() > 0 && s[0] == '+';
    if s.len() > 0 {
        lemma_lower_char_against(s[0], '+');
        lemma_lower_subrange(s, 1, s.len() as int);
        assert(s.drop_first() == s.subrange(1, s.len() as int));
        assert(l.drop_first() == l.subrange(1, s.len() as int));
    }
    let d = if signed {
        s.drop_first()
    } else {
        s
    };
    assert(ascii_lower(d) == if l.len() > 0 && l[0] == '+' {
        l.drop_first()
    } else {
        l
    });
    if all_digits(d) {
        assert forall|i: int| 0 <= i < d.len() implies !('A' <= #[trigger] d[i] && d[i] <= 'Z') by {
            assert(is_digit(d[i]));
        }
        lemma_ascii_lower_fixed(d);
    } else {
        let k = choose|k: int| 0 <= k < d.len() && !is_digit(#[trigger] d[k]);
        lemma_lower_char_against(d[k], '+');
        assert(!is_digit(ascii_lower(d)[k]));
    }
}

proof fn lemma_lower_authority(rest: Seq<char>)
    ensures
        authority_of(ascii_lower(rest)) == ascii_lower(authority_of(rest)),
{
    let l = ascii_lower(rest);
    lemma_lower_find_either(rest, '/', '/', 0);
    lemma_find_either_bounds(rest, '/', '/', 0);
    let b = before_char(rest, '/');
    lemma_lower_subrange(rest, 0, find_char(rest, '/', 0));
    assert(before_char(l, '/') == ascii_lower(b));
    lemma_lower_rfind(b, '@', b.len() as int);
    lemma_rfind_char_bounds(b, '@', b.len() as int);
    lemma_lower_subrange(b, rfind_char(b, '@', b.len() as int) + 1, b.len() as int);
    assert(after_last_char(ascii_lower(b), '@') == ascii_lower(after_last_char(b, '@')));
    lemma_lower_trim(after_last_char(b, '@'));
}

proof fn lemma_lower_bracketed(a: Seq<char>, dflt: Option<u16>)
    ensures
        bracketed_endpoint(ascii_lower(a), dflt) == bracketed_endpoint(a, dflt),
{
    let l = ascii_lower(a);
    lemma_lower_find_either(a, ']', ']', 0);
    lemma_find_either_bounds(a, ']', ']', 0);
    let end = find_char(a, ']', 0);
    if end < a.len() {
        let suffix = a.subrange(end + 1, a.len() as int);
        lemma_lower_subrange(a, end + 1, a.len() as int);
        if suffix.len() > 0 {
            lemma_lower_char_against(suffix[0], ':');
            lemma_lower_subrange(suffix, 1, suffix.len() as int);
            assert(suffix.drop_first() == suffix.subrange(1, suffix.len() as int));
            assert(ascii_lower(suffix).drop_first() == ascii_lower(suffix).subrange(
                1,
                suffix.len() as int,
            ));
            lemma_lower_parse_unsigned(suffix.drop_first(), 65535);
        }
        lemma_lower_subrange(a, 0, end + 1);
        lemma_lower_idempotent(a.subrange(0, end + 1));
    }
}

proof fn lemma_lower_plain(a: Seq<char>, dflt: Option<u16>)
    ensures
        plain_endpoint(ascii_lower(a), dflt) == plain_endpoint(a, dflt),
{
    lemma_lower_rfind(a, ':', a.len() as int);
    lemma_rfind_char_bounds(a, ':', a.len() as int);
    let i = rfind_char(a, ':', a.len() as int);
    if i >= 0 {
        lemma_lower_subrange(a, 0, i);
        lemma_lower_subrange(a, i + 1, a.len() as int);
        lemma_lower_parse_unsigned(a.subrange(i + 1, a.len() as int), 65535);
        lemma_lower_idempotent(a.subrange(0, i));
    }
    lemma_lower_idempotent(a);
}

/// Scheme and host are compared without regard to case: a URI and its lower-cased form
/// have the same endpoint.
pub proof fn lemma_endpoint_ignores_case(uri: Seq<char>)
    ensures
        endpoint_of(ascii_lower(uri)) == endpoint_of(uri),
{
    let l = ascii_lower(uri);
    let sep = scheme_sep();
    lemma_lower_find_pat(uri, sep, 0);
    lemma_find_pat_bounds(uri, sep, 0);
    let i = find_pat(uri, sep, 0);
    if i >= 0 {
        let scheme = uri.subrange(0, i);
        let rest = uri.subrange(i + 3, uri.len() as int);
        lemma_lower_subrange(uri, 0, i);
        lemma_lower_subrange(uri, i + 3, uri.len() as int);
        assert(split_once_pat(l, sep) == Some((ascii_lower(scheme), ascii_lower(rest))));
        lemma_lower_authority(rest);
        let a = authority_of(rest);
        if a.len() > 0 {
            lemma_lower_char_against(a[0], '[');
        }
        lemma_lower_idempotent(scheme);
        assert(default_port(ascii_lower(scheme)) == default_port(scheme));
        lemma_lower_bracketed(a, default_port(scheme));
        lemma_lower_plain(a, default_port(scheme));
    }
}

} // verus!

verus! {

proof fn lemma_lower_add(a: Seq<char>, b: Seq<char>)
    ensures
        ascii_lower(a + b) == ascii_lower(a) + ascii_lower(b),
{
    assert(ascii_lower(a + b) =~= ascii_lower(a) + ascii_lower(b));
}

proof fn lemma_strip_trailing_after(a: Seq<char>, b: Seq<char>, c: char, j: int)
    requires
        a.len() > 0,
        a.last() != c,
        0 <= j <= b.len(),
    ensures
        strip_trailing(a + b, c, a.len() + j) == a.len() + strip_trailing(b, c, j),
    decreases j,
{
    if j > 0 {
        assert((a + b)[a.len() + j - 1] == b[j - 1]);
        lemma_strip_trailing_after(a, b, c, j - 1);
    } else {
        assert((a + b)[a.len() - 1] == a.last());
    }
}

proof fn lemma_find_pat_at(s: Seq<char>, p: Seq<char>, i: int, j: int)
    requires
        0 <= i <= j,
        occurs_at(s, p, j),
        forall|k: int| i <= k < j ==> !#[trigger] occurs_at(s, p, k),
    ensures
        find_pat(s, p, i) == j,
    decreases j - i,
{
    if i < j {
        lemma_find_pat_at(s, p, i + 1, j);
    }
}

proof fn lemma_find_char_at(s: Seq<char>, c: char, i: int, j: int)
    requires
        0 <= i <= j <= s.len(),
        forall|k: int| i <= k < j ==> #[trigger] s[k] != c,
        j == s.len() || s[j] == c,
    ensures
        find_char(s, c, i) == j,
    decreases j - i,
{
    if i < j {
        lemma_find_char_at(s, c, i + 1, j);
    }
}

/// Whether an authority names a port does not depend on the case of its letters.
proof fn lemma_has_port_ignores_case(a: Seq<char>)
    ensures
        has_port(ascii_lower(a)) == has_port(a),
{
    lemma_lower_find_either(a, ']', ']', 0);
    lemma_lower_rfind(a, ':', a.len() as int);
    if a.len() > 0 {
        lemma_lower_char_against(a[0], '[');
    }
}

/// What an identity URI keeps of `t`, the part from the `/` after the authority on:
/// the text after that `/`, without trailing slashes, lower-cased.
spec fn kept_path(t: Seq<char>) -> Seq<char> {
    let k = strip_trailing(t, '/', t.len() as int);
    if k == 0 {
        Seq::empty()
    } else {
        ascii_lower(t.subrange(1, k))
    }
}

proof fn lemma_identity_uri_shape(s: Seq<char>, h: Seq<char>, t: Seq<char>)
    requires
        s == "ipp"@ || s == "ipps"@,
        h.len() > 0,
        forall|k: int| 0 <= k < h.len() ==> #[trigger] h[k] != '/' && h[k] != '?' && h[k] != '#',
        t.len() > 0,
        t[0] == '/',
        forall|k: int| 0 <= k < t.len() ==> #[trigger] t[k] != '?' && t[k] != '#',
    ensures
        identity_uri(s + "://"@ + h + t) == s + "://"@ + (if has_port(h) {
            ascii_lower(h)
        } else {
            ascii_lower(h) + ":631"@
        }) + "/"@ + kept_path(t),
{
    reveal_strlit("ipp");
    reveal_strlit("ipps");
    reveal_strlit("://");
    let sep = "://"@;
    assert(sep == scheme_sep());
    let a = s + sep + h;
    let u = a + t;
    assert forall|k: int| 0 <= k < u.len() implies #[trigger] u[k] != '?' && u[k] != '#' by {
        if k < s.len() {
            assert(u[k] == s[k]);
        } else if k < s.len() + 3 {
            assert(u[k] == sep[k - s.len()]);
        } else if k < a.len() {
            assert(u[k] == h[k - s.len() - 3]);
        } else {
            assert(u[k] == t[k - a.len()]);
        }
    }
    lemma_find_either_absent(u, '?', '#', 0);
    assert(u.subrange(0, u.len() as int) == u);
    let kt = strip_trailing(t, '/', t.len() as int);
    lemma_strip_trailing_bounds(t, '/', t.len() as int);
    assert(a.last() == h[h.len() - 1]);
    lemma_strip_trailing_after(a, t, '/', t.len() as int);
    let tk = t.subrange(0, kt);
    assert(u.subrange(0, a.len() + kt) == a + tk);
    lemma_lower_add(a, tk);
    lemma_lower_add(s + sep, h);
    lemma_lower_add(s, sep);
    assert(ascii_lower(s) == s);
    assert(ascii_lower(sep) == sep);
    let lh = ascii_lower(h);
    let tl = ascii_lower(tk);
    let rest = lh + tl;
    let n = s + sep + rest;
    assert(prefix_of(u) == n);
    assert(occurs_at(n, sep, s.len() as int)) by {
        assert(n.subrange(s.len() as int, s.len() as int + 3) =~= sep);
    }
    assert forall|k: int| 0 <= k < s.len() implies !#[trigger] occurs_at(n, sep, k) by {
        if occurs_at(n, sep, k) {
            assert(n.subrange(k, k + 3)[0] == n[k]);
            assert(n[k] == s[k]);
        }
    }
    lemma_find_pat_at(n, sep, 0, s.len() as int);
    assert(n.subrange(0, s.len() as int) == s);
    assert(n.subrange(s.len() as int + 3, n.len() as int) == rest);
    assert forall|k: int| 0 <= k < lh.len() implies #[trigger] rest[k] != '/' by {
        assert(rest[k] == lh[k]);
        lemma_lower_char_against(h[k], '/');
    }
    if kt > 0 {
        assert(rest[lh.len() as int] == tl[0]);
        assert(tk[0] == t[0]);
        lemma_lower_char_against(t[0], '/');
    }
    lemma_find_char_at(rest, '/', 0, lh.len() as int);
    assert(rest.subrange(0, lh.len() as int) == lh);
    if kt > 0 {
        lemma_lower_subrange(tk, 1, kt);
        assert(tk.subrange(1, kt) == t.subrange(1, kt));
        assert(rest.subrange(lh.len() as int + 1, rest.len() as int) == tl.subrange(1, kt));
    }
    lemma_has_port_ignores_case(h);
}

/// An `ipp` or `ipps` URI whose authority names no port identifies the same device as the
/// URI that names IPP's port 631 explicitly.
pub proof fn lemma_identity_uri_default_port(s: Seq<char>, h: Seq<char>, path: Seq<char>)
    requires
        s == "ipp"@ || s == "ipps"@,
        h.len() > 0,
        forall|k: int| 0 <= k < h.len() ==> #[trigger] h[k] != '/' && h[k] != '?' && h[k] != '#',
        !has_port(h),
        forall|k: int| 0 <= k < path.len() ==> #[trigger] path[k] != '?' && path[k] != '#',
    ensures
        identity_uri(s + "://"@ + h + "/"@ + path) == identity_uri(s + "://"@ + h + ":631/"@ + path),
{
    reveal_strlit("/");
    reveal_strlit(":631");
    reveal_strlit(":631/");
    let t = "/"@ + path;
    let port = ":631"@;
    let h2 = h + port;
    assert(s + "://"@ + h + "/"@ + path == s + "://"@ + h + t);
    assert(s + "://"@ + h + ":631/"@ + path =~= s + "://"@ + h2 + t);
    assert forall|k: int| 0 <= k < t.len() implies #[trigger] t[k] != '?' && t[k] != '#' by {
        if k > 0 {
            assert(t[k] == path[k - 1]);
        }
    }
    assert forall|k: int| 0 <= k < h2.len() implies #[trigger] h2[k] != '/' && h2[k] != '?' && h2[k]
        != '#' by {
        if k < h.len() {
            assert(h2[k] == h[k]);
        }
    }
    lemma_identity_uri_shape(s, h, t);
    lemma_identity_uri_shape(s, h2, t);
    // the authority with the port names one
    let colon = rfind_char(h2, ':', h2.len() as int);
    lemma_rfind_char_bounds(h2, ':', h2.len() as int);
    assert(h2[h.len() as int] == ':');
    assert(colon == h.len()) by {
        if colon < h.len() {
            assert(h2[h.len() as int] != ':');
        }
        if colon > h.len() {
            assert(h2[colon] == port[colon - h.len()]);
        }
    }
    let end = find_char(h2, ']', 0);
    lemma_find_either_bounds(h2, ']', ']', 0);
    if end < h2.len() && end >= h.len() {
        assert(h2[end] == port[end - h.len()]);
    }
    assert(has_port(h2));
    lemma_lower_add(h, port);
    assert(ascii_lower(port) == port);
}

} // verus!

verus! {

proof fn lemma_trim_unchanged(s: Seq<char>)
    requires
        s.len() > 0,
        !is_ws(s[0]),
        !is_ws(s[s.len() - 1]),
    ensures
        trim(s) == s,
{
    assert(skip_ws(s, 0) == 0);
    assert(back_ws(s, 0, s.len() as int) == s.len());
    assert(s.subrange(0, s.len() as int) =~= s);
}

/// A device URI of a known scheme whose authority is a plain host gives the web page on
/// that host: for `s` one of `http`, `https`, `ipp`, `ipps`, `socket`, `lpd`, and a host
/// without `:`, `@`, `/` or whitespace, `s://host/path` gives `http://host`.
pub proof fn lemma_web_page_of_host(s: Seq<char>, h: Seq<char>, path: Seq<char>)
    requires
        s == "http"@ || s == "https"@ || s == "ipp"@ || s == "ipps"@ || s == "socket"@ || s
            == "lpd"@,
        h.len() > 0,
        forall|k: int|
            0 <= k < h.len() ==> #[trigger] h[k] != ':' && h[k] != '@' && h[k] != '/' && !is_ws(
                h[k],
            ),
        forall|k: int| 0 <= k < path.len() ==> !is_ws(#[trigger] path[k]),
    ensures
        web_page_of(s + "://"@ + h + "/"@ + path) == Some("http://"@ + h),
{
    reveal_strlit("http");
    reveal_strlit("https");
    reveal_strlit("ipp");
    reveal_strlit("ipps");
    reveal_strlit("socket");
    reveal_strlit("lpd");
    reveal_strlit("://");
    reveal_strlit("/");
    let sep = "://"@;
    assert(sep == scheme_sep());
    let rest = h + "/"@ + path;
    let u = s + sep + rest;
    assert(s + "://"@ + h + "/"@ + path =~= u);
    // nothing to trim
    assert(u[0] == s[0]);
    if path.len() > 0 {
        assert(u[u.len() - 1] == path[path.len() - 1]);
    } else {
        assert(u[u.len() - 1] == '/');
    }
    lemma_trim_unchanged(u);
    // the scheme ends at the first "://"
    assert(occurs_at(u, sep, s.len() as int)) by {
        assert(u.subrange(s.len() as int, s.len() as int + 3) =~= sep);
    }
    assert forall|k: int| 0 <= k < s.len() implies !#[trigger] occurs_at(u, sep, k) by {
        if occurs_at(u, sep, k) {
            assert(u.subrange(k, k + 3)[0] == u[k]);
            assert(u[k] == s[k]);
        }
    }
    lemma_find_pat_at(u, sep, 0, s.len() as int);
    assert(u.subrange(0, s.len() as int) == s);
    assert(u.subrange(s.len() as int + 3, u.len() as int) == rest);
    // the authority is the host
    assert forall|k: int| 0 <= k < h.len() implies #[trigger] rest[k] != '/' by {
        assert(rest[k] == h[k]);
    }
    assert(rest[h.len() as int] == '/');
    lemma_find_char_at(rest, '/', 0, h.len() as int);
    assert(before_char(rest, '/') == h);
    lemma_trim_unchanged(h);
    lemma_rfind_char_bounds(h, '@', h.len() as int);
    assert(rfind_char(h, '@', h.len() as int) == -1);
    assert(after_last_char(h, '@') =~= h);
    lemma_find_char_at(h, ':', 0, h.len() as int);
    assert(before_char(h, ':') =~= h);
}

} // verus!
