//! Minimal URL parser.
//!
//! Supports `http://` and `https://` schemes only.

use vstd::prelude::*;

use crate::text::{
    chars_of, concat_chars, chars_start_with, index_of, index_of_char, last_index_of,
    last_index_of_char, lemma_index_of_from, lemma_parse_number_chars, lemma_digit_is_plain,
    number_chars, parse_unsigned, parse_unsigned_chars, starts_with, string_from_chars,
};

verus! {

/// Parsed URL components.
pub struct ParsedUrl {
    /// `true` for HTTPS, `false` for HTTP.
    pub is_https: bool,
    /// Hostname (e.g. `"example.com"`).
    pub host: String,
    /// Port number (defaults to 443 for HTTPS, 80 for HTTP).
    pub port: u16,
    /// Path + query string (e.g. `"/api/v1?foo=bar"`).  Defaults to `"/"`.
    pub path: String,
}

impl ParsedUrl {
    /// Scheme, host, port and path.
    pub open spec fn model(&self) -> (bool, Seq<char>, u16, Seq<char>) {
        (self.is_https, self.host@, self.port, self.path@)
    }
}

/// The port used when a URL names none: 443 for HTTPS, 80 for HTTP.
pub open spec fn default_port(is_https: bool) -> u16 {
    if is_https {
        443
    } else {
        80
    }
}

/// A host, port and path, unless the host is empty.
pub open spec fn host_model(is_https: bool, host: Seq<char>, port: u16, path: Seq<char>) -> Result<
    (bool, Seq<char>, u16, Seq<char>),
    Seq<char>,
> {
    if host.len() == 0 {
        Err("empty hostname"@)
    } else {
        Ok((is_https, host, port, path))
    }
}

/// What follows the scheme: the host and optional `:port` up to the first
/// `/`, and the path from that `/` on (`"/"` when there is none).  The port is
/// what follows the last `:` of the host part.
pub open spec fn authority_model(is_https: bool, rest: Seq<char>) -> Result<
    (bool, Seq<char>, u16, Seq<char>),
    Seq<char>,
> {
    let (host_port, path) = match index_of(rest, '/') {
        Some(i) => (rest.take(i), rest.skip(i)),
        None => (rest, "/"@),
    };
    match last_index_of(host_port, ':') {
        Some(j) => match parse_unsigned(host_port.skip(j + 1), false, 65535) {
            None => Err("bad port: "@ + host_port.skip(j + 1)),
            Some(p) => host_model(is_https, host_port.take(j), p as u16, path),
        },
        None => host_model(is_https, host_port, default_port(is_https), path),
    }
}

/// An `http://` or `https://` URL split into scheme, host, port and path, or
/// the error message for an unsupported scheme, a bad port or an empty host.
pub open spec fn url_model(url: Seq<char>) -> Result<(bool, Seq<char>, u16, Seq<char>), Seq<char>> {
    if starts_with(url, "https://"@) {
        authority_model(true, url.skip("https://"@.len() as int))
    } else if starts_with(url, "http://"@) {
        authority_model(false, url.skip("http://"@.len() as int))
    } else {
        Err("unsupported scheme in: "@ + url)
    }
}

/// Parse an HTTP or HTTPS URL into its components.
///
/// Returns an error string if the URL scheme is unsupported or the URL is
/// otherwise malformed.
pub fn parse_url(url: &str) -> (r: Result<ParsedUrl, String>)
    ensures
        match url_model(url@) {
            Ok(m) => r matches Ok(p) && p.model() == m,
            Err(msg) => r matches Err(e) && e@ == msg,
        },
{
    let all = chars_of(url);
    let https = chars_of("https://");
    let http = chars_of("http://");
    let (is_https, skip) = if chars_start_with(all.as_slice(), https.as_slice()) {
        (true, https.len())
    } else if chars_start_with(all.as_slice(), http.as_slice()) {
        (false, http.len())
    } else {
        return Err(concat_chars("unsupported scheme in: ", all.as_slice()));
    };
    let n = all.len();
    let rest = &all.as_slice()[skip..n];
    assert(rest@ =~= all@.skip(skip as int));
    proof {
        lemma_index_of_from(rest@, '/', 0);
    }
    let (host_port, path) = match index_of_char(rest, '/', 0) {
        Some(i) => {
            let hp = &rest[0..i];
            assert(hp@ =~= rest@.take(i as int));
            let p = &rest[i..rest.len()];
            assert(p@ =~= rest@.skip(i as int));
            (hp, string_from_chars(p))
        },
        None => {
            let hp = &rest[0..rest.len()];
            assert(hp@ =~= rest@);
            (hp, "/".to_string())
        },
    };
    proof {
        lemma_last_index_of(host_port@, ':', host_port@.len() as int);
    }
    let (host, port) = match last_index_of_char(host_port, ':') {
        Some(j) => {
            let port_str = &host_port[j + 1..host_port.len()];
            assert(port_str@ =~= host_port@.skip(j + 1));
            let port = match parse_unsigned_chars(port_str, false, 65535) {
                Some(p) => p as u16,
                None => return Err(concat_chars("bad port: ", port_str)),
            };
            let h = &host_port[0..j];
            assert(h@ =~= host_port@.take(j as int));
            (h, port)
        },
        None => (host_port, if is_https {
            443
        } else {
            80
        }),
    };
    if host.len() == 0 {
        return Err("empty hostname".to_string());
    }
    Ok(ParsedUrl { is_https, host: string_from_chars(host), port, path })
}

/// A parsed URL always has a non-empty host and a path that starts with `/`.
pub proof fn parsed_url_has_host_and_rooted_path(url: Seq<char>)
    ensures
        url_model(url) matches Ok((_, host, _, path)) ==> host.len() > 0 && path.len() > 0
            && path[0] == '/',
{
    reveal_strlit("/");
    let rest = if starts_with(url, "https://"@) {
        url.skip("https://"@.len() as int)
    } else {
        url.skip("http://"@.len() as int)
    };
    lemma_index_of_from(rest, '/', 0);
}

/// `last_index_of_before` finds the last occurrence below `j`.
proof fn lemma_last_index_of(s: Seq<char>, x: char, j: int)
    requires
        0 <= j <= s.len(),
    ensures
        match crate::text::last_index_of_before(s, x, j) {
            Some(k) => 0 <= k < j && s[k] == x && forall|i: int| k < i < j ==> s[i] != x,
            None => forall|i: int| 0 <= i < j ==> s[i] != x,
        },
    decreases j,
{
    if j > 0 && s[j - 1] != x {
        lemma_last_index_of(s, x, j - 1);
    }
}

/// A URL written out in full: scheme, host, `:port` and path.
pub open spec fn url_text(is_https: bool, host: Seq<char>, port: u16, path: Seq<char>) -> Seq<char> {
    (if is_https {
        "https://"@
    } else {
        "http://"@
    }) + host + seq![':'] + number_chars(port as nat, false) + path
}

/// A parsed URL, written out again as `scheme://host:port` followed by its
/// path, parses back to the same parts.
pub proof fn parsed_url_prints_back(url: Seq<char>)
    ensures
        url_model(url) matches Ok((is_https, host, port, path)) ==> url_model(
            url_text(is_https, host, port, path),
        ) == url_model(url),
{
    if let Ok((is_https, host, port, path)) = url_model(url) {
        parsed_url_has_host_and_rooted_path(url);
        lemma_parsed_host_has_no_slash(url);
        lemma_url_text_parses(is_https, host, port, path);
    }
}

/// The host of a parsed URL holds no `/`.
proof fn lemma_parsed_host_has_no_slash(url: Seq<char>)
    ensures
        url_model(url) matches Ok((_, host, _, _)) ==> forall|k: int| 0 <= k < host.len() ==> host[k] != '/',
{
    reveal_strlit("https://");
    reveal_strlit("http://");
    if let Ok((is_https, host, port, path)) = url_model(url) {
        let sch = if is_https {
            "https://"@
        } else {
            "http://"@
        };
        let rest = url.skip(sch.len() as int);
        assert(url_model(url) == authority_model(is_https, rest));
        lemma_index_of_from(rest, '/', 0);
        let host_port = match index_of(rest, '/') {
            Some(i) => rest.take(i),
            None => rest,
        };
        assert(forall|k: int| 0 <= k < host_port.len() ==> host_port[k] != '/');
        lemma_last_index_of(host_port, ':', host_port.len() as int);
        match last_index_of(host_port, ':') {
            Some(jj) => {
                assert(host == host_port.take(jj));
            },
            None => {
                assert(host == host_port);
            },
        }
        assert(forall|k: int| 0 <= k < host.len() ==> host[k] == host_port[k]);
    }
}

/// A URL written out from a non-empty host without `/`, a port and a path
/// starting with `/` parses to exactly those parts.
proof fn lemma_url_text_parses(is_https: bool, host: Seq<char>, port: u16, path: Seq<char>)
    requires
        host.len() > 0,
        forall|k: int| 0 <= k < host.len() ==> host[k] != '/',
        path.len() > 0,
        path[0] == '/',
    ensures
        url_model(url_text(is_https, host, port, path)) == Ok::<_, Seq<char>>((is_https, host, port, path)),
{
    reveal_strlit("https://");
    reveal_strlit("http://");
    let sch = if is_https {
        "https://"@
    } else {
        "http://"@
    };
    let rest = host + seq![':'] + number_chars(port as nat, false) + path;
    let t = url_text(is_https, host, port, path);
    assert(t =~= sch + rest);
    if is_https {
        assert(t.take(8) =~= "https://"@);
    } else {
        assert(t.take(7) =~= "http://"@);
        assert(!starts_with(t, "https://"@)) by {
            if starts_with(t, "https://"@) {
                assert(t.take(8)[4] == 's');
                assert(t[4] == ':');
            }
        }
    }
    assert(t.skip(sch.len() as int) =~= rest);
    lemma_authority_parses(is_https, host, port, path);
}

/// `host:port` followed by a path starting with `/` splits back into them.
proof fn lemma_authority_parses(is_https: bool, host: Seq<char>, port: u16, path: Seq<char>)
    requires
        host.len() > 0,
        forall|k: int| 0 <= k < host.len() ==> host[k] != '/',
        path.len() > 0,
        path[0] == '/',
    ensures
        authority_model(is_https, host + seq![':'] + number_chars(port as nat, false) + path)
            == Ok::<_, Seq<char>>((is_https, host, port, path)),
{
    let d = number_chars(port as nat, false);
    lemma_parse_number_chars(port as nat, false, 65535);
    assert forall|k: int| 0 <= k < d.len() implies d[k] != '/' && d[k] != ':' by {
        lemma_digit_is_plain(d[k], false);
    }
    let hp = host + seq![':'] + d;
    let rest = host + seq![':'] + d + path;
    assert(rest =~= hp + path);
    lemma_index_of_from(rest, '/', 0);
    let q = hp.len() as int;
    assert(rest[q] == '/');
    assert forall|k: int| 0 <= k < q implies rest[k] != '/' by {
        assert(rest[k] == hp[k]);
        if k > host.len() {
            assert(hp[k] == d[k - host.len() - 1]);
        }
    }
    assert(index_of(rest, '/') == Some(q));
    assert(rest.take(q) =~= hp);
    assert(rest.skip(q) =~= path);
    lemma_last_index_of(hp, ':', hp.len() as int);
    let j = host.len() as int;
    assert(hp[j] == ':');
    assert forall|k: int| j < k < hp.len() implies hp[k] != ':' by {
        assert(hp[k] == d[k - j - 1]);
    }
    assert(last_index_of(hp, ':') == Some(j));
    assert(hp.skip(j + 1) =~= d);
    assert(hp.take(j) =~= host);
}

} // verus!
