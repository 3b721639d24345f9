//! Web addresses: taking them apart, and resolving links against the page they stand on.
use vstd::prelude::*;
use crate::text::{
    before, find_char, find_mark, from_chars, has_prefix, is_white, law_before_mark, law_one_part,
    law_parts_hold_no_separator, law_parts_in_a_row, law_trim_ignores_space, lemma_find_char_from_bounds,
    lemma_trim_end_keeps, lemma_trim_end_len, slice_of, split, split_at_marks, starts_with,
    strip_prefixes, texts, to_chars, trim, trim_end, trim_start, trimmed, without_prefixes,
};

verus! {

/// `url` without the space around it and without its scheme. A scheme that is repeated goes
/// altogether.
pub open spec fn without_scheme(url: Seq<char>) -> Seq<char> {
    strip_prefixes(strip_prefixes(trim(url), "http://"@), "https://"@)
}

/// The host that `url` names: all that stands before the first slash after the scheme.
pub open spec fn url_host(url: Seq<char>) -> Seq<char> {
    before(without_scheme(url), '/')
}

/// The path that `url` names, from the first slash after the scheme on.
pub open spec fn url_path(url: Seq<char>) -> Seq<char> {
    match find_char(without_scheme(url), '/') {
        Some(i) => without_scheme(url).skip(i),
        None => "/"@,
    }
}

/// Whether `url` asks for an encrypted connection.
pub open spec fn url_is_secure(url: Seq<char>) -> bool {
    starts_with(trim(url), "https://"@)
}

/// The scheme of a connection.
pub open spec fn scheme_of(is_secure: bool) -> Seq<char> {
    if is_secure {
        "https://"@
    } else {
        "http://"@
    }
}

/// The address that the link `href` leads to on the page `base`.
pub open spec fn resolved_url(base: Seq<char>, href: Seq<char>) -> Seq<char> {
    if starts_with(href, "http"@) {
        href
    } else {
        (if url_is_secure(base) {
            "https"@
        } else {
            "http"@
        }) + "://"@ + url_host(base) + "/"@ + strip_prefixes(href, seq!['/'])
    }
}

/// Takes `url` apart: host, path, and whether the connection is to be encrypted.
pub fn parse_url(url: &str) -> (r: (String, String, bool))
    ensures
        r.0@ == url_host(url@),
        r.1@ == url_path(url@),
        r.2 == url_is_secure(url@),
{
    let clean_url = trimmed(&to_chars(url));
    let is_secure = has_prefix(&clean_url, "https://");
    let clean_url = without_prefixes(&without_prefixes(&clean_url, "http://"), "https://");
    match find_mark(&clean_url, '/', 0) {
        Some(idx) => {
            let host = slice_of(&clean_url, 0, idx);
            let path = slice_of(&clean_url, idx, clean_url.len());
            assert(host@ =~= clean_url@.take(idx as int));
            assert(path@ =~= clean_url@.skip(idx as int));
            (from_chars(&host), from_chars(&path), is_secure)
        },
        None => (from_chars(&clean_url), "/".to_string(), is_secure),
    }
}

/// The address that the link `href` leads to on the page `base`.
pub fn resolve_url(base: &str, href: &str) -> (r: String)
    ensures
        r@ == resolved_url(base@, href@),
{
    let link = to_chars(href);
    if has_prefix(&link, "http") {
        return href.to_string();
    }
    let (host, _, is_sec) = parse_url(base);
    let proto = if is_sec {
        "https"
    } else {
        "http"
    };
    proof {
        reveal_strlit("/");
        assert("/"@ =~= seq!['/']);
    }
    let clean_href = from_chars(&without_prefixes(&link, "/"));
    let mut r = proto.to_string();
    r.append("://");
    r.append(host.as_str());
    r.append("/");
    r.append(clean_href.as_str());
    r
}

/// The name under which a file that was downloaded from `url` is stored: what follows the last
/// slash.
pub fn download_file_name(url: &str) -> (r: String)
    ensures
        r@ == split(url@, '/').last(),
{
    let parts = split_at_marks(&to_chars(url), '/');
    proof {
        law_parts_hold_no_separator(url@, '/', 0);
        assert(texts(parts@).last() == parts@.last()@);
    }
    from_chars(&parts[parts.len() - 1])
}

/// The name of a downloaded file holds no slash.
pub proof fn law_file_name_has_no_slash(url: Seq<char>)
    ensures
        !split(url, '/').last().contains('/'),
{
    law_parts_hold_no_separator(url, '/', 0);
    let parts = split(url, '/');
    assert(parts.last() == parts[parts.len() - 1]);
}

/// The host holds no slash, and the path begins with one.
pub proof fn law_host_and_path(url: Seq<char>)
    ensures
        !url_host(url).contains('/'),
        url_path(url).len() > 0 && url_path(url)[0] == '/',
{
    let clean = without_scheme(url);
    lemma_find_char_from_bounds(clean, '/', 0);
    reveal_strlit("/");
    match find_char(clean, '/') {
        Some(i) => {
            assert(clean.skip(i)[0] == clean[i]);
        },
        None => {},
    }
}

/// Without the scheme, host and path make up the address again; an address that names no path is
/// the host alone.
pub proof fn law_host_then_path(url: Seq<char>)
    ensures
        without_scheme(url).contains('/') ==> url_host(url) + url_path(url) == without_scheme(url),
        !without_scheme(url).contains('/') ==> url_host(url) == without_scheme(url) && url_path(url)
            == "/"@,
{
    let clean = without_scheme(url);
    lemma_find_char_from_bounds(clean, '/', 0);
    match find_char(clean, '/') {
        Some(i) => {
            assert(clean.take(i) + clean.skip(i) =~= clean);
            assert(clean[i] == '/');
        },
        None => {
            assert(!clean.contains('/'));
        },
    }
}

/// An address that is put together again of the parts that it was taken apart into has the same
/// parts. This does not hold of an address that is not secure and still begins with `http://` when
/// its schemes have been taken off.
pub proof fn law_address_round_trip(url: Seq<char>)
    requires
        url_is_secure(url) || !starts_with(without_scheme(url), "http://"@),
    ensures
        ({
            let again = scheme_of(url_is_secure(url)) + url_host(url) + url_path(url);
            &&& url_host(again) == url_host(url)
            &&& url_path(again) == url_path(url)
            &&& url_is_secure(again) == url_is_secure(url)
        }),
{
    let clean = without_scheme(url);
    let scheme = scheme_of(url_is_secure(url));
    let rest = url_host(url) + url_path(url);
    let again = scheme + url_host(url) + url_path(url);
    let empty = Seq::<char>::empty();
    lemma_schemes();
    reveal_strlit("/");
    law_host_then_path(url);
    assert(again =~= scheme + rest);
    lemma_strip_is_done(strip_prefixes(trim(url), "http://"@), "https://"@);
    lemma_strip_is_done(trim(url), "http://"@);
    lemma_trim_end_is_done(trim_start(url));
    if !clean.contains('/') {
        assert(rest =~= clean + "/"@ + empty);
        lemma_no_scheme(clean, empty, "http://"@, 6);
        lemma_no_scheme(clean, empty, "https://"@, 7);
        lemma_slash_is_first(clean, empty);
        assert(rest.take(clean.len() as int) =~= clean);
        assert(rest.skip(clean.len() as int) =~= "/"@);
    }
    assert(!starts_with(rest, "https://"@));
    assert(url_is_secure(url) || !starts_with(rest, "http://"@));
    assert(rest.len() > 0 && !is_white(rest.last()));
    assert(again.last() == rest.last());
    assert(again[0] == 'h');
    assert(trim(again) == again);
    assert(again.take(scheme.len() as int) =~= scheme);
    assert(again.skip(scheme.len() as int) =~= rest);
    if url_is_secure(url) {
        if starts_with(again, "http://"@) {
            assert(again.take(7)[4] == "http://"@[4]);
            assert(again[4] == 's');
        }
        assert(strip_prefixes(again, "http://"@) == again);
        assert(strip_prefixes(again, "https://"@) == strip_prefixes(rest, "https://"@));
    } else {
        if starts_with(again, "https://"@) {
            assert(again.take(8)[4] == "https://"@[4]);
            assert(again[4] == ':');
        }
        assert(strip_prefixes(again, "http://"@) == strip_prefixes(rest, "http://"@));
        assert(strip_prefixes(rest, "http://"@) == rest);
    }
    assert(strip_prefixes(rest, "https://"@) == rest);
}

/// What is left without the repetitions of a prefix does not begin with it, and ends as before.
proof fn lemma_strip_is_done(s: Seq<char>, p: Seq<char>)
    requires
        p.len() > 0,
    ensures
        !starts_with(strip_prefixes(s, p), p),
        strip_prefixes(s, p).len() > 0 ==> strip_prefixes(s, p).last() == s.last() && s.len() > 0,
    decreases s.len(),
{
    if starts_with(s, p) {
        lemma_strip_is_done(s.skip(p.len() as int), p);
    }
}

/// What is left without the space at the end does not end with space.
proof fn lemma_trim_end_is_done(s: Seq<char>)
    ensures
        trim_end(s).len() > 0 ==> !is_white(trim_end(s).last()),
    decreases s.len(),
{
    if s.len() > 0 && is_white(s.last()) {
        lemma_trim_end_is_done(s.drop_last());
    }
}

/// A link that begins with `http` leads to itself, whatever page it stands on.
pub proof fn law_absolute_link(base: Seq<char>, href: Seq<char>)
    requires
        starts_with(href, "http"@),
    ensures
        resolved_url(base, href) == href,
{
}

/// Any other link stays on the host of its page and keeps to its encryption; the path is the link
/// with exactly one slash before it, and without the space after it.
pub proof fn law_relative_link(base: Seq<char>, href: Seq<char>)
    requires
        !starts_with(href, "http"@),
    ensures
        url_host(resolved_url(base, href)) == url_host(base),
        url_is_secure(resolved_url(base, href)) == url_is_secure(base),
        url_path(resolved_url(base, href)) == "/"@ + trim_end(strip_prefixes(href, seq!['/'])),
{
    let host = url_host(base);
    let link = strip_prefixes(href, seq!['/']);
    let path = trim_end(link);
    law_host_and_path(base);
    lemma_strip_slashes(href);
    lemma_trim_end_len(link);
    assert(path.len() > 0 ==> path[0] == link[0]);
    lemma_resolved_trims(base, href);
    lemma_address_parts(url_is_secure(base), host, path);
    lemma_slash_is_first(host, path);
    let kept = host + "/"@ + path;
    let n = host.len() as int;
    assert(kept.take(n) =~= host);
    assert(kept.skip(n) =~= "/"@ + path);
}

/// Trimming the address of a link takes the space after the link off.
proof fn lemma_resolved_trims(base: Seq<char>, href: Seq<char>)
    requires
        !starts_with(href, "http"@),
    ensures
        trim(resolved_url(base, href)) == scheme_of(url_is_secure(base)) + (url_host(base) + "/"@
            + trim_end(strip_prefixes(href, seq!['/']))),
{
    let host = url_host(base);
    let link = strip_prefixes(href, seq!['/']);
    let scheme = scheme_of(url_is_secure(base));
    let url = resolved_url(base, href);
    let head = scheme + host + "/"@;
    lemma_schemes();
    reveal_strlit("/");
    assert(url =~= head + link);
    assert(url[0] == 'h');
    assert(trim_start(url) == url);
    assert(head.last() == '/');
    lemma_trim_end_of_tail(head, link);
    assert(head + trim_end(link) =~= scheme + (host + "/"@ + trim_end(link)));
}

/// What the schemes look like.
proof fn lemma_schemes()
    ensures
        "http"@ + "://"@ == "http://"@,
        "https"@ + "://"@ == "https://"@,
        "http://"@ == seq!['h', 't', 't', 'p', ':', '/', '/'],
        "https://"@ == seq!['h', 't', 't', 'p', 's', ':', '/', '/'],
{
    reveal_strlit("http://");
    reveal_strlit("https://");
    reveal_strlit("http");
    reveal_strlit("https");
    reveal_strlit("://");
    assert("http"@ + "://"@ =~= "http://"@);
    assert("https"@ + "://"@ =~= "https://"@);
    assert("http://"@ =~= seq!['h', 't', 't', 'p', ':', '/', '/']);
    assert("https://"@ =~= seq!['h', 't', 't', 'p', 's', ':', '/', '/']);
}

/// An address that is put together of its parts is secure as said, and without its scheme it is
/// host and path.
proof fn lemma_address_parts(is_secure: bool, host: Seq<char>, path: Seq<char>)
    requires
        !host.contains('/'),
        path.len() > 0 ==> path[0] != '/',
    ensures
        starts_with(scheme_of(is_secure) + (host + "/"@ + path), "https://"@) == is_secure,
        strip_prefixes(
            strip_prefixes(scheme_of(is_secure) + (host + "/"@ + path), "http://"@),
            "https://"@,
        ) == host + "/"@ + path,
{
    let kept = host + "/"@ + path;
    let scheme = scheme_of(is_secure);
    let url = scheme + kept;
    lemma_schemes();
    lemma_no_scheme(host, path, "http://"@, 6);
    lemma_no_scheme(host, path, "https://"@, 7);
    assert(url.skip(scheme.len() as int) =~= kept);
    assert(url.take(scheme.len() as int) =~= scheme);
    if is_secure {
        if starts_with(url, "http://"@) {
            assert(url.take(7)[4] == "http://"@[4]);
            assert(url[4] == 's');
        }
    } else {
        if starts_with(url, "https://"@) {
            assert(url.take(8)[4] == "https://"@[4]);
            assert(url[4] == ':');
        }
    }
    assert(strip_prefixes(kept, "http://"@) == kept);
    assert(strip_prefixes(kept, "https://"@) == kept);
}

/// Space is trimmed off the end of what follows a character that is none.
proof fn lemma_trim_end_of_tail(head: Seq<char>, tail: Seq<char>)
    requires
        head.len() > 0,
        !is_white(head.last()),
    ensures
        trim_end(head + tail) == head + trim_end(tail),
    decreases tail.len(),
{
    if tail.len() == 0 {
        assert(head + tail =~= head);
    } else {
        assert((head + tail).last() == tail.last());
        assert((head + tail).drop_last() =~= head + tail.drop_last());
        if is_white(tail.last()) {
            lemma_trim_end_of_tail(head, tail.drop_last());
        }
    }
}

/// The first slash of a host, a slash and a path is the one between them.
proof fn lemma_slash_is_first(host: Seq<char>, path: Seq<char>)
    requires
        !host.contains('/'),
    ensures
        find_char(host + "/"@ + path, '/') == Some(host.len() as int),
{
    reveal_strlit("/");
    let s = host + "/"@ + path;
    lemma_find_char_from_bounds(s, '/', 0);
    assert(s[host.len() as int] == '/');
    assert forall|k: int| 0 <= k < host.len() implies s[k] != '/' by {
        assert(s[k] == host[k]);
        assert(host.contains(host[k]));
    }
}

/// What is left of a link without the slashes that it begins with does not begin with one.
proof fn lemma_strip_slashes(s: Seq<char>)
    ensures
        strip_prefixes(s, seq!['/']).len() > 0 ==> strip_prefixes(s, seq!['/'])[0] != '/',
    decreases s.len(),
{
    if starts_with(s, seq!['/']) {
        lemma_strip_slashes(s.skip(1));
    } else if s.len() > 0 && s[0] == '/' {
        assert(s.take(1) =~= seq!['/']);
    }
}

/// Host, slash and path do not begin with a scheme, in which one slash follows another.
proof fn lemma_no_scheme(host: Seq<char>, path: Seq<char>, scheme: Seq<char>, n: int)
    requires
        !host.contains('/'),
        path.len() > 0 ==> path[0] != '/',
        scheme.len() == n + 1,
        n > 0,
        scheme[n] == '/',
        scheme[n - 1] == '/',
        forall|k: int| 0 <= k < n - 1 ==> scheme[k] != '/',
    ensures
        !starts_with(host + "/"@ + path, scheme),
{
    reveal_strlit("/");
    let s = host + "/"@ + path;
    if starts_with(s, scheme) {
        assert(s.take(scheme.len() as int) == scheme);
        assert(s[n] == '/' && s[n - 1] == '/');
        let h = host.len() as int;
        if h < n - 1 {
            assert(s[h] == '/' && s[h] == scheme[h]);
        } else if h > n - 1 {
            assert(s[n - 1] == host[n - 1]);
            assert(host.contains(host[n - 1]));
        } else {
            assert(s[n] == path[0]);
        }
    }
}

/// An address of a scheme, a host, a slash and a path has these parts. The path is taken without the
/// space at its end; one that begins with a slash of its own is left out, for it could complete
/// another scheme.
pub proof fn law_address_is_taken_apart(is_secure: bool, host: Seq<char>, path: Seq<char>)
    requires
        !host.contains('/'),
        path.len() > 0 ==> path[0] != '/' && !is_white(path.last()),
    ensures
        ({
            let scheme = if is_secure {
                seq!['h', 't', 't', 'p', 's', ':', '/', '/']
            } else {
                seq!['h', 't', 't', 'p', ':', '/', '/']
            };
            let url = scheme + host + seq!['/'] + path;
            &&& url_host(url) == host
            &&& url_path(url) == seq!['/'] + path
            &&& url_is_secure(url) == is_secure
        }),
{
    let scheme = scheme_of(is_secure);
    let kept = host + "/"@ + path;
    let url = scheme + kept;
    lemma_schemes();
    reveal_strlit("/");
    assert("/"@ =~= seq!['/']);
    assert(scheme + host + seq!['/'] + path =~= url);
    assert(url[0] == 'h');
    assert(url.last() == kept.last());
    assert(!is_white(url.last()));
    assert(trim(url) == url);
    lemma_address_parts(is_secure, host, path);
    lemma_slash_is_first(host, path);
    assert(kept.take(host.len() as int) =~= host);
    assert(kept.skip(host.len() as int) =~= seq!['/'] + path);
}

/// An address of a scheme and a host alone has this host, and the path of a single slash.
pub proof fn law_bare_host_is_taken_apart(is_secure: bool, host: Seq<char>)
    requires
        !host.contains('/'),
        host.len() > 0 ==> !is_white(host.last()),
    ensures
        ({
            let scheme = if is_secure {
                seq!['h', 't', 't', 'p', 's', ':', '/', '/']
            } else {
                seq!['h', 't', 't', 'p', ':', '/', '/']
            };
            let url = scheme + host;
            &&& url_host(url) == host
            &&& url_path(url) == seq!['/']
            &&& url_is_secure(url) == is_secure
        }),
{
    let scheme = scheme_of(is_secure);
    let url = scheme + host;
    lemma_schemes();
    reveal_strlit("/");
    assert("/"@ =~= seq!['/']);
    assert(url[0] == 'h');
    assert(host.len() == 0 ==> url =~= scheme);
    assert(host.len() > 0 ==> url.last() == host.last());
    assert(trim(url) == url);
    assert(url.skip(scheme.len() as int) =~= host);
    assert(url.take(scheme.len() as int) =~= scheme);
    lemma_no_slash_no_scheme(host, "http://"@);
    lemma_no_slash_no_scheme(host, "https://"@);
    if is_secure {
        if starts_with(url, "http://"@) {
            assert(url.take(7)[4] == "http://"@[4]);
            assert(url[4] == 's');
        }
    } else {
        if starts_with(url, "https://"@) {
            assert(url.take(8)[4] == "https://"@[4]);
            assert(url[4] == ':');
        }
    }
    assert(strip_prefixes(host, "http://"@) == host);
    assert(strip_prefixes(host, "https://"@) == host);
    assert(without_scheme(url) == host);
    lemma_find_char_from_bounds(host, '/', 0);
    if find_char(host, '/') is Some {
        assert(host.contains(host[find_char(host, '/')->0]));
    }
}

/// What holds no slash does not begin with a scheme.
proof fn lemma_no_slash_no_scheme(host: Seq<char>, scheme: Seq<char>)
    requires
        !host.contains('/'),
        scheme.len() > 0,
        scheme.last() == '/',
    ensures
        !starts_with(host, scheme),
{
    if starts_with(host, scheme) {
        let n = scheme.len() - 1;
        assert(host.take(scheme.len() as int)[n] == host[n]);
        assert(host.contains(host[n]));
    }
}

/// An address without a scheme is that of an open connection: its host is all before the first slash,
/// and its path is the rest, or a single slash where there is no rest.
pub proof fn law_address_without_scheme(host: Seq<char>, rest: Seq<char>)
    requires
        !host.contains('/'),
        rest.len() > 0 ==> rest[0] == '/',
        (host + rest).len() > 0 ==> !is_white((host + rest)[0]) && !is_white((host + rest).last()),
        !starts_with(host + rest, seq!['h', 't', 't', 'p', ':', '/', '/']),
        !starts_with(host + rest, seq!['h', 't', 't', 'p', 's', ':', '/', '/']),
    ensures
        url_host(host + rest) == host,
        url_path(host + rest) == (if rest.len() > 0 {
            rest
        } else {
            seq!['/']
        }),
        !url_is_secure(host + rest),
{
    lemma_schemes();
    reveal_strlit("/");
    assert("/"@ =~= seq!['/']);
    let url = host + rest;
    assert(trim(url) == url);
    assert(strip_prefixes(url, "http://"@) == url);
    assert(strip_prefixes(url, "https://"@) == url);
    law_before_mark(host, '/', rest.skip(1));
    if rest.len() > 0 {
        assert(url =~= host + seq!['/'] + rest.skip(1));
        assert(url.skip(host.len() as int) =~= rest);
    } else {
        assert(url =~= host);
    }
}

/// White space around an address says nothing.
pub proof fn law_space_around_address(c: char, url: Seq<char>)
    requires
        is_white(c),
    ensures
        url_host(seq![c] + url) == url_host(url),
        url_path(seq![c] + url) == url_path(url),
        url_is_secure(seq![c] + url) == url_is_secure(url),
        url_host(url + seq![c]) == url_host(url),
        url_path(url + seq![c]) == url_path(url),
        url_is_secure(url + seq![c]) == url_is_secure(url),
{
    law_trim_ignores_space(c, url);
}

/// A scheme that is repeated says no more than one: the first decides on the encryption, and the
/// host follows the last. Behind the scheme of an encrypted connection only that scheme is taken off.
pub proof fn law_repeated_scheme(url: Seq<char>)
    requires
        url.len() > 0,
        !is_white(url[0]),
    ensures
        ({
            let open = seq!['h', 't', 't', 'p', ':', '/', '/'];
            let safe = seq!['h', 't', 't', 'p', 's', ':', '/', '/'];
            &&& url_host(open + url) == url_host(url)
            &&& url_path(open + url) == url_path(url)
            &&& !url_is_secure(open + url)
            &&& url_is_secure(safe + url)
            &&& !starts_with(url, open) ==> url_host(safe + url) == url_host(url) && url_path(safe + url)
                == url_path(url)
            &&& starts_with(url, open) ==> url_host(safe + url) == seq!['h', 't', 't', 'p', ':'] && url_path(
                safe + url,
            ) == trim(url).skip(5)
        }),
{
    lemma_schemes();
    let open = "http://"@;
    let safe = "https://"@;
    let core = trim(url);
    lemma_trim_end_len(url);
    lemma_trim_end_keeps(url, 0);
    assert(trim_start(url) == url);
    assert(core[0] == url[0]);
    let a = open + url;
    let b = safe + url;
    assert(a[0] == 'h' && b[0] == 'h');
    lemma_trim_end_of_tail(open, url);
    lemma_trim_end_of_tail(safe, url);
    assert(trim(a) == open + core);
    assert(trim(b) == safe + core);
    assert((open + core).take(7) =~= open);
    assert((open + core).skip(7) =~= core);
    assert((safe + core).take(8) =~= safe);
    assert((safe + core).skip(8) =~= core);
    if starts_with(trim(a), safe) {
        assert(trim(a).take(8)[4] == safe[4]);
        assert(trim(a)[4] == ':');
    }
    if starts_with(trim(b), open) {
        assert(trim(b).take(7)[4] == open[4]);
        assert(trim(b)[4] == 's');
    }
    assert(strip_prefixes(trim(b), open) == trim(b));
    if !starts_with(url, open) {
        if starts_with(core, open) {
            assert(core.take(7) =~= url.take(7));
        }
    } else {
        assert(url.take(7)[6] == url[6] && open[6] == '/');
        lemma_trim_end_keeps(url, 6);
        assert(core.take(7) =~= url.take(7));
        if starts_with(core, safe) {
            assert(core.take(8)[4] == safe[4]);
            assert(core.take(7)[4] == open[4]);
        }
        assert(strip_prefixes(core, safe) == core);
        let name = seq!['h', 't', 't', 'p', ':'];
        assert(core.take(5) =~= name) by {
            assert(core.take(7)[0] == 'h' && core.take(7)[1] == 't' && core.take(7)[2] == 't' && core.take(
                7,
            )[3] == 'p' && core.take(7)[4] == ':' && core.take(7)[5] == '/');
        }
        assert(core.take(7)[5] == '/');
        assert(core =~= name + seq!['/'] + core.skip(6));
        law_before_mark(name, '/', core.skip(6));
    }
}

/// A link on the page of a host leads to that host, under the encryption of the page, and to the path
/// that is the link behind exactly one slash; a link that begins with `http` leads to itself.
pub proof fn law_link_is_resolved(
    is_secure: bool,
    host: Seq<char>,
    path: Seq<char>,
    slashes: nat,
    link: Seq<char>,
)
    requires
        !host.contains('/'),
        path.len() > 0 ==> path[0] != '/' && !is_white(path.last()),
        link.len() > 0 ==> link[0] != '/',
    ensures
        ({
            let scheme = if is_secure {
                seq!['h', 't', 't', 'p', 's', ':', '/', '/']
            } else {
                seq!['h', 't', 't', 'p', ':', '/', '/']
            };
            let page = scheme + host + seq!['/'] + path;
            let href = Seq::new(slashes, |i: int| '/') + link;
            let is_absolute = href.len() >= 4 && href[0] == 'h' && href[1] == 't' && href[2] == 't'
                && href[3] == 'p';
            resolved_url(page, href) == (if is_absolute {
                href
            } else {
                scheme + host + seq!['/'] + link
            })
        }),
{
    let scheme = scheme_of(is_secure);
    let page = scheme + host + seq!['/'] + path;
    let href = Seq::new(slashes, |i: int| '/') + link;
    lemma_schemes();
    reveal_strlit("http");
    reveal_strlit("/");
    reveal_strlit("://");
    assert("/"@ =~= seq!['/']);
    law_address_is_taken_apart(is_secure, host, path);
    lemma_leading_slashes(slashes, link);
    if href.len() >= 4 {
        assert(href.take(4)[0] == href[0] && href.take(4)[1] == href[1] && href.take(4)[2] == href[2]
            && href.take(4)[3] == href[3]);
        if href[0] == 'h' && href[1] == 't' && href[2] == 't' && href[3] == 'p' {
            assert(href.take(4) =~= "http"@);
        }
    }
    assert(starts_with(href, "http"@) <==> href.len() >= 4 && href[0] == 'h' && href[1] == 't' && href[2]
        == 't' && href[3] == 'p');
    if !starts_with(href, "http"@) {
        let proto = if is_secure {
            "https"@
        } else {
            "http"@
        };
        assert(proto + "://"@ == scheme);
        assert(resolved_url(page, href) == proto + "://"@ + host + "/"@ + link);
    }
}

proof fn lemma_leading_slashes(n: nat, link: Seq<char>)
    requires
        link.len() > 0 ==> link[0] != '/',
    ensures
        strip_prefixes(Seq::new(n, |i: int| '/') + link, seq!['/']) == link,
    decreases n,
{
    let s = Seq::new(n, |i: int| '/') + link;
    if n == 0 {
        assert(s =~= link);
        if starts_with(link, seq!['/']) {
            assert(link.take(1)[0] == link[0]);
        }
    } else {
        let m = (n - 1) as nat;
        assert(s.take(1) =~= seq!['/']);
        assert(s.skip(1) =~= Seq::new(m, |i: int| '/') + link);
        lemma_leading_slashes(m, link);
    }
}

/// The name of a downloaded file is all that stands behind the last slash of its address, and the
/// address itself where it has none.
pub proof fn law_file_name_follows_last_slash(front: Seq<char>, name: Seq<char>)
    requires
        !name.contains('/'),
    ensures
        split(front + seq!['/'] + name, '/').last() == name,
        split(name, '/').last() == name,
{
    law_parts_in_a_row(front, '/', name);
    law_one_part(name, '/');
    let parts = split(front, '/') + split(name, '/');
    assert(parts.last() == name);
}

/// Whether `address` is where the link `link` leads to on the page `page`: itself where it begins with
/// `http`; otherwise to the host of the page, under the encryption of the page, and to the path that
/// is the link behind exactly one slash and without the space at its end.
pub open spec fn leads_to(page: Seq<char>, link: Seq<char>, address: Seq<char>) -> bool {
    if link.len() >= 4 && link[0] == 'h' && link[1] == 't' && link[2] == 't' && link[3] == 'p' {
        address == link
    } else {
        &&& url_host(address) == url_host(page)
        &&& url_is_secure(address) == url_is_secure(page)
        &&& url_path(address) == seq!['/'] + trim_end(strip_prefixes(link, seq!['/']))
    }
}

/// Every link is resolved to where it leads.
pub proof fn law_link_leads(page: Seq<char>, link: Seq<char>)
    ensures
        leads_to(page, link, resolved_url(page, link)),
{
    reveal_strlit("http");
    reveal_strlit("/");
    assert("/"@ =~= seq!['/']);
    if link.len() >= 4 {
        assert(link.take(4)[0] == link[0] && link.take(4)[1] == link[1] && link.take(4)[2] == link[2]
            && link.take(4)[3] == link[3]);
        if link[0] == 'h' && link[1] == 't' && link[2] == 't' && link[3] == 'p' {
            assert(link.take(4) =~= "http"@);
        }
    }
    if !starts_with(link, "http"@) {
        law_relative_link(page, link);
    }
}

} // verus!
