//! What is said to a web server, and what its answer holds.
use vstd::prelude::*;
use crate::css::opt_text;
use crate::text::ends_with;
use crate::url::{parse_url, url_host, url_is_secure, url_path};

verus! {

/// A request to a web server.
#[derive(Debug)]
pub struct Request {
    /// The name that the server's certificate is held against.
    pub host: String,
    /// Where to connect to.
    pub address: String,
    /// Whether the connection is to be encrypted.
    pub is_secure: bool,
    /// What to send.
    pub text: String,
}

/// The contents of a [`Request`].
pub struct RequestView {
    pub host: Seq<char>,
    pub address: Seq<char>,
    pub is_secure: bool,
    pub text: Seq<char>,
}

impl View for Request {
    type V = RequestView;

    open spec fn view(&self) -> RequestView {
        RequestView {
            host: self.host@,
            address: self.address@,
            is_secure: self.is_secure,
            text: self.text@,
        }
    }
}

/// The line that hands a cookie to the server.
pub open spec fn cookie_line(cookie: Option<Seq<char>>) -> Seq<char> {
    match cookie {
        Some(c) => "Cookie: "@ + c + "\r\n"@,
        None => Seq::empty(),
    }
}

/// What is sent to ask `host` for `path`.
pub open spec fn request_text(host: Seq<char>, path: Seq<char>, cookie: Option<Seq<char>>) -> Seq<
    char,
> {
    "GET "@ + path + " HTTP/1.0\r\nHost: "@ + host
        + "\r\nConnection: close\r\nUser-Agent: Gruz_Engine/3.1\r\n"@ + cookie_line(cookie) + "\r\n"@
}

/// The request for the page `url`.
pub open spec fn request_for(url: Seq<char>, cookie: Option<Seq<char>>) -> RequestView {
    RequestView {
        host: url_host(url),
        address: url_host(url) + (if url_is_secure(url) {
            ":443"@
        } else {
            ":80"@
        }),
        is_secure: url_is_secure(url),
        text: request_text(url_host(url), url_path(url), cookie),
    }
}

/// The request for the page `url`.
pub fn build_request(url: &str, cookie: &Option<String>) -> (r: Request)
    ensures
        r@ == request_for(url@, opt_text(*cookie)),
{
    let (host, path, is_secure) = parse_url(url);
    let mut address = host.clone();
    if is_secure {
        address.append(":443");
    } else {
        address.append(":80");
    }
    let mut text = "GET ".to_string();
    text.append(path.as_str());
    text.append(" HTTP/1.0\r\nHost: ");
    text.append(host.as_str());
    text.append("\r\nConnection: close\r\nUser-Agent: Gruz_Engine/3.1\r\n");
    let ghost start = text@;
    match cookie {
        Some(c) => {
            text.append("Cookie: ");
            text.append(c.as_str());
            text.append("\r\n");
            assert(text@ =~= start + cookie_line(opt_text(*cookie)));
        },
        None => {
            assert(text@ =~= start + cookie_line(opt_text(*cookie)));
        },
    }
    text.append("\r\n");
    Request { host, address, is_secure, text }
}

/// The end of a line and an empty line.
pub open spec fn blank_line() -> Seq<u8> {
    seq![13u8, 10, 13, 10]
}

/// Whether the headers of `response` end at position `i`: with an empty line.
pub open spec fn is_blank_line(response: Seq<u8>, i: int) -> bool {
    &&& 0 <= i
    &&& i + 3 < response.len()
    &&& response[i] == 13
    &&& response[i + 1] == 10
    &&& response[i + 2] == 13
    &&& response[i + 3] == 10
}

/// Where the headers of `response` end, from position `from` on.
pub open spec fn headers_end(response: Seq<u8>, from: int) -> Option<int>
    decreases response.len() - from,
{
    if from < 0 || from + 3 >= response.len() {
        None
    } else if is_blank_line(response, from) {
        Some(from)
    } else {
        headers_end(response, from + 1)
    }
}

/// The body of `response`: what follows its first empty line, or all of it where there is none.
pub open spec fn body_of(response: Seq<u8>) -> Seq<u8> {
    match headers_end(response, 0) {
        Some(i) => response.skip(i + 4),
        None => response,
    }
}

/// The bytes of `bytes` from position `from` on.
fn bytes_from(bytes: &Vec<u8>, from: usize) -> (r: Vec<u8>)
    requires
        from <= bytes.len(),
    ensures
        r@ == bytes@.skip(from as int),
{
    let mut r: Vec<u8> = Vec::new();
    let mut i: usize = from;
    while i < bytes.len()
        invariant
            from <= i <= bytes.len(),
            r@ == bytes@.subrange(from as int, i as int),
        decreases bytes.len() - i,
    {
        r.push(bytes[i]);
        i = i + 1;
        assert(bytes@.subrange(from as int, i as int) =~= bytes@.subrange(from as int, i - 1).push(
            bytes@[i - 1],
        ));
    }
    assert(bytes@.subrange(from as int, i as int) =~= bytes@.skip(from as int));
    r
}

/// The body of `response`.
pub fn response_body(response: &Vec<u8>) -> (r: Vec<u8>)
    ensures
        r@ == body_of(response@),
{
    let mut i: usize = 0;
    while i < response.len().saturating_sub(3)
        invariant
            i <= response.len(),
            headers_end(response@, 0) == headers_end(response@, i as int),
        decreases response.len() - i,
    {
        if response[i] == 13 && response[i + 1] == 10 && response[i + 2] == 13 && response[i + 3] == 10 {
            return bytes_from(response, i + 4);
        }
        i = i + 1;
    }
    assert(response@.skip(0) =~= response@);
    bytes_from(response, 0)
}

/// A response that consists of headers without an empty line, an empty line and a body has that
/// body.
pub proof fn law_body_follows_headers(headers: Seq<u8>, body: Seq<u8>)
    requires
        forall|k: int| 0 <= k < headers.len() ==> !#[trigger] is_blank_line(
            headers + blank_line(),
            k,
        ),
    ensures
        body_of(headers + blank_line() + body) == body,
{
    let response = headers + blank_line() + body;
    let n = headers.len() as int;
    let ended = headers + blank_line();
    assert forall|k: int| 0 <= k < n implies !#[trigger] is_blank_line(response, k) by {
        assert(!is_blank_line(ended, k));
        assert(response[k] == ended[k] && response[k + 1] == ended[k + 1] && response[k + 2]
            == ended[k + 2] && response[k + 3] == ended[k + 3]);
    }
    assert(is_blank_line(response, n));
    lemma_headers_end(response, 0, n);
    assert(response.skip(n + 4) =~= body);
}

proof fn lemma_headers_end(response: Seq<u8>, from: int, n: int)
    requires
        0 <= from <= n,
        is_blank_line(response, n),
        forall|k: int| from <= k < n ==> !#[trigger] is_blank_line(response, k),
    ensures
        headers_end(response, from) == Some(n),
    decreases n - from,
{
    if from < n {
        assert(!is_blank_line(response, from));
        lemma_headers_end(response, from + 1, n);
    }
}

/// A response without an empty line is all body.
pub proof fn law_no_headers_all_body(response: Seq<u8>)
    requires
        forall|k: int| !#[trigger] is_blank_line(response, k),
    ensures
        body_of(response) == response,
{
    lemma_no_headers_end(response, 0);
}

proof fn lemma_no_headers_end(response: Seq<u8>, from: int)
    requires
        forall|k: int| !#[trigger] is_blank_line(response, k),
    ensures
        headers_end(response, from) is None,
    decreases response.len() - from,
{
    if 0 <= from && from + 3 < response.len() {
        lemma_no_headers_end(response, from + 1);
    }
}

/// A request ends with an empty line, whatever is asked for.
pub proof fn law_request_ends(host: Seq<char>, path: Seq<char>, cookie: Option<Seq<char>>)
    ensures
        ends_with(request_text(host, path, cookie), "\r\n\r\n"@),
{
    reveal_strlit("\r\n\r\n");
    reveal_strlit("\r\n");
    reveal_strlit("\r\nConnection: close\r\nUser-Agent: Gruz_Engine/3.1\r\n");
    let text = request_text(host, path, cookie);
    assert(text.skip(text.len() - 4) =~= "\r\n\r\n"@);
}

/// A request for an address goes to its host, at the port of encrypted or of open connections, and
/// says line by line what is asked for, of whom and by whom; the cookie has a line of its own.
pub proof fn law_request_is_written(url: Seq<char>, cookie: Option<Seq<char>>)
    ensures
        ({
            let host = url_host(url);
            let is_secure = url_is_secure(url);
            let request = request_for(url, cookie);
            let end = seq!['\r', '\n'];
            let start = "GET "@ + url_path(url) + " HTTP/1.0"@ + end + ("Host: "@ + host + end) + (
            "Connection: close"@ + end) + ("User-Agent: Gruz_Engine/3.1"@ + end);
            &&& request.host == host
            &&& request.is_secure == is_secure
            &&& is_secure ==> request.address == host + seq![':', '4', '4', '3']
            &&& !is_secure ==> request.address == host + seq![':', '8', '0']
            &&& cookie matches Some(c) ==> request.text == start + ("Cookie: "@ + c + end) + end
            &&& cookie is None ==> request.text == start + end
        }),
{
    let host = url_host(url);
    let path = url_path(url);
    reveal_strlit(":443");
    reveal_strlit(":80");
    reveal_strlit("\r\n");
    reveal_strlit(" HTTP/1.0\r\nHost: ");
    reveal_strlit(" HTTP/1.0");
    reveal_strlit("Host: ");
    reveal_strlit("\r\nConnection: close\r\nUser-Agent: Gruz_Engine/3.1\r\n");
    reveal_strlit("Connection: close");
    reveal_strlit("User-Agent: Gruz_Engine/3.1");
    let end = seq!['\r', '\n'];
    assert("\r\n"@ =~= end);
    assert(":443"@ =~= seq![':', '4', '4', '3']);
    assert(":80"@ =~= seq![':', '8', '0']);
    assert(" HTTP/1.0\r\nHost: "@ =~= " HTTP/1.0"@ + end + "Host: "@);
    assert("\r\nConnection: close\r\nUser-Agent: Gruz_Engine/3.1\r\n"@ =~= end + ("Connection: close"@ + end)
        + ("User-Agent: Gruz_Engine/3.1"@ + end));
    lemma_request_lines(
        "GET "@,
        path,
        " HTTP/1.0"@,
        end,
        "Host: "@,
        host,
        "Connection: close"@ + end,
        "User-Agent: Gruz_Engine/3.1"@ + end,
    );
    match cookie {
        Some(c) => {},
        None => {
            let text = "GET "@ + path + " HTTP/1.0\r\nHost: "@ + host
                + "\r\nConnection: close\r\nUser-Agent: Gruz_Engine/3.1\r\n"@;
            assert(text + Seq::<char>::empty() =~= text);
        },
    }
}

proof fn lemma_request_lines(
    get: Seq<char>,
    path: Seq<char>,
    http: Seq<char>,
    end: Seq<char>,
    name: Seq<char>,
    host: Seq<char>,
    third: Seq<char>,
    fourth: Seq<char>,
)
    ensures
        get + path + (http + end + name) + host + (end + third + fourth) == get + path + http + end + (name
            + host + end) + third + fourth,
{
    let a = get + path;
    assert(a + (http + end + name) =~= a + http + end + name);
    let b = a + http + end;
    assert(b + name + host + (end + third + fourth) =~= b + (name + host + end) + third + fourth);
}

/// The body of a response begins behind the first place where a line ends and the next one is empty;
/// without such a place, all of it is body.
pub proof fn law_body_begins_behind_empty_line(response: Seq<u8>, i: int)
    requires
        0 <= i <= response.len(),
        forall|k: int|
            0 <= k < i && k + 3 < response.len() ==> !(#[trigger] response[k] == 13 && response[k + 1] == 10
                && response[k + 2] == 13 && response[k + 3] == 10),
    ensures
        i + 3 < response.len() && response[i] == 13 && response[i + 1] == 10 && response[i + 2] == 13
            && response[i + 3] == 10 ==> body_of(response) == response.skip(i + 4),
        i == response.len() ==> body_of(response) == response,
{
    assert forall|k: int| 0 <= k < i implies !#[trigger] is_blank_line(response, k) by {
        if k + 3 < response.len() {
            assert(!(response[k] == 13 && response[k + 1] == 10 && response[k + 2] == 13 && response[k + 3]
                == 10));
        }
    }
    if i + 3 < response.len() && response[i] == 13 && response[i + 1] == 10 && response[i + 2] == 13
        && response[i + 3] == 10 {
        assert(is_blank_line(response, i));
        lemma_headers_end(response, 0, i);
    }
    if i == response.len() {
        assert forall|k: int| !#[trigger] is_blank_line(response, k) by {}
        law_no_headers_all_body(response);
    }
}

} // verus!
