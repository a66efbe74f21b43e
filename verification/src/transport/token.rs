//! Fetching a token: where the server is, the request, and what the response holds.
use crate::json::{
    as_str, empty_object, json_content, json_member, json_parsed, json_str, json_text, member, parse,
    set_member, text_value, to_text, JsonView,
};
use crate::text::{
    decimal, decimal_text, from_utf8_lossy, is_digit, join2, join3, law_decimal_round_trip,
    lemma_found, lemma_rsplit_before, parse_u16, rsplit_once, rsplit_once_at, same,
    split_once_around, split_once_text, trim, trim_end_matches, trimmed, utf8_lossy,
    without_trailing,
};
use crate::target::{lemma_decimal_port, port_of};
use vstd::prelude::*;
use vstd::string::*;
use vstd::utf8::encode_utf8;

verus! {

/// Where an endpoint is.
pub struct EndpointView {
    pub scheme: Seq<char>,
    pub hostport: Seq<char>,
    pub host: Seq<char>,
    pub port: u16,
}

/// The scheme of an endpoint and what follows it; a bare host means https. None
/// for a scheme that is neither http nor https.
pub open spec fn scheme_and_rest(endpoint: Seq<char>) -> Option<(Seq<char>, Seq<char>)> {
    match split_once_around(endpoint, "://"@) {
        Some((scheme, rest)) => if scheme == "https"@ || scheme == "http"@ {
            Some((scheme, rest))
        } else {
            None
        },
        None => Some(("https"@, endpoint)),
    }
}

/// The host and port of "host:port"; where no port follows a host, the whole is the
/// host and the scheme gives the port.
pub open spec fn host_and_port_of(rest: Seq<char>, scheme: Seq<char>) -> (Seq<char>, u16) {
    let default: (Seq<char>, u16) = (
        rest,
        if scheme == "https"@ {
            443
        } else {
            80
        },
    );
    match rsplit_once_at(rest, ':') {
        Some((h, p)) => if h.len() > 0 && port_of(p) is Some {
            (h, port_of(p)->0)
        } else {
            default
        },
        None => default,
    }
}

/// Where an endpoint is; None for an unsupported scheme.
pub open spec fn endpoint_of(endpoint: Seq<char>) -> Option<EndpointView> {
    match scheme_and_rest(endpoint) {
        Some((scheme, rest)) => {
            let (host, port) = host_and_port_of(without_trailing(rest, '/'), scheme);
            Some(EndpointView { scheme, hostport: host + ":"@ + decimal(port as nat), host, port })
        },
        None => None,
    }
}

/// The request for a token of `kind` with a JSON body.
pub open spec fn token_request_text(kind: Seq<char>, hostport: Seq<char>, body: Seq<char>) -> Seq<
    char,
> {
    "POST /api/v1/auth/"@ + kind + "/get-token HTTP/1.1\r\nHost: "@ + hostport
        + "\r\nContent-Type: application/json\r\nX-CSRF-Token: x-csrf-protection\r\nContent-Length: "@
        + decimal(encode_utf8(body).len()) + "\r\nConnection: close\r\n\r\n"@ + body
}

/// The body of a response: what follows the first blank line, or all of it where
/// there is none.
pub open spec fn body_of(response: Seq<char>) -> Seq<char> {
    match split_once_around(response, "\r\n\r\n"@) {
        Some((_, body)) => body,
        None => response,
    }
}

/// The `data` member of the JSON in a response.
pub open spec fn response_data(raw: Seq<u8>) -> Result<JsonView, Seq<char>> {
    match json_parsed(trimmed(body_of(utf8_lossy(raw)))) {
        Ok(v) => Ok(json_member(v, "data"@)),
        Err(e) => Err("token json: "@ + e),
    }
}

/// The credentials of a site.
pub open spec fn site_credentials(id: Seq<char>, secret: Seq<char>) -> JsonView {
    JsonView::Object(
        map!["newtId"@ => JsonView::Text(id), "secret"@ => JsonView::Text(secret)],
    )
}

/// The credentials of a client.
pub open spec fn client_credentials(
    id: Seq<char>,
    secret: Seq<char>,
    user_token: Seq<char>,
    org_id: Seq<char>,
) -> JsonView {
    JsonView::Object(
        map![
            "olmId"@ => JsonView::Text(id),
            "secret"@ => JsonView::Text(secret),
            "userToken"@ => JsonView::Text(user_token),
            "orgId"@ => JsonView::Text(org_id),
        ],
    )
}

// ---------------------------------------------------------------------------
// Executable functions
// ---------------------------------------------------------------------------
fn split_scheme(endpoint: &str) -> (r: Option<(String, String)>)
    ensures
        match r {
            Some((s, rest)) => scheme_and_rest(endpoint@) == Some((s@, rest@)),
            None => scheme_and_rest(endpoint@) is None,
        },
{
    match split_once_text(endpoint, "://") {
        Some((scheme, rest)) => if same(scheme.as_str(), "https") || same(scheme.as_str(), "http") {
            Some((scheme, rest))
        } else {
            None
        },
        None => Some(("https".to_owned(), endpoint.to_owned())),
    }
}

fn split_port(rest: &str, scheme: &str) -> (r: (String, u16))
    ensures
        (r.0@, r.1) == host_and_port_of(rest@, scheme@),
{
    match rsplit_once(rest, ':') {
        Some((h, p)) => {
            if !h.as_str().is_empty() {
                match parse_u16(p.as_str()) {
                    Some(port) => {
                        return (h, port);
                    },
                    None => {},
                }
            }
        },
        None => {},
    }
    (
        rest.to_owned(),
        if same(scheme, "https") {
            443
        } else {
            80
        },
    )
}

/// Returns (scheme, host:port, host, port). Accepts http(s):// and bare host.
pub fn split_endpoint(endpoint: &str) -> (r: Result<(String, String, String, u16), String>)
    ensures
        match r {
            Ok((scheme, hostport, host, port)) => endpoint_of(endpoint@) == Some(
                EndpointView { scheme: scheme@, hostport: hostport@, host: host@, port },
            ),
            Err(e) => endpoint_of(endpoint@) is None && e@ == "unsupported scheme"@,
        },
{
    match split_scheme(endpoint) {
        Some((scheme, rest)) => {
            let rest = trim_end_matches(rest.as_str(), '/');
            let (host, port) = split_port(rest.as_str(), scheme.as_str());
            let digits = decimal_text(port as u64);
            let hostport = join3(host.as_str(), ":", digits.as_str());
            Ok((scheme, hostport, host, port))
        },
        None => Err("unsupported scheme".to_owned()),
    }
}

/// The request that posts `body` to <host>/api/v1/auth/<kind>/get-token.
/// `kind` selects the credential type: "newt" for a site, "olm" for a client.
pub fn token_request(kind: &str, hostport: &str, body: &serde_json::Value) -> (r: String)
    ensures
        r@ == token_request_text(kind@, hostport@, json_text(json_content(*body))),
{
    let body = to_text(body);
    let length: usize = body.as_str().as_bytes().len();
    let mut r = "POST /api/v1/auth/".to_owned();
    r.append(kind);
    r.append("/get-token HTTP/1.1\r\nHost: ");
    r.append(hostport);
    r.append(
        "\r\nContent-Type: application/json\r\nX-CSRF-Token: x-csrf-protection\r\nContent-Length: ",
    );
    r.append(decimal_text(length as u64).as_str());
    r.append("\r\nConnection: close\r\n\r\n");
    r.append(body.as_str());
    r
}

/// Reads the `data` object out of a response, headers included.
pub fn token_data(raw: &[u8]) -> (r: Result<serde_json::Value, String>)
    ensures
        match r {
            Ok(v) => response_data(raw@) == Ok::<JsonView, Seq<char>>(json_content(v)),
            Err(e) => response_data(raw@) == Err::<JsonView, Seq<char>>(e@),
        },
{
    let text = from_utf8_lossy(raw);
    let body = match split_once_text(text.as_str(), "\r\n\r\n") {
        Some((_, body)) => body,
        None => text,
    };
    match parse(trim(body.as_str()).as_str()) {
        Ok(v) => Ok(member(&v, "data")),
        Err(e) => Err(join2("token json: ", e.as_str())),
    }
}

/// The token in the `data` object of a site's response.
pub fn token_of(data: &serde_json::Value) -> (r: Result<String, String>)
    ensures
        match r {
            Ok(t) => json_str(json_member(json_content(*data), "token"@)) == Some(t@),
            Err(e) => json_str(json_member(json_content(*data), "token"@)) is None && e@
                == "no token in response"@,
        },
{
    match as_str(&member(data, "token")) {
        Some(t) => Ok(t),
        None => Err("no token in response".to_owned()),
    }
}

/// The body of a site's request.
pub fn site_body(id: &str, secret: &str) -> (r: serde_json::Value)
    ensures
        json_content(r) == site_credentials(id@, secret@),
{
    let mut v = empty_object();
    set_member(&mut v, "newtId", text_value(id));
    set_member(&mut v, "secret", text_value(secret));
    assert(json_content(v)->Object_0 =~= site_credentials(id@, secret@)->Object_0);
    v
}

/// The body of a client's request.
pub fn client_body(id: &str, secret: &str, user_token: &str, org_id: &str) -> (r:
    serde_json::Value)
    ensures
        json_content(r) == client_credentials(id@, secret@, user_token@, org_id@),
{
    let mut v = empty_object();
    set_member(&mut v, "olmId", text_value(id));
    set_member(&mut v, "secret", text_value(secret));
    set_member(&mut v, "userToken", text_value(user_token));
    set_member(&mut v, "orgId", text_value(org_id));
    assert(json_content(v)->Object_0 =~= client_credentials(
        id@,
        secret@,
        user_token@,
        org_id@,
    )->Object_0);
    v
}

// ---------------------------------------------------------------------------
// Laws
// ---------------------------------------------------------------------------
/// What an endpoint was split into stands for the same endpoint: "scheme://host:port"
/// splits into the same parts.
pub proof fn law_parts_stand_for_endpoint(endpoint: Seq<char>)
    requires
        endpoint_of(endpoint) is Some,
        endpoint_of(endpoint)->0.host.len() > 0,
    ensures
        endpoint_of(
            endpoint_of(endpoint)->0.scheme + "://"@ + endpoint_of(endpoint)->0.hostport,
        ) == endpoint_of(endpoint),
{
    let v = endpoint_of(endpoint)->0;
    let s = v.scheme + "://"@ + v.hostport;
    reveal_strlit("://");
    reveal_strlit("https");
    reveal_strlit("http");
    reveal_strlit(":");
    assert(v.scheme == "https"@ || v.scheme == "http"@);
    assert forall|j: int| 0 <= j < v.scheme.len() implies s[j] != "://"@[0] by {
        assert(s[j] == v.scheme[j]);
    }
    let n = v.scheme.len() as int;
    assert(s.subrange(n, n + 3) =~= "://"@);
    lemma_found(s, "://"@, 0, n);
    assert(s.take(n) =~= v.scheme);
    assert(s.skip(n + 3) =~= v.hostport);
    let digits = decimal(v.port as nat);
    lemma_decimal_port(v.port);
    law_decimal_round_trip(v.port as nat);
    assert(v.hostport =~= v.host + seq![':'] + digits);
    lemma_rsplit_before(v.host, ':', digits);
    assert(v.hostport.last() == digits.last());
    assert(is_digit(digits[digits.len() - 1]));
    assert(without_trailing(v.hostport, '/') == v.hostport);
}

/// A host name or a dotted address: no colon and no slash in it.
pub open spec fn plain_host(host: Seq<char>) -> bool {
    host.len() > 0 && !host.contains(':') && !host.contains('/')
}

proof fn lemma_no_scheme(s: Seq<char>)
    requires
        forall|k: int| 0 <= k && k + 1 < s.len() && #[trigger] s[k] == ':' ==> s[k + 1] != '/',
    ensures
        split_once_around(s, "://"@) is None,
{
    reveal_strlit("://");
    assert forall|k: int| 0 <= k && k + 3 <= s.len() implies (#[trigger] s.subrange(k, k + 3))
        != "://"@ by {
        let t = s.subrange(k, k + 3);
        assert(t[0] == s[k] && t[1] == s[k + 1]);
    }
    crate::text::lemma_not_found(s, "://"@, 0);
}

proof fn lemma_with_scheme(scheme: Seq<char>, rest: Seq<char>)
    requires
        !scheme.contains(':'),
    ensures
        split_once_around(scheme + "://"@ + rest, "://"@) == Some((scheme, rest)),
{
    reveal_strlit("://");
    let s = scheme + "://"@ + rest;
    assert forall|k: int| 0 <= k < scheme.len() implies (#[trigger] s.subrange(k, k + 3))
        != "://"@ by {
        assert(s.subrange(k, k + 3)[0] == scheme[k]);
    }
    crate::text::law_split_around_the_first(scheme, "://"@, rest);
}

/// An endpoint is a host, with "https://", "http://" or no scheme before it, which is the
/// first of the two, with or without a port behind it, and with any number of slashes at
/// the end. Without a port it is at 443 or, for http, at 80.
pub proof fn law_endpoint_is_read(host: Seq<char>, port: u16, slashes: nat)
    requires
        plain_host(host),
    ensures
        ({
            let end = Seq::new(slashes, |i: int| '/');
            let with_port = host + seq![':'] + decimal(port as nat);
            let secure = EndpointView {
                scheme: "https"@,
                hostport: host + seq![':', '4', '4', '3'],
                host,
                port: 443,
            };
            let open = EndpointView {
                scheme: "http"@,
                hostport: host + seq![':', '8', '0'],
                host,
                port: 80,
            };
            &&& endpoint_of("https://"@ + host + end) == Some(secure)
            &&& endpoint_of(host + end) == Some(secure)
            &&& endpoint_of("http://"@ + host + end) == Some(open)
            &&& endpoint_of("https://"@ + with_port + end) == Some(
                EndpointView { hostport: with_port, port, ..secure },
            )
            &&& endpoint_of(with_port + end) == Some(
                EndpointView { hostport: with_port, port, ..secure },
            )
            &&& endpoint_of("http://"@ + with_port + end) == Some(
                EndpointView { hostport: with_port, port, ..open },
            )
        }),
{
    reveal_strlit("://");
    reveal_strlit("https");
    reveal_strlit("http");
    reveal_strlit("https://");
    reveal_strlit("http://");
    reveal_strlit(":");
    let end = Seq::new(slashes, |i: int| '/');
    let digits = decimal(port as nat);
    let with_port = host + seq![':'] + digits;
    lemma_decimal_port(port);
    law_decimal_round_trip(port as nat);
    assert(is_digit(digits[digits.len() - 1]));
    assert(host.last() != '/' && host.last() != ':') by {
        assert(host.contains(host[host.len() - 1]));
    }
    assert(with_port.last() == digits.last());
    crate::text::law_trailing_characters_are_dropped(host, '/', slashes);
    crate::text::law_trailing_characters_are_dropped(with_port, '/', slashes);
    crate::text::law_split_at_a_separator(host, ':', digits);
    lemma_rsplit_before(host, ':', digits);
    assert("https"@ != "http"@) by {
        assert("https"@.len() != "http"@.len());
    }
    assert(host + ":"@ + digits =~= with_port);
    reveal_with_fuel(decimal, 4);
    assert(decimal(443) =~= seq!['4', '4', '3']);
    assert(decimal(80) =~= seq!['8', '0']);
    assert(host + ":"@ + decimal(443) =~= host + seq![':', '4', '4', '3']);
    assert(host + ":"@ + decimal(80) =~= host + seq![':', '8', '0']);
    lemma_with_scheme("https"@, host + end);
    lemma_with_scheme("http"@, host + end);
    lemma_with_scheme("https"@, with_port + end);
    lemma_with_scheme("http"@, with_port + end);
    assert("https://"@ + host + end =~= "https"@ + "://"@ + (host + end));
    assert("http://"@ + host + end =~= "http"@ + "://"@ + (host + end));
    assert("https://"@ + with_port + end =~= "https"@ + "://"@ + (with_port + end));
    assert("http://"@ + with_port + end =~= "http"@ + "://"@ + (with_port + end));
    let bare = host + end;
    assert forall|k: int| 0 <= k && k + 1 < bare.len() && #[trigger] bare[k] == ':' implies bare[k
        + 1] != '/' by {
        if k < host.len() {
            assert(host.contains(host[k]));
        }
    }
    lemma_no_scheme(bare);
    let whole = with_port + end;
    assert forall|k: int| 0 <= k && k + 1 < whole.len() && #[trigger] whole[k] == ':' implies whole[k
        + 1] != '/' by {
        if k < host.len() {
            assert(host.contains(host[k]));
        } else if k == host.len() {
            assert(whole[k + 1] == digits[0]);
            assert(is_digit(digits[0]));
        } else if k < with_port.len() {
            assert(is_digit(digits[k - host.len() - 1]));
        }
    }
    lemma_no_scheme(whole);
}

/// No scheme but http and https is taken, and what is behind one of these always is.
pub proof fn law_other_schemes_are_refused(scheme: Seq<char>, rest: Seq<char>)
    requires
        !scheme.contains(':'),
    ensures
        endpoint_of(scheme + "://"@ + rest) is Some <==> scheme == "https"@ || scheme == "http"@,
        endpoint_of(scheme + "://"@ + rest) matches Some(v) ==> v.scheme == scheme,
{
    lemma_with_scheme(scheme, rest);
}

/// The token is asked for by a POST to the address of the kind of credentials, with the
/// length of the body in bytes, and the body behind the blank line.
pub proof fn law_token_request_is_http(kind: Seq<char>, hostport: Seq<char>, body: Seq<char>)
    ensures
        token_request_text(kind, hostport, body) == "POST "@ + ("/api/v1/auth/"@ + kind
            + "/get-token"@) + " HTTP/1.1\r\n"@ + crate::transport::ws::header("Host"@, hostport)
            + crate::transport::ws::header("Content-Type"@, "application/json"@)
            + crate::transport::ws::header("X-CSRF-Token"@, "x-csrf-protection"@)
            + crate::transport::ws::header("Content-Length"@, decimal(encode_utf8(body).len()))
            + crate::transport::ws::header("Connection"@, "close"@) + "\r\n"@ + body,
{
    reveal_strlit("POST ");
    reveal_strlit("/api/v1/auth/");
    reveal_strlit("POST /api/v1/auth/");
    reveal_strlit("/get-token");
    reveal_strlit(" HTTP/1.1\r\n");
    reveal_strlit("/get-token HTTP/1.1\r\nHost: ");
    reveal_strlit("Host");
    reveal_strlit(": ");
    reveal_strlit("\r\n");
    reveal_strlit("Content-Type");
    reveal_strlit("application/json");
    reveal_strlit("X-CSRF-Token");
    reveal_strlit("x-csrf-protection");
    reveal_strlit("Content-Length");
    reveal_strlit("Connection");
    reveal_strlit("close");
    reveal_strlit(
        "\r\nContent-Type: application/json\r\nX-CSRF-Token: x-csrf-protection\r\nContent-Length: ",
    );
    reveal_strlit("\r\nConnection: close\r\n\r\n");
    let length = decimal(encode_utf8(body).len());
    assert("POST /api/v1/auth/"@ =~= "POST "@ + "/api/v1/auth/"@);
    assert("/get-token HTTP/1.1\r\nHost: "@ =~= "/get-token"@ + " HTTP/1.1\r\n"@ + "Host"@ + ": "@);
    assert("\r\nContent-Type: application/json\r\nX-CSRF-Token: x-csrf-protection\r\nContent-Length: "@
        =~= "\r\n"@ + crate::transport::ws::header("Content-Type"@, "application/json"@)
        + crate::transport::ws::header("X-CSRF-Token"@, "x-csrf-protection"@) + "Content-Length"@
        + ": "@);
    assert("\r\nConnection: close\r\n\r\n"@ =~= "\r\n"@ + crate::transport::ws::header(
        "Connection"@,
        "close"@,
    ) + "\r\n"@);
    assert(token_request_text(kind, hostport, body) =~= "POST "@ + ("/api/v1/auth/"@ + kind
        + "/get-token"@) + " HTTP/1.1\r\n"@ + crate::transport::ws::header("Host"@, hostport)
        + crate::transport::ws::header("Content-Type"@, "application/json"@)
        + crate::transport::ws::header("X-CSRF-Token"@, "x-csrf-protection"@)
        + crate::transport::ws::header("Content-Length"@, length) + crate::transport::ws::header(
        "Connection"@,
        "close"@,
    ) + "\r\n"@ + body);
}

/// The end of the last line of a head and the blank line behind it.
pub open spec fn blank_line() -> Seq<char> {
    seq!['\r', '\n', '\r', '\n']
}

/// What a response holds is the `data` member of the JSON behind its first blank line, or
/// of all of it where it has no head.
pub proof fn law_response_is_read_behind_its_head(raw: Seq<u8>, head: Seq<char>, body: Seq<char>)
    requires
        utf8_lossy(raw) == head + blank_line() + body || utf8_lossy(raw) == body,
        utf8_lossy(raw) == body ==> forall|k: int|
            0 <= k && k + 4 <= body.len() ==> (#[trigger] body.subrange(k, k + 4)) != blank_line(),
        forall|k: int|
            0 <= k < head.len() ==> (#[trigger] (head + blank_line() + body).subrange(k, k + 4))
                != blank_line(),
    ensures
        match json_parsed(trimmed(body)) {
            Ok(v) => response_data(raw) == Ok::<JsonView, Seq<char>>(
                if v is Object && v->Object_0.dom().contains("data"@) {
                    v->Object_0["data"@]
                } else {
                    JsonView::Null
                },
            ),
            Err(e) => response_data(raw) == Err::<JsonView, Seq<char>>("token json: "@ + e),
        },
{
    reveal_strlit("\r\n\r\n");
    assert("\r\n\r\n"@ =~= blank_line());
    if utf8_lossy(raw) == head + blank_line() + body {
        crate::text::law_split_around_the_first(head, blank_line(), body);
    } else {
        crate::text::lemma_not_found(body, blank_line(), 0);
    }
}

/// A site is known by `newtId` and `secret`; a client by `olmId`, `secret`, the token of its
/// user and its organisation.
pub proof fn law_credentials_are_named(
    id: Seq<char>,
    secret: Seq<char>,
    user_token: Seq<char>,
    org_id: Seq<char>,
)
    ensures
        ({
            let v = site_credentials(id, secret);
            &&& v is Object && v->Object_0.dom() == set!["newtId"@, "secret"@]
            &&& v->Object_0["newtId"@] == JsonView::Text(id)
            &&& v->Object_0["secret"@] == JsonView::Text(secret)
        }),
        ({
            let v = client_credentials(id, secret, user_token, org_id);
            &&& v is Object && v->Object_0.dom() == set!["olmId"@, "secret"@, "userToken"@, "orgId"@]
            &&& v->Object_0["olmId"@] == JsonView::Text(id)
            &&& v->Object_0["secret"@] == JsonView::Text(secret)
            &&& v->Object_0["userToken"@] == JsonView::Text(user_token)
            &&& v->Object_0["orgId"@] == JsonView::Text(org_id)
        }),
{
    reveal_strlit("newtId");
    reveal_strlit("secret");
    reveal_strlit("olmId");
    reveal_strlit("userToken");
    reveal_strlit("orgId");
    assert("newtId"@[0] != "secret"@[0]);
    assert("olmId"@[1] != "orgId"@[1]);
    assert("olmId"@.len() == 5 && "orgId"@.len() == 5 && "secret"@.len() == 6
        && "userToken"@.len() == 9);
    assert(site_credentials(id, secret)->Object_0.dom() =~= set!["newtId"@, "secret"@]);
    assert(client_credentials(id, secret, user_token, org_id)->Object_0.dom() =~= set![
        "olmId"@,
        "secret"@,
        "userToken"@,
        "orgId"@,
    ]);
}

} // verus!
