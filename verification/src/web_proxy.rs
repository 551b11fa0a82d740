//! The forwarding proxy's view of a request: reading a proxied request from
//! the bytes a client sent, writing it again for the upstream server, and the
//! lines it logs.
use vstd::prelude::*;
use vstd::string::*;

use crate::codec::{lossy_text, lossy_utf8, url_captures, url_parts};
use crate::text::{
    join_front,
    lemma_split_on_nonempty,
    occurs_at,
    padded_signed,
    padded_signed_text,
    split_first,
    split_on,
    split_once_text,
    split_text,
};

verus! {

broadcast use vstd::string::group_string_axioms;

/// The request methods a client may use.
pub enum Verb {
    GET,
    POST,
    OPTIONS,
    PUT,
    DELETE,
}

/// One header line of a request.
pub struct Header {
    pub key: String,
    pub value: String,
}

/// A request as the proxy forwards it.
pub struct Request {
    pub verb: String,
    pub hostname: String,
    pub path: String,
    pub protocol: String,
    pub client_headers: Vec<Header>,
}

pub struct RequestView {
    pub verb: Seq<char>,
    pub hostname: Seq<char>,
    pub path: Seq<char>,
    pub protocol: Seq<char>,
    pub client_headers: Seq<(Seq<char>, Seq<char>)>,
}

/// The headers, each as (key, value).
pub open spec fn headers_view(headers: Seq<Header>) -> Seq<(Seq<char>, Seq<char>)> {
    headers.map_values(|h: Header| (h.key@, h.value@))
}

impl View for Request {
    type V = RequestView;

    open spec fn view(&self) -> RequestView {
        RequestView {
            verb: self.verb@,
            hostname: self.hostname@,
            path: self.path@,
            protocol: self.protocol@,
            client_headers: headers_view(self.client_headers@),
        }
    }
}

/// The header that a line holds: a non-empty line cut at its first ": ".
pub open spec fn header_of(line: Seq<char>) -> Option<(Seq<char>, Seq<char>)> {
    if line.len() > 0 {
        split_first(line, ": "@)
    } else {
        None
    }
}

/// The headers that `lines` hold, in order; lines that hold none are skipped.
pub open spec fn headers_of(lines: Seq<Seq<char>>) -> Seq<(Seq<char>, Seq<char>)>
    decreases lines.len(),
{
    if lines.len() == 0 {
        Seq::empty()
    } else {
        match header_of(lines.last()) {
            Some(h) => headers_of(lines.drop_last()).push(h),
            None => headers_of(lines.drop_last()),
        }
    }
}

/// The request that `text` holds: its first line is "<verb> <url> <version>"
/// with the URL matching `(\w*?)://(.*?)/(.*)`, the other lines are headers.
/// `None` when the first line has fewer than three words between single
/// spaces or the URL does not match.
pub open spec fn request_of(text: Seq<char>) -> Option<RequestView> {
    let lines = split_on(text, "\r\n"@);
    let tokens = split_on(lines[0], " "@);
    if tokens.len() < 3 {
        None
    } else {
        match url_parts(tokens[1]) {
            Some((scheme, host, path)) => Some(
                RequestView {
                    verb: tokens[0],
                    hostname: host,
                    path: path,
                    protocol: scheme,
                    client_headers: headers_of(lines.drop_first()),
                },
            ),
            None => None,
        }
    }
}

/// The request that a client's bytes hold, the bytes read as UTF-8 with
/// invalid sequences replaced.
pub fn read_request(buf: &[u8]) -> (r: Option<Request>)
    ensures
        match r {
            Some(q) => request_of(lossy_text(buf@)) == Some(q@),
            None => request_of(lossy_text(buf@)) is None,
        },
{
    let text = lossy_utf8(buf);
    request_from_text(text.as_str())
}

/// The request that `text` holds.
pub fn request_from_text(text: &str) -> (r: Option<Request>)
    ensures
        match r {
            Some(q) => request_of(text@) == Some(q@),
            None => request_of(text@) is None,
        },
{
    proof {
        reveal_strlit("\r\n");
        reveal_strlit(" ");
    }
    let lines = split_text(text, "\r\n");
    proof {
        lemma_split_on_nonempty(text@, "\r\n"@);
    }
    let tokens = split_text(lines[0].as_str(), " ");
    if tokens.len() < 3 {
        return None;
    }
    match url_captures(tokens[1].as_str()) {
        Some((scheme, host, path)) => {
            let r = request_from_parts(tokens[0].clone(), scheme, host, path, &lines);
            Some(r)
        },
        None => None,
    }
}

/// The request made of its verb, the parts of its URL, and the headers held
/// by `lines` after the first.
pub fn request_from_parts(
    verb: String,
    protocol: String,
    hostname: String,
    path: String,
    lines: &Vec<String>,
) -> (r: Request)
    ensures
        r@ == (RequestView {
            verb: verb@,
            hostname: hostname@,
            path: path@,
            protocol: protocol@,
            client_headers: if lines@.len() == 0 {
                Seq::empty()
            } else {
                headers_of(lines.deep_view().drop_first())
            },
        }),
{
    let mut client_headers: Vec<Header> = Vec::new();
    let mut i: usize = 1;
    proof {
        assert(headers_view(client_headers@) =~= Seq::<(Seq<char>, Seq<char>)>::empty());
        if lines@.len() >= 1 {
            assert(lines.deep_view().drop_first().take(0) =~= Seq::<Seq<char>>::empty());
        }
    }
    if lines.len() == 0 {
        return Request { verb, hostname, path, protocol, client_headers };
    }
    while i < lines.len()
        invariant
            1 <= i <= lines@.len(),
            headers_view(client_headers@) == headers_of(lines.deep_view().drop_first().take(i - 1)),
        decreases lines@.len() - i,
    {
        let ghost taken = lines.deep_view().drop_first().take(i as int);
        let ghost before = client_headers@;
        proof {
            assert(taken.drop_last() =~= lines.deep_view().drop_first().take(i - 1));
            assert(taken.last() == lines@[i as int]@);
        }
        let line = lines[i].as_str();
        proof {
            reveal_strlit(": ");
        }
        if !line.is_empty() {
            match split_once_text(line, ": ") {
                Some((key, value)) => {
                    client_headers.push(Header { key, value });
                    proof {
                        assert(headers_view(client_headers@) =~= headers_view(before).push(
                            (key@, value@),
                        ));
                    }
                },
                None => {},
            }
        }
        i = i + 1;
    }
    proof {
        assert(lines.deep_view().drop_first().take(lines@.len() - 1) =~= lines.deep_view().drop_first());
    }
    Request { verb, hostname, path, protocol, client_headers }
}

/// The header lines that carry `headers`, each "<key>: <value>\r\n".
pub open spec fn header_lines(headers: Seq<(Seq<char>, Seq<char>)>) -> Seq<char>
    decreases headers.len(),
{
    if headers.len() == 0 {
        Seq::empty()
    } else {
        header_lines(headers.drop_last()) + headers.last().0 + ": "@ + headers.last().1
            + "\r\n"@
    }
}

/// What the proxy writes upstream for a request: the request line with the
/// path, the client's headers, and `Connection: close`.
pub open spec fn message_of(r: RequestView) -> Seq<char> {
    r.verb + " /"@ + r.path + " HTTP/1.1\r\n"@ + header_lines(r.client_headers)
        + "Connection: close\r\n"@ + "\r\n"@
}

/// What the proxy writes upstream for `request`.
pub fn request_message(request: &Request) -> (r: String)
    ensures
        r@ == message_of(request@),
{
    let mut out = String::new();
    out.append(request.verb.as_str());
    out.append(" /");
    out.append(request.path.as_str());
    out.append(" HTTP/1.1\r\n");
    let ghost start = out@;
    let mut i: usize = 0;
    proof {
        assert(headers_view(request.client_headers@).take(0) =~= Seq::<
            (Seq<char>, Seq<char>),
        >::empty());
        assert(out@ =~= start + header_lines(Seq::empty()));
    }
    while i < request.client_headers.len()
        invariant
            i <= request.client_headers@.len(),
            out@ == start + header_lines(headers_view(request.client_headers@).take(i as int)),
        decreases request.client_headers@.len() - i,
    {
        let h = &request.client_headers[i];
        out.append(h.key.as_str());
        out.append(": ");
        out.append(h.value.as_str());
        out.append("\r\n");
        proof {
            let hv = headers_view(request.client_headers@);
            assert(hv.take(i + 1).drop_last() =~= hv.take(i as int));
            assert(hv.take(i + 1).last() == (h.key@, h.value@));
            assert(out@ =~= start + header_lines(hv.take(i + 1)));
        }
        i = i + 1;
    }
    proof {
        assert(headers_view(request.client_headers@).take(request.client_headers@.len() as int)
            =~= headers_view(request.client_headers@));
    }
    out.append("Connection: close\r\n");
    out.append("\r\n");
    proof {
        assert(out@ =~= message_of(request@));
    }
    out
}

/// The address of the upstream server for a request: its host, port 8888.
pub fn upstream_address(request: &Request) -> (r: String)
    ensures
        r@ == request.hostname@ + ":8888"@,
{
    let mut addr = String::new();
    addr.append(request.hostname.as_str());
    addr.append(":8888");
    addr
}

/// A moment as the system clock gives it, by calendar fields.
pub struct Clock {
    /// Years since 1900.
    pub tm_year: i32,
    /// Month, 0 to 11.
    pub tm_mon: i32,
    pub tm_mday: i32,
    pub tm_hour: i32,
    pub tm_min: i32,
    pub tm_sec: i32,
    pub tm_nsec: i32,
}

/// The log line for a request forwarded at `t`:
/// `[YYYY-MM-DD hh:mm:ss.nnnn] <verb> <host> "/<path>"`.
pub open spec fn log_line_of(t: Clock, r: RequestView) -> Seq<char> {
    "["@ + padded_signed(t.tm_year + 1900, 0) + "-"@ + padded_signed(t.tm_mon + 1, 2) + "-"@
        + padded_signed(t.tm_mday as int, 2) + " "@ + padded_signed(t.tm_hour as int, 2) + ":"@
        + padded_signed(t.tm_min as int, 2) + ":"@ + padded_signed(t.tm_sec as int, 2) + "."@
        + padded_signed(t.tm_nsec as int, 4) + "] "@ + r.verb + " "@ + r.hostname + " \"/"@
        + r.path + "\""@
}

/// The log line for `request` forwarded at `t`.
pub fn log_line(t: &Clock, request: &Request) -> (r: String)
    ensures
        r@ == log_line_of(*t, request@),
{
    let mut line = String::new();
    line.append("[");
    let year = padded_signed_text(t.tm_year as i64 + 1900, 0);
    line.append(year.as_str());
    line.append("-");
    let mon = padded_signed_text(t.tm_mon as i64 + 1, 2);
    line.append(mon.as_str());
    line.append("-");
    let mday = padded_signed_text(t.tm_mday as i64, 2);
    line.append(mday.as_str());
    line.append(" ");
    let hour = padded_signed_text(t.tm_hour as i64, 2);
    line.append(hour.as_str());
    line.append(":");
    let min = padded_signed_text(t.tm_min as i64, 2);
    line.append(min.as_str());
    line.append(":");
    let sec = padded_signed_text(t.tm_sec as i64, 2);
    line.append(sec.as_str());
    line.append(".");
    let nsec = padded_signed_text(t.tm_nsec as i64, 4);
    line.append(nsec.as_str());
    line.append("] ");
    line.append(request.verb.as_str());
    line.append(" ");
    line.append(request.hostname.as_str());
    line.append(" \"/");
    line.append(request.path.as_str());
    line.append("\"");
    proof {
        assert(line@ =~= log_line_of(*t, request@));
    }
    line
}

/// Whether ": " occurs anywhere in `s`.
pub open spec fn has_separator(s: Seq<char>) -> bool {
    exists|i: int| #[trigger] occurs_at(s, ": "@, i)
}

proof fn lemma_split_first_after_key(k: Seq<char>, v: Seq<char>)
    requires
        !has_separator(k),
    ensures
        split_first(k + ": "@ + v, ": "@) == Some((k, v)),
    decreases k.len(),
{
    reveal_strlit(": ");
    let s = k + ": "@ + v;
    if k.len() == 0 {
        assert(s =~= ": "@ + v);
        assert(s.subrange(0, 2) =~= ": "@);
        assert(s.skip(2) =~= v);
    } else {
        assert(!occurs_at(s, ": "@, 0)) by {
            if occurs_at(s, ": "@, 0) {
                assert(s.subrange(0, 2)[1] == s[1]);
                assert(s[1] == ' ');
                if k.len() >= 2 {
                    assert(k.subrange(0, 2) =~= s.subrange(0, 2));
                    assert(occurs_at(k, ": "@, 0));
                } else {
                    assert(s[1] == (": "@)[0]);
                }
            }
        }
        let k1 = k.drop_first();
        assert(!has_separator(k1)) by {
            if has_separator(k1) {
                let i = choose|i: int| #[trigger] occurs_at(k1, ": "@, i);
                assert(k.subrange(i + 1, i + 3) =~= k1.subrange(i, i + 2));
                assert(occurs_at(k, ": "@, i + 1));
            }
        }
        lemma_split_first_after_key(k1, v);
        assert(s.drop_first() =~= k1 + ": "@ + v);
        assert(seq![s[0]] + k1 =~= k);
    }
}

/// A header written as "<key>: <value>" is read back as the same key and
/// value, provided the key holds no ": ".
pub proof fn law_header_round_trip(key: Seq<char>, value: Seq<char>)
    requires
        !has_separator(key),
    ensures
        header_of(key + ": "@ + value) == Some((key, value)),
{
    reveal_strlit(": ");
    lemma_split_first_after_key(key, value);
    assert((key + ": "@ + value).len() > 0);
}

/// The lines `ls`, each followed by "\r\n".
pub open spec fn crlf_lines(ls: Seq<Seq<char>>) -> Seq<char>
    decreases ls.len(),
{
    if ls.len() == 0 {
        Seq::empty()
    } else {
        crlf_lines(ls.drop_last()) + ls.last() + "\r\n"@
    }
}

/// Whether "\r\n" occurs anywhere in `s`.
pub open spec fn has_crlf(s: Seq<char>) -> bool {
    exists|i: int| #[trigger] occurs_at(s, "\r\n"@, i)
}

/// The line that carries a header: "<key>: <value>".
pub open spec fn header_line(h: (Seq<char>, Seq<char>)) -> Seq<char> {
    h.0 + ": "@ + h.1
}

/// The request line that `message_of` writes.
pub open spec fn request_line_of(r: RequestView) -> Seq<char> {
    r.verb + " /"@ + r.path + " HTTP/1.1"@
}

proof fn lemma_header_lines_crlf(hs: Seq<(Seq<char>, Seq<char>)>)
    ensures
        header_lines(hs) == crlf_lines(hs.map_values(|h: (Seq<char>, Seq<char>)| header_line(h))),
    decreases hs.len(),
{
    reveal_strlit(": ");
    reveal_strlit("\r\n");
    let f = |h: (Seq<char>, Seq<char>)| header_line(h);
    if hs.len() > 0 {
        lemma_header_lines_crlf(hs.drop_last());
        assert(hs.map_values(f).drop_last() =~= hs.drop_last().map_values(f));
        assert(hs.map_values(f).last() == header_line(hs.last()));
        let hl = header_lines(hs.drop_last());
        assert(hl + hs.last().0 + ": "@ + hs.last().1 + "\r\n"@ =~= hl + header_line(hs.last())
            + "\r\n"@);
    }
}

proof fn lemma_crlf_lines_concat(a: Seq<Seq<char>>, b: Seq<Seq<char>>)
    ensures
        crlf_lines(a + b) == crlf_lines(a) + crlf_lines(b),
    decreases b.len(),
{
    if b.len() == 0 {
        assert(a + b =~= a);
        assert(crlf_lines(a) + Seq::<char>::empty() =~= crlf_lines(a));
    } else {
        lemma_crlf_lines_concat(a, b.drop_last());
        assert((a + b).drop_last() =~= a + b.drop_last());
        assert((a + b).last() == b.last());
        assert(crlf_lines(a) + crlf_lines(b.drop_last()) + b.last() + "\r\n"@ =~= crlf_lines(a)
            + (crlf_lines(b.drop_last()) + b.last() + "\r\n"@));
    }
}

proof fn lemma_crlf_single(x: Seq<char>)
    ensures
        crlf_lines(seq![x]) == x + "\r\n"@,
{
    let l = seq![x];
    assert(l.drop_last() =~= Seq::<Seq<char>>::empty());
    assert(crlf_lines(l.drop_last()) == Seq::<char>::empty());
    assert(Seq::<char>::empty() + x + "\r\n"@ =~= x + "\r\n"@);
}

proof fn lemma_split_crlf_after_line(x: Seq<char>, y: Seq<char>)
    requires
        !has_crlf(x),
    ensures
        split_on(x + "\r\n"@ + y, "\r\n"@) == seq![x] + split_on(y, "\r\n"@),
    decreases x.len(),
{
    reveal_strlit("\r\n");
    let s = x + "\r\n"@ + y;
    if x.len() == 0 {
        assert(s =~= "\r\n"@ + y);
        assert(s.subrange(0, 2) =~= "\r\n"@);
        assert(s.skip(2) =~= y);
        assert(x =~= Seq::<char>::empty());
    } else {
        assert(!occurs_at(s, "\r\n"@, 0)) by {
            if occurs_at(s, "\r\n"@, 0) {
                assert(s.subrange(0, 2)[1] == s[1]);
                assert(s[1] == '\n');
                if x.len() >= 2 {
                    assert(x.subrange(0, 2) =~= s.subrange(0, 2));
                    assert(occurs_at(x, "\r\n"@, 0));
                } else {
                    assert(s[1] == ("\r\n"@)[0]);
                }
            }
        }
        let x1 = x.drop_first();
        assert(!has_crlf(x1)) by {
            if has_crlf(x1) {
                let i = choose|i: int| #[trigger] occurs_at(x1, "\r\n"@, i);
                assert(x.subrange(i + 1, i + 3) =~= x1.subrange(i, i + 2));
                assert(occurs_at(x, "\r\n"@, i + 1));
            }
        }
        lemma_split_crlf_after_line(x1, y);
        assert(s.drop_first() =~= x1 + "\r\n"@ + y);
        assert(seq![s[0]] + x1 =~= x);
        assert(join_front(seq![s[0]], seq![x1] + split_on(y, "\r\n"@)) =~= seq![x] + split_on(
            y,
            "\r\n"@,
        ));
    }
}

proof fn lemma_split_crlf_lines(ls: Seq<Seq<char>>)
    requires
        forall|i: int| 0 <= i < ls.len() ==> !has_crlf(#[trigger] ls[i]),
    ensures
        split_on(crlf_lines(ls), "\r\n"@) == ls.push(Seq::empty()),
    decreases ls.len(),
{
    reveal_strlit("\r\n");
    if ls.len() == 0 {
        assert(split_on(Seq::<char>::empty(), "\r\n"@) =~= seq![Seq::<char>::empty()]);
        assert(ls.push(Seq::empty()) =~= seq![Seq::<char>::empty()]);
    } else {
        let rest = ls.drop_first();
        assert(ls =~= seq![ls[0]] + rest);
        lemma_crlf_lines_concat(seq![ls[0]], rest);
        lemma_crlf_single(ls[0]);
        assert forall|i: int| 0 <= i < rest.len() implies !has_crlf(#[trigger] rest[i]) by {
            assert(rest[i] == ls[i + 1]);
        }
        lemma_split_crlf_lines(rest);
        assert(!has_crlf(ls[0]));
        lemma_split_crlf_after_line(ls[0], crlf_lines(rest));
        assert(seq![ls[0]] + rest.push(Seq::empty()) =~= ls.push(Seq::empty()));
    }
}

proof fn lemma_headers_of_concat(a: Seq<Seq<char>>, b: Seq<Seq<char>>)
    ensures
        headers_of(a + b) == headers_of(a) + headers_of(b),
    decreases b.len(),
{
    if b.len() == 0 {
        assert(a + b =~= a);
        assert(headers_of(a) + Seq::<(Seq<char>, Seq<char>)>::empty() =~= headers_of(a));
    } else {
        lemma_headers_of_concat(a, b.drop_last());
        assert((a + b).drop_last() =~= a + b.drop_last());
        assert((a + b).last() == b.last());
        match header_of(b.last()) {
            Some(h) => {
                assert((headers_of(a) + headers_of(b.drop_last())).push(h) =~= headers_of(a) + (
                headers_of(b.drop_last()).push(h)));
            },
            None => {},
        }
    }
}

proof fn lemma_headers_of_header_lines(hs: Seq<(Seq<char>, Seq<char>)>)
    requires
        forall|i: int| 0 <= i < hs.len() ==> !has_separator(#[trigger] hs[i].0),
    ensures
        headers_of(hs.map_values(|h: (Seq<char>, Seq<char>)| header_line(h))) == hs,
    decreases hs.len(),
{
    let f = |h: (Seq<char>, Seq<char>)| header_line(h);
    if hs.len() == 0 {
        assert(hs.map_values(f) =~= Seq::<Seq<char>>::empty());
        assert(hs =~= Seq::<(Seq<char>, Seq<char>)>::empty());
    } else {
        let init = hs.drop_last();
        assert forall|i: int| 0 <= i < init.len() implies !has_separator(#[trigger] init[i].0) by {
            assert(init[i] == hs[i]);
        }
        lemma_headers_of_header_lines(init);
        assert(hs.map_values(f).drop_last() =~= init.map_values(f));
        assert(hs.map_values(f).last() == header_line(hs.last()));
        assert(!has_separator(hs[hs.len() - 1].0));
        law_header_round_trip(hs.last().0, hs.last().1);
        assert(init.push(hs.last()) =~= hs);
    }
}

proof fn lemma_connection_close()
    ensures
        headers_of(seq!["Connection: close"@, Seq::empty(), Seq::empty()]) == seq![
            ("Connection"@, "close"@),
        ],
{
    reveal_strlit("Connection: close");
    reveal_strlit("Connection");
    reveal_strlit("close");
    reveal_strlit(": ");
    let k = "Connection"@;
    assert(!has_separator(k)) by {
        if has_separator(k) {
            let i = choose|i: int| #[trigger] occurs_at(k, ": "@, i);
            assert(k.subrange(i, i + 2)[0] == k[i]);
        }
    }
    law_header_round_trip(k, "close"@);
    assert("Connection: close"@ =~= k + ": "@ + "close"@);
    let ls = seq!["Connection: close"@, Seq::<char>::empty(), Seq::<char>::empty()];
    let l2 = seq!["Connection: close"@, Seq::<char>::empty()];
    let l1 = seq!["Connection: close"@];
    assert(ls.drop_last() =~= l2);
    assert(l2.drop_last() =~= l1);
    assert(l1.drop_last() =~= Seq::<Seq<char>>::empty());
    assert(headers_of(l1.drop_last()) == Seq::<(Seq<char>, Seq<char>)>::empty());
    assert(header_of(l1.last()) == Some((k, "close"@)));
    assert(headers_of(l1) =~= seq![("Connection"@, "close"@)]);
    assert(header_of(l2.last()) is None);
    assert(headers_of(l2) == headers_of(l1));
    assert(header_of(ls.last()) is None);
    assert(headers_of(ls) == headers_of(l2));
}

/// What the proxy writes upstream for a request, read back by the proxy's own
/// reader, gives the request's headers in order followed by
/// `Connection: close`, provided no line holds a line break and no header key
/// holds ": ".
pub proof fn law_message_headers_read_back(r: RequestView)
    requires
        !has_crlf(request_line_of(r)),
        forall|i: int|
            0 <= i < r.client_headers.len() ==> !has_crlf(
                #[trigger] header_line(r.client_headers[i]),
            ) && !has_separator(r.client_headers[i].0),
    ensures
        split_on(message_of(r), "\r\n"@)[0] == request_line_of(r),
        headers_of(split_on(message_of(r), "\r\n"@).drop_first()) == r.client_headers.push(
            ("Connection"@, "close"@),
        ),
{
    reveal_strlit("\r\n");
    reveal_strlit(" HTTP/1.1\r\n");
    reveal_strlit(" HTTP/1.1");
    reveal_strlit("Connection: close\r\n");
    reveal_strlit("Connection: close");
    let f = |h: (Seq<char>, Seq<char>)| header_line(h);
    let hs = r.client_headers;
    let hl = hs.map_values(f);
    let tail = seq!["Connection: close"@, Seq::<char>::empty()];
    let ls = seq![request_line_of(r)] + hl + tail;
    lemma_header_lines_crlf(hs);
    lemma_crlf_lines_concat(seq![request_line_of(r)], hl);
    lemma_crlf_lines_concat(seq![request_line_of(r)] + hl, tail);
    lemma_crlf_single(request_line_of(r));
    assert(tail.drop_last() =~= seq!["Connection: close"@]);
    lemma_crlf_single("Connection: close"@);
    assert(crlf_lines(tail) == crlf_lines(tail.drop_last()) + Seq::<char>::empty() + "\r\n"@);
    assert(crlf_lines(tail) =~= "Connection: close"@ + "\r\n"@ + "\r\n"@);
    assert(message_of(r) =~= crlf_lines(ls));
    assert forall|i: int| 0 <= i < ls.len() implies !has_crlf(#[trigger] ls[i]) by {
        if i == 0 {
        } else if i < 1 + hl.len() {
            assert(ls[i] == hl[i - 1]);
            assert(hl[i - 1] == header_line(hs[i - 1]));
        } else if i == 1 + hl.len() {
            assert(ls[i] == "Connection: close"@);
            if has_crlf(ls[i]) {
                let j = choose|j: int| #[trigger] occurs_at(ls[i], "\r\n"@, j);
                assert(ls[i].subrange(j, j + 2)[0] == ls[i][j]);
            }
        } else {
            assert(ls[i] == Seq::<char>::empty());
        }
    }
    lemma_split_crlf_lines(ls);
    let pieces = ls.push(Seq::<char>::empty());
    assert(pieces.drop_first() =~= hl + seq!["Connection: close"@, Seq::empty(), Seq::empty()]);
    lemma_headers_of_concat(hl, seq!["Connection: close"@, Seq::empty(), Seq::empty()]);
    assert forall|i: int| 0 <= i < hs.len() implies !has_separator(#[trigger] hs[i].0) by {
        assert(!has_crlf(header_line(hs[i])) && !has_separator(hs[i].0));
    }
    lemma_headers_of_header_lines(hs);
    lemma_connection_close();
}

} // verus!
