//! RFC 6455 opening handshake: parsing and validation of the client's
//! HTTP/1.1 upgrade request and construction of the response.
//!
//! The engine works on the raw bytes accumulated from the client socket.  It
//! decides nothing before the header terminator CRLF CRLF has arrived (or the
//! 16 KiB cap is hit), and reports how many bytes it consumed so that bytes
//! following the terminator are preserved for the frame decoder.

use vstd::prelude::*;
use base64::Engine;
use sha1::Digest;
use crate::bytes::{
    bytes_eq, copy_range, spec_ascii, spec_find1, spec_find_crlf, spec_lower, spec_split1,
    spec_split_crlf, spec_trim, lemma_find1, lemma_find_crlf, lemma_lower_idempotent,
    lemma_split1_lower, lemma_trim_lower, to_lower, trim,
};
use crate::frame::push_all;

verus! {

/// Requests whose headers exceed this size are rejected.
pub const MAX_HEADER_BYTES: usize = 16384;

/// The fixed GUID that RFC 6455 appends to the client key before hashing.
pub open spec fn spec_guid() -> Seq<u8> {
    spec_ascii("258EAFA5-E914-47DA-95CA-C5AB0DC85B11"@)
}

/// SHA-1 digest of a byte string, as computed by the `sha1` crate.
pub uninterp spec fn spec_sha1(data: Seq<u8>) -> Seq<u8>;

/// Standard padded base64 of a byte string, as computed by the `base64`
/// crate.
pub uninterp spec fn spec_base64(data: Seq<u8>) -> Seq<u8>;

/// Relies on sha1::Sha1 through the Digest trait: the 20-byte SHA-1 digest,
/// a function of the input bytes alone.
#[verifier::external_body]
fn sha1_digest(data: &Vec<u8>) -> (r: Vec<u8>)
    ensures
        r@ == spec_sha1(data@),
        r@.len() == 20,
{
    let mut h = sha1::Sha1::new();
    h.update(data.as_slice());
    h.finalize().to_vec()
}

/// Relies on base64's STANDARD engine: padded base64, four output bytes for
/// every three input bytes, a function of the input bytes alone.  The size
/// bound keeps clear of the engine's overflow panic on absurd lengths.
#[verifier::external_body]
fn base64_of_bytes(data: &Vec<u8>) -> (r: Vec<u8>)
    requires
        data@.len() <= 0x10000000,
    ensures
        r@ == spec_base64(data@),
        r@.len() == ((data@.len() + 2) / 3) * 4,
{
    base64::engine::general_purpose::STANDARD.encode(data.as_slice()).into_bytes()
}

/// Copies the bytes of an ASCII string literal.
pub(crate) fn ascii_lit(s: &str) -> (r: Vec<u8>)
    requires
        vstd::string::is_ascii(s),
    ensures
        r@ == spec_ascii(s@),
{
    proof {
        vstd::string::is_ascii_spec_bytes(s);
    }
    let b = s.as_bytes();
    let mut r: Vec<u8> = Vec::new();
    push_all(&mut r, b);
    assert(r@ =~= spec_ascii(s@));
    r
}

/// A header line split at its first colon: lower-cased trimmed name and
/// trimmed value.  A line without a colon is malformed.
pub open spec fn spec_header_parts(line: Seq<u8>) -> Option<(Seq<u8>, Seq<u8>)> {
    let f = spec_find1(line, 58);
    if f < 0 {
        None
    } else {
        Some((spec_lower(spec_trim(line.take(f))), spec_trim(line.skip(f + 1))))
    }
}

/// The value of the first header with the given (lower-case) name.
pub open spec fn spec_find_header(hdrs: Seq<Seq<u8>>, name: Seq<u8>) -> Option<Seq<u8>>
    decreases hdrs.len(),
{
    if hdrs.len() == 0 {
        None
    } else {
        match spec_header_parts(hdrs[0]) {
            Some((n, v)) => if n == name {
                Some(v)
            } else {
                spec_find_header(hdrs.skip(1), name)
            },
            None => spec_find_header(hdrs.skip(1), name),
        }
    }
}

/// Every header line carries a colon.
pub open spec fn spec_headers_wf(hdrs: Seq<Seq<u8>>) -> bool {
    forall|i: int| 0 <= i < hdrs.len() ==> spec_find1(#[trigger] hdrs[i], 58) >= 0
}

/// The comma-separated value list contains the (lower-case) token, compared
/// case-insensitively after trimming.
pub open spec fn spec_has_token(value: Seq<u8>, token: Seq<u8>) -> bool {
    exists|i: int|
        0 <= i < spec_split1(value, 44).len() && spec_lower(
            spec_trim(#[trigger] spec_split1(value, 44)[i]),
        ) == token
}

/// Token matching does not see the ASCII case of the header value: the
/// value and its lower-cased form carry the same tokens.
pub proof fn lemma_has_token_lower(value: Seq<u8>, token: Seq<u8>)
    ensures
        spec_has_token(spec_lower(value), token) == spec_has_token(value, token),
{
    lemma_split1_lower(value, 44);
    let parts = spec_split1(value, 44);
    let lparts = spec_split1(spec_lower(value), 44);
    assert forall|i: int| 0 <= i < parts.len() implies spec_lower(
        spec_trim(#[trigger] lparts[i]),
    ) == spec_lower(spec_trim(parts[i])) by {
        assert(lparts[i] == spec_lower(parts[i]));
        lemma_trim_lower(parts[i]);
        lemma_lower_idempotent(spec_trim(parts[i]));
    }
    if spec_has_token(value, token) {
        let i = choose|i: int|
            0 <= i < parts.len() && spec_lower(spec_trim(#[trigger] parts[i])) == token;
        assert(spec_lower(spec_trim(lparts[i])) == token);
    }
    if spec_has_token(spec_lower(value), token) {
        let i = choose|i: int|
            0 <= i < lparts.len() && spec_lower(spec_trim(#[trigger] lparts[i])) == token;
        assert(spec_lower(spec_trim(parts[i])) == token);
    }
}

/// Header capitalisation variants are interchangeable: two header values
/// that differ only in ASCII case carry exactly the same tokens.  (Header
/// names need no counterpart: the lookup lower-cases them by definition.)
pub proof fn lemma_has_token_case_variants(v1: Seq<u8>, v2: Seq<u8>, token: Seq<u8>)
    requires
        spec_lower(v1) == spec_lower(v2),
    ensures
        spec_has_token(v1, token) == spec_has_token(v2, token),
{
    lemma_has_token_lower(v1, token);
    lemma_has_token_lower(v2, token);
}

/// A byte of the standard base64 alphabet.
pub open spec fn spec_is_b64_char(c: u8) -> bool {
    (65 <= c <= 90) || (97 <= c <= 122) || (48 <= c <= 57) || c == 43 || c == 47
}

/// The shape of 16 base64-encoded bytes: 24 characters, the first 22 from
/// the base64 alphabet, closed by the two padding characters.
pub open spec fn spec_valid_ws_key(k: Seq<u8>) -> bool {
    &&& k.len() == 24
    &&& (forall|i: int| 0 <= i < 22 ==> spec_is_b64_char(#[trigger] k[i]))
    &&& k[22] == 61
    &&& k[23] == 61
}

/// An HTTP version of the form HTTP/1.x with minor version at least 1.
pub open spec fn spec_version_ok(v: Seq<u8>) -> bool {
    &&& v.len() >= 8
    &&& v.take(7) == spec_ascii("HTTP/1."@)
    &&& forall|i: int| 7 <= i < v.len() ==> 48 <= #[trigger] v[i] <= 57
    &&& exists|i: int| 7 <= i < v.len() && #[trigger] v[i] != 48
}

/// The request line is `GET <nonempty-target> HTTP/1.<minor>=1..`.
pub open spec fn spec_request_line_ok(line: Seq<u8>) -> bool {
    let parts = spec_split1(line, 32);
    &&& parts.len() == 3
    &&& parts[0] == spec_ascii("GET"@)
    &&& parts[1].len() > 0
    &&& spec_version_ok(parts[2])
}

/// Every requirement on the upgrade request other than the WebSocket
/// version header.
pub open spec fn spec_handshake_sound(head: Seq<u8>) -> bool {
    let lines = spec_split_crlf(head);
    let hdrs = lines.skip(1);
    &&& spec_request_line_ok(lines[0])
    &&& spec_headers_wf(hdrs)
    &&& (spec_find_header(hdrs, spec_ascii("connection"@)) matches Some(cv) && spec_has_token(
        cv,
        spec_ascii("upgrade"@),
    ))
    &&& (spec_find_header(hdrs, spec_ascii("upgrade"@)) matches Some(uv) && spec_has_token(
        uv,
        spec_ascii("websocket"@),
    ))
    &&& (spec_find_header(hdrs, spec_ascii("sec-websocket-key"@)) matches Some(k)
        && spec_valid_ws_key(k))
    &&& spec_find_header(hdrs, spec_ascii("host"@)) is Some
}

/// The WebSocket version header asks for version 13.
pub open spec fn spec_version_13(head: Seq<u8>) -> bool {
    spec_find_header(spec_split_crlf(head).skip(1), spec_ascii("sec-websocket-version"@))
        == Some(spec_ascii("13"@))
}

/// A request the proxy accepts.
pub open spec fn spec_handshake_valid(head: Seq<u8>) -> bool {
    spec_handshake_sound(head) && spec_version_13(head)
}

/// The client's Sec-WebSocket-Key value.
pub open spec fn spec_ws_key(head: Seq<u8>) -> Seq<u8> {
    spec_find_header(spec_split_crlf(head).skip(1), spec_ascii("sec-websocket-key"@))->Some_0
}

/// The Sec-WebSocket-Accept value owed for a client key.
pub open spec fn spec_accept_value(key: Seq<u8>) -> Seq<u8> {
    spec_base64(spec_sha1(key + spec_guid()))
}

/// The 101 Switching Protocols response for a client key.
pub open spec fn spec_response_101(key: Seq<u8>) -> Seq<u8> {
    spec_ascii(
        "HTTP/1.1 101 Switching Protocols\r\nUpgrade: websocket\r\nConnection: Upgrade\r\nSec-WebSocket-Accept: "@,
    ) + spec_accept_value(key) + spec_ascii("\r\n\r\n"@)
}

/// The 400 Bad Request response.
pub open spec fn spec_response_400() -> Seq<u8> {
    spec_ascii("HTTP/1.1 400 Bad Request\r\nConnection: close\r\nContent-Length: 0\r\n\r\n"@)
}

/// The 426 Upgrade Required response, sent when only the version is wrong.
pub open spec fn spec_response_426() -> Seq<u8> {
    spec_ascii("HTTP/1.1 426 Upgrade Required\r\nConnection: close\r\nContent-Length: 0\r\n\r\n"@)
}

/// The header terminator CRLF CRLF stands at index `i`.
pub open spec fn spec_term_at(s: Seq<u8>, i: int) -> bool {
    &&& 0 <= i
    &&& i + 4 <= s.len()
    &&& s[i] == 13
    &&& s[i + 1] == 10
    &&& s[i + 2] == 13
    &&& s[i + 3] == 10
}

/// Index of the first header terminator, or -1.
pub open spec fn spec_find_term(s: Seq<u8>) -> int
    decreases s.len(),
{
    if s.len() < 4 {
        -1
    } else if s[0] == 13 && s[1] == 10 && s[2] == 13 && s[3] == 10 {
        0
    } else {
        let f = spec_find_term(s.skip(1));
        if f < 0 {
            -1
        } else {
            f + 1
        }
    }
}

/// `spec_find_term` finds the first terminator, and -1 means there is none.
pub proof fn lemma_find_term(s: Seq<u8>)
    ensures
        spec_find_term(s) == -1 ==> forall|i: int| !spec_term_at(s, i),
        spec_find_term(s) >= 0 ==> {
            let f = spec_find_term(s);
            &&& spec_term_at(s, f)
            &&& forall|i: int| 0 <= i < f ==> !spec_term_at(s, i)
        },
    decreases s.len(),
{
    if s.len() >= 4 && !(s[0] == 13 && s[1] == 10 && s[2] == 13 && s[3] == 10) {
        lemma_find_term(s.skip(1));
        assert(forall|i: int| 1 <= i < s.len() ==> s[i] == s.skip(1)[i - 1]);
        assert(forall|i: int| spec_term_at(s, i) && i >= 1 ==> spec_term_at(s.skip(1), i - 1));
        assert(forall|i: int| spec_term_at(s.skip(1), i) ==> spec_term_at(s, i + 1));
    }
}

/// Scans for the first header terminator.
fn find_term(buf: &Vec<u8>) -> (r: Option<usize>)
    ensures
        match r {
            Some(t) => t == spec_find_term(buf@),
            None => spec_find_term(buf@) == -1,
        },
{
    proof {
        lemma_find_term(buf@);
    }
    if buf.len() < 4 {
        return None;
    }
    let n = buf.len();
    let mut i: usize = 0;
    while i <= n - 4
        invariant
            n >= 4,
            i <= n,
            forall|j: int| 0 <= j < i ==> !spec_term_at(buf@, j),
        decreases n - i,
    {
        if buf[i] == 13 && buf[i + 1] == 10 && buf[i + 2] == 13 && buf[i + 3] == 10 {
            assert(spec_term_at(buf@, i as int));
            return Some(i);
        }
        i = i + 1;
    }
    assert(forall|j: int| !spec_term_at(buf@, j));
    None
}

/// Scans for the first occurrence of a byte.
fn find1(v: &Vec<u8>, b: u8) -> (r: Option<usize>)
    ensures
        match r {
            Some(i) => i == spec_find1(v@, b),
            None => spec_find1(v@, b) == -1,
        },
{
    proof {
        lemma_find1(v@, b);
    }
    let n = v.len();
    let mut i: usize = 0;
    while i < n
        invariant
            i <= n,
            forall|j: int| 0 <= j < i ==> v@[j] != b,
        decreases n - i,
    {
        if v[i] == b {
            return Some(i);
        }
        i = i + 1;
    }
    None
}

/// Splits `buf[start..end]` at its CRLF pairs.
fn split_crlf_range(buf: &Vec<u8>, start: usize, end: usize) -> (r: Vec<Vec<u8>>)
    requires
        start <= end <= buf@.len(),
    ensures
        r@.map_values(|v: Vec<u8>| v@) == spec_split_crlf(buf@.subrange(start as int, end as int)),
    decreases end - start,
{
    let ghost s = buf@.subrange(start as int, end as int);
    proof {
        lemma_find_crlf(s);
    }
    let mut i: usize = start;
    while end - i >= 2 && !(buf[i] == 13 && buf[i + 1] == 10)
        invariant
            start <= i <= end,
            forall|j: int| 0 <= j < i - start ==> !crate::bytes::spec_crlf_at(s, j),
        decreases end - i,
    {
        assert(s[i - start] == buf@[i as int] && s[i - start + 1] == buf@[i + 1]);
        assert(!crate::bytes::spec_crlf_at(s, i - start));
        i = i + 1;
    }
    proof {
        if end - i >= 2 {
            assert(s[i - start] == buf@[i as int] && s[i - start + 1] == buf@[i + 1]);
            assert(crate::bytes::spec_crlf_at(s, i - start));
        } else {
            assert(forall|j: int| !crate::bytes::spec_crlf_at(s, j));
        }
    }
    if end - i >= 2 {
        let f = i;
        assert(spec_find_crlf(s) == f - start);
        let piece = copy_range(buf, start, f);
        let mut rest = split_crlf_range(buf, f + 2, end);
        assert(piece@ =~= s.take(f - start));
        assert(buf@.subrange(f + 2, end as int) =~= s.skip(f - start + 2));
        rest.insert(0, piece);
        assert(rest@.map_values(|v: Vec<u8>| v@) =~= seq![s.take(f - start)] + spec_split_crlf(
            s.skip(f - start + 2),
        ));
        rest
    } else {
        assert(spec_find_crlf(s) == -1);
        let piece = copy_range(buf, start, end);
        let mut r: Vec<Vec<u8>> = Vec::new();
        r.push(piece);
        assert(r@.map_values(|v: Vec<u8>| v@) =~= seq![s]);
        r
    }
}

/// Splits a byte string at every occurrence of `sep`.
fn split1_vec(v: &Vec<u8>, sep: u8) -> (r: Vec<Vec<u8>>)
    ensures
        r@.map_values(|p: Vec<u8>| p@) == spec_split1(v@, sep),
    decreases v@.len(),
{
    match find1(v, sep) {
        None => {
            let piece = copy_range(v, 0, v.len());
            assert(piece@ =~= v@);
            let mut r: Vec<Vec<u8>> = Vec::new();
            r.push(piece);
            assert(r@.map_values(|p: Vec<u8>| p@) =~= seq![v@]);
            r
        },
        Some(f) => {
            proof {
                lemma_find1(v@, sep);
                assert(f < v@.len());
            }
            let n = v.len();
            let piece = copy_range(v, 0, f);
            let tail = copy_range(v, f + 1, n);
            assert(tail@ =~= v@.skip(f + 1));
            assert(tail@.len() < v@.len());
            let mut rest = split1_vec(&tail, sep);
            assert(piece@ =~= v@.take(f as int));
            rest.insert(0, piece);
            assert(rest@.map_values(|p: Vec<u8>| p@) =~= seq![v@.take(f as int)] + spec_split1(
                v@.skip(f + 1),
                sep,
            ));
            rest
        },
    }
}

/// Looks a header up by its lower-case name, from index `i` on.
fn find_header(hdrs: &Vec<Vec<u8>>, i: usize, name: &Vec<u8>) -> (r: Option<Vec<u8>>)
    requires
        i <= hdrs@.len(),
    ensures
        match r {
            Some(v) => spec_find_header(
                hdrs@.map_values(|l: Vec<u8>| l@).skip(i as int),
                name@,
            ) == Some(v@),
            None => spec_find_header(
                hdrs@.map_values(|l: Vec<u8>| l@).skip(i as int),
                name@,
            ) is None,
        },
    decreases hdrs@.len() - i,
{
    let ghost views = hdrs@.map_values(|l: Vec<u8>| l@);
    if i == hdrs.len() {
        assert(views.skip(i as int) =~= Seq::<Seq<u8>>::empty());
        return None;
    }
    assert(views.skip(i as int)[0] == hdrs@[i as int]@);
    assert(views.skip(i as int).skip(1) =~= views.skip(i + 1));
    let line = &hdrs[i];
    match find1(line, 58) {
        None => find_header(hdrs, i + 1, name),
        Some(c) => {
            proof {
                lemma_find1(line@, 58);
                assert(c < line@.len());
            }
            let raw_name = copy_range(line, 0, c);
            let trimmed = trim(&raw_name);
            let lowered = to_lower(&trimmed);
            assert(raw_name@ == line@.take(c as int));
            if bytes_eq(&lowered, name) {
                let line_len = line.len();
                let raw_value = copy_range(line, c + 1, line_len);
                assert(raw_value@ =~= line@.skip(c + 1));
                Some(trim(&raw_value))
            } else {
                find_header(hdrs, i + 1, name)
            }
        },
    }
}

/// Tests a comma-separated header value for a token.
fn has_token(value: &Vec<u8>, token: &Vec<u8>) -> (r: bool)
    ensures
        r == spec_has_token(value@, token@),
{
    let parts = split1_vec(value, 44);
    let n = parts.len();
    let ghost part_views = parts@.map_values(|p: Vec<u8>| p@);
    let mut i: usize = 0;
    while i < n
        invariant
            i <= n,
            forall|j: int|
                0 <= j < i ==> spec_lower(spec_trim(#[trigger] spec_split1(value@, 44)[j]))
                    != token@,
        decreases n - i,
    {
        assert(part_views[i as int] == parts@[i as int]@);
        let trimmed = trim(&parts[i]);
        let lowered = to_lower(&trimmed);
        if bytes_eq(&lowered, token) {
            assert(spec_split1(value@, 44)[i as int] == parts@[i as int]@);
            return true;
        }
        i = i + 1;
    }
    false
}

/// Checks the HTTP version of the request line.
fn version_ok(v: &Vec<u8>) -> (r: bool)
    ensures
        r == spec_version_ok(v@),
{
    if v.len() < 8 {
        return false;
    }
    let prefix = copy_range(v, 0, 7);
    proof {
        reveal_strlit("HTTP/1.");
    }
    let expect = ascii_lit("HTTP/1.");
    if !bytes_eq(&prefix, &expect) {
        assert(v@.take(7) != spec_ascii("HTTP/1."@));
        return false;
    }
    assert(v@.take(7) == spec_ascii("HTTP/1."@));
    let n = v.len();
    let mut i: usize = 7;
    let mut nonzero = false;
    while i < n
        invariant
            7 <= i <= n,
            forall|j: int| 7 <= j < i ==> 48 <= #[trigger] v@[j] <= 57,
            nonzero == exists|j: int| 7 <= j < i && #[trigger] v@[j] != 48,
        decreases n - i,
    {
        let c = v[i];
        if c < 48 || c > 57 {
            return false;
        }
        if c != 48 {
            nonzero = true;
        }
        i = i + 1;
    }
    nonzero
}

/// Checks the request line.
fn request_line_ok(line: &Vec<u8>) -> (r: bool)
    ensures
        r == spec_request_line_ok(line@),
{
    let parts = split1_vec(line, 32);
    if parts.len() != 3 {
        return false;
    }
    assert(parts@[0]@ == spec_split1(line@, 32)[0]);
    assert(parts@[1]@ == spec_split1(line@, 32)[1]);
    assert(parts@[2]@ == spec_split1(line@, 32)[2]);
    proof {
        reveal_strlit("GET");
    }
    let get = ascii_lit("GET");
    if !bytes_eq(&parts[0], &get) {
        return false;
    }
    if parts[1].len() == 0 {
        return false;
    }
    version_ok(&parts[2])
}

/// Checks that every header line carries a colon.
fn headers_wf(hdrs: &Vec<Vec<u8>>, start: usize) -> (r: bool)
    requires
        start <= hdrs@.len(),
    ensures
        r == spec_headers_wf(hdrs@.map_values(|l: Vec<u8>| l@).skip(start as int)),
{
    let ghost views = hdrs@.map_values(|l: Vec<u8>| l@).skip(start as int);
    let n = hdrs.len();
    let mut i: usize = start;
    while i < n
        invariant
            start <= i <= n,
            forall|j: int| 0 <= j < i - start ==> spec_find1(#[trigger] views[j], 58) >= 0,
        decreases n - i,
    {
        assert(views[i - start] == hdrs@[i as int]@);
        if find1(&hdrs[i], 58).is_none() {
            return false;
        }
        i = i + 1;
    }
    true
}

/// Checks a Sec-WebSocket-Key value for the shape of 16 encoded bytes.
fn valid_ws_key(k: &Vec<u8>) -> (r: bool)
    ensures
        r == spec_valid_ws_key(k@),
{
    if k.len() != 24 {
        return false;
    }
    if !(k[22] == 61 && k[23] == 61) {
        return false;
    }
    let mut i: usize = 0;
    while i < 22
        invariant
            i <= 22,
            forall|j: int| 0 <= j < i ==> spec_is_b64_char(#[trigger] k@[j]),
        decreases 22 - i,
    {
        let c = k[i];
        if !((65 <= c && c <= 90) || (97 <= c && c <= 122) || (48 <= c && c <= 57) || c == 43 || c
            == 47) {
            return false;
        }
        i = i + 1;
    }
    true
}

/// What the handshake engine concluded from the bytes read so far.
pub enum HandshakeOutcome {
    /// The terminator has not arrived and the cap is not yet hit.
    Incomplete,
    /// The request is acceptable: send `response`, treat the first
    /// `consumed` buffer bytes as spent, and enter the relay.
    Accepted { response: Vec<u8>, consumed: usize },
    /// The request is refused: send `response` and close.
    Rejected { response: Vec<u8> },
}

/// Runs the handshake engine over the bytes read from the client so far.
pub fn process_handshake(buf: &Vec<u8>) -> (r: HandshakeOutcome)
    ensures
        (r is Incomplete <==> spec_find_term(buf@) == -1 && buf@.len() < MAX_HEADER_BYTES),
        (r matches HandshakeOutcome::Accepted { response, consumed } ==> {
            let t = spec_find_term(buf@);
            &&& t >= 0
            &&& spec_handshake_valid(buf@.take(t))
            &&& consumed == t + 4
            &&& response@ == spec_response_101(spec_ws_key(buf@.take(t)))
        }),
        (r matches HandshakeOutcome::Rejected { response } ==> {
            let t = spec_find_term(buf@);
            &&& (t == -1 ==> buf@.len() >= MAX_HEADER_BYTES && response@ == spec_response_400())
            &&& (t >= 0 ==> !spec_handshake_valid(buf@.take(t)) && response@ == (
            if spec_handshake_sound(buf@.take(t)) {
                spec_response_426()
            } else {
                spec_response_400()
            }))
        }),
        (spec_find_term(buf@) >= 0 && spec_handshake_valid(
            buf@.take(spec_find_term(buf@)),
        ) ==> r is Accepted),
        (spec_find_term(buf@) >= 0 && !spec_handshake_valid(
            buf@.take(spec_find_term(buf@)),
        ) ==> r is Rejected),
{
    let t = match find_term(buf) {
        None => {
            if buf.len() >= MAX_HEADER_BYTES {
                proof {
                    reveal_strlit(
                        "HTTP/1.1 400 Bad Request\r\nConnection: close\r\nContent-Length: 0\r\n\r\n",
                    );
                }
                let response = ascii_lit(
                    "HTTP/1.1 400 Bad Request\r\nConnection: close\r\nContent-Length: 0\r\n\r\n",
                );
                return HandshakeOutcome::Rejected { response };
            }
            return HandshakeOutcome::Incomplete;
        },
        Some(t) => t,
    };
    let buf_len = buf.len();
    proof {
        lemma_find_term(buf@);
        assert(spec_term_at(buf@, t as int));
        assert(t + 4 <= buf_len);
    }
    let ghost head = buf@.take(t as int);
    let lines = split_crlf_range(buf, 0, t);
    let ghost line_views = lines@.map_values(|l: Vec<u8>| l@);
    proof {
        assert(buf@.subrange(0, t as int) == head);
        assert(line_views == spec_split_crlf(head));
        assert(line_views.len() >= 1);
        assert(line_views[0] == lines@[0]@);
    }
    let req_ok = request_line_ok(&lines[0]);
    let wf = headers_wf(&lines, 1);
    proof {
        reveal_strlit("connection");
        reveal_strlit("upgrade");
        reveal_strlit("websocket");
        reveal_strlit("sec-websocket-key");
        reveal_strlit("sec-websocket-version");
        reveal_strlit("host");
        reveal_strlit("13");
    }
    let conn_ok = match find_header(&lines, 1, &ascii_lit("connection")) {
        Some(v) => has_token(&v, &ascii_lit("upgrade")),
        None => false,
    };
    let upg_ok = match find_header(&lines, 1, &ascii_lit("upgrade")) {
        Some(v) => has_token(&v, &ascii_lit("websocket")),
        None => false,
    };
    let key_opt = find_header(&lines, 1, &ascii_lit("sec-websocket-key"));
    let key_ok = match &key_opt {
        Some(k) => valid_ws_key(k),
        None => false,
    };
    let ver_ok = match find_header(&lines, 1, &ascii_lit("sec-websocket-version")) {
        Some(v) => bytes_eq(&v, &ascii_lit("13")),
        None => false,
    };
    let host_ok = match find_header(&lines, 1, &ascii_lit("host")) {
        Some(_) => true,
        None => false,
    };
    let sound = req_ok && wf && conn_ok && upg_ok && key_ok && host_ok;
    assert(sound == spec_handshake_sound(head));
    assert(ver_ok == spec_version_13(head));
    if sound && ver_ok {
        let key = match key_opt {
            Some(k) => k,
            None => {
                proof {
                    assert(false);
                }
                Vec::new()
            },
        };
        assert(key@ == spec_ws_key(head));
        proof {
            reveal_strlit("258EAFA5-E914-47DA-95CA-C5AB0DC85B11");
        }
        let mut data = key;
        let guid = ascii_lit("258EAFA5-E914-47DA-95CA-C5AB0DC85B11");
        push_all(&mut data, guid.as_slice());
        assert(data@ == spec_ws_key(head) + spec_guid());
        let digest = sha1_digest(&data);
        let accept = base64_of_bytes(&digest);
        proof {
            reveal_strlit(
                "HTTP/1.1 101 Switching Protocols\r\nUpgrade: websocket\r\nConnection: Upgrade\r\nSec-WebSocket-Accept: ",
            );
            reveal_strlit("\r\n\r\n");
        }
        let mut response = ascii_lit(
            "HTTP/1.1 101 Switching Protocols\r\nUpgrade: websocket\r\nConnection: Upgrade\r\nSec-WebSocket-Accept: ",
        );
        push_all(&mut response, accept.as_slice());
        let tail = ascii_lit("\r\n\r\n");
        push_all(&mut response, tail.as_slice());
        assert(response@ =~= spec_response_101(spec_ws_key(head)));
        HandshakeOutcome::Accepted { response, consumed: t + 4 }
    } else if sound {
        proof {
            reveal_strlit(
                "HTTP/1.1 426 Upgrade Required\r\nConnection: close\r\nContent-Length: 0\r\n\r\n",
            );
        }
        let response = ascii_lit(
            "HTTP/1.1 426 Upgrade Required\r\nConnection: close\r\nContent-Length: 0\r\n\r\n",
        );
        HandshakeOutcome::Rejected { response }
    } else {
        proof {
            reveal_strlit(
                "HTTP/1.1 400 Bad Request\r\nConnection: close\r\nContent-Length: 0\r\n\r\n",
            );
        }
        let response = ascii_lit(
            "HTTP/1.1 400 Bad Request\r\nConnection: close\r\nContent-Length: 0\r\n\r\n",
        );
        HandshakeOutcome::Rejected { response }
    }
}

} // verus!
