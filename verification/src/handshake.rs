//! The handshake negotiator: pull the client key out of the upgrade
//! request, derive the accept token by hashing key + fixed GUID and
//! encoding the digest, and build the switching-protocols response.

use vstd::prelude::*;
use vstd::string::StringSliceAdditionalSpecFns;

verus! {

/// Why a handshake failed.
#[derive(Debug, PartialEq, Eq, Structural, Clone, Copy)]
pub enum HandshakeError {
    MissingKey,
}

/// The exact header-name prefix a key line must begin with.
pub open spec fn key_prefix() -> Seq<u8> {
    "Sec-WebSocket-Key: ".spec_bytes()
}

/// The protocol-defined constant appended to the client key.
pub open spec fn guid() -> Seq<u8> {
    "258EAFA5-E914-47DA-95CA-C5AB0DC85B11".spec_bytes()
}

/// The method prefix an upgrade request must begin with.
pub open spec fn get_prefix() -> Seq<u8> {
    "GET".spec_bytes()
}

/// The response up to the accept token.
pub open spec fn response_prefix() -> Seq<u8> {
    "HTTP/1.1 101 Switching Protocols\r\nUpgrade: websocket\r\nConnection: Upgrade\r\nSec-WebSocket-Accept: ".spec_bytes()
}

/// The blank-line terminator after the accept token.
pub open spec fn response_suffix() -> Seq<u8> {
    "\r\n\r\n".spec_bytes()
}

/// The GUID is 36 ASCII bytes long.
pub proof fn lemma_guid_len()
    ensures
        guid().len() == 36,
{
    let s = "258EAFA5-E914-47DA-95CA-C5AB0DC85B11";
    reveal_strlit("258EAFA5-E914-47DA-95CA-C5AB0DC85B11");
    assert(vstd::utf8::is_ascii_chars(s@));
    vstd::utf8::is_ascii_chars_encode_utf8(s@);
}

/// Whether `p` is a prefix of `s`.
pub open spec fn has_prefix(s: Seq<u8>, p: Seq<u8>) -> bool {
    p.len() <= s.len() && s.subrange(0, p.len() as int) == p
}

/// The index of the first newline byte in `s`, or `s.len()` if none.
pub open spec fn first_nl(s: Seq<u8>) -> nat
    decreases s.len(),
{
    if s.len() == 0 {
        0
    } else if s[0] == 0x0A {
        0
    } else {
        1 + first_nl(s.skip(1))
    }
}

/// The first-newline index never passes the end of the text.
pub proof fn lemma_first_nl_le(s: Seq<u8>)
    ensures
        first_nl(s) <= s.len(),
    decreases s.len(),
{
    if s.len() > 0 && s[0] != 0x0A {
        lemma_first_nl_le(s.skip(1));
    }
}

/// `first_nl` is the unique index with no newline before it and a
/// newline (or the end) at it.
pub proof fn lemma_first_nl_is(s: Seq<u8>, k: int)
    requires
        0 <= k <= s.len(),
        forall|j: int| 0 <= j < k ==> s[j] != 0x0A,
        k < s.len() ==> s[k] == 0x0A,
    ensures
        first_nl(s) == k,
    decreases s.len(),
{
    if k > 0 {
        lemma_first_nl_is(s.skip(1), k - 1);
    }
}

/// An ASCII whitespace byte, as value trimming removes it.
pub open spec fn is_ws(b: u8) -> bool {
    b == 0x20 || b == 0x09 || b == 0x0A || b == 0x0B || b == 0x0C || b == 0x0D
}

/// `s` without leading whitespace.
pub open spec fn trim_start(s: Seq<u8>) -> Seq<u8>
    decreases s.len(),
{
    if s.len() > 0 && is_ws(s[0]) {
        trim_start(s.skip(1))
    } else {
        s
    }
}

/// `s` without trailing whitespace.
pub open spec fn trim_end(s: Seq<u8>) -> Seq<u8>
    decreases s.len(),
{
    if s.len() > 0 && is_ws(s.last()) {
        trim_end(s.take(s.len() - 1))
    } else {
        s
    }
}

/// `s` without leading or trailing whitespace.
pub open spec fn trim(s: Seq<u8>) -> Seq<u8> {
    trim_end(trim_start(s))
}

pub proof fn lemma_trim_start_len(s: Seq<u8>)
    ensures
        trim_start(s).len() <= s.len(),
    decreases s.len(),
{
    if s.len() > 0 && is_ws(s[0]) {
        lemma_trim_start_len(s.skip(1));
    }
}

pub proof fn lemma_trim_end_len(s: Seq<u8>)
    ensures
        trim_end(s).len() <= s.len(),
    decreases s.len(),
{
    if s.len() > 0 && is_ws(s.last()) {
        lemma_trim_end_len(s.take(s.len() - 1));
    }
}

/// The trimmed value on the key line, for a text that begins with the
/// key prefix: the rest of that line.
pub open spec fn value_of(s: Seq<u8>) -> Seq<u8> {
    trim(s.skip(key_prefix().len() as int).take(first_nl(s.skip(key_prefix().len() as int)) as int))
}

/// Scan for the key header, line by line: at a line start, a text
/// beginning with the key prefix yields the rest of that line, trimmed;
/// otherwise the scan moves on past the next newline.
pub open spec fn find_key_at(s: Seq<u8>, at_line_start: bool) -> Option<Seq<u8>>
    decreases s.len(),
{
    if at_line_start && has_prefix(s, key_prefix()) {
        Some(value_of(s))
    } else if s.len() == 0 {
        None
    } else {
        find_key_at(s.skip(1), s[0] == 0x0A)
    }
}

/// The client key in a request: the trimmed value of the first line
/// beginning with the key prefix, if any line does.
pub open spec fn find_key(s: Seq<u8>) -> Option<Seq<u8>> {
    find_key_at(s, true)
}

/// A scan not at a line start skips everything up to the next newline.
proof fn lemma_skip_line_false(s: Seq<u8>)
    ensures
        first_nl(s) < s.len() ==> find_key_at(s, false) == find_key_at(
            s.skip(first_nl(s) as int + 1),
            true,
        ),
        first_nl(s) >= s.len() ==> find_key_at(s, false) is None,
    decreases s.len(),
{
    if s.len() == 0 {
    } else if s[0] == 0x0A {
    } else {
        lemma_skip_line_false(s.skip(1));
        if first_nl(s) < s.len() {
            assert(s.skip(1).skip(first_nl(s.skip(1)) as int + 1) =~= s.skip(
                first_nl(s) as int + 1,
            ));
        }
    }
}

/// A line whose start does not match the key prefix contributes
/// nothing: the scan resumes after its newline.
pub proof fn lemma_line_step(s: Seq<u8>)
    requires
        !has_prefix(s, key_prefix()),
    ensures
        first_nl(s) < s.len() ==> find_key_at(s, true) == find_key_at(
            s.skip(first_nl(s) as int + 1),
            true,
        ),
        first_nl(s) >= s.len() ==> find_key_at(s, true) is None,
{
    if s.len() == 0 {
    } else if s[0] == 0x0A {
    } else {
        lemma_skip_line_false(s.skip(1));
        if first_nl(s) < s.len() {
            assert(s.skip(1).skip(first_nl(s.skip(1)) as int + 1) =~= s.skip(
                first_nl(s) as int + 1,
            ));
        }
    }
}

/// A found key is no longer than the text it was found in.
pub proof fn lemma_find_key_len(s: Seq<u8>, b: bool)
    ensures
        find_key_at(s, b) matches Some(k) ==> k.len() <= s.len(),
    decreases s.len(),
{
    if b && has_prefix(s, key_prefix()) {
        let v = s.skip(key_prefix().len() as int).take(
            first_nl(s.skip(key_prefix().len() as int)) as int,
        );
        lemma_first_nl_le(s.skip(key_prefix().len() as int));
        lemma_trim_start_len(v);
        lemma_trim_end_len(trim_start(v));
    } else if s.len() > 0 {
        lemma_find_key_len(s.skip(1), s[0] == 0x0A);
    }
}

/// Whether the bytes of `pat` occur in `s` starting at `pos`.
fn starts_with_at(s: &[u8], pos: usize, pat: &[u8]) -> (b: bool)
    requires
        pos <= s@.len(),
    ensures
        b == has_prefix(s@.skip(pos as int), pat@),
{
    let m = pat.len();
    let n = s.len();
    if n - pos < m {
        return false;
    }
    let mut j: usize = 0;
    while j < m
        invariant
            j <= m,
            m == pat@.len(),
            pos + m <= n,
            n == s@.len(),
            forall|q: int| 0 <= q < j ==> s@[pos + q] == pat@[q],
        decreases m - j,
    {
        if s[pos + j] != pat[j] {
            proof {
                let tail = s@.skip(pos as int);
                if has_prefix(tail, pat@) {
                    assert(tail.subrange(0, m as int)[j as int] == pat@[j as int]);
                    assert(tail[j as int] == s@[pos + j]);
                }
            }
            return false;
        }
        j = j + 1;
    }
    proof {
        assert(s@.skip(pos as int).subrange(0, m as int) =~= pat@);
    }
    true
}

/// The index of the first newline at or after `from`, or the end.
fn line_end_from(s: &[u8], from: usize) -> (e: usize)
    requires
        from <= s@.len(),
    ensures
        from <= e <= s@.len(),
        e - from == first_nl(s@.skip(from as int)),
        e < s@.len() ==> s@[e as int] == 0x0A,
{
    let n = s.len();
    let mut e = from;
    while e < n && s[e] != 0x0A
        invariant
            from <= e <= n,
            n == s@.len(),
            forall|q: int| from <= q < e ==> s@[q] != 0x0A,
        decreases n - e,
    {
        e = e + 1;
    }
    proof {
        lemma_first_nl_is(s@.skip(from as int), e as int - from as int);
    }
    e
}

/// Extract the client key from the raw request text, or report that no
/// line carries one.
pub fn extract_key(request: &[u8]) -> (r: Result<Vec<u8>, HandshakeError>)
    ensures
        match r {
            Ok(k) => find_key(request@) == Some(k@),
            Err(e) => e == HandshakeError::MissingKey && find_key(request@) is None,
        },
{
    let n = request.len();
    let prefix: &[u8] = "Sec-WebSocket-Key: ".as_bytes();
    let plen = prefix.len();
    let mut pos: usize = 0;
    proof {
        assert(prefix@ == key_prefix());
        assert(request@.skip(0) =~= request@);
    }
    loop
        invariant
            pos <= n,
            n == request@.len(),
            plen == key_prefix().len(),
            prefix@ == key_prefix(),
            find_key(request@) == find_key_at(request@.skip(pos as int), true),
        decreases n - pos,
    {
        let ghost tail = request@.skip(pos as int);
        if starts_with_at(request, pos, prefix) {
            let start = pos + plen;
            let e = line_end_from(request, start);
            proof {
                assert(tail.skip(plen as int) =~= request@.skip(start as int));
            }
            // trim the value in place
            let mut a = start;
            let mut b = e;
            while a < b && (request[a] == 0x20 || request[a] == 0x09 || request[a] == 0x0A
                || request[a] == 0x0B || request[a] == 0x0C || request[a] == 0x0D)
                invariant
                    start <= a <= b,
                    b == e,
                    e <= n,
                    n == request@.len(),
                    trim_start(request@.subrange(start as int, e as int)) == trim_start(
                        request@.subrange(a as int, e as int),
                    ),
                decreases b - a,
            {
                proof {
                    assert(request@.subrange(a as int, e as int).skip(1) =~= request@.subrange(
                        a as int + 1,
                        e as int,
                    ));
                }
                a = a + 1;
            }
            proof {
                assert(trim_start(request@.subrange(a as int, e as int)) == request@.subrange(
                    a as int,
                    e as int,
                ));
            }
            while b > a && (request[b - 1] == 0x20 || request[b - 1] == 0x09 || request[b - 1]
                == 0x0A || request[b - 1] == 0x0B || request[b - 1] == 0x0C || request[b - 1]
                == 0x0D)
                invariant
                    a <= b,
                    b <= e,
                    e <= n,
                    n == request@.len(),
                    trim_end(request@.subrange(a as int, e as int)) == trim_end(
                        request@.subrange(a as int, b as int),
                    ),
                decreases b - a,
            {
                proof {
                    let cur = request@.subrange(a as int, b as int);
                    assert(cur.take(cur.len() - 1) =~= request@.subrange(a as int, b as int - 1));
                }
                b = b - 1;
            }
            proof {
                assert(trim_end(request@.subrange(a as int, b as int)) == request@.subrange(
                    a as int,
                    b as int,
                ));
            }
            let mut k: Vec<u8> = Vec::new();
            let mut i = a;
            proof {
                assert(k@ =~= request@.subrange(a as int, a as int));
            }
            while i < b
                invariant
                    a <= i <= b,
                    b <= n,
                    n == request@.len(),
                    k@ == request@.subrange(a as int, i as int),
                decreases b - i,
            {
                k.push(request[i]);
                proof {
                    assert(request@.subrange(a as int, i as int) + seq![request@[i as int]]
                        =~= request@.subrange(a as int, i as int + 1));
                }
                i = i + 1;
            }
            proof {
                let seg = request@.subrange(start as int, e as int);
                assert(request@.skip(start as int).take(e as int - start as int) =~= seg);
                assert(value_of(tail) == trim(seg));
                assert(trim(seg) == request@.subrange(a as int, b as int));
            }
            return Ok(k);
        } else {
            let e = line_end_from(request, pos);
            proof {
                lemma_line_step(tail);
            }
            if e == n {
                return Err(HandshakeError::MissingKey);
            }
            proof {
                assert(tail.skip(first_nl(tail) as int + 1) =~= request@.skip(e as int + 1));
            }
            pos = e + 1;
        }
    }
}

/// The accept token for a client key: the encoding of the digest of
/// key + GUID.
pub open spec fn accept_token_spec(key: Seq<u8>) -> Seq<u8> {
    crate::base64::encode_spec(crate::sha1::digest_spec(key + guid()))
}

/// Compute the accept token. The length bounds are machine limits
/// carried through from the hash.
pub fn accept_token(key: &[u8]) -> (r: Vec<u8>)
    requires
        key@.len() + 128 <= usize::MAX,
        (key@.len() + 36) * 8 <= u64::MAX,
    ensures
        r@ == accept_token_spec(key@),
{
    proof {
        lemma_guid_len();
    }
    let mut msg: Vec<u8> = vstd::slice::slice_to_vec(key);
    let g: &[u8] = "258EAFA5-E914-47DA-95CA-C5AB0DC85B11".as_bytes();
    let glen = g.len();
    let mut i: usize = 0;
    proof {
        assert(g@ == guid());
        assert(msg@ + g@.take(0) =~= msg@);
    }
    while i < glen
        invariant
            i <= glen,
            glen == guid().len(),
            g@ == guid(),
            msg@ == key@ + g@.take(i as int),
            key@.len() + 128 <= usize::MAX,
        decreases glen - i,
    {
        msg.push(g[i]);
        proof {
            assert(key@ + g@.take(i as int) + seq![g@[i as int]] =~= key@ + g@.take(i as int + 1));
        }
        i = i + 1;
    }
    proof {
        assert(g@.take(glen as int) =~= g@);
        assert(msg@ =~= key@ + guid());
    }
    let digest = crate::sha1::digest(msg.as_slice());
    crate::base64::encode(digest.as_slice())
}

/// The full upgrade response for a client key.
pub open spec fn response_spec(key: Seq<u8>) -> Seq<u8> {
    response_prefix() + accept_token_spec(key) + response_suffix()
}

/// Whether the request begins with the method prefix; requests that do
/// not are ignored without a response.
pub fn is_upgrade_request(request: &[u8]) -> (r: bool)
    ensures
        r == has_prefix(request@, get_prefix()),
{
    let g: &[u8] = "GET".as_bytes();
    proof {
        assert(g@ == get_prefix());
        assert(request@.skip(0) =~= request@);
    }
    starts_with_at(request, 0, g)
}

/// Build the upgrade response for a raw request, or fail with
/// `MissingKey` when no line carries the key header. The length bounds
/// are machine limits carried through from the hash.
pub fn handshake_response(request: &[u8]) -> (r: Result<Vec<u8>, HandshakeError>)
    requires
        request@.len() + 128 <= usize::MAX,
        (request@.len() + 36) * 8 <= u64::MAX,
    ensures
        match r {
            Ok(resp) => find_key(request@) matches Some(k) && resp@ == response_spec(k),
            Err(e) => e == HandshakeError::MissingKey && find_key(request@) is None,
        },
{
    let key = match extract_key(request) {
        Ok(k) => k,
        Err(e) => {
            return Err(e);
        },
    };
    proof {
        lemma_find_key_len(request@, true);
    }
    let token = accept_token(key.as_slice());
    let pre: &[u8] = "HTTP/1.1 101 Switching Protocols\r\nUpgrade: websocket\r\nConnection: Upgrade\r\nSec-WebSocket-Accept: ".as_bytes();
    let mut resp: Vec<u8> = vstd::slice::slice_to_vec(pre);
    proof {
        assert(resp@ == response_prefix());
        assert(resp@ + token@.take(0) =~= resp@);
    }
    let tlen = token.len();
    let mut i: usize = 0;
    while i < tlen
        invariant
            i <= tlen,
            tlen == token@.len(),
            resp@ == response_prefix() + token@.take(i as int),
        decreases tlen - i,
    {
        let byte = token[i];
        resp.push(byte);
        proof {
            assert(response_prefix() + token@.take(i as int) + seq![token@[i as int]]
                =~= response_prefix() + token@.take(i as int + 1));
        }
        i = i + 1;
    }
    proof {
        assert(token@.take(tlen as int) =~= token@);
    }
    let suf: &[u8] = "\r\n\r\n".as_bytes();
    let slen = suf.len();
    let mut i2: usize = 0;
    proof {
        assert(suf@ == response_suffix());
        assert(resp@ + suf@.take(0) =~= resp@);
    }
    while i2 < slen
        invariant
            i2 <= slen,
            slen == suf@.len(),
            suf@ == response_suffix(),
            resp@ == response_prefix() + token@ + suf@.take(i2 as int),
        decreases slen - i2,
    {
        let byte = suf[i2];
        resp.push(byte);
        proof {
            assert(response_prefix() + token@ + suf@.take(i2 as int) + seq![suf@[i2 as int]]
                =~= response_prefix() + token@ + suf@.take(i2 as int + 1));
        }
        i2 = i2 + 1;
    }
    proof {
        assert(suf@.take(slen as int) =~= suf@);
    }
    Ok(resp)
}

} // verus!
