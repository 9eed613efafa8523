//! Classification of proxy-tunneled reachability probes.
//!
//! A probe opens a TCP connection to the forward proxy, sends an HTTP
//! CONNECT request for the target, reads the proxy's response header,
//! and finally waits for an unsolicited handshake from the target.
//! Every network step happens outside the library; the functions here
//! build the request bytes and classify the observed responses.

use vstd::prelude::*;
use crate::text::{contains_from, find_pos, lemma_find_pos_props, match_at};

verus! {

/// Test whether the byte pattern `pat` stands at position `i` of `s`.
fn bytes_match_at(s: &Vec<u8>, pat: &Vec<u8>, i: usize) -> (r: bool)
    requires
        i <= s@.len(),
    ensures
        r == match_at(s@, pat@, i as int),
{
    if pat.len() > s.len() - i {
        return false;
    }
    let mut k: usize = 0;
    while k < pat.len()
        invariant
            k <= pat@.len(),
            i + pat@.len() <= s@.len(),
            s@.len() <= usize::MAX,
            forall|j: int| 0 <= j < k ==> s@[i + j] == pat@[j],
        decreases pat@.len() - k,
    {
        if s[i + k] != pat[k] {
            proof {
                assert(s@.subrange(i as int, i + pat@.len() as int)[k as int] == s@[i + k]);
            }
            return false;
        }
        k += 1;
    }
    proof {
        assert(s@.subrange(i as int, i + pat@.len() as int) =~= pat@);
    }
    true
}

/// Find the leftmost occurrence of the byte pattern `pat` in `s` at
/// or after `from`.
fn bytes_find_from(s: &Vec<u8>, pat: &Vec<u8>, from: usize) -> (r: Option<usize>)
    ensures
        match r {
            Some(i) => {
                &&& find_pos(s@, pat@, from as int) == i as int
                &&& from <= i
                &&& i + pat@.len() <= s@.len()
            },
            None => find_pos(s@, pat@, from as int) == s@.len() + 1,
        },
{
    let slen = s.len();
    let plen = pat.len();
    let mut i: usize = from;
    loop
        invariant
            from <= i,
            slen == s@.len(),
            plen == pat@.len(),
            find_pos(s@, pat@, from as int) == find_pos(s@, pat@, i as int),
        decreases slen + 1 - i,
    {
        if plen > slen || i > slen - plen {
            proof {
                assert(find_pos(s@, pat@, i as int) == s@.len() + 1);
            }
            return None;
        }
        if bytes_match_at(s, pat, i) {
            proof {
                assert(find_pos(s@, pat@, i as int) == i as int);
            }
            return Some(i);
        }
        proof {
            assert(plen > 0) by {
                if pat@.len() == 0 {
                    assert(s@.subrange(i as int, i as int) =~= pat@);
                }
            }
            assert(find_pos(s@, pat@, i as int) == find_pos(s@, pat@, i + 1));
        }
        i += 1;
    }
}

/// The CONNECT request sent to the forward proxy for a target
/// `host:port`, byte for byte the format standard forward proxies
/// expect.
pub open spec fn connect_request_of(target: Seq<char>) -> Seq<char> {
    "CONNECT "@ + target + " HTTP/1.1\r\nHost: "@ + target
        + "\r\nProxy-Connection: Keep-Alive\r\n\r\n"@
}

/// Build the CONNECT request line, `Host` header and keep-alive header
/// for the target address, terminated by a blank line.
pub fn build_connect_request(target: &str) -> (r: String)
    ensures
        r@ == connect_request_of(target@),
{
    let mut r = String::new();
    r.append("CONNECT ");
    r.append(target);
    r.append(" HTTP/1.1\r\nHost: ");
    r.append(target);
    r.append("\r\nProxy-Connection: Keep-Alive\r\n\r\n");
    proof {
        assert(r@ =~= connect_request_of(target@));
    }
    r
}

/// The CRLF-CRLF sequence that ends an HTTP response header.
pub open spec fn header_end_marker() -> Seq<u8> {
    seq![13u8, 10u8, 13u8, 10u8]
}

/// Whether the accumulated response bytes contain a complete header.
pub open spec fn header_complete(buf: Seq<u8>) -> bool {
    contains_from(buf, header_end_marker(), 0)
}

/// Whether the accumulated proxy response holds the header-terminating
/// blank line; reading stops once this holds.
pub fn header_terminated(buf: &Vec<u8>) -> (r: bool)
    ensures
        r == header_complete(buf@),
{
    let mut pat: Vec<u8> = Vec::new();
    pat.push(13);
    pat.push(10);
    pat.push(13);
    pat.push(10);
    proof {
        assert(pat@ =~= header_end_marker());
        lemma_find_pos_props(buf@, header_end_marker(), 0);
    }
    bytes_find_from(buf, &pat, 0).is_some()
}

/// The first line of the response: the bytes before the first line
/// feed, stripped of one trailing carriage return.
pub open spec fn first_line(buf: Seq<u8>) -> Seq<u8> {
    let e = find_pos(buf, seq![10u8], 0);
    let end = if e > buf.len() {
        buf.len() as int
    } else {
        e
    };
    let line = buf.subrange(0, end);
    if line.len() > 0 && line[line.len() - 1] == 13 {
        line.drop_last()
    } else {
        line
    }
}

/// The status token whose presence in the first line signals an
/// established tunnel.
pub open spec fn status_200() -> Seq<u8> {
    seq![0x32u8, 0x30u8, 0x30u8]
}

/// Whether the proxy accepted the CONNECT: the response's first line
/// contains the token `200`.
pub open spec fn first_line_accepts(buf: Seq<u8>) -> bool {
    contains_from(first_line(buf), status_200(), 0)
}

/// Decide from the first line of the proxy response whether the tunnel
/// was established: the line must contain the token `200`.
pub fn first_line_contains_200(buf: &Vec<u8>) -> (r: bool)
    ensures
        r == first_line_accepts(buf@),
{
    let mut nl: Vec<u8> = Vec::new();
    nl.push(10);
    proof {
        assert(nl@ =~= seq![10u8]);
    }
    let end = match bytes_find_from(buf, &nl, 0) {
        Some(i) => i,
        None => buf.len(),
    };
    proof {
        assert(end <= buf@.len());
    }
    let mut line: Vec<u8> = Vec::new();
    let mut i: usize = 0;
    while i < end
        invariant
            i <= end,
            end <= buf@.len(),
            line@ =~= buf@.subrange(0, i as int),
        decreases end - i,
    {
        line.push(buf[i]);
        i += 1;
    }
    proof {
        assert(line@ =~= buf@.subrange(0, end as int));
    }
    if line.len() > 0 && line[line.len() - 1] == 13 {
        line.pop();
    }
    proof {
        assert(line@ =~= first_line(buf@));
    }
    let mut pat: Vec<u8> = Vec::new();
    pat.push(0x32);
    pat.push(0x30);
    pat.push(0x30);
    proof {
        assert(pat@ =~= status_200());
        lemma_find_pos_props(line@, status_200(), 0);
    }
    bytes_find_from(&line, &pat, 0).is_some()
}

/// Whether the tunnel counts as established: the header arrived in
/// time and in full, and its first line contains the token `200`.
pub open spec fn tunnel_ok(timed_out: bool, buf: Seq<u8>) -> bool {
    !timed_out && header_complete(buf) && first_line_accepts(buf)
}

/// Classify the proxy's response to the CONNECT request. `timed_out`
/// reports that the bounded read ended without the header marker; the
/// connection closing before the marker arrived fails the probe too.
pub fn evaluate_tunnel(timed_out: bool, buf: &Vec<u8>) -> (r: bool)
    ensures
        r == tunnel_ok(timed_out, buf@),
{
    if timed_out {
        return false;
    }
    if !header_terminated(buf) {
        return false;
    }
    first_line_contains_200(buf)
}

/// Whether the post-tunnel handshake read proves a live target: any
/// non-empty read counts; a zero-length read, timeout or error does
/// not. `None` stands for a timeout or read error.
pub open spec fn handshake_ok(read_len: Option<usize>) -> bool {
    match read_len {
        Some(n) => n > 0,
        None => false,
    }
}

/// Classify the unsolicited handshake read from the tunneled target.
pub fn classify_handshake(read_len: Option<usize>) -> (r: bool)
    ensures
        r == handshake_ok(read_len),
{
    match read_len {
        Some(n) => n > 0,
        None => false,
    }
}

/// The verdict of one whole probe: the connection to the proxy opened,
/// the tunnel was established, and the target sent a non-empty
/// handshake within its own bounded read.
pub open spec fn probe_reachable(
    connected: bool,
    timed_out: bool,
    buf: Seq<u8>,
    read_len: Option<usize>,
) -> bool {
    connected && tunnel_ok(timed_out, buf) && handshake_ok(read_len)
}

/// Combine the observations of one probe into its verdict.
pub fn evaluate_probe(
    connected: bool,
    timed_out: bool,
    buf: &Vec<u8>,
    read_len: Option<usize>,
) -> (r: bool)
    ensures
        r == probe_reachable(connected, timed_out, buf@, read_len),
{
    if !connected {
        return false;
    }
    if !evaluate_tunnel(timed_out, buf) {
        return false;
    }
    classify_handshake(read_len)
}

/// The hexadecimal digits, upper case.
pub open spec fn hex_digits() -> Seq<char> {
    "0123456789ABCDEF"@
}

/// The display form of one byte: `0x` followed by two upper-case hex
/// digits.
pub open spec fn hex_byte(b: u8) -> Seq<char> {
    seq!['0', 'x', hex_digits()[b as int / 16], hex_digits()[b as int % 16]]
}

/// The display form of a byte buffer: each byte in hex, joined by
/// single spaces.
pub open spec fn hex_string_of(bs: Seq<u8>) -> Seq<char>
    decreases bs.len(),
{
    if bs.len() == 0 {
        Seq::<char>::empty()
    } else if bs.len() == 1 {
        hex_byte(bs[0])
    } else {
        hex_string_of(bs.drop_last()) + seq![' '] + hex_byte(bs.last())
    }
}

/// Render a byte buffer for logging: `0x`-prefixed upper-case hex
/// bytes joined by spaces.
pub fn to_hex_string(bytes: &[u8]) -> (r: String)
    ensures
        r@ == hex_string_of(bytes@),
{
    let digits = "0123456789ABCDEF";
    proof {
        reveal_strlit("0123456789ABCDEF");
    }
    let n = bytes.len();
    let mut r = String::new();
    let mut i: usize = 0;
    while i < n
        invariant
            i <= n,
            n == bytes@.len(),
            digits@ == hex_digits(),
            digits@.len() == 16,
            r@ == hex_string_of(bytes@.subrange(0, i as int)),
        decreases n - i,
    {
        if i > 0 {
            r.append(" ");
        }
        r.append("0x");
        let b = bytes[i];
        let hi = (b / 16) as usize;
        let lo = (b % 16) as usize;
        let hs = digits.substring_char(hi, hi + 1);
        r.append(hs);
        let ls = digits.substring_char(lo, lo + 1);
        r.append(ls);
        proof {
            reveal_strlit(" ");
            reveal_strlit("0x");
            let pre = bytes@.subrange(0, i as int);
            let cur = bytes@.subrange(0, i + 1);
            assert(cur.drop_last() =~= pre);
            assert(cur.last() == bytes@[i as int]);
            assert(hs@ =~= seq![hex_digits()[b as int / 16]]);
            assert(ls@ =~= seq![hex_digits()[b as int % 16]]);
            assert(r@ =~= hex_string_of(cur));
        }
        i += 1;
    }
    proof {
        assert(bytes@.subrange(0, n as int) =~= bytes@);
    }
    r
}

} // verus!

verus! {

/// The separator of an address string.
pub open spec fn colon() -> Seq<char> {
    seq![':']
}

/// The host and port parts of an address: the text before the first
/// colon, and the text between the first colon and the second one or
/// the end. An address without a colon has no port and cannot be
/// probed.
pub open spec fn split_host_port_spec(s: Seq<char>) -> Option<(Seq<char>, Seq<char>)> {
    let c1 = crate::text::find_pos(s, colon(), 0);
    if c1 > s.len() {
        None
    } else {
        let c2 = crate::text::find_pos(s, colon(), c1 + 1);
        let e = if c2 > s.len() {
            s.len() as int
        } else {
            c2
        };
        Some((s.subrange(0, c1), s.subrange(c1 + 1, e)))
    }
}

/// Split a configured `host:port` address into the host and port
/// handed to the probe.
pub fn split_host_port(addr: &str) -> (r: Option<(String, String)>)
    ensures
        match r {
            Some(hp) => split_host_port_spec(addr@) == Some((hp.0@, hp.1@)),
            None => split_host_port_spec(addr@) is None,
        },
{
    let s = crate::text::chars_of(addr);
    let mut pat: Vec<char> = Vec::new();
    pat.push(':');
    proof {
        assert(pat@ =~= colon());
    }
    let c1 = match crate::text::find_in(&s, &pat, 0) {
        Some(i) => i,
        None => {
            return None;
        },
    };
    let n = s.len();
    let e = match crate::text::find_in(&s, &pat, c1 + 1) {
        Some(i) => i,
        None => n,
    };
    let host = addr.substring_char(0, c1).to_owned();
    let port = addr.substring_char(c1 + 1, e).to_owned();
    Some((host, port))
}

} // verus!
