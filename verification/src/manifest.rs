//! Patch-manifest handling.
//!
//! The vendor manifest is a semi-structured channel/locale tree. The
//! extraction rule takes the first locale entry in document order:
//! the region between the first `<Local` tag and the following
//! `</Local` tag. Within it, the `addr` attribute of the first
//! `<Version` tag names the version-information source, and every
//! `<Login` tag contributes one `addr:port` login endpoint; the
//! endpoint list is de-duplicated, keeping first occurrences.
//! An attribute value is read between the attribute's opening quote
//! and the next quote, and the attribute must stand before the next
//! tag-closing `>`.
//!
//! The module also strips a leading byte-order mark from a fetched
//! document, and builds the version-file URL from the version source
//! by forcing the secure scheme and appending the fixed resource name.

use vstd::prelude::*;
use crate::text::{chars_of, find_in, find_pos, match_at, match_at_exec, str_eq};

verus! {

/// The parsed manifest: the login endpoints of the first locale, in
/// document order and without duplicates, and the version-information
/// source address of that locale.
pub struct PatchManifest {
    /// Login endpoints as `host:port` strings.
    pub addresses: Vec<String>,
    /// The address the version file is fetched from, as written in the
    /// manifest.
    pub version_source: String,
}

/// The tag opening the first locale region.
pub open spec fn local_open() -> Seq<char> {
    "<Local"@
}

/// The tag closing the locale region.
pub open spec fn local_close() -> Seq<char> {
    "</Local"@
}

/// The tag holding the version-information source.
pub open spec fn version_open() -> Seq<char> {
    "<Version"@
}

/// The tag holding one login endpoint.
pub open spec fn login_open() -> Seq<char> {
    "<Login"@
}

/// The attribute naming an address.
pub open spec fn addr_attr() -> Seq<char> {
    "addr=\""@
}

/// The attribute naming a port.
pub open spec fn port_attr() -> Seq<char> {
    "port=\""@
}

/// A double quote, the attribute-value delimiter.
pub open spec fn quote() -> Seq<char> {
    "\""@
}

/// The end of a tag.
pub open spec fn tag_close() -> Seq<char> {
    ">"@
}

/// The character range of the value of attribute `attr` in the tag
/// starting at `p`: the attribute must stand before the next `>`, and
/// its value runs to the next quote.
pub open spec fn tag_attr(s: Seq<char>, p: int, attr: Seq<char>) -> Option<(int, int)> {
    let a = find_pos(s, attr, p);
    let e = find_pos(s, tag_close(), p);
    if a > s.len() || a >= e {
        None
    } else {
        let vs = a + attr.len();
        let q = find_pos(s, quote(), vs);
        if q > s.len() {
            None
        } else {
            Some((vs, q))
        }
    }
}

/// The `addr:port` endpoint of the `<Login` tag at `p`, where both
/// attributes are present and well delimited.
pub open spec fn login_at(s: Seq<char>, p: int) -> Option<Seq<char>> {
    match (tag_attr(s, p, addr_attr()), tag_attr(s, p, port_attr())) {
        (Some((a1, a2)), Some((p1, p2))) => Some(
            s.subrange(a1, a2) + seq![':'] + s.subrange(p1, p2),
        ),
        _ => None,
    }
}

/// The endpoints of every `<Login` tag between `from` and `lend`, in
/// document order; `None` as soon as one tag is malformed.
pub open spec fn logins_between(s: Seq<char>, from: int, lend: int) -> Option<Seq<Seq<char>>>
    decreases lend - from,
{
    if from >= lend {
        Some(Seq::<Seq<char>>::empty())
    } else if match_at(s, login_open(), from) {
        match login_at(s, from) {
            None => None,
            Some(a) => match logins_between(s, from + 1, lend) {
                None => None,
                Some(rest) => Some(seq![a] + rest),
            },
        }
    } else {
        logins_between(s, from + 1, lend)
    }
}

/// The sequence with later duplicates dropped: each value keeps its
/// first occurrence only.
pub open spec fn dedup_first(xs: Seq<Seq<char>>) -> Seq<Seq<char>>
    decreases xs.len(),
{
    if xs.len() == 0 {
        Seq::<Seq<char>>::empty()
    } else {
        let pre = dedup_first(xs.drop_last());
        if pre.contains(xs.last()) {
            pre
        } else {
            pre.push(xs.last())
        }
    }
}

/// What the manifest yields: the de-duplicated login endpoints of the
/// first locale region and its version source, or nothing where the
/// region, the version tag or a login tag is missing or malformed.
pub open spec fn manifest_spec(s: Seq<char>) -> Option<(Seq<Seq<char>>, Seq<char>)> {
    let l0 = find_pos(s, local_open(), 0);
    if l0 > s.len() {
        None
    } else {
        let lend = find_pos(s, local_close(), l0);
        if lend > s.len() {
            None
        } else {
            let v = find_pos(s, version_open(), l0);
            if v > s.len() || v >= lend {
                None
            } else {
                match tag_attr(s, v, addr_attr()) {
                    None => None,
                    Some((a1, a2)) => match logins_between(s, l0, lend) {
                        None => None,
                        Some(addrs) => Some((dedup_first(addrs), s.subrange(a1, a2))),
                    },
                }
            }
        }
    }
}

/// Locate the value of attribute `attr` in the tag starting at `p`.
fn tag_attr_exec(s: &Vec<char>, attr: &Vec<char>, p: usize) -> (r: Option<(usize, usize)>)
    ensures
        match r {
            Some((vs, q)) => tag_attr(s@, p as int, attr@) == Some((vs as int, q as int)),
            None => tag_attr(s@, p as int, attr@) is None,
        },
{
    let mut gt: Vec<char> = Vec::new();
    gt.push('>');
    proof {
        reveal_strlit(">");
        assert(gt@ =~= tag_close());
    }
    let mut qv: Vec<char> = Vec::new();
    qv.push('"');
    proof {
        reveal_strlit("\"");
        assert(qv@ =~= quote());
    }
    let a = match find_in(s, attr, p) {
        Some(a) => a,
        None => {
            return None;
        },
    };
    let e_opt = find_in(s, &gt, p);
    match e_opt {
        Some(e) => {
            if a >= e {
                return None;
            }
        },
        None => {},
    }
    let slen = s.len();
    proof {
        crate::text::lemma_find_pos_props(s@, attr@, p as int);
        assert(a + attr@.len() <= slen);
    }
    let vs = a + attr.len();
    match find_in(s, &qv, vs) {
        Some(q) => Some((vs, q)),
        None => None,
    }
}


/// Parse a manifest document: find the first locale region, read its
/// version source, and collect its de-duplicated login endpoints in
/// document order. Returns `None` where the document does not hold a
/// complete locale region: the reconcile cycle is then abandoned with
/// no partial result.
pub fn parse_manifest(text: &str) -> (r: Option<PatchManifest>)
    ensures
        match r {
            Some(m) => {
                &&& manifest_spec(text@) is Some
                &&& m.version_source@ == manifest_spec(text@)->Some_0.1
                &&& m.addresses@.len() == manifest_spec(text@)->Some_0.0.len()
                &&& forall|i: int|
                    0 <= i < m.addresses@.len() ==> m.addresses@[i]@ == manifest_spec(
                        text@,
                    )->Some_0.0[i]
            },
            None => manifest_spec(text@) is None,
        },
{
    let s = chars_of(text);
    let pat_local = chars_of("<Local");
    let pat_local_close = chars_of("</Local");
    let pat_version = chars_of("<Version");
    let pat_login = chars_of("<Login");
    let pat_addr = chars_of("addr=\"");
    let pat_port = chars_of("port=\"");
    let l0 = match find_in(&s, &pat_local, 0) {
        Some(i) => i,
        None => {
            return None;
        },
    };
    let lend = match find_in(&s, &pat_local_close, l0) {
        Some(i) => i,
        None => {
            return None;
        },
    };
    let v = match find_in(&s, &pat_version, l0) {
        Some(i) => i,
        None => {
            return None;
        },
    };
    if v >= lend {
        return None;
    }
    let (va, vb) = match tag_attr_exec(&s, &pat_addr, v) {
        Some(r) => r,
        None => {
            return None;
        },
    };
    proof {
        crate::text::lemma_find_pos_props(s@, local_close(), l0 as int);
        crate::text::lemma_find_pos_props(s@, addr_attr(), v as int);
        crate::text::lemma_find_pos_props(s@, quote(), va as int);
        assert(va <= vb <= s@.len());
        assert(l0 <= lend <= s@.len());
    }
    let version_source = text.substring_char(va, vb).to_owned();
    let mut addrs: Vec<String> = Vec::new();
    let ghost mut seen: Seq<Seq<char>> = Seq::<Seq<char>>::empty();
    let mut pos: usize = l0;
    proof {
        assert(seen + logins_between(s@, pos as int, lend as int)->Some_0 =~= logins_between(
            s@,
            pos as int,
            lend as int,
        )->Some_0);
    }
    while pos < lend
        invariant
            l0 <= pos <= lend,
            lend <= s@.len(),
            s@ == text@,
            pat_login@ == login_open(),
            pat_addr@ == addr_attr(),
            pat_port@ == port_attr(),
            logins_between(s@, l0 as int, lend as int) is None ==> manifest_spec(text@) is None,
            forall|all: Seq<Seq<char>>|
                logins_between(s@, l0 as int, lend as int) == Some(all) ==> manifest_spec(text@)
                    == Some((dedup_first(all), version_source@)),
            match logins_between(s@, l0 as int, lend as int) {
                Some(all) => {
                    &&& logins_between(s@, pos as int, lend as int) is Some
                    &&& all =~= seen + logins_between(s@, pos as int, lend as int)->Some_0
                },
                None => logins_between(s@, pos as int, lend as int) is None,
            },
            addrs@.len() == dedup_first(seen).len(),
            forall|i: int| 0 <= i < addrs@.len() ==> addrs@[i]@ == dedup_first(seen)[i],
        decreases lend - pos,
    {
        if match_at_exec(&s, &pat_login, pos) {
            let a_rng = tag_attr_exec(&s, &pat_addr, pos);
            let p_rng = tag_attr_exec(&s, &pat_port, pos);
            match (a_rng, p_rng) {
                (Some((a1, a2)), Some((p1, p2))) => {
                    proof {
                        crate::text::lemma_find_pos_props(s@, pat_addr@, pos as int);
                        crate::text::lemma_find_pos_props(s@, quote(), a1 as int);
                        crate::text::lemma_find_pos_props(s@, pat_port@, pos as int);
                        crate::text::lemma_find_pos_props(s@, quote(), p1 as int);
                        assert(a1 <= a2 <= s@.len());
                        assert(p1 <= p2 <= s@.len());
                    }
                    let mut one = String::new();
                    one.append(text.substring_char(a1, a2));
                    one.append(":");
                    one.append(text.substring_char(p1, p2));
                    proof {
                        reveal_strlit(":");
                        assert(":"@ =~= seq![':']);
                        assert(one@ =~= login_at(s@, pos as int)->Some_0);
                    }
                    let mut dup = false;
                    let mut k: usize = 0;
                    while k < addrs.len()
                        invariant
                            k <= addrs@.len(),
                            dup == (exists|i: int| 0 <= i < k && addrs@[i]@ == one@),
                        decreases addrs@.len() - k,
                    {
                        if str_eq(addrs[k].as_str(), one.as_str()) {
                            dup = true;
                            proof {
                                assert(addrs@[k as int]@ == one@);
                            }
                        }
                        k += 1;
                    }
                    proof {
                        let next_seen = seen.push(one@);
                        assert(next_seen.drop_last() =~= seen);
                        assert(next_seen.last() == one@);
                        if dup {
                            let i = choose|i: int| 0 <= i < addrs@.len() && addrs@[i]@ == one@;
                            assert(dedup_first(seen)[i] == one@);
                            assert(dedup_first(seen).contains(one@));
                            assert(dedup_first(next_seen) =~= dedup_first(seen));
                        } else {
                            assert(!dedup_first(seen).contains(one@)) by {
                                if dedup_first(seen).contains(one@) {
                                    let i = choose|i: int|
                                        0 <= i < dedup_first(seen).len() && dedup_first(
                                            seen,
                                        )[i] == one@;
                                    assert(addrs@[i]@ == one@);
                                }
                            }
                            assert(dedup_first(next_seen) =~= dedup_first(seen).push(one@));
                        }
                        if logins_between(s@, l0 as int, lend as int) is Some {
                            assert(logins_between(s@, pos as int, lend as int)->Some_0 == seq![
                                login_at(s@, pos as int)->Some_0,
                            ] + logins_between(s@, pos + 1, lend as int)->Some_0);
                            assert((next_seen + logins_between(s@, pos + 1, lend as int)->Some_0)
                                =~= (seen + logins_between(s@, pos as int, lend as int)->Some_0));
                        }
                        seen = next_seen;
                    }
                    if !dup {
                        addrs.push(one);
                    }
                },
                _ => {
                    proof {
                        assert(login_at(s@, pos as int) is None);
                        assert(logins_between(s@, pos as int, lend as int) is None);
                    }
                    return None;
                },
            }
        } else {
            proof {
                assert(logins_between(s@, pos as int, lend as int) == logins_between(
                    s@,
                    pos + 1,
                    lend as int,
                ));
            }
        }
        pos += 1;
    }
    proof {
        assert(logins_between(s@, pos as int, lend as int) == Some(Seq::<Seq<char>>::empty()));
        assert(logins_between(s@, l0 as int, lend as int) is Some);
        let all = logins_between(s@, l0 as int, lend as int)->Some_0;
        assert(all =~= seen + Seq::<Seq<char>>::empty());
        assert(seen =~= all);
    }
    Some(PatchManifest { addresses: addrs, version_source })
}

} // verus!

verus! {

/// The number of leading byte-order marks at position `j`.
pub open spec fn bom_end(s: Seq<char>, j: int) -> int
    decreases s.len() - j,
{
    if j < 0 || j >= s.len() || s[j] != '\u{feff}' {
        j
    } else {
        bom_end(s, j + 1)
    }
}

/// Strip every leading byte-order mark from a fetched document; the
/// rest of the text is kept as it is.
pub fn strip_bom(s: &str) -> (r: String)
    ensures
        r@ == s@.subrange(bom_end(s@, 0), s@.len() as int),
{
    let n = s.unicode_len();
    let mut k: usize = 0;
    while k < n && s.get_char(k) == '\u{feff}'
        invariant
            k <= n,
            n == s@.len(),
            bom_end(s@, 0) == bom_end(s@, k as int),
        decreases n - k,
    {
        proof {
            assert(bom_end(s@, k as int) == bom_end(s@, k + 1));
        }
        k += 1;
    }
    proof {
        assert(bom_end(s@, k as int) == k as int);
    }
    s.substring_char(k, n).to_owned()
}

/// The insecure scheme prefix that is rewritten.
pub open spec fn http_prefix() -> Seq<char> {
    seq!['h', 't', 't', 'p', ':']
}

/// The secure scheme prefix that replaces it.
pub open spec fn https_prefix() -> Seq<char> {
    seq!['h', 't', 't', 'p', 's', ':']
}

/// The address with every occurrence of the insecure scheme prefix
/// replaced by the secure one, scanned left to right.
pub open spec fn https_rewrite(s: Seq<char>) -> Seq<char>
    decreases s.len(),
{
    if match_at(s, http_prefix(), 0) {
        https_prefix() + https_rewrite(s.skip(5))
    } else if s.len() == 0 {
        s
    } else {
        seq![s[0]] + https_rewrite(s.drop_first())
    }
}

/// The fixed resource name appended to the version source.
pub open spec fn version_file_name() -> Seq<char> {
    "PatchInfoServer.cfg"@
}

/// Build the URL the version file is fetched from: the manifest's
/// version source with its scheme forced to secure and the fixed
/// resource name appended.
pub fn version_file_url(addr: &str) -> (r: String)
    ensures
        r@ == https_rewrite(addr@) + version_file_name(),
{
    let s = chars_of(addr);
    let pat_http = chars_of("http:");
    let n = s.len();
    let mut out = String::new();
    let mut i: usize = 0;
    proof {
        reveal_strlit("http:");
        assert(pat_http@ =~= http_prefix());
        assert(addr@.skip(0) =~= addr@);
    }
    while i < n
        invariant
            i <= n,
            n == addr@.len(),
            s@ == addr@,
            pat_http@ == http_prefix(),
            https_rewrite(addr@) == out@ + https_rewrite(addr@.skip(i as int)),
        decreases n - i,
    {
        let ghost rest = addr@.skip(i as int);
        if match_at_exec(&s, &pat_http, i) {
            out.append("https:");
            proof {
                reveal_strlit("https:");
                assert("https:"@ =~= https_prefix());
                assert(rest.subrange(0, 5) =~= addr@.subrange(i as int, i + 5));
                assert(match_at(rest, http_prefix(), 0));
                assert(rest.skip(5) =~= addr@.skip(i + 5));
            }
            i += 5;
        } else {
            proof {
                if match_at(rest, http_prefix(), 0) {
                    assert(rest.subrange(0, 5) =~= addr@.subrange(i as int, i + 5));
                    assert(match_at(addr@, pat_http@, i as int));
                }
                assert(rest[0] == addr@[i as int]);
                assert(rest.drop_first() =~= addr@.skip(i + 1));
            }
            let piece = addr.substring_char(i, i + 1);
            out.append(piece);
            proof {
                assert(piece@ =~= seq![addr@[i as int]]);
            }
            i += 1;
        }
    }
    proof {
        assert(addr@.skip(n as int) =~= Seq::<char>::empty());
        assert(https_rewrite(addr@) =~= out@);
        reveal_strlit("https:");
    }
    out.append("PatchInfoServer.cfg");
    proof {
        assert(out@ =~= https_rewrite(addr@) + version_file_name());
    }
    out
}

} // verus!
