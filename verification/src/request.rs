//! Request-line and header-block parsing, plus the request value itself with
//! its Content-Length-bounded body reader.

use vstd::prelude::*;
use crate::bstr::{
    is_ws, is_digit, find_first, split_on, trim_spec, chomp_cr, find_byte, subrange_to_vec, trim,
    lemma_find_first_is, lemma_find_first_none, lemma_split_on_step,
};
use crate::lit::{
    lit_get, lit_post, lit_put, lit_delete, lit_options, lit_head, lit_trace, lit_connect,
    lit_http10, lit_http11, lit_http2, lit_get_bytes, lit_post_bytes, lit_put_bytes,
    lit_delete_bytes, lit_options_bytes, lit_head_bytes, lit_trace_bytes, lit_connect_bytes,
    lit_http10_bytes, lit_http11_bytes, lit_http2_bytes,
};
use crate::multimap::{
    MultiMap, mm_wf, mm_get, mm_fold, mm_append, lemma_mm_append,
};
use crate::content_type::{ContentType, ct_ok};
use crate::multipart::MultiPart;
use crate::ProtocolError;

verus! {

/// The whitespace-separated tokens of `s`, in order.
pub open spec fn spec_tokens(s: Seq<u8>) -> Seq<Seq<u8>>
    decreases s.len(),
{
    if s.len() == 0 {
        Seq::empty()
    } else if is_ws(s[0]) {
        spec_tokens(s.drop_first())
    } else {
        let rest = spec_tokens(s.drop_first());
        if s.len() > 1 && !is_ws(s[1]) {
            seq![seq![s[0]] + rest[0]] + rest.drop_first()
        } else {
            seq![seq![s[0]]] + rest
        }
    }
}

/// Tokenizing from the first whitespace position: with the current token
/// ending at `k` (or the input ending there), the token list is that token
/// followed by the tokens of the rest.
pub proof fn lemma_tokens_step(s: Seq<u8>, k: int)
    requires
        0 < k <= s.len(),
        s.len() > 0,
        !is_ws(s[0]),
        forall|j: int| 0 <= j < k ==> !is_ws(s[j]),
        k == s.len() || is_ws(s[k]),
    ensures
        spec_tokens(s) == seq![s.take(k)] + spec_tokens(s.skip(k)),
    decreases k,
{
    let t = s.drop_first();
    if k == 1 {
        if s.len() == 1 {
            assert(spec_tokens(s) =~~= seq![seq![s[0]]] + spec_tokens(t));
            assert(s.take(1) =~= seq![s[0]]);
            assert(s.skip(1) =~= t);
        } else {
            assert(is_ws(s[1]));
            assert(spec_tokens(s) == seq![seq![s[0]]] + spec_tokens(t));
            assert(s.take(1) =~= seq![s[0]]);
            assert(s.skip(1) =~= t);
        }
        assert(spec_tokens(s) =~~= seq![s.take(k)] + spec_tokens(s.skip(k)));
    } else {
        assert(s.len() > 1 && !is_ws(s[1]));
        assert forall|j: int| 0 <= j < k - 1 implies !is_ws(t[j]) by {
            assert(t[j] == s[j + 1]);
        }
        lemma_tokens_step(t, k - 1);
        let rest = spec_tokens(t);
        assert(rest == seq![t.take(k - 1)] + spec_tokens(t.skip(k - 1)));
        assert(rest[0] == t.take(k - 1));
        assert(seq![s[0]] + t.take(k - 1) =~= s.take(k));
        assert(rest.drop_first() =~= spec_tokens(t.skip(k - 1)));
        assert(t.skip(k - 1) =~= s.skip(k));
        assert(spec_tokens(s) =~~= seq![s.take(k)] + spec_tokens(s.skip(k)));
    }
}

/// Splits `data` into its whitespace-separated tokens.
pub fn split_ws(data: &[u8]) -> (tokens: Vec<Vec<u8>>)
    ensures
        tokens@.map_values(|t: Vec<u8>| t@) == spec_tokens(data@),
{
    let n = data.len();
    let mut tokens: Vec<Vec<u8>> = Vec::new();
    let mut i: usize = 0;
    proof {
        assert(tokens@.map_values(|t: Vec<u8>| t@) =~= Seq::<Seq<u8>>::empty());
        assert(data@.skip(0) =~= data@);
    }
    while i < n
        invariant
            n == data@.len(),
            i <= n,
            spec_tokens(data@) == tokens@.map_values(|t: Vec<u8>| t@) + spec_tokens(
                data@.skip(i as int),
            ),
        decreases n - i,
    {
        if crate::bstr::is_ws_byte(data[i]) {
            proof {
                assert(data@.skip(i as int).drop_first() =~= data@.skip(i + 1));
            }
            i = i + 1;
        } else {
            let start = i;
            let mut j = i + 1;
            while j < n && !crate::bstr::is_ws_byte(data[j])
                invariant
                    n == data@.len(),
                    start < j <= n,
                    forall|x: int| start <= x < j ==> !is_ws(data@[x]),
                decreases n - j,
            {
                j = j + 1;
            }
            let tok = subrange_to_vec(data, start, j);
            let ghost before = tokens@.map_values(|t: Vec<u8>| t@);
            tokens.push(tok);
            proof {
                let rem = data@.skip(start as int);
                assert forall|x: int| 0 <= x < j - start implies !is_ws(rem[x]) by {
                    assert(rem[x] == data@[start + x]);
                }
                if j < n {
                    assert(is_ws(rem[(j - start) as int]));
                }
                lemma_tokens_step(rem, j - start);
                assert(rem.take(j - start) =~= data@.subrange(start as int, j as int));
                assert(rem.skip(j - start) =~= data@.skip(j as int));
                assert(tokens@.map_values(|t: Vec<u8>| t@) =~= before.push(tok@));
                assert(before.push(tok@) + spec_tokens(data@.skip(j as int)) =~= before + (seq![
                    tok@,
                ] + spec_tokens(data@.skip(j as int))));
            }
            i = j;
        }
    }
    proof {
        assert(data@.skip(n as int) =~= Seq::<u8>::empty());
        assert(tokens@.map_values(|t: Vec<u8>| t@) + spec_tokens(Seq::<u8>::empty())
            =~= tokens@.map_values(|t: Vec<u8>| t@));
    }
    tokens
}

/// Law: a request line assembled as `METHOD SP URI SP VERSION` from
/// non-empty, whitespace-free tokens tokenizes to exactly those three
/// tokens; with the parser's contract this recovers exactly the method, the
/// URI (hence its path and query map) and the version that built the line.
pub proof fn lemma_request_line_round_trip(m: Seq<u8>, u: Seq<u8>, v: Seq<u8>)
    requires
        m.len() > 0,
        u.len() > 0,
        v.len() > 0,
        forall|j: int| 0 <= j < m.len() ==> !is_ws(m[j]),
        forall|j: int| 0 <= j < u.len() ==> !is_ws(u[j]),
        forall|j: int| 0 <= j < v.len() ==> !is_ws(v[j]),
    ensures
        spec_tokens(m + seq![32u8] + u + seq![32u8] + v) == seq![m, u, v],
{
    let line = m + seq![32u8] + u + seq![32u8] + v;
    let after_m = seq![32u8] + u + seq![32u8] + v;
    assert forall|j: int| 0 <= j < m.len() implies !is_ws(line[j]) by {
        assert(line[j] == m[j]);
    }
    assert(is_ws(line[m.len() as int]));
    lemma_tokens_step(line, m.len() as int);
    assert(line.take(m.len() as int) =~= m);
    assert(line.skip(m.len() as int) =~= after_m);
    // one whitespace byte, then the URI token
    let rest1 = u + seq![32u8] + v;
    assert(after_m.drop_first() =~= rest1);
    assert(spec_tokens(after_m) == spec_tokens(rest1));
    assert forall|j: int| 0 <= j < u.len() implies !is_ws(rest1[j]) by {
        assert(rest1[j] == u[j]);
    }
    assert(is_ws(rest1[u.len() as int]));
    lemma_tokens_step(rest1, u.len() as int);
    assert(rest1.take(u.len() as int) =~= u);
    let after_u = seq![32u8] + v;
    assert(rest1.skip(u.len() as int) =~= after_u);
    assert(after_u.drop_first() =~= v);
    assert(spec_tokens(after_u) == spec_tokens(v));
    lemma_tokens_step(v, v.len() as int);
    assert(v.take(v.len() as int) =~= v);
    assert(v.skip(v.len() as int) =~= Seq::<u8>::empty());
    assert(spec_tokens(v) =~~= seq![v]);
    assert(spec_tokens(line) =~~= seq![m, u, v]);
}

/// The key/value pair carried by one form segment: split at the first `=`,
/// value trimmed; a segment without `=` carries none.
pub open spec fn pair_of(seg: Seq<u8>) -> Option<(Seq<u8>, Seq<u8>)> {
    match find_first(seg, 61u8) {
        Some(i) => Some((seg.take(i), trim_spec(seg.skip(i + 1)))),
        None => None,
    }
}

/// The pairs carried by a list of form segments, in order.
pub open spec fn form_pairs(segs: Seq<Seq<u8>>) -> Seq<(Seq<u8>, Seq<u8>)>
    decreases segs.len(),
{
    if segs.len() == 0 {
        Seq::empty()
    } else {
        (match pair_of(segs[0]) {
            Some(p) => seq![p],
            None => Seq::empty(),
        }) + form_pairs(segs.drop_first())
    }
}

/// The multi-value map parsed from a `&`-separated form string.
pub open spec fn spec_form(s: Seq<u8>) -> Seq<(Seq<u8>, Seq<Seq<u8>>)> {
    mm_fold(Seq::empty(), form_pairs(split_on(s, 38u8)))
}

/// Parses a `&`-separated `key=value` form string into `map`, appending to
/// lists already present; segments without `=` are dropped.
pub fn parse_form(forms: &[u8], map: &mut MultiMap)
    requires
        mm_wf(old(map)@),
    ensures
        final(map)@ == mm_fold(old(map)@, form_pairs(split_on(forms@, 38u8))),
        mm_wf(final(map)@),
{
    let n = forms.len();
    let ghost target = mm_fold(old(map)@, form_pairs(split_on(forms@, 38u8)));
    let mut pos: usize = 0;
    let mut done = false;
    proof {
        assert(forms@.skip(0) =~= forms@);
    }
    while !done
        invariant
            n == forms@.len(),
            pos <= n,
            mm_wf(map@),
            !done ==> target == mm_fold(map@, form_pairs(split_on(forms@.skip(pos as int), 38u8))),
            done ==> map@ == target,
        decreases n - pos + (if done {
            0int
        } else {
            1int
        }),
    {
        let ghost rem = forms@.skip(pos as int);
        let ghost m0 = map@;
        let sep = find_byte(forms, 38u8, pos);
        let seg_end = match sep {
            Some(a) => a,
            None => n,
        };
        proof {
            assert forall|j: int| 0 <= j < seg_end - pos implies rem[j] != 38u8 by {
                assert(rem[j] == forms@[pos + j]);
            }
            if seg_end < n {
                assert(rem[(seg_end - pos) as int] == forms@[seg_end as int]);
            }
            lemma_split_on_step(rem, 38u8, seg_end - pos);
        }
        let ghost seg = forms@.subrange(pos as int, seg_end as int);
        proof {
            assert(rem.take(seg_end - pos) =~= seg);
            if seg_end == n {
                assert(rem =~= seg);
            }
        }
        // the segment's pair, if it has one
        let epos = find_byte(forms, 61u8, pos);
        let has_pair = match epos {
            Some(e) => e < seg_end,
            None => false,
        };
        if has_pair {
            let e = match epos {
                Some(e) => e,
                None => 0,
            };
            proof {
                assert forall|j: int| 0 <= j < e - pos implies seg[j] != 61u8 by {
                    assert(seg[j] == forms@[pos + j]);
                }
                assert(seg[(e - pos) as int] == 61u8);
                lemma_find_first_is(seg, 61u8, e - pos);
            }
            let key = subrange_to_vec(forms, pos, e);
            let piece = vstd::slice::slice_subrange(forms, e + 1, seg_end);
            proof {
                assert(piece@ =~= seg.skip(e - pos + 1));
                assert(key@ =~= seg.take(e - pos));
            }
            let value = trim(piece);
            proof {
                lemma_mm_append(map@, key@, value@);
            }
            map.append_value(key, value);
            proof {
                let p = pair_of(seg).unwrap();
                assert(map@ == mm_append(m0, p.0, p.1));
            }
        } else {
            proof {
                match epos {
                    Some(e) => {
                        assert forall|j: int| 0 <= j < seg.len() implies seg[j] != 61u8 by {
                            assert(seg[j] == forms@[pos + j]);
                        }
                    }
                    None => {
                        assert forall|j: int| 0 <= j < seg.len() implies seg[j] != 61u8 by {
                            assert(seg[j] == forms@[pos + j]);
                        }
                    }
                }
                lemma_find_first_none(seg, 61u8);
                assert(pair_of(seg) is None);
            }
        }
        proof {
            // telescope one segment
            let ghost segs = split_on(rem, 38u8);
            if seg_end < n {
                assert(rem.skip(seg_end - pos + 1) =~= forms@.skip(seg_end + 1));
                assert(segs == seq![seg] + split_on(forms@.skip(seg_end + 1), 38u8));
                let rest = split_on(forms@.skip(seg_end + 1), 38u8);
                assert(segs[0] == seg);
                assert(segs.drop_first() =~= rest);
                match pair_of(seg) {
                    Some(p) => {
                        assert(form_pairs(segs) == seq![p] + form_pairs(rest));
                        assert((seq![p] + form_pairs(rest))[0] == p);
                        assert((seq![p] + form_pairs(rest)).drop_first() =~= form_pairs(rest));
                        assert(mm_fold(m0, form_pairs(segs)) == mm_fold(
                            mm_append(m0, p.0, p.1),
                            form_pairs(rest),
                        ));
                    }
                    None => {
                        assert(form_pairs(segs) =~= form_pairs(rest));
                    }
                }
            } else {
                assert(segs == seq![seg]);
                assert(segs[0] == seg);
                assert(segs.drop_first() =~= Seq::<Seq<u8>>::empty());
                assert(form_pairs(Seq::<Seq<u8>>::empty()) == Seq::<(Seq<u8>, Seq<u8>)>::empty());
                assert(form_pairs(segs.drop_first()) == Seq::<(Seq<u8>, Seq<u8>)>::empty());
                match pair_of(seg) {
                    Some(p) => {
                        assert(seq![p] + Seq::<(Seq<u8>, Seq<u8>)>::empty() =~= seq![p]);
                        assert(form_pairs(segs) =~= seq![p]);
                        assert(seq![p][0] == p);
                        assert(seq![p].drop_first() =~= Seq::<(Seq<u8>, Seq<u8>)>::empty());
                        assert(mm_fold(
                            mm_append(m0, p.0, p.1),
                            Seq::<(Seq<u8>, Seq<u8>)>::empty(),
                        ) == mm_append(m0, p.0, p.1));
                        assert(mm_fold(m0, seq![p]) == mm_append(m0, p.0, p.1));
                    }
                    None => {
                        assert(Seq::<(Seq<u8>, Seq<u8>)>::empty() + Seq::<(
                            Seq<u8>,
                            Seq<u8>,
                        )>::empty() =~= Seq::<(Seq<u8>, Seq<u8>)>::empty());
                        assert(form_pairs(segs) =~= Seq::<(Seq<u8>, Seq<u8>)>::empty());
                    }
                }
            }
        }
        if seg_end < n {
            pos = seg_end + 1;
        } else {
            done = true;
        }
    }
}

/// A parsed request line: method, raw URI, path, version and query map.
pub struct RequestLine {
    pub method: Vec<u8>,
    pub uri: Vec<u8>,
    pub path: Vec<u8>,
    pub version: Vec<u8>,
    pub queries: MultiMap,
}

/// The URI up to its first `?`, or all of it.
pub open spec fn spec_path(uri: Seq<u8>) -> Seq<u8> {
    match find_first(uri, 63u8) {
        Some(i) => uri.take(i),
        None => uri,
    }
}

/// The query map carried after the URI's first `?`; empty without one.
pub open spec fn spec_queries(uri: Seq<u8>) -> Seq<(Seq<u8>, Seq<Seq<u8>>)> {
    match find_first(uri, 63u8) {
        Some(i) => spec_form(uri.skip(i + 1)),
        None => Seq::empty(),
    }
}

/// Splits a request line into exactly three whitespace-separated tokens —
/// method, URI, version — and splits the URI into path and query map.
pub fn parse_request_line(request_line: &[u8]) -> (r: Result<RequestLine, ProtocolError>)
    ensures
        match r {
            Ok(rl) => {
                let toks = spec_tokens(request_line@);
                toks.len() == 3 && rl.method@ == toks[0] && rl.uri@ == toks[1] && rl.version@
                    == toks[2] && rl.path@ == spec_path(rl.uri@) && rl.queries@ == spec_queries(
                    rl.uri@,
                ) && mm_wf(rl.queries@)
            },
            Err(e) => spec_tokens(request_line@).len() != 3 && e
                == ProtocolError::MalformedRequestLine,
        },
{
    let mut tokens = split_ws(request_line);
    if tokens.len() != 3 {
        return Err(ProtocolError::MalformedRequestLine);
    }
    let ghost toks = spec_tokens(request_line@);
    let method = tokens.remove(0);
    let uri = tokens.remove(0);
    let version = tokens.remove(0);
    proof {
        assert(method@ == toks[0]);
        assert(uri@ == toks[1]);
        assert(version@ == toks[2]);
    }
    let mut queries = MultiMap::new();
    let path: Vec<u8>;
    let ulen = uri.len();
    match find_byte(uri.as_slice(), 63u8, 0) {
        Some(q) => {
            proof {
                lemma_find_first_is(uri@, 63u8, q as int);
            }
            path = subrange_to_vec(uri.as_slice(), 0, q);
            let piece = vstd::slice::slice_subrange(uri.as_slice(), q + 1, ulen);
            proof {
                assert(piece@ =~= uri@.skip(q + 1));
            }
            parse_form(piece, &mut queries);
        }
        None => {
            proof {
                lemma_find_first_none(uri@, 63u8);
            }
            path = subrange_to_vec(uri.as_slice(), 0, uri.len());
            proof {
                assert(path@ =~= uri@);
            }
        }
    }
    Ok(RequestLine { method, uri, path, version, queries })
}

/// The key/value pair carried by one header line: the line loses one
/// trailing carriage return, splits at its first `:`, and both sides are
/// trimmed; a line without `:` carries none.
pub open spec fn header_pair_of(seg: Seq<u8>) -> Option<(Seq<u8>, Seq<u8>)> {
    let l = chomp_cr(seg);
    match find_first(l, 58u8) {
        Some(i) => Some((trim_spec(l.take(i)), trim_spec(l.skip(i + 1)))),
        None => None,
    }
}

/// The pairs carried by a list of header lines, in order.
pub open spec fn header_pairs(segs: Seq<Seq<u8>>) -> Seq<(Seq<u8>, Seq<u8>)>
    decreases segs.len(),
{
    if segs.len() == 0 {
        Seq::empty()
    } else {
        (match header_pair_of(segs[0]) {
            Some(p) => seq![p],
            None => Seq::empty(),
        }) + header_pairs(segs.drop_first())
    }
}

/// The multi-value header map parsed from a block of `\n`-separated lines.
pub open spec fn spec_headers(block: Seq<u8>) -> Seq<(Seq<u8>, Seq<Seq<u8>>)> {
    mm_fold(Seq::empty(), header_pairs(split_on(block, 10u8)))
}

/// Parses a block of header lines into a fresh multi-value map: every line
/// splits at its first `:`; a repeated name accumulates its values in
/// arrival order; lines without `:` are dropped.
#[verifier::rlimit(40)]
pub fn parse_request_header(request_header: &[u8]) -> (r: MultiMap)
    ensures
        r@ == spec_headers(request_header@),
        mm_wf(r@),
{
    let n = request_header.len();
    let mut map = MultiMap::new();
    let ghost target = spec_headers(request_header@);
    let mut pos: usize = 0;
    let mut done = false;
    proof {
        assert(request_header@.skip(0) =~= request_header@);
    }
    while !done
        invariant
            n == request_header@.len(),
            pos <= n,
            mm_wf(map@),
            !done ==> target == mm_fold(
                map@,
                header_pairs(split_on(request_header@.skip(pos as int), 10u8)),
            ),
            done ==> map@ == target,
        decreases n - pos + (if done {
            0int
        } else {
            1int
        }),
    {
        let ghost rem = request_header@.skip(pos as int);
        let ghost m0 = map@;
        let sep = find_byte(request_header, 10u8, pos);
        let seg_end = match sep {
            Some(a) => a,
            None => n,
        };
        proof {
            assert forall|j: int| 0 <= j < seg_end - pos implies rem[j] != 10u8 by {
                assert(rem[j] == request_header@[pos + j]);
            }
            if seg_end < n {
                assert(rem[(seg_end - pos) as int] == request_header@[seg_end as int]);
            }
            lemma_split_on_step(rem, 10u8, seg_end - pos);
        }
        let ghost seg = request_header@.subrange(pos as int, seg_end as int);
        proof {
            assert(rem.take(seg_end - pos) =~= seg);
            if seg_end == n {
                assert(rem =~= seg);
            }
        }
        // the chomped line ends before one trailing carriage return
        let le = if seg_end > pos && request_header[seg_end - 1] == 13u8 {
            seg_end - 1
        } else {
            seg_end
        };
        let ghost l = chomp_cr(seg);
        proof {
            assert(seg.len() > 0 ==> seg.last() == request_header@[seg_end - 1]);
            assert(l =~= request_header@.subrange(pos as int, le as int));
        }
        let epos = find_byte(request_header, 58u8, pos);
        let has_pair = match epos {
            Some(e) => e < le,
            None => false,
        };
        if has_pair {
            let e = match epos {
                Some(e) => e,
                None => 0,
            };
            proof {
                assert forall|j: int| 0 <= j < e - pos implies l[j] != 58u8 by {
                    assert(l[j] == request_header@[pos + j]);
                }
                assert(l[(e - pos) as int] == 58u8);
                lemma_find_first_is(l, 58u8, e - pos);
            }
            let key_piece = vstd::slice::slice_subrange(request_header, pos, e);
            let val_piece = vstd::slice::slice_subrange(request_header, e + 1, le);
            proof {
                assert(key_piece@ =~= l.take(e - pos));
                assert(val_piece@ =~= l.skip(e - pos + 1));
            }
            let key = trim(key_piece);
            let value = trim(val_piece);
            proof {
                lemma_mm_append(map@, key@, value@);
            }
            map.append_value(key, value);
            proof {
                let p = header_pair_of(seg).unwrap();
                assert(map@ == mm_append(m0, p.0, p.1));
            }
        } else {
            proof {
                assert forall|j: int| 0 <= j < l.len() implies l[j] != 58u8 by {
                    assert(l[j] == request_header@[pos + j]);
                }
                lemma_find_first_none(l, 58u8);
                assert(header_pair_of(seg) is None);
            }
        }
        proof {
            let ghost segs = split_on(rem, 10u8);
            if seg_end < n {
                assert(rem.skip(seg_end - pos + 1) =~= request_header@.skip(seg_end + 1));
                assert(segs == seq![seg] + split_on(request_header@.skip(seg_end + 1), 10u8));
                let rest = split_on(request_header@.skip(seg_end + 1), 10u8);
                assert(segs[0] == seg);
                assert(segs.drop_first() =~= rest);
                match header_pair_of(seg) {
                    Some(p) => {
                        assert(header_pairs(segs) == seq![p] + header_pairs(rest));
                        assert((seq![p] + header_pairs(rest))[0] == p);
                        assert((seq![p] + header_pairs(rest)).drop_first() =~= header_pairs(rest));
                        assert(mm_fold(m0, header_pairs(segs)) == mm_fold(
                            mm_append(m0, p.0, p.1),
                            header_pairs(rest),
                        ));
                    }
                    None => {
                        assert(header_pairs(segs) =~= header_pairs(rest));
                    }
                }
            } else {
                assert(segs == seq![seg]);
                assert(segs[0] == seg);
                assert(segs.drop_first() =~= Seq::<Seq<u8>>::empty());
                assert(header_pairs(Seq::<Seq<u8>>::empty()) == Seq::<(Seq<u8>, Seq<u8>)>::empty());
                assert(header_pairs(segs.drop_first()) == Seq::<(Seq<u8>, Seq<u8>)>::empty());
                match header_pair_of(seg) {
                    Some(p) => {
                        assert(seq![p] + Seq::<(Seq<u8>, Seq<u8>)>::empty() =~= seq![p]);
                        assert(header_pairs(segs) =~= seq![p]);
                        assert(seq![p][0] == p);
                        assert(seq![p].drop_first() =~= Seq::<(Seq<u8>, Seq<u8>)>::empty());
                        assert(mm_fold(
                            mm_append(m0, p.0, p.1),
                            Seq::<(Seq<u8>, Seq<u8>)>::empty(),
                        ) == mm_append(m0, p.0, p.1));
                        assert(mm_fold(m0, seq![p]) == mm_append(m0, p.0, p.1));
                    }
                    None => {
                        assert(Seq::<(Seq<u8>, Seq<u8>)>::empty() + Seq::<(
                            Seq<u8>,
                            Seq<u8>,
                        )>::empty() =~= Seq::<(Seq<u8>, Seq<u8>)>::empty());
                        assert(header_pairs(segs) =~= Seq::<(Seq<u8>, Seq<u8>)>::empty());
                    }
                }
            }
        }
        if seg_end < n {
            pos = seg_end + 1;
        } else {
            done = true;
        }
    }
    map
}

/// Every byte is a decimal digit.
pub open spec fn all_digits(s: Seq<u8>) -> bool {
    forall|j: int| 0 <= j < s.len() ==> is_digit(s[j])
}

/// The unsigned decimal value that `s` denotes.
pub open spec fn dec_value(s: Seq<u8>) -> nat
    decreases s.len(),
{
    if s.len() == 0 {
        0
    } else {
        dec_value(s.drop_last()) * 10 + (s.last() - 48) as nat
    }
}

/// A digit string's value dominates every prefix's value.
pub proof fn lemma_dec_value_prefix(s: Seq<u8>, i: int)
    requires
        all_digits(s),
        0 <= i <= s.len(),
    ensures
        dec_value(s.take(i)) <= dec_value(s),
    decreases s.len() - i,
{
    if i == s.len() {
        assert(s.take(i) =~= s);
    } else {
        assert(s.take(i + 1).drop_last() =~= s.take(i));
        assert(s.take(i + 1).last() == s[i]);
        assert(dec_value(s.take(i + 1)) == dec_value(s.take(i)) * 10 + (s[i] - 48) as nat);
        lemma_dec_value_prefix(s, i + 1);
    }
}

/// Parses a decimal unsigned integer: defined exactly on non-empty
/// all-digit strings whose value fits the platform word.
pub fn parse_usize(s: &[u8]) -> (r: Option<usize>)
    ensures
        match r {
            Some(v) => s@.len() > 0 && all_digits(s@) && dec_value(s@) <= usize::MAX && v
                == dec_value(s@),
            None => s@.len() == 0 || !all_digits(s@) || dec_value(s@) > usize::MAX,
        },
{
    let n = s.len();
    if n == 0 {
        return None;
    }
    let mut acc: usize = 0;
    let mut i: usize = 0;
    proof {
        assert(s@.take(0) =~= Seq::<u8>::empty());
    }
    while i < n
        invariant
            n == s@.len(),
            i <= n,
            forall|j: int| 0 <= j < i ==> is_digit(s@[j]),
            acc == dec_value(s@.take(i as int)),
        decreases n - i,
    {
        let b = s[i];
        if b < 48 || b > 57 {
            return None;
        }
        let d = (b - 48) as usize;
        proof {
            assert(s@.take(i + 1).drop_last() =~= s@.take(i as int));
            assert(s@.take(i + 1).last() == s@[i as int]);
        }
        if acc > (usize::MAX - d) / 10 {
            proof {
                assert(dec_value(s@.take(i + 1)) == acc * 10 + d);
                assert(acc >= (usize::MAX - d) / 10 + 1);
                assert(acc * 10 >= ((usize::MAX - d) / 10 + 1) * 10) by (nonlinear_arith)
                    requires
                        acc >= (usize::MAX - d) / 10 + 1,
                ;
                assert(((usize::MAX - d) / 10 + 1) * 10 > usize::MAX - d);
                assert(dec_value(s@.take(i + 1)) > usize::MAX);
                if all_digits(s@) {
                    lemma_dec_value_prefix(s@, i + 1);
                }
            }
            return None;
        }
        proof {
            assert(acc <= (usize::MAX - d) / 10);
            assert(acc * 10 <= ((usize::MAX - d) / 10) * 10) by (nonlinear_arith)
                requires
                    acc <= (usize::MAX - d) / 10,
            ;
            assert(((usize::MAX - d) / 10) * 10 <= usize::MAX - d);
        }
        acc = acc * 10 + d;
        i = i + 1;
    }
    proof {
        assert(s@.take(n as int) =~= s@);
    }
    Some(acc)
}

/// The eight recognized request methods.
pub open spec fn is_supported_method(m: Seq<u8>) -> bool {
    ||| m == lit_get()
    ||| m == lit_post()
    ||| m == lit_put()
    ||| m == lit_delete()
    ||| m == lit_options()
    ||| m == lit_head()
    ||| m == lit_trace()
    ||| m == lit_connect()
}

/// The three accepted protocol versions.
pub open spec fn is_supported_version(v: Seq<u8>) -> bool {
    ||| v == lit_http10()
    ||| v == lit_http11()
    ||| v == lit_http2()
}

/// Whether `m` is one of the eight recognized methods.
pub fn check_method(m: &[u8]) -> (r: bool)
    ensures
        r == is_supported_method(m@),
{
    let r1 = crate::bstr::bytes_eq(m, lit_get_bytes()) || crate::bstr::bytes_eq(
        m,
        lit_post_bytes(),
    ) || crate::bstr::bytes_eq(m, lit_put_bytes()) || crate::bstr::bytes_eq(m, lit_delete_bytes());
    let r2 = crate::bstr::bytes_eq(m, lit_options_bytes()) || crate::bstr::bytes_eq(
        m,
        lit_head_bytes(),
    ) || crate::bstr::bytes_eq(m, lit_trace_bytes()) || crate::bstr::bytes_eq(
        m,
        lit_connect_bytes(),
    );
    r1 || r2
}

/// Whether `v` is one of the three accepted versions.
pub fn check_version(v: &[u8]) -> (r: bool)
    ensures
        r == is_supported_version(v@),
{
    crate::bstr::bytes_eq(v, lit_http10_bytes()) || crate::bstr::bytes_eq(v, lit_http11_bytes())
        || crate::bstr::bytes_eq(v, lit_http2_bytes())
}

/// Bodies at or beyond this size are rejected and treated as empty.
pub const MAX_PARSE_BODY_SIZE: usize = 10485760;

/// A decoded request: the request line's parts, the header map, the
/// classified content type and declared length, and the lazily filled body.
pub struct Request {
    pub method: Vec<u8>,
    pub uri: Vec<u8>,
    pub path: Vec<u8>,
    pub version: Vec<u8>,
    pub headers: MultiMap,
    pub content_type: ContentType,
    pub content_length: usize,
    pub boundary: Vec<u8>,
    pub body: Vec<u8>,
    pub form: MultiMap,
    pub post_form: MultiMap,
    pub multipart: MultiPart,
}

/// The first value the header block stores under `key`, or empty.
pub open spec fn spec_header_first(block: Seq<u8>, key: Seq<u8>) -> Seq<u8> {
    let vs = mm_get(spec_headers(block), key);
    if vs.len() > 0 {
        vs[0]
    } else {
        Seq::empty()
    }
}

/// The declared content length: the decimal value of the first
/// `Content-Length` header when it is a well-formed number that fits the
/// platform word, and zero otherwise.
pub open spec fn spec_content_length(block: Seq<u8>) -> nat {
    let v = spec_header_first(block, crate::lit::lit_content_length());
    if v.len() > 0 && all_digits(v) && dec_value(v) <= usize::MAX {
        dec_value(v)
    } else {
        0
    }
}

/// How many body bytes the request still wants: none when no length was
/// declared or the declared length lies beyond the acceptance ceiling.
pub open spec fn spec_body_wanted(rq: Request) -> int {
    if rq.content_length == 0 || rq.content_length > MAX_PARSE_BODY_SIZE {
        0
    } else {
        rq.content_length - rq.body@.len()
    }
}

/// One chunk folded into a body capped at `cl` bytes.
pub open spec fn push_body(body: Seq<u8>, cl: int, chunk: Seq<u8>) -> Seq<u8> {
    let wanted = cl - body.len();
    let accepted = if chunk.len() <= wanted {
        chunk.len() as int
    } else {
        wanted
    };
    body + chunk.take(accepted)
}

/// A list of chunks folded into a body capped at `cl` bytes, in order.
pub open spec fn fold_body(body: Seq<u8>, cl: int, chunks: Seq<Seq<u8>>) -> Seq<u8>
    decreases chunks.len(),
{
    if chunks.len() == 0 {
        body
    } else {
        fold_body(push_body(body, cl, chunks[0]), cl, chunks.drop_first())
    }
}

/// The concatenation of a list of chunks.
pub open spec fn flatten_chunks(chunks: Seq<Seq<u8>>) -> Seq<u8>
    decreases chunks.len(),
{
    if chunks.len() == 0 {
        Seq::empty()
    } else {
        chunks[0] + flatten_chunks(chunks.drop_first())
    }
}

/// The total length of a list of chunks.
pub open spec fn total_len(chunks: Seq<Seq<u8>>) -> int
    decreases chunks.len(),
{
    if chunks.len() == 0 {
        0
    } else {
        chunks[0].len() + total_len(chunks.drop_first())
    }
}

/// Law: chunk-split invariance of the body reader. A body of declared
/// length `cl` delivered in chunks of any sizes is reassembled as exactly
/// the concatenation of the chunks, independent of how the bytes were
/// split, as long as they fit the declared length.
pub proof fn lemma_body_chunk_split_invariance(body: Seq<u8>, cl: int, chunks: Seq<Seq<u8>>)
    requires
        body.len() + total_len(chunks) <= cl,
    ensures
        fold_body(body, cl, chunks) == body + flatten_chunks(chunks),
    decreases chunks.len(),
{
    if chunks.len() == 0 {
        assert(body + flatten_chunks(chunks) =~= body);
    } else {
        let c = chunks[0];
        let rest = chunks.drop_first();
        assert(total_len(chunks) == c.len() + total_len(rest));
        lemma_total_len_nonneg(rest);
        assert(c.len() <= cl - body.len());
        assert(push_body(body, cl, c) == body + c.take(c.len() as int));
        assert(c.take(c.len() as int) =~= c);
        lemma_body_chunk_split_invariance(body + c, cl, rest);
        assert((body + c) + flatten_chunks(rest) =~= body + (c + flatten_chunks(rest)));
    }
}

/// A chunk list's total length is not negative.
pub proof fn lemma_total_len_nonneg(chunks: Seq<Seq<u8>>)
    ensures
        total_len(chunks) >= 0,
    decreases chunks.len(),
{
    if chunks.len() > 0 {
        lemma_total_len_nonneg(chunks.drop_first());
    }
}

impl Request {
    /// Structural soundness: the maps are well formed, the multipart
    /// decoder is sound, and the stored body respects the declared length
    /// and the acceptance ceiling.
    pub open spec fn wf(self) -> bool {
        &&& mm_wf(self.headers@)
        &&& mm_wf(self.form@)
        &&& mm_wf(self.post_form@)
        &&& self.multipart.wf()
        &&& self.body@.len() <= self.content_length
        &&& self.content_length > MAX_PARSE_BODY_SIZE ==> self.body@.len() == 0
    }

    /// An empty request, to be populated by `init`.
    pub fn new() -> (r: Request)
        ensures
            r.wf(),
            r.method@ == Seq::<u8>::empty(),
            r.uri@ == Seq::<u8>::empty(),
            r.path@ == Seq::<u8>::empty(),
            r.version@ == Seq::<u8>::empty(),
            r.headers@ == Seq::<(Seq<u8>, Seq<Seq<u8>>)>::empty(),
            r.content_type matches ContentType::NoneType,
            r.content_length == 0,
            r.body@ == Seq::<u8>::empty(),
            r.form@ == Seq::<(Seq<u8>, Seq<Seq<u8>>)>::empty(),
            r.post_form@ == Seq::<(Seq<u8>, Seq<Seq<u8>>)>::empty(),
    {
        Request {
            method: Vec::new(),
            uri: Vec::new(),
            path: Vec::new(),
            version: Vec::new(),
            headers: MultiMap::new(),
            content_type: ContentType::NoneType,
            content_length: 0,
            boundary: Vec::new(),
            body: Vec::new(),
            form: MultiMap::new(),
            post_form: MultiMap::new(),
            multipart: MultiPart::new(&[], 0),
        }
    }

    /// Copies of all values of the header `key`, in arrival order.
    pub fn header(&self, key: &[u8]) -> (r: Vec<Vec<u8>>)
        ensures
            r@.map_values(|v: Vec<u8>| v@) == mm_get(self.headers@, key@),
    {
        self.headers.get_all(key)
    }

    /// Copy of the first value of the header `key`, or empty.
    pub fn header_first(&self, key: &[u8]) -> (r: Vec<u8>)
        ensures
            r@ == (if mm_get(self.headers@, key@).len() > 0 {
                mm_get(self.headers@, key@)[0]
            } else {
                Seq::<u8>::empty()
            }),
    {
        self.headers.get_first(key)
    }

    /// Copy of the first value of the query parameter `key`, or empty.
    pub fn query(&self, key: &[u8]) -> (r: Vec<u8>)
        ensures
            r@ == (if mm_get(self.form@, key@).len() > 0 {
                mm_get(self.form@, key@)[0]
            } else {
                Seq::<u8>::empty()
            }),
    {
        self.form.get_first(key)
    }

    /// Populates the request from its request line and header block.
    /// Success requires exactly three tokens, a recognized method and an
    /// accepted version; each error identifies exactly which check failed,
    /// and a failed request is left unchanged.
    pub fn init(&mut self, request_line: &[u8], header_block: &[u8]) -> (r: Result<
        (),
        ProtocolError,
    >)
        requires
            old(self).wf(),
        ensures
            final(self).wf(),
            match r {
                Ok(()) => {
                    let toks = spec_tokens(request_line@);
                    &&& request_line@.len() > 0
                    &&& toks.len() == 3
                    &&& is_supported_method(toks[0])
                    &&& is_supported_version(toks[2])
                    &&& final(self).method@ == toks[0]
                    &&& final(self).uri@ == toks[1]
                    &&& final(self).version@ == toks[2]
                    &&& final(self).path@ == spec_path(final(self).uri@)
                    &&& final(self).form@ == spec_queries(final(self).uri@)
                    &&& final(self).headers@ == spec_headers(header_block@)
                    &&& ct_ok(
                        final(self).content_type,
                        spec_header_first(header_block@, crate::lit::lit_content_type()),
                    )
                    &&& final(self).content_length == spec_content_length(header_block@)
                    &&& final(self).boundary@ == (match final(self).content_type {
                        ContentType::MultiPart { sub_type, boundary } => boundary@,
                        _ => Seq::<u8>::empty(),
                    })
                    &&& final(self).body@.len() == 0
                    &&& final(self).post_form@ == old(self).post_form@
                },
                Err(e) => {
                    &&& *final(self) == *old(self)
                    &&& match e {
                        ProtocolError::Empty => request_line@.len() == 0,
                        ProtocolError::MalformedRequestLine => request_line@.len() > 0
                            && spec_tokens(request_line@).len() != 3,
                        ProtocolError::UnsupportedMethod => request_line@.len() > 0
                            && spec_tokens(request_line@).len() == 3 && !is_supported_method(
                            spec_tokens(request_line@)[0],
                        ),
                        ProtocolError::UnsupportedVersion => request_line@.len() > 0
                            && spec_tokens(request_line@).len() == 3 && is_supported_method(
                            spec_tokens(request_line@)[0],
                        ) && !is_supported_version(spec_tokens(request_line@)[2]),
                        _ => false,
                    }
                },
            },
    {
        if request_line.len() == 0 {
            return Err(ProtocolError::Empty);
        }
        let rl = match parse_request_line(request_line) {
            Ok(rl) => rl,
            Err(e) => {
                return Err(e);
            }
        };
        if !check_method(rl.method.as_slice()) {
            return Err(ProtocolError::UnsupportedMethod);
        }
        if !check_version(rl.version.as_slice()) {
            return Err(ProtocolError::UnsupportedVersion);
        }
        let headers = parse_request_header(header_block);
        let ct_value = headers.get_first(crate::lit::lit_content_type_bytes());
        let content_type = ContentType::parse(ct_value.as_slice());
        let cl_value = headers.get_first(crate::lit::lit_content_length_bytes());
        let content_length = match parse_usize(cl_value.as_slice()) {
            Some(v) => v,
            None => 0,
        };
        let boundary: Vec<u8> = match &content_type {
            ContentType::MultiPart { sub_type, boundary } => subrange_to_vec(
                boundary.as_slice(),
                0,
                boundary.len(),
            ),
            _ => Vec::new(),
        };
        self.method = rl.method;
        self.uri = rl.uri;
        self.path = rl.path;
        self.version = rl.version;
        self.form = rl.queries;
        self.headers = headers;
        self.content_type = content_type;
        self.content_length = content_length;
        self.boundary = boundary;
        self.body = Vec::new();
        Ok(())
    }

    /// How many more body bytes the request wants before the declared
    /// length is reached; zero for no declared length or one beyond the
    /// acceptance ceiling.
    pub fn body_wanted(&self) -> (r: usize)
        requires
            self.wf(),
        ensures
            r == spec_body_wanted(*self),
    {
        if self.content_length == 0 || self.content_length > MAX_PARSE_BODY_SIZE {
            0
        } else {
            self.content_length - self.body.len()
        }
    }

    /// Whether the declared body length lies beyond the acceptance ceiling,
    /// so that the body is rejected and treated as empty.
    pub fn body_limit_exceeded(&self) -> (r: bool)
        ensures
            r == (self.content_length > MAX_PARSE_BODY_SIZE),
    {
        self.content_length > MAX_PARSE_BODY_SIZE
    }

    /// Accepts freshly read body bytes, taking no more than the request
    /// still wants; returns how many were taken. Rejected bodies take
    /// nothing and stay empty.
    pub fn body_push_chunk(&mut self, chunk: &[u8]) -> (accepted: usize)
        requires
            old(self).wf(),
        ensures
            final(self).wf(),
            accepted == if chunk@.len() <= spec_body_wanted(*old(self)) {
                chunk@.len() as int
            } else {
                spec_body_wanted(*old(self))
            },
            final(self).body@ == old(self).body@ + chunk@.take(accepted as int),
            0 < old(self).content_length <= MAX_PARSE_BODY_SIZE ==> final(self).body@ == push_body(
                old(self).body@,
                old(self).content_length as int,
                chunk@,
            ),
            final(self).method == old(self).method,
            final(self).uri == old(self).uri,
            final(self).path == old(self).path,
            final(self).version == old(self).version,
            final(self).headers == old(self).headers,
            final(self).content_type == old(self).content_type,
            final(self).content_length == old(self).content_length,
            final(self).boundary == old(self).boundary,
            final(self).form == old(self).form,
            final(self).post_form == old(self).post_form,
            final(self).multipart == old(self).multipart,
    {
        let wanted = self.body_wanted();
        let take_n = if chunk.len() < wanted {
            chunk.len()
        } else {
            wanted
        };
        crate::bstr::push_range(&mut self.body, chunk, 0, take_n);
        proof {
            assert(chunk@.subrange(0, take_n as int) =~= chunk@.take(take_n as int));
        }
        take_n
    }

    /// Copy of the body collected so far: the full declared body once
    /// every wanted byte was pushed, and empty for a rejected body.
    pub fn body(&self) -> (r: Vec<u8>)
        ensures
            r@ == self.body@,
    {
        subrange_to_vec(self.body.as_slice(), 0, self.body.len())
    }

    /// Parses the collected body as a `&`-separated form into the POST
    /// form map, appending to lists already present.
    pub fn parse_post_form(&mut self)
        requires
            old(self).wf(),
        ensures
            final(self).wf(),
            final(self).post_form@ == mm_fold(
                old(self).post_form@,
                form_pairs(split_on(old(self).body@, 38u8)),
            ),
            final(self).body == old(self).body,
            final(self).method == old(self).method,
            final(self).headers == old(self).headers,
            final(self).form == old(self).form,
            final(self).multipart == old(self).multipart,
    {
        let body = subrange_to_vec(self.body.as_slice(), 0, self.body.len());
        proof {
            assert(body@ =~= old(self).body@);
        }
        let mut pf = MultiMap::new();
        core::mem::swap(&mut pf, &mut self.post_form);
        parse_form(body.as_slice(), &mut pf);
        self.post_form = pf;
    }

    /// Builds the multipart decoder over the negotiated boundary and the
    /// declared content length.
    pub fn multipart(&mut self)
        requires
            old(self).wf(),
        ensures
            final(self).wf(),
            final(self).multipart.wf(),
            final(self).multipart.content_length == old(self).content_length,
            final(self).multipart.bytes_read == 0,
            final(self).multipart.remaining_bytes@ == Seq::<u8>::empty(),
            !final(self).multipart.is_end,
            final(self).multipart.dash_boundary@ == seq![45u8, 45u8] + old(self).boundary@,
            final(self).method == old(self).method,
            final(self).body == old(self).body,
            final(self).headers == old(self).headers,
    {
        self.multipart = MultiPart::new(self.boundary.as_slice(), self.content_length);
    }

    /// Decodes the next part's header block: one step of the decoder held
    /// by this request.
    pub fn next(&mut self) -> (r: crate::multipart::NextOutcome)
        requires
            old(self).wf(),
            old(self).multipart.body_acc@.len() == 0,
        ensures
            final(self).wf(),
            crate::multipart::next_transition(old(self).multipart, final(self).multipart, r),
            final(self).body == old(self).body,
            final(self).headers == old(self).headers,
    {
        self.multipart.next()
    }

    /// Streams the current part's body one step: one step of the decoder
    /// held by this request.
    pub fn part_body(&mut self) -> (r: crate::multipart::BodyStep)
        requires
            old(self).wf(),
        ensures
            final(self).wf(),
            crate::multipart::body_transition(old(self).multipart, final(self).multipart, r),
            final(self).body == old(self).body,
            final(self).headers == old(self).headers,
    {
        self.multipart.body()
    }

    /// Accepts freshly read multipart bytes: one step of the decoder held
    /// by this request.
    pub fn part_supply(&mut self, chunk: &[u8]) -> (accepted: usize)
        requires
            old(self).wf(),
        ensures
            final(self).wf(),
            crate::multipart::supply_transition(
                old(self).multipart,
                final(self).multipart,
                chunk@,
                accepted as int,
            ),
            final(self).body == old(self).body,
            final(self).headers == old(self).headers,
    {
        self.multipart.supply(chunk)
    }
}

} // verus!
