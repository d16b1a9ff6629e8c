//! Response values: a status, a single-valued header map, and a body
//! variant; serialized deterministically into status-line and header bytes.

use vstd::prelude::*;
use vstd::pervasive::VecAdditionalExecFns;
use crate::multimap::{HeaderMap, hm_wf, hm_insert};
use crate::lit::{
    lit_status_prefix, lit_status_prefix_bytes, lit_colon_space, lit_colon_space_bytes,
    lit_content_type, lit_content_type_bytes, lit_content_length, lit_content_length_bytes,
    lit_content_disposition, lit_content_disposition_bytes, lit_reason_ok,
    lit_reason_ok_bytes, lit_reason_bad_request, lit_reason_bad_request_bytes,
    lit_reason_not_found, lit_reason_not_found_bytes, lit_reason_method_not_allowed,
    lit_reason_method_not_allowed_bytes, lit_reason_internal_error,
    lit_reason_internal_error_bytes, lit_application_json, lit_application_json_bytes,
};

verus! {

/// The decimal digits of `n`, most significant first.
pub open spec fn dec_digits(n: nat) -> Seq<u8>
    decreases n,
{
    if n < 10 {
        seq![(48 + n) as u8]
    } else {
        dec_digits(n / 10) + seq![(48 + n % 10) as u8]
    }
}

/// Renders `n` in decimal.
pub fn usize_to_dec(n: usize) -> (r: Vec<u8>)
    ensures
        r@ == dec_digits(n as nat),
    decreases n,
{
    if n < 10 {
        let mut v: Vec<u8> = Vec::new();
        v.push(48 + n as u8);
        proof {
            assert(v@ =~= dec_digits(n as nat));
        }
        v
    } else {
        let mut v = usize_to_dec(n / 10);
        v.push(48 + (n % 10) as u8);
        proof {
            assert(v@ =~= dec_digits((n / 10) as nat) + seq![(48 + n as nat % 10) as u8]);
        }
        v
    }
}

/// Response status.
#[derive(Debug, Clone, Copy, PartialEq, Eq, Structural)]
pub enum Status {
    OK,
    BadRequest,
    NotFound,
    MethodNotAllowed,
    InternalServerError,
}

impl Status {
    /// The status code.
    pub open spec fn spec_code(self) -> nat {
        match self {
            Status::OK => 200,
            Status::BadRequest => 400,
            Status::NotFound => 404,
            Status::MethodNotAllowed => 405,
            Status::InternalServerError => 500,
        }
    }

    /// The reason phrase.
    pub open spec fn spec_reason(self) -> Seq<u8> {
        match self {
            Status::OK => lit_reason_ok(),
            Status::BadRequest => lit_reason_bad_request(),
            Status::NotFound => lit_reason_not_found(),
            Status::MethodNotAllowed => lit_reason_method_not_allowed(),
            Status::InternalServerError => lit_reason_internal_error(),
        }
    }

    /// The status code.
    pub fn code(&self) -> (r: usize)
        ensures
            r == self.spec_code(),
    {
        match self {
            Status::OK => 200,
            Status::BadRequest => 400,
            Status::NotFound => 404,
            Status::MethodNotAllowed => 405,
            Status::InternalServerError => 500,
        }
    }

    /// The reason phrase.
    pub fn reason(&self) -> (r: &'static [u8])
        ensures
            r@ == self.spec_reason(),
    {
        match self {
            Status::OK => lit_reason_ok_bytes(),
            Status::BadRequest => lit_reason_bad_request_bytes(),
            Status::NotFound => lit_reason_not_found_bytes(),
            Status::MethodNotAllowed => lit_reason_method_not_allowed_bytes(),
            Status::InternalServerError => lit_reason_internal_error_bytes(),
        }
    }
}

/// A response body source: in-memory content read out in caller-sized
/// chunks through a cursor, with its announced type, length and
/// disposition.
pub trait Body {
    /// The body's bytes.
    spec fn content_model(&self) -> Seq<u8>;

    /// How many bytes were already read out.
    spec fn cursor_model(&self) -> int;

    /// The announced content type; empty to announce none.
    spec fn type_model(&self) -> Seq<u8>;

    /// The announced content disposition; empty to announce none.
    spec fn disposition_model(&self) -> Seq<u8>;

    /// The cursor sits inside the content.
    spec fn body_wf(&self) -> bool;

    /// Copies the next bytes of the content into the front of `buf`,
    /// at most `buf.len()` of them, and says how many were copied.
    fn get_content(&mut self, buf: &mut Vec<u8>) -> (n: usize)
        requires
            old(self).body_wf(),
        ensures
            final(self).body_wf(),
            final(self).content_model() == old(self).content_model(),
            final(self).type_model() == old(self).type_model(),
            final(self).disposition_model() == old(self).disposition_model(),
            n == (if old(buf)@.len() <= old(self).content_model().len() - old(self).cursor_model() {
                old(buf)@.len() as int
            } else {
                old(self).content_model().len() - old(self).cursor_model()
            }),
            final(self).cursor_model() == old(self).cursor_model() + n,
            final(buf)@ == old(self).content_model().subrange(
                old(self).cursor_model(),
                old(self).cursor_model() + n,
            ) + old(buf)@.skip(n as int),
    ;

    /// The announced content type.
    fn get_content_type(&self) -> (r: Vec<u8>)
        ensures
            r@ == self.type_model(),
    ;

    /// The content's length.
    fn get_content_length(&self) -> (r: usize)
        requires
            self.body_wf(),
        ensures
            r == self.content_model().len(),
    ;

    /// The announced content disposition.
    fn get_content_disposition(&self) -> (r: Vec<u8>)
        ensures
            r@ == self.disposition_model(),
    ;
}

/// The empty body: no content, no announced type.
pub struct NoneContent;

impl Body for NoneContent {
    open spec fn content_model(&self) -> Seq<u8> {
        Seq::empty()
    }

    open spec fn cursor_model(&self) -> int {
        0
    }

    open spec fn type_model(&self) -> Seq<u8> {
        Seq::empty()
    }

    open spec fn disposition_model(&self) -> Seq<u8> {
        Seq::empty()
    }

    open spec fn body_wf(&self) -> bool {
        true
    }

    fn get_content(&mut self, buf: &mut Vec<u8>) -> (n: usize) {
        proof {
            assert(Seq::<u8>::empty().subrange(0, 0) + old(buf)@.skip(0) =~= old(buf)@);
        }
        0
    }

    fn get_content_type(&self) -> (r: Vec<u8>) {
        let r: Vec<u8> = Vec::new();
        proof {
            assert(r@ =~= Seq::<u8>::empty());
        }
        r
    }

    fn get_content_length(&self) -> (r: usize) {
        0
    }

    fn get_content_disposition(&self) -> (r: Vec<u8>) {
        let r: Vec<u8> = Vec::new();
        proof {
            assert(r@ =~= Seq::<u8>::empty());
        }
        r
    }
}

/// An in-memory body with an explicit content type.
pub struct TextBody {
    pub content_type: Vec<u8>,
    pub content: Vec<u8>,
    pub cursor_index: usize,
}

impl TextBody {
    /// A body over `content` announcing `content_type`.
    pub fn new(content_type: Vec<u8>, content: Vec<u8>) -> (r: TextBody)
        ensures
            r.body_wf(),
            r.content_model() == content@,
            r.type_model() == content_type@,
            r.cursor_model() == 0,
    {
        TextBody { content_type, content, cursor_index: 0 }
    }
}

impl Body for TextBody {
    open spec fn content_model(&self) -> Seq<u8> {
        self.content@
    }

    open spec fn cursor_model(&self) -> int {
        self.cursor_index as int
    }

    open spec fn type_model(&self) -> Seq<u8> {
        self.content_type@
    }

    open spec fn disposition_model(&self) -> Seq<u8> {
        Seq::empty()
    }

    open spec fn body_wf(&self) -> bool {
        self.cursor_index <= self.content@.len()
    }

    fn get_content(&mut self, buf: &mut Vec<u8>) -> (n: usize) {
        copy_out(&self.content, &mut self.cursor_index, buf)
    }

    fn get_content_type(&self) -> (r: Vec<u8>) {
        crate::bstr::subrange_to_vec(self.content_type.as_slice(), 0, self.content_type.len())
    }

    fn get_content_length(&self) -> (r: usize) {
        self.content.len()
    }

    fn get_content_disposition(&self) -> (r: Vec<u8>) {
        let r: Vec<u8> = Vec::new();
        proof {
            assert(r@ =~= Seq::<u8>::empty());
        }
        r
    }
}

/// An in-memory body announced as `application/json`.
pub struct JsonBody {
    pub content: Vec<u8>,
    pub cursor_index: usize,
}

impl JsonBody {
    /// A JSON body over a copy of `content`.
    pub fn new(content: &[u8]) -> (r: JsonBody)
        ensures
            r.body_wf(),
            r.content_model() == content@,
            r.type_model() == lit_application_json(),
            r.cursor_model() == 0,
    {
        JsonBody { content: crate::bstr::subrange_to_vec(content, 0, content.len()), cursor_index: 0 }
    }
}

impl Body for JsonBody {
    open spec fn content_model(&self) -> Seq<u8> {
        self.content@
    }

    open spec fn cursor_model(&self) -> int {
        self.cursor_index as int
    }

    open spec fn type_model(&self) -> Seq<u8> {
        lit_application_json()
    }

    open spec fn disposition_model(&self) -> Seq<u8> {
        Seq::empty()
    }

    open spec fn body_wf(&self) -> bool {
        self.cursor_index <= self.content@.len()
    }

    fn get_content(&mut self, buf: &mut Vec<u8>) -> (n: usize) {
        copy_out(&self.content, &mut self.cursor_index, buf)
    }

    fn get_content_type(&self) -> (r: Vec<u8>) {
        let b = lit_application_json_bytes();
        crate::bstr::subrange_to_vec(b, 0, b.len())
    }

    fn get_content_length(&self) -> (r: usize) {
        self.content.len()
    }

    fn get_content_disposition(&self) -> (r: Vec<u8>) {
        let r: Vec<u8> = Vec::new();
        proof {
            assert(r@ =~= Seq::<u8>::empty());
        }
        r
    }
}

/// Copies content bytes from `cursor` into the front of `buf`; the shared
/// reading step of the in-memory bodies.
fn copy_out(content: &Vec<u8>, cursor: &mut usize, buf: &mut Vec<u8>) -> (n: usize)
    requires
        *old(cursor) <= content@.len(),
    ensures
        *final(cursor) <= content@.len(),
        n == (if old(buf)@.len() <= content@.len() - *old(cursor) {
            old(buf)@.len() as int
        } else {
            content@.len() - *old(cursor)
        }),
        *final(cursor) == *old(cursor) + n,
        final(buf)@ == content@.subrange(*old(cursor) as int, *old(cursor) + n) + old(buf)@.skip(
            n as int,
        ),
{
    let total = content.len();
    let blen = buf.len();
    let remaining = total - *cursor;
    let n = if blen <= remaining {
        blen
    } else {
        remaining
    };
    let mut filled = crate::bstr::subrange_to_vec(content.as_slice(), *cursor, *cursor + n);
    crate::bstr::push_range(&mut filled, buf.as_slice(), n, blen);
    *cursor = *cursor + n;
    proof {
        assert(old(buf)@.subrange(n as int, blen as int) =~= old(buf)@.skip(n as int));
    }
    *buf = filled;
    n
}

/// The body variants a response can carry.
pub enum ResponseBody {
    Empty(NoneContent),
    Text(TextBody),
    Json(JsonBody),
}

impl Body for ResponseBody {
    open spec fn content_model(&self) -> Seq<u8> {
        match self {
            ResponseBody::Empty(b) => b.content_model(),
            ResponseBody::Text(b) => b.content_model(),
            ResponseBody::Json(b) => b.content_model(),
        }
    }

    open spec fn cursor_model(&self) -> int {
        match self {
            ResponseBody::Empty(b) => b.cursor_model(),
            ResponseBody::Text(b) => b.cursor_model(),
            ResponseBody::Json(b) => b.cursor_model(),
        }
    }

    open spec fn type_model(&self) -> Seq<u8> {
        match self {
            ResponseBody::Empty(b) => b.type_model(),
            ResponseBody::Text(b) => b.type_model(),
            ResponseBody::Json(b) => b.type_model(),
        }
    }

    open spec fn disposition_model(&self) -> Seq<u8> {
        match self {
            ResponseBody::Empty(b) => b.disposition_model(),
            ResponseBody::Text(b) => b.disposition_model(),
            ResponseBody::Json(b) => b.disposition_model(),
        }
    }

    open spec fn body_wf(&self) -> bool {
        match self {
            ResponseBody::Empty(b) => b.body_wf(),
            ResponseBody::Text(b) => b.body_wf(),
            ResponseBody::Json(b) => b.body_wf(),
        }
    }

    fn get_content(&mut self, buf: &mut Vec<u8>) -> (n: usize) {
        match self {
            ResponseBody::Empty(b) => b.get_content(buf),
            ResponseBody::Text(b) => b.get_content(buf),
            ResponseBody::Json(b) => b.get_content(buf),
        }
    }

    fn get_content_type(&self) -> (r: Vec<u8>) {
        match self {
            ResponseBody::Empty(b) => b.get_content_type(),
            ResponseBody::Text(b) => b.get_content_type(),
            ResponseBody::Json(b) => b.get_content_type(),
        }
    }

    fn get_content_length(&self) -> (r: usize) {
        match self {
            ResponseBody::Empty(b) => b.get_content_length(),
            ResponseBody::Text(b) => b.get_content_length(),
            ResponseBody::Json(b) => b.get_content_length(),
        }
    }

    fn get_content_disposition(&self) -> (r: Vec<u8>) {
        match self {
            ResponseBody::Empty(b) => b.get_content_disposition(),
            ResponseBody::Text(b) => b.get_content_disposition(),
            ResponseBody::Json(b) => b.get_content_disposition(),
        }
    }
}

/// The status line `HTTP/1.1 <code> <reason>` followed by one line break.
pub open spec fn spec_status_line(st: Status) -> Seq<u8> {
    lit_status_prefix() + dec_digits(st.spec_code()) + seq![32u8] + st.spec_reason() + seq![
        13u8,
        10u8,
    ]
}

/// The header lines `key: value`, each closed by one line break, in map
/// order.
pub open spec fn render_header_lines(m: Seq<(Seq<u8>, Seq<u8>)>) -> Seq<u8>
    decreases m.len(),
{
    if m.len() == 0 {
        Seq::empty()
    } else {
        m[0].0 + lit_colon_space() + m[0].1 + seq![13u8, 10u8] + render_header_lines(
            m.drop_first(),
        )
    }
}

/// Rendering distributes over concatenation of header lists.
pub proof fn lemma_render_concat(a: Seq<(Seq<u8>, Seq<u8>)>, b: Seq<(Seq<u8>, Seq<u8>)>)
    ensures
        render_header_lines(a + b) == render_header_lines(a) + render_header_lines(b),
    decreases a.len(),
{
    if a.len() == 0 {
        assert(a + b =~= b);
        assert(Seq::<u8>::empty() + render_header_lines(b) =~= render_header_lines(b));
    } else {
        assert((a + b).drop_first() =~= a.drop_first() + b);
        lemma_render_concat(a.drop_first(), b);
        assert((a + b)[0] == a[0]);
        assert(a[0].0 + lit_colon_space() + a[0].1 + seq![13u8, 10u8] + (render_header_lines(
            a.drop_first(),
        ) + render_header_lines(b)) =~= (a[0].0 + lit_colon_space() + a[0].1 + seq![13u8, 10u8]
            + render_header_lines(a.drop_first())) + render_header_lines(b));
    }
}

/// The block the body announces: its content type and length, and its
/// disposition when it has one; nothing when it announces no type.
pub open spec fn spec_body_header_block(tm: Seq<u8>, len: nat, dm: Seq<u8>) -> Seq<u8> {
    if tm.len() > 0 {
        lit_content_type() + lit_colon_space() + tm + seq![13u8, 10u8] + lit_content_length()
            + lit_colon_space() + dec_digits(len) + seq![13u8, 10u8] + (if dm.len() > 0 {
            lit_content_disposition() + lit_colon_space() + dm + seq![13u8, 10u8]
        } else {
            Seq::empty()
        })
    } else {
        Seq::empty()
    }
}

/// A response under construction: status, header map and body source.
pub struct Response {
    pub status: Status,
    pub header: HeaderMap,
    pub body: ResponseBody,
}

impl Response {
    /// Structural soundness: unique header keys, sound body cursor.
    pub open spec fn wf(self) -> bool {
        &&& hm_wf(self.header@)
        &&& self.body.body_wf()
    }

    /// A response from its three parts.
    pub fn new(status: Status, header: HeaderMap, body: ResponseBody) -> (r: Response)
        requires
            hm_wf(header@),
            body.body_wf(),
        ensures
            r.wf(),
            r.status == status,
            r.header == header,
            r.body == body,
    {
        Response { status, header, body }
    }

    /// A fresh `200 OK` response with no headers and no body.
    pub fn build() -> (r: Response)
        ensures
            r.wf(),
            r.status == Status::OK,
            r.header@ == Seq::<(Seq<u8>, Seq<u8>)>::empty(),
            r.body matches ResponseBody::Empty(_),
    {
        Response { status: Status::OK, header: HeaderMap::new(), body: ResponseBody::Empty(NoneContent) }
    }

    /// A fresh error response with no headers and no body.
    pub fn build_error(status: Status) -> (r: Response)
        ensures
            r.wf(),
            r.status == status,
            r.header@ == Seq::<(Seq<u8>, Seq<u8>)>::empty(),
            r.body matches ResponseBody::Empty(_),
    {
        Response { status, header: HeaderMap::new(), body: ResponseBody::Empty(NoneContent) }
    }

    /// Replaces the status.
    pub fn set_status(&mut self, status: Status)
        ensures
            final(self).status == status,
            final(self).header == old(self).header,
            final(self).body == old(self).body,
    {
        self.status = status;
    }

    /// Replaces the whole header map.
    pub fn set_header(&mut self, header: HeaderMap)
        requires
            hm_wf(header@),
        ensures
            final(self).header == header,
            final(self).status == old(self).status,
            final(self).body == old(self).body,
    {
        self.header = header;
    }

    /// Stores one header, overwriting an earlier value under the same key.
    pub fn add_header(&mut self, key: &[u8], value: &[u8])
        requires
            old(self).wf(),
        ensures
            final(self).wf(),
            final(self).header@ == hm_insert(old(self).header@, key@, value@),
            final(self).status == old(self).status,
            final(self).body == old(self).body,
    {
        let k = crate::bstr::subrange_to_vec(key, 0, key.len());
        let v = crate::bstr::subrange_to_vec(value, 0, value.len());
        proof {
            assert(k@ =~= key@);
            assert(v@ =~= value@);
        }
        let mut h = HeaderMap::new();
        core::mem::swap(&mut h, &mut self.header);
        h.insert(k, v);
        self.header = h;
    }

    /// Replaces the body.
    pub fn set_body(&mut self, body: ResponseBody)
        requires
            body.body_wf(),
        ensures
            final(self).body == body,
            final(self).status == old(self).status,
            final(self).header == old(self).header,
    {
        self.body = body;
    }

    /// The status line, closed by one line break.
    pub fn get_status_line(&self) -> (r: Vec<u8>)
        ensures
            r@ == spec_status_line(self.status),
    {
        let mut out: Vec<u8> = Vec::new();
        let prefix = lit_status_prefix_bytes();
        crate::bstr::push_range(&mut out, prefix, 0, prefix.len());
        let code = usize_to_dec(self.status.code());
        crate::bstr::push_range(&mut out, code.as_slice(), 0, code.len());
        out.push(32u8);
        let reason = self.status.reason();
        crate::bstr::push_range(&mut out, reason, 0, reason.len());
        out.push(13u8);
        out.push(10u8);
        proof {
            assert(prefix@.subrange(0, prefix@.len() as int) =~= prefix@);
            assert(code@.subrange(0, code@.len() as int) =~= code@);
            assert(reason@.subrange(0, reason@.len() as int) =~= reason@);
            assert(out@ =~= spec_status_line(self.status));
        }
        out
    }

    /// All header bytes: the stored headers in map order, then the block
    /// the body announces, then the blank line that closes the header
    /// section.
    pub fn get_header(&self) -> (r: Vec<u8>)
        requires
            self.wf(),
        ensures
            r@ == render_header_lines(self.header@) + spec_body_header_block(
                self.body.type_model(),
                self.body.content_model().len(),
                self.body.disposition_model(),
            ) + seq![13u8, 10u8],
    {
        let mut out: Vec<u8> = Vec::new();
        let hlen = self.header.len();
        let mut i: usize = 0;
        proof {
            assert(self.header@.take(0) =~= Seq::<(Seq<u8>, Seq<u8>)>::empty());
            assert(out@ =~= render_header_lines(self.header@.take(0)));
        }
        while i < hlen
            invariant
                self.wf(),
                hlen == self.header@.len(),
                i <= hlen,
                out@ == render_header_lines(self.header@.take(i as int)),
            decreases hlen - i,
        {
            let key = self.header.key_at(i);
            crate::bstr::push_range(&mut out, key.as_slice(), 0, key.len());
            let cs = lit_colon_space_bytes();
            crate::bstr::push_range(&mut out, cs, 0, cs.len());
            let value = self.header.value_at(i);
            crate::bstr::push_range(&mut out, value.as_slice(), 0, value.len());
            out.push(13u8);
            out.push(10u8);
            proof {
                let m = self.header@;
                assert(key@.subrange(0, key@.len() as int) =~= key@);
                assert(cs@.subrange(0, cs@.len() as int) =~= cs@);
                assert(value@.subrange(0, value@.len() as int) =~= value@);
                assert(m.take(i + 1) =~= m.take(i as int) + seq![m[i as int]]);
                lemma_render_concat(m.take(i as int), seq![m[i as int]]);
                assert(seq![m[i as int]].drop_first() =~= Seq::<(Seq<u8>, Seq<u8>)>::empty());
                assert(render_header_lines(Seq::<(Seq<u8>, Seq<u8>)>::empty())
                    == Seq::<u8>::empty());
                assert(seq![m[i as int]][0] == m[i as int]);
                assert((m[i as int].0 + lit_colon_space() + m[i as int].1 + seq![13u8, 10u8])
                    + Seq::<u8>::empty() =~= m[i as int].0 + lit_colon_space() + m[i as int].1
                    + seq![13u8, 10u8]);
                assert(render_header_lines(seq![m[i as int]]) =~= m[i as int].0 + lit_colon_space()
                    + m[i as int].1 + seq![13u8, 10u8]);
                assert(out@ =~= render_header_lines(m.take(i + 1)));
            }
            i = i + 1;
        }
        proof {
            assert(self.header@.take(hlen as int) =~= self.header@);
        }
        let tm = self.body.get_content_type();
        if tm.len() > 0 {
            let ct = lit_content_type_bytes();
            crate::bstr::push_range(&mut out, ct, 0, ct.len());
            let cs = lit_colon_space_bytes();
            crate::bstr::push_range(&mut out, cs, 0, cs.len());
            crate::bstr::push_range(&mut out, tm.as_slice(), 0, tm.len());
            out.push(13u8);
            out.push(10u8);
            let cl = lit_content_length_bytes();
            crate::bstr::push_range(&mut out, cl, 0, cl.len());
            crate::bstr::push_range(&mut out, cs, 0, cs.len());
            let n = self.body.get_content_length();
            let digits = usize_to_dec(n);
            crate::bstr::push_range(&mut out, digits.as_slice(), 0, digits.len());
            out.push(13u8);
            out.push(10u8);
            let dm = self.body.get_content_disposition();
            if dm.len() > 0 {
                let cd = lit_content_disposition_bytes();
                crate::bstr::push_range(&mut out, cd, 0, cd.len());
                crate::bstr::push_range(&mut out, cs, 0, cs.len());
                crate::bstr::push_range(&mut out, dm.as_slice(), 0, dm.len());
                out.push(13u8);
                out.push(10u8);
            }
            proof {
                assert(out@ =~= render_header_lines(self.header@) + spec_body_header_block(
                    self.body.type_model(),
                    self.body.content_model().len(),
                    self.body.disposition_model(),
                ));
            }
        } else {
            proof {
                assert(out@ =~= render_header_lines(self.header@) + spec_body_header_block(
                    self.body.type_model(),
                    self.body.content_model().len(),
                    self.body.disposition_model(),
                ));
            }
        }
        out.push(13u8);
        out.push(10u8);
        proof {
            assert(out@ =~= render_header_lines(self.header@) + spec_body_header_block(
                self.body.type_model(),
                self.body.content_model().len(),
                self.body.disposition_model(),
            ) + seq![13u8, 10u8]);
        }
        out
    }
}

} // verus!
