//! ASCII literals that the protocol grammar fixes, each available both as a
//! specification-level byte sequence and as an executable byte slice proved
//! equal to it.

use vstd::prelude::*;
use vstd::string::StringSliceAdditionalSpecFns;

verus! {

/// Byte values of an ASCII character sequence.
pub open spec fn ascii_bytes(s: Seq<char>) -> Seq<u8> {
    Seq::new(s.len(), |i: int| s[i] as u8)
}

/// The bytes of `"text"`.
pub open spec fn lit_text() -> Seq<u8> {
    ascii_bytes("text"@)
}

/// Executable bytes of `"text"`.
pub fn lit_text_bytes() -> (r: &'static [u8])
    ensures
        r@ == lit_text(),
{
    let s: &str = "text";
    proof {
        reveal_strlit("text");
        assert(vstd::string::is_ascii(s));
        vstd::string::is_ascii_spec_bytes(s);
        assert(s.spec_bytes() =~= lit_text());
    }
    s.as_bytes()
}

/// The bytes of `"image"`.
pub open spec fn lit_image() -> Seq<u8> {
    ascii_bytes("image"@)
}

/// Executable bytes of `"image"`.
pub fn lit_image_bytes() -> (r: &'static [u8])
    ensures
        r@ == lit_image(),
{
    let s: &str = "image";
    proof {
        reveal_strlit("image");
        assert(vstd::string::is_ascii(s));
        vstd::string::is_ascii_spec_bytes(s);
        assert(s.spec_bytes() =~= lit_image());
    }
    s.as_bytes()
}

/// The bytes of `"audio"`.
pub open spec fn lit_audio() -> Seq<u8> {
    ascii_bytes("audio"@)
}

/// Executable bytes of `"audio"`.
pub fn lit_audio_bytes() -> (r: &'static [u8])
    ensures
        r@ == lit_audio(),
{
    let s: &str = "audio";
    proof {
        reveal_strlit("audio");
        assert(vstd::string::is_ascii(s));
        vstd::string::is_ascii_spec_bytes(s);
        assert(s.spec_bytes() =~= lit_audio());
    }
    s.as_bytes()
}

/// The bytes of `"video"`.
pub open spec fn lit_video() -> Seq<u8> {
    ascii_bytes("video"@)
}

/// Executable bytes of `"video"`.
pub fn lit_video_bytes() -> (r: &'static [u8])
    ensures
        r@ == lit_video(),
{
    let s: &str = "video";
    proof {
        reveal_strlit("video");
        assert(vstd::string::is_ascii(s));
        vstd::string::is_ascii_spec_bytes(s);
        assert(s.spec_bytes() =~= lit_video());
    }
    s.as_bytes()
}

/// The bytes of `"application"`.
pub open spec fn lit_application() -> Seq<u8> {
    ascii_bytes("application"@)
}

/// Executable bytes of `"application"`.
pub fn lit_application_bytes() -> (r: &'static [u8])
    ensures
        r@ == lit_application(),
{
    let s: &str = "application";
    proof {
        reveal_strlit("application");
        assert(vstd::string::is_ascii(s));
        vstd::string::is_ascii_spec_bytes(s);
        assert(s.spec_bytes() =~= lit_application());
    }
    s.as_bytes()
}

/// The bytes of `"boundary="`.
pub open spec fn lit_boundary_eq() -> Seq<u8> {
    ascii_bytes("boundary="@)
}

/// Executable bytes of `"boundary="`.
pub fn lit_boundary_eq_bytes() -> (r: &'static [u8])
    ensures
        r@ == lit_boundary_eq(),
{
    let s: &str = "boundary=";
    proof {
        reveal_strlit("boundary=");
        assert(vstd::string::is_ascii(s));
        vstd::string::is_ascii_spec_bytes(s);
        assert(s.spec_bytes() =~= lit_boundary_eq());
    }
    s.as_bytes()
}

/// The bytes of `"Content-Disposition"`.
pub open spec fn lit_content_disposition() -> Seq<u8> {
    ascii_bytes("Content-Disposition"@)
}

/// Executable bytes of `"Content-Disposition"`.
pub fn lit_content_disposition_bytes() -> (r: &'static [u8])
    ensures
        r@ == lit_content_disposition(),
{
    let s: &str = "Content-Disposition";
    proof {
        reveal_strlit("Content-Disposition");
        assert(vstd::string::is_ascii(s));
        vstd::string::is_ascii_spec_bytes(s);
        assert(s.spec_bytes() =~= lit_content_disposition());
    }
    s.as_bytes()
}

/// The bytes of `"Content-Type"`.
pub open spec fn lit_content_type() -> Seq<u8> {
    ascii_bytes("Content-Type"@)
}

/// Executable bytes of `"Content-Type"`.
pub fn lit_content_type_bytes() -> (r: &'static [u8])
    ensures
        r@ == lit_content_type(),
{
    let s: &str = "Content-Type";
    proof {
        reveal_strlit("Content-Type");
        assert(vstd::string::is_ascii(s));
        vstd::string::is_ascii_spec_bytes(s);
        assert(s.spec_bytes() =~= lit_content_type());
    }
    s.as_bytes()
}

/// The bytes of `"Content-Length"`.
pub open spec fn lit_content_length() -> Seq<u8> {
    ascii_bytes("Content-Length"@)
}

/// Executable bytes of `"Content-Length"`.
pub fn lit_content_length_bytes() -> (r: &'static [u8])
    ensures
        r@ == lit_content_length(),
{
    let s: &str = "Content-Length";
    proof {
        reveal_strlit("Content-Length");
        assert(vstd::string::is_ascii(s));
        vstd::string::is_ascii_spec_bytes(s);
        assert(s.spec_bytes() =~= lit_content_length());
    }
    s.as_bytes()
}

/// The bytes of `"GET"`.
pub open spec fn lit_get() -> Seq<u8> {
    ascii_bytes("GET"@)
}

/// Executable bytes of `"GET"`.
pub fn lit_get_bytes() -> (r: &'static [u8])
    ensures
        r@ == lit_get(),
{
    let s: &str = "GET";
    proof {
        reveal_strlit("GET");
        assert(vstd::string::is_ascii(s));
        vstd::string::is_ascii_spec_bytes(s);
        assert(s.spec_bytes() =~= lit_get());
    }
    s.as_bytes()
}

/// The bytes of `"POST"`.
pub open spec fn lit_post() -> Seq<u8> {
    ascii_bytes("POST"@)
}

/// Executable bytes of `"POST"`.
pub fn lit_post_bytes() -> (r: &'static [u8])
    ensures
        r@ == lit_post(),
{
    let s: &str = "POST";
    proof {
        reveal_strlit("POST");
        assert(vstd::string::is_ascii(s));
        vstd::string::is_ascii_spec_bytes(s);
        assert(s.spec_bytes() =~= lit_post());
    }
    s.as_bytes()
}

/// The bytes of `"PUT"`.
pub open spec fn lit_put() -> Seq<u8> {
    ascii_bytes("PUT"@)
}

/// Executable bytes of `"PUT"`.
pub fn lit_put_bytes() -> (r: &'static [u8])
    ensures
        r@ == lit_put(),
{
    let s: &str = "PUT";
    proof {
        reveal_strlit("PUT");
        assert(vstd::string::is_ascii(s));
        vstd::string::is_ascii_spec_bytes(s);
        assert(s.spec_bytes() =~= lit_put());
    }
    s.as_bytes()
}

/// The bytes of `"DELETE"`.
pub open spec fn lit_delete() -> Seq<u8> {
    ascii_bytes("DELETE"@)
}

/// Executable bytes of `"DELETE"`.
pub fn lit_delete_bytes() -> (r: &'static [u8])
    ensures
        r@ == lit_delete(),
{
    let s: &str = "DELETE";
    proof {
        reveal_strlit("DELETE");
        assert(vstd::string::is_ascii(s));
        vstd::string::is_ascii_spec_bytes(s);
        assert(s.spec_bytes() =~= lit_delete());
    }
    s.as_bytes()
}

/// The bytes of `"OPTIONS"`.
pub open spec fn lit_options() -> Seq<u8> {
    ascii_bytes("OPTIONS"@)
}

/// Executable bytes of `"OPTIONS"`.
pub fn lit_options_bytes() -> (r: &'static [u8])
    ensures
        r@ == lit_options(),
{
    let s: &str = "OPTIONS";
    proof {
        reveal_strlit("OPTIONS");
        assert(vstd::string::is_ascii(s));
        vstd::string::is_ascii_spec_bytes(s);
        assert(s.spec_bytes() =~= lit_options());
    }
    s.as_bytes()
}

/// The bytes of `"HEAD"`.
pub open spec fn lit_head() -> Seq<u8> {
    ascii_bytes("HEAD"@)
}

/// Executable bytes of `"HEAD"`.
pub fn lit_head_bytes() -> (r: &'static [u8])
    ensures
        r@ == lit_head(),
{
    let s: &str = "HEAD";
    proof {
        reveal_strlit("HEAD");
        assert(vstd::string::is_ascii(s));
        vstd::string::is_ascii_spec_bytes(s);
        assert(s.spec_bytes() =~= lit_head());
    }
    s.as_bytes()
}

/// The bytes of `"TRACE"`.
pub open spec fn lit_trace() -> Seq<u8> {
    ascii_bytes("TRACE"@)
}

/// Executable bytes of `"TRACE"`.
pub fn lit_trace_bytes() -> (r: &'static [u8])
    ensures
        r@ == lit_trace(),
{
    let s: &str = "TRACE";
    proof {
        reveal_strlit("TRACE");
        assert(vstd::string::is_ascii(s));
        vstd::string::is_ascii_spec_bytes(s);
        assert(s.spec_bytes() =~= lit_trace());
    }
    s.as_bytes()
}

/// The bytes of `"CONNECT"`.
pub open spec fn lit_connect() -> Seq<u8> {
    ascii_bytes("CONNECT"@)
}

/// Executable bytes of `"CONNECT"`.
pub fn lit_connect_bytes() -> (r: &'static [u8])
    ensures
        r@ == lit_connect(),
{
    let s: &str = "CONNECT";
    proof {
        reveal_strlit("CONNECT");
        assert(vstd::string::is_ascii(s));
        vstd::string::is_ascii_spec_bytes(s);
        assert(s.spec_bytes() =~= lit_connect());
    }
    s.as_bytes()
}

/// The bytes of `"HTTP/1.0"`.
pub open spec fn lit_http10() -> Seq<u8> {
    ascii_bytes("HTTP/1.0"@)
}

/// Executable bytes of `"HTTP/1.0"`.
pub fn lit_http10_bytes() -> (r: &'static [u8])
    ensures
        r@ == lit_http10(),
{
    let s: &str = "HTTP/1.0";
    proof {
        reveal_strlit("HTTP/1.0");
        assert(vstd::string::is_ascii(s));
        vstd::string::is_ascii_spec_bytes(s);
        assert(s.spec_bytes() =~= lit_http10());
    }
    s.as_bytes()
}

/// The bytes of `"HTTP/1.1"`.
pub open spec fn lit_http11() -> Seq<u8> {
    ascii_bytes("HTTP/1.1"@)
}

/// Executable bytes of `"HTTP/1.1"`.
pub fn lit_http11_bytes() -> (r: &'static [u8])
    ensures
        r@ == lit_http11(),
{
    let s: &str = "HTTP/1.1";
    proof {
        reveal_strlit("HTTP/1.1");
        assert(vstd::string::is_ascii(s));
        vstd::string::is_ascii_spec_bytes(s);
        assert(s.spec_bytes() =~= lit_http11());
    }
    s.as_bytes()
}

/// The bytes of `"HTTP/2"`.
pub open spec fn lit_http2() -> Seq<u8> {
    ascii_bytes("HTTP/2"@)
}

/// Executable bytes of `"HTTP/2"`.
pub fn lit_http2_bytes() -> (r: &'static [u8])
    ensures
        r@ == lit_http2(),
{
    let s: &str = "HTTP/2";
    proof {
        reveal_strlit("HTTP/2");
        assert(vstd::string::is_ascii(s));
        vstd::string::is_ascii_spec_bytes(s);
        assert(s.spec_bytes() =~= lit_http2());
    }
    s.as_bytes()
}

/// The bytes of `"HTTP/1.1 "`.
pub open spec fn lit_status_prefix() -> Seq<u8> {
    ascii_bytes("HTTP/1.1 "@)
}

/// Executable bytes of `"HTTP/1.1 "`.
pub fn lit_status_prefix_bytes() -> (r: &'static [u8])
    ensures
        r@ == lit_status_prefix(),
{
    let s: &str = "HTTP/1.1 ";
    proof {
        reveal_strlit("HTTP/1.1 ");
        assert(vstd::string::is_ascii(s));
        vstd::string::is_ascii_spec_bytes(s);
        assert(s.spec_bytes() =~= lit_status_prefix());
    }
    s.as_bytes()
}

/// The bytes of `"OK"`.
pub open spec fn lit_reason_ok() -> Seq<u8> {
    ascii_bytes("OK"@)
}

/// Executable bytes of `"OK"`.
pub fn lit_reason_ok_bytes() -> (r: &'static [u8])
    ensures
        r@ == lit_reason_ok(),
{
    let s: &str = "OK";
    proof {
        reveal_strlit("OK");
        assert(vstd::string::is_ascii(s));
        vstd::string::is_ascii_spec_bytes(s);
        assert(s.spec_bytes() =~= lit_reason_ok());
    }
    s.as_bytes()
}

/// The bytes of `"Bad Request"`.
pub open spec fn lit_reason_bad_request() -> Seq<u8> {
    ascii_bytes("Bad Request"@)
}

/// Executable bytes of `"Bad Request"`.
pub fn lit_reason_bad_request_bytes() -> (r: &'static [u8])
    ensures
        r@ == lit_reason_bad_request(),
{
    let s: &str = "Bad Request";
    proof {
        reveal_strlit("Bad Request");
        assert(vstd::string::is_ascii(s));
        vstd::string::is_ascii_spec_bytes(s);
        assert(s.spec_bytes() =~= lit_reason_bad_request());
    }
    s.as_bytes()
}

/// The bytes of `"Not Found"`.
pub open spec fn lit_reason_not_found() -> Seq<u8> {
    ascii_bytes("Not Found"@)
}

/// Executable bytes of `"Not Found"`.
pub fn lit_reason_not_found_bytes() -> (r: &'static [u8])
    ensures
        r@ == lit_reason_not_found(),
{
    let s: &str = "Not Found";
    proof {
        reveal_strlit("Not Found");
        assert(vstd::string::is_ascii(s));
        vstd::string::is_ascii_spec_bytes(s);
        assert(s.spec_bytes() =~= lit_reason_not_found());
    }
    s.as_bytes()
}

/// The bytes of `"Method Not Allowed"`.
pub open spec fn lit_reason_method_not_allowed() -> Seq<u8> {
    ascii_bytes("Method Not Allowed"@)
}

/// Executable bytes of `"Method Not Allowed"`.
pub fn lit_reason_method_not_allowed_bytes() -> (r: &'static [u8])
    ensures
        r@ == lit_reason_method_not_allowed(),
{
    let s: &str = "Method Not Allowed";
    proof {
        reveal_strlit("Method Not Allowed");
        assert(vstd::string::is_ascii(s));
        vstd::string::is_ascii_spec_bytes(s);
        assert(s.spec_bytes() =~= lit_reason_method_not_allowed());
    }
    s.as_bytes()
}

/// The bytes of `"Internal Server Error"`.
pub open spec fn lit_reason_internal_error() -> Seq<u8> {
    ascii_bytes("Internal Server Error"@)
}

/// Executable bytes of `"Internal Server Error"`.
pub fn lit_reason_internal_error_bytes() -> (r: &'static [u8])
    ensures
        r@ == lit_reason_internal_error(),
{
    let s: &str = "Internal Server Error";
    proof {
        reveal_strlit("Internal Server Error");
        assert(vstd::string::is_ascii(s));
        vstd::string::is_ascii_spec_bytes(s);
        assert(s.spec_bytes() =~= lit_reason_internal_error());
    }
    s.as_bytes()
}

/// The bytes of `"application/json"`.
pub open spec fn lit_application_json() -> Seq<u8> {
    ascii_bytes("application/json"@)
}

/// Executable bytes of `"application/json"`.
pub fn lit_application_json_bytes() -> (r: &'static [u8])
    ensures
        r@ == lit_application_json(),
{
    let s: &str = "application/json";
    proof {
        reveal_strlit("application/json");
        assert(vstd::string::is_ascii(s));
        vstd::string::is_ascii_spec_bytes(s);
        assert(s.spec_bytes() =~= lit_application_json());
    }
    s.as_bytes()
}

/// The bytes of `": "`.
pub open spec fn lit_colon_space() -> Seq<u8> {
    ascii_bytes(": "@)
}

/// Executable bytes of `": "`.
pub fn lit_colon_space_bytes() -> (r: &'static [u8])
    ensures
        r@ == lit_colon_space(),
{
    let s: &str = ": ";
    proof {
        reveal_strlit(": ");
        assert(vstd::string::is_ascii(s));
        vstd::string::is_ascii_spec_bytes(s);
        assert(s.spec_bytes() =~= lit_colon_space());
    }
    s.as_bytes()
}

} // verus!
