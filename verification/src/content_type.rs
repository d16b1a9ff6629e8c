//! Classification of a `Content-Type` header value into a tagged variant
//! carrying the subtype and, for multipart types, the negotiated boundary.

use vstd::prelude::*;
use crate::bstr::{
    find_first, find_sub, trim_spec, find_byte, find_sub_bytes, trim, starts_with,
    lemma_find_first_is, lemma_find_first_none,
};
use crate::lit::{
    lit_text, lit_image, lit_audio, lit_video, lit_application, lit_boundary_eq, lit_text_bytes,
    lit_image_bytes, lit_audio_bytes, lit_video_bytes, lit_application_bytes,
    lit_boundary_eq_bytes,
};

verus! {

/// Tagged content type of a request or of one multipart part.
#[derive(Debug)]
pub enum ContentType {
    Text(Vec<u8>),
    Image(Vec<u8>),
    Audio(Vec<u8>),
    Video(Vec<u8>),
    Application(Vec<u8>),
    MultiPart { sub_type: Vec<u8>, boundary: Vec<u8> },
    NoneType,
}

/// The segment of a `Content-Type` value before its first `;`, or the whole
/// value when it has none.
pub open spec fn ct_head(s: Seq<u8>) -> Seq<u8> {
    match find_first(s, 59u8) {
        Some(i) => s.take(i),
        None => s,
    }
}

/// The subtype: the segment of the head between the first `/` and the next
/// `/` or the head's end, trimmed; empty when the head has no `/`.
pub open spec fn spec_subtype(s: Seq<u8>) -> Seq<u8> {
    let head = ct_head(s);
    match find_first(head, 47u8) {
        Some(i) => {
            let after = head.skip(i + 1);
            match find_first(after, 47u8) {
                Some(j) => trim_spec(after.take(j)),
                None => trim_spec(after),
            }
        }
        None => Seq::empty(),
    }
}

/// The boundary parameter: everything after the first `boundary=`, trimmed;
/// looked for only when the value has a `;`, empty otherwise.
pub open spec fn spec_boundary(s: Seq<u8>) -> Seq<u8> {
    if find_first(s, 59u8) is Some {
        match find_sub(s, lit_boundary_eq()) {
            Some(i) => trim_spec(s.skip(i + lit_boundary_eq().len() as int)),
            None => Seq::empty(),
        }
    } else {
        Seq::empty()
    }
}

/// What `ContentType::parse` returns on input `s`: the first matching prefix
/// among the five primary types decides the variant; otherwise a non-empty
/// boundary parameter makes the value multipart; otherwise it is unclassified.
pub open spec fn ct_ok(r: ContentType, s: Seq<u8>) -> bool {
    if s.len() == 0 {
        r matches ContentType::NoneType
    } else if lit_text().is_prefix_of(s) {
        r matches ContentType::Text(sub) && sub@ == spec_subtype(s)
    } else if lit_image().is_prefix_of(s) {
        r matches ContentType::Image(sub) && sub@ == spec_subtype(s)
    } else if lit_audio().is_prefix_of(s) {
        r matches ContentType::Audio(sub) && sub@ == spec_subtype(s)
    } else if lit_video().is_prefix_of(s) {
        r matches ContentType::Video(sub) && sub@ == spec_subtype(s)
    } else if lit_application().is_prefix_of(s) {
        r matches ContentType::Application(sub) && sub@ == spec_subtype(s)
    } else if spec_boundary(s).len() > 0 {
        r matches ContentType::MultiPart { sub_type, boundary } && sub_type@ == spec_subtype(s)
            && boundary@ == spec_boundary(s)
    } else {
        r matches ContentType::NoneType
    }
}

impl ContentType {
    /// Classifies a `Content-Type` header value.
    pub fn parse(content_type: &[u8]) -> (r: ContentType)
        ensures
            ct_ok(r, content_type@),
    {
        let n = content_type.len();
        if n == 0 {
            return ContentType::NoneType;
        }
        let head_end = match find_byte(content_type, 59u8, 0) {
            Some(i) => {
                proof {
                    lemma_find_first_is(content_type@, 59u8, i as int);
                }
                i
            }
            None => {
                proof {
                    lemma_find_first_none(content_type@, 59u8);
                    assert(content_type@.take(n as int) =~= content_type@);
                }
                n
            }
        };
        proof {
            assert(ct_head(content_type@) == content_type@.take(head_end as int));
        }
        let head = vstd::slice::slice_subrange(content_type, 0, head_end);
        proof {
            assert(head@ =~= ct_head(content_type@));
        }
        let sub_type: Vec<u8> = match find_byte(head, 47u8, 0) {
            Some(i) => {
                proof {
                    lemma_find_first_is(head@, 47u8, i as int);
                }
                let after = vstd::slice::slice_subrange(head, i + 1, head_end);
                proof {
                    assert(after@ =~= head@.skip(i + 1));
                }
                match find_byte(after, 47u8, 0) {
                    Some(j) => {
                        proof {
                            lemma_find_first_is(after@, 47u8, j as int);
                        }
                        let piece = vstd::slice::slice_subrange(after, 0, j);
                        proof {
                            assert(piece@ =~= head@.skip(i + 1).take(j as int));
                        }
                        trim(piece)
                    }
                    None => {
                        proof {
                            lemma_find_first_none(after@, 47u8);
                        }
                        trim(after)
                    }
                }
            }
            None => {
                proof {
                    lemma_find_first_none(head@, 47u8);
                }
                Vec::new()
            }
        };
        proof {
            assert(sub_type@ == spec_subtype(content_type@));
        }
        let mut boundary: Vec<u8> = Vec::new();
        if head_end < n {
            match find_sub_bytes(content_type, lit_boundary_eq_bytes()) {
                Some(i) => {
                    let from = i + lit_boundary_eq_bytes().len();
                    let piece = vstd::slice::slice_subrange(content_type, from, n);
                    proof {
                        assert(piece@ =~= content_type@.skip(
                            i + lit_boundary_eq().len() as int,
                        ));
                    }
                    boundary = trim(piece);
                }
                None => {}
            }
        }
        proof {
            assert(boundary@ == spec_boundary(content_type@));
        }
        if starts_with(content_type, lit_text_bytes()) {
            ContentType::Text(sub_type)
        } else if starts_with(content_type, lit_image_bytes()) {
            ContentType::Image(sub_type)
        } else if starts_with(content_type, lit_audio_bytes()) {
            ContentType::Audio(sub_type)
        } else if starts_with(content_type, lit_video_bytes()) {
            ContentType::Video(sub_type)
        } else if starts_with(content_type, lit_application_bytes()) {
            ContentType::Application(sub_type)
        } else if boundary.len() > 0 {
            ContentType::MultiPart { sub_type, boundary }
        } else {
            ContentType::NoneType
        }
    }
}

} // verus!
