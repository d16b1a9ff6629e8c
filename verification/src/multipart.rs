//! Incremental multipart/form-data decoder. The decoder consumes a body
//! delivered in arbitrarily sized chunks, delimits one part at a time with
//! the negotiated boundary, and streams each part's body while carrying a
//! delimiter candidate that straddles two chunks across calls.

use vstd::prelude::*;
use crate::bstr::{
    match_at, partial_at, prefix_match_at, find_sub, find_first, trim_spec, chomp_cr,
    lemma_find_sub_is, lemma_find_sub_none, lemma_prefix_match_extend, lemma_match_in_prefix,
    push_range, subrange_to_vec,
};
use crate::content_type::{ContentType, ct_ok};
use crate::multimap::MultiMap;
use crate::ProtocolError;

verus! {

/// One section of a multipart body: its disposition line's value, its own
/// content type if it declared one, and its body bytes.
pub struct Part {
    /// Everything after the first `;` of the `Content-Disposition` line,
    /// trimmed.
    pub disposition: Vec<u8>,
    /// Parameters of the disposition; this decoder hands the raw
    /// disposition out instead of splitting it, so the map stays empty.
    pub disposition_params: MultiMap,
    /// The part's own declared content type, or the unclassified variant.
    pub content_type: ContentType,
    /// The body bytes collected for this part.
    pub body: Vec<u8>,
}

impl Part {
    /// An empty part.
    pub fn new() -> (r: Part)
        ensures
            r.disposition@ == Seq::<u8>::empty(),
            r.disposition_params@ == Seq::<(Seq<u8>, Seq<Seq<u8>>)>::empty(),
            r.body@ == Seq::<u8>::empty(),
            r.content_type matches ContentType::NoneType,
    {
        Part {
            disposition: Vec::new(),
            disposition_params: MultiMap::new(),
            content_type: ContentType::NoneType,
            body: Vec::new(),
        }
    }
}

/// What a scan of the available bytes for the delimiter found.
pub enum ScanHit {
    /// The delimiter occurs in full, first at this index.
    Full(usize),
    /// A proper prefix of the delimiter runs into the end of the data,
    /// first at this index; nothing earlier matches at all.
    Partial(usize),
    /// No position even begins to match the delimiter.
    Miss,
}

/// Finds the first position where `pat` occurs in `data`, or where a prefix
/// of `pat` runs into the end of `data` and so might still become an
/// occurrence once more bytes arrive.
pub fn scan_delim(data: &[u8], pat: &[u8]) -> (r: ScanHit)
    requires
        pat@.len() >= 1,
    ensures
        match r {
            ScanHit::Full(i) => match_at(data@, pat@, i as int) && i + pat@.len() <= data@.len()
                && forall|j: int| 0 <= j < i ==> !prefix_match_at(data@, pat@, j),
            ScanHit::Partial(p) => partial_at(data@, pat@, p as int) && forall|j: int|
                0 <= j < p ==> !prefix_match_at(data@, pat@, j),
            ScanHit::Miss => forall|j: int| 0 <= j ==> !prefix_match_at(data@, pat@, j),
        },
{
    let n = data.len();
    let mut i: usize = 0;
    while i < n
        invariant
            n == data@.len(),
            pat@.len() >= 1,
            i <= n,
            forall|j: int| 0 <= j < i ==> !prefix_match_at(data@, pat@, j),
        decreases n - i,
    {
        let mut k: usize = 0;
        let mut hit = true;
        while hit && k < pat.len() && i + k < n
            invariant
                n == data@.len(),
                pat@.len() >= 1,
                i < n,
                k <= pat@.len(),
                i + k <= n,
                hit ==> data@.subrange(i as int, i + k) =~= pat@.subrange(0, k as int),
                !hit ==> !prefix_match_at(data@, pat@, i as int),
            decreases pat@.len() - k,
        {
            if data[i + k] != pat[k] {
                hit = false;
                proof {
                    if prefix_match_at(data@, pat@, i as int) {
                        let m = if i + pat@.len() <= data@.len() {
                            pat@.len() as int
                        } else {
                            data@.len() - i
                        };
                        assert(data@.subrange(i as int, i + m)[k as int] == data@[i + k]);
                        assert(pat@.take(m)[k as int] == pat@[k as int]);
                    }
                }
            } else {
                proof {
                    assert(data@.subrange(i as int, i + k + 1) =~= data@.subrange(
                        i as int,
                        i + k,
                    ).push(data@[i + k]));
                    assert(pat@.subrange(0, k + 1) =~= pat@.subrange(0, k as int).push(
                        pat@[k as int],
                    ));
                }
            }
            k = k + 1;
        }
        if hit {
            if k == pat.len() {
                proof {
                    assert(pat@.subrange(0, pat@.len() as int) =~= pat@);
                    assert(match_at(data@, pat@, i as int));
                }
                return ScanHit::Full(i);
            }
            // the data ran out first: a live candidate
            proof {
                assert(i + k == n);
                assert(data@.subrange(i as int, n as int) =~= pat@.subrange(0, k as int));
                assert(pat@.take(n - i) =~= pat@.subrange(0, k as int));
                assert(partial_at(data@, pat@, i as int));
            }
            return ScanHit::Partial(i);
        }
        i = i + 1;
    }
    ScanHit::Miss
}


/// A line split off at the first line feed: the line without it, and the
/// rest after it.
pub open spec fn take_line(s: Seq<u8>) -> Option<(Seq<u8>, Seq<u8>)> {
    match find_first(s, 10u8) {
        Some(i) => Some((s.take(i), s.skip(i + 1))),
        None => None,
    }
}

/// The disposition value: everything after the line's first `;`, trimmed.
pub open spec fn disp_of(l: Seq<u8>) -> Seq<u8> {
    match find_first(l, 59u8) {
        Some(i) => trim_spec(l.skip(i + 1)),
        None => Seq::empty(),
    }
}

/// A header line's value: everything after its first `:`, trimmed.
pub open spec fn header_value_of(l: Seq<u8>) -> Seq<u8> {
    match find_first(l, 58u8) {
        Some(i) => trim_spec(l.skip(i + 1)),
        None => Seq::empty(),
    }
}

/// What scanning the carry-over for one part header block yields.
pub enum PartScan {
    /// The three logical lines are not all available yet.
    Incomplete,
    /// The boundary line is the terminal marker: no more parts.
    End,
    /// The boundary line matches neither boundary form.
    BadBoundary,
    /// The second line does not announce a content disposition, or the
    /// third is neither a content type nor empty.
    BadHeader,
    /// A complete part header: its disposition, its declared content-type
    /// value if any, and the bytes after the header block.
    Found { disposition: Seq<u8>, ct_src: Option<Seq<u8>>, rest: Seq<u8> },
}

/// Scans `data` for one part header block against `db`, the `--boundary`
/// line: the boundary line, the `Content-Disposition` line, then either a
/// `Content-Type` line followed by a blank separator line, or a single
/// empty line.
pub open spec fn scan_part_header(data: Seq<u8>, db: Seq<u8>) -> PartScan {
    match take_line(data) {
        None => if chomp_cr(data) == db + seq![45u8, 45u8] {
            PartScan::End
        } else {
            PartScan::Incomplete
        },
        Some((l1, r1)) => {
            let b = chomp_cr(l1);
            if b == db + seq![45u8, 45u8] {
                PartScan::End
            } else if b != db {
                PartScan::BadBoundary
            } else {
                match take_line(r1) {
                    None => PartScan::Incomplete,
                    Some((l2, r2)) => {
                        let d = chomp_cr(l2);
                        if !crate::lit::lit_content_disposition().is_prefix_of(d) {
                            PartScan::BadHeader
                        } else {
                            match take_line(r2) {
                                None => PartScan::Incomplete,
                                Some((l3, r3)) => {
                                    let t = chomp_cr(l3);
                                    if crate::lit::lit_content_type().is_prefix_of(t) {
                                        match take_line(r3) {
                                            None => PartScan::Incomplete,
                                            Some((l4, r4)) => PartScan::Found {
                                                disposition: disp_of(d),
                                                ct_src: Some(header_value_of(t)),
                                                rest: r4,
                                            },
                                        }
                                    } else if t.len() == 0 {
                                        PartScan::Found {
                                            disposition: disp_of(d),
                                            ct_src: None,
                                            rest: r3,
                                        }
                                    } else {
                                        PartScan::BadHeader
                                    }
                                },
                            }
                        }
                    },
                }
            }
        },
    }
}

/// What one attempt to decode the next part header yields.
pub enum NextOutcome {
    /// A part header was decoded into `current_part`.
    Found,
    /// The terminal marker was seen: no more parts.
    End,
    /// More bytes must be supplied before the header can be decided.
    NeedMore,
    /// The declared length is exhausted with no further part available.
    Exhausted,
    /// The bytes do not form a valid part header.
    Malformed(ProtocolError),
}


/// End of the line that a line feed at `nl` closes, with one trailing
/// carriage return dropped.
fn chomped_end(data: &[u8], from: usize, nl: usize) -> (le: usize)
    requires
        from <= nl < data@.len(),
    ensures
        from <= le <= nl,
        chomp_cr(data@.subrange(from as int, nl as int)) == data@.subrange(from as int, le as int),
{
    let ghost l = data@.subrange(from as int, nl as int);
    if nl > from && data[nl - 1] == 13u8 {
        proof {
            assert(l.last() == data@[nl - 1]);
            assert(l.drop_last() =~= data@.subrange(from as int, nl - 1));
        }
        nl - 1
    } else {
        proof {
            if nl > from {
                assert(l.last() == data@[nl - 1]);
            }
        }
        nl
    }
}

/// One step of streaming a part's body.
pub enum BodyStep {
    /// The part's body is complete (its closing delimiter was found, or the
    /// declared length ran out): these are its bytes.
    Done(Vec<u8>),
    /// More bytes must be supplied before the delimiter can be decided.
    NeedMore,
}


/// How `supply` moves the decoder: it accepts the longest chunk prefix the
/// declared length still allows, appends it to the carry-over, counts it as
/// read, and touches nothing else. Reads therefore never pass the declared
/// length.
pub open spec fn supply_transition(
    pre: MultiPart,
    post: MultiPart,
    chunk: Seq<u8>,
    accepted: int,
) -> bool {
    &&& accepted == if chunk.len() <= pre.content_length - pre.bytes_read {
        chunk.len() as int
    } else {
        pre.content_length - pre.bytes_read
    }
    &&& post.bytes_read == pre.bytes_read + accepted
    &&& post.remaining_bytes@ == pre.remaining_bytes@ + chunk.take(accepted)
    &&& post.bytes_read <= post.content_length
    &&& post.body_acc == pre.body_acc
    &&& post.is_end == pre.is_end
    &&& post.content_length == pre.content_length
    &&& post.current_part == pre.current_part
    &&& post.nl_dash_boundary == pre.nl_dash_boundary
    &&& post.dash_boundary_dash == pre.dash_boundary_dash
    &&& post.dash_boundary == pre.dash_boundary
}

/// How `body` moves the decoder; `r` is the step's outcome. A finished
/// body never contains a delimiter occurrence; the end flag turns on
/// exactly when the bytes after the delimiter are the terminal marker.
pub open spec fn body_transition(pre: MultiPart, post: MultiPart, r: BodyStep) -> bool {
    &&& post.bytes_read == pre.bytes_read
    &&& post.content_length == pre.content_length
    &&& post.current_part == pre.current_part
    &&& post.nl_dash_boundary == pre.nl_dash_boundary
    &&& post.dash_boundary_dash == pre.dash_boundary_dash
    &&& post.dash_boundary == pre.dash_boundary
    &&& match r {
        BodyStep::Done(b) => {
            &&& post.body_acc@.len() == 0
            &&& (forall|j: int| 0 <= j ==> !match_at(b@, pre.nl_dash_boundary@, j))
            &&& match find_sub(pre.remaining_bytes@, pre.nl_dash_boundary@) {
                Some(i) => {
                    &&& b@ == pre.body_acc@ + pre.remaining_bytes@.take(i)
                    &&& post.remaining_bytes@ == pre.remaining_bytes@.skip(i + 2)
                    &&& post.is_end == (pre.is_end || post.remaining_bytes@
                        == pre.dash_boundary_dash@)
                },
                None => {
                    &&& pre.bytes_read >= pre.content_length
                    &&& b@ == pre.body_acc@ + pre.remaining_bytes@
                    &&& post.remaining_bytes@ == Seq::<u8>::empty()
                    &&& post.is_end == pre.is_end
                },
            }
        },
        BodyStep::NeedMore => {
            &&& find_sub(pre.remaining_bytes@, pre.nl_dash_boundary@) is None
            &&& pre.bytes_read < pre.content_length
            &&& post.body_acc@ + post.remaining_bytes@ == pre.body_acc@ + pre.remaining_bytes@
            &&& post.remaining_bytes@.len() < pre.nl_dash_boundary@.len()
            &&& post.is_end == pre.is_end
        },
    }
}

/// How `next` moves the decoder; `r` is the attempt's outcome. Once the
/// end flag is on it stays on and nothing else happens; otherwise the
/// outcome follows the part-header scan of the carry-over, and the flag
/// turns on exactly when the scan sees the terminal marker.
pub open spec fn next_transition(pre: MultiPart, post: MultiPart, r: NextOutcome) -> bool {
    &&& post.body_acc@.len() == pre.body_acc@.len()
    &&& post.bytes_read == pre.bytes_read
    &&& post.content_length == pre.content_length
    &&& post.nl_dash_boundary == pre.nl_dash_boundary
    &&& post.dash_boundary_dash == pre.dash_boundary_dash
    &&& post.dash_boundary == pre.dash_boundary
    &&& pre.is_end ==> ((r matches NextOutcome::End) && post == pre)
    &&& !pre.is_end ==> match scan_part_header(pre.remaining_bytes@, pre.dash_boundary@) {
        PartScan::Incomplete => post == pre && (if pre.bytes_read >= pre.content_length {
            r matches NextOutcome::Exhausted
        } else {
            r matches NextOutcome::NeedMore
        }),
        PartScan::End => (r matches NextOutcome::End) && post.is_end && post.remaining_bytes
            == pre.remaining_bytes && post.current_part == pre.current_part,
        PartScan::BadBoundary => (r matches NextOutcome::Malformed(e) && e
            == ProtocolError::MalformedBoundary) && post == pre,
        PartScan::BadHeader => (r matches NextOutcome::Malformed(e) && e
            == ProtocolError::MalformedDisposition) && post == pre,
        PartScan::Found { disposition, ct_src, rest } => (r matches NextOutcome::Found)
            && post.current_part.disposition@ == disposition && post.current_part.body@
            == Seq::<u8>::empty() && (match ct_src {
            Some(src) => ct_ok(post.current_part.content_type, src),
            None => post.current_part.content_type matches ContentType::NoneType,
        }) && post.remaining_bytes@ == rest && post.is_end == pre.is_end,
    }
}

/// Incremental decoder over one multipart body.
pub struct MultiPart {
    /// Declared length of the whole multipart body: the read ceiling.
    pub content_length: usize,
    /// The part whose header block was decoded last.
    pub current_part: Part,
    /// Bytes accepted from the connection so far.
    pub bytes_read: usize,
    /// Carry-over: bytes consumed from the connection but not yet attributed
    /// to a part header or body.
    pub remaining_bytes: Vec<u8>,
    /// Confirmed bytes of the part body being streamed.
    pub body_acc: Vec<u8>,
    /// Whether the terminal `--boundary--` marker was seen.
    pub is_end: bool,
    /// `\r\n--boundary`: the delimiter preceding every part after the first.
    pub nl_dash_boundary: Vec<u8>,
    /// `--boundary--`: the terminal marker.
    pub dash_boundary_dash: Vec<u8>,
    /// `--boundary`: the line that opens every part.
    pub dash_boundary: Vec<u8>,
}

impl MultiPart {
    /// Structural soundness: the three boundary sequences agree, reads stay
    /// under the declared length, and no confirmed body byte can still grow
    /// into a delimiter occurrence.
    pub open spec fn wf(self) -> bool {
        &&& self.bytes_read <= self.content_length
        &&& self.nl_dash_boundary@ == seq![13u8, 10u8] + self.dash_boundary@
        &&& self.dash_boundary_dash@ == self.dash_boundary@ + seq![45u8, 45u8]
        &&& self.dash_boundary@.len() >= 2
        &&& forall|i: int|
            0 <= i < self.body_acc@.len() ==> !prefix_match_at(
                self.body_acc@ + self.remaining_bytes@,
                self.nl_dash_boundary@,
                i,
            )
    }

    /// Builds a decoder for `boundary` over a body of `content_length` bytes.
    pub fn new(boundary: &[u8], content_length: usize) -> (r: MultiPart)
        ensures
            r.wf(),
            r.content_length == content_length,
            r.bytes_read == 0,
            r.remaining_bytes@ == Seq::<u8>::empty(),
            r.body_acc@ == Seq::<u8>::empty(),
            !r.is_end,
            r.dash_boundary@ == seq![45u8, 45u8] + boundary@,
            r.nl_dash_boundary@ == seq![13u8, 10u8] + r.dash_boundary@,
            r.dash_boundary_dash@ == r.dash_boundary@ + seq![45u8, 45u8],
            r.current_part.body@ == Seq::<u8>::empty(),
    {
        let blen = boundary.len();
        let mut dash_boundary: Vec<u8> = Vec::new();
        dash_boundary.push(45u8);
        dash_boundary.push(45u8);
        push_range(&mut dash_boundary, boundary, 0, blen);
        proof {
            assert(boundary@.subrange(0, blen as int) =~= boundary@);
            assert(dash_boundary@ =~= seq![45u8, 45u8] + boundary@);
        }
        let mut nl_dash_boundary: Vec<u8> = Vec::new();
        nl_dash_boundary.push(13u8);
        nl_dash_boundary.push(10u8);
        push_range(&mut nl_dash_boundary, dash_boundary.as_slice(), 0, dash_boundary.len());
        proof {
            assert(dash_boundary@.subrange(0, dash_boundary@.len() as int) =~= dash_boundary@);
            assert(nl_dash_boundary@ =~= seq![13u8, 10u8] + dash_boundary@);
        }
        let mut dash_boundary_dash: Vec<u8> = Vec::new();
        push_range(&mut dash_boundary_dash, dash_boundary.as_slice(), 0, dash_boundary.len());
        dash_boundary_dash.push(45u8);
        dash_boundary_dash.push(45u8);
        proof {
            assert(dash_boundary_dash@ =~= dash_boundary@ + seq![45u8, 45u8]);
        }
        MultiPart {
            content_length,
            current_part: Part::new(),
            bytes_read: 0,
            remaining_bytes: Vec::new(),
            body_acc: Vec::new(),
            is_end: false,
            nl_dash_boundary,
            dash_boundary_dash,
            dash_boundary,
        }
    }

    /// How many more bytes the decoder may accept before the declared
    /// length is exhausted.
    pub fn read_budget(&self) -> (r: usize)
        requires
            self.wf(),
        ensures
            r == self.content_length - self.bytes_read,
    {
        self.content_length - self.bytes_read
    }

    /// Accepts freshly read bytes into the carry-over buffer, never taking
    /// more than the declared length allows; returns how many were taken.
    pub fn supply(&mut self, chunk: &[u8]) -> (accepted: usize)
        requires
            old(self).wf(),
        ensures
            final(self).wf(),
            supply_transition(*old(self), *final(self), chunk@, accepted as int),
    {
        let budget = self.content_length - self.bytes_read;
        let take_n = if chunk.len() < budget {
            chunk.len()
        } else {
            budget
        };
        let ghost acc0 = self.body_acc@;
        let ghost rem0 = self.remaining_bytes@;
        let ghost pat = self.nl_dash_boundary@;
        push_range(&mut self.remaining_bytes, chunk, 0, take_n);
        self.bytes_read = self.bytes_read + take_n;
        proof {
            assert(chunk@.subrange(0, take_n as int) =~= chunk@.take(take_n as int));
            assert((acc0 + rem0) + chunk@.take(take_n as int) =~= acc0
                + self.remaining_bytes@);
            assert forall|i: int| 0 <= i < acc0.len() implies !prefix_match_at(
                acc0 + self.remaining_bytes@,
                pat,
                i,
            ) by {
                lemma_prefix_match_extend(acc0 + rem0, chunk@.take(take_n as int), pat, i);
            }
        }
        take_n
    }

    /// Moves the first `upto` carry-over bytes, none of which can still
    /// grow into a delimiter occurrence, into the confirmed body.
    fn confirm_prefix(&mut self, upto: usize)
        requires
            old(self).wf(),
            upto <= old(self).remaining_bytes@.len(),
            forall|j: int|
                0 <= j < upto ==> !prefix_match_at(
                    old(self).remaining_bytes@,
                    old(self).nl_dash_boundary@,
                    j,
                ),
        ensures
            final(self).wf(),
            final(self).body_acc@ == old(self).body_acc@ + old(self).remaining_bytes@.take(
                upto as int,
            ),
            final(self).remaining_bytes@ == old(self).remaining_bytes@.skip(upto as int),
            final(self).bytes_read == old(self).bytes_read,
            final(self).content_length == old(self).content_length,
            final(self).current_part == old(self).current_part,
            final(self).is_end == old(self).is_end,
            final(self).nl_dash_boundary == old(self).nl_dash_boundary,
            final(self).dash_boundary_dash == old(self).dash_boundary_dash,
            final(self).dash_boundary == old(self).dash_boundary,
    {
        let ghost acc0 = self.body_acc@;
        let ghost rem0 = self.remaining_bytes@;
        let ghost pat = self.nl_dash_boundary@;
        let rlen = self.remaining_bytes.len();
        push_range(&mut self.body_acc, self.remaining_bytes.as_slice(), 0, upto);
        let new_rem = subrange_to_vec(self.remaining_bytes.as_slice(), upto, rlen);
        self.remaining_bytes = new_rem;
        proof {
            assert(rem0.subrange(0, upto as int) =~= rem0.take(upto as int));
            assert(rem0.subrange(upto as int, rlen as int) =~= rem0.skip(upto as int));
            assert(self.body_acc@ + self.remaining_bytes@ =~= acc0 + rem0);
            assert forall|i: int|
                0 <= i < self.body_acc@.len() implies !prefix_match_at(
                self.body_acc@ + self.remaining_bytes@,
                pat,
                i,
            ) by {
                if i < acc0.len() {
                    assert(!prefix_match_at(acc0 + rem0, pat, i));
                } else {
                    let j = i - acc0.len();
                    assert(!prefix_match_at(rem0, pat, j));
                    if prefix_match_at(acc0 + rem0, pat, i) {
                        let t = acc0 + rem0;
                        let m = if i + pat.len() <= t.len() {
                            pat.len() as int
                        } else {
                            t.len() - i
                        };
                        assert(rem0.subrange(j, j + m) =~= t.subrange(i, i + m));
                        assert(prefix_match_at(rem0, pat, j));
                    }
                }
            }
        }
    }

    /// Hands out everything still held — confirmed bytes and carry-over —
    /// as the (possibly truncated) end of the current part's body. Callable
    /// only when the carry-over holds no full delimiter occurrence; the
    /// handed-out bytes then contain none either.
    fn flush_all(&mut self) -> (out: Vec<u8>)
        requires
            old(self).wf(),
            forall|j: int|
                0 <= j ==> !match_at(old(self).remaining_bytes@, old(self).nl_dash_boundary@, j),
        ensures
            final(self).wf(),
            out@ == old(self).body_acc@ + old(self).remaining_bytes@,
            forall|j: int| 0 <= j ==> !match_at(out@, old(self).nl_dash_boundary@, j),
            final(self).body_acc@.len() == 0,
            final(self).remaining_bytes@ == Seq::<u8>::empty(),
            final(self).bytes_read == old(self).bytes_read,
            final(self).content_length == old(self).content_length,
            final(self).current_part == old(self).current_part,
            final(self).is_end == old(self).is_end,
            final(self).nl_dash_boundary == old(self).nl_dash_boundary,
            final(self).dash_boundary_dash == old(self).dash_boundary_dash,
            final(self).dash_boundary == old(self).dash_boundary,
    {
        let ghost acc0 = self.body_acc@;
        let ghost rem0 = self.remaining_bytes@;
        let ghost pat = self.nl_dash_boundary@;
        let rlen = self.remaining_bytes.len();
        push_range(&mut self.body_acc, self.remaining_bytes.as_slice(), 0, rlen);
        self.remaining_bytes = Vec::new();
        let mut out: Vec<u8> = Vec::new();
        core::mem::swap(&mut out, &mut self.body_acc);
        proof {
            assert(rem0.subrange(0, rlen as int) =~= rem0);
            assert(out@ == acc0 + rem0);
            assert forall|j: int| 0 <= j implies !match_at(out@, pat, j) by {
                if match_at(out@, pat, j) {
                    assert((acc0 + rem0).take((acc0 + rem0).len() as int) =~= acc0 + rem0);
                    lemma_match_in_prefix(acc0 + rem0, pat, (acc0 + rem0).len() as int, j);
                    assert(prefix_match_at(acc0 + rem0, pat, j));
                    if j >= acc0.len() {
                        let j2 = j - acc0.len();
                        assert(rem0.subrange(j2, j2 + pat.len() as int) =~= out@.subrange(
                            j,
                            j + pat.len() as int,
                        ));
                        assert(match_at(rem0, pat, j2));
                    }
                }
            }
        }
        out
    }

    /// Streams the current part's body one step further. When the closing
    /// delimiter sits in the available bytes, the finished body is handed
    /// out and the bytes after the delimiter become the carry-over for the
    /// next part; when the declared length is exhausted first, whatever was
    /// collected is handed out as a possibly truncated body; otherwise the
    /// confirmed bytes are kept and more input is awaited. No handed-out
    /// body ever contains a delimiter occurrence.
    #[verifier::rlimit(100)]
    pub fn body(&mut self) -> (r: BodyStep)
        requires
            old(self).wf(),
        ensures
            final(self).wf(),
            body_transition(*old(self), *final(self), r),
    {
        let ghost acc0 = self.body_acc@;
        let ghost rem0 = self.remaining_bytes@;
        let ghost pat = self.nl_dash_boundary@;
        let rlen = self.remaining_bytes.len();
        let hit = scan_delim(self.remaining_bytes.as_slice(), self.nl_dash_boundary.as_slice());
        match hit {
            ScanHit::Full(i) => {
                proof {
                    assert forall|j: int| 0 <= j < i implies !match_at(rem0, pat, j) by {
                        if match_at(rem0, pat, j) {
                            assert(prefix_match_at(rem0, pat, j)) by {
                                assert(rem0.subrange(j, j + pat.len() as int) == pat);
                                assert(pat.take(pat.len() as int) =~= pat);
                            }
                        }
                    }
                    lemma_find_sub_is(rem0, pat, i as int);
                }
                push_range(&mut self.body_acc, self.remaining_bytes.as_slice(), 0, i);
                let new_rem = subrange_to_vec(self.remaining_bytes.as_slice(), i + 2, rlen);
                self.remaining_bytes = new_rem;
                let at_end = crate::bstr::bytes_eq(
                    self.remaining_bytes.as_slice(),
                    self.dash_boundary_dash.as_slice(),
                );
                if at_end {
                    self.is_end = true;
                }
                let mut out: Vec<u8> = Vec::new();
                core::mem::swap(&mut out, &mut self.body_acc);
                proof {
                    assert(rem0.subrange(0, i as int) =~= rem0.take(i as int));
                    assert(rem0.subrange(i + 2, rlen as int) =~= rem0.skip(i + 2));
                    assert(out@ == acc0 + rem0.take(i as int));
                    assert(out@ =~= (acc0 + rem0).take(acc0.len() + i));
                    assert forall|j: int| 0 <= j implies !match_at(out@, pat, j) by {
                        if match_at(out@, pat, j) {
                            lemma_match_in_prefix(acc0 + rem0, pat, acc0.len() + i, j);
                            assert(prefix_match_at(acc0 + rem0, pat, j));
                            if j >= acc0.len() {
                                let j2 = j - acc0.len();
                                assert(j + pat.len() <= acc0.len() + i);
                                assert(rem0.subrange(j2, j2 + pat.len() as int) =~= out@.subrange(
                                    j,
                                    j + pat.len() as int,
                                ));
                                assert(match_at(rem0, pat, j2));
                                assert(prefix_match_at(rem0, pat, j2)) by {
                                    assert(rem0.subrange(j2, j2 + pat.len() as int) == pat);
                                    assert(pat.take(pat.len() as int) =~= pat);
                                }
                            }
                        }
                    }
                    assert(self.body_acc@.len() == 0);
                }
                BodyStep::Done(out)
            }
            ScanHit::Partial(p) => {
                proof {
                    assert forall|j: int| 0 <= j implies !match_at(rem0, pat, j) by {
                        if match_at(rem0, pat, j) {
                            assert(prefix_match_at(rem0, pat, j)) by {
                                assert(rem0.subrange(j, j + pat.len() as int) == pat);
                                assert(pat.take(pat.len() as int) =~= pat);
                            }
                            assert(j + pat.len() <= rem0.len());
                            assert(j >= p);
                            assert(p + pat.len() > rem0.len());
                        }
                    }
                    lemma_find_sub_none(rem0, pat);
                }
                if self.bytes_read >= self.content_length {
                    let out = self.flush_all();
                    BodyStep::Done(out)
                } else {
                    self.confirm_prefix(p);
                    proof {
                        assert(self.body_acc@ + self.remaining_bytes@ =~= acc0 + rem0);
                        assert(self.remaining_bytes@.len() < pat.len());
                    }
                    BodyStep::NeedMore
                }
            }
            ScanHit::Miss => {
                proof {
                    assert forall|j: int| 0 <= j implies !match_at(rem0, pat, j) by {
                        if match_at(rem0, pat, j) {
                            assert(j < rem0.len());
                            assert(prefix_match_at(rem0, pat, j)) by {
                                assert(rem0.subrange(j, j + pat.len() as int) == pat);
                                assert(pat.take(pat.len() as int) =~= pat);
                            }
                        }
                    }
                    lemma_find_sub_none(rem0, pat);
                }
                if self.bytes_read >= self.content_length {
                    let out = self.flush_all();
                    BodyStep::Done(out)
                } else {
                    self.confirm_prefix(rlen);
                    proof {
                        assert(rem0.take(rlen as int) =~= rem0);
                        assert(self.body_acc@ + self.remaining_bytes@ =~= acc0 + rem0);
                    }
                    BodyStep::NeedMore
                }
            }
        }
    }

    /// Decodes the next part's header block from the carry-over. The
    /// previous part's body must have been streamed to completion, so no
    /// confirmed body bytes are pending. On success the decoded part stands
    /// in `current_part` and the bytes after the header block become the
    /// carry-over for its body.
    #[verifier::rlimit(100)]
    #[verifier::rlimit(100)]
    pub fn next(&mut self) -> (r: NextOutcome)
        requires
            old(self).wf(),
            old(self).body_acc@.len() == 0,
        ensures
            final(self).wf(),
            final(self).body_acc@.len() == 0,
            next_transition(*old(self), *final(self), r),
    {
        if self.is_end {
            return NextOutcome::End;
        }
        let ghost r0 = self.remaining_bytes@;
        let ghost db = self.dash_boundary@;
        let ghost sc_spec = scan_part_header(r0, db);
        let n = self.remaining_bytes.len();
        let nl1 = match crate::bstr::find_byte(self.remaining_bytes.as_slice(), 10u8, 0) {
            Some(i) => i,
            None => {
                proof {
                    crate::bstr::lemma_find_first_none(r0, 10u8);
                }
                // the terminal marker may close the stream without a final
                // line break
                let le0 = if n > 0 && self.remaining_bytes[n - 1] == 13u8 {
                    n - 1
                } else {
                    n
                };
                proof {
                    assert(r0.subrange(0, n as int) =~= r0);
                    if n > 0 && r0.last() == 13u8 {
                        assert(r0.drop_last() =~= r0.subrange(0, n - 1));
                    }
                    assert(chomp_cr(r0) == r0.subrange(0, le0 as int));
                }
                let whole = vstd::slice::slice_subrange(self.remaining_bytes.as_slice(), 0, le0);
                if crate::bstr::bytes_eq(whole, self.dash_boundary_dash.as_slice()) {
                    proof {
                        assert(chomp_cr(r0) == self.dash_boundary@ + seq![45u8, 45u8]);
                    }
                    self.is_end = true;
                    return NextOutcome::End;
                }
                if self.bytes_read >= self.content_length {
                    return NextOutcome::Exhausted;
                } else {
                    return NextOutcome::NeedMore;
                }
            }
        };
        proof {
            crate::bstr::lemma_find_first_is(r0, 10u8, nl1 as int);
        }
        let le1 = chomped_end(self.remaining_bytes.as_slice(), 0, nl1);
        let ghost b = chomp_cr(r0.take(nl1 as int));
        proof {
            assert(r0.subrange(0, nl1 as int) =~= r0.take(nl1 as int));
            assert(b == r0.subrange(0, le1 as int));
        }
        let bsl = vstd::slice::slice_subrange(self.remaining_bytes.as_slice(), 0, le1);
        if crate::bstr::bytes_eq(bsl, self.dash_boundary_dash.as_slice()) {
            proof {
                assert(b == db + seq![45u8, 45u8]);
                assert(sc_spec is End);
            }
            self.is_end = true;
            return NextOutcome::End;
        }
        if !crate::bstr::bytes_eq(bsl, self.dash_boundary.as_slice()) {
            proof {
                assert(b != db);
                assert(b != db + seq![45u8, 45u8]);
                assert(sc_spec is BadBoundary);
            }
            return NextOutcome::Malformed(ProtocolError::MalformedBoundary);
        }
        let ghost r1 = r0.skip(nl1 + 1);
        let nl2 = match crate::bstr::find_byte(self.remaining_bytes.as_slice(), 10u8, nl1 + 1) {
            Some(i) => i,
            None => {
                proof {
                    assert forall|j: int| 0 <= j < r1.len() implies r1[j] != 10u8 by {
                        assert(r1[j] == r0[nl1 + 1 + j]);
                    }
                    crate::bstr::lemma_find_first_none(r1, 10u8);
                    assert(sc_spec is Incomplete);
                }
                if self.bytes_read >= self.content_length {
                    return NextOutcome::Exhausted;
                } else {
                    return NextOutcome::NeedMore;
                }
            }
        };
        proof {
            assert forall|j: int| 0 <= j < nl2 - nl1 - 1 implies r1[j] != 10u8 by {
                assert(r1[j] == r0[nl1 + 1 + j]);
            }
            assert(r1[nl2 - nl1 - 1] == r0[nl2 as int]);
            crate::bstr::lemma_find_first_is(r1, 10u8, nl2 - nl1 - 1);
        }
        let le2 = chomped_end(self.remaining_bytes.as_slice(), nl1 + 1, nl2);
        let ghost d = chomp_cr(r1.take(nl2 - nl1 - 1));
        proof {
            assert(r1.take(nl2 - nl1 - 1) =~= r0.subrange(nl1 + 1, nl2 as int));
            assert(d == r0.subrange(nl1 + 1, le2 as int));
        }
        let dsl = vstd::slice::slice_subrange(self.remaining_bytes.as_slice(), nl1 + 1, le2);
        if !crate::bstr::starts_with(dsl, crate::lit::lit_content_disposition_bytes()) {
            proof {
                assert(sc_spec is BadHeader);
            }
            return NextOutcome::Malformed(ProtocolError::MalformedDisposition);
        }
        // the disposition: everything after the line's first `;`, trimmed
        let disposition: Vec<u8> = {
            let semi = crate::bstr::find_byte(self.remaining_bytes.as_slice(), 59u8, nl1 + 1);
            let has = match semi {
                Some(e) => e < le2,
                None => false,
            };
            if has {
                let e = match semi {
                    Some(e) => e,
                    None => 0,
                };
                proof {
                    assert forall|j: int| 0 <= j < e - nl1 - 1 implies d[j] != 59u8 by {
                        assert(d[j] == r0[nl1 + 1 + j]);
                    }
                    assert(d[e - nl1 - 1] == r0[e as int]);
                    crate::bstr::lemma_find_first_is(d, 59u8, e - nl1 - 1);
                }
                let piece = vstd::slice::slice_subrange(
                    self.remaining_bytes.as_slice(),
                    e + 1,
                    le2,
                );
                proof {
                    assert(piece@ =~= d.skip(e - nl1 - 1 + 1));
                }
                crate::bstr::trim(piece)
            } else {
                proof {
                    assert forall|j: int| 0 <= j < d.len() implies d[j] != 59u8 by {
                        assert(d[j] == r0[nl1 + 1 + j]);
                    }
                    crate::bstr::lemma_find_first_none(d, 59u8);
                }
                Vec::new()
            }
        };
        proof {
            assert(disposition@ == disp_of(d));
        }
        let ghost r2 = r0.skip(nl2 + 1);
        proof {
            assert(r1.skip(nl2 - nl1 - 1 + 1) =~= r2);
        }
        let nl3 = match crate::bstr::find_byte(self.remaining_bytes.as_slice(), 10u8, nl2 + 1) {
            Some(i) => i,
            None => {
                proof {
                    assert forall|j: int| 0 <= j < r2.len() implies r2[j] != 10u8 by {
                        assert(r2[j] == r0[nl2 + 1 + j]);
                    }
                    crate::bstr::lemma_find_first_none(r2, 10u8);
                    assert(sc_spec is Incomplete);
                }
                if self.bytes_read >= self.content_length {
                    return NextOutcome::Exhausted;
                } else {
                    return NextOutcome::NeedMore;
                }
            }
        };
        proof {
            assert forall|j: int| 0 <= j < nl3 - nl2 - 1 implies r2[j] != 10u8 by {
                assert(r2[j] == r0[nl2 + 1 + j]);
            }
            assert(r2[nl3 - nl2 - 1] == r0[nl3 as int]);
            crate::bstr::lemma_find_first_is(r2, 10u8, nl3 - nl2 - 1);
        }
        let le3 = chomped_end(self.remaining_bytes.as_slice(), nl2 + 1, nl3);
        let ghost t = chomp_cr(r2.take(nl3 - nl2 - 1));
        proof {
            assert(r2.take(nl3 - nl2 - 1) =~= r0.subrange(nl2 + 1, nl3 as int));
            assert(t == r0.subrange(nl2 + 1, le3 as int));
        }
        let tsl = vstd::slice::slice_subrange(self.remaining_bytes.as_slice(), nl2 + 1, le3);
        if crate::bstr::starts_with(tsl, crate::lit::lit_content_type_bytes()) {
            // the declared content type: everything after the first `:`, trimmed
            let colon = crate::bstr::find_byte(self.remaining_bytes.as_slice(), 58u8, nl2 + 1);
            let has = match colon {
                Some(c) => c < le3,
                None => false,
            };
            let src: Vec<u8> = if has {
                let c = match colon {
                    Some(c) => c,
                    None => 0,
                };
                proof {
                    assert forall|j: int| 0 <= j < c - nl2 - 1 implies t[j] != 58u8 by {
                        assert(t[j] == r0[nl2 + 1 + j]);
                    }
                    assert(t[c - nl2 - 1] == r0[c as int]);
                    crate::bstr::lemma_find_first_is(t, 58u8, c - nl2 - 1);
                }
                let piece = vstd::slice::slice_subrange(
                    self.remaining_bytes.as_slice(),
                    c + 1,
                    le3,
                );
                proof {
                    assert(piece@ =~= t.skip(c - nl2 - 1 + 1));
                }
                crate::bstr::trim(piece)
            } else {
                proof {
                    assert forall|j: int| 0 <= j < t.len() implies t[j] != 58u8 by {
                        assert(t[j] == r0[nl2 + 1 + j]);
                    }
                    crate::bstr::lemma_find_first_none(t, 58u8);
                }
                Vec::new()
            };
            proof {
                assert(src@ == header_value_of(t));
            }
            let ct = ContentType::parse(src.as_slice());
            let ghost r3 = r0.skip(nl3 + 1);
            proof {
                assert(r2.skip(nl3 - nl2 - 1 + 1) =~= r3);
            }
            let nl4 = match crate::bstr::find_byte(self.remaining_bytes.as_slice(), 10u8, nl3 + 1) {
                Some(i) => i,
                None => {
                    proof {
                        assert forall|j: int| 0 <= j < r3.len() implies r3[j] != 10u8 by {
                            assert(r3[j] == r0[nl3 + 1 + j]);
                        }
                        crate::bstr::lemma_find_first_none(r3, 10u8);
                        assert(sc_spec is Incomplete);
                    }
                    if self.bytes_read >= self.content_length {
                        return NextOutcome::Exhausted;
                    } else {
                        return NextOutcome::NeedMore;
                    }
                }
            };
            proof {
                assert forall|j: int| 0 <= j < nl4 - nl3 - 1 implies r3[j] != 10u8 by {
                    assert(r3[j] == r0[nl3 + 1 + j]);
                }
                assert(r3[nl4 - nl3 - 1] == r0[nl4 as int]);
                crate::bstr::lemma_find_first_is(r3, 10u8, nl4 - nl3 - 1);
            }
            let rest = subrange_to_vec(self.remaining_bytes.as_slice(), nl4 + 1, n);
            proof {
                assert(rest@ =~= r3.skip(nl4 - nl3 - 1 + 1));
            }
            self.current_part = Part {
                disposition,
                disposition_params: MultiMap::new(),
                content_type: ct,
                body: Vec::new(),
            };
            self.remaining_bytes = rest;
            proof {
                assert(sc_spec matches PartScan::Found { .. });
            }
            NextOutcome::Found
        } else if le3 == nl2 + 1 {
            proof {
                assert(t.len() == 0);
            }
            let rest = subrange_to_vec(self.remaining_bytes.as_slice(), nl3 + 1, n);
            proof {
                assert(rest@ =~= r0.skip(nl3 + 1));
                assert(r2.skip(nl3 - nl2 - 1 + 1) =~= r0.skip(nl3 + 1));
            }
            self.current_part = Part {
                disposition,
                disposition_params: MultiMap::new(),
                content_type: ContentType::NoneType,
                body: Vec::new(),
            };
            self.remaining_bytes = rest;
            proof {
                assert(sc_spec matches PartScan::Found { .. });
            }
            NextOutcome::Found
        } else {
            proof {
                assert(t.len() > 0);
                assert(sc_spec is BadHeader);
            }
            NextOutcome::Malformed(ProtocolError::MalformedDisposition)
        }
    }
}


/// Law: part-header round trip for a plain form field. A header block
/// assembled from the boundary line, a `Content-Disposition` line and the
/// empty separator line scans back to exactly its own disposition, no
/// declared content type, and exactly the bytes that follow it.
pub proof fn lemma_part_header_round_trip(db: Seq<u8>, dl: Seq<u8>, rest: Seq<u8>)
    requires
        forall|j: int| 0 <= j < db.len() ==> db[j] != 10u8,
        crate::lit::lit_content_disposition().is_prefix_of(dl),
        forall|j: int| 0 <= j < dl.len() ==> dl[j] != 10u8,
        dl.len() > 0,
        dl.last() != 13u8,
    ensures
        scan_part_header(
            db + seq![13u8, 10u8] + dl + seq![13u8, 10u8] + seq![13u8, 10u8] + rest,
            db,
        ) == (PartScan::Found { disposition: disp_of(dl), ct_src: None, rest }),
{
    let data = db + seq![13u8, 10u8] + dl + seq![13u8, 10u8] + seq![13u8, 10u8] + rest;
    let n1 = db.len() as int;
    assert(data[n1] == 13u8);
    assert(data[n1 + 1] == 10u8);
    assert forall|j: int| 0 <= j < n1 + 1 implies data[j] != 10u8 by {
        if j < n1 {
            assert(data[j] == db[j]);
        }
    }
    crate::bstr::lemma_find_first_is(data, 10u8, n1 + 1);
    let l1 = data.take(n1 + 1);
    assert(l1 =~= db + seq![13u8]);
    assert(l1.last() == 13u8);
    assert(chomp_cr(l1) =~= db);
    assert(chomp_cr(l1) != db + seq![45u8, 45u8]);
    let r1 = data.skip(n1 + 2);
    assert(r1 =~= dl + seq![13u8, 10u8] + seq![13u8, 10u8] + rest);
    let n2 = dl.len() as int;
    assert(r1[n2] == 13u8);
    assert(r1[n2 + 1] == 10u8);
    assert forall|j: int| 0 <= j < n2 + 1 implies r1[j] != 10u8 by {
        if j < n2 {
            assert(r1[j] == dl[j]);
        }
    }
    crate::bstr::lemma_find_first_is(r1, 10u8, n2 + 1);
    let l2 = r1.take(n2 + 1);
    assert(l2 =~= dl + seq![13u8]);
    assert(l2.last() == 13u8);
    assert(chomp_cr(l2) =~= dl);
    let r2 = r1.skip(n2 + 2);
    assert(r2 =~= seq![13u8, 10u8] + rest);
    assert(r2[0] == 13u8);
    assert(r2[1] == 10u8);
    crate::bstr::lemma_find_first_is(r2, 10u8, 1);
    let l3 = r2.take(1);
    assert(l3 =~= seq![13u8]);
    assert(l3.last() == 13u8);
    assert(chomp_cr(l3) =~= Seq::<u8>::empty());
    proof_lit_content_type_nonempty();
    assert(!crate::lit::lit_content_type().is_prefix_of(chomp_cr(l3)));
    assert(r2.skip(2) =~= rest);
}

/// Law: part-header round trip for a typed (file) field. A header block
/// assembled from the boundary line, a `Content-Disposition` line, a
/// `Content-Type` line and the blank separator line scans back to exactly
/// its own disposition, its own declared type value, and exactly the bytes
/// that follow it.
pub proof fn lemma_typed_part_header_round_trip(
    db: Seq<u8>,
    dl: Seq<u8>,
    tl: Seq<u8>,
    rest: Seq<u8>,
)
    requires
        forall|j: int| 0 <= j < db.len() ==> db[j] != 10u8,
        crate::lit::lit_content_disposition().is_prefix_of(dl),
        forall|j: int| 0 <= j < dl.len() ==> dl[j] != 10u8,
        dl.len() > 0,
        dl.last() != 13u8,
        crate::lit::lit_content_type().is_prefix_of(tl),
        forall|j: int| 0 <= j < tl.len() ==> tl[j] != 10u8,
        tl.len() > 0,
        tl.last() != 13u8,
    ensures
        scan_part_header(
            db + seq![13u8, 10u8] + dl + seq![13u8, 10u8] + tl + seq![13u8, 10u8] + seq![
                13u8,
                10u8,
            ] + rest,
            db,
        ) == (PartScan::Found {
            disposition: disp_of(dl),
            ct_src: Some(header_value_of(tl)),
            rest,
        }),
{
    let data = db + seq![13u8, 10u8] + dl + seq![13u8, 10u8] + tl + seq![13u8, 10u8] + seq![
        13u8,
        10u8,
    ] + rest;
    let n1 = db.len() as int;
    assert(data[n1] == 13u8);
    assert(data[n1 + 1] == 10u8);
    assert forall|j: int| 0 <= j < n1 + 1 implies data[j] != 10u8 by {
        if j < n1 {
            assert(data[j] == db[j]);
        }
    }
    crate::bstr::lemma_find_first_is(data, 10u8, n1 + 1);
    let l1 = data.take(n1 + 1);
    assert(l1 =~= db + seq![13u8]);
    assert(chomp_cr(l1) =~= db);
    assert(chomp_cr(l1) != db + seq![45u8, 45u8]);
    let r1 = data.skip(n1 + 2);
    assert(r1 =~= dl + seq![13u8, 10u8] + tl + seq![13u8, 10u8] + seq![13u8, 10u8] + rest);
    let n2 = dl.len() as int;
    assert(r1[n2] == 13u8);
    assert(r1[n2 + 1] == 10u8);
    assert forall|j: int| 0 <= j < n2 + 1 implies r1[j] != 10u8 by {
        if j < n2 {
            assert(r1[j] == dl[j]);
        }
    }
    crate::bstr::lemma_find_first_is(r1, 10u8, n2 + 1);
    let l2 = r1.take(n2 + 1);
    assert(l2 =~= dl + seq![13u8]);
    assert(chomp_cr(l2) =~= dl);
    let r2 = r1.skip(n2 + 2);
    assert(r2 =~= tl + seq![13u8, 10u8] + seq![13u8, 10u8] + rest);
    let n3 = tl.len() as int;
    assert(r2[n3] == 13u8);
    assert(r2[n3 + 1] == 10u8);
    assert forall|j: int| 0 <= j < n3 + 1 implies r2[j] != 10u8 by {
        if j < n3 {
            assert(r2[j] == tl[j]);
        }
    }
    crate::bstr::lemma_find_first_is(r2, 10u8, n3 + 1);
    let l3 = r2.take(n3 + 1);
    assert(l3 =~= tl + seq![13u8]);
    assert(chomp_cr(l3) =~= tl);
    let r3 = r2.skip(n3 + 2);
    assert(r3 =~= seq![13u8, 10u8] + rest);
    assert(r3[0] == 13u8);
    assert(r3[1] == 10u8);
    crate::bstr::lemma_find_first_is(r3, 10u8, 1);
    let l4 = r3.take(1);
    assert(r3.skip(2) =~= rest);
}

/// The `Content-Type` literal is not empty.
proof fn proof_lit_content_type_nonempty()
    ensures
        crate::lit::lit_content_type().len() > 0,
{
    reveal_strlit("Content-Type");
}

/// Law: body round trip. A part body that nowhere begins to match the
/// delimiter, followed by the delimiter itself, splits back at exactly the
/// delimiter: with this carry-over, one `body` step hands out exactly the
/// original body bytes.
pub proof fn lemma_delimited_body_splits(body: Seq<u8>, pat: Seq<u8>, tail: Seq<u8>)
    requires
        pat.len() >= 1,
        forall|j: int| 0 <= j < body.len() ==> !prefix_match_at(body + pat + tail, pat, j),
    ensures
        find_sub(body + pat + tail, pat) == Some(body.len() as int),
        (body + pat + tail).take(body.len() as int) == body,
{
    let s = body + pat + tail;
    assert(s.subrange(body.len() as int, body.len() + pat.len() as int) =~= pat);
    assert(match_at(s, pat, body.len() as int));
    assert forall|j: int| 0 <= j < body.len() implies !match_at(s, pat, j) by {
        if match_at(s, pat, j) {
            assert(s.subrange(j, j + pat.len() as int) == pat);
            assert(pat.take(pat.len() as int) =~= pat);
            assert(prefix_match_at(s, pat, j));
        }
    }
    lemma_find_sub_is(s, pat, body.len() as int);
    assert(s.take(body.len() as int) =~= body);
}


/// Law: delivering bytes to the decoder is split-invariant. Feeding the
/// bytes `a` then `b`, or the single chunk `a + b`, leaves two decoders in
/// the same state, as long as the declared length has room for them; the
/// decoding steps read only that state, so how the wire bytes were divided
/// into reads cannot change what is decoded.
pub proof fn lemma_supply_split_invariance(
    pre: MultiPart,
    mid: MultiPart,
    post: MultiPart,
    whole: MultiPart,
    a: Seq<u8>,
    b: Seq<u8>,
)
    requires
        a.len() + b.len() <= pre.content_length - pre.bytes_read,
        supply_transition(pre, mid, a, a.len() as int),
        supply_transition(mid, post, b, b.len() as int),
        supply_transition(pre, whole, a + b, a.len() + b.len() as int),
    ensures
        post.remaining_bytes@ == whole.remaining_bytes@,
        post.bytes_read == whole.bytes_read,
        post.body_acc == whole.body_acc,
        post.is_end == whole.is_end,
        post.current_part == whole.current_part,
        post.content_length == whole.content_length,
        post.nl_dash_boundary == whole.nl_dash_boundary,
        post.dash_boundary_dash == whole.dash_boundary_dash,
        post.dash_boundary == whole.dash_boundary,
{
    assert(a.take(a.len() as int) =~= a);
    assert(b.take(b.len() as int) =~= b);
    assert((a + b).take(a.len() + b.len() as int) =~= a + b);
    assert((pre.remaining_bytes@ + a) + b =~= pre.remaining_bytes@ + (a + b));
}

/// Law: in every reachable decoder state, the bytes accepted from the
/// connection never exceed the declared content length.
pub proof fn lemma_read_ceiling(mp: MultiPart)
    requires
        mp.wf(),
    ensures
        mp.bytes_read <= mp.content_length,
{
}

} // verus!
