//! Byte-string primitives shared by the request and multipart parsers:
//! searching, trimming, comparing and copying, each tied to a mathematical
//! model over `Seq<u8>`.

use vstd::prelude::*;

verus! {

/// HTTP token separators: space, horizontal tab, carriage return, line feed.
pub open spec fn is_ws(b: u8) -> bool {
    b == 32 || b == 9 || b == 13 || b == 10
}

/// Decimal digit.
pub open spec fn is_digit(b: u8) -> bool {
    48 <= b <= 57
}

/// Index of the first occurrence of `b` in `s`, if any.
pub open spec fn find_first(s: Seq<u8>, b: u8) -> Option<int>
    decreases s.len(),
{
    if s.len() == 0 {
        None
    } else if s[0] == b {
        Some(0int)
    } else {
        match find_first(s.drop_first(), b) {
            None => None,
            Some(i) => Some(i + 1),
        }
    }
}

/// `find_first` returns the least index holding `b`, or reports that none does.
pub proof fn lemma_find_first(s: Seq<u8>, b: u8)
    ensures
        match find_first(s, b) {
            Some(i) => 0 <= i < s.len() && s[i] == b && forall|j: int| 0 <= j < i ==> s[j] != b,
            None => forall|j: int| 0 <= j < s.len() ==> s[j] != b,
        },
    decreases s.len(),
{
    if s.len() > 0 && s[0] != b {
        let t = s.drop_first();
        lemma_find_first(t, b);
        match find_first(t, b) {
            Some(i) => {
                assert(s[i + 1] == t[i]);
                assert forall|j: int| 0 <= j < i + 1 implies s[j] != b by {
                    if j > 0 {
                        assert(s[j] == t[j - 1]);
                    }
                }
            }
            None => {
                assert forall|j: int| 0 <= j < s.len() implies s[j] != b by {
                    if j > 0 {
                        assert(s[j] == t[j - 1]);
                    }
                }
            }
        }
    }
}

/// The least-index characterization determines `find_first` exactly.
pub proof fn lemma_find_first_is(s: Seq<u8>, b: u8, i: int)
    requires
        0 <= i < s.len(),
        s[i] == b,
        forall|j: int| 0 <= j < i ==> s[j] != b,
    ensures
        find_first(s, b) == Some(i),
{
    lemma_find_first(s, b);
    match find_first(s, b) {
        None => {
            assert(s[i] != b);
        }
        Some(k) => {
            if k < i {
                assert(s[k] != b);
            } else if k > i {
                assert(s[i] != b);
            }
        }
    }
}

/// No occurrence anywhere determines `find_first` as `None`.
pub proof fn lemma_find_first_none(s: Seq<u8>, b: u8)
    requires
        forall|j: int| 0 <= j < s.len() ==> s[j] != b,
    ensures
        find_first(s, b) is None,
{
    lemma_find_first(s, b);
    if let Some(i) = find_first(s, b) {
        assert(s[i] != b);
    }
}

/// First occurrence of `b` in `data` at or after `from`.
pub fn find_byte(data: &[u8], b: u8, from: usize) -> (r: Option<usize>)
    requires
        from <= data@.len(),
    ensures
        match r {
            Some(i) => from <= i < data@.len() && data@[i as int] == b && forall|j: int|
                from <= j < i ==> data@[j] != b,
            None => forall|j: int| from <= j < data@.len() ==> data@[j] != b,
        },
{
    let mut i = from;
    while i < data.len()
        invariant
            from <= i <= data@.len(),
            forall|j: int| from <= j < i ==> data@[j] != b,
        decreases data@.len() - i,
    {
        if data[i] == b {
            return Some(i);
        }
        i = i + 1;
    }
    None
}

/// Byte-for-byte equality of two slices.
pub fn bytes_eq(a: &[u8], b: &[u8]) -> (r: bool)
    ensures
        r == (a@ == b@),
{
    if a.len() != b.len() {
        return false;
    }
    let mut i: usize = 0;
    while i < a.len()
        invariant
            a@.len() == b@.len(),
            i <= a@.len(),
            forall|j: int| 0 <= j < i ==> a@[j] == b@[j],
        decreases a@.len() - i,
    {
        if a[i] != b[i] {
            return false;
        }
        i = i + 1;
    }
    proof {
        assert(a@ =~= b@);
    }
    true
}

/// Whether `prefix` is a prefix of `data`.
pub fn starts_with(data: &[u8], prefix: &[u8]) -> (r: bool)
    ensures
        r == prefix@.is_prefix_of(data@),
{
    if prefix.len() > data.len() {
        return false;
    }
    let mut i: usize = 0;
    while i < prefix.len()
        invariant
            prefix@.len() <= data@.len(),
            i <= prefix@.len(),
            forall|j: int| 0 <= j < i ==> data@[j] == prefix@[j],
        decreases prefix@.len() - i,
    {
        if data[i] != prefix[i] {
            assert(!prefix@.is_prefix_of(data@));
            return false;
        }
        i = i + 1;
    }
    proof {
        assert(data@.subrange(0, prefix@.len() as int) =~= prefix@);
    }
    true
}

/// Copy of `data[i..j]` as a fresh vector.
pub fn subrange_to_vec(data: &[u8], i: usize, j: usize) -> (r: Vec<u8>)
    requires
        i <= j <= data@.len(),
    ensures
        r@ == data@.subrange(i as int, j as int),
{
    let s = vstd::slice::slice_subrange(data, i, j);
    vstd::slice::slice_to_vec(s)
}

/// Appends `src[i..j]` to `dst`.
pub fn push_range(dst: &mut Vec<u8>, src: &[u8], i: usize, j: usize)
    requires
        i <= j <= src@.len(),
    ensures
        final(dst)@ == old(dst)@ + src@.subrange(i as int, j as int),
{
    let mut k = i;
    while k < j
        invariant
            i <= k <= j <= src@.len(),
            dst@ == old(dst)@ + src@.subrange(i as int, k as int),
        decreases j - k,
    {
        dst.push(src[k]);
        k = k + 1;
        proof {
            assert(src@.subrange(i as int, k as int) =~= src@.subrange(i as int, k - 1).push(
                src@[k - 1],
            ));
        }
    }
}

/// `s` with leading whitespace removed.
pub open spec fn trim_start_spec(s: Seq<u8>) -> Seq<u8>
    decreases s.len(),
{
    if s.len() > 0 && is_ws(s[0]) {
        trim_start_spec(s.drop_first())
    } else {
        s
    }
}

/// `s` with trailing whitespace removed.
pub open spec fn trim_end_spec(s: Seq<u8>) -> Seq<u8>
    decreases s.len(),
{
    if s.len() > 0 && is_ws(s.last()) {
        trim_end_spec(s.drop_last())
    } else {
        s
    }
}

/// `s` with whitespace removed from both ends.
pub open spec fn trim_spec(s: Seq<u8>) -> Seq<u8> {
    trim_end_spec(trim_start_spec(s))
}

/// Dropping the whitespace prefix up to the first non-whitespace index.
pub proof fn lemma_trim_start_at(s: Seq<u8>, i: int)
    requires
        0 <= i <= s.len(),
        forall|j: int| 0 <= j < i ==> is_ws(s[j]),
        i == s.len() || !is_ws(s[i]),
    ensures
        trim_start_spec(s) == s.skip(i),
    decreases i,
{
    if i == 0 {
        assert(s.skip(0) =~= s);
    } else {
        assert(is_ws(s[0]));
        lemma_trim_start_at(s.drop_first(), i - 1);
        assert(s.drop_first().skip(i - 1) =~= s.skip(i));
    }
}

/// Dropping the whitespace suffix back to the last non-whitespace index.
pub proof fn lemma_trim_end_at(s: Seq<u8>, j: int)
    requires
        0 <= j <= s.len(),
        forall|k: int| j <= k < s.len() ==> is_ws(s[k]),
        j == 0 || !is_ws(s[j - 1]),
    ensures
        trim_end_spec(s) == s.take(j),
    decreases s.len(),
{
    if j == s.len() {
        if s.len() > 0 {
            assert(!is_ws(s.last()));
        }
        assert(s.take(j) =~= s);
    } else {
        assert(is_ws(s.last()));
        lemma_trim_end_at(s.drop_last(), j);
        assert(s.drop_last().take(j) =~= s.take(j));
    }
}

/// Copy of `data` with whitespace removed from both ends.
pub fn trim(data: &[u8]) -> (r: Vec<u8>)
    ensures
        r@ == trim_spec(data@),
{
    let mut i: usize = 0;
    while i < data.len() && is_ws_byte(data[i])
        invariant
            i <= data@.len(),
            forall|j: int| 0 <= j < i ==> is_ws(data@[j]),
        decreases data@.len() - i,
    {
        i = i + 1;
    }
    proof {
        lemma_trim_start_at(data@, i as int);
    }
    if i == data.len() {
        proof {
            assert(data@.skip(i as int) =~= Seq::<u8>::empty());
        }
        return Vec::new();
    }
    let mut j: usize = data.len();
    while j > i && is_ws_byte(data[j - 1])
        invariant
            i <= j <= data@.len(),
            forall|k: int| j <= k < data@.len() ==> is_ws(data@[k]),
        decreases j,
    {
        j = j - 1;
    }
    proof {
        let t = data@.skip(i as int);
        lemma_trim_end_at(t, j - i);
        assert(t.take(j - i) =~= data@.subrange(i as int, j as int));
    }
    subrange_to_vec(data, i, j)
}

/// Whitespace test on a single byte.
pub fn is_ws_byte(b: u8) -> (r: bool)
    ensures
        r == is_ws(b),
{
    b == 32 || b == 9 || b == 13 || b == 10
}

/// Whether `pat` occurs in `s` starting at index `i`.
pub open spec fn match_at(s: Seq<u8>, pat: Seq<u8>, i: int) -> bool {
    0 <= i && i + pat.len() <= s.len() && s.subrange(i, i + pat.len() as int) == pat
}

/// Index of the first occurrence of `pat` in `s`, if any.
pub open spec fn find_sub(s: Seq<u8>, pat: Seq<u8>) -> Option<int>
    decreases s.len(),
{
    if pat.len() > s.len() {
        None
    } else if s.subrange(0, pat.len() as int) == pat {
        Some(0int)
    } else if s.len() == 0 {
        None
    } else {
        match find_sub(s.drop_first(), pat) {
            None => None,
            Some(i) => Some(i + 1),
        }
    }
}

/// Shifting a match across `drop_first`.
proof fn lemma_match_at_shift(s: Seq<u8>, pat: Seq<u8>, j: int)
    requires
        s.len() > 0,
        0 <= j,
    ensures
        match_at(s, pat, j + 1) == match_at(s.drop_first(), pat, j),
{
    if j + 1 + pat.len() <= s.len() {
        assert(s.drop_first().subrange(j, j + pat.len() as int) =~= s.subrange(
            j + 1,
            j + 1 + pat.len() as int,
        ));
    }
}

/// `find_sub` returns the least index where `pat` occurs, or reports that it
/// occurs nowhere.
pub proof fn lemma_find_sub(s: Seq<u8>, pat: Seq<u8>)
    ensures
        match find_sub(s, pat) {
            Some(i) => match_at(s, pat, i) && forall|j: int| 0 <= j < i ==> !match_at(s, pat, j),
            None => forall|j: int| 0 <= j ==> !match_at(s, pat, j),
        },
    decreases s.len(),
{
    if pat.len() > s.len() {
        assert forall|j: int| 0 <= j implies !match_at(s, pat, j) by {}
    } else if s.subrange(0, pat.len() as int) == pat {
        assert(match_at(s, pat, 0));
    } else if s.len() == 0 {
        assert forall|j: int| 0 <= j implies !match_at(s, pat, j) by {}
    } else {
        let t = s.drop_first();
        lemma_find_sub(t, pat);
        assert(!match_at(s, pat, 0));
        match find_sub(t, pat) {
            Some(i) => {
                lemma_match_at_shift(s, pat, i);
                assert(match_at(s, pat, i + 1));
                assert forall|j: int| 0 <= j < i + 1 implies !match_at(s, pat, j) by {
                    if j > 0 {
                        lemma_match_at_shift(s, pat, j - 1);
                    }
                }
            }
            None => {
                assert forall|j: int| 0 <= j implies !match_at(s, pat, j) by {
                    if j > 0 {
                        lemma_match_at_shift(s, pat, j - 1);
                    }
                }
            }
        }
    }
}

/// The least-index characterization determines `find_sub` exactly.
pub proof fn lemma_find_sub_is(s: Seq<u8>, pat: Seq<u8>, i: int)
    requires
        match_at(s, pat, i),
        forall|j: int| 0 <= j < i ==> !match_at(s, pat, j),
    ensures
        find_sub(s, pat) == Some(i),
{
    lemma_find_sub(s, pat);
    match find_sub(s, pat) {
        None => {
            assert(!match_at(s, pat, i));
        }
        Some(x) => {
            if x < i {
                assert(!match_at(s, pat, x));
            } else if x > i {
                assert(!match_at(s, pat, i));
            }
        }
    }
}

/// No occurrence anywhere determines `find_sub` as `None`.
pub proof fn lemma_find_sub_none(s: Seq<u8>, pat: Seq<u8>)
    requires
        forall|j: int| 0 <= j ==> !match_at(s, pat, j),
    ensures
        find_sub(s, pat) is None,
{
    lemma_find_sub(s, pat);
    if let Some(i) = find_sub(s, pat) {
        assert(!match_at(s, pat, i));
    }
}

/// First occurrence of `pat` within `data`, by index.
pub fn find_sub_bytes(data: &[u8], pat: &[u8]) -> (r: Option<usize>)
    ensures
        match r {
            Some(i) => find_sub(data@, pat@) == Some(i as int) && match_at(data@, pat@, i as int),
            None => find_sub(data@, pat@) is None,
        },
{
    if pat.len() == 0 {
        proof {
            assert(data@.subrange(0, 0) =~= pat@);
            assert(match_at(data@, pat@, 0));
            lemma_find_sub_is(data@, pat@, 0);
        }
        return Some(0);
    }
    if pat.len() > data.len() {
        proof {
            assert forall|j: int| 0 <= j implies !match_at(data@, pat@, j) by {}
            lemma_find_sub_none(data@, pat@);
        }
        return None;
    }
    let dn = data.len();
    let end = dn - pat.len();
    let mut i: usize = 0;
    while i <= end
        invariant
            dn == data@.len(),
            1 <= pat@.len() <= data@.len(),
            end == data@.len() - pat@.len(),
            i <= end + 1,
            forall|j: int| 0 <= j < i ==> !match_at(data@, pat@, j),
        decreases end + 1 - i,
    {
        let mut k: usize = 0;
        let mut hit = true;
        while hit && k < pat.len()
            invariant
                dn == data@.len(),
                1 <= pat@.len() <= data@.len(),
                i + pat@.len() <= data@.len(),
                k <= pat@.len(),
                hit ==> data@.subrange(i as int, i + k) =~= pat@.subrange(0, k as int),
                !hit ==> !match_at(data@, pat@, i as int),
            decreases pat@.len() - k,
        {
            if data[i + k] != pat[k] {
                hit = false;
                proof {
                    if match_at(data@, pat@, i as int) {
                        assert(data@.subrange(i as int, i + pat@.len())[k as int] == data@[i + k]);
                        assert(pat@[k as int] == data@[i + k]);
                    }
                }
            } else {
                proof {
                    assert(data@.subrange(i as int, i + k + 1) =~= data@.subrange(
                        i as int,
                        i + k,
                    ).push(data@[i + k]));
                    assert(pat@.subrange(0, k + 1) =~= pat@.subrange(0, k as int).push(
                        pat@[k as int],
                    ));
                }
            }
            k = k + 1;
        }
        if hit {
            proof {
                assert(pat@.subrange(0, pat@.len() as int) =~= pat@);
                assert(match_at(data@, pat@, i as int));
                lemma_find_sub_is(data@, pat@, i as int);
            }
            return Some(i);
        }
        i = i + 1;
    }
    proof {
        assert forall|j: int| 0 <= j implies !match_at(data@, pat@, j) by {}
        lemma_find_sub_none(data@, pat@);
    }
    None
}

/// `l` with one trailing carriage return removed.
pub open spec fn chomp_cr(l: Seq<u8>) -> Seq<u8> {
    if l.len() > 0 && l.last() == 13u8 {
        l.drop_last()
    } else {
        l
    }
}

/// The segments of `s` between occurrences of `sep`: always at least one
/// segment, one more for every separator, in order.
pub open spec fn split_on(s: Seq<u8>, sep: u8) -> Seq<Seq<u8>>
    decreases s.len(),
{
    if s.len() == 0 {
        seq![Seq::empty()]
    } else if s[0] == sep {
        seq![Seq::empty()] + split_on(s.drop_first(), sep)
    } else {
        let rest = split_on(s.drop_first(), sep);
        seq![seq![s[0]] + rest[0]] + rest.drop_first()
    }
}

/// `split_on` yields at least one segment.
pub proof fn lemma_split_on_len(s: Seq<u8>, sep: u8)
    ensures
        split_on(s, sep).len() >= 1,
    decreases s.len(),
{
    if s.len() > 0 {
        lemma_split_on_len(s.drop_first(), sep);
    }
}

/// One separator step: with the first separator at `i` (or none up to the
/// end), the split is the head segment followed by the split of the rest.
pub proof fn lemma_split_on_step(s: Seq<u8>, sep: u8, i: int)
    requires
        0 <= i <= s.len(),
        forall|j: int| 0 <= j < i ==> s[j] != sep,
        i == s.len() || s[i] == sep,
    ensures
        i == s.len() ==> split_on(s, sep) == seq![s],
        i < s.len() ==> split_on(s, sep) == seq![s.take(i)] + split_on(s.skip(i + 1), sep),
    decreases s.len(),
{
    lemma_split_on_len(s, sep);
    if s.len() == 0 {
        assert(split_on(s, sep) =~~= seq![s]);
    } else if s[0] == sep {
        assert(i == 0);
        assert(s.take(0) =~= Seq::<u8>::empty());
        assert(s.skip(1) =~= s.drop_first());
        assert(split_on(s, sep) =~~= seq![s.take(0)] + split_on(s.skip(1), sep));
    } else {
        let t = s.drop_first();
        assert(i >= 1);
        assert forall|j: int| 0 <= j < i - 1 implies t[j] != sep by {
            assert(t[j] == s[j + 1]);
        }
        lemma_split_on_step(t, sep, i - 1);
        lemma_split_on_len(t, sep);
        if i == s.len() {
            assert(split_on(t, sep) == seq![t]);
            assert(seq![s[0]] + t =~= s);
            assert(split_on(s, sep) =~~= seq![s]);
        } else {
            assert(split_on(t, sep) == seq![t.take(i - 1)] + split_on(t.skip(i), sep));
            assert(split_on(t, sep)[0] == t.take(i - 1));
            assert(seq![s[0]] + t.take(i - 1) =~= s.take(i));
            assert(t.skip(i) =~= s.skip(i + 1));
            assert(split_on(t, sep).drop_first() =~= split_on(s.skip(i + 1), sep));
            assert(split_on(s, sep) =~~= seq![s.take(i)] + split_on(s.skip(i + 1), sep));
        }
    }
}


/// Whether the bytes of `s` from `i` to its end agree with the corresponding
/// prefix of `pat`: a full occurrence, or one cut short by the end of `s`.
pub open spec fn prefix_match_at(s: Seq<u8>, pat: Seq<u8>, i: int) -> bool {
    0 <= i < s.len() && {
        let m = if i + pat.len() <= s.len() {
            pat.len() as int
        } else {
            s.len() - i
        };
        s.subrange(i, i + m) == pat.take(m)
    }
}

/// An occurrence of a proper prefix of `pat` that runs into the end of `s`.
pub open spec fn partial_at(s: Seq<u8>, pat: Seq<u8>, i: int) -> bool {
    0 <= i < s.len() && i + pat.len() > s.len() && s.subrange(i, s.len() as int) == pat.take(
        s.len() - i,
    )
}

/// A position that fails to prefix-match keeps failing when bytes arrive.
pub proof fn lemma_prefix_match_extend(s: Seq<u8>, ext: Seq<u8>, pat: Seq<u8>, i: int)
    requires
        0 <= i < s.len(),
        !prefix_match_at(s, pat, i),
    ensures
        !prefix_match_at(s + ext, pat, i),
{
    let s2 = s + ext;
    if prefix_match_at(s2, pat, i) {
        let m1 = if i + pat.len() <= s.len() {
            pat.len() as int
        } else {
            s.len() - i
        };
        let m2 = if i + pat.len() <= s2.len() {
            pat.len() as int
        } else {
            s2.len() - i
        };
        assert(m1 <= m2);
        assert(s2.subrange(i, i + m2) == pat.take(m2));
        assert(s.subrange(i, i + m1) =~= s2.subrange(i, i + m2).take(m1));
        assert(pat.take(m2).take(m1) =~= pat.take(m1));
        assert(prefix_match_at(s, pat, i));
    }
}

/// A full or cut-short occurrence within a prefix of `s` is one in `s` too,
/// looked at through the prefix.
pub proof fn lemma_match_in_prefix(s: Seq<u8>, pat: Seq<u8>, k: int, j: int)
    requires
        0 <= k <= s.len(),
        0 <= j,
        match_at(s.take(k), pat, j),
    ensures
        prefix_match_at(s, pat, j) || pat.len() == 0,
{
    if pat.len() > 0 {
        assert(s.take(k).subrange(j, j + pat.len() as int) =~= s.subrange(
            j,
            j + pat.len() as int,
        ));
        let m = if j + pat.len() <= s.len() {
            pat.len() as int
        } else {
            s.len() - j
        };
        assert(m == pat.len());
        assert(pat.take(pat.len() as int) =~= pat);
    }
}


} // verus!
