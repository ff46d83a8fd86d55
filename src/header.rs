//! Header records and the scanner that finds them in a header block.
use vstd::prelude::*;
use vstd::string::*;
use vstd::utf8::*;

use crate::conformance::{ConformanceFlag, HeaderConformance};
use crate::error::MailParsingError;
use crate::model::{
    canonical, has_bare_lf, header_stop, is_ascii_ws, is_name_byte, lemma_parse_one_advances,
    name_stop, parse_all, parse_block, parse_one, prefixed, scan_header, serialize, space_stop,
    trim_line_end, HeaderLayout, HeaderView, COLON, CR, LF, SPACE, TAB,
};

verus! {

broadcast use vstd::utf8::group_utf8_lib;

/// One header: its name, the separator after the name, and its value,
/// each exactly as it stands in the text it was parsed from.
#[derive(Debug)]
pub struct Header<'a> {
    name: &'a str,
    value: &'a str,
    separator: &'a str,
    conformance: HeaderConformance,
}

impl<'a> View for Header<'a> {
    type V = HeaderView;

    closed spec fn view(&self) -> HeaderView {
        HeaderView {
            name: self.name.spec_bytes(),
            separator: self.separator.spec_bytes(),
            value: self.value.spec_bytes(),
            conformance: self.conformance,
        }
    }
}

/// Offsets found by scanning one header.
struct Spans {
    name_end: usize,
    value_start: usize,
    value_end: usize,
    len: usize,
    missing_colon: bool,
    non_canonical: bool,
}

impl Spans {
    spec fn layout(self) -> HeaderLayout {
        HeaderLayout {
            name_end: self.name_end as int,
            value_start: self.value_start as int,
            value_end: self.value_end as int,
            len: self.len as int,
            missing_colon: self.missing_colon,
            non_canonical: self.non_canonical,
        }
    }
}

fn ascii_ws(c: u8) -> (r: bool)
    ensures
        r == is_ascii_ws(c),
{
    c == SPACE || c == TAB || c == LF || c == 12 || c == CR
}

fn name_byte(c: u8) -> (r: bool)
    ensures
        r == is_name_byte(c),
{
    33 <= c && c <= 126 && c != COLON
}

/// Extending a range by one byte adds a bare LF exactly when that byte is
/// an LF with no CR before it.
proof fn lemma_bare_lf_step(b: Seq<u8>, lo: int, hi: int)
    requires
        1 <= lo <= hi < b.len(),
    ensures
        has_bare_lf(b, lo, hi + 1) == (has_bare_lf(b, lo, hi) || (b[hi] == LF && b[hi - 1]
            != CR)),
{
    if has_bare_lf(b, lo, hi + 1) {
        let p = choose|p: int| lo <= p < hi + 1 && #[trigger] b[p] == LF && (p == 0 || b[p - 1] != CR);
        if p < hi {
            assert(has_bare_lf(b, lo, hi));
        }
    }
    if has_bare_lf(b, lo, hi) {
        let p = choose|p: int| lo <= p < hi && #[trigger] b[p] == LF && (p == 0 || b[p - 1] != CR);
        assert(lo <= p < hi + 1 && b[p] == LF);
    }
    if b[hi] == LF && b[hi - 1] != CR {
        assert(lo <= hi < hi + 1 && b[hi] == LF);
    }
}

/// In valid UTF-8, the end of a run of ASCII bytes at the start is a
/// character boundary.
proof fn lemma_ascii_prefix_is_boundary(bytes: Seq<u8>, k: int)
    requires
        valid_utf8(bytes),
        0 <= k <= bytes.len(),
        forall|p: int| 0 <= p < k ==> bytes[p] < 128,
    ensures
        is_char_boundary(bytes, k),
    decreases k,
{
    if k > 0 {
        let tail = pop_first_scalar(bytes);
        assert(length_of_first_scalar(bytes) == 1);
        assert(tail =~= bytes.subrange(1, bytes.len() as int));
        assert forall|p: int| 0 <= p < k - 1 implies tail[p] < 128 by {
            assert(tail[p] == bytes[p + 1]);
        }
        lemma_ascii_prefix_is_boundary(tail, k - 1);
    }
}

/// In valid UTF-8, a character boundary followed by an ASCII byte is
/// followed by another boundary.
proof fn lemma_boundary_after_ascii(bytes: Seq<u8>, j: int)
    requires
        valid_utf8(bytes),
        0 <= j < bytes.len(),
        is_char_boundary(bytes, j),
        bytes[j] < 128,
    ensures
        is_char_boundary(bytes, j + 1),
    decreases bytes.len(),
{
    reveal_with_fuel(is_char_boundary, 2);
    let tail = pop_first_scalar(bytes);
    let l = length_of_first_scalar(bytes);
    assert(valid_utf8(tail));
    assert(1 <= l <= bytes.len());
    assert(tail.len() == bytes.len() - l);
    if j == 0 {
        assert(l == 1);
        assert(is_char_boundary(tail, 0));
    } else {
        assert(is_char_boundary(tail, j - l));
        assert(j - l >= 0);
        assert(tail[j - l] == bytes[j]);
        lemma_boundary_after_ascii(tail, j - l);
    }
}

proof fn lemma_encode_utf8_concat(a: Seq<char>, b: Seq<char>)
    ensures
        encode_utf8(a + b) == encode_utf8(a) + encode_utf8(b),
    decreases a.len(),
{
    if a.len() == 0 {
        assert(a + b =~= b);
        assert(encode_utf8(a) + encode_utf8(b) =~= encode_utf8(b));
    } else {
        assert((a + b).drop_first() =~= a.drop_first() + b);
        assert((a + b)[0] == a[0]);
        lemma_encode_utf8_concat(a.drop_first(), b);
        assert(encode_utf8(a + b) =~= encode_utf8(a) + encode_utf8(b));
    }
}

/// The bytes of `s` of an ASCII-only literal.
proof fn lemma_ascii_literal_bytes(s: &str, b: Seq<u8>)
    requires
        s@.len() == b.len(),
        forall|i: int| 0 <= i < b.len() ==> '\0' <= #[trigger] s@[i] <= '\u{7f}' && s@[i] as u8 == b[i],
    ensures
        s.spec_bytes() == b,
{
    assert(is_ascii_chars(s@));
    is_ascii_chars_encode_utf8(s@);
    assert forall|i: int| 0 <= i < b.len() implies s.spec_bytes()[i] == b[i] by {
        assert(s@[i] as u8 == s.spec_bytes()[i]);
    }
    assert(s.spec_bytes() =~= b);
}

/// Appends the bytes of `src` to `out`.
fn push_bytes(out: &mut Vec<u8>, src: &[u8])
    ensures
        final(out)@ == old(out)@ + src@,
{
    let mut i: usize = 0;
    while i < src.len()
        invariant
            i <= src@.len(),
            out@ == old(out)@ + src@.subrange(0, i as int),
        decreases src@.len() - i,
    {
        out.push(src[i]);
        i = i + 1;
        proof {
            assert(src@.subrange(0, i as int) =~= src@.subrange(0, i - 1) + seq![src@[i - 1]]);
        }
    }
    assert(src@.subrange(0, i as int) =~= src@);
}

/// Scans one header at the start of `b`.
fn scan_bytes(b: &[u8]) -> (r: Result<Spans, MailParsingError>)
    ensures
        match r {
            Ok(s) => scan_header(b@) == Ok::<HeaderLayout, MailParsingError>(s.layout()),
            Err(e) => scan_header(b@) == Err::<HeaderLayout, MailParsingError>(e),
        },
        r is Ok ==> {
            let s = r->Ok_0;
            &&& s.name_end <= s.value_start <= s.value_end <= s.len <= b@.len()
            &&& forall|p: int|
                s.name_end <= p < s.value_start ==> #[trigger] b@[p] == COLON || b@[p] == SPACE
            &&& s.name_end == b@.len() || b@[s.name_end as int] == COLON || b@[s.name_end as int]
                == LF
            &&& s.value_end == b@.len() || b@[s.value_end as int] == CR || b@[s.value_end as int]
                == LF
        },
{
    let n = b.len();
    if n == 0 {
        return Err(MailParsingError::EmptyInput);
    }
    if ascii_ws(b[0]) {
        return Err(MailParsingError::MalformedHeader);
    }
    // the name runs up to the first byte that cannot stand in it
    let mut k: usize = 0;
    while k < n && name_byte(b[k])
        invariant
            0 <= k <= n,
            n == b@.len(),
            name_stop(b@, 0) == name_stop(b@, k as int),
        decreases n - k,
    {
        k = k + 1;
    }
    if k == n {
        return Ok(
            Spans {
                name_end: k,
                value_start: k,
                value_end: k,
                len: k,
                missing_colon: true,
                non_canonical: false,
            },
        );
    }
    if b[k] == LF {
        return Ok(
            Spans {
                name_end: k,
                value_start: k,
                value_end: k,
                len: k + 1,
                missing_colon: true,
                non_canonical: true,
            },
        );
    }
    if b[k] != COLON {
        return Err(MailParsingError::MalformedHeader);
    }
    // the separator: the colon and the spaces after it
    let mut vs: usize = k + 1;
    while vs < n && b[vs] == SPACE
        invariant
            k < vs <= n,
            n == b@.len(),
            b@[k as int] == COLON,
            space_stop(b@, k + 1) == space_stop(b@, vs as int),
            forall|p: int| k < p < vs ==> #[trigger] b@[p] == SPACE,
        decreases n - vs,
    {
        vs = vs + 1;
    }
    // the value, with any folded continuation lines
    let mut idx: usize = vs;
    let mut value_end: usize = vs;
    let mut saw_cr = false;
    let mut bare_lf = false;
    let mut done = false;
    while idx < n && !done
        invariant
            1 <= vs <= idx <= n,
            vs <= value_end <= idx,
            n == b@.len(),
            b@[vs - 1] != CR,
            !done ==> header_stop(b@, vs as int) == header_stop(b@, idx as int),
            done ==> header_stop(b@, vs as int) == idx && idx > vs && b@[idx - 1] == LF,
            value_end == trim_line_end(b@, vs as int, idx as int),
            value_end > vs ==> b@[value_end - 1] != CR && b@[value_end - 1] != LF,
            forall|p: int| value_end <= p < idx ==> #[trigger] b@[p] == CR || b@[p] == LF,
            bare_lf == has_bare_lf(b@, vs as int, idx as int),
            saw_cr == (idx > vs && b@[idx - 1] == CR),
        decreases n - idx,
    {
        let c = b[idx];
        proof {
            lemma_bare_lf_step(b@, vs as int, idx as int);
        }
        if c == LF {
            if !saw_cr {
                bare_lf = true;
            }
            saw_cr = false;
            idx = idx + 1;
            if idx >= n || !(b[idx] == SPACE || b[idx] == TAB) {
                done = true;
            }
        } else {
            if c != CR {
                value_end = idx + 1;
                saw_cr = false;
            } else {
                saw_cr = true;
            }
            idx = idx + 1;
        }
    }
    Ok(
        Spans {
            name_end: k,
            value_start: vs,
            value_end,
            len: idx,
            missing_colon: false,
            non_canonical: bare_lf,
        },
    )
}

impl<'a> Header<'a> {
    /// Builds a header from a name and a value, with the separator `": "`
    /// and no conformance flags. Neither is checked.
    pub fn with_name_value(name: &'a str, value: &'a str) -> (r: Header<'a>)
        ensures
            r@ == canonical(name.spec_bytes(), value.spec_bytes()),
    {
        let separator = ": ";
        proof {
            reveal_strlit(": ");
            lemma_ascii_literal_bytes(separator, seq![COLON, SPACE]);
        }
        let r = Header { name, value, separator, conformance: HeaderConformance::empty() };
        proof {
            assert(r@.conformance == HeaderConformance { bits: 0 });
        }
        r
    }

    /// Writes the header to `out` as it stands in a message: name,
    /// separator, value, then LF if the header had non-canonical line
    /// endings and CRLF otherwise.
    pub fn write_header(&self, out: &mut Vec<u8>)
        ensures
            final(out)@ == old(out)@ + serialize(self@),
    {
        push_bytes(out, self.name.as_bytes());
        push_bytes(out, self.separator.as_bytes());
        push_bytes(out, self.value.as_bytes());
        if self.conformance.contains(ConformanceFlag::NonCanonicalLineEndings) {
            out.push(LF);
        } else {
            out.push(CR);
            out.push(LF);
        }
        proof {
            let v = self@;
            assert(out@ =~= old(out)@ + serialize(v));
        }
    }

    /// The header as written by `write_header`, as text.
    pub fn to_header_string(&self) -> (r: String)
        ensures
            r@ == decode_utf8(serialize(self@)),
    {
        let ending = if self.conformance.contains(ConformanceFlag::NonCanonicalLineEndings) {
            proof {
                reveal_strlit("\n");
                lemma_ascii_literal_bytes("\n", seq![LF]);
            }
            "\n"
        } else {
            proof {
                reveal_strlit("\r\n");
                lemma_ascii_literal_bytes("\r\n", seq![CR, LF]);
            }
            "\r\n"
        };
        let mut r = String::from_str(self.name);
        r.append(self.separator);
        r.append(self.value);
        r.append(ending);
        proof {
            let t = self.name@ + self.separator@ + self.value@;
            lemma_encode_utf8_concat(self.name@, self.separator@);
            lemma_encode_utf8_concat(self.name@ + self.separator@, self.value@);
            lemma_encode_utf8_concat(t, ending@);
            assert(encode_utf8(r@) == serialize(self@));
        }
        r
    }

    /// The header's name, as written.
    pub fn get_name(&self) -> (r: &'a str)
        ensures
            r.spec_bytes() == self@.name,
    {
        self.name
    }

    /// The header's value, as written, without its final line ending.
    pub fn get_raw_value(&self) -> (r: &'a str)
        ensures
            r.spec_bytes() == self@.value,
    {
        self.value
    }

    /// What stands between the header's name and its value.
    pub fn get_separator(&self) -> (r: &'a str)
        ensures
            r.spec_bytes() == self@.separator,
    {
        self.separator
    }

    /// How far the header departs from the canonical form.
    pub fn conformance(&self) -> (r: HeaderConformance)
        ensures
            r == self@.conformance,
    {
        self.conformance
    }

    /// Parses one header at the start of `header_block`, returning it and
    /// the number of bytes it takes (its final line ending included).
    pub fn parse(header_block: &'a str) -> (r: Result<(Header<'a>, usize), MailParsingError>)
        ensures
            match r {
                Ok((h, n)) => parse_one(header_block.spec_bytes()) == Ok::<
                    (HeaderView, int),
                    MailParsingError,
                >((h@, n as int)),
                Err(e) => parse_one(header_block.spec_bytes()) == Err::<
                    (HeaderView, int),
                    MailParsingError,
                >(e),
            },
    {
        let b = header_block.as_bytes();
        let s = match scan_bytes(b) {
            Ok(s) => s,
            Err(e) => return Err(e),
        };
        let ghost all = header_block.spec_bytes();
        proof {
            assert(valid_utf8(all));
            assert(!is_continuation_byte(COLON) && !is_continuation_byte(LF)
                && !is_continuation_byte(CR));
            if s.name_end < all.len() {
                is_char_boundary_iff_not_is_continuation_byte(all, s.name_end as int);
            }
        }
        let (name, rest) = header_block.split_at(s.name_end);
        let ghost rb = rest.spec_bytes();
        proof {
            assert(valid_utf8(rb));
            lemma_ascii_prefix_is_boundary(rb, (s.value_start - s.name_end) as int);
        }
        let (separator, rest2) = rest.split_at(s.value_start - s.name_end);
        let ghost vb = rest2.spec_bytes();
        proof {
            assert(valid_utf8(vb));
            assert(vb.len() == all.len() - s.value_start);
            if s.value_end < all.len() {
                assert(vb[s.value_end - s.value_start] == all[s.value_end as int]);
                is_char_boundary_iff_not_is_continuation_byte(
                    vb,
                    (s.value_end - s.value_start) as int,
                );
            }
        }
        let (value, _) = rest2.split_at(s.value_end - s.value_start);
        let conformance = HeaderConformance::from_flags(s.missing_colon, s.non_canonical);
        let h = Header { name, value, separator, conformance };
        proof {
            assert(h@.separator =~= all.subrange(s.name_end as int, s.value_start as int));
            assert(h@.value =~= all.subrange(s.value_start as int, s.value_end as int));
        }
        Ok((h, s.len))
    }

    /// Parses a header block: one header after another until the blank
    /// line that ends the block, or the end of the input. Returns the
    /// headers and the offset at which the body starts.
    pub fn parse_headers(header_block: &'a str) -> (r: Result<
        (Vec<Header<'a>>, usize),
        MailParsingError,
    >)
        ensures
            match r {
                Ok((hs, end)) => parse_all(header_block.spec_bytes()) == Ok::<
                    (Seq<HeaderView>, int),
                    MailParsingError,
                >((views(hs@), end as int)),
                Err(e) => parse_all(header_block.spec_bytes()) == Err::<
                    (Seq<HeaderView>, int),
                    MailParsingError,
                >(e),
            },
    {
        let b = header_block.as_bytes();
        let n = b.len();
        let ghost all = header_block.spec_bytes();
        let mut headers: Vec<Header<'a>> = Vec::new();
        let mut idx: usize = 0;
        proof {
            assert(views(headers@) =~= seq![]);
            assert(seq![] + parse_all(all)->Ok_0.0 =~= parse_all(all)->Ok_0.0);
        }
        while idx < n
            invariant
                all == header_block.spec_bytes(),
                n == all.len(),
                b@ == all,
                valid_utf8(all),
                idx <= n,
                idx == 0 || idx == n || all[idx - 1] == LF,
                parse_all(all) == prefixed(
                    views(headers@),
                    parse_block(all, idx as int, headers.len() > 0),
                ),
            decreases n - idx,
        {
            let c = b[idx];
            if headers.len() == 0 && ascii_ws(c) {
                proof {
                    assert(parse_block(all, idx as int, false) == Err::<
                        (Seq<HeaderView>, int),
                        MailParsingError,
                    >(MailParsingError::MalformedHeader));
                }
                return Err(MailParsingError::MalformedHeader);
            }
            if c == LF {
                // a blank line: the block ends here
                proof {
                    assert(views(headers@) + seq![] =~= views(headers@));
                }
                return Ok((headers, idx + 1));
            }
            if c == CR {
                if idx + 1 < n && b[idx + 1] == LF {
                    proof {
                        assert(views(headers@) + seq![] =~= views(headers@));
                    }
                    return Ok((headers, idx + 2));
                }
                return Err(MailParsingError::LoneCarriageReturn);
            }
            proof {
                if idx > 0 {
                    assert(all[idx - 1] == LF);
                    assert(!is_continuation_byte(LF));
                    is_char_boundary_iff_not_is_continuation_byte(all, idx - 1);
                    assert(is_char_boundary(all, idx - 1));
                    lemma_boundary_after_ascii(all, idx - 1);
                } else {
                    is_char_boundary_start_end_of_seq(all);
                }
                assert(is_char_boundary(all, idx as int));
            }
            let (_, rest) = header_block.split_at(idx);
            let (h, used) = match Header::parse(rest) {
                Ok(p) => p,
                Err(e) => return Err(e),
            };
            let ghost rb = rest.spec_bytes();
            let ghost old_views = views(headers@);
            proof {
                assert(rb =~= all.subrange(idx as int, n as int));
                lemma_parse_one_advances(rb);
            }
            headers.push(h);
            proof {
                assert(views(headers@) =~= old_views + seq![h@]);
                let tail = parse_block(all, idx + used, true);
                if tail is Ok {
                    assert(old_views + (seq![h@] + tail->Ok_0.0) =~= views(headers@)
                        + tail->Ok_0.0);
                }
                if used < rb.len() {
                    assert(all[idx + used - 1] == rb[used - 1]);
                }
            }
            idx = idx + used;
        }
        proof {
            assert(views(headers@) + seq![] =~= views(headers@));
        }
        Ok((headers, idx))
    }
}

/// The views of a sequence of headers.
pub open spec fn views<'a>(hs: Seq<Header<'a>>) -> Seq<HeaderView> {
    hs.map_values(|h: Header<'a>| h@)
}

} // verus!
