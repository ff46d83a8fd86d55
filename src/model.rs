//! The meaning of a header scan, stated over byte sequences.
use vstd::prelude::*;

use crate::conformance::HeaderConformance;
use crate::error::MailParsingError;

verus! {

pub const CR: u8 = 13;

pub const LF: u8 = 10;

pub const SPACE: u8 = 32;

pub const TAB: u8 = 9;

pub const COLON: u8 = 58;

/// ASCII whitespace: space, tab, LF, form feed and CR.
pub open spec fn is_ascii_ws(c: u8) -> bool {
    c == SPACE || c == TAB || c == LF || c == 12 || c == CR
}

/// A byte that may stand in a header name: printable US-ASCII except the colon.
pub open spec fn is_name_byte(c: u8) -> bool {
    33 <= c <= 126 && c != COLON
}

/// A byte that, at the start of a line, continues the previous header.
pub open spec fn is_fold_byte(c: u8) -> bool {
    c == SPACE || c == TAB
}

/// The first index at or after `i` that does not hold a name byte.
pub open spec fn name_stop(b: Seq<u8>, i: int) -> int
    decreases b.len() - i,
{
    if i >= b.len() {
        b.len() as int
    } else if !is_name_byte(b[i]) {
        i
    } else {
        name_stop(b, i + 1)
    }
}

/// The first index at or after `i` that does not hold a space.
pub open spec fn space_stop(b: Seq<u8>, i: int) -> int
    decreases b.len() - i,
{
    if i >= b.len() {
        b.len() as int
    } else if b[i] != SPACE {
        i
    } else {
        space_stop(b, i + 1)
    }
}

/// The end of the header whose value scan reaches index `i`: just past the
/// first LF at or after `i` that is not followed by a space or tab, or the
/// end of the input.
pub open spec fn header_stop(b: Seq<u8>, i: int) -> int
    decreases b.len() - i,
{
    if i >= b.len() {
        b.len() as int
    } else if b[i] == LF && (i + 1 >= b.len() || !is_fold_byte(b[i + 1])) {
        i + 1
    } else {
        header_stop(b, i + 1)
    }
}

/// `hi` moved back over CR and LF bytes, but not below `lo`.
pub open spec fn trim_line_end(b: Seq<u8>, lo: int, hi: int) -> int
    decreases hi - lo,
{
    if hi <= lo {
        lo
    } else if b[hi - 1] == CR || b[hi - 1] == LF {
        trim_line_end(b, lo, hi - 1)
    } else {
        hi
    }
}

/// Some LF in `[lo, hi)` has no CR just before it.
pub open spec fn has_bare_lf(b: Seq<u8>, lo: int, hi: int) -> bool {
    exists|p: int| lo <= p < hi && #[trigger] b[p] == LF && (p == 0 || b[p - 1] != CR)
}

/// Where one header lies in a byte sequence that starts with it: offsets
/// of the name's end and of the value's start and end, the number of bytes
/// that belong to the header, and its conformance flags.
pub struct HeaderLayout {
    pub name_end: int,
    pub value_start: int,
    pub value_end: int,
    pub len: int,
    pub missing_colon: bool,
    pub non_canonical: bool,
}

/// What scanning one header at the start of `b` yields.
pub open spec fn scan_header(b: Seq<u8>) -> Result<HeaderLayout, MailParsingError> {
    if b.len() == 0 {
        Err(MailParsingError::EmptyInput)
    } else if is_ascii_ws(b[0]) {
        Err(MailParsingError::MalformedHeader)
    } else {
        let k = name_stop(b, 0);
        if k == b.len() {
            Ok(
                HeaderLayout {
                    name_end: k,
                    value_start: k,
                    value_end: k,
                    len: k,
                    missing_colon: true,
                    non_canonical: false,
                },
            )
        } else if b[k] == LF {
            Ok(
                HeaderLayout {
                    name_end: k,
                    value_start: k,
                    value_end: k,
                    len: k + 1,
                    missing_colon: true,
                    non_canonical: true,
                },
            )
        } else if b[k] == COLON {
            let vs = space_stop(b, k + 1);
            let e = header_stop(b, vs);
            Ok(
                HeaderLayout {
                    name_end: k,
                    value_start: vs,
                    value_end: trim_line_end(b, vs, e),
                    len: e,
                    missing_colon: false,
                    non_canonical: has_bare_lf(b, vs, e),
                },
            )
        } else {
            Err(MailParsingError::MalformedHeader)
        }
    }
}

/// A header as byte sequences: name, separator and value, with its flags.
pub struct HeaderView {
    pub name: Seq<u8>,
    pub separator: Seq<u8>,
    pub value: Seq<u8>,
    pub conformance: HeaderConformance,
}

/// The header that `l` picks out of `b`.
pub open spec fn header_at(b: Seq<u8>, l: HeaderLayout) -> HeaderView {
    HeaderView {
        name: b.subrange(0, l.name_end),
        separator: b.subrange(l.name_end, l.value_start),
        value: b.subrange(l.value_start, l.value_end),
        conformance: HeaderConformance::of_flags(l.missing_colon, l.non_canonical),
    }
}

/// The header parsed from the start of `b`, and the number of bytes it takes.
pub open spec fn parse_one(b: Seq<u8>) -> Result<(HeaderView, int), MailParsingError> {
    match scan_header(b) {
        Ok(l) => Ok((header_at(b, l), l.len)),
        Err(e) => Err(e),
    }
}

proof fn lemma_name_stop_bytes(b: Seq<u8>, i: int)
    requires
        0 <= i <= b.len(),
    ensures
        i <= name_stop(b, i) <= b.len(),
        forall|p: int| i <= p < name_stop(b, i) ==> is_name_byte(#[trigger] b[p]),
        name_stop(b, i) < b.len() ==> !is_name_byte(b[name_stop(b, i)]),
    decreases b.len() - i,
{
    if i < b.len() && is_name_byte(b[i]) {
        lemma_name_stop_bytes(b, i + 1);
    }
}

proof fn lemma_space_stop_bytes(b: Seq<u8>, i: int)
    requires
        0 <= i <= b.len(),
    ensures
        i <= space_stop(b, i) <= b.len(),
        forall|p: int| i <= p < space_stop(b, i) ==> #[trigger] b[p] == SPACE,
    decreases b.len() - i,
{
    if i < b.len() && b[i] == SPACE {
        lemma_space_stop_bytes(b, i + 1);
    }
}

proof fn lemma_header_stop_bounds(b: Seq<u8>, i: int)
    requires
        0 <= i <= b.len(),
    ensures
        i <= header_stop(b, i) <= b.len(),
        i < b.len() ==> i < header_stop(b, i),
        header_stop(b, i) == b.len() || b[header_stop(b, i) - 1] == LF,
    decreases b.len() - i,
{
    if i < b.len() && !(b[i] == LF && (i + 1 >= b.len() || !is_fold_byte(b[i + 1]))) {
        lemma_header_stop_bounds(b, i + 1);
    }
}

/// Parsing one header always consumes at least one byte and never more
/// than there are, and it stops just after an LF or at the end of the
/// input; so a block scan that starts the next header where this one
/// stopped moves strictly forward and never reads a byte twice.
pub proof fn lemma_parse_one_advances(b: Seq<u8>)
    ensures
        parse_one(b) is Ok ==> {
            let n = parse_one(b)->Ok_0.1;
            &&& 1 <= n <= b.len()
            &&& n == b.len() || b[n - 1] == LF
        },
{
    if b.len() > 0 && !is_ascii_ws(b[0]) {
        lemma_name_stop_bytes(b, 0);
        let k = name_stop(b, 0);
        if k < b.len() && b[k] == COLON {
            lemma_space_stop_bytes(b, k + 1);
            lemma_header_stop_bounds(b, space_stop(b, k + 1));
        }
    }
}

/// `done` put in front of the headers of a successful result.
pub open spec fn prefixed(
    done: Seq<HeaderView>,
    r: Result<(Seq<HeaderView>, int), MailParsingError>,
) -> Result<(Seq<HeaderView>, int), MailParsingError> {
    match r {
        Ok((hs, end)) => Ok((done + hs, end)),
        Err(e) => Err(e),
    }
}

/// The headers of a block from offset `i` on, and the offset just past the
/// blank line that ends the block (or the end of the input); `started`
/// tells whether a header was parsed before `i`.
pub open spec fn parse_block(b: Seq<u8>, i: int, started: bool) -> Result<
    (Seq<HeaderView>, int),
    MailParsingError,
>
    decreases b.len() - i,
    via parse_block_decreases
{
    if i < 0 || i >= b.len() {
        Ok((seq![], i))
    } else if !started && is_ascii_ws(b[i]) {
        Err(MailParsingError::MalformedHeader)
    } else if b[i] == LF {
        Ok((seq![], i + 1))
    } else if b[i] == CR {
        if i + 1 < b.len() && b[i + 1] == LF {
            Ok((seq![], i + 2))
        } else {
            Err(MailParsingError::LoneCarriageReturn)
        }
    } else {
        match parse_one(b.subrange(i, b.len() as int)) {
            Ok((h, n)) => prefixed(seq![h], parse_block(b, i + n, true)),
            Err(e) => Err(e),
        }
    }
}

#[via_fn]
proof fn parse_block_decreases(b: Seq<u8>, i: int, started: bool) {
    if 0 <= i < b.len() {
        lemma_parse_one_advances(b.subrange(i, b.len() as int));
    }
}

/// The headers of a whole block, and the offset at which the body starts.
pub open spec fn parse_all(b: Seq<u8>) -> Result<(Seq<HeaderView>, int), MailParsingError> {
    parse_block(b, 0, false)
}

/// The line ending that ends a serialized header.
pub open spec fn line_ending(c: HeaderConformance) -> Seq<u8> {
    if c.has_non_canonical_line_endings() {
        seq![LF]
    } else {
        seq![CR, LF]
    }
}

/// The bytes of a header as it is written out: name, separator, value and
/// line ending.
pub open spec fn serialize(h: HeaderView) -> Seq<u8> {
    h.name + h.separator + h.value + line_ending(h.conformance)
}

/// A header built from a name and a value, with the separator `": "` and
/// no conformance flags.
pub open spec fn canonical(name: Seq<u8>, value: Seq<u8>) -> HeaderView {
    HeaderView {
        name,
        separator: seq![COLON, SPACE],
        value,
        conformance: HeaderConformance { bits: 0 },
    }
}

proof fn lemma_name_run(b: Seq<u8>, i: int, k: int)
    requires
        0 <= i <= k < b.len(),
        forall|p: int| i <= p < k ==> is_name_byte(#[trigger] b[p]),
        !is_name_byte(b[k]),
    ensures
        name_stop(b, i) == k,
    decreases k - i,
{
    if i < k {
        lemma_name_run(b, i + 1, k);
    }
}

proof fn lemma_last_line(b: Seq<u8>, i: int)
    requires
        0 <= i < b.len(),
        forall|p: int| i <= p < b.len() - 1 ==> #[trigger] b[p] != LF,
        b[b.len() - 1] == LF,
    ensures
        header_stop(b, i) == b.len(),
    decreases b.len() - i,
{
    if i < b.len() - 1 {
        lemma_last_line(b, i + 1);
    }
}

/// A byte that may stand in a value written on one line: no control byte.
pub open spec fn is_text_byte(c: u8) -> bool {
    c >= 32 && c != 127
}

/// A name and a value that survive serialization and parsing unchanged:
/// the name is non-empty and made of name bytes, the value holds no
/// control byte and does not start with a space (which would count as
/// part of the separator).
pub open spec fn round_trips(name: Seq<u8>, value: Seq<u8>) -> bool {
    &&& name.len() > 0
    &&& forall|i: int| 0 <= i < name.len() ==> is_name_byte(#[trigger] name[i])
    &&& forall|i: int| 0 <= i < value.len() ==> is_text_byte(#[trigger] value[i])
    &&& value.len() == 0 || value[0] != SPACE
}

/// Serializing a header built from a name and a value, then parsing the
/// bytes, gives back the same header (same name, separator and value, no
/// conformance flag), and the parse takes every byte written.
pub proof fn lemma_canonical_round_trip(name: Seq<u8>, value: Seq<u8>)
    requires
        round_trips(name, value),
    ensures
        parse_one(serialize(canonical(name, value))) == Ok::<(HeaderView, int), MailParsingError>(
            (canonical(name, value), serialize(canonical(name, value)).len() as int),
        ),
{
    let h = canonical(name, value);
    let b = serialize(h);
    let k = name.len() as int;
    let vs = k + 2;
    let ve = vs + value.len();
    assert(h.conformance.has_non_canonical_line_endings() == false) by {
        assert(0u8 & 2u8 != 2u8) by (bit_vector);
    }
    assert(b =~= name + seq![COLON, SPACE] + value + seq![CR, LF]);
    assert(b.len() == ve + 2);
    assert(b[0] == name[0]);
    assert forall|p: int| 0 <= p < k implies is_name_byte(#[trigger] b[p]) by {
        assert(b[p] == name[p]);
    }
    lemma_name_run(b, 0, k);
    assert(space_stop(b, k + 1) == vs) by {
        assert(b[k + 1] == SPACE);
        assert(space_stop(b, k + 1) == space_stop(b, vs));
        if value.len() > 0 {
            assert(b[vs] == value[0]);
        } else {
            assert(b[vs] == CR);
        }
    }
    assert forall|p: int| vs <= p < b.len() - 1 implies #[trigger] b[p] != LF by {
        if p < ve {
            assert(b[p] == value[p - vs]);
        }
    }
    lemma_last_line(b, vs);
    assert(trim_line_end(b, vs, b.len() as int) == ve) by {
        assert(b[b.len() - 1] == LF && b[b.len() - 2] == CR);
        assert(trim_line_end(b, vs, b.len() as int) == trim_line_end(b, vs, b.len() - 1));
        assert(trim_line_end(b, vs, b.len() - 1) == trim_line_end(b, vs, ve));
        if value.len() > 0 {
            assert(b[ve - 1] == value[value.len() - 1]);
        }
    }
    assert(!has_bare_lf(b, vs, b.len() as int)) by {
        if has_bare_lf(b, vs, b.len() as int) {
            let p = choose|p: int|
                vs <= p < b.len() && #[trigger] b[p] == LF && (p == 0 || b[p - 1] != CR);
            if p < ve {
                assert(b[p] == value[p - vs]);
            }
        }
    }
    assert(HeaderConformance::of_flags(false, false) == HeaderConformance { bits: 0 }) by {
        assert(0u8 | 0u8 == 0u8) by (bit_vector);
    }
    assert(b.subrange(0, k) =~= name);
    assert(b.subrange(k, vs) =~= seq![COLON, SPACE]);
    assert(b.subrange(vs, ve) =~= value);
}

/// The shape of every parsed header: name, separator and value follow one
/// another without gap from the start of the input; the name is made of
/// printable US-ASCII bytes other than the colon; the separator is empty
/// exactly when no colon was found, and is otherwise a colon and spaces;
/// and the non-canonical line ending flag is set exactly when some LF that
/// the header consumed had no CR before it.
pub proof fn lemma_parsed_header_shape(b: Seq<u8>)
    ensures
        parse_one(b) is Ok ==> {
            let (h, n) = parse_one(b)->Ok_0;
            let framed = (h.name.len() + h.separator.len() + h.value.len()) as int;
            &&& framed <= n <= b.len()
            &&& h.name + h.separator + h.value == b.subrange(0, framed)
            &&& forall|i: int| 0 <= i < h.name.len() ==> is_name_byte(#[trigger] h.name[i])
            &&& h.conformance.has_missing_colon() <==> h.separator.len() == 0
            &&& h.separator.len() > 0 ==> h.separator[0] == COLON && forall|i: int|
                1 <= i < h.separator.len() ==> #[trigger] h.separator[i] == SPACE
            &&& h.conformance.has_non_canonical_line_endings() <==> has_bare_lf(b, 0, n)
        },
{
    if b.len() > 0 && !is_ascii_ws(b[0]) {
        lemma_name_stop_bytes(b, 0);
        lemma_parse_one_advances(b);
        let k = name_stop(b, 0);
        let c1 = HeaderConformance::of_flags(true, true);
        let c2 = HeaderConformance::of_flags(true, false);
        let c3 = HeaderConformance::of_flags(false, true);
        let c4 = HeaderConformance::of_flags(false, false);
        assert(c1.has_missing_colon() && c1.has_non_canonical_line_endings()) by {
            assert((1u8 | 2u8) & 1u8 == 1u8 && (1u8 | 2u8) & 2u8 == 2u8) by (bit_vector);
        }
        assert(c2.has_missing_colon() && !c2.has_non_canonical_line_endings()) by {
            assert((1u8 | 0u8) & 1u8 == 1u8 && (1u8 | 0u8) & 2u8 != 2u8) by (bit_vector);
        }
        assert(!c3.has_missing_colon() && c3.has_non_canonical_line_endings()) by {
            assert((0u8 | 2u8) & 1u8 != 1u8 && (0u8 | 2u8) & 2u8 == 2u8) by (bit_vector);
        }
        assert(!c4.has_missing_colon() && !c4.has_non_canonical_line_endings()) by {
            assert((0u8 | 0u8) & 1u8 != 1u8 && (0u8 | 0u8) & 2u8 != 2u8) by (bit_vector);
        }
        if k == b.len() {
            assert(!has_bare_lf(b, 0, k));
            assert(b.subrange(0, k) + seq![] + seq![] =~= b.subrange(0, k));
        } else if b[k] == LF {
            assert(k > 0);
            assert(is_name_byte(b[k - 1]));
            assert(has_bare_lf(b, 0, k + 1));
            assert(b.subrange(0, k) + b.subrange(k, k) + b.subrange(k, k) =~= b.subrange(0, k));
        } else if b[k] == COLON {
            lemma_space_stop_bytes(b, k + 1);
            let vs = space_stop(b, k + 1);
            lemma_header_stop_bounds(b, vs);
            let e = header_stop(b, vs);
            let l = scan_header(b)->Ok_0;
            let h = header_at(b, l);
            assert(vs <= l.value_end <= e) by {
                lemma_trim_line_end_bounds(b, vs, e);
            }
            assert(h.name + h.separator + h.value =~= b.subrange(0, l.value_end));
            assert(h.separator[0] == b[k]);
            assert forall|i: int| 1 <= i < h.separator.len() implies #[trigger] h.separator[i]
                == SPACE by {
                assert(h.separator[i] == b[k + i]);
            }
            assert(has_bare_lf(b, 0, e) == has_bare_lf(b, vs, e)) by {
                if has_bare_lf(b, 0, e) {
                    let p = choose|p: int|
                        0 <= p < e && #[trigger] b[p] == LF && (p == 0 || b[p - 1] != CR);
                    if p < k {
                        assert(is_name_byte(b[p]));
                    } else if k <= p < vs {
                        assert(p == k || b[p] == SPACE);
                    }
                    assert(vs <= p < e);
                }
                if has_bare_lf(b, vs, e) {
                    let p = choose|p: int|
                        vs <= p < e && #[trigger] b[p] == LF && (p == 0 || b[p - 1] != CR);
                    assert(0 <= p < e);
                }
            }
        }
    }
}

proof fn lemma_trim_line_end_bounds(b: Seq<u8>, lo: int, hi: int)
    requires
        lo <= hi,
    ensures
        lo <= trim_line_end(b, lo, hi) <= hi,
    decreases hi - lo,
{
    if hi > lo && (b[hi - 1] == CR || b[hi - 1] == LF) {
        lemma_trim_line_end_bounds(b, lo, hi - 1);
    }
}

} // verus!
