//! The RESP stream parser: splits a buffer at each line terminator and
//! consumes the segments left to right with a recursive decoder. The parser
//! is proved to invert the canonical encoder on the supported subset.

use crate::decimal::dec_int;
use crate::decimal::dec_nat;
use crate::decimal::lemma_dec_int_parse;
use crate::decimal::lemma_dec_nat_parse_usize;
use crate::decimal::lemma_dec_nat_val;
use crate::decimal::all_digits;
use crate::decimal::is_digit;
use crate::decimal::spec_parse_i64;
use crate::decimal::spec_parse_usize;
use crate::resp::crlf;
use crate::resp::encode;
use crate::resp::encode_list;
use crate::resp::line_ok;
use crate::resp::no_crlf;
use crate::resp::wf;
use crate::resp::wf_list;
use crate::resp::RespData;
use crate::resp::RESPValue;
use vstd::prelude::*;

verus! {

/// Why a buffer failed to parse: a frame that can never parse, an unknown
/// leading byte, or a frame whose tail has not arrived yet.
#[derive(Clone, Copy, Debug, PartialEq, Eq, Structural)]
pub enum ParseError {
    MalformedFrame,
    UnknownPrefix,
    Incomplete,
}

/// A line terminator starts at position `j`.
pub open spec fn has_crlf_at(s: Seq<char>, j: int) -> bool {
    0 <= j && j + 1 < s.len() && s[j] == '\r' && s[j + 1] == '\n'
}

/// The position of the first line terminator, or `-1` if there is none.
pub open spec fn find_crlf(s: Seq<char>) -> int
    decreases s.len(),
{
    if s.len() < 2 {
        -1
    } else if s[0] == '\r' && s[1] == '\n' {
        0
    } else {
        let r = find_crlf(s.drop_first());
        if r < 0 {
            -1
        } else {
            r + 1
        }
    }
}

pub proof fn lemma_find_crlf(s: Seq<char>)
    ensures
        find_crlf(s) == -1 ==> forall|j: int| !has_crlf_at(s, j),
        find_crlf(s) >= 0 ==> has_crlf_at(s, find_crlf(s)),
        find_crlf(s) >= 0 ==> forall|j: int| 0 <= j < find_crlf(s) ==> !has_crlf_at(s, j),
    decreases s.len(),
{
    if s.len() < 2 {
        assert(forall|j: int| !has_crlf_at(s, j));
    } else if s[0] == '\r' && s[1] == '\n' {
    } else {
        lemma_find_crlf(s.drop_first());
        let t = s.drop_first();
        assert(forall|j: int| 1 <= j ==> has_crlf_at(s, j) == has_crlf_at(t, j - 1));
        assert(!has_crlf_at(s, 0));
        if find_crlf(t) < 0 {
            assert(forall|j: int| !has_crlf_at(s, j));
        }
    }
}

/// The buffer split at each line terminator, in order; the final segment
/// (with no terminator after it) is always present, possibly empty.
pub open spec fn split_crlf(s: Seq<char>) -> Seq<Seq<char>>
    decreases s.len(),
{
    let i = find_crlf(s);
    if i < 0 || i + 2 > s.len() {
        seq![s]
    } else {
        seq![s.subrange(0, i)] + split_crlf(s.subrange(i + 2, s.len() as int))
    }
}

/// Splitting a clean segment followed by a terminator peels off exactly that
/// segment.
pub proof fn lemma_split_prepend(seg: Seq<char>, rest: Seq<char>)
    requires
        no_crlf(seg),
    ensures
        split_crlf(seg + crlf() + rest) == seq![seg] + split_crlf(rest),
{
    let t = seg + crlf() + rest;
    lemma_find_crlf(t);
    assert(has_crlf_at(t, seg.len() as int));
    let k = find_crlf(t);
    assert(k >= 0);
    assert(k <= seg.len());
    if k < seg.len() {
        assert(has_crlf_at(t, k));
        if k + 1 < seg.len() {
            assert(t[k] == seg[k] && t[k + 1] == seg[k + 1]);
            assert(false);
        } else {
            assert(t[k + 1] == '\r');
            assert(false);
        }
    }
    assert(k == seg.len());
    assert(t.subrange(0, k) =~= seg);
    assert(t.subrange(k + 2, t.len() as int) =~= rest);
}

/// A buffer with no terminator is a single segment.
pub proof fn lemma_split_whole(s: Seq<char>)
    requires
        forall|j: int| !has_crlf_at(s, j),
    ensures
        split_crlf(s) == seq![s],
{
    lemma_find_crlf(s);
    if find_crlf(s) >= 0 {
        assert(has_crlf_at(s, find_crlf(s)));
        assert(false);
    }
}

/// The number of characters covered by the first `n` segments, each with its
/// two-character terminator.
pub open spec fn seg_chars(segs: Seq<Seq<char>>, n: int) -> int
    decreases n,
{
    if n <= 0 {
        0
    } else {
        seg_chars(segs, n - 1) + segs[n - 1].len() + 2
    }
}

/// The segments of a buffer partition it: all terminated segments with their
/// terminators, then the trailing unterminated segment.
pub proof fn lemma_split_partition(s: Seq<char>)
    ensures
        split_crlf(s).len() >= 1,
        s.len() == seg_chars(split_crlf(s), split_crlf(s).len() - 1) + split_crlf(s).last().len(),
    decreases s.len(),
{
    let i = find_crlf(s);
    if i < 0 {
        assert(seg_chars(split_crlf(s), 0) == 0);
    } else {
        lemma_find_crlf(s);
        let rest = s.subrange(i + 2, s.len() as int);
        lemma_split_partition(rest);
        let segs = split_crlf(s);
        let rsegs = split_crlf(rest);
        assert(segs =~= seq![s.subrange(0, i)] + rsegs);
        lemma_seg_chars_shift(s.subrange(0, i), rsegs, rsegs.len() - 1);
    }
}

/// Prepending one segment shifts the covered-character count by that
/// segment's length plus its terminator.
pub proof fn lemma_seg_chars_shift(seg: Seq<char>, segs: Seq<Seq<char>>, n: int)
    requires
        0 <= n <= segs.len(),
    ensures
        seg_chars(seq![seg] + segs, n + 1) == seg.len() + 2 + seg_chars(segs, n),
    decreases n,
{
    let all = seq![seg] + segs;
    if n == 0 {
        assert(seg_chars(all, 1) == seg_chars(all, 0) + all[0].len() + 2);
        assert(all[0] == seg);
    } else {
        lemma_seg_chars_shift(seg, segs, n - 1);
        assert(all[n] == segs[n - 1]);
    }
}

/// Covered characters grow with the number of segments taken.
pub proof fn lemma_seg_chars_mono(segs: Seq<Seq<char>>, m: int, n: int)
    requires
        0 <= m <= n,
    ensures
        seg_chars(segs, m) <= seg_chars(segs, n),
        m < n ==> seg_chars(segs, m) + 2 <= seg_chars(segs, n),
    decreases n - m,
{
    if m < n {
        lemma_seg_chars_mono(segs, m, n - 1);
    }
}

/// Consumes one RESP value from the front of the terminated segments.
/// A segment starting `+`, `-` or `:` is one value; `$` takes the next
/// segment as the payload (the declared length is informational, the
/// terminator already framed the payload); `*` declares a count and consumes
/// that many further values.
pub open spec fn spec_parse_value(segs: Seq<Seq<char>>) -> Result<
    (RespData, Seq<Seq<char>>),
    ParseError,
>
    decreases segs.len(), 0nat,
{
    if segs.len() == 0 {
        Err(ParseError::Incomplete)
    } else {
        let seg = segs[0];
        if seg.len() == 0 {
            Err(ParseError::MalformedFrame)
        } else {
            let body = seg.subrange(1, seg.len() as int);
            if seg[0] == '+' {
                Ok((RespData::SimpleString(body), segs.drop_first()))
            } else if seg[0] == '-' {
                Ok((RespData::Error(body), segs.drop_first()))
            } else if seg[0] == ':' {
                match spec_parse_i64(body) {
                    Some(n) => Ok((RespData::Integer(n as int), segs.drop_first())),
                    None => Err(ParseError::MalformedFrame),
                }
            } else if seg[0] == '$' {
                if segs.len() >= 2 {
                    Ok((RespData::BulkString(segs[1]), segs.subrange(2, segs.len() as int)))
                } else {
                    Err(ParseError::Incomplete)
                }
            } else if seg[0] == '*' {
                match spec_parse_usize(body) {
                    Some(k) => match spec_parse_elems(k as int, segs.drop_first()) {
                        Ok((vs, rest)) => Ok((RespData::Array(vs), rest)),
                        Err(e) => Err(e),
                    },
                    None => Err(ParseError::MalformedFrame),
                }
            } else {
                Err(ParseError::UnknownPrefix)
            }
        }
    }
}

/// Consumes `k` RESP values from the front of the segments.
pub open spec fn spec_parse_elems(k: int, segs: Seq<Seq<char>>) -> Result<
    (Seq<RespData>, Seq<Seq<char>>),
    ParseError,
>
    decreases segs.len(), 1 + (if k > 0 {
        k
    } else {
        0
    }),
{
    if k <= 0 {
        Ok((Seq::empty(), segs))
    } else {
        match spec_parse_value(segs) {
            Ok((v, rest)) => {
                if rest.len() < segs.len() {
                    match spec_parse_elems(k - 1, rest) {
                        Ok((vs, rest2)) => Ok((seq![v] + vs, rest2)),
                        Err(e) => Err(e),
                    }
                } else {
                    Err(ParseError::MalformedFrame)
                }
            },
            Err(e) => Err(e),
        }
    }
}

/// The segments that the encoding of a value contributes to the split
/// buffer, in order.
pub open spec fn segments_of(v: RespData) -> Seq<Seq<char>>
    decreases v, 0nat,
{
    match v {
        RespData::SimpleString(s) => seq![seq!['+'] + s],
        RespData::Error(s) => seq![seq!['-'] + s],
        RespData::Integer(n) => seq![seq![':'] + dec_int(n)],
        RespData::BulkString(s) => seq![seq!['$'] + dec_nat(s.len()), s],
        RespData::Array(vs) => seq![seq!['*'] + dec_nat(vs.len())] + segs_list(vs, 0),
    }
}

/// The segments contributed by the elements from index `i` on.
pub open spec fn segs_list(vs: Seq<RespData>, i: int) -> Seq<Seq<char>>
    decreases vs, vs.len() - i + 1,
{
    if i < 0 || i >= vs.len() {
        Seq::empty()
    } else {
        ({
            proof {
                broadcast use vstd::seq::group_seq_axioms;

                assert(decreases_to!(vs => vs[i]));
            }
            segments_of(vs[i])
        }) + segs_list(vs, i + 1)
    }
}

/// Every value contributes at least one segment, and its first segment
/// starts with the prefix character.
pub proof fn lemma_segments_of_shape(v: RespData)
    ensures
        segments_of(v).len() >= 1,
        segments_of(v)[0].len() >= 1,
{
}

/// The canonical decimal text of a number contains no terminator characters.
proof fn lemma_dec_nat_line_ok(n: nat)
    ensures
        line_ok(dec_nat(n)),
{
    lemma_dec_nat_val(n);
    assert forall|i: int| 0 <= i < dec_nat(n).len() implies (#[trigger] dec_nat(n)[i]) != '\r'
        && dec_nat(n)[i] != '\n' by {
        assert(is_digit(dec_nat(n)[i]));
        assert('\r' as u32 == 13);
        assert('\n' as u32 == 10);
    }
}

proof fn lemma_dec_int_line_ok(n: int)
    ensures
        line_ok(dec_int(n)),
{
    lemma_dec_nat_line_ok(if n < 0 {
        (-n) as nat
    } else {
        n as nat
    });
    assert('-' as u32 == 45);
    if n < 0 {
        assert forall|i: int| 0 <= i < dec_int(n).len() implies (#[trigger] dec_int(n)[i]) != '\r'
            && dec_int(n)[i] != '\n' by {
            if i > 0 {
                assert(dec_int(n)[i] == dec_nat((-n) as nat)[i - 1]);
            }
        }
    }
}

/// A prefix character followed by one clean line is free of terminators.
proof fn lemma_prefixed_no_crlf(c: char, s: Seq<char>)
    requires
        c != '\r',
        line_ok(s),
    ensures
        no_crlf(seq![c] + s),
{
    let t = seq![c] + s;
    assert forall|j: int| 0 <= j && j + 1 < t.len() implies !((#[trigger] t[j]) == '\r' && t[j + 1]
        == '\n') by {
        if j > 0 {
            assert(t[j] == s[j - 1]);
        }
    }
}

/// Splitting the encoding of a well-formed value followed by anything else
/// yields exactly the value's segments, then the split of the remainder.
pub proof fn lemma_split_encode(v: RespData, rest: Seq<char>)
    requires
        wf(v),
    ensures
        split_crlf(encode(v) + rest) == segments_of(v) + split_crlf(rest),
    decreases v, 0nat,
{
    match v {
        RespData::SimpleString(s) => {
            let seg = seq!['+'] + s;
            lemma_prefixed_no_crlf('+', s);
            assert(encode(v) + rest =~= seg + crlf() + rest);
            lemma_split_prepend(seg, rest);
        },
        RespData::Error(s) => {
            let seg = seq!['-'] + s;
            lemma_prefixed_no_crlf('-', s);
            assert(encode(v) + rest =~= seg + crlf() + rest);
            lemma_split_prepend(seg, rest);
        },
        RespData::Integer(n) => {
            let seg = seq![':'] + dec_int(n);
            lemma_dec_int_line_ok(n);
            lemma_prefixed_no_crlf(':', dec_int(n));
            assert(encode(v) + rest =~= seg + crlf() + rest);
            lemma_split_prepend(seg, rest);
        },
        RespData::BulkString(s) => {
            let seg1 = seq!['$'] + dec_nat(s.len());
            lemma_dec_nat_line_ok(s.len());
            lemma_prefixed_no_crlf('$', dec_nat(s.len()));
            assert(encode(v) + rest =~= seg1 + crlf() + (s + crlf() + rest));
            lemma_split_prepend(seg1, s + crlf() + rest);
            lemma_split_prepend(s, rest);
            assert(seq![seg1] + (seq![s] + split_crlf(rest)) =~= segments_of(v) + split_crlf(
                rest,
            ));
        },
        RespData::Array(vs) => {
            let seg0 = seq!['*'] + dec_nat(vs.len());
            lemma_dec_nat_line_ok(vs.len());
            lemma_prefixed_no_crlf('*', dec_nat(vs.len()));
            assert(encode(v) + rest =~= seg0 + crlf() + (encode_list(vs, 0) + rest));
            lemma_split_prepend(seg0, encode_list(vs, 0) + rest);
            lemma_split_encode_list(vs, 0, rest);
            assert(seq![seg0] + (segs_list(vs, 0) + split_crlf(rest)) =~= segments_of(v)
                + split_crlf(rest));
        },
    }
}

/// List form of `lemma_split_encode`, over the elements from `i` on.
pub proof fn lemma_split_encode_list(vs: Seq<RespData>, i: int, rest: Seq<char>)
    requires
        wf_list(vs, i),
        0 <= i <= vs.len(),
    ensures
        split_crlf(encode_list(vs, i) + rest) == segs_list(vs, i) + split_crlf(rest),
    decreases vs, vs.len() - i + 1,
{
    if i >= vs.len() {
        assert(encode_list(vs, i) + rest =~= rest);
        assert(segs_list(vs, i) + split_crlf(rest) =~= split_crlf(rest));
    } else {
        assert(decreases_to!(vs => vs[i]));
        assert(encode_list(vs, i) + rest =~= encode(vs[i]) + (encode_list(vs, i + 1) + rest));
        lemma_split_encode(vs[i], encode_list(vs, i + 1) + rest);
        lemma_split_encode_list(vs, i + 1, rest);
        assert(segments_of(vs[i]) + (segs_list(vs, i + 1) + split_crlf(rest)) =~= segs_list(vs, i)
            + split_crlf(rest));
    }
}

/// Parsing the segments of a well-formed value consumes exactly them and
/// yields the value back.
pub proof fn lemma_parse_encode(v: RespData, rest: Seq<Seq<char>>)
    requires
        wf(v),
    ensures
        spec_parse_value(segments_of(v) + rest) == Ok::<(RespData, Seq<Seq<char>>), ParseError>(
            (v, rest),
        ),
    decreases v, 0nat,
{
    let segs = segments_of(v) + rest;
    match v {
        RespData::SimpleString(s) => {
            let seg = seq!['+'] + s;
            assert(segs[0] =~= seg);
            assert(seg.subrange(1, seg.len() as int) =~= s);
            assert(segs.drop_first() =~= rest);
        },
        RespData::Error(s) => {
            let seg = seq!['-'] + s;
            assert(segs[0] =~= seg);
            assert(seg.subrange(1, seg.len() as int) =~= s);
            assert(segs.drop_first() =~= rest);
        },
        RespData::Integer(n) => {
            let seg = seq![':'] + dec_int(n);
            assert(segs[0] =~= seg);
            assert(seg.subrange(1, seg.len() as int) =~= dec_int(n));
            lemma_dec_int_parse(n);
            assert(segs.drop_first() =~= rest);
        },
        RespData::BulkString(s) => {
            let seg = seq!['$'] + dec_nat(s.len());
            assert(segs[0] =~= seg);
            assert(segs[1] =~= s);
            assert(segs.subrange(2, segs.len() as int) =~= rest);
        },
        RespData::Array(vs) => {
            let seg = seq!['*'] + dec_nat(vs.len());
            assert(segs[0] =~= seg);
            assert(seg.subrange(1, seg.len() as int) =~= dec_nat(vs.len()));
            lemma_dec_nat_parse_usize(vs.len());
            assert(segs.drop_first() =~= segs_list(vs, 0) + rest);
            lemma_parse_encode_list(vs, 0, rest);
            assert(vs.subrange(0, vs.len() as int) =~= vs);
        },
    }
}

/// List form of `lemma_parse_encode`: parsing `k` values consumes the
/// segments of the `k` elements.
pub proof fn lemma_parse_encode_list(vs: Seq<RespData>, i: int, rest: Seq<Seq<char>>)
    requires
        wf_list(vs, i),
        0 <= i <= vs.len(),
    ensures
        spec_parse_elems(vs.len() - i, segs_list(vs, i) + rest) == Ok::<
            (Seq<RespData>, Seq<Seq<char>>),
            ParseError,
        >((vs.subrange(i, vs.len() as int), rest)),
    decreases vs, vs.len() - i + 1,
{
    if i >= vs.len() {
        assert(segs_list(vs, i) + rest =~= rest);
        assert(vs.subrange(i, vs.len() as int) =~= Seq::<RespData>::empty());
    } else {
        assert(decreases_to!(vs => vs[i]));
        let tail = segs_list(vs, i + 1) + rest;
        assert(segs_list(vs, i) + rest =~= segments_of(vs[i]) + tail);
        lemma_parse_encode(vs[i], tail);
        lemma_segments_of_shape(vs[i]);
        lemma_parse_encode_list(vs, i + 1, rest);
        assert(seq![vs[i]] + vs.subrange(i + 1, vs.len() as int) =~= vs.subrange(
            i,
            vs.len() as int,
        ));
    }
}

/// Consumes as many complete values as the terminated segments hold. An
/// empty segment (the normal end of a well-formed batch) stops the scan; a
/// value whose tail has not arrived is left unconsumed for a later call.
/// Returns the values and how many segments they covered.
pub open spec fn spec_parse_stream(segs: Seq<Seq<char>>) -> Result<
    (Seq<RespData>, int),
    ParseError,
>
    decreases segs.len(),
{
    if segs.len() == 0 {
        Ok((Seq::empty(), 0))
    } else if segs[0].len() == 0 {
        Ok((Seq::empty(), 0))
    } else {
        match spec_parse_value(segs) {
            Ok((v, rest)) => {
                if rest.len() < segs.len() {
                    match spec_parse_stream(rest) {
                        Ok((vs, n)) => Ok((seq![v] + vs, segs.len() - rest.len() + n)),
                        Err(e) => Err(e),
                    }
                } else {
                    Err(ParseError::MalformedFrame)
                }
            },
            Err(ParseError::Incomplete) => Ok((Seq::empty(), 0)),
            Err(e) => Err(e),
        }
    }
}

/// Parses a whole buffer: every character must belong to some complete
/// value, else the tail is reported as incomplete.
pub open spec fn spec_parse_input(s: Seq<char>) -> Result<Seq<RespData>, ParseError> {
    let segs = split_crlf(s);
    let terminated = segs.drop_last();
    match spec_parse_stream(terminated) {
        Ok((vals, n)) => {
            if seg_chars(segs, n) == s.len() {
                Ok(vals)
            } else {
                Err(ParseError::Incomplete)
            }
        },
        Err(e) => Err(e),
    }
}

/// The stream scan over the segments of well-formed values consumes all of
/// them and returns the values in order.
pub proof fn lemma_parse_stream_encode_list(vs: Seq<RespData>, i: int)
    requires
        wf_list(vs, i),
        0 <= i <= vs.len(),
    ensures
        spec_parse_stream(segs_list(vs, i)) == Ok::<(Seq<RespData>, int), ParseError>(
            (vs.subrange(i, vs.len() as int), segs_list(vs, i).len() as int),
        ),
    decreases vs.len() - i,
{
    if i >= vs.len() {
        assert(vs.subrange(i, vs.len() as int) =~= Seq::<RespData>::empty());
    } else {
        let segs = segs_list(vs, i);
        let tail = segs_list(vs, i + 1);
        lemma_segments_of_shape(vs[i]);
        assert(segs =~= segments_of(vs[i]) + tail);
        assert(segs[0] == segments_of(vs[i])[0]);
        lemma_parse_encode(vs[i], tail);
        lemma_parse_stream_encode_list(vs, i + 1);
        assert(seq![vs[i]] + vs.subrange(i + 1, vs.len() as int) =~= vs.subrange(
            i,
            vs.len() as int,
        ));
    }
}

/// Parsing the concatenated encodings of well-formed values yields exactly
/// those values, in order.
pub proof fn lemma_parse_input_encode_list(vs: Seq<RespData>)
    requires
        wf_list(vs, 0),
    ensures
        spec_parse_input(encode_list(vs, 0)) == Ok::<Seq<RespData>, ParseError>(vs),
{
    let s = encode_list(vs, 0);
    assert(s + Seq::<char>::empty() =~= s);
    lemma_split_encode_list(vs, 0, Seq::empty());
    assert(split_crlf(Seq::<char>::empty()) =~= seq![Seq::<char>::empty()]);
    let segs = split_crlf(s);
    assert(segs =~= segs_list(vs, 0) + seq![Seq::<char>::empty()]);
    assert(segs.drop_last() =~= segs_list(vs, 0));
    lemma_parse_stream_encode_list(vs, 0);
    assert(vs.subrange(0, vs.len() as int) =~= vs);
    lemma_split_partition(s);
    assert(segs.last() =~= Seq::<char>::empty());
    assert(seg_chars(segs, segs_list(vs, 0).len() as int) == s.len());
}

/// Parsing the encoding of one well-formed value yields that value alone.
pub proof fn lemma_parse_input_encode(v: RespData)
    requires
        wf(v),
    ensures
        spec_parse_input(encode(v)) == Ok::<Seq<RespData>, ParseError>(seq![v]),
{
    let vs = seq![v];
    assert(wf_list(vs, 1));
    assert(wf_list(vs, 0));
    assert(encode_list(vs, 0) =~= encode(v) + encode_list(vs, 1));
    assert(encode_list(vs, 1) =~= Seq::<char>::empty());
    assert(encode_list(vs, 0) =~= encode(v));
    lemma_parse_input_encode_list(vs);
}

/// Splits a buffer at each line terminator.
pub fn split_crlf_exec(s: &str) -> (segs: Vec<String>)
    ensures
        segs.deep_view() == split_crlf(s@),
{
    let len = s.unicode_len();
    let mut segs: Vec<String> = Vec::new();
    proof {
        assert(segs.deep_view() =~= Seq::<Seq<char>>::empty());
        assert(s@.subrange(0, len as int) =~= s@);
        assert(split_crlf(s@) =~= segs.deep_view() + split_crlf(s@.subrange(0, len as int)));
    }
    let mut start: usize = 0;
    let mut i: usize = 0;
    while i < len
        invariant
            len == s@.len(),
            start <= i <= len,
            split_crlf(s@) == segs.deep_view() + split_crlf(s@.subrange(start as int, len as int)),
            forall|j: int|
                start <= j < i ==> !((#[trigger] s@[j]) == '\r' && j + 1 < len && s@[j + 1]
                    == '\n'),
        decreases len - i,
    {
        let c = s.get_char(i);
        let mut matched = false;
        if c == '\r' && i + 1 < len {
            let c2 = s.get_char(i + 1);
            if c2 == '\n' {
                matched = true;
            }
        }
        if matched {
            let ghost old_segs = segs.deep_view();
            let seg = s.substring_char(start, i);
            segs.push(String::from_str(seg));
            proof {
                let pre = s@.subrange(start as int, i as int);
                let post = s@.subrange(i + 2, len as int);
                assert forall|j: int| 0 <= j && j + 1 < pre.len() implies !((#[trigger] pre[j])
                    == '\r' && pre[j + 1] == '\n') by {
                    assert(pre[j] == s@[start + j] && pre[j + 1] == s@[start + j + 1]);
                }
                lemma_split_prepend(pre, post);
                assert(s@.subrange(start as int, len as int) =~= pre + crlf() + post);
                assert(segs.deep_view() =~= old_segs + seq![pre]);
                assert(old_segs + (seq![pre] + split_crlf(post)) =~= (old_segs + seq![pre])
                    + split_crlf(post));
            }
            start = i + 2;
            i = i + 2;
        } else {
            i = i + 1;
        }
    }
    let ghost old_segs = segs.deep_view();
    let seg = s.substring_char(start, len);
    segs.push(String::from_str(seg));
    proof {
        let tail = s@.subrange(start as int, len as int);
        assert forall|j: int| !has_crlf_at(tail, j) by {
            if 0 <= j && j + 1 < tail.len() {
                assert(tail[j] == s@[start + j] && tail[j + 1] == s@[start + j + 1]);
            }
        }
        lemma_split_whole(tail);
        assert(segs.deep_view() =~= old_segs + seq![tail]);
    }
    segs
}

/// Consumes one RESP value from the segments, starting at index `idx`;
/// returns the value and the index of the first unconsumed segment.
pub fn parse_input_segments(segs: &Vec<String>, idx: usize) -> (r: Result<
    (RESPValue, usize),
    ParseError,
>)
    requires
        idx <= segs@.len(),
    ensures
        ({
            let ss = segs.deep_view();
            match r {
                Ok(p) => idx < p.1 <= ss.len() && spec_parse_value(
                    ss.subrange(idx as int, ss.len() as int),
                ) == Ok::<(RespData, Seq<Seq<char>>), ParseError>(
                    (p.0.deep_view(), ss.subrange(p.1 as int, ss.len() as int)),
                ),
                Err(e) => spec_parse_value(ss.subrange(idx as int, ss.len() as int)) == Err::<
                    (RespData, Seq<Seq<char>>),
                    ParseError,
                >(e),
            }
        }),
    decreases segs@.len() - idx, 0int,
{
    let ghost ss = segs.deep_view();
    let ghost suffix = ss.subrange(idx as int, ss.len() as int);
    if idx == segs.len() {
        return Err(ParseError::Incomplete);
    }
    proof {
        assert(suffix[0] == ss[idx as int]);
        assert(ss[idx as int] == segs@[idx as int]@);
    }
    let seg: &String = &segs[idx];
    let n = seg.as_str().unicode_len();
    if n == 0 {
        return Err(ParseError::MalformedFrame);
    }
    let c = seg.as_str().get_char(0);
    let body = seg.as_str().substring_char(1, n);
    proof {
        assert(body@ =~= suffix[0].subrange(1, suffix[0].len() as int));
        assert(ss.subrange(idx + 1, ss.len() as int) =~= suffix.drop_first());
    }
    if c == '+' {
        Ok((RESPValue::SimpleString(String::from_str(body)), idx + 1))
    } else if c == '-' {
        Ok((RESPValue::Error(String::from_str(body)), idx + 1))
    } else if c == ':' {
        match crate::decimal::parse_i64(body) {
            Some(x) => Ok((RESPValue::Integer(x), idx + 1)),
            None => Err(ParseError::MalformedFrame),
        }
    } else if c == '$' {
        if idx + 1 < segs.len() {
            let payload = segs[idx + 1].clone();
            proof {
                assert(suffix[1] == ss[idx + 1]);
                assert(ss[idx + 1] == segs@[idx + 1]@);
                assert(ss.subrange(idx + 2, ss.len() as int) =~= suffix.subrange(
                    2,
                    suffix.len() as int,
                ));
            }
            Ok((RESPValue::BulkString(payload), idx + 2))
        } else {
            Err(ParseError::Incomplete)
        }
    } else if c == '*' {
        match crate::decimal::parse_usize(body) {
            Some(k) => {
                match parse_segments_elems(segs, idx + 1, k) {
                    Ok((vs, nidx)) => {
                        proof {
                            crate::resp::lemma_view_list_deep(vs@);
                            assert(crate::resp::view_list(vs@, 0) =~= vs.deep_view());
                        }
                        Ok((RESPValue::Array(vs), nidx))
                    },
                    Err(e) => Err(e),
                }
            },
            None => Err(ParseError::MalformedFrame),
        }
    } else {
        Err(ParseError::UnknownPrefix)
    }
}

/// Parses every complete value at the front of the buffer. Returns the
/// values and the number of characters they covered; an incomplete trailing
/// frame is left unconsumed so the caller can retry after more bytes arrive.
pub fn parse_stream(input: &str) -> (r: Result<(Vec<RESPValue>, usize), ParseError>)
    ensures
        ({
            let segs = split_crlf(input@);
            let st = spec_parse_stream(segs.drop_last());
            match r {
                Ok(p) => st is Ok && p.0.deep_view() == st->Ok_0.0 && p.1 == seg_chars(
                    segs,
                    st->Ok_0.1,
                ),
                Err(e) => st == Err::<(Seq<RespData>, int), ParseError>(e),
            }
        }),
{
    let total = input.unicode_len();
    let mut segs = split_crlf_exec(input);
    let ghost whole = segs.deep_view();
    proof {
        lemma_split_partition(input@);
        assert(whole.len() >= 1);
    }
    let _ = segs.pop();
    proof {
        assert(segs.deep_view() =~= whole.drop_last());
    }
    let ghost terminated = whole.drop_last();
    let termn = segs.len();
    let mut vals: Vec<RESPValue> = Vec::new();
    let mut idx: usize = 0;
    let mut consumed: usize = 0;
    proof {
        assert(vals.deep_view() =~= Seq::<RespData>::empty());
        assert(terminated.subrange(0, termn as int) =~= terminated);
    }
    while idx < termn
        invariant
            total == input@.len(),
            whole == split_crlf(input@),
            terminated == whole.drop_last(),
            terminated == segs.deep_view(),
            termn == segs@.len(),
            termn == whole.len() - 1,
            input@.len() == seg_chars(whole, whole.len() - 1) + whole.last().len(),
            idx <= termn,
            consumed == seg_chars(whole, idx as int),
            consumed <= input@.len(),
            ({
                let st = spec_parse_stream(terminated.subrange(idx as int, termn as int));
                let full = spec_parse_stream(terminated);
                match st {
                    Ok(p2) => full == Ok::<(Seq<RespData>, int), ParseError>(
                        (vals.deep_view() + p2.0, idx + p2.1),
                    ),
                    Err(e) => full == Err::<(Seq<RespData>, int), ParseError>(e),
                }
            }),
        decreases termn - idx,
    {
        let ghost suffix = terminated.subrange(idx as int, termn as int);
        proof {
            assert(suffix[0] == terminated[idx as int]);
            assert(terminated[idx as int] == segs@[idx as int]@);
        }
        let seglen = segs[idx].as_str().unicode_len();
        if seglen == 0 {
            proof {
                assert(spec_parse_stream(suffix) == Ok::<(Seq<RespData>, int), ParseError>(
                    (Seq::empty(), 0),
                ));
                assert(vals.deep_view() + Seq::<RespData>::empty() =~= vals.deep_view());
            }
            return Ok((vals, consumed));
        }
        match parse_input_segments(&segs, idx) {
            Ok((v, nidx)) => {
                let ghost nsuffix = terminated.subrange(nidx as int, termn as int);
                let ghost old_vals = vals.deep_view();
                let ghost old_idx = idx as int;
                proof {
                    assert(spec_parse_value(suffix) == Ok::<
                        (RespData, Seq<Seq<char>>),
                        ParseError,
                    >((v.deep_view(), nsuffix)));
                    assert(nsuffix.len() < suffix.len());
                    match spec_parse_stream(nsuffix) {
                        Ok(p2) => {
                            assert(spec_parse_stream(suffix) == Ok::<
                                (Seq<RespData>, int),
                                ParseError,
                            >(
                                (seq![v.deep_view()] + p2.0, (suffix.len() - nsuffix.len()) + p2.1),
                            ));
                        },
                        Err(e) => {
                            assert(spec_parse_stream(suffix) == Err::<
                                (Seq<RespData>, int),
                                ParseError,
                            >(e));
                        },
                    }
                }
                vals.push(v);
                proof {
                    assert(vals.deep_view() =~= old_vals + seq![v.deep_view()]);
                }
                let mut j: usize = idx;
                while j < nidx
                    invariant
                        idx <= j <= nidx,
                        nidx <= termn,
                        termn == segs@.len(),
                        total == input@.len(),
                        whole == split_crlf(input@),
                        terminated == whole.drop_last(),
                        terminated == segs.deep_view(),
                        termn == whole.len() - 1,
                        input@.len() == seg_chars(whole, whole.len() - 1) + whole.last().len(),
                        consumed == seg_chars(whole, j as int),
                        consumed <= input@.len(),
                    decreases nidx - j,
                {
                    proof {
                        assert(terminated[j as int] == segs@[j as int]@);
                        assert(whole[j as int] == terminated[j as int]);
                        lemma_seg_chars_mono(whole, j + 1, whole.len() - 1);
                    }
                    let l = segs[j].as_str().unicode_len();
                    consumed = consumed + l + 2;
                    j = j + 1;
                }
                idx = nidx;
                proof {
                    let st = spec_parse_stream(terminated.subrange(idx as int, termn as int));
                    let full = spec_parse_stream(terminated);
                    match st {
                        Ok(p2) => {
                            assert(old_vals + (seq![v.deep_view()] + p2.0) =~= vals.deep_view()
                                + p2.0);
                            assert(full == Ok::<(Seq<RespData>, int), ParseError>(
                                (vals.deep_view() + p2.0, idx + p2.1),
                            ));
                        },
                        Err(_) => {},
                    }
                }
            },
            Err(ParseError::Incomplete) => {
                proof {
                    assert(spec_parse_stream(suffix) == Ok::<(Seq<RespData>, int), ParseError>(
                        (Seq::empty(), 0),
                    ));
                    assert(vals.deep_view() + Seq::<RespData>::empty() =~= vals.deep_view());
                }
                return Ok((vals, consumed));
            },
            Err(e) => {
                return Err(e);
            },
        }
    }
    proof {
        assert(terminated.subrange(termn as int, termn as int) =~= Seq::<Seq<char>>::empty());
        assert(vals.deep_view() + Seq::<RespData>::empty() =~= vals.deep_view());
    }
    Ok((vals, consumed))
}

/// Parses a buffer holding zero or more complete values back-to-back;
/// reports an incomplete tail instead of consuming it.
pub fn parse_input(input: &str) -> (r: Result<Vec<RESPValue>, ParseError>)
    ensures
        ({
            let sp = spec_parse_input(input@);
            match r {
                Ok(vals) => sp == Ok::<Seq<RespData>, ParseError>(vals.deep_view()),
                Err(e) => sp == Err::<Seq<RespData>, ParseError>(e),
            }
        }),
{
    let total = input.unicode_len();
    match parse_stream(input) {
        Ok((vals, consumed)) => {
            if consumed == total {
                Ok(vals)
            } else {
                Err(ParseError::Incomplete)
            }
        },
        Err(e) => Err(e),
    }
}

/// Consumes `k` RESP values from the segments, starting at index `idx`.
fn parse_segments_elems(segs: &Vec<String>, idx: usize, k: usize) -> (r: Result<
    (Vec<RESPValue>, usize),
    ParseError,
>)
    requires
        idx <= segs@.len(),
    ensures
        ({
            let ss = segs.deep_view();
            match r {
                Ok(p) => idx <= p.1 <= ss.len() && spec_parse_elems(
                    k as int,
                    ss.subrange(idx as int, ss.len() as int),
                ) == Ok::<(Seq<RespData>, Seq<Seq<char>>), ParseError>(
                    (p.0.deep_view(), ss.subrange(p.1 as int, ss.len() as int)),
                ),
                Err(e) => spec_parse_elems(k as int, ss.subrange(idx as int, ss.len() as int))
                    == Err::<(Seq<RespData>, Seq<Seq<char>>), ParseError>(e),
            }
        }),
    decreases segs@.len() - idx, 1 + k as int,
{
    let ghost ss = segs.deep_view();
    if k == 0 {
        let out: Vec<RESPValue> = Vec::new();
        proof {
            assert(out.deep_view() =~= Seq::<RespData>::empty());
        }
        return Ok((out, idx));
    }
    match parse_input_segments(segs, idx) {
        Ok((v, mid)) => {
            match parse_segments_elems(segs, mid, k - 1) {
                Ok((tail_vals, nidx)) => {
                    let mut vals = tail_vals;
                    let ghost old_deep = vals.deep_view();
                    vals.insert(0, v);
                    proof {
                        assert(vals.deep_view() =~= seq![v.deep_view()] + old_deep);
                    }
                    Ok((vals, nidx))
                },
                Err(e) => Err(e),
            }
        },
        Err(e) => Err(e),
    }
}

} // verus!
