//! The wire value decoder.
//!
//! A wire value is self-describing: the first byte selects the production
//! (`+` simple string, `-` error string, `:` integer, `$` bulk string,
//! `*` array), and every textual token is a line ended by CR-LF.  Bulk
//! strings and arrays carry a signed decimal length, where `-1` marks a
//! null value, distinct from a zero length.
//!
//! [`spec_decode`] is the grammar itself, stated over byte sequences, and
//! [`parse_raw`] is the executable decoder, proved to return exactly what
//! the grammar says, error cases included.  [`lemma_decode_encode`] shows
//! the round trip: decoding an encoded well-formed value yields that value
//! and consumes exactly its encoding, leaving trailing bytes untouched.

use vstd::prelude::*;

use crate::bytes::copy_range;
use crate::decimal::{dec_i64, lemma_dec_i64, parse_i64, spec_parse_i64};
use crate::utf8::{check_utf8, valid_utf8};

verus! {

broadcast use vstd::std_specs::vec::group_vec_axioms;

/// One decoded wire value.  Text is held as validated UTF-8 bytes.
#[derive(Debug, PartialEq, Eq)]
pub enum RESPType {
    Str(Vec<u8>),
    Error(Vec<u8>),
    Integer(i64),
    BulkStr(Option<Vec<u8>>),
    Arr(Option<Vec<RESPType>>),
}

/// The mathematical shape of a wire value, used in contracts.
pub enum Resp {
    Str(Seq<u8>),
    Error(Seq<u8>),
    Integer(i64),
    BulkStr(Option<Seq<u8>>),
    Arr(Option<Seq<Resp>>),
}

impl RESPType {
    /// The mathematical shape of this value.
    pub open spec fn model(self) -> Resp
        decreases self,
    {
        match self {
            RESPType::Str(t) => Resp::Str(t@),
            RESPType::Error(t) => Resp::Error(t@),
            RESPType::Integer(n) => Resp::Integer(n),
            RESPType::BulkStr(Some(b)) => Resp::BulkStr(Some(b@)),
            RESPType::BulkStr(None) => Resp::BulkStr(None),
            RESPType::Arr(Some(vs)) => Resp::Arr(Some(model_seq(vs@))),
            RESPType::Arr(None) => Resp::Arr(None),
        }
    }
}

/// The shapes of a sequence of values, element by element.
pub open spec fn model_seq(s: Seq<RESPType>) -> Seq<Resp>
    decreases s,
{
    if s.len() == 0 {
        Seq::empty()
    } else {
        seq![s[0].model()] + model_seq(s.drop_first())
    }
}

/// `model_seq` maps [`RESPType::model`] over the sequence.
pub proof fn lemma_model_seq(s: Seq<RESPType>)
    ensures
        model_seq(s).len() == s.len(),
        forall|i: int| 0 <= i < s.len() ==> model_seq(s)[i] == s[i].model(),
    decreases s.len(),
{
    if s.len() > 0 {
        lemma_model_seq(s.drop_first());
        assert forall|i: int| 0 <= i < s.len() implies model_seq(s)[i] == s[i].model() by {
            if i > 0 {
                assert(s.drop_first()[i - 1] == s[i]);
            }
        }
    }
}

/// Why decoding failed.
#[derive(Debug, PartialEq, Eq, Structural, Clone, Copy)]
pub enum DecodeErr {
    /// The first byte selects no production.
    BadPrefix,
    /// No CR-LF-terminated line where one was required (the buffer ended,
    /// or a CR was not followed by LF).
    MissingCrlf,
    /// A simple- or error-string line is not valid UTF-8.
    NotUtf8,
    /// An integer, length or count line is not a decimal `i64`.
    BadInt,
    /// A length or count was negative but not the `-1` null sentinel.
    NegLength,
    /// The buffer ends before the announced payload.
    Truncated,
}

/// Why a value accessor refused a value.
#[derive(Debug, PartialEq, Eq, Structural, Clone, Copy)]
pub enum ConvertErr {
    /// Not a usable text value.
    NotStr,
    /// A bulk string used as text is not valid UTF-8.
    NotUtf8,
    /// Not an integer value.
    NotInt,
    /// An array value that is present but empty.
    EmptyArr,
    /// Not a non-null array value.
    NotArr,
}

/// A CR-LF pair stands at `i`, and no CR stands before it: the line a
/// decoder that scans for the first CR will find.
pub open spec fn valid_line_at(s: Seq<u8>, i: int) -> bool {
    &&& 0 <= i
    &&& i + 2 <= s.len()
    &&& s[i] == 13
    &&& s[i + 1] == 10
    &&& forall|j: int| 0 <= j < i ==> s[j] != 13
}

pub open spec fn has_line(s: Seq<u8>) -> bool {
    exists|i: int| valid_line_at(s, i)
}

pub open spec fn line_at(s: Seq<u8>) -> int {
    choose|i: int| valid_line_at(s, i)
}

pub proof fn lemma_line_unique(s: Seq<u8>, i: int, j: int)
    requires
        valid_line_at(s, i),
        valid_line_at(s, j),
    ensures
        i == j,
{
    if i < j {
        assert(s[i] != 13);
    }
    if j < i {
        assert(s[j] != 13);
    }
}

/// What decoding one wire value off the front of `s` yields: the value and
/// the number of bytes it occupies, or the reason no value starts here.
pub open spec fn spec_decode(s: Seq<u8>) -> Result<(Resp, int), DecodeErr>
    decreases s.len(), 0int, 0int,
{
    if s.len() == 0 {
        Err(DecodeErr::Truncated)
    } else {
        let body = s.skip(1);
        if s[0] == 43 || s[0] == 45 {  // '+' simple string, '-' error string
            if has_line(body) {
                let i = line_at(body);
                let t = body.subrange(0, i);
                if valid_utf8(t) {
                    if s[0] == 43 {
                        Ok((Resp::Str(t), 3 + i))
                    } else {
                        Ok((Resp::Error(t), 3 + i))
                    }
                } else {
                    Err(DecodeErr::NotUtf8)
                }
            } else {
                Err(DecodeErr::MissingCrlf)
            }
        } else if s[0] == 58 {  // ':' integer
            if has_line(body) {
                let i = line_at(body);
                match spec_parse_i64(body.subrange(0, i)) {
                    Some(n) => Ok((Resp::Integer(n), 3 + i)),
                    None => Err(DecodeErr::BadInt),
                }
            } else {
                Err(DecodeErr::MissingCrlf)
            }
        } else if s[0] == 36 {  // '$' bulk string
            if has_line(body) {
                let i = line_at(body);
                match spec_parse_i64(body.subrange(0, i)) {
                    Some(n) => {
                        if n == -1 {
                            Ok((Resp::BulkStr(None), 3 + i))
                        } else if n < 0 {
                            Err(DecodeErr::NegLength)
                        } else {
                            let start = 3 + i;
                            if start + n + 2 <= s.len() {
                                if s[start + n] == 13 && s[start + n + 1] == 10 {
                                    Ok((Resp::BulkStr(Some(s.subrange(start, start + n))),
                                        start + n + 2))
                                } else {
                                    Err(DecodeErr::MissingCrlf)
                                }
                            } else {
                                Err(DecodeErr::Truncated)
                            }
                        }
                    },
                    None => Err(DecodeErr::BadInt),
                }
            } else {
                Err(DecodeErr::MissingCrlf)
            }
        } else if s[0] == 42 {  // '*' array
            if has_line(body) {
                let i = line_at(body);
                match spec_parse_i64(body.subrange(0, i)) {
                    Some(n) => {
                        if n == -1 {
                            Ok((Resp::Arr(None), 3 + i))
                        } else if n < 0 {
                            Err(DecodeErr::NegLength)
                        } else {
                            match spec_decode_seq(s.skip(3 + i), n as int) {
                                Ok((vs, c)) => Ok((Resp::Arr(Some(vs)), 3 + i + c)),
                                Err(e) => Err(e),
                            }
                        }
                    },
                    None => Err(DecodeErr::BadInt),
                }
            } else {
                Err(DecodeErr::MissingCrlf)
            }
        } else {
            Err(DecodeErr::BadPrefix)
        }
    }
}

/// Decoding `n` consecutive wire values off the front of `s`.  The guard on
/// the consumed count cannot fail in fact ([`lemma_decode_consumed`]); it
/// keeps the recursion visibly well-founded.
pub open spec fn spec_decode_seq(s: Seq<u8>, n: int) -> Result<(Seq<Resp>, int), DecodeErr>
    decreases s.len(), 1int, n,
{
    if n <= 0 {
        Ok((Seq::empty(), 0))
    } else {
        match spec_decode(s) {
            Ok((v, c)) => {
                if 0 < c <= s.len() {
                    match spec_decode_seq(s.skip(c), n - 1) {
                        Ok((vs, c2)) => Ok((seq![v] + vs, c + c2)),
                        Err(e) => Err(e),
                    }
                } else {
                    Err(DecodeErr::Truncated)
                }
            },
            Err(e) => Err(e),
        }
    }
}

/// A decoded value occupies at least its prefix byte and one CR-LF, and
/// never more than the buffer holds.
pub proof fn lemma_decode_consumed(s: Seq<u8>)
    ensures
        spec_decode(s) matches Ok((v, c)) ==> 3 <= c <= s.len(),
    decreases s.len(), 0int, 0int,
{
    if s.len() > 0 {
        let body = s.skip(1);
        if s[0] == 42 && has_line(body) {
            let i = line_at(body);
            assert(valid_line_at(body, i));
            match spec_parse_i64(body.subrange(0, i)) {
                Some(n) => {
                    if n >= 0 {
                        lemma_decode_seq_consumed(s.skip(3 + i), n as int);
                    }
                },
                None => {},
            }
        }
        if has_line(body) {
            assert(valid_line_at(body, line_at(body)));
        }
    }
}

/// Decoding a run of values consumes between zero bytes and the whole
/// buffer, and yields exactly the asked-for number of values.
pub proof fn lemma_decode_seq_consumed(s: Seq<u8>, n: int)
    ensures
        spec_decode_seq(s, n) matches Ok((vs, c)) ==> {
            &&& 0 <= c <= s.len()
            &&& vs.len() == if n >= 0 { n } else { 0 }
        },
    decreases s.len(), 1int, n,
{
    if n > 0 {
        lemma_decode_consumed(s);
        match spec_decode(s) {
            Ok((v, c)) => {
                if 0 < c <= s.len() {
                    lemma_decode_seq_consumed(s.skip(c), n - 1);
                }
            },
            Err(e) => {},
        }
    }
}

/// The CR-LF line terminator.
pub open spec fn crlf() -> Seq<u8> {
    seq![13u8, 10u8]
}

/// A value the wire can carry: text lines hold no CR and are valid UTF-8,
/// and every length fits the signed 64-bit length field.
pub open spec fn wf(v: Resp) -> bool
    decreases v,
{
    match v {
        Resp::Str(t) => valid_utf8(t) && forall|j: int| 0 <= j < t.len() ==> t[j] != 13,
        Resp::Error(t) => valid_utf8(t) && forall|j: int| 0 <= j < t.len() ==> t[j] != 13,
        Resp::Integer(n) => true,
        Resp::BulkStr(None) => true,
        Resp::BulkStr(Some(b)) => b.len() <= i64::MAX,
        Resp::Arr(None) => true,
        Resp::Arr(Some(vs)) => vs.len() <= i64::MAX && wf_seq(vs),
    }
}

/// Every value of the sequence is well-formed.
pub open spec fn wf_seq(vs: Seq<Resp>) -> bool
    decreases vs,
{
    if vs.len() == 0 {
        true
    } else {
        wf(vs[0]) && wf_seq(vs.drop_first())
    }
}

/// The wire encoding of a well-formed value, production by production.
pub open spec fn encode(v: Resp) -> Seq<u8>
    decreases v,
{
    match v {
        Resp::Str(t) => seq![43u8] + t + crlf(),
        Resp::Error(t) => seq![45u8] + t + crlf(),
        Resp::Integer(n) => seq![58u8] + dec_i64(n as int) + crlf(),
        Resp::BulkStr(None) => seq![36u8] + dec_i64(-1) + crlf(),
        Resp::BulkStr(Some(b)) => seq![36u8] + dec_i64(b.len() as int) + crlf() + b + crlf(),
        Resp::Arr(None) => seq![42u8] + dec_i64(-1) + crlf(),
        Resp::Arr(Some(vs)) => seq![42u8] + dec_i64(vs.len() as int) + crlf() + encode_seq(vs),
    }
}

/// The concatenated encodings of a sequence of values.
pub open spec fn encode_seq(vs: Seq<Resp>) -> Seq<u8>
    decreases vs,
{
    if vs.len() == 0 {
        Seq::empty()
    } else {
        encode(vs[0]) + encode_seq(vs.drop_first())
    }
}

/// The line scanner lands exactly on a CR-free line written before CR-LF.
proof fn lemma_body_line(body: Seq<u8>, line: Seq<u8>, tail: Seq<u8>)
    requires
        body == line + crlf() + tail,
        forall|j: int| 0 <= j < line.len() ==> line[j] != 13,
    ensures
        has_line(body),
        line_at(body) == line.len(),
        body.subrange(0, line.len() as int) == line,
{
    let n = line.len() as int;
    assert((line + crlf())[n] == 13);
    assert((line + crlf())[n + 1] == 10);
    assert(body[n] == 13);
    assert(body[n + 1] == 10);
    assert(valid_line_at(body, n)) by {
        assert(forall|j: int| 0 <= j < n ==> body[j] == line[j]);
    }
    assert(valid_line_at(body, line_at(body)));
    lemma_line_unique(body, line_at(body), n);
    assert(body.subrange(0, n) =~= line);
}

/// Round trip: a well-formed value written per the wire grammar and
/// followed by any trailing bytes decodes back to itself, consuming exactly
/// its encoding and leaving the trailing bytes untouched.
pub proof fn lemma_decode_encode(v: Resp, rest: Seq<u8>)
    requires
        wf(v),
    ensures
        spec_decode(encode(v) + rest) == Ok::<(Resp, int), DecodeErr>((
            v,
            encode(v).len() as int,
        )),
    decreases v,
{
    let s = encode(v) + rest;
    let body = s.skip(1);
    match v {
        Resp::Str(t) => {
            assert(s[0] == 43);
            assert(body =~= t + crlf() + rest);
            lemma_body_line(body, t, rest);
        },
        Resp::Error(t) => {
            assert(s[0] == 45);
            assert(body =~= t + crlf() + rest);
            lemma_body_line(body, t, rest);
        },
        Resp::Integer(n) => {
            lemma_dec_i64(n as int);
            assert(s[0] == 58);
            assert(body =~= dec_i64(n as int) + crlf() + rest);
            lemma_body_line(body, dec_i64(n as int), rest);
        },
        Resp::BulkStr(None) => {
            lemma_dec_i64(-1);
            assert(s[0] == 36);
            assert(body =~= dec_i64(-1) + crlf() + rest);
            lemma_body_line(body, dec_i64(-1), rest);
        },
        Resp::BulkStr(Some(b)) => {
            let d = dec_i64(b.len() as int);
            lemma_dec_i64(b.len() as int);
            assert(s[0] == 36);
            assert(body =~= d + crlf() + (b + crlf() + rest));
            lemma_body_line(body, d, b + crlf() + rest);
            let start = 3 + d.len() as int;
            let n = b.len() as int;
            assert(s.len() == start + n + 2 + rest.len());
            assert forall|j: int| 0 <= j < n implies s[start + j] == b[j] by {
                assert((seq![36u8] + d + crlf() + b)[start + j] == b[j]);
                assert(s[start + j] == (seq![36u8] + d + crlf() + b)[start + j]);
            }
            assert(s.subrange(start, start + n) =~= b);
            assert(s[start + n] == 13) by {
                assert((seq![36u8] + d + crlf() + b + crlf())[start + n] == 13);
            }
            assert(s[start + n + 1] == 10) by {
                assert((seq![36u8] + d + crlf() + b + crlf())[start + n + 1] == 10);
            }
        },
        Resp::Arr(None) => {
            lemma_dec_i64(-1);
            assert(s[0] == 42);
            assert(body =~= dec_i64(-1) + crlf() + rest);
            lemma_body_line(body, dec_i64(-1), rest);
        },
        Resp::Arr(Some(vs)) => {
            let d = dec_i64(vs.len() as int);
            lemma_dec_i64(vs.len() as int);
            assert(s[0] == 42);
            assert(body =~= d + crlf() + (encode_seq(vs) + rest));
            lemma_body_line(body, d, encode_seq(vs) + rest);
            let start = 3 + d.len() as int;
            assert(s.skip(start) =~= encode_seq(vs) + rest);
            lemma_decode_encode_seq(vs, rest);
        },
    }
}

/// Round trip for a run of values, value by value.
pub proof fn lemma_decode_encode_seq(vs: Seq<Resp>, rest: Seq<u8>)
    requires
        wf_seq(vs),
    ensures
        spec_decode_seq(encode_seq(vs) + rest, vs.len() as int) == Ok::<
            (Seq<Resp>, int),
            DecodeErr,
        >((vs, encode_seq(vs).len() as int)),
    decreases vs,
{
    let s = encode_seq(vs) + rest;
    if vs.len() == 0 {
        assert(vs =~= Seq::<Resp>::empty());
    } else {
        let tail_enc = encode_seq(vs.drop_first());
        assert(s =~= encode(vs[0]) + (tail_enc + rest));
        lemma_decode_encode(vs[0], tail_enc + rest);
        lemma_decode_consumed(s);
        let c = encode(vs[0]).len() as int;
        assert(s.skip(c) =~= tail_enc + rest);
        lemma_decode_encode_seq(vs.drop_first(), rest);
        assert(seq![vs[0]] + vs.drop_first() =~= vs);
    }
}

/// Pipelining: the decoder owns only the bytes it consumes.  A value that
/// decodes from `s1` occupying `c` bytes decodes identically from any
/// buffer that begins with the same `c` bytes, whatever follows them.
pub proof fn lemma_decode_prefix(s1: Seq<u8>, s2: Seq<u8>, v: Resp, c: int)
    requires
        spec_decode(s1) == Ok::<(Resp, int), DecodeErr>((v, c)),
        c <= s2.len(),
        s2.take(c) == s1.take(c),
    ensures
        spec_decode(s2) == Ok::<(Resp, int), DecodeErr>((v, c)),
    decreases s1.len(), 0int, 0int,
{
    lemma_decode_consumed(s1);
    assert forall|j: int| 0 <= j < c implies s1[j] == s2[j] by {
        assert(s1.take(c)[j] == s1[j]);
        assert(s2.take(c)[j] == s2[j]);
    }
    let b1 = s1.skip(1);
    let b2 = s2.skip(1);
    assert(has_line(b1));
    let i = line_at(b1);
    assert(valid_line_at(b1, i));
    assert(3 + i <= c) by {
        if s1[0] == 36 || s1[0] == 42 {
            match spec_parse_i64(b1.subrange(0, i)) {
                Some(n) => {
                    if n >= 0 && s1[0] == 42 {
                        lemma_decode_seq_consumed(s1.skip(3 + i), n as int);
                    }
                },
                None => {},
            }
        }
    }
    assert(valid_line_at(b2, i)) by {
        assert(forall|j: int| 0 <= j <= i + 1 ==> b1[j] == s1[j + 1] && b2[j] == s2[j + 1]);
    }
    assert(valid_line_at(b2, line_at(b2)));
    lemma_line_unique(b2, line_at(b2), i);
    assert(b2.subrange(0, i) =~= b1.subrange(0, i));
    if s1[0] == 36 {
        match spec_parse_i64(b1.subrange(0, i)) {
            Some(n) => {
                if n >= 0 {
                    let start = 3 + i;
                    assert(c == start + n + 2);
                    assert(s2.subrange(start, start + n) =~= s1.subrange(start, start + n));
                }
            },
            None => {},
        }
    }
    if s1[0] == 42 {
        match spec_parse_i64(b1.subrange(0, i)) {
            Some(n) => {
                if n >= 0 {
                    let start = 3 + i;
                    match spec_decode_seq(s1.skip(start), n as int) {
                        Ok((vs, c2)) => {
                            lemma_decode_seq_consumed(s1.skip(start), n as int);
                            assert(s2.skip(start).take(c2) =~= s1.skip(start).take(c2));
                            lemma_decode_seq_prefix(
                                s1.skip(start),
                                s2.skip(start),
                                n as int,
                                vs,
                                c2,
                            );
                        },
                        Err(_) => {},
                    }
                }
            },
            None => {},
        }
    }
}

/// Pipelining for a run of values, value by value.
pub proof fn lemma_decode_seq_prefix(s1: Seq<u8>, s2: Seq<u8>, n: int, vs: Seq<Resp>, c: int)
    requires
        spec_decode_seq(s1, n) == Ok::<(Seq<Resp>, int), DecodeErr>((vs, c)),
        c <= s2.len(),
        s2.take(c) == s1.take(c),
    ensures
        spec_decode_seq(s2, n) == Ok::<(Seq<Resp>, int), DecodeErr>((vs, c)),
    decreases s1.len(), 1int, n,
{
    lemma_decode_seq_consumed(s1, n);
    assert forall|j: int| 0 <= j < c implies s1[j] == s2[j] by {
        assert(s1.take(c)[j] == s1[j]);
        assert(s2.take(c)[j] == s2[j]);
    }
    if n > 0 {
        match spec_decode(s1) {
            Ok((v1, d)) => {
                lemma_decode_consumed(s1);
                match spec_decode_seq(s1.skip(d), n - 1) {
                    Ok((vs2, c2)) => {
                        lemma_decode_seq_consumed(s1.skip(d), n - 1);
                        assert(c == d + c2);
                        assert(s2.take(d) =~= s1.take(d));
                        lemma_decode_prefix(s1, s2, v1, d);
                        assert(s2.skip(d).take(c2) =~= s1.skip(d).take(c2));
                        lemma_decode_seq_prefix(s1.skip(d), s2.skip(d), n - 1, vs2, c2);
                    },
                    Err(_) => {},
                }
            },
            Err(_) => {},
        }
    }
}

/// What reading a value as text yields: a simple string gives its text,
/// and a non-null bulk string gives its bytes when they are valid UTF-8.
pub open spec fn spec_text(v: Resp) -> Result<Seq<u8>, ConvertErr> {
    match v {
        Resp::Str(t) => Ok(t),
        Resp::BulkStr(Some(b)) => if valid_utf8(b) {
            Ok(b)
        } else {
            Err(ConvertErr::NotUtf8)
        },
        _ => Err(ConvertErr::NotStr),
    }
}

/// What reading a value as an integer yields.
pub open spec fn spec_int(v: Resp) -> Result<i64, ConvertErr> {
    match v {
        Resp::Integer(n) => Ok(n),
        _ => Err(ConvertErr::NotInt),
    }
}

/// What reading a value as a non-empty array yields.
pub open spec fn spec_arr(v: Resp) -> Result<Seq<Resp>, ConvertErr> {
    match v {
        Resp::Arr(Some(vs)) => if vs.len() == 0 {
            Err(ConvertErr::EmptyArr)
        } else {
            Ok(vs)
        },
        _ => Err(ConvertErr::NotArr),
    }
}

impl RESPType {
    /// The value's text, exactly as [`spec_text`] says.
    pub fn get_string(&self) -> (r: Result<&Vec<u8>, ConvertErr>)
        ensures
            match r {
                Ok(t) => spec_text(self.model()) == Ok::<Seq<u8>, ConvertErr>(t@),
                Err(e) => spec_text(self.model()) == Err::<Seq<u8>, ConvertErr>(e),
            },
    {
        match self {
            RESPType::Str(t) => Ok(t),
            RESPType::BulkStr(Some(b)) => if check_utf8(b) {
                Ok(b)
            } else {
                Err(ConvertErr::NotUtf8)
            },
            _ => Err(ConvertErr::NotStr),
        }
    }

    /// The value's integer, exactly as [`spec_int`] says.
    pub fn get_int(&self) -> (r: Result<i64, ConvertErr>)
        ensures
            match r {
                Ok(n) => spec_int(self.model()) == Ok::<i64, ConvertErr>(n),
                Err(e) => spec_int(self.model()) == Err::<i64, ConvertErr>(e),
            },
    {
        match self {
            RESPType::Integer(n) => Ok(*n),
            _ => Err(ConvertErr::NotInt),
        }
    }

    /// The value's elements when it is a non-empty array, exactly as
    /// [`spec_arr`] says.
    pub fn to_arr(&self) -> (r: Result<&Vec<RESPType>, ConvertErr>)
        ensures
            match r {
                Ok(a) => a@.len() > 0
                    && spec_arr(self.model()) == Ok::<Seq<Resp>, ConvertErr>(model_seq(a@)),
                Err(e) => spec_arr(self.model()) == Err::<Seq<Resp>, ConvertErr>(e),
            },
    {
        match self {
            RESPType::Arr(Some(vs)) => if vs.len() == 0 {
                proof {
                    assert(model_seq(vs@).len() == 0) by { lemma_model_seq(vs@); }
                }
                Err(ConvertErr::EmptyArr)
            } else {
                proof {
                    assert(model_seq(vs@).len() > 0) by { lemma_model_seq(vs@); }
                }
                Ok(vs)
            },
            _ => Err(ConvertErr::NotArr),
        }
    }
}

/// Finds the CR-LF-terminated line that starts at `pos`: the index of the
/// first CR, which must be followed by LF.
fn find_line(i: &Vec<u8>, pos: usize) -> (r: Result<usize, DecodeErr>)
    requires
        pos <= i.len(),
    ensures
        match r {
            Ok(k) => pos <= k && k + 2 <= i.len()
                && valid_line_at(i@.skip(pos as int), k - pos),
            Err(e) => e == DecodeErr::MissingCrlf && !has_line(i@.skip(pos as int)),
        },
{
    let n = i.len();
    let ghost s = i@.skip(pos as int);
    let mut k: usize = pos;
    while k < n
        invariant
            pos <= k <= n == i.len(),
            s == i@.skip(pos as int),
            forall|j: int| 0 <= j < k - pos ==> s[j] != 13,
        decreases n - k,
    {
        if i[k] == 13 {
            if n - k > 1 && i[k + 1] == 10 {
                return Ok(k);
            }
            proof {
                assert forall|m: int| !valid_line_at(s, m) by {
                    if 0 <= m < k - pos {
                        assert(s[m] != 13);
                    } else if m == k - pos {
                        assert(n - k > 1 ==> s[m + 1] == i@[k + 1]);
                    } else if m > k - pos {
                        assert(s[k - pos] == 13);
                    }
                }
            }
            return Err(DecodeErr::MissingCrlf);
        }
        k = k + 1;
    }
    proof {
        assert forall|m: int| !valid_line_at(s, m) by {
            if 0 <= m && m + 2 <= s.len() {
                assert(s[m] != 13);
            }
        }
    }
    Err(DecodeErr::MissingCrlf)
}

/// Pastes a decoded prefix in front of the outcome of decoding the rest of
/// a run of values.
spec fn with_prefix(
    prefix: Seq<Resp>,
    used: int,
    rest: Result<(Seq<Resp>, int), DecodeErr>,
) -> Result<(Seq<Resp>, int), DecodeErr> {
    match rest {
        Ok((vs, c)) => Ok((prefix + vs, used + c)),
        Err(e) => Err(e),
    }
}

pub proof fn lemma_model_seq_push(s: Seq<RESPType>, v: RESPType)
    ensures
        model_seq(s.push(v)) == model_seq(s) + seq![v.model()],
{
    lemma_model_seq(s.push(v));
    lemma_model_seq(s);
    assert(model_seq(s.push(v)) =~= model_seq(s) + seq![v.model()]) by {
        assert forall|i: int|
            0 <= i < s.len() + 1 implies model_seq(s.push(v))[i] == (model_seq(s)
            + seq![v.model()])[i] by {
            if i < s.len() {
                assert(s.push(v)[i] == s[i]);
            } else {
                assert(s.push(v)[i] == v);
            }
        }
    }
}

/// Decodes one wire value that starts at `pos`, returning the value and the
/// position just past it: exactly what [`spec_decode`] says of the bytes
/// from `pos` on.
#[verifier::rlimit(100)]
fn parse_at(i: &Vec<u8>, pos: usize) -> (r: Result<(RESPType, usize), DecodeErr>)
    requires
        pos <= i.len(),
    ensures
        match r {
            Ok((v, end)) => pos <= end <= i.len()
                && spec_decode(i@.skip(pos as int))
                    == Ok::<(Resp, int), DecodeErr>((v.model(), end - pos)),
            Err(e) => spec_decode(i@.skip(pos as int)) == Err::<(Resp, int), DecodeErr>(e),
        },
    decreases i.len() - pos,
{
    let n = i.len();
    let ghost s = i@.skip(pos as int);
    if pos == n {
        return Err(DecodeErr::Truncated);
    }
    let p = i[pos];
    let ghost body = s.skip(1);
    proof {
        assert(body =~= i@.skip(pos + 1 as int));
    }
    if p != 43 && p != 45 && p != 58 && p != 36 && p != 42 {
        return Err(DecodeErr::BadPrefix);
    }
    let k = match find_line(i, pos + 1) {
        Ok(k) => k,
        Err(e) => {
            return Err(e);
        },
    };
    let ghost li = k - (pos + 1) as int;
    proof {
        assert(valid_line_at(body, li));
        assert(valid_line_at(body, line_at(body)));
        lemma_line_unique(body, line_at(body), li);
    }
    let text = copy_range(i, pos + 1, k);
    proof {
        assert(text@ =~= body.subrange(0, li));
    }
    if p == 43 || p == 45 {
        if check_utf8(&text) {
            let v = if p == 43 {
                RESPType::Str(text)
            } else {
                RESPType::Error(text)
            };
            Ok((v, k + 2))
        } else {
            Err(DecodeErr::NotUtf8)
        }
    } else if p == 58 {
        match parse_i64(&text) {
            Some(v) => Ok((RESPType::Integer(v), k + 2)),
            None => Err(DecodeErr::BadInt),
        }
    } else if p == 36 {
        let len = match parse_i64(&text) {
            Some(l) => l,
            None => {
                return Err(DecodeErr::BadInt);
            },
        };
        if len == -1 {
            return Ok((RESPType::BulkStr(None), k + 2));
        }
        if len < 0 {
            return Err(DecodeErr::NegLength);
        }
        let start = k + 2;
        let rem: u64 = (n - start) as u64;
        if (len as u64) + 2 > rem {
            return Err(DecodeErr::Truncated);
        }
        let l = len as usize;
        let payload = copy_range(i, start, start + l);
        proof {
            assert(payload@ =~= s.subrange((start - pos) as int, start - pos + len as int));
        }
        if i[start + l] == 13 && i[start + l + 1] == 10 {
            Ok((RESPType::BulkStr(Some(payload)), start + l + 2))
        } else {
            Err(DecodeErr::MissingCrlf)
        }
    } else {
        let count = match parse_i64(&text) {
            Some(c) => c,
            None => {
                return Err(DecodeErr::BadInt);
            },
        };
        if count == -1 {
            return Ok((RESPType::Arr(None), k + 2));
        }
        if count < 0 {
            return Err(DecodeErr::NegLength);
        }
        let header_end = k + 2;
        let cnt = count as u64;
        let mut elems: Vec<RESPType> = Vec::new();
        let mut cur: usize = header_end;
        let mut done: u64 = 0;
        proof {
            assert(s.skip(3 + li) =~= i@.skip(header_end as int));
            match spec_decode_seq(i@.skip(header_end as int), count as int) {
                Ok((vs, c)) => {
                    assert(model_seq(elems@) + vs =~= vs);
                },
                Err(e) => {},
            }
        }
        #[verifier::loop_isolation(false)]
        while done < cnt
            invariant
                pos < header_end <= cur <= n == i.len(),
                done <= cnt == count as u64,
                count >= 0,
                model_seq(elems@).len() == done,
                spec_decode_seq(i@.skip(header_end as int), count as int) == with_prefix(
                    model_seq(elems@),
                    cur - header_end,
                    spec_decode_seq(i@.skip(cur as int), count - done),
                ),
            decreases cnt - done,
        {
            match parse_at(i, cur) {
                Ok((v, end)) => {
                    proof {
                        lemma_decode_consumed(i@.skip(cur as int));
                        assert(i@.skip(cur as int).skip((end - cur) as int)
                            =~= i@.skip(end as int));
                        lemma_model_seq_push(elems@, v);
                        match spec_decode_seq(i@.skip(end as int), count - done - 1) {
                            Ok((vs, c)) => {
                                assert(model_seq(elems@) + (seq![v.model()] + vs)
                                    =~= (model_seq(elems@) + seq![v.model()]) + vs);
                            },
                            Err(e) => {},
                        }
                        lemma_model_seq(elems@.push(v));
                    }
                    elems.push(v);
                    cur = end;
                    done = done + 1;
                },
                Err(e) => {
                    return Err(e);
                },
            }
        }
        proof {
            assert(model_seq(elems@) + Seq::<Resp>::empty() =~= model_seq(elems@));
        }
        Ok((RESPType::Arr(Some(elems)), cur))
    }
}

/// Decodes one wire value off the front of the buffer, returning the value
/// and the number of bytes it occupied; the remainder of the buffer is not
/// examined.  The result is exactly what [`spec_decode`] says of the
/// buffer, error cases included.
pub fn parse_raw(i: &Vec<u8>) -> (r: Result<(RESPType, usize), DecodeErr>)
    ensures
        match r {
            Ok((v, used)) => used <= i.len()
                && spec_decode(i@) == Ok::<(Resp, int), DecodeErr>((v.model(), used as int)),
            Err(e) => spec_decode(i@) == Err::<(Resp, int), DecodeErr>(e),
        },
{
    proof {
        assert(i@.skip(0) =~= i@);
    }
    parse_at(i, 0)
}

} // verus!
