//! Decoding replies: status lines, reply bodies, asynchronous notifications
//! and typed replies.
use vstd::prelude::*;
use vstd::slice::{slice_subrange, slice_to_vec};
use vstd::utf8::{decode_utf8, valid_utf8};

use crate::scan::{find_from, find_pattern, lemma_find_from};

verus! {

/// What follows a reply line.
#[derive(Clone, Copy, Debug, PartialEq, Eq, Structural)]
pub enum ContinuationKind {
    /// No more lines follow (`' '`).
    Final,
    /// Another line follows (`'-'`).
    Multiline,
    /// Another line follows, and this one carries a data block (`'+'`).
    DataBlock,
}

/// Why a reply could not be decoded.
#[derive(Clone, Copy, Debug, PartialEq, Eq, Structural)]
pub enum ParseError {
    /// The status code is not three ASCII digits.
    MalformedStatusCode,
    /// The byte after the status code is not `' '`, `'-'` or `'+'`.
    MalformedSeparator,
    /// Text that must be UTF-8 is not.
    InvalidEncoding,
}

/// The result of one decoding step over a borrowed buffer.
#[derive(Debug, PartialEq, Eq)]
pub enum Outcome<'a, T> {
    /// A value, and the bytes that follow it.
    Done(&'a [u8], T),
    /// More bytes are needed before anything can be decided.
    Incomplete,
    /// The bytes are malformed.
    Error(ParseError),
}

/// The mathematical result of decoding: a value and how many bytes it took.
pub ghost enum Decoded<V> {
    Done(V, int),
    Incomplete,
    Error(ParseError),
}

impl<'a, T: View> Outcome<'a, T> {
    /// This outcome, read against the buffer `input`, is the decoding `d`.
    pub open spec fn agrees(&self, input: Seq<u8>, d: Decoded<T::V>) -> bool {
        match self {
            Outcome::Done(rest, v) => match d {
                Decoded::Done(w, n) => v@ == w && 0 <= n <= input.len() && rest@ == input.subrange(
                    n,
                    input.len() as int,
                ),
                _ => false,
            },
            Outcome::Incomplete => d is Incomplete,
            Outcome::Error(e) => d == Decoded::<T::V>::Error(*e),
        }
    }
}

/// The model of one reply line.
pub ghost struct LineModel {
    pub code: u16,
    pub kind: ContinuationKind,
    pub content: Seq<u8>,
    pub data: Option<Seq<u8>>,
}

/// One line of a reply, borrowing its text from the decoded buffer.
#[derive(Clone, Debug, PartialEq, Eq)]
pub struct ReplyLine<'a> {
    code: u16,
    kind: ContinuationKind,
    content: &'a [u8],
    data: Option<&'a [u8]>,
}

impl<'a> View for ReplyLine<'a> {
    type V = LineModel;

    closed spec fn view(&self) -> LineModel {
        LineModel {
            code: self.code,
            kind: self.kind,
            content: self.content@,
            data: match self.data {
                Some(d) => Some(d@),
                None => None,
            },
        }
    }
}

impl<'a> ReplyLine<'a> {
    /// The status code.
    pub fn code(&self) -> (r: u16)
        ensures
            r == self@.code,
    {
        self.code
    }

    /// What follows this line.
    pub fn kind(&self) -> (r: ContinuationKind)
        ensures
            r == self@.kind,
    {
        self.kind
    }

    /// Whether more lines of the same reply follow this one.
    pub fn more(&self) -> (r: bool)
        ensures
            r == (self@.kind != ContinuationKind::Final),
    {
        self.kind != ContinuationKind::Final
    }

    /// The text of the line, without its status code, separator and line end.
    pub fn content(&self) -> (r: &'a [u8])
        ensures
            r@ == self@.content,
    {
        self.content
    }

    /// The data block that follows a `'+'` line.
    pub fn data(&self) -> (r: Option<&'a [u8]>)
        ensures
            match r {
                Some(d) => self@.data == Some(d@),
                None => self@.data is None,
            },
    {
        self.data
    }
}

/// Carriage return and line feed.
pub open spec fn crlf() -> Seq<u8> {
    seq![13u8, 10u8]
}

/// The line that ends a data block, with the line end before it.
pub open spec fn block_end() -> Seq<u8> {
    seq![13u8, 10u8, 46u8, 13u8, 10u8]
}

pub open spec fn is_digit(b: u8) -> bool {
    48 <= b <= 57
}

/// The number that three ASCII digits spell.
pub open spec fn code_of(d: Seq<u8>) -> u16 {
    ((d[0] - 48) * 100 + (d[1] - 48) * 10 + (d[2] - 48)) as u16
}

/// Every byte among the first three that is present is an ASCII digit.
pub open spec fn leading_digits(s: Seq<u8>) -> bool {
    forall|i: int| 0 <= i < 3 && i < s.len() ==> is_digit(#[trigger] s[i])
}

/// The continuation kind that a separator byte stands for.
pub open spec fn separator_kind(b: u8) -> Option<ContinuationKind> {
    if b == 32 {
        Some(ContinuationKind::Final)
    } else if b == 45 {
        Some(ContinuationKind::Multiline)
    } else if b == 43 {
        Some(ContinuationKind::DataBlock)
    } else {
        None
    }
}

/// Decoding of one reply line at the start of `s`.
pub open spec fn parse_line(s: Seq<u8>) -> Decoded<LineModel> {
    if !leading_digits(s) {
        Decoded::Error(ParseError::MalformedStatusCode)
    } else if s.len() < 4 {
        Decoded::Incomplete
    } else {
        match separator_kind(s[3]) {
            None => Decoded::Error(ParseError::MalformedSeparator),
            Some(kind) => match find_from(s, crlf(), 4) {
                None => Decoded::Incomplete,
                Some(e) => {
                    let content = s.subrange(4, e);
                    if kind == ContinuationKind::DataBlock {
                        match find_from(s, block_end(), e + 2) {
                            None => Decoded::Incomplete,
                            Some(t) => Decoded::Done(
                                LineModel {
                                    code: code_of(s),
                                    kind,
                                    content,
                                    data: Some(s.subrange(e + 2, t)),
                                },
                                t + 5,
                            ),
                        }
                    } else {
                        Decoded::Done(
                            LineModel { code: code_of(s), kind, content, data: None },
                            e + 2,
                        )
                    }
                },
            },
        }
    }
}

/// A decoded line takes at least six bytes, and no more than there are.
pub proof fn lemma_line_consumes(s: Seq<u8>)
    ensures
        parse_line(s) matches Decoded::Done(_, n) ==> 6 <= n <= s.len(),
{
    if leading_digits(s) && s.len() >= 4 && separator_kind(s[3]) is Some {
        lemma_find_from(s, crlf(), 4);
        if let Some(e) = find_from(s, crlf(), 4) {
            lemma_find_from(s, block_end(), e + 2);
        }
    }
}

fn is_digit_byte(b: u8) -> (r: bool)
    ensures
        r == is_digit(b),
{
    48 <= b && b <= 57
}

/// Reads a status code: exactly three ASCII digits.
pub fn validate_status_code(a: &[u8]) -> (r: Result<u16, ParseError>)
    ensures
        r == (if a@.len() == 3 && is_digit(a@[0]) && is_digit(a@[1]) && is_digit(a@[2]) {
            Ok::<u16, ParseError>(code_of(a@))
        } else {
            Err(ParseError::MalformedStatusCode)
        }),
{
    if a.len() != 3 {
        return Err(ParseError::MalformedStatusCode);
    }
    let (d0, d1, d2) = (a[0], a[1], a[2]);
    if !(is_digit_byte(d0) && is_digit_byte(d1) && is_digit_byte(d2)) {
        return Err(ParseError::MalformedStatusCode);
    }
    Ok((d0 - 48) as u16 * 100 + (d1 - 48) as u16 * 10 + (d2 - 48) as u16)
}

fn separator(b: u8) -> (r: Option<ContinuationKind>)
    ensures
        r == separator_kind(b),
{
    if b == 32 {
        Some(ContinuationKind::Final)
    } else if b == 45 {
        Some(ContinuationKind::Multiline)
    } else if b == 43 {
        Some(ContinuationKind::DataBlock)
    } else {
        None
    }
}

/// Decodes one reply line at the start of `inp`.
pub fn reply_line<'a>(inp: &'a [u8]) -> (r: Outcome<'a, ReplyLine<'a>>)
    ensures
        r.agrees(inp@, parse_line(inp@)),
{
    let n = inp.len();
    let mut i: usize = 0;
    while i < 3 && i < n
        invariant
            n == inp@.len(),
            i <= 3,
            forall|j: int| 0 <= j < i ==> is_digit(#[trigger] inp@[j]),
        decreases 3 - i,
    {
        if !is_digit_byte(inp[i]) {
            return Outcome::Error(ParseError::MalformedStatusCode);
        }
        i = i + 1;
    }
    assert(leading_digits(inp@));
    if n < 4 {
        return Outcome::Incomplete;
    }
    let code = match validate_status_code(slice_subrange(inp, 0, 3)) {
        Ok(c) => c,
        Err(e) => {
            return Outcome::Error(e);
        },
    };
    assert(code == code_of(inp@));
    let kind = match separator(inp[3]) {
        Some(k) => k,
        None => {
            return Outcome::Error(ParseError::MalformedSeparator);
        },
    };
    let crlf_bytes: [u8; 2] = [13, 10];
    assert(crlf_bytes@ =~= crlf());
    let e = match find_pattern(inp, crlf_bytes.as_slice(), 4) {
        Some(e) => e,
        None => {
            return Outcome::Incomplete;
        },
    };
    proof {
        lemma_find_from(inp@, crlf(), 4);
    }
    let content = slice_subrange(inp, 4, e);
    let pos = e + 2;
    if kind == ContinuationKind::DataBlock {
        let end_bytes: [u8; 5] = [13, 10, 46, 13, 10];
        assert(end_bytes@ =~= block_end());
        let t = match find_pattern(inp, end_bytes.as_slice(), pos) {
            Some(t) => t,
            None => {
                return Outcome::Incomplete;
            },
        };
        proof {
            lemma_find_from(inp@, block_end(), pos as int);
        }
        let data = slice_subrange(inp, pos, t);
        let rest = slice_subrange(inp, t + 5, n);
        Outcome::Done(rest, ReplyLine { code, kind, content, data: Some(data) })
    } else {
        let rest = slice_subrange(inp, pos, n);
        Outcome::Done(rest, ReplyLine { code, kind, content, data: None })
    }
}


/// An ordered sequence of lines forms one reply: it is not empty, its last
/// line is final and no other line is.
pub open spec fn is_body_shape(ls: Seq<LineModel>) -> bool {
    &&& ls.len() > 0
    &&& ls.last().kind == ContinuationKind::Final
    &&& forall|i: int| 0 <= i < ls.len() - 1 ==> (#[trigger] ls[i]).kind != ContinuationKind::Final
}

/// Puts the lines `pre`, which took `k` bytes, before a decoded body.
pub open spec fn prepend_lines(
    pre: Seq<LineModel>,
    k: int,
    d: Decoded<Seq<LineModel>>,
) -> Decoded<Seq<LineModel>> {
    match d {
        Decoded::Done(ls, m) => Decoded::Done(pre + ls, k + m),
        Decoded::Incomplete => Decoded::Incomplete,
        Decoded::Error(e) => Decoded::Error(e),
    }
}

/// Decoding of one reply body at the start of `s`: lines up to and including
/// the first final one.
pub open spec fn parse_body(s: Seq<u8>) -> Decoded<Seq<LineModel>>
    decreases s.len(),
    via parse_body_decreases
{
    match parse_line(s) {
        Decoded::Done(l, n) => if l.kind == ContinuationKind::Final {
            Decoded::Done(seq![l], n)
        } else {
            prepend_lines(seq![l], n, parse_body(s.subrange(n, s.len() as int)))
        },
        Decoded::Incomplete => Decoded::Incomplete,
        Decoded::Error(e) => Decoded::Error(e),
    }
}

#[via_fn]
proof fn parse_body_decreases(s: Seq<u8>) {
    lemma_line_consumes(s);
}

/// A decoded body takes at least one byte, and no more than there are.
pub proof fn lemma_body_consumes(s: Seq<u8>)
    ensures
        parse_body(s) matches Decoded::Done(_, n) ==> 0 < n <= s.len(),
    decreases s.len(),
{
    lemma_line_consumes(s);
    if let Decoded::Done(l, n) = parse_line(s) {
        if l.kind != ContinuationKind::Final {
            lemma_body_consumes(s.subrange(n, s.len() as int));
        }
    }
}

/// A decoded body has the shape of one reply.
pub proof fn lemma_body_shape(s: Seq<u8>)
    ensures
        parse_body(s) matches Decoded::Done(ls, _) ==> is_body_shape(ls),
    decreases s.len(),
{
    lemma_line_consumes(s);
    if let Decoded::Done(l, n) = parse_line(s) {
        if l.kind != ContinuationKind::Final {
            let t = s.subrange(n, s.len() as int);
            lemma_body_shape(t);
            if let Decoded::Done(ls, m) = parse_body(t) {
                let all = seq![l] + ls;
                assert forall|i: int| 0 <= i < all.len() - 1 implies (#[trigger] all[i]).kind
                    != ContinuationKind::Final by {
                    if i > 0 {
                        assert(all[i] == ls[i - 1]);
                    }
                }
            }
        }
    }
}

/// The lines of one reply.
#[derive(Clone, Debug, PartialEq, Eq)]
pub struct ReplyBody<'a> {
    lines: Vec<ReplyLine<'a>>,
}

impl<'a> View for ReplyBody<'a> {
    type V = Seq<LineModel>;

    closed spec fn view(&self) -> Seq<LineModel> {
        self.lines@.map_values(|l: ReplyLine<'a>| l@)
    }
}

impl<'a> ReplyBody<'a> {
    /// The number of lines.
    pub fn len(&self) -> (r: usize)
        ensures
            r == self@.len(),
    {
        self.lines.len()
    }

    /// The line at index `i`.
    pub fn line(&self, i: usize) -> (r: &ReplyLine<'a>)
        requires
            i < self@.len(),
        ensures
            r@ == self@[i as int],
    {
        &self.lines[i]
    }

    /// The status code of the first line.
    pub fn code(&self) -> (r: u16)
        requires
            self@.len() > 0,
        ensures
            r == self@[0].code,
    {
        self.lines[0].code
    }
}

/// Decodes one reply body: reply lines up to and including the first final
/// one. An incomplete or malformed line makes the whole body so.
pub fn generic_reply<'a>(input: &'a [u8]) -> (r: Outcome<'a, ReplyBody<'a>>)
    ensures
        r.agrees(input@, parse_body(input@)),
        r matches Outcome::Done(_, b) ==> is_body_shape(b@),
{
    let mut inp = input;
    let mut lines: Vec<ReplyLine<'a>> = Vec::new();
    let ghost mut consumed: int = 0;
    loop
        invariant
            0 <= consumed <= input@.len(),
            inp@ == input@.subrange(consumed, input@.len() as int),
            forall|i: int|
                0 <= i < lines@.len() ==> (#[trigger] lines@[i])@.kind
                    != ContinuationKind::Final,
            parse_body(input@) == prepend_lines(
                lines@.map_values(|l: ReplyLine<'a>| l@),
                consumed,
                parse_body(inp@),
            ),
        decreases inp@.len(),
    {
        let ghost before = lines@.map_values(|l: ReplyLine<'a>| l@);
        proof {
            lemma_line_consumes(inp@);
        }
        match reply_line(inp) {
            Outcome::Done(rest, line) => {
                let final_line = line.kind == ContinuationKind::Final;
                let ghost n = inp@.len() - rest@.len();
                proof {
                    assert(input@.subrange(consumed + n, input@.len() as int) =~= rest@);
                }
                lines.push(line);
                let ghost after = lines@.map_values(|l: ReplyLine<'a>| l@);
                assert(after =~= before + seq![line@]);
                if final_line {
                    let body = ReplyBody { lines };
                    assert(is_body_shape(body@)) by {
                        assert forall|i: int| 0 <= i < after.len() - 1 implies (
                        #[trigger] after[i]).kind != ContinuationKind::Final by {
                            assert(after[i] == lines@[i]@);
                        }
                    }
                    return Outcome::Done(rest, body);
                }
                proof {
                    consumed = consumed + n;
                    assert((before + seq![line@]) + parse_body(rest@)->Done_0 =~= before + (
                    seq![line@] + parse_body(rest@)->Done_0));
                }
                inp = rest;
            },
            Outcome::Incomplete => {
                return Outcome::Incomplete;
            },
            Outcome::Error(e) => {
                return Outcome::Error(e);
            },
        }
    }
}


/// Decoding of the run of asynchronous notifications at the start of `s`:
/// the bodies, oldest first, and the bytes they took. The run stops at the
/// first body that does not begin with `'6'` or does not decode.
pub open spec fn split_async(s: Seq<u8>) -> (Seq<Seq<LineModel>>, int)
    decreases s.len(),
    via split_async_decreases
{
    if s.len() > 0 && s[0] == 54u8 {
        match parse_body(s) {
            Decoded::Done(b, n) => {
                let (bs, m) = split_async(s.subrange(n, s.len() as int));
                (seq![b] + bs, n + m)
            },
            _ => (seq![], 0),
        }
    } else {
        (seq![], 0)
    }
}

#[via_fn]
proof fn split_async_decreases(s: Seq<u8>) {
    lemma_body_consumes(s);
}

/// A status code in 600 to 699: an asynchronous notification.
pub open spec fn is_async_code(code: u16) -> bool {
    600 <= code <= 699
}

/// What `split_async` takes lies within `s`, and each body it gives is one
/// reply whose first status code marks a notification.
pub proof fn lemma_split_async(s: Seq<u8>)
    ensures
        0 <= split_async(s).1 <= s.len(),
        forall|i: int|
            0 <= i < split_async(s).0.len() ==> is_body_shape(#[trigger] split_async(s).0[i])
                && is_async_code(split_async(s).0[i][0].code),
    decreases s.len(),
{
    if s.len() > 0 && s[0] == 54u8 {
        lemma_body_consumes(s);
        lemma_body_shape(s);
        if let Decoded::Done(b, n) = parse_body(s) {
            let t = s.subrange(n, s.len() as int);
            lemma_split_async(t);
            let all = split_async(s).0;
            assert forall|i: int| 0 <= i < all.len() implies is_body_shape(#[trigger] all[i])
                && is_async_code(all[i][0].code) by {
                if i > 0 {
                    assert(all[i] == split_async(t).0[i - 1]);
                } else {
                    lemma_first_code(s);
                }
            }
        }
    }
}

/// The first line of a decoded body carries the code that the first three
/// bytes spell, so the body is a notification exactly when its first byte is
/// `'6'`.
pub proof fn lemma_first_code(s: Seq<u8>)
    ensures
        parse_body(s) matches Decoded::Done(ls, _) ==> ls[0].code == code_of(s) && is_digit(s[0])
            && is_digit(s[1]) && is_digit(s[2]) && (s[0] == 54u8 <==> is_async_code(ls[0].code)),
{
    lemma_line_consumes(s);
    if let Decoded::Done(l, n) = parse_line(s) {
        assert(is_digit(s[0]) && is_digit(s[1]) && is_digit(s[2]));
    }
}

/// Takes the asynchronous notifications (status 600 to 699) off the front of
/// `input`. A notification that is incomplete or malformed stops the run and
/// is left in place, without an error.
pub fn read_async_replies<'a>(input: &'a [u8]) -> (r: (Vec<ReplyBody<'a>>, &'a [u8]))
    ensures
        r.0@.map_values(|b: ReplyBody<'a>| b@) == split_async(input@).0,
        r.1@ == input@.subrange(split_async(input@).1, input@.len() as int),
        forall|i: int|
            0 <= i < r.0@.len() ==> is_body_shape((#[trigger] r.0@[i])@) && is_async_code(
                r.0@[i]@[0].code,
            ),
{
    let mut inp = input;
    let mut result: Vec<ReplyBody<'a>> = Vec::new();
    let ghost mut consumed: int = 0;
    proof {
        lemma_split_async(input@);
    }
    while inp.len() > 0 && inp[0] == 54u8
        invariant
            0 <= consumed <= input@.len(),
            inp@ == input@.subrange(consumed, input@.len() as int),
            split_async(input@).0 == result@.map_values(|b: ReplyBody<'a>| b@) + split_async(
                inp@,
            ).0,
            split_async(input@).1 == consumed + split_async(inp@).1,
        ensures
            split_async(inp@).0 =~= seq![],
            split_async(inp@).1 == 0,
        decreases inp@.len(),
    {
        proof {
            lemma_body_consumes(inp@);
        }
        match generic_reply(inp) {
            Outcome::Done(rest, body) => {
                let ghost before = result@.map_values(|b: ReplyBody<'a>| b@);
                let ghost n = inp@.len() - rest@.len();
                proof {
                    assert(input@.subrange(consumed + n, input@.len() as int) =~= rest@);
                    assert(inp@.subrange(n, inp@.len() as int) =~= rest@);
                    consumed = consumed + n;
                }
                result.push(body);
                proof {
                    let after = result@.map_values(|b: ReplyBody<'a>| b@);
                    assert(after =~= before + seq![body@]);
                    assert(before + split_async(inp@).0 =~= after + split_async(rest@).0);
                }
                inp = rest;
            },
            Outcome::Incomplete => {
                break;
            },
            Outcome::Error(_) => {
                break;
            },
        }
    }
    proof {
        assert(result@.map_values(|b: ReplyBody<'a>| b@) + seq![] =~= result@.map_values(
            |b: ReplyBody<'a>| b@,
        ));
        let v = result@.map_values(|b: ReplyBody<'a>| b@);
        assert forall|i: int| 0 <= i < result@.len() implies is_body_shape(
            (#[trigger] result@[i])@,
        ) && is_async_code(result@[i]@[0].code) by {
            assert(v[i] == result@[i]@);
        }
    }
    (result, inp)
}


/// Relies on `String::from_utf8`: it succeeds exactly on valid UTF-8, and the
/// string then holds the characters that the bytes encode.
#[verifier::external_body]
fn string_from_utf8(bytes: Vec<u8>) -> (r: Option<String>)
    ensures
        r is Some <==> valid_utf8(bytes@),
        r matches Some(s) ==> s@ == decode_utf8(bytes@),
{
    String::from_utf8(bytes).ok()
}

/// A status code in 200 to 299: success.
pub open spec fn is_success_code(code: u16) -> bool {
    200 <= code < 300
}

/// Whether a status code reports success.
pub fn code_is_success(code: u16) -> (r: bool)
    ensures
        r == is_success_code(code),
{
    code >= 200 && code < 300
}

/// A reply of one expected shape, decoded from the bytes of one reply body.
pub trait Reply: Sized + View {
    /// What decoding `input` gives.
    spec fn decode_spec(input: Seq<u8>) -> Decoded<Self::V>;

    /// Whether the reply reports success.
    spec fn spec_is_ok(&self) -> bool;

    /// Decodes a reply at the start of `inp`.
    fn parse<'a>(inp: &'a [u8]) -> (r: Outcome<'a, Self>)
        ensures
            r.agrees(inp@, Self::decode_spec(inp@)),
    ;

    /// Whether the reply reports success.
    fn is_ok(&self) -> (r: bool)
        ensures
            r == self.spec_is_ok(),
    ;
}

/// A reply that either succeeds with nothing more, or fails with a message.
#[derive(Debug, PartialEq, Eq)]
pub struct BasicReply(Result<(), String>);

impl Clone for BasicReply {
    fn clone(&self) -> (r: BasicReply)
        ensures
            r@ == self@,
    {
        match &self.0 {
            Ok(()) => BasicReply(Ok(())),
            Err(m) => BasicReply(Err(m.clone())),
        }
    }
}

impl View for BasicReply {
    type V = Result<(), Seq<char>>;

    closed spec fn view(&self) -> Result<(), Seq<char>> {
        match self.0 {
            Ok(()) => Ok(()),
            Err(m) => Err(m@),
        }
    }
}

/// Decoding of a basic reply: success when the first status code is in 200 to
/// 299, otherwise failure with the first line's text, which must be UTF-8.
pub open spec fn decode_basic(s: Seq<u8>) -> Decoded<Result<(), Seq<char>>> {
    match parse_body(s) {
        Decoded::Done(ls, n) => if is_success_code(ls[0].code) {
            Decoded::Done(Ok(()), n)
        } else if valid_utf8(ls[0].content) {
            Decoded::Done(Err(decode_utf8(ls[0].content)), n)
        } else {
            Decoded::Error(ParseError::InvalidEncoding)
        },
        Decoded::Incomplete => Decoded::Incomplete,
        Decoded::Error(e) => Decoded::Error(e),
    }
}

impl Reply for BasicReply {
    open spec fn decode_spec(input: Seq<u8>) -> Decoded<Result<(), Seq<char>>> {
        decode_basic(input)
    }

    open spec fn spec_is_ok(&self) -> bool {
        self@ is Ok
    }

    fn parse<'a>(inp: &'a [u8]) -> (r: Outcome<'a, BasicReply>) {
        match generic_reply(inp) {
            Outcome::Done(rest, body) => {
                let first = &body.lines[0];
                assert(body@[0] == first@);
                if code_is_success(first.code) {
                    Outcome::Done(rest, BasicReply(Ok(())))
                } else {
                    match string_from_utf8(slice_to_vec(first.content)) {
                        Some(m) => Outcome::Done(rest, BasicReply(Err(m))),
                        None => Outcome::Error(ParseError::InvalidEncoding),
                    }
                }
            },
            Outcome::Incomplete => Outcome::Incomplete,
            Outcome::Error(e) => Outcome::Error(e),
        }
    }

    fn is_ok(&self) -> (r: bool) {
        self.0.is_ok()
    }
}

impl BasicReply {
    /// The failure message, if the reply reports failure.
    pub fn error_message(&self) -> (r: Option<String>)
        ensures
            match r {
                Some(m) => self@ == Err::<(), Seq<char>>(m@),
                None => self@ is Ok,
            },
    {
        match &self.0 {
            Ok(()) => None,
            Err(m) => Some(m.clone()),
        }
    }
}

/// Reads what `input` holds: first the asynchronous notifications at its
/// start, then one reply of type `R` from the bytes after them. An empty
/// buffer is incomplete.
pub fn read_reply<'a, R: Reply>(input: &'a [u8]) -> (r: (Vec<ReplyBody<'a>>, Outcome<'a, R>))
    ensures
        input@.len() == 0 ==> r.0@.len() == 0 && r.1 is Incomplete,
        input@.len() > 0 ==> {
            let rest = input@.subrange(split_async(input@).1, input@.len() as int);
            &&& r.0@.map_values(|b: ReplyBody<'a>| b@) == split_async(input@).0
            &&& r.1.agrees(rest, R::decode_spec(rest))
        },
        forall|i: int|
            0 <= i < r.0@.len() ==> is_body_shape((#[trigger] r.0@[i])@) && is_async_code(
                r.0@[i]@[0].code,
            ),
{
    if input.len() == 0 {
        return (Vec::new(), Outcome::Incomplete);
    }
    let (async_replies, rest) = read_async_replies(input);
    (async_replies, R::parse(rest))
}

} // verus!
