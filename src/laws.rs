//! What the reply decoder does: the bytes of a well-formed reply decode back
//! to it, any cut of a buffer before the end of the body it decodes to is
//! incomplete, and a run of notifications is split off exactly.
use vstd::prelude::*;

use crate::reply::{
    block_end, code_of, crlf, decode_basic, is_async_code, is_body_shape, is_digit,
    leading_digits, lemma_body_consumes, lemma_first_code, lemma_line_consumes, parse_body,
    parse_line, separator_kind, split_async, lemma_split_async, ContinuationKind, Decoded, LineModel,
};
use crate::scan::{
    find_from, lemma_find_from, lemma_find_from_first, lemma_find_from_none,
    lemma_find_from_prefix, occurs_at,
};

verus! {

/// The three ASCII digits of a status code below 1000.
pub open spec fn code_digits(code: u16) -> Seq<u8> {
    seq![(48 + code / 100) as u8, (48 + (code / 10) % 10) as u8, (48 + code % 10) as u8]
}

/// The byte that marks a continuation kind.
pub open spec fn separator_byte(k: ContinuationKind) -> u8 {
    match k {
        ContinuationKind::Final => 32,
        ContinuationKind::Multiline => 45,
        ContinuationKind::DataBlock => 43,
    }
}

/// The bytes of one reply line, followed by its data block if it has one.
pub open spec fn line_bytes(l: LineModel) -> Seq<u8> {
    code_digits(l.code) + seq![separator_byte(l.kind)] + l.content + crlf() + match l.data {
        Some(d) => d + block_end(),
        None => seq![],
    }
}

/// A line that can be sent: a code of three digits, text whose first line
/// end is the one that closes it, a data block exactly on a `'+'` line, and
/// a data block whose first terminator is the one that closes it.
pub open spec fn wf_line(l: LineModel) -> bool {
    &&& l.code < 1000
    &&& find_from(l.content + crlf(), crlf(), 0) == Some(l.content.len() as int)
    &&& (l.kind == ContinuationKind::DataBlock) == (l.data is Some)
    &&& l.data matches Some(d) ==> find_from(d + block_end(), block_end(), 0) == Some(
        d.len() as int,
    )
}

/// A reply body that can be sent: well-formed lines in the shape of one reply.
pub open spec fn wf_body(ls: Seq<LineModel>) -> bool {
    is_body_shape(ls) && forall|i: int| 0 <= i < ls.len() ==> wf_line(#[trigger] ls[i])
}

/// The bytes of the lines of a body, one after the other.
pub open spec fn body_bytes(ls: Seq<LineModel>) -> Seq<u8>
    decreases ls.len(),
{
    if ls.len() == 0 {
        seq![]
    } else {
        line_bytes(ls[0]) + body_bytes(ls.drop_first())
    }
}

/// Where `s` holds the first `m` bytes of `w` from index `a` on, and `p`
/// occurs in `w` first at its very end, the search in `s` from `a` finds
/// that occurrence if all of `w` is there, and nothing if `s` ends earlier.
proof fn lemma_find_framed(s: Seq<u8>, p: Seq<u8>, a: int, w: Seq<u8>, m: int)
    requires
        p.len() > 0,
        0 <= a,
        0 <= m <= w.len(),
        a + m <= s.len(),
        s.subrange(a, a + m) == w.subrange(0, m),
        find_from(w, p, 0) == Some(w.len() - p.len()),
    ensures
        m == w.len() ==> find_from(s, p, a) == Some(a + m - p.len()),
        m < w.len() && a + m == s.len() ==> find_from(s, p, a) is None,
{
    lemma_find_from(w, p, 0);
    assert forall|j: int| a <= j && j + p.len() <= a + m && occurs_at(s, p, j) implies occurs_at(
        w,
        p,
        j - a,
    ) by {
        assert forall|k: int| 0 <= k < p.len() implies w[j - a + k] == #[trigger] s[j + k] by {
            assert(s.subrange(a, a + m)[j - a + k] == s[j + k]);
            assert(w.subrange(0, m)[j - a + k] == w[j - a + k]);
        }
        let ws = w.subrange(j - a, j - a + p.len());
        let ss = s.subrange(j, j + p.len());
        assert forall|k: int| 0 <= k < p.len() implies ws[k] == ss[k] by {
            assert(ws[k] == w[j - a + k]);
            assert(ss[k] == s[j + k]);
        }
        assert(ws =~= ss);
    }
    if m == w.len() {
        let i = a + m - p.len();
        assert(occurs_at(w, p, w.len() - p.len()));
        assert(occurs_at(s, p, i)) by {
            assert forall|k: int| 0 <= k < p.len() implies s[i + k] == p[k] by {
                assert(s.subrange(a, a + m)[m - p.len() + k] == s[i + k]);
                assert(w.subrange(0, m)[m - p.len() + k] == w[m - p.len() + k]);
                assert(w.subrange(w.len() - p.len(), w.len() as int)[k] == w[m - p.len() + k]);
            }
            assert(s.subrange(i, i + p.len()) =~= p);
        }
        lemma_find_from_first(s, p, a, i);
    } else if a + m == s.len() {
        lemma_find_from_none(s, p, a);
    }
}

/// The digits of a status code below 1000 spell it.
proof fn lemma_code_digits(code: u16)
    requires
        code < 1000,
    ensures
        is_digit(code_digits(code)[0]),
        is_digit(code_digits(code)[1]),
        is_digit(code_digits(code)[2]),
        code_of(code_digits(code)) == code,
{
    let c = code as int;
    assert(c == 100 * (c / 100) + 10 * ((c / 10) % 10) + c % 10);
}

/// The bytes of a well-formed line, followed by anything, decode to that line.
pub proof fn lemma_line_round_trip(l: LineModel, t: Seq<u8>)
    requires
        wf_line(l),
    ensures
        parse_line(line_bytes(l) + t) == Decoded::Done(l, line_bytes(l).len() as int),
{
    let s = line_bytes(l) + t;
    let c = l.content;
    lemma_code_digits(l.code);
    assert(s[0] == code_digits(l.code)[0]);
    assert(s[1] == code_digits(l.code)[1]);
    assert(s[2] == code_digits(l.code)[2]);
    assert(s[3] == separator_byte(l.kind));
    assert(leading_digits(s));
    assert(s.subrange(0, 3) =~= code_digits(l.code));
    assert(code_of(s) == l.code);
    assert(separator_kind(s[3]) == Some(l.kind));
    let w = c + crlf();
    assert(s.subrange(4, 4 + w.len() as int) =~= w.subrange(0, w.len() as int));
    lemma_find_framed(s, crlf(), 4, w, w.len() as int);
    let e: int = 4 + c.len() as int;
    assert(s.subrange(4, e) =~= c);
    match l.data {
        Some(d) => {
            let w2 = d + block_end();
            assert(s.subrange(e + 2, e + 2 + w2.len() as int) =~= w2.subrange(0, w2.len() as int));
            lemma_find_framed(s, block_end(), e + 2, w2, w2.len() as int);
            assert(s.subrange(e + 2, e + 2 + d.len() as int) =~= d);
        },
        None => {},
    }
}

proof fn lemma_wf_body_rest(ls: Seq<LineModel>)
    requires
        wf_body(ls),
        ls.len() > 1,
    ensures
        wf_body(ls.drop_first()),
        ls[0].kind != ContinuationKind::Final,
        wf_line(ls[0]),
{
    let r = ls.drop_first();
    assert(r.last() == ls.last());
    assert forall|i: int| 0 <= i < r.len() - 1 implies (#[trigger] r[i]).kind
        != ContinuationKind::Final by {
        assert(r[i] == ls[i + 1]);
    }
    assert forall|i: int| 0 <= i < r.len() implies wf_line(#[trigger] r[i]) by {
        assert(r[i] == ls[i + 1]);
    }
    assert(wf_line(ls[0]));
}

/// A reply body round trip: the bytes of a well-formed body, followed by
/// anything, decode to exactly its lines and take exactly its bytes. So a
/// body of N continuation lines and one final line decodes to N + 1 lines,
/// none final but the last.
pub proof fn body_round_trip(ls: Seq<LineModel>, t: Seq<u8>)
    requires
        wf_body(ls),
    ensures
        parse_body(body_bytes(ls) + t) == Decoded::Done(ls, body_bytes(ls).len() as int),
    decreases ls.len(),
{
    let s = body_bytes(ls) + t;
    let rest = ls.drop_first();
    let l = ls[0];
    assert(body_bytes(ls) == line_bytes(l) + body_bytes(rest));
    assert(s =~= line_bytes(l) + (body_bytes(rest) + t));
    assert(wf_line(l));
    lemma_line_round_trip(l, body_bytes(rest) + t);
    let n = line_bytes(l).len() as int;
    if ls.len() == 1 {
        assert(rest.len() == 0);
        assert(seq![l] =~= ls);
    } else {
        lemma_wf_body_rest(ls);
        assert(s.subrange(n, s.len() as int) =~= body_bytes(rest) + t);
        body_round_trip(rest, t);
        assert(seq![l] + rest =~= ls);
    }
}

/// A cut of any buffer whose first line decodes: before the end of that line
/// the cut is incomplete; at or after it, the line decodes the same.
proof fn lemma_line_prefix(s: Seq<u8>, k: int)
    requires
        0 <= k <= s.len(),
        parse_line(s) is Done,
    ensures
        k < parse_line(s)->Done_1 ==> parse_line(s.subrange(0, k)) is Incomplete,
        k >= parse_line(s)->Done_1 ==> parse_line(s.subrange(0, k)) == parse_line(s),
{
    let p = s.subrange(0, k);
    assert(leading_digits(p)) by {
        assert forall|i: int| 0 <= i < 3 && i < p.len() implies is_digit(#[trigger] p[i]) by {
            assert(p[i] == s[i]);
        }
    }
    lemma_line_consumes(s);
    if k >= 4 {
        assert(p[3] == s[3]);
        lemma_find_from(s, crlf(), 4);
        lemma_find_from_prefix(s, crlf(), 4, k);
        let e = find_from(s, crlf(), 4)->Some_0;
        assert(crlf().len() == 2);
        assert(block_end().len() == 5);
        lemma_find_from(s, block_end(), e + 2);
        if e + 2 <= k {
            assert(find_from(p, crlf(), 4) == Some(e));
            assert(p.subrange(4, e) =~= s.subrange(4, e));
            assert(p[0] == s[0] && p[1] == s[1] && p[2] == s[2]);
            assert(code_of(p) == code_of(s));
            if separator_kind(s[3]) == Some(ContinuationKind::DataBlock) {
                lemma_find_from(s, block_end(), e + 2);
                lemma_find_from_prefix(s, block_end(), e + 2, k);
                let t = find_from(s, block_end(), e + 2)->Some_0;
                if t + 5 <= k {
                    assert(find_from(p, block_end(), e + 2) == Some(t));
                    assert(p.subrange(e + 2, t) =~= s.subrange(e + 2, t));
                }
            }
        }
    }
}

/// A cut of any buffer whose first body decodes: before the end of that body
/// the cut is incomplete; at or after it, the body decodes the same.
proof fn lemma_body_prefix(s: Seq<u8>, k: int)
    requires
        0 <= k <= s.len(),
        parse_body(s) is Done,
    ensures
        k < parse_body(s)->Done_1 ==> parse_body(s.subrange(0, k)) is Incomplete,
        k >= parse_body(s)->Done_1 ==> parse_body(s.subrange(0, k)) == parse_body(s),
    decreases s.len(),
{
    let p = s.subrange(0, k);
    lemma_line_consumes(s);
    lemma_line_prefix(s, k);
    let l = parse_line(s)->Done_0;
    let m = parse_line(s)->Done_1;
    let t = s.subrange(m, s.len() as int);
    lemma_body_consumes(t);
    if k >= m && l.kind != ContinuationKind::Final {
        assert(p.subrange(m, p.len() as int) =~= t.subrange(0, k - m));
        lemma_body_prefix(t, k - m);
    }
}

/// Cutting any buffer that decodes to a reply body anywhere before the end of
/// that body leaves a buffer that decodes as incomplete, never as an error,
/// both as a body and as a basic reply; supplying the rest of the bytes again
/// gives what the whole buffer gives.
pub proof fn truncated_decode_is_incomplete(s: Seq<u8>, k: int)
    requires
        parse_body(s) is Done,
        0 <= k < parse_body(s)->Done_1,
    ensures
        parse_body(s.subrange(0, k)) is Incomplete,
        decode_basic(s.subrange(0, k)) is Incomplete,
        parse_body(s.subrange(0, k) + s.subrange(k, s.len() as int)) == parse_body(s),
{
    lemma_body_consumes(s);
    lemma_body_prefix(s, k);
    assert(s.subrange(0, k) + s.subrange(k, s.len() as int) =~= s);
}

/// Chunks of bytes, one after the other.
pub open spec fn concat_chunks(cs: Seq<Seq<u8>>) -> Seq<u8>
    decreases cs.len(),
{
    if cs.len() == 0 {
        seq![]
    } else {
        cs[0] + concat_chunks(cs.drop_first())
    }
}

/// K chunks, each of which, with all that follows it, decodes to a
/// notification body (first status code in 600 to 699) that takes exactly
/// the chunk, then bytes that decode to a body whose first code is not a
/// notification's: the splitter gives exactly the K bodies in order, takes
/// exactly the chunks, and the chunks followed by the rest are the whole
/// buffer.
pub proof fn async_decodes_split_off(
    chunks: Seq<Seq<u8>>,
    bodies: Seq<Seq<LineModel>>,
    tail: Seq<u8>,
)
    requires
        chunks.len() == bodies.len(),
        forall|i: int|
            0 <= i < bodies.len() ==> parse_body(concat_chunks(chunks.skip(i)) + tail)
                == Decoded::Done(#[trigger] bodies[i], chunks[i].len() as int) && is_async_code(
                bodies[i][0].code,
            ),
        parse_body(tail) matches Decoded::Done(b, _) && !is_async_code(b[0].code),
    ensures
        ({
            let s = concat_chunks(chunks) + tail;
            let n = split_async(s).1;
            &&& split_async(s).0 == bodies
            &&& s.subrange(0, n) == concat_chunks(chunks)
            &&& s.subrange(0, n) + s.subrange(n, s.len() as int) == s
        }),
    decreases chunks.len(),
{
    let s = concat_chunks(chunks) + tail;
    lemma_first_code(tail);
    lemma_body_consumes(tail);
    if chunks.len() == 0 {
        assert(s =~= tail);
        assert(bodies =~= Seq::<Seq<LineModel>>::empty());
    } else {
        let c = chunks[0];
        let rest = chunks.drop_first();
        assert(chunks.skip(0) =~= chunks);
        assert(parse_body(s) == Decoded::Done(bodies[0], c.len() as int));
        lemma_first_code(s);
        lemma_body_consumes(s);
        assert(s.subrange(c.len() as int, s.len() as int) =~= concat_chunks(rest) + tail);
        let rb = bodies.drop_first();
        assert forall|i: int| 0 <= i < rb.len() implies parse_body(
            concat_chunks(rest.skip(i)) + tail,
        ) == Decoded::Done(#[trigger] rb[i], rest[i].len() as int) && is_async_code(
            rb[i][0].code,
        ) by {
            assert(rest.skip(i) =~= chunks.skip(i + 1));
            assert(rb[i] == bodies[i + 1]);
        }
        async_decodes_split_off(rest, rb, tail);
        assert(seq![bodies[0]] + rb =~= bodies);
        assert(s[0] == 54u8);
        let s2 = concat_chunks(rest) + tail;
        assert(split_async(s).1 == c.len() + split_async(s2).1);
        assert(concat_chunks(chunks) == c + concat_chunks(rest));
        lemma_split_async(s2);
        assert(split_async(s2).1 == concat_chunks(rest).len());
    }
    let n = split_async(s).1;
    assert(s.subrange(0, n) =~= concat_chunks(chunks));
    assert(s.subrange(0, n) + s.subrange(n, s.len() as int) =~= s);
}

} // verus!
