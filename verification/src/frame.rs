//! The frame model and the frame encoder.
//!
//! A frame is a command, an ordered list of header pairs, and an optional
//! body. Headers keep their insertion order and may repeat; the body is raw
//! bytes. `create` serializes a frame into its wire form
//! `COMMAND LF (name ':' value LF)* LF BODY? NUL`.

use vstd::prelude::*;
use crate::scan::{LF, NUL, COLON, lacks, trim_end, ascii_lower, ci_equal, content_length_name,
    content_length_value};

verus! {

/// One protocol frame: command verb, ordered header pairs, optional body.
///
/// All parts are raw bytes. Header order is preserved and duplicate names
/// are kept; a body is opaque and may hold any byte when a `content-length`
/// header declares its length.
pub struct Frame {
    /// The command verb, e.g. `CONNECT` or `MESSAGE`.
    pub command: Vec<u8>,
    /// The header pairs, in wire order.
    pub headers: Vec<(Vec<u8>, Vec<u8>)>,
    /// The body bytes, if the frame has any.
    pub body: Option<Vec<u8>>,
}

/// The mathematical image of a `Frame`.
pub ghost struct FrameModel {
    pub command: Seq<u8>,
    pub headers: Seq<(Seq<u8>, Seq<u8>)>,
    pub body: Option<Seq<u8>>,
}

/// The mathematical image of a header list.
pub open spec fn headers_view(hs: Seq<(Vec<u8>, Vec<u8>)>) -> Seq<(Seq<u8>, Seq<u8>)> {
    hs.map_values(|p: (Vec<u8>, Vec<u8>)| (p.0@, p.1@))
}

/// The mathematical image of an optional body.
pub open spec fn body_view(b: Option<Vec<u8>>) -> Option<Seq<u8>> {
    match b {
        Some(v) => Some(v@),
        None => None,
    }
}

impl View for Frame {
    type V = FrameModel;

    open spec fn view(&self) -> FrameModel {
        FrameModel {
            command: self.command@,
            headers: headers_view(self.headers@),
            body: body_view(self.body),
        }
    }
}

/// The body bytes that reach the wire: the body itself, or nothing.
pub open spec fn body_bytes(b: Option<Seq<u8>>) -> Seq<u8> {
    match b {
        Some(v) => v,
        None => Seq::empty(),
    }
}

/// The wire bytes of one header pair: `name ':' value LF`.
pub open spec fn header_line(h: (Seq<u8>, Seq<u8>)) -> Seq<u8> {
    h.0 + seq![COLON] + h.1 + seq![LF]
}

/// The wire bytes of a header list: its lines, in order.
pub open spec fn header_block(hs: Seq<(Seq<u8>, Seq<u8>)>) -> Seq<u8>
    decreases hs.len(),
{
    if hs.len() == 0 {
        Seq::empty()
    } else {
        header_line(hs[0]) + header_block(hs.skip(1))
    }
}

/// The complete wire form of a frame:
/// `command LF header-lines LF body NUL`.
pub open spec fn spec_encode(c: Seq<u8>, hs: Seq<(Seq<u8>, Seq<u8>)>, b: Option<Seq<u8>>) -> Seq<u8> {
    c + seq![LF] + header_block(hs) + seq![LF] + body_bytes(b) + seq![NUL]
}

/// The wire form of a frame model.
pub open spec fn encode_model(m: FrameModel) -> Seq<u8> {
    spec_encode(m.command, m.headers, m.body)
}

/// The value of the first header whose name equals `name` up to ASCII case,
/// or nothing when no name matches.
pub open spec fn first_value_ci(hs: Seq<(Seq<u8>, Seq<u8>)>, name: Seq<u8>) -> Option<Seq<u8>>
    decreases hs.len(),
{
    if hs.len() == 0 {
        None
    } else if ci_equal(hs[0].0, name) {
        Some(hs[0].1)
    } else {
        first_value_ci(hs.skip(1), name)
    }
}

/// A command that survives the wire: non-empty, free of line feeds and NUL,
/// and with no trailing whitespace for the decoder to strip.
pub open spec fn wf_command(c: Seq<u8>) -> bool {
    c.len() > 0 && lacks(c, LF) && lacks(c, NUL) && trim_end(c) == c
}

/// A header pair that survives the wire: a non-empty name without colon,
/// line feed or NUL, and a value without line feed or NUL.
pub open spec fn wf_header(h: (Seq<u8>, Seq<u8>)) -> bool {
    h.0.len() > 0 && lacks(h.0, COLON) && lacks(h.0, LF) && lacks(h.0, NUL)
        && lacks(h.1, LF) && lacks(h.1, NUL)
}

/// A body consistent with the frame's headers: under a `content-length`
/// header the body is present and exactly as long as the header declares;
/// without one it is absent, or non-empty and free of the NUL terminator.
pub open spec fn wf_body(hs: Seq<(Seq<u8>, Seq<u8>)>, b: Option<Seq<u8>>) -> bool {
    match first_value_ci(hs, content_length_name()) {
        Some(v) => b is Some && content_length_value(v) == Some(body_bytes(b).len() as int),
        None => match b {
            None => true,
            Some(bs) => bs.len() > 0 && lacks(bs, NUL),
        },
    }
}

/// A well-formed frame: one whose wire form decodes back to itself.
pub open spec fn wf_frame(m: FrameModel) -> bool {
    wf_command(m.command)
        && (forall|i: int| 0 <= i < m.headers.len() ==> wf_header(#[trigger] m.headers[i]))
        && wf_body(m.headers, m.body)
}

/// Appends all of `src` to `out`.
fn push_all(out: &mut Vec<u8>, src: &Vec<u8>)
    ensures
        final(out)@ == old(out)@ + src@,
{
    let mut i: usize = 0;
    while i < src.len()
        invariant
            i <= src.len(),
            out@ == old(out)@ + src@.take(i as int),
        decreases src.len() - i,
    {
        out.push(src[i]);
        assert(src@.take(i as int).push(src@[i as int]) == src@.take(i + 1));
        i += 1;
    }
    assert(src@.take(src.len() as int) == src@);
}

/// The header block of one more header is the block so far plus that
/// header's line.
proof fn lemma_header_block_snoc(hs: Seq<(Seq<u8>, Seq<u8>)>, i: int)
    requires
        0 <= i < hs.len(),
    ensures
        header_block(hs.take(i + 1)) == header_block(hs.take(i)) + header_line(hs[i]),
    decreases i,
{
    let a = hs.take(i + 1);
    let b = hs.take(i);
    if i == 0 {
        assert(a.skip(1) =~= Seq::empty());
        assert(header_block(a) == header_line(hs[0]) + header_block(a.skip(1)));
        assert(header_block(a) =~= header_block(b) + header_line(hs[0]));
    } else {
        lemma_header_block_snoc(hs.skip(1), i - 1);
        assert(a.skip(1) =~= hs.skip(1).take(i));
        assert(b.skip(1) =~= hs.skip(1).take(i - 1));
        assert(hs.skip(1)[i - 1] == hs[i]);
        assert(header_block(a) == header_line(hs[0]) + header_block(hs.skip(1).take(i)));
        assert(header_block(b) == header_line(hs[0]) + header_block(hs.skip(1).take(i - 1)));
        assert(header_block(a) =~= header_block(b) + header_line(hs[i]));
    }
}

/// Serializes a frame into its wire bytes:
/// `command LF (name ':' value LF)* LF body? NUL`.
///
/// Header lines are written in the given order, values verbatim and without
/// escaping; no header is added on the caller's behalf, so a caller that
/// wants a `content-length` supplies it.
pub fn create(command: &Vec<u8>, headers: &Vec<(Vec<u8>, Vec<u8>)>, body: &Option<Vec<u8>>) -> (r: Vec<u8>)
    ensures
        r@ == spec_encode(command@, headers_view(headers@), body_view(*body)),
{
    let ghost hs = headers_view(headers@);
    let mut out: Vec<u8> = Vec::new();
    push_all(&mut out, command);
    out.push(LF);
    assert(out@ =~= command@ + seq![LF]);

    let mut i: usize = 0;
    while i < headers.len()
        invariant
            i <= headers.len(),
            hs == headers_view(headers@),
            hs.len() == headers@.len(),
            out@ == command@ + seq![LF] + header_block(hs.take(i as int)),
        decreases headers.len() - i,
    {
        let ghost before = out@;
        push_all(&mut out, &headers[i].0);
        out.push(COLON);
        push_all(&mut out, &headers[i].1);
        out.push(LF);
        proof {
            assert(hs[i as int] == (headers@[i as int].0@, headers@[i as int].1@));
            assert(out@ =~= before + header_line(hs[i as int]));
            lemma_header_block_snoc(hs, i as int);
            assert(out@ =~= command@ + seq![LF] + header_block(hs.take(i + 1)));
        }
        i += 1;
    }
    assert(hs.take(hs.len() as int) == hs);

    out.push(LF);
    match body {
        Some(b) => push_all(&mut out, b),
        None => (),
    }
    out.push(NUL);
    assert(out@ =~= spec_encode(command@, hs, body_view(*body)));
    out
}

/// Folds one byte to ASCII lower case.
pub(crate) fn to_lower(b: u8) -> (r: u8)
    ensures
        r == ascii_lower(b),
{
    if 65 <= b && b <= 90 {
        b + 32
    } else {
        b
    }
}

/// Compares two names up to ASCII case.
pub(crate) fn names_ci_equal(a: &Vec<u8>, b: &Vec<u8>) -> (r: bool)
    ensures
        r == ci_equal(a@, b@),
{
    if a.len() != b.len() {
        return false;
    }
    let mut i: usize = 0;
    while i < a.len()
        invariant
            i <= a.len(),
            a.len() == b.len(),
            forall|j: int| 0 <= j < i ==> ascii_lower(a@[j]) == ascii_lower(b@[j]),
        decreases a.len() - i,
    {
        if to_lower(a[i]) != to_lower(b[i]) {
            return false;
        }
        i += 1;
    }
    true
}

/// Looks up the value of the first header whose name matches `name` up to
/// ASCII case. Later duplicates are kept in the list but do not answer the
/// lookup: the policy is first-match.
pub fn first_header_value<'a>(headers: &'a Vec<(Vec<u8>, Vec<u8>)>, name: &Vec<u8>) -> (r: Option<&'a Vec<u8>>)
    ensures
        match r {
            Some(v) => first_value_ci(headers_view(headers@), name@) == Some(v@),
            None => first_value_ci(headers_view(headers@), name@) is None,
        },
{
    let ghost hs = headers_view(headers@);
    proof {
        assert(hs.skip(0) =~= hs);
    }
    let mut i: usize = 0;
    while i < headers.len()
        invariant
            i <= headers.len(),
            hs == headers_view(headers@),
            hs.len() == headers@.len(),
            first_value_ci(hs, name@) == first_value_ci(hs.skip(i as int), name@),
        decreases headers.len() - i,
    {
        proof {
            assert(hs.skip(i as int)[0] == hs[i as int]);
        }
        if names_ci_equal(&headers[i].0, name) {
            return Some(&headers[i].1);
        }
        proof {
            assert(hs.skip(i as int).skip(1) =~= hs.skip(i + 1));
        }
        i += 1;
    }
    proof {
        assert(hs.skip(i as int) =~= Seq::<(Seq<u8>, Seq<u8>)>::empty());
    }
    None
}

impl Frame {
    /// The value of this frame's first header whose name equals `name` up
    /// to ASCII case, or nothing when no header matches. Duplicates stay in
    /// the list; the lookup policy is deliberately first-match.
    pub fn header_value(&self, name: &Vec<u8>) -> (r: Option<&Vec<u8>>)
        ensures
            match r {
                Some(v) => first_value_ci(self@.headers, name@) == Some(v@),
                None => first_value_ci(self@.headers, name@) is None,
            },
    {
        first_header_value(&self.headers, name)
    }
}

} // verus!
