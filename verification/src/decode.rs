//! The incremental frame decoder.
//!
//! `try_decode` inspects a growing byte buffer and either extracts one
//! complete frame together with the exact number of bytes it occupied,
//! reports that the buffer does not yet hold a complete frame, or reports
//! that the bytes present can never form one. It never consumes bytes it
//! cannot fully account for, so a caller may drop the consumed prefix and
//! call again as more bytes arrive. `drain_frames` does exactly that,
//! extracting every complete frame a buffer holds.

use vstd::prelude::*;
use crate::scan::{LF, NUL, COLON, seek, seek_blank, trim_end, is_trailing_ws, is_digit,
    all_digits, dec_num, content_length_value, content_length_name,
    lemma_seek, lemma_seek_is, lemma_seek_blank, lemma_seek_blank_is, lemma_trim_end_ws_tail,
    lemma_dec_num_grows};
use crate::frame::{Frame, FrameModel, headers_view, first_value_ci, first_header_value};

verus! {

/// A fatal decoding failure: the bytes already present can never be
/// completed into a frame, and the stream cannot be resynchronized.
#[derive(Clone, Copy, Debug, PartialEq, Eq, Structural)]
pub enum ProtocolError {
    /// A `content-length` header is present but its value is not a
    /// non-negative decimal integer.
    InvalidContentLength,
    /// The byte after the body is present but is not the NUL terminator.
    MissingTerminator,
}

/// What one decoding step found.
pub enum Decoded {
    /// The buffer does not yet hold a complete frame; nothing was consumed.
    Incomplete,
    /// One complete frame, and the exact number of leading bytes it
    /// occupied, trailing terminator and optional line feed included.
    Finished { frame: Frame, consumed: usize },
}

/// The mathematical image of a decoding step.
pub ghost enum DecodeModel {
    Incomplete,
    Malformed(ProtocolError),
    Finished { frame: FrameModel, consumed: int },
}

/// One header line split at its first colon, or nothing when the line has
/// no colon or an empty name and is skipped.
pub open spec fn parse_line(line: Seq<u8>) -> Option<(Seq<u8>, Seq<u8>)> {
    let c = seek(line, COLON, 0);
    if 0 < c < line.len() {
        Some((line.subrange(0, c), line.subrange(c + 1, line.len() as int)))
    } else {
        None
    }
}

/// The header pairs read from the line-feed-separated lines of
/// `s[from..end)`, in order, malformed lines skipped.
pub open spec fn parse_headers_from(s: Seq<u8>, from: int, end: int) -> Seq<(Seq<u8>, Seq<u8>)>
    decreases end - from,
{
    if from >= end {
        Seq::empty()
    } else {
        let e = seek(s, LF, from);
        let stop = if from <= e && e < end { e } else { end };
        let rest = if stop < end { parse_headers_from(s, stop + 1, end) } else { Seq::empty() };
        match parse_line(s.subrange(from, stop)) {
            Some(h) => seq![h] + rest,
            None => rest,
        }
    }
}

/// What decoding a buffer yields.
///
/// The command is the trimmed text before the first line feed; the header
/// block ends at the first blank line; the body is as long as a
/// `content-length` header declares, or else runs to the next NUL; the
/// frame ends at that NUL plus an optional trailing line feed. A buffer is
/// incomplete until every one of those parts is present.
pub open spec fn spec_decode(s: Seq<u8>) -> DecodeModel {
    let ce = seek(s, LF, 0);
    if ce >= s.len() {
        DecodeModel::Incomplete
    } else {
        let bl = seek_blank(s, ce);
        if bl >= s.len() {
            DecodeModel::Incomplete
        } else {
            let command = trim_end(s.subrange(0, ce));
            let headers = parse_headers_from(s, ce + 1, bl + 1);
            let body_start = bl + 2;
            match first_value_ci(headers, content_length_name()) {
                Some(v) => match content_length_value(v) {
                    None => DecodeModel::Malformed(ProtocolError::InvalidContentLength),
                    Some(n) => if s.len() < body_start + n + 1 {
                        DecodeModel::Incomplete
                    } else if s[body_start + n] != NUL {
                        DecodeModel::Malformed(ProtocolError::MissingTerminator)
                    } else {
                        let after = body_start + n + 1;
                        let consumed = if after < s.len() && s[after] == LF { after + 1 } else { after };
                        DecodeModel::Finished {
                            frame: FrameModel {
                                command,
                                headers,
                                body: Some(s.subrange(body_start, body_start + n)),
                            },
                            consumed,
                        }
                    },
                },
                None => {
                    let t = seek(s, NUL, body_start);
                    if t >= s.len() {
                        DecodeModel::Incomplete
                    } else {
                        let body = s.subrange(body_start, t);
                        let after = t + 1;
                        let consumed = if after < s.len() && s[after] == LF { after + 1 } else { after };
                        DecodeModel::Finished {
                            frame: FrameModel {
                                command,
                                headers,
                                body: if body.len() == 0 { None } else { Some(body) },
                            },
                            consumed,
                        }
                    }
                },
            }
        }
    }
}

/// Finds the first occurrence of `b` in `buf` at or after `from`.
fn find_byte(buf: &Vec<u8>, b: u8, from: usize) -> (r: Option<usize>)
    requires
        from <= buf.len(),
    ensures
        match r {
            Some(i) => from <= i < buf.len() && i == seek(buf@, b, from as int),
            None => seek(buf@, b, from as int) == buf@.len(),
        },
{
    let mut i: usize = from;
    while i < buf.len()
        invariant
            from <= i <= buf.len(),
            forall|j: int| from <= j < i ==> buf@[j] != b,
        decreases buf.len() - i,
    {
        if buf[i] == b {
            proof { lemma_seek_is(buf@, b, from as int, i as int); }
            return Some(i);
        }
        i += 1;
    }
    proof { lemma_seek_is(buf@, b, from as int, buf@.len() as int); }
    None
}

/// Finds the first pair of consecutive line feeds in `buf` at or after
/// `from`.
fn find_blank(buf: &Vec<u8>, from: usize) -> (r: Option<usize>)
    requires
        from <= buf.len(),
    ensures
        match r {
            Some(i) => from <= i && i + 1 < buf.len() && i == seek_blank(buf@, from as int),
            None => seek_blank(buf@, from as int) == buf@.len(),
        },
{
    if buf.len() == 0 {
        proof { lemma_seek_blank_is(buf@, from as int, 0); }
        return None;
    }
    let mut i: usize = from;
    while i < buf.len() - 1
        invariant
            from <= i,
            i <= buf.len(),
            buf.len() > 0,
            forall|j: int| from <= j < i && j + 1 < buf@.len()
                ==> !(#[trigger] buf@[j] == LF && buf@[j + 1] == LF),
        decreases buf.len() - i,
    {
        if buf[i] == LF && buf[i + 1] == LF {
            proof { lemma_seek_blank_is(buf@, from as int, i as int); }
            return Some(i);
        }
        i += 1;
    }
    proof { lemma_seek_blank_is(buf@, from as int, buf@.len() as int); }
    None
}

/// Copies `buf[from..to)` into a fresh vector.
fn copy_range(buf: &Vec<u8>, from: usize, to: usize) -> (r: Vec<u8>)
    requires
        from <= to <= buf.len(),
    ensures
        r@ == buf@.subrange(from as int, to as int),
{
    let mut out: Vec<u8> = Vec::new();
    let mut i: usize = from;
    while i < to
        invariant
            from <= i <= to <= buf.len(),
            out@ == buf@.subrange(from as int, i as int),
        decreases to - i,
    {
        out.push(buf[i]);
        assert(out@ =~= buf@.subrange(from as int, i + 1));
        i += 1;
    }
    out
}

/// Reads the header pairs from the lines of `buf[from..end)`, skipping
/// lines without a colon or with an empty name.
fn parse_headers(buf: &Vec<u8>, from: usize, end: usize) -> (r: Vec<(Vec<u8>, Vec<u8>)>)
    requires
        from <= end <= buf.len(),
    ensures
        headers_view(r@) == parse_headers_from(buf@, from as int, end as int),
{
    let ghost s = buf@;
    let mut acc: Vec<(Vec<u8>, Vec<u8>)> = Vec::new();
    let mut pos: usize = from;
    proof {
        assert(headers_view(acc@) =~= Seq::<(Seq<u8>, Seq<u8>)>::empty());
    }
    while pos < end
        invariant
            from <= pos <= end <= buf.len(),
            s == buf@,
            headers_view(acc@) + parse_headers_from(s, pos as int, end as int)
                == parse_headers_from(s, from as int, end as int),
        decreases end - pos,
    {
        let ghost acc0 = headers_view(acc@);
        let e = find_byte(buf, LF, pos);
        let stop: usize = match e {
            Some(i) => if i < end { i } else { end },
            None => end,
        };
        proof {
            lemma_seek(s, LF, pos as int);
            assert(stop as int == {
                let es = seek(s, LF, pos as int);
                if pos as int <= es && es < end as int { es } else { end as int }
            });
        }
        let ghost line = s.subrange(pos as int, stop as int);
        // Split the line at its first colon, skipping it when the colon is
        // missing or the name would be empty.
        let c = find_byte(buf, COLON, pos);
        match c {
            Some(cc) if cc < stop => {
                proof {
                    lemma_seek(s, COLON, pos as int);
                    assert forall|j: int| 0 <= j < cc - pos implies line[j] != COLON by {
                        assert(line[j] == s[pos + j]);
                    }
                    assert(line[cc - pos] == COLON);
                    lemma_seek_is(line, COLON, 0, cc - pos);
                }
                if cc > pos {
                    let name = copy_range(buf, pos, cc);
                    let value = copy_range(buf, cc + 1, stop);
                    proof {
                        assert(name@ =~= line.subrange(0, cc - pos));
                        assert(value@ =~= line.subrange(cc - pos + 1, line.len() as int));
                        assert(parse_line(line) == Some((name@, value@)));
                    }
                    acc.push((name, value));
                    proof {
                        assert(headers_view(acc@) =~= acc0 + seq![(name@, value@)]);
                    }
                } else {
                    proof {
                        assert(parse_line(line) is None);
                    }
                }
            },
            _ => {
                proof {
                    let cs = seek(s, COLON, pos as int);
                    lemma_seek(s, COLON, pos as int);
                    assert forall|j: int| 0 <= j < line.len() implies line[j] != COLON by {
                        assert(line[j] == s[pos + j]);
                    }
                    lemma_seek_is(line, COLON, 0, line.len() as int);
                    assert(parse_line(line) is None);
                }
            },
        }
        proof {
            // One unfolding of the specification covers the line just read.
            assert(parse_headers_from(s, pos as int, end as int) == {
                let rest = if (stop as int) < end as int {
                    parse_headers_from(s, stop as int + 1, end as int)
                } else {
                    Seq::empty()
                };
                match parse_line(line) {
                    Some(h) => seq![h] + rest,
                    None => rest,
                }
            });
            assert(headers_view(acc@) + (if (stop as int) < end as int {
                parse_headers_from(s, stop as int + 1, end as int)
            } else {
                Seq::empty()
            }) =~= parse_headers_from(s, from as int, end as int));
        }
        if stop < end {
            pos = stop + 1;
        } else {
            pos = end;
            proof {
                assert(parse_headers_from(s, pos as int, end as int) =~= Seq::<(Seq<u8>, Seq<u8>)>::empty());
            }
        }
    }
    proof {
        assert(parse_headers_from(s, pos as int, end as int) =~= Seq::<(Seq<u8>, Seq<u8>)>::empty());
        assert(headers_view(acc@) =~= parse_headers_from(s, from as int, end as int));
    }
    acc
}

/// The header name `content-length` as bytes.
fn content_length_bytes() -> (r: Vec<u8>)
    ensures
        r@ == content_length_name(),
{
    let mut v: Vec<u8> = Vec::new();
    v.push(99);
    v.push(111);
    v.push(110);
    v.push(116);
    v.push(101);
    v.push(110);
    v.push(116);
    v.push(45);
    v.push(108);
    v.push(101);
    v.push(110);
    v.push(103);
    v.push(116);
    v.push(104);
    assert(v@ =~= content_length_name());
    v
}

/// What a `content-length` value turned out to be.
enum ClValue {
    /// Not a non-negative decimal integer.
    Invalid,
    /// A value that fits the machine.
    Fits(usize),
    /// A well-formed value too large for any buffer on this machine.
    Huge,
}

/// Reads a `content-length` value: a non-empty string of decimal digits.
fn parse_cl(v: &Vec<u8>) -> (r: ClValue)
    ensures
        match r {
            ClValue::Invalid => content_length_value(v@) is None,
            ClValue::Fits(n) => content_length_value(v@) == Some(n as int),
            ClValue::Huge => content_length_value(v@) matches Some(m) && m > usize::MAX as int,
        },
{
    if v.len() == 0 {
        return ClValue::Invalid;
    }
    let mut acc: usize = 0;
    let mut i: usize = 0;
    proof {
        assert(v@.take(0) =~= Seq::<u8>::empty());
    }
    while i < v.len()
        invariant
            i <= v.len(),
            all_digits(v@.take(i as int)),
            acc as int == dec_num(v@.take(i as int)),
        decreases v.len() - i,
    {
        let d = v[i];
        if d < 48 || d > 57 {
            proof {
                assert(!is_digit(v@[i as int]));
                assert(!all_digits(v@));
            }
            return ClValue::Invalid;
        }
        proof {
            assert(v@.take(i + 1).drop_last() =~= v@.take(i as int));
            assert(v@.take(i + 1).last() == v@[i as int]);
            assert(forall|j: int| 0 <= j < i + 1 ==> is_digit(#[trigger] v@.take(i + 1)[j]));
        }
        let wide: u128 = acc as u128 * 10 + (d - 48) as u128;
        proof {
            assert(wide as int == dec_num(v@.take(i + 1)));
        }
        if wide > usize::MAX as u128 {
            // The declared length exceeds what any buffer here can hold;
            // the rest only has to be digits for the value to be valid.
            let mut j: usize = i + 1;
            while j < v.len()
                invariant
                    i + 1 <= j <= v.len(),
                    all_digits(v@.take(j as int)),
                decreases v.len() - j,
            {
                let d2 = v[j];
                if d2 < 48 || d2 > 57 {
                    proof {
                        assert(!is_digit(v@[j as int]));
                        assert(!all_digits(v@));
                    }
                    return ClValue::Invalid;
                }
                proof {
                    assert(forall|k: int| 0 <= k < j + 1 ==> is_digit(#[trigger] v@.take(j + 1)[k]));
                }
                j += 1;
            }
            proof {
                assert(v@.take(v.len() as int) =~= v@);
                lemma_dec_num_grows(v@, i + 1);
            }
            return ClValue::Huge;
        }
        acc = wide as usize;
        i += 1;
    }
    proof {
        assert(v@.take(v.len() as int) =~= v@);
    }
    ClValue::Fits(acc)
}

/// Examines the leading bytes of `buf` for one complete frame.
///
/// Either the buffer is still incomplete and nothing is consumed; or one
/// frame is returned together with the exact number of leading bytes it
/// occupied, terminator and optional trailing line feed included, so the
/// caller can drop precisely that prefix and try again on the rest; or the
/// bytes present already violate the wire format and the stream is beyond
/// recovery.
pub fn try_decode(buf: &Vec<u8>) -> (r: Result<Decoded, ProtocolError>)
    ensures
        match r {
            Ok(Decoded::Incomplete) => spec_decode(buf@) is Incomplete,
            Ok(Decoded::Finished { frame, consumed }) => 0 < consumed <= buf.len()
                && spec_decode(buf@) == (DecodeModel::Finished {
                    frame: frame@,
                    consumed: consumed as int,
                }),
            Err(e) => spec_decode(buf@) == DecodeModel::Malformed(e),
        },
{
    let ghost s = buf@;
    let ce = match find_byte(buf, LF, 0) {
        None => {
            return Ok(Decoded::Incomplete);
        },
        Some(i) => i,
    };
    let bl = match find_blank(buf, ce) {
        None => {
            return Ok(Decoded::Incomplete);
        },
        Some(i) => i,
    };
    proof {
        lemma_seek_blank(s, ce as int);
    }

    // The command: the first line, trailing whitespace removed.
    let mut chi: usize = ce;
    while chi > 0 && trailing_ws(buf[chi - 1])
        invariant
            chi <= ce < buf.len(),
            s == buf@,
            forall|k: int| chi <= k < ce ==> is_trailing_ws(#[trigger] s[k]),
        decreases chi,
    {
        chi -= 1;
    }
    let command = copy_range(buf, 0, chi);
    proof {
        let c0 = s.subrange(0, ce as int);
        assert forall|k: int| chi <= k < c0.len() implies is_trailing_ws(#[trigger] c0[k]) by {
            assert(c0[k] == s[k]);
        }
        lemma_trim_end_ws_tail(c0, chi as int);
        assert(c0.take(chi as int) =~= s.subrange(0, chi as int));
        assert(trim_end(s.subrange(0, ce as int)) == s.subrange(0, chi as int));
    }

    let headers = parse_headers(buf, ce + 1, bl + 1);
    let ghost hs = parse_headers_from(s, ce as int + 1, bl as int + 1);
    let body_start: usize = bl + 2;

    let clb = content_length_bytes();
    match first_header_value(&headers, &clb) {
        Some(v) => {
            match parse_cl(v) {
                ClValue::Invalid => Err(ProtocolError::InvalidContentLength),
                ClValue::Huge => {
                    // Longer than any buffer this machine can hold, so the
                    // terminator cannot be in reach yet.
                    Ok(Decoded::Incomplete)
                },
                ClValue::Fits(n) => {
                    let avail = buf.len() - body_start;
                    if avail <= n {
                        return Ok(Decoded::Incomplete);
                    }
                    if buf[body_start + n] != NUL {
                        return Err(ProtocolError::MissingTerminator);
                    }
                    let body = copy_range(buf, body_start, body_start + n);
                    let after = body_start + n + 1;
                    let consumed = if after < buf.len() && buf[after] == LF {
                        after + 1
                    } else {
                        after
                    };
                    Ok(Decoded::Finished {
                        frame: Frame { command, headers, body: Some(body) },
                        consumed,
                    })
                },
            }
        },
        None => {
            let t = match find_byte(buf, NUL, body_start) {
                None => {
                    return Ok(Decoded::Incomplete);
                },
                Some(i) => i,
            };
            let body = copy_range(buf, body_start, t);
            let after = t + 1;
            let consumed = if after < buf.len() && buf[after] == LF {
                after + 1
            } else {
                after
            };
            let body_opt = if body.len() == 0 {
                None
            } else {
                Some(body)
            };
            Ok(Decoded::Finished {
                frame: Frame { command, headers, body: body_opt },
                consumed,
            })
        },
    }
}

/// The mathematical image of a list of frames.
pub open spec fn frames_view(fs: Seq<Frame>) -> Seq<FrameModel> {
    fs.map_values(|f: Frame| f@)
}

/// The frames at the front of `s`, in order, and the bytes left after them:
/// what repeated decoding extracts before it first reports an incomplete
/// buffer or a malformed frame.
pub open spec fn spec_drain(s: Seq<u8>) -> (Seq<FrameModel>, Seq<u8>)
    decreases s.len(),
{
    match spec_decode(s) {
        DecodeModel::Finished { frame, consumed } => if 0 < consumed <= s.len() {
            let rest = spec_drain(s.skip(consumed));
            (seq![frame] + rest.0, rest.1)
        } else {
            (Seq::empty(), s)
        },
        _ => (Seq::empty(), s),
    }
}

/// Extracts every complete frame at the front of `pending`, in arrival
/// order, leaving only the bytes no complete frame accounts for.
///
/// On success the remainder is a (possibly empty) frame still being
/// received; an incomplete buffer simply yields no frames and is left
/// untouched. A malformed prefix is fatal: the error is returned and the
/// buffer keeps the bytes from the bad frame on, since the stream cannot be
/// resynchronized.
pub fn drain_frames(pending: &mut Vec<u8>) -> (r: Result<Vec<Frame>, ProtocolError>)
    ensures
        final(pending)@ == spec_drain(old(pending)@).1,
        match r {
            Ok(frames) => frames_view(frames@) == spec_drain(old(pending)@).0
                && spec_decode(final(pending)@) is Incomplete,
            Err(e) => spec_decode(final(pending)@) == DecodeModel::Malformed(e),
        },
{
    let mut out: Vec<Frame> = Vec::new();
    proof {
        assert(frames_view(out@) =~= Seq::<FrameModel>::empty());
    }
    loop
        invariant
            frames_view(out@) + spec_drain(pending@).0 == spec_drain(old(pending)@).0,
            spec_drain(pending@).1 == spec_drain(old(pending)@).1,
        decreases pending@.len(),
    {
        let ghost before = pending@;
        let ghost outv = frames_view(out@);
        match try_decode(pending) {
            Ok(Decoded::Incomplete) => {
                return Ok(out);
            },
            Ok(Decoded::Finished { frame, consumed }) => {
                let rest = copy_range(pending, consumed, pending.len());
                *pending = rest;
                out.push(frame);
                proof {
                    assert(pending@ =~= before.skip(consumed as int));
                    assert(spec_drain(before).0 =~= seq![frame@] + spec_drain(pending@).0);
                    assert(frames_view(out@) =~= outv + seq![frame@]);
                    assert(frames_view(out@) + spec_drain(pending@).0
                        =~= outv + spec_drain(before).0);
                }
            },
            Err(e) => {
                return Err(e);
            },
        }
    }
}

/// Recognizes the whitespace bytes trimmed from the end of a command line.
fn trailing_ws(b: u8) -> (r: bool)
    ensures
        r == is_trailing_ws(b),
{
    b == 32 || b == 9 || b == 13
}

} // verus!
