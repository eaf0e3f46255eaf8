//! The guarantees that tie the encoder and the decoder together: a
//! well-formed frame's wire form decodes back to the same frame; no strict
//! prefix of it decodes to anything; and a run of concatenated frames
//! drains to exactly those frames, in order.

use vstd::prelude::*;
use crate::scan::{LF, NUL, COLON, lacks, seek, seek_blank, trim_end,
    lemma_seek, lemma_seek_is, lemma_seek_take,
    lemma_seek_blank_is, lemma_seek_blank_take};
use crate::frame::{FrameModel, header_line, header_block, body_bytes,
    encode_model, first_value_ci, wf_header, wf_frame};
use crate::decode::{DecodeModel, parse_line, parse_headers_from, spec_decode, spec_drain};

verus! {

/// Where each part of a frame's wire form lies: the command, its line
/// feed, the header block, the blank line's feed, the body, the NUL.
proof fn lemma_encode_layout(m: FrameModel)
    ensures
        encode_model(m).len() == m.command.len() + header_block(m.headers).len()
            + body_bytes(m.body).len() + 3,
        encode_model(m).subrange(0, m.command.len() as int) == m.command,
        encode_model(m)[m.command.len() as int] == LF,
        encode_model(m).subrange(m.command.len() as int + 1,
            m.command.len() as int + 1 + header_block(m.headers).len())
            == header_block(m.headers),
        encode_model(m)[m.command.len() as int + 1 + header_block(m.headers).len()] == LF,
        encode_model(m).subrange(m.command.len() as int + 2 + header_block(m.headers).len(),
            m.command.len() as int + 2 + header_block(m.headers).len()
                + body_bytes(m.body).len()) == body_bytes(m.body),
        encode_model(m)[m.command.len() as int + 2 + header_block(m.headers).len()
            + body_bytes(m.body).len()] == NUL,
{
    let s = encode_model(m);
    let c = m.command;
    let hb = header_block(m.headers);
    let bb = body_bytes(m.body);
    assert(s == c + seq![LF] + hb + seq![LF] + bb + seq![NUL]);
    assert(s.subrange(0, c.len() as int) =~= c);
    assert(s.subrange(c.len() as int + 1, c.len() as int + 1 + hb.len()) =~= hb);
    assert(s.subrange(c.len() as int + 2 + hb.len(),
        c.len() as int + 2 + hb.len() + bb.len()) =~= bb);
}

/// The shape of an encoded header block: it never starts with a line feed,
/// always ends with one, and never holds two in a row.
proof fn lemma_header_block_shape(hs: Seq<(Seq<u8>, Seq<u8>)>)
    requires
        forall|i: int| 0 <= i < hs.len() ==> wf_header(#[trigger] hs[i]),
    ensures
        hs.len() == 0 <==> header_block(hs).len() == 0,
        hs.len() > 0 ==> header_block(hs)[0] != LF,
        hs.len() > 0 ==> header_block(hs).last() == LF,
        forall|k: int| 0 <= k < header_block(hs).len() - 1
            ==> !(#[trigger] header_block(hs)[k] == LF && header_block(hs)[k + 1] == LF),
    decreases hs.len(),
{
    if hs.len() > 0 {
        let h = hs[0];
        let n = h.0;
        let v = h.1;
        let line = header_line(h);
        let ll = line.len();
        assert(ll == n.len() + v.len() + 2);
        let rest = hs.skip(1);
        let hb2 = header_block(rest);
        let hb = header_block(hs);
        assert(hb == line + hb2);
        assert(wf_header(h));

        assert forall|k: int| 0 <= k < ll - 1 implies #[trigger] line[k] != LF by {
            if k < n.len() {
                assert(line[k] == n[k]);
            } else if k == n.len() {
                assert(line[k] == COLON);
            } else {
                assert(line[k] == v[k - n.len() - 1]);
            }
        }
        assert(line[ll - 1] == LF);
        assert(line[0] == n[0]);

        assert forall|i: int| 0 <= i < rest.len() implies wf_header(#[trigger] rest[i]) by {
            assert(rest[i] == hs[i + 1]);
        }
        lemma_header_block_shape(rest);

        assert(hb[0] == line[0]);
        if rest.len() > 0 {
            assert(hb.last() == hb2.last());
        } else {
            assert(hb.last() == line.last());
        }
        assert forall|k: int| 0 <= k < hb.len() - 1 implies
            !(#[trigger] hb[k] == LF && hb[k + 1] == LF) by {
            if k + 1 < ll {
                assert(hb[k] == line[k]);
            } else if k == ll - 1 {
                assert(hb[k + 1] == hb2[0]);
            } else {
                assert(hb[k] == hb2[k - ll]);
                assert(hb[k + 1] == hb2[k - ll + 1]);
            }
        }
    }
}

/// An encoded header block placed at `i0` inside `s` parses back to
/// exactly the headers it came from.
proof fn lemma_parse_headers_encode(s: Seq<u8>, hs: Seq<(Seq<u8>, Seq<u8>)>, i0: int)
    requires
        forall|i: int| 0 <= i < hs.len() ==> wf_header(#[trigger] hs[i]),
        0 <= i0,
        i0 + header_block(hs).len() <= s.len(),
        s.subrange(i0, i0 + header_block(hs).len()) == header_block(hs),
    ensures
        parse_headers_from(s, i0, i0 + header_block(hs).len()) == hs,
    decreases hs.len(),
{
    let hb = header_block(hs);
    let end = i0 + hb.len();
    if hs.len() == 0 {
        assert(hs =~= Seq::<(Seq<u8>, Seq<u8>)>::empty());
    } else {
        let h = hs[0];
        let n = h.0;
        let v = h.1;
        let line = header_line(h);
        let ll = line.len();
        let rest = hs.skip(1);
        let hb2 = header_block(rest);
        assert(hb == line + hb2);
        assert(wf_header(h));
        assert(ll == n.len() + v.len() + 2);

        // Bytes of the first line, as they sit inside `s`.
        assert forall|j: int| 0 <= j < ll implies s[i0 + j] == #[trigger] line[j] by {
            assert(s[i0 + j] == s.subrange(i0, end)[j]);
            assert(hb[j] == line[j]);
        }

        // The first line feed after `i0` closes the first line.
        assert forall|j: int| i0 <= j < i0 + ll - 1 implies s[j] != LF by {
            let k = j - i0;
            assert(s[j] == line[k]);
            if k < n.len() {
                assert(line[k] == n[k]);
            } else if k == n.len() {
                assert(line[k] == COLON);
            } else {
                assert(line[k] == v[k - n.len() - 1]);
            }
        }
        assert(s[i0 + ll - 1] == line[ll - 1]);
        lemma_seek_is(s, LF, i0, i0 + ll - 1);
        let stop = i0 + ll - 1;
        assert(stop < end);

        // That line splits at its first colon into the original pair.
        let lw = s.subrange(i0, stop);
        assert forall|j: int| 0 <= j < n.len() implies lw[j] != COLON by {
            assert(lw[j] == line[j]);
            assert(line[j] == n[j]);
        }
        assert(lw[n.len() as int] == line[n.len() as int]);
        lemma_seek_is(lw, COLON, 0, n.len() as int);
        assert(lw.subrange(0, n.len() as int) =~= n);
        assert(lw.subrange(n.len() as int + 1, lw.len() as int) =~= v);
        assert(parse_line(lw) == Some((n, v)));

        // The rest of the block parses by induction.
        assert forall|i: int| 0 <= i < rest.len() implies wf_header(#[trigger] rest[i]) by {
            assert(rest[i] == hs[i + 1]);
        }
        assert forall|j: int| 0 <= j < hb2.len() implies s[stop + 1 + j] == #[trigger] hb2[j] by {
            assert(s[i0 + ll + j] == s.subrange(i0, end)[ll + j]);
            assert(hb[ll + j] == hb2[j]);
        }
        assert(s.subrange(stop + 1, stop + 1 + hb2.len()) =~= hb2);
        lemma_parse_headers_encode(s, rest, stop + 1);

        assert(parse_headers_from(s, i0, end) == seq![(n, v)] + rest);
        assert(seq![(n, v)] + rest =~= hs);
    }
}

/// Parsing headers below `end` sees nothing of the bytes from `n` on, so
/// truncating there changes nothing.
proof fn lemma_parse_headers_take(s: Seq<u8>, from: int, end: int, n: int)
    requires
        0 <= from,
        end <= n <= s.len(),
    ensures
        parse_headers_from(s.take(n), from, end) == parse_headers_from(s, from, end),
    decreases end - from,
{
    if from < end {
        lemma_seek(s, LF, from);
        lemma_seek_take(s, LF, from, n);
        let e = seek(s, LF, from);
        let ep = seek(s.take(n), LF, from);
        let stop = if from <= e && e < end { e } else { end };
        let stopp = if from <= ep && ep < end { ep } else { end };
        assert(stop == stopp);
        assert(s.take(n).subrange(from, stop) =~= s.subrange(from, stop));
        if stop < end {
            lemma_parse_headers_take(s, stop + 1, end, n);
        }
    }
}

/// Decoding a buffer that starts with the wire form of a well-formed frame
/// yields exactly that frame and consumes exactly its bytes, whatever
/// follows — provided the next byte, if any, is not a line feed, which the
/// decoder would fold into the frame as its optional trailing line break.
/// How the decoder's scans land on a buffer that starts with a
/// well-formed frame's wire form: the line feeds, headers, body bytes and
/// terminator are all found exactly where the encoder put them.
#[verifier::rlimit(60)]
proof fn lemma_encode_scan(m: FrameModel, t: Seq<u8>)
    requires
        wf_frame(m),
    ensures
        (encode_model(m) + t).len() == encode_model(m).len() + t.len(),
        encode_model(m).len() == m.command.len() + header_block(m.headers).len()
            + body_bytes(m.body).len() + 3,
        seek(encode_model(m) + t, LF, 0) == m.command.len() as int,
        seek_blank(encode_model(m) + t, m.command.len() as int)
            == m.command.len() + header_block(m.headers).len(),
        trim_end((encode_model(m) + t).subrange(0, m.command.len() as int)) == m.command,
        parse_headers_from(encode_model(m) + t, m.command.len() as int + 1,
            m.command.len() as int + header_block(m.headers).len() + 1) == m.headers,
        (encode_model(m) + t).subrange(
            m.command.len() as int + header_block(m.headers).len() + 2,
            m.command.len() as int + header_block(m.headers).len() + 2
                + body_bytes(m.body).len()) == body_bytes(m.body),
        (encode_model(m) + t)[m.command.len() as int + header_block(m.headers).len() + 2
            + body_bytes(m.body).len()] == NUL,
        lacks(body_bytes(m.body), NUL) ==> seek(encode_model(m) + t, NUL,
            m.command.len() as int + header_block(m.headers).len() + 2)
            == m.command.len() + header_block(m.headers).len() + 2 + body_bytes(m.body).len(),
        encode_model(m).len() < (encode_model(m) + t).len()
            ==> (encode_model(m) + t)[encode_model(m).len() as int] == t[0],
{
    let s = encode_model(m);
    let u = s + t;
    let c = m.command;
    let hs = m.headers;
    let hb = header_block(hs);
    let bb = body_bytes(m.body);
    lemma_encode_layout(m);
    lemma_header_block_shape(hs);
    let l0 = c.len() as int;
    let bl = l0 + 1 + hb.len() - 1;
    let bs = bl + 2;
    let sl = s.len() as int;
    assert(sl == bs + bb.len() + 1);

    assert forall|i: int| 0 <= i < sl implies #[trigger] u[i] == s[i] by {}

    // The first line feed closes the command line.
    assert forall|j: int| 0 <= j < l0 implies u[j] != LF by {
        assert(u[j] == s[j]);
        assert(s[j] == s.subrange(0, l0)[j]);
    }
    assert(u[l0] == s[l0]);
    lemma_seek_is(u, LF, 0, l0);

    // The first blank line closes the header block.
    assert forall|i: int| l0 <= i < bl && i + 1 < u.len() implies
        !(#[trigger] u[i] == LF && u[i + 1] == LF) by {
        assert(u[i] == s[i] && u[i + 1] == s[i + 1]);
        if i == l0 {
            assert(s[i + 1] == s.subrange(l0 + 1, l0 + 1 + hb.len())[0]);
        } else {
            let k = i - l0 - 1;
            assert(s[i] == s.subrange(l0 + 1, l0 + 1 + hb.len())[k]);
            assert(s[i + 1] == s.subrange(l0 + 1, l0 + 1 + hb.len())[k + 1]);
        }
    }
    if hb.len() > 0 {
        assert(s[bl] == s.subrange(l0 + 1, l0 + 1 + hb.len())[hb.len() - 1]);
        assert(s[bl] == hb.last());
    }
    assert(u[bl] == s[bl] && u[bl + 1] == s[bl + 1]);
    lemma_seek_blank_is(u, l0, bl);

    // The command comes back as given: nothing to trim.
    assert(u.subrange(0, l0) =~= c);
    assert(trim_end(c) == c);

    // The header block parses back to the given headers.
    assert forall|j: int| 0 <= j < hb.len() implies u[l0 + 1 + j] == #[trigger] hb[j] by {
        assert(u[l0 + 1 + j] == s[l0 + 1 + j]);
        assert(s[l0 + 1 + j] == s.subrange(l0 + 1, l0 + 1 + hb.len())[j]);
    }
    assert(u.subrange(l0 + 1, l0 + 1 + hb.len()) =~= hb);
    lemma_parse_headers_encode(u, hs, l0 + 1);
    assert(parse_headers_from(u, l0 + 1, bl + 1) == hs);

    // The body sits between the blank line and the terminator.
    assert forall|j: int| 0 <= j < bb.len() implies u[bs + j] == #[trigger] bb[j] by {
        assert(u[bs + j] == s[bs + j]);
        assert(s[bs + j] == s.subrange(bs, bs + bb.len())[j]);
    }
    assert(u[bs + bb.len()] == s[bs + bb.len()]);
    assert(u[bs + bb.len()] == NUL);

    assert(u.subrange(bs, bs + bb.len()) =~= bb);
    if lacks(bb, NUL) {
        assert forall|j: int| bs <= j < bs + bb.len() implies u[j] != NUL by {
            assert(u[j] == bb[j - bs]);
        }
        lemma_seek_is(u, NUL, bs, bs + bb.len());
    }
    if sl < u.len() {
        assert(u[sl] == t[sl - s.len()]);
    }
}

/// Decoding a buffer that starts with the wire form of a well-formed frame
/// yields exactly that frame and consumes exactly its bytes, whatever
/// follows — provided the next byte, if any, is not a line feed, which the
/// decoder would fold into the frame as its optional trailing line break.
pub proof fn lemma_decode_extension(m: FrameModel, t: Seq<u8>)
    requires
        wf_frame(m),
        t.len() > 0 ==> t[0] != LF,
    ensures
        spec_decode(encode_model(m) + t) == (DecodeModel::Finished {
            frame: m,
            consumed: encode_model(m).len() as int,
        }),
{
    let s = encode_model(m);
    let u = s + t;
    let c = m.command;
    let hs = m.headers;
    let hb = header_block(hs);
    let bb = body_bytes(m.body);
    lemma_encode_scan(m, t);
    let l0 = c.len() as int;
    let bl = l0 + hb.len();
    let bs = bl + 2;
    let sl = s.len() as int;
    assert(sl == bs + bb.len() + 1);

    match first_value_ci(hs, crate::scan::content_length_name()) {
        Some(v) => {
            // The declared length governs: the body is exactly that long,
            // whatever bytes it holds.
            let n = bb.len() as int;
            assert(u.len() >= bs + n + 1);
            assert(u[bs + n] == NUL);
            assert(m.body == Some(bb));
        },
        None => {
            match m.body {
                None => {
                    assert(bb.len() == 0);
                    assert(lacks(bb, NUL));
                    assert(seek(u, NUL, bs) == bs);
                    assert(u.subrange(bs, bs).len() == 0);
                },
                Some(bbs) => {
                    assert(bb == bbs);
                    assert(lacks(bb, NUL));
                    assert(seek(u, NUL, bs) == bs + bb.len());
                    assert(bb.len() > 0);
                },
            }
        },
    }
}

/// Round trip: the wire form of any well-formed frame decodes back to a
/// frame with the same command, the same header pairs in the same order,
/// and the same body bytes, consuming the whole of it.
pub proof fn lemma_round_trip(m: FrameModel)
    requires
        wf_frame(m),
    ensures
        spec_decode(encode_model(m)) == (DecodeModel::Finished {
            frame: m,
            consumed: encode_model(m).len() as int,
        }),
{
    lemma_decode_extension(m, Seq::empty());
    assert(encode_model(m) + Seq::<u8>::empty() =~= encode_model(m));
}

/// Incremental resumption: no strict prefix of a well-formed frame's wire
/// form decodes to anything — the decoder reports an incomplete buffer,
/// never a premature frame and never an error, however the bytes arrive.
pub proof fn lemma_prefix_incomplete(m: FrameModel, i: int)
    requires
        wf_frame(m),
        0 <= i < encode_model(m).len(),
    ensures
        spec_decode(encode_model(m).take(i)) is Incomplete,
{
    let s = encode_model(m);
    let p = s.take(i);
    let c = m.command;
    let hs = m.headers;
    let hb = header_block(hs);
    let bb = body_bytes(m.body);
    lemma_encode_layout(m);
    lemma_header_block_shape(hs);
    let l0 = c.len() as int;
    let bl = l0 + hb.len();
    let bs = bl + 2;
    let sl = s.len() as int;

    if i <= l0 {
        // Not even the command line is closed yet.
        assert forall|j: int| 0 <= j < i implies p[j] != LF by {
            assert(p[j] == s[j]);
            assert(s[j] == s.subrange(0, l0)[j]);
        }
        lemma_seek_is(p, LF, 0, i);
    } else {
        lemma_seek(s, LF, 0);
        assert forall|j: int| 0 <= j < l0 implies s[j] != LF by {
            assert(s[j] == s.subrange(0, l0)[j]);
        }
        lemma_seek_is(s, LF, 0, l0);
        lemma_seek_take(s, LF, 0, i);
        assert(seek(p, LF, 0) == l0);

        // Where the blank line falls in the full form.
        assert forall|k: int| l0 <= k < bl && k + 1 < sl implies
            !(#[trigger] s[k] == LF && s[k + 1] == LF) by {
            if k == l0 {
                assert(s[k + 1] == s.subrange(l0 + 1, l0 + 1 + hb.len())[0]);
            } else {
                let q = k - l0 - 1;
                assert(s[k] == s.subrange(l0 + 1, l0 + 1 + hb.len())[q]);
                assert(s[k + 1] == s.subrange(l0 + 1, l0 + 1 + hb.len())[q + 1]);
            }
        }
        if hb.len() > 0 {
            assert(s[bl] == s.subrange(l0 + 1, l0 + 1 + hb.len())[hb.len() - 1]);
            assert(s[bl] == hb.last());
        }
        lemma_seek_blank_is(s, l0, bl);
        lemma_seek_blank_take(s, l0, i);

        if i <= bl + 1 {
            // The header block is not closed yet.
            assert(seek_blank(p, l0) == i);
        } else {
            assert(seek_blank(p, l0) == bl);

            // Command and headers read the same as from the full form.
            assert(p.subrange(0, l0) =~= s.subrange(0, l0));
            lemma_parse_headers_encode(s, hs, l0 + 1);
            lemma_parse_headers_take(s, l0 + 1, bl + 1, i);
            assert(parse_headers_from(p, l0 + 1, bl + 1) == hs);

            match first_value_ci(hs, crate::scan::content_length_name()) {
                Some(v) => {
                    // Fewer bytes than the declared body and its terminator.
                    let n = bb.len() as int;
                    assert(sl == bs + n + 1);
                    assert(p.len() < bs + n + 1);
                },
                None => {
                    // The terminator is the last byte of the form, and it
                    // is not here yet.
                    assert forall|j: int| bs <= j < i implies p[j] != NUL by {
                        assert(p[j] == s[j]);
                        assert(s[j] == s.subrange(bs, bs + bb.len())[j - bs]);
                    }
                    lemma_seek_is(p, NUL, bs, i);
                },
            }
        }
    }
}

/// The wire forms of a run of frames, one after another.
pub open spec fn cat_frames(ms: Seq<FrameModel>) -> Seq<u8>
    decreases ms.len(),
{
    if ms.len() == 0 {
        Seq::empty()
    } else {
        encode_model(ms[0]) + cat_frames(ms.skip(1))
    }
}

/// Multi-frame batching: a buffer holding the concatenated wire forms of
/// any run of well-formed frames drains to exactly those frames, in their
/// original order, and leaves the buffer empty.
pub proof fn lemma_multi_frame(ms: Seq<FrameModel>)
    requires
        forall|i: int| 0 <= i < ms.len() ==> wf_frame(#[trigger] ms[i]),
    ensures
        spec_drain(cat_frames(ms)).0 == ms,
        spec_drain(cat_frames(ms)).1 == Seq::<u8>::empty(),
    decreases ms.len(),
{
    let u = cat_frames(ms);
    if ms.len() == 0 {
        assert(u.len() == 0);
        assert(seek(u, LF, 0) == 0);
        assert(spec_decode(u) is Incomplete);
        assert(spec_drain(u).0 =~= ms);
        assert(spec_drain(u).1 =~= Seq::<u8>::empty());
    } else {
        let m = ms[0];
        let s = encode_model(m);
        let rest = cat_frames(ms.skip(1));
        assert(u == s + rest);

        // The next frame, if any, starts with its command's first byte,
        // which a well-formed command keeps clear of line feeds.
        if rest.len() > 0 {
            assert(ms.skip(1).len() > 0);
            let m1 = ms.skip(1)[0];
            assert(m1 == ms[1]);
            assert(wf_frame(m1));
            let s1 = encode_model(m1);
            assert(s1.len() > 0);
            assert(rest[0] == s1[0]);
            lemma_encode_layout(m1);
            assert(s1[0] == s1.subrange(0, m1.command.len() as int)[0]);
            assert(s1[0] == m1.command[0]);
            assert(rest[0] != LF);
        }
        lemma_decode_extension(m, rest);
        lemma_encode_layout(m);
        assert(s.len() > 0);

        assert forall|i: int| 0 <= i < ms.skip(1).len() implies wf_frame(#[trigger] ms.skip(1)[i]) by {
            assert(ms.skip(1)[i] == ms[i + 1]);
        }
        lemma_multi_frame(ms.skip(1));

        assert(u.skip(s.len() as int) =~= rest);
        assert(spec_drain(u).0 == seq![m] + spec_drain(rest).0);
        assert(spec_drain(u).1 == spec_drain(rest).1);
        assert(seq![m] + ms.skip(1) =~= ms);
    }
}


} // verus!
