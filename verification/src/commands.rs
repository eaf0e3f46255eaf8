//! The outbound frames this client sends: the connect handshake and the
//! topic subscription. The protocol's fixed header values are passed in by
//! the caller rather than hidden here, so a different acknowledgement mode
//! or heart-beat policy needs no change to the frame logic.

use vstd::prelude::*;
use crate::scan::dec_repr;
use crate::frame::{create, spec_encode, headers_view};

verus! {

/// The bytes of the `CONNECT` command.
pub open spec fn connect_command() -> Seq<u8> {
    seq![67u8, 79u8, 78u8, 78u8, 69u8, 67u8, 84u8]
}

/// The bytes of the `SUBSCRIBE` command.
pub open spec fn subscribe_command() -> Seq<u8> {
    seq![83u8, 85u8, 66u8, 83u8, 67u8, 82u8, 73u8, 66u8, 69u8]
}

/// The bytes of the `accept-version` header name.
pub open spec fn accept_version_name() -> Seq<u8> {
    seq![97u8, 99u8, 99u8, 101u8, 112u8, 116u8, 45u8, 118u8, 101u8, 114u8, 115u8, 105u8, 111u8, 110u8]
}

/// The bytes of the `host` header name.
pub open spec fn host_name() -> Seq<u8> {
    seq![104u8, 111u8, 115u8, 116u8]
}

/// The bytes of the `heart-beat` header name.
pub open spec fn heart_beat_name() -> Seq<u8> {
    seq![104u8, 101u8, 97u8, 114u8, 116u8, 45u8, 98u8, 101u8, 97u8, 116u8]
}

/// The bytes of the `login` header name.
pub open spec fn login_name() -> Seq<u8> {
    seq![108u8, 111u8, 103u8, 105u8, 110u8]
}

/// The bytes of the `passcode` header name.
pub open spec fn passcode_name() -> Seq<u8> {
    seq![112u8, 97u8, 115u8, 115u8, 99u8, 111u8, 100u8, 101u8]
}

/// The bytes of the `id` header name.
pub open spec fn id_name() -> Seq<u8> {
    seq![105u8, 100u8]
}

/// The bytes of the `destination` header name.
pub open spec fn destination_name() -> Seq<u8> {
    seq![100u8, 101u8, 115u8, 116u8, 105u8, 110u8, 97u8, 116u8, 105u8, 111u8, 110u8]
}

/// The bytes of the `ack` header name.
pub open spec fn ack_name() -> Seq<u8> {
    seq![97u8, 99u8, 107u8]
}

/// Writes `n` in decimal, most significant digit first.
pub fn u32_decimal(n: u32) -> (r: Vec<u8>)
    ensures
        r@ == dec_repr(n as nat),
{
    let mut acc: Vec<u8> = Vec::new();
    let mut m: u32 = n;
    proof {
        assert(dec_repr(n as nat) + Seq::<u8>::empty() =~= dec_repr(n as nat));
    }
    while m >= 10
        invariant
            dec_repr(n as nat) == dec_repr(m as nat) + acc@,
        decreases m,
    {
        let ghost acc0 = acc@;
        let d: u8 = (m % 10) as u8;
        acc.insert(0, 48 + d);
        proof {
            assert(dec_repr(m as nat) == dec_repr((m as nat) / 10) + seq![(48 + (m as nat) % 10) as u8]);
            assert(acc@ =~= seq![(48 + d) as u8] + acc0);
            assert(dec_repr((m as nat) / 10) + seq![(48 + (m as nat) % 10) as u8] + acc0
                =~= dec_repr((m as nat) / 10) + acc@);
            assert((m / 10) as nat == (m as nat) / 10);
        }
        m = m / 10;
    }
    let ghost accn = acc@;
    acc.insert(0, 48 + m as u8);
    proof {
        assert(dec_repr(m as nat) == seq![(48 + m as nat) as u8]);
        assert(acc@ =~= seq![(48 + m as nat) as u8] + accn);
        assert(dec_repr(m as nat) + accn =~= acc@);
    }
    acc
}

/// Builds the authentication frame: a `CONNECT` with the protocol version
/// the caller accepts, the server's host label, the caller's heart-beat
/// declaration, and the credentials, in that order, with no body.
pub fn connect_frame(
    host: &Vec<u8>,
    username: &Vec<u8>,
    password: &Vec<u8>,
    accept_version: &Vec<u8>,
    heart_beat: &Vec<u8>,
) -> (r: Vec<u8>)
    ensures
        r@ == spec_encode(connect_command(), seq![
            (accept_version_name(), accept_version@),
            (host_name(), host@),
            (heart_beat_name(), heart_beat@),
            (login_name(), username@),
            (passcode_name(), password@),
        ], None),
{
    let command: Vec<u8> = vec![67, 79, 78, 78, 69, 67, 84];
    assert(command@ =~= connect_command());
    let av_name: Vec<u8> = vec![97, 99, 99, 101, 112, 116, 45, 118, 101, 114, 115, 105, 111, 110];
    assert(av_name@ =~= accept_version_name());
    let h_name: Vec<u8> = vec![104, 111, 115, 116];
    assert(h_name@ =~= host_name());
    let hb_name: Vec<u8> = vec![104, 101, 97, 114, 116, 45, 98, 101, 97, 116];
    assert(hb_name@ =~= heart_beat_name());
    let l_name: Vec<u8> = vec![108, 111, 103, 105, 110];
    assert(l_name@ =~= login_name());
    let p_name: Vec<u8> = vec![112, 97, 115, 115, 99, 111, 100, 101];
    assert(p_name@ =~= passcode_name());

    let mut headers: Vec<(Vec<u8>, Vec<u8>)> = Vec::new();
    headers.push((av_name, clone_bytes(accept_version)));
    headers.push((h_name, clone_bytes(host)));
    headers.push((hb_name, clone_bytes(heart_beat)));
    headers.push((l_name, clone_bytes(username)));
    headers.push((p_name, clone_bytes(password)));
    assert(headers_view(headers@) =~= seq![
        (accept_version_name(), accept_version@),
        (host_name(), host@),
        (heart_beat_name(), heart_beat@),
        (login_name(), username@),
        (passcode_name(), password@),
    ]);

    create(&command, &headers, &None)
}

/// Builds the subscription frame: a `SUBSCRIBE` with the numeric
/// subscription identifier written in decimal, the destination topic, and
/// the caller's acknowledgement mode, in that order, with no body.
pub fn subscribe_frame(identifier: u32, destination: &Vec<u8>, ack: &Vec<u8>) -> (r: Vec<u8>)
    ensures
        r@ == spec_encode(subscribe_command(), seq![
            (id_name(), dec_repr(identifier as nat)),
            (destination_name(), destination@),
            (ack_name(), ack@),
        ], None),
{
    let command: Vec<u8> = vec![83, 85, 66, 83, 67, 82, 73, 66, 69];
    assert(command@ =~= subscribe_command());
    let i_name: Vec<u8> = vec![105, 100];
    assert(i_name@ =~= id_name());
    let d_name: Vec<u8> = vec![100, 101, 115, 116, 105, 110, 97, 116, 105, 111, 110];
    assert(d_name@ =~= destination_name());
    let a_name: Vec<u8> = vec![97, 99, 107];
    assert(a_name@ =~= ack_name());

    let mut headers: Vec<(Vec<u8>, Vec<u8>)> = Vec::new();
    headers.push((i_name, u32_decimal(identifier)));
    headers.push((d_name, clone_bytes(destination)));
    headers.push((a_name, clone_bytes(ack)));
    assert(headers_view(headers@) =~= seq![
        (id_name(), dec_repr(identifier as nat)),
        (destination_name(), destination@),
        (ack_name(), ack@),
    ]);

    create(&command, &headers, &None)
}

/// Copies a byte vector.
fn clone_bytes(v: &Vec<u8>) -> (r: Vec<u8>)
    ensures
        r@ == v@,
{
    let mut out: Vec<u8> = Vec::new();
    let mut i: usize = 0;
    while i < v.len()
        invariant
            i <= v.len(),
            out@ == v@.take(i as int),
        decreases v.len() - i,
    {
        out.push(v[i]);
        assert(out@ =~= v@.take(i + 1));
        i += 1;
    }
    assert(v@.take(v.len() as int) =~= v@);
    out
}

} // verus!
