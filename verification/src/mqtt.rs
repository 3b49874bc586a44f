use vstd::prelude::*;
use vstd::utf8::*;
use vstd::string::*;

verus! {

/// Errors reported by the MQTT client.
#[derive(Debug, Clone, Copy, PartialEq, Eq, Structural)]
pub enum MqttError {
    ConnectionFailed,
    ProtocolError,
    IoError,
    Timeout,
}

/// `128^k`, the weight of the `k`-th byte of a remaining-length field.
pub open spec fn pow128(k: nat) -> nat
    decreases k,
{
    if k == 0 {
        1
    } else {
        128 * pow128((k - 1) as nat)
    }
}

/// The MQTT "remaining length" encoding of `n`: seven bits per byte, least
/// significant group first, the high bit set on every byte but the last.
pub open spec fn varlen_bytes(n: nat) -> Seq<u8>
    decreases n,
{
    if n < 128 {
        seq![n as u8]
    } else {
        seq![((n % 128) + 128) as u8] + varlen_bytes(n / 128)
    }
}

/// Decoding of a remaining-length field at the front of `s` that may use at
/// most `budget` bytes: `Some((value, bytes_used))`, or `None` when `s` ends
/// before the last byte or the field would need more than `budget` bytes.
pub open spec fn varlen_decode(s: Seq<u8>, budget: nat) -> Option<(nat, nat)>
    decreases s.len(),
{
    if s.len() == 0 {
        None
    } else if s[0] < 128 {
        Some((s[0] as nat, 1))
    } else if budget <= 1 {
        None
    } else {
        match varlen_decode(s.drop_first(), (budget - 1) as nat) {
            Some((v, c)) => Some((((s[0] - 128) + 128 * v) as nat, c + 1)),
            None => None,
        }
    }
}

/// The largest remaining length MQTT can express (four bytes).
pub open spec fn max_remaining_length() -> nat {
    268_435_455
}

/// How long a remaining-length encoding is, and where its continuation bits
/// are set.
pub proof fn lemma_varlen_bytes_len(n: nat)
    ensures
        1 <= varlen_bytes(n).len(),
        n < 128 ==> varlen_bytes(n).len() == 1,
        128 <= n < 16384 ==> varlen_bytes(n).len() == 2,
        16384 <= n < 2_097_152 ==> varlen_bytes(n).len() == 3,
        2_097_152 <= n <= max_remaining_length() ==> varlen_bytes(n).len() == 4,
        varlen_bytes(n).last() < 128,
        forall|i: int| 0 <= i < varlen_bytes(n).len() - 1 ==> varlen_bytes(n)[i] >= 128,
    decreases n,
{
    if n >= 128 {
        lemma_varlen_bytes_len(n / 128);
    }
}

/// Encoding then decoding a remaining length gives the length back, whatever
/// follows the field.
pub proof fn lemma_varlen_roundtrip(n: nat, rest: Seq<u8>, budget: nat)
    requires
        n < pow128(budget),
    ensures
        varlen_decode(varlen_bytes(n) + rest, budget) == Some((n, varlen_bytes(n).len())),
    decreases n,
{
    let s = varlen_bytes(n) + rest;
    if n < 128 {
        assert(s[0] == n as u8);
    } else {
        assert(budget >= 2) by {
            if budget == 0 {
            } else if budget == 1 {
                assert(pow128(1) == 128) by {
                    reveal_with_fuel(pow128, 2);
                }
            }
        }
        assert(n / 128 < pow128((budget - 1) as nat)) by (nonlinear_arith)
            requires
                n < pow128(budget),
                pow128(budget) == 128 * pow128((budget - 1) as nat),
        ;
        lemma_varlen_roundtrip(n / 128, rest, (budget - 1) as nat);
        assert(s.drop_first() =~= varlen_bytes(n / 128) + rest);
        assert(s[0] == ((n % 128) + 128) as u8);
    }
}

/// Writes the remaining-length encoding of `len` at the front of `buf` and
/// returns the number of bytes written.
pub fn encode_variable_length(len: usize, buf: &mut [u8]) -> (written: usize)
    requires
        varlen_bytes(len as nat).len() <= old(buf)@.len(),
    ensures
        written == varlen_bytes(len as nat).len(),
        final(buf)@.len() == old(buf)@.len(),
        final(buf)@.take(written as int) == varlen_bytes(len as nat),
        final(buf)@.skip(written as int) == old(buf)@.skip(written as int),
{
    let mut len = len;
    let mut idx: usize = 0;
    let ghost orig = len as nat;
    let ghost obuf = buf@;
    loop
        invariant_except_break
            idx + varlen_bytes(len as nat).len() == varlen_bytes(orig).len(),
            varlen_bytes(orig) == buf@.take(idx as int) + varlen_bytes(len as nat),
        invariant
            varlen_bytes(orig).len() <= obuf.len(),
            buf@.len() == obuf.len(),
            buf@.skip(varlen_bytes(orig).len() as int) == obuf.skip(varlen_bytes(orig).len() as int),
        ensures
            idx == varlen_bytes(orig).len(),
            varlen_bytes(orig) == buf@.take(idx as int),
        decreases len,
    {
        proof {
            lemma_varlen_bytes_len(len as nat);
        }
        let ghost before = buf@;
        let ghost cur = len as nat;
        let mut byte: u8 = (len % 128) as u8;
        len = len / 128;
        if len > 0 {
            assert(byte < 128 ==> byte | 0x80 == byte + 128) by (bit_vector);
            byte = byte | 0x80;
        }
        buf[idx] = byte;
        idx = idx + 1;
        proof {
            if cur < 128 {
                assert(varlen_bytes(cur) == seq![cur as u8]);
            } else {
                assert(varlen_bytes(cur) == seq![((cur % 128) + 128) as u8] + varlen_bytes(cur / 128));
            }
            assert(buf@.take(idx as int) =~= before.take(idx - 1) + seq![byte]);
            assert(buf@.skip(varlen_bytes(orig).len() as int) =~= before.skip(varlen_bytes(orig).len() as int));
        }
        if len == 0 {
            proof {
                assert(varlen_bytes(orig) =~= buf@.take(idx as int));
            }
            break;
        }
        proof {
            assert(varlen_bytes(orig) =~= buf@.take(idx as int) + varlen_bytes(len as nat));
        }
    }
    idx
}


/// How the decoding of the whole field relates to the decoding of its tail
/// once `idx` bytes worth `value` (at weight `mult` for the next byte) are read.
spec fn decode_resume(value: nat, mult: nat, idx: nat, tail: Option<(nat, nat)>) -> Option<(nat, nat)> {
    match tail {
        Some((v, c)) => Some((value + mult * v, c + idx)),
        None => None,
    }
}

/// Reads a remaining-length field from the front of `buf`: `Ok((value,
/// bytes_used))`, or `ProtocolError` when `buf` ends inside the field or the
/// field runs past four bytes.
pub fn decode_variable_length(buf: &[u8]) -> (r: Result<(usize, usize), MqttError>)
    ensures
        match varlen_decode(buf@, 4) {
            Some((v, c)) => r == Ok::<(usize, usize), MqttError>((v as usize, c as usize)),
            None => r == Err::<(usize, usize), MqttError>(MqttError::ProtocolError),
        },
{
    let mut multiplier: usize = 1;
    let mut value: usize = 0;
    let mut idx: usize = 0;
    proof {
        assert(buf@.skip(0) =~= buf@);
        match varlen_decode(buf@, 4) {
            Some((v, c)) => {}
            None => {}
        }
    }
    loop
        invariant_except_break
            idx <= 3,
            idx <= buf@.len(),
            multiplier == pow128(idx as nat),
            value < multiplier,
            varlen_decode(buf@, 4) == decode_resume(value as nat, multiplier as nat, idx as nat,
                varlen_decode(buf@.skip(idx as int), (4 - idx) as nat)),
        ensures
            varlen_decode(buf@, 4) == Some((value as nat, idx as nat)),
        decreases 4 - idx,
    {
        proof {
            reveal_with_fuel(pow128, 4);
        }
        if idx >= buf.len() {
            proof {
                assert(buf@.skip(idx as int).len() == 0);
            }
            return Err(MqttError::ProtocolError);
        }
        let ghost tail = buf@.skip(idx as int);
        let ghost old_value = value as nat;
        let ghost mult = multiplier as nat;
        let byte = buf[idx];
        assert(tail[0] == byte);
        assert(byte & 0x7F == byte % 128 && (byte & 0x80 == 0 <==> byte < 128)) by (bit_vector);
        let digit: usize = (byte & 0x7F) as usize;
        assert(value + digit * multiplier < 128 * multiplier) by (nonlinear_arith)
            requires value < multiplier, digit < 128;
        assert(multiplier <= 2_097_152);
        value = value + digit * multiplier;
        idx = idx + 1;
        if byte & 0x80 == 0 {
            proof {
                assert(mult * digit == digit * mult) by (nonlinear_arith);
            }
            break;
        }
        multiplier = multiplier * 128;
        if multiplier > 128 * 128 * 128 {
            return Err(MqttError::ProtocolError);
        }
        proof {
            assert(tail.drop_first() =~= buf@.skip(idx as int));
            let rest = varlen_decode(buf@.skip(idx as int), (4 - idx) as nat);
            match rest {
                Some((v, c)) => {
                    assert(old_value + mult * (digit + 128 * v) == old_value + digit * mult + (mult * 128) * v)
                        by (nonlinear_arith);
                }
                None => {}
            }
        }
    }
    Ok((value, idx))
}


/// The first `n` elements of `s`, or all of `s` when it is shorter.
pub open spec fn truncated(s: Seq<u8>, n: nat) -> Seq<u8> {
    if s.len() <= n {
        s
    } else {
        s.take(n as int)
    }
}

/// Appends the bytes of `src` to `out`.
fn push_bytes(out: &mut Vec<u8>, src: &[u8])
    ensures
        final(out)@ == old(out)@ + src@,
{
    let mut i: usize = 0;
    while i < src.len()
        invariant
            i <= src@.len(),
            out@ == old(out)@ + src@.take(i as int),
        decreases src@.len() - i,
    {
        out.push(src[i]);
        i = i + 1;
        proof {
            assert(src@.take(i as int) =~= src@.take(i - 1).push(src@[i - 1]));
        }
    }
    proof {
        assert(src@.take(i as int) =~= src@);
    }
}

/// `core::str::from_utf8`. Its documentation says that it returns `Ok` exactly
/// when the bytes are valid UTF-8, and then a string slice over those same
/// bytes; this is what the contract claims.
#[verifier::external_body]
fn str_from_utf8<'a>(bytes: &'a [u8]) -> (r: Option<&'a str>)
    ensures
        r.is_some() <==> valid_utf8(bytes@),
        r matches Some(s) ==> s.spec_bytes() == bytes@,
{
    core::str::from_utf8(bytes).ok()
}

/// Reads `bytes` as UTF-8 text: `Some(text)` exactly when the bytes are valid
/// UTF-8, and then the text they encode.
pub fn utf8_text<'a>(bytes: &'a [u8]) -> (r: Option<&'a str>)
    ensures
        r.is_some() <==> valid_utf8(bytes@),
        r matches Some(s) ==> s@ == decode_utf8(bytes@) && s.spec_bytes() == bytes@,
{
    let r = str_from_utf8(bytes);
    proof {
        if let Some(s) = r {
            encode_utf8_decode_utf8(s@);
        }
    }
    r
}

/// A byte buffer holding at most `N` bytes.
pub struct ArrayBuf<const N: usize> {
    data: Vec<u8>,
}

impl<const N: usize> View for ArrayBuf<N> {
    type V = Seq<u8>;

    closed spec fn view(&self) -> Seq<u8> {
        self.data@
    }
}

impl<const N: usize> ArrayBuf<N> {
    #[verifier::type_invariant]
    spec fn inv(self) -> bool {
        self.data@.len() <= N
    }

    /// An empty buffer.
    pub fn new() -> (r: Self)
        ensures
            r@ == Seq::<u8>::empty(),
    {
        ArrayBuf { data: Vec::new() }
    }

    /// Replaces the contents with `src`, cut to the first `N` bytes when it
    /// does not fit.
    pub fn copy_from(&mut self, src: &[u8])
        ensures
            final(self)@ == truncated(src@, N as nat),
    {
        let n = if src.len() < N { src.len() } else { N };
        let mut data: Vec<u8> = Vec::new();
        push_bytes(&mut data, &src[0..n]);
        proof {
            assert(src@.subrange(0, n as int) =~= truncated(src@, N as nat));
        }
        self.data = data;
    }

    /// The bytes held.
    pub fn as_slice(&self) -> (r: &[u8])
        ensures
            r@ == self@,
            r@.len() <= N,
    {
        proof {
            use_type_invariant(self);
        }
        self.data.as_slice()
    }

    /// The bytes held, read as UTF-8 text; `None` when they are not valid UTF-8.
    pub fn as_str(&self) -> (r: Option<&str>)
        ensures
            r.is_some() <==> valid_utf8(self@),
            r matches Some(s) ==> s@ == decode_utf8(self@) && s.spec_bytes() == self@,
    {
        utf8_text(self.data.as_slice())
    }
}

/// What an `MqttEvent` carries, as plain sequences.
pub enum EventView {
    Publish { topic: Seq<u8>, payload: Seq<u8> },
    PingResp,
    SubAck,
    ConnAck,
}

/// A fully-decoded MQTT event, with owned copies of topic and payload, cut to
/// 64 and 256 bytes.
pub enum MqttEvent {
    Publish { topic: ArrayBuf<64>, payload: ArrayBuf<256> },
    PingResp,
    SubAck,
    ConnAck,
}

impl View for MqttEvent {
    type V = EventView;

    open spec fn view(&self) -> EventView {
        match self {
            MqttEvent::Publish { topic, payload } => EventView::Publish { topic: topic@, payload: payload@ },
            MqttEvent::PingResp => EventView::PingResp,
            MqttEvent::SubAck => EventView::SubAck,
            MqttEvent::ConnAck => EventView::ConnAck,
        }
    }
}

/// The packet type, the high nibble of the first byte.
pub open spec fn packet_type(first: u8) -> u8 {
    first / 16
}

/// The body of a PUBLISH packet as an event: a two-byte big-endian topic
/// length, the topic, then the payload; `None` when the topic does not fit.
pub open spec fn publish_event(body: Seq<u8>) -> Option<EventView> {
    if body.len() < 2 {
        None
    } else {
        let topic_len = body[0] as nat * 256 + body[1] as nat;
        if 2 + topic_len > body.len() {
            None
        } else {
            Some(EventView::Publish {
                topic: truncated(body.subrange(2, 2 + topic_len as int), 64),
                payload: truncated(body.skip(2 + topic_len as int), 256),
            })
        }
    }
}

/// One packet at the front of `data`: the event and the number of bytes the
/// packet occupies. `None` when the data ends before the packet does, the
/// remaining-length field is malformed, or the type is not one this client
/// handles: 3 (PUBLISH), 13 (PINGRESP), 9 (SUBACK) and 2 (CONNACK).
pub open spec fn spec_decode_packet(data: Seq<u8>) -> Option<(EventView, nat)> {
    if data.len() == 0 {
        None
    } else {
        match varlen_decode(data.drop_first(), 4) {
            None => None,
            Some((remaining, field_len)) => {
                let total = 1 + field_len + remaining;
                if data.len() < total {
                    None
                } else {
                    let body = data.subrange(1 + field_len as int, total as int);
                    let t = packet_type(data[0]);
                    if t == 3 {
                        match publish_event(body) {
                            Some(e) => Some((e, total)),
                            None => None,
                        }
                    } else if t == 0x0D {
                        Some((EventView::PingResp, total))
                    } else if t == 0x09 {
                        Some((EventView::SubAck, total))
                    } else if t == 0x02 {
                        Some((EventView::ConnAck, total))
                    } else {
                        None
                    }
                }
            }
        }
    }
}

/// Parses one MQTT packet from the front of `data` (the buffered bytes):
/// the event and the number of bytes the packet occupies, or `None` when the
/// data is incomplete or the packet is not one this client handles.
pub fn decode_packet(data: &[u8]) -> (r: Option<(MqttEvent, usize)>)
    ensures
        match spec_decode_packet(data@) {
            Some((e, n)) => r matches Some((ev, m)) && ev@ == e && m == n,
            None => r is None,
        },
        r matches Some((_, m)) ==> 0 < m <= data@.len(),
{
    if data.is_empty() {
        return None;
    }
    let first = data[0];
    assert((first >> 4u8) & 0x0Fu8 == first / 16) by (bit_vector);
    let packet_type: u8 = (first >> 4) & 0x0F;
    let rest = &data[1..data.len()];
    assert(rest@ =~= data@.drop_first());
    let (remaining_len, var_len_bytes) = match decode_variable_length(rest) {
        Ok(v) => v,
        Err(_) => return None,
    };
    proof {
        lemma_varlen_decode_bounds(rest@, 4);
        lemma_pow128_monotonic(var_len_bytes as nat, 4);
        reveal_with_fuel(pow128, 5);
    }
    let total = 1 + var_len_bytes + remaining_len;
    if data.len() < total {
        return None;
    }
    let body_start = 1 + var_len_bytes;
    let body = &data[body_start..total];
    match packet_type {
        0x03 => {
            if body.len() < 2 {
                return None;
            }
            let b0 = body[0];
            let b1 = body[1];
            let topic_len = ((b0 as usize) << 8) | (b1 as usize);
            assert((b0 as usize) << 8usize | (b1 as usize) == b0 as usize * 256 + b1 as usize)
                by (bit_vector);
            let topic_start: usize = 2;
            let topic_end = topic_start + topic_len;
            if topic_end > body.len() {
                return None;
            }
            let mut topic: ArrayBuf<64> = ArrayBuf::new();
            topic.copy_from(&body[topic_start..topic_end]);
            let mut payload: ArrayBuf<256> = ArrayBuf::new();
            payload.copy_from(&body[topic_end..body.len()]);
            proof {
                assert(body@.subrange(topic_end as int, body@.len() as int) =~= body@.skip(topic_end as int));
            }
            Some((MqttEvent::Publish { topic, payload }, total))
        },
        0x0D => Some((MqttEvent::PingResp, total)),
        0x09 => Some((MqttEvent::SubAck, total)),
        0x02 => Some((MqttEvent::ConnAck, total)),
        _ => None,
    }
}

/// A decoded remaining length is below `128^budget` and uses at most `budget`
/// bytes, all of them from `s`.
pub proof fn lemma_varlen_decode_bounds(s: Seq<u8>, budget: nat)
    ensures
        varlen_decode(s, budget) matches Some((v, c)) ==> 1 <= c <= s.len() && (c == 1 || c <= budget)
            && v < pow128(c),
    decreases s.len(),
{
    reveal_with_fuel(pow128, 2);
    if s.len() > 0 && s[0] < 128 {
        assert(pow128(1) == 128);
    }
    if s.len() > 0 && s[0] >= 128 && budget > 1 {
        lemma_varlen_decode_bounds(s.drop_first(), (budget - 1) as nat);
        match varlen_decode(s.drop_first(), (budget - 1) as nat) {
            Some((v, c)) => {
                assert(pow128(c + 1) == 128 * pow128(c));
                assert((s[0] - 128) + 128 * v < 128 * pow128(c)) by (nonlinear_arith)
                    requires v < pow128(c), s[0] - 128 < 128;
            }
            None => {}
        }
    }
}


/// `128^k` grows with `k`.
pub proof fn lemma_pow128_monotonic(a: nat, b: nat)
    requires
        a <= b,
    ensures
        pow128(a) <= pow128(b),
    decreases b,
{
    if a < b {
        lemma_pow128_monotonic(a, (b - 1) as nat);
    }
}


/// A 16-bit big-endian field holding `n`.
pub open spec fn u16_be(n: nat) -> Seq<u8> {
    seq![(n / 256) as u8, (n % 256) as u8]
}

/// The CONNECT packet for `client_id` (MQTT 3.1.1, clean session).
pub open spec fn connect_bytes(client_id: Seq<u8>, keep_alive_secs: u16) -> Seq<u8> {
    seq![0x10u8] + varlen_bytes(12 + client_id.len()) + seq![0x00u8, 0x04, 0x4D, 0x51, 0x54, 0x54, 0x04, 0x02]
        + u16_be(keep_alive_secs as nat) + u16_be(client_id.len()) + client_id
}

/// The SUBSCRIBE packet for one topic at QoS 0.
pub open spec fn subscribe_bytes(topic: Seq<u8>, packet_id: u16) -> Seq<u8> {
    seq![0x82u8] + varlen_bytes(5 + topic.len()) + u16_be(packet_id as nat) + u16_be(topic.len()) + topic
        + seq![0x00u8]
}

/// The PUBLISH packet (QoS 0, no retain) of `payload` on `topic`.
pub open spec fn publish_bytes(topic: Seq<u8>, payload: Seq<u8>) -> Seq<u8> {
    seq![0x30u8] + varlen_bytes(2 + topic.len() + payload.len()) + u16_be(topic.len()) + topic + payload
}

/// The PINGREQ packet.
pub open spec fn ping_bytes() -> Seq<u8> {
    seq![0xC0u8, 0x00]
}

/// The size of a packet whose remaining length is `variable_len`: the type
/// byte, the remaining-length field and the rest.
pub open spec fn framed_len(variable_len: nat) -> nat {
    1 + varlen_bytes(variable_len).len() + variable_len
}

/// The number of bytes of the remaining-length encoding of `len`.
pub fn variable_length_size(len: u128) -> (r: usize)
    ensures
        r == varlen_bytes(len as nat).len(),
        r <= 19,
    decreases len,
{
    proof {
        lemma_varlen_bytes_len(len as nat);
        reveal_with_fuel(pow128, 20);
        lemma_varlen_len_bound(len as nat, 19);
        lemma_varlen_len_bound((len / 128) as nat, 18);
    }
    if len < 128 {
        1
    } else {
        let rest = variable_length_size(len / 128);
        proof {
            lemma_varlen_bytes_len((len / 128) as nat);
            assert(varlen_bytes(len as nat) =~= seq![((len % 128) + 128) as u8] + varlen_bytes((len / 128) as nat));
        }
        1 + rest
    }
}

/// A value below `128^k` has a remaining-length encoding of at most `k`
/// bytes.
pub proof fn lemma_varlen_len_bound(n: nat, k: nat)
    requires
        1 <= k,
        n < pow128(k),
    ensures
        varlen_bytes(n).len() <= k,
    decreases n,
{
    if n >= 128 {
        assert(k >= 2) by {
            if k == 1 {
                assert(pow128(1) == 128) by {
                    reveal_with_fuel(pow128, 2);
                }
            }
        }
        assert(n / 128 < pow128((k - 1) as nat)) by (nonlinear_arith)
            requires
                n < pow128(k),
                pow128(k) == 128 * pow128((k - 1) as nat),
        ;
        lemma_varlen_len_bound(n / 128, (k - 1) as nat);
    }
}

/// Whether the CONNECT packet for `client_id` fits the 256-byte send buffer
/// (`connect_packet` requires it).
pub fn connect_fits(client_id: &str) -> (r: bool)
    ensures
        r == (framed_len(12 + client_id.spec_bytes().len()) <= 256),
{
    let n = client_id.as_bytes().len();
    if n > 256 {
        return false;
    }
    1 + variable_length_size((12 + n) as u128) + 12 + n <= 256
}

/// Whether the SUBSCRIBE packet for `topic` fits the 128-byte send buffer
/// (`subscribe_packet` requires it).
pub fn subscribe_fits(topic: &str) -> (r: bool)
    ensures
        r == (framed_len(5 + topic.spec_bytes().len()) <= 128),
{
    let n = topic.as_bytes().len();
    if n > 128 {
        return false;
    }
    1 + variable_length_size((5 + n) as u128) + 5 + n <= 128
}

/// Whether the header and topic of the PUBLISH packet for `topic` and a
/// payload of `payload_len` bytes fit the 256-byte send buffer
/// (`publish_packet` requires it).
pub fn publish_header_fits(topic: &str, payload_len: usize) -> (r: bool)
    ensures
        r == (1 + varlen_bytes((2 + topic.spec_bytes().len() + payload_len) as nat).len() + 2
            + topic.spec_bytes().len() <= 256),
{
    let n = topic.as_bytes().len();
    if n > 256 {
        return false;
    }
    let size = variable_length_size(2 + n as u128 + payload_len as u128);
    size <= 256 && 1 + size + 2 + n <= 256
}

/// Appends the remaining-length encoding of `len` to `out`.
fn push_variable_length(out: &mut Vec<u8>, len: usize)
    requires
        len <= max_remaining_length(),
    ensures
        final(out)@ == old(out)@ + varlen_bytes(len as nat),
{
    proof {
        lemma_varlen_bytes_len(len as nat);
    }
    let mut field: Vec<u8> = vec![0u8, 0u8, 0u8, 0u8];
    let n = encode_variable_length(len, field.as_mut_slice());
    push_bytes(out, &field.as_slice()[0..n]);
    proof {
        assert(field@.subrange(0, n as int) =~= field@.take(n as int));
    }
}

/// Appends `n` as a 16-bit big-endian field.
fn push_u16_be(out: &mut Vec<u8>, n: usize)
    requires
        n < 65536,
    ensures
        final(out)@ == old(out)@ + u16_be(n as nat),
{
    assert(n >> 8usize == n / 256 && n & 0xFFusize == n % 256) by (bit_vector);
    out.push((n >> 8) as u8);
    out.push((n & 0xFF) as u8);
    proof {
        assert(final(out)@ =~= old(out)@ + u16_be(n as nat));
    }
}

/// The bytes of the CONNECT packet that `connect` sends: protocol "MQTT"
/// level 4, clean session, the keep-alive interval and the client id.
/// The packet must fit the 256-byte send buffer.
pub fn connect_packet(client_id: &str, keep_alive_secs: u16) -> (r: Vec<u8>)
    requires
        framed_len(12 + client_id.spec_bytes().len()) <= 256,
    ensures
        r@ == connect_bytes(client_id.spec_bytes(), keep_alive_secs),
{
    let id = client_id.as_bytes();
    proof {
        lemma_varlen_bytes_len(12 + id@.len());
    }
    let mut buf: Vec<u8> = Vec::new();
    buf.push(0x10);
    push_variable_length(&mut buf, 10 + 2 + id.len());
    buf.push(0x00);
    buf.push(0x04);
    buf.push(0x4D); // 'M'
    buf.push(0x51); // 'Q'
    buf.push(0x54); // 'T'
    buf.push(0x54); // 'T'
    buf.push(0x04);
    buf.push(0x02);
    push_u16_be(&mut buf, keep_alive_secs as usize);
    push_u16_be(&mut buf, id.len());
    push_bytes(&mut buf, id);
    proof {
        assert(buf@ =~= connect_bytes(client_id.spec_bytes(), keep_alive_secs));
    }
    buf
}

/// The bytes of the SUBSCRIBE packet that `subscribe` sends: one topic at
/// QoS 0 under `packet_id`. The packet must fit the 128-byte send buffer.
pub fn subscribe_packet(topic: &str, packet_id: u16) -> (r: Vec<u8>)
    requires
        framed_len(5 + topic.spec_bytes().len()) <= 128,
    ensures
        r@ == subscribe_bytes(topic.spec_bytes(), packet_id),
{
    let t = topic.as_bytes();
    proof {
        lemma_varlen_bytes_len(5 + t@.len());
    }
    let mut buf: Vec<u8> = Vec::new();
    buf.push(0x82);
    push_variable_length(&mut buf, 2 + 2 + t.len() + 1);
    push_u16_be(&mut buf, packet_id as usize);
    push_u16_be(&mut buf, t.len());
    push_bytes(&mut buf, t);
    buf.push(0x00);
    proof {
        assert(buf@ =~= subscribe_bytes(topic.spec_bytes(), packet_id));
    }
    buf
}

/// The bytes of the PUBLISH packet that `publish` sends, or `ProtocolError`
/// when the payload does not fit the 256-byte send buffer after the topic.
/// The header and topic must fit that buffer.
pub fn publish_packet(topic: &str, payload: &[u8]) -> (r: Result<Vec<u8>, MqttError>)
    requires
        1 + varlen_bytes(2 + topic.spec_bytes().len() + payload@.len()).len() + 2 + topic.spec_bytes().len()
            <= 256,
    ensures
        framed_len(2 + topic.spec_bytes().len() + payload@.len()) <= 256
            ==> r == Ok::<Vec<u8>, MqttError>(r->Ok_0) && r->Ok_0@ == publish_bytes(topic.spec_bytes(), payload@),
        framed_len(2 + topic.spec_bytes().len() + payload@.len()) > 256
            ==> r == Err::<Vec<u8>, MqttError>(MqttError::ProtocolError),
{
    let t = topic.as_bytes();
    if payload.len() > 256 {
        return Err(MqttError::ProtocolError);
    }
    let variable_len = 2 + t.len() + payload.len();
    proof {
        lemma_varlen_bytes_len(variable_len as nat);
    }
    let mut buf: Vec<u8> = Vec::new();
    buf.push(0x30);
    push_variable_length(&mut buf, variable_len);
    push_u16_be(&mut buf, t.len());
    push_bytes(&mut buf, t);
    if buf.len() + payload.len() > 256 {
        return Err(MqttError::ProtocolError);
    }
    push_bytes(&mut buf, payload);
    proof {
        assert(buf@ =~= publish_bytes(topic.spec_bytes(), payload@));
    }
    Ok(buf)
}

/// The bytes of the PINGREQ packet that `ping` sends.
pub fn ping_packet() -> (r: Vec<u8>)
    ensures
        r@ == ping_bytes(),
{
    let r = vec![0xC0u8, 0x00u8];
    proof {
        assert(r@ =~= ping_bytes());
    }
    r
}

/// Checks the reply to CONNECT, `resp` being the bytes read (at most four):
/// a CONNACK (0x20) of four bytes whose return code is 0, else
/// `ConnectionFailed`.
pub fn check_connack(resp: &[u8]) -> (r: Result<(), MqttError>)
    ensures
        r == (if resp@.len() >= 4 && resp@[0] == 0x20 && resp@[3] == 0 {
            Ok::<(), MqttError>(())
        } else {
            Err(MqttError::ConnectionFailed)
        }),
{
    if resp.len() < 4 || resp[0] != 0x20 || resp[3] != 0x00 {
        return Err(MqttError::ConnectionFailed);
    }
    Ok(())
}

/// Checks the reply to SUBSCRIBE, `resp` being the bytes read: at least
/// four bytes starting with 0x90 (SUBACK), else `ProtocolError`.
pub fn check_suback(resp: &[u8]) -> (r: Result<(), MqttError>)
    ensures
        r == (if resp@.len() >= 4 && resp@[0] == 0x90 {
            Ok::<(), MqttError>(())
        } else {
            Err(MqttError::ProtocolError)
        }),
{
    if resp.len() < 4 || resp[0] != 0x90 {
        return Err(MqttError::ProtocolError);
    }
    Ok(())
}


/// Persistent receive state for MQTT. The buffer accumulates incoming bytes
/// across polls so that partial or coalesced TCP segments are handled
/// correctly. Only one complete MQTT packet is decoded per poll; the
/// remainder is kept for the next one.
///
/// The unread portion lives in `buf[start..end]`. Consuming a packet advances
/// `start`; when the unread portion becomes empty both indices are reset.
pub struct MqttRx {
    buf: Vec<u8>,
    start: usize,
    end: usize,
}

/// What a poll reports.
pub enum MqttStatus {
    /// A full packet was decoded (and consumed).
    Event(MqttEvent),
    /// Nothing was read, or no complete packet is available yet.
    NoData,
    /// The socket read failed: the connection is broken.
    Disconnected,
}

/// The first half of a poll: either its outcome, or a request to read at most
/// the given number of bytes from the socket and hand them to `poll_received`.
pub enum PollStep {
    Done(MqttStatus),
    Read(usize),
}

impl MqttRx {
    #[verifier::type_invariant]
    spec fn inv(self) -> bool {
        &&& self.start <= self.end <= self.buf@.len()
        &&& self.buf@.len() <= usize::MAX
        &&& self.start == self.end ==> self.end == 0
    }

    /// The receive buffer's bytes, read or not.
    pub closed spec fn buffer(self) -> Seq<u8> {
        self.buf@
    }

    /// The shape every receive state keeps: the unread bytes lie within the
    /// buffer, whose size fits a `usize`, and when none is left both indices
    /// are back at the start.
    pub open spec fn well_shaped(self) -> bool {
        &&& self.unread().len() <= self.end_index() <= self.capacity() <= usize::MAX
        &&& self.unread().len() == 0 ==> self.end_index() == 0
    }

    /// The size of the receive buffer.
    pub closed spec fn capacity(self) -> nat {
        self.buf@.len()
    }

    /// Where the unread bytes end in the buffer.
    pub closed spec fn end_index(self) -> nat {
        self.end as nat
    }

    /// The bytes received and not yet consumed.
    pub closed spec fn unread(self) -> Seq<u8> {
        self.buf@.subrange(self.start as int, self.end as int)
    }

    /// Room left after the unread bytes.
    pub open spec fn room(self) -> nat {
        (self.capacity() - self.end_index()) as nat
    }

    /// Creates a new receive state backed by the given buffer.
    pub fn new(buf: Vec<u8>) -> (r: Self)
        ensures
            r.capacity() == buf@.len(),
            r.end_index() == 0,
            r.unread() == Seq::<u8>::empty(),
            r.buffer() == buf@,
            r.well_shaped(),
    {
        let _ = buf.len();
        let r = MqttRx { buf, start: 0, end: 0 };
        proof {
            assert(r.unread() =~= Seq::<u8>::empty());
        }
        r
    }

    /// Returns how many bytes are currently buffered (unconsumed).
    pub fn pending(&self) -> (n: usize)
        ensures
            n == self.unread().len(),
            n <= self.capacity(),
            self.well_shaped(),
    {
        proof {
            use_type_invariant(self);
        }
        self.end - self.start
    }

    /// Drops every buffered byte.
    pub fn clear(&mut self)
        ensures
            final(self).capacity() == old(self).capacity(),
            final(self).end_index() == 0,
            final(self).unread() == Seq::<u8>::empty(),
            final(self).buffer() == old(self).buffer(),
            final(self).well_shaped(),
    {
        proof {
            use_type_invariant(&*self);
        }
        self.start = 0;
        self.end = 0;
        proof {
            assert(self.unread() =~= Seq::<u8>::empty());
        }
    }

    /// Advances the read position past `consumed` bytes, resetting both
    /// indices once nothing is left. Only indices move, never bytes.
    fn advance(&mut self, consumed: usize)
        requires
            consumed <= old(self).unread().len(),
        ensures
            final(self).capacity() == old(self).capacity(),
            final(self).unread() == old(self).unread().skip(consumed as int),
            final(self).end_index() == (if consumed == old(self).unread().len() {
                0
            } else {
                old(self).end_index()
            }),
            final(self).buffer() == old(self).buffer(),
            final(self).well_shaped(),
    {
        proof {
            use_type_invariant(&*self);
        }
        let ghost before = self.unread();
        let new_start = self.start + consumed;
        if new_start == self.end {
            self.start = 0;
            self.end = 0;
        } else {
            self.start = new_start;
        }
        proof {
            assert(self.unread() =~= before.skip(consumed as int));
        }
    }

    /// Decodes and consumes one complete packet from the unread bytes, if
    /// there is one.
    pub fn decode_next(&mut self) -> (r: Option<MqttEvent>)
        ensures
            final(self).capacity() == old(self).capacity(),
            match spec_decode_packet(old(self).unread()) {
                Some((e, n)) => r matches Some(ev) && ev@ == e
                    && final(self).unread() == old(self).unread().skip(n as int)
                    && final(self).end_index() == (if n == old(self).unread().len() {
                        0
                    } else {
                        old(self).end_index()
                    }),
                None => r is None && *final(self) == *old(self),
            },
            final(self).buffer() == old(self).buffer(),
            final(self).well_shaped(),
    {
        proof {
            use_type_invariant(&*self);
        }
        let decoded = decode_packet(&self.buf.as_slice()[self.start..self.end]);
        match decoded {
            Some((event, consumed)) => {
                self.advance(consumed);
                Some(event)
            },
            None => None,
        }
    }

    /// Stores freshly received bytes after the unread ones.
    fn receive(&mut self, data: &[u8])
        requires
            data@.len() <= old(self).room(),
        ensures
            final(self).capacity() == old(self).capacity(),
            final(self).end_index() == old(self).end_index() + data@.len(),
            final(self).unread() == old(self).unread() + data@,
            final(self).well_shaped(),
    {
        proof {
            use_type_invariant(&*self);
        }
        let ghost before = self.unread();
        let start = self.start;
        let mut i: usize = 0;
        let end = self.end;
        self.start = 0;
        self.end = 0;
        let mut buf: Vec<u8> = Vec::new();
        std::mem::swap(&mut buf, &mut self.buf);
        let cap = buf.len();
        while i < data.len()
            invariant
                i <= data@.len(),
                start <= end,
                end + data@.len() <= cap,
                buf@.len() == cap,
                cap == old(self).buf@.len(),
                buf@.subrange(start as int, end as int) == before,
                buf@.subrange(end as int, end + i) == data@.take(i as int),
            decreases data@.len() - i,
        {
            let ghost prev = buf@;
            buf.set(end + i, data[i]);
            i = i + 1;
            proof {
                assert(buf@.subrange(start as int, end as int) =~= prev.subrange(start as int, end as int));
                assert(buf@.subrange(end as int, end + i) =~= data@.take(i as int));
            }
        }
        self.buf = buf;
        self.end = end + data.len();
        self.start = start;
        proof {
            assert(data@.take(i as int) =~= data@);
            assert(self.unread() =~= before + data@);
        }
    }

    /// The first half of a poll. Decodes a packet from leftover bytes if there
    /// is one; otherwise, when the buffer is full (out of sync), drops
    /// everything, and asks for a read into the free space, or reports
    /// `NoData` when there is none.
    pub fn poll_buffered(&mut self) -> (r: PollStep)
        ensures
            final(self).capacity() == old(self).capacity(),
            match spec_decode_packet(old(self).unread()) {
                Some((e, n)) => r matches PollStep::Done(MqttStatus::Event(ev)) && ev@ == e
                    && final(self).unread() == old(self).unread().skip(n as int)
                    && final(self).end_index() == (if n == old(self).unread().len() {
                        0
                    } else {
                        old(self).end_index()
                    }),
                None => {
                    &&& final(self).unread() == (if old(self).end_index() == old(self).capacity() {
                        Seq::<u8>::empty()
                    } else {
                        old(self).unread()
                    })
                    &&& final(self).end_index() == (if old(self).end_index() == old(self).capacity() {
                        0
                    } else {
                        old(self).end_index()
                    })
                    &&& if final(self).room() == 0 {
                        r matches PollStep::Done(MqttStatus::NoData)
                    } else {
                        r == PollStep::Read(final(self).room() as usize)
                    }
                },
            },
            final(self).well_shaped(),
    {
        if let Some(event) = self.decode_next() {
            return PollStep::Done(MqttStatus::Event(event));
        }
        proof {
            use_type_invariant(&*self);
        }
        if self.end == self.buf.len() {
            self.clear();
        }
        proof {
            use_type_invariant(&*self);
        }
        let room = self.buf.len() - self.end;
        if room == 0 {
            return PollStep::Done(MqttStatus::NoData);
        }
        PollStep::Read(room)
    }

    /// The second half of a poll, given what the socket read returned:
    /// `None` for a read error, else the bytes read (at most the room asked
    /// for). A read error, or an empty read (the peer closed the connection),
    /// reports `Disconnected`; otherwise the bytes are stored and one packet is
    /// decoded if complete.
    pub fn poll_received(&mut self, received: Option<&[u8]>) -> (r: MqttStatus)
        requires
            received matches Some(d) ==> d@.len() <= old(self).room(),
        ensures
            final(self).capacity() == old(self).capacity(),
            match received {
                None => r is Disconnected && *final(self) == *old(self),
                Some(d) => if d@.len() == 0 {
                    r is Disconnected && *final(self) == *old(self)
                } else {
                    let all = old(self).unread() + d@;
                    match spec_decode_packet(all) {
                        Some((e, n)) => r matches MqttStatus::Event(ev) && ev@ == e
                            && final(self).unread() == all.skip(n as int)
                            && final(self).end_index() == (if n == all.len() {
                                0
                            } else {
                                old(self).end_index() + d@.len()
                            }),
                        None => r is NoData && final(self).unread() == all
                            && final(self).end_index() == old(self).end_index() + d@.len(),
                    }
                },
            },
            final(self).well_shaped(),
    {
        proof {
            use_type_invariant(&*self);
        }
        match received {
            None => MqttStatus::Disconnected,
            Some(data) => {
                if data.len() == 0 {
                    return MqttStatus::Disconnected;
                }
                self.receive(data);
                match self.decode_next() {
                    Some(event) => MqttStatus::Event(event),
                    None => MqttStatus::NoData,
                }
            },
        }
    }
}


/// A remaining length up to the MQTT maximum survives encoding and decoding,
/// whatever bytes follow the field.
pub proof fn law_remaining_length_roundtrip(n: nat, rest: Seq<u8>)
    requires
        n <= max_remaining_length(),
    ensures
        varlen_decode(varlen_bytes(n) + rest, 4) == Some((n, varlen_bytes(n).len())),
        varlen_bytes(n).len() <= 4,
{
    reveal_with_fuel(pow128, 5);
    lemma_varlen_roundtrip(n, rest, 4);
    lemma_varlen_bytes_len(n);
}

/// Bytes after a complete remaining-length field do not change its decoding.
pub proof fn lemma_varlen_decode_extend(s: Seq<u8>, more: Seq<u8>, budget: nat)
    requires
        varlen_decode(s, budget) is Some,
    ensures
        varlen_decode(s + more, budget) == varlen_decode(s, budget),
    decreases s.len(),
{
    assert((s + more)[0] == s[0]);
    if s[0] >= 128 {
        assert((s + more).drop_first() =~= s.drop_first() + more);
        lemma_varlen_decode_extend(s.drop_first(), more, (budget - 1) as nat);
    }
}

/// Cutting the bytes after a complete remaining-length field does not change
/// its decoding.
pub proof fn lemma_varlen_decode_take(s: Seq<u8>, j: nat, budget: nat)
    requires
        varlen_decode(s, budget) matches Some((v, c)) && c <= j <= s.len(),
    ensures
        varlen_decode(s.take(j as int), budget) == varlen_decode(s, budget),
    decreases s.len(),
{
    assert(s.take(j as int)[0] == s[0]);
    if s[0] >= 128 {
        assert(s.take(j as int).drop_first() =~= s.drop_first().take(j - 1));
        lemma_varlen_decode_take(s.drop_first(), (j - 1) as nat, (budget - 1) as nat);
    }
}

/// A remaining-length field cut before its last byte does not decode.
pub proof fn lemma_varlen_decode_cut(s: Seq<u8>, k: nat, budget: nat)
    requires
        varlen_decode(s, budget) matches Some((v, c)) && k < c,
    ensures
        varlen_decode(s.take(k as int), budget) is None,
    decreases s.len(),
{
    lemma_varlen_decode_bounds(s, budget);
    if k > 0 {
        assert(s.take(k as int)[0] == s[0]);
        assert(s.take(k as int).drop_first() =~= s.drop_first().take(k - 1));
        lemma_varlen_decode_cut(s.drop_first(), (k - 1) as nat, (budget - 1) as nat);
    }
}

/// Bytes that arrive after a complete packet do not change how it decodes:
/// a packet followed by (part of) the next one gives the same event and size.
pub proof fn law_decode_ignores_following_bytes(data: Seq<u8>, more: Seq<u8>)
    requires
        spec_decode_packet(data) is Some,
    ensures
        spec_decode_packet(data + more) == spec_decode_packet(data),
{
    let all = data + more;
    assert(all[0] == data[0]);
    assert(all.drop_first() =~= data.drop_first() + more);
    lemma_varlen_decode_extend(data.drop_first(), more, 4);
    let (remaining, field_len) = varlen_decode(data.drop_first(), 4)->Some_0;
    let total = 1 + field_len + remaining;
    assert(all.subrange(1 + field_len as int, total as int) =~= data.subrange(1 + field_len as int, total as int));
}

/// A packet that has not fully arrived is not decoded: every strict prefix of
/// the bytes of a complete packet decodes to `None`.
pub proof fn law_incomplete_packet_waits(data: Seq<u8>, k: nat)
    requires
        spec_decode_packet(data) matches Some((e, n)) && k < n,
    ensures
        spec_decode_packet(data.take(k as int)) is None,
{
    let cut = data.take(k as int);
    if k > 0 {
        let (remaining, field_len) = varlen_decode(data.drop_first(), 4)->Some_0;
        assert(cut.drop_first() =~= data.drop_first().take(k - 1));
        if k - 1 < field_len {
            lemma_varlen_decode_cut(data.drop_first(), (k - 1) as nat, 4);
        } else {
            lemma_varlen_decode_take(data.drop_first(), (k - 1) as nat, 4);
        }
    }
}

/// What a PUBLISH packet built here carries is what decoding it gives back
/// (topic cut to 64 bytes, payload to 256), and the decoder consumes exactly
/// that packet, whatever follows it.
pub proof fn law_publish_roundtrip(topic: Seq<u8>, payload: Seq<u8>, rest: Seq<u8>)
    requires
        topic.len() < 65536,
        2 + topic.len() + payload.len() <= max_remaining_length(),
    ensures
        spec_decode_packet(publish_bytes(topic, payload) + rest) == Some((
            EventView::Publish { topic: truncated(topic, 64), payload: truncated(payload, 256) },
            publish_bytes(topic, payload).len(),
        )),
{
    let remaining = 2 + topic.len() + payload.len();
    let body = u16_be(topic.len()) + topic + payload;
    let packet = publish_bytes(topic, payload);
    let data = packet + rest;
    assert(packet =~= seq![0x30u8] + (varlen_bytes(remaining) + body));
    assert(data.drop_first() =~= varlen_bytes(remaining) + (body + rest));
    law_remaining_length_roundtrip(remaining, body + rest);
    let field_len = varlen_bytes(remaining).len();
    assert(data[0] == 0x30);
    assert(packet_type(0x30) == 3);
    assert(data.subrange(1 + field_len as int, (1 + field_len + remaining) as int) =~= body);
    assert(body[0] as nat * 256 + body[1] as nat == topic.len());
    assert(body.subrange(2, 2 + topic.len() as int) =~= topic);
    assert(body.skip(2 + topic.len() as int) =~= payload);
}

/// Only the high nibble of the first byte picks the packet type: changing
/// the low four bits (the flags: DUP, QoS, RETAIN on a PUBLISH) changes
/// neither the event decoded nor the bytes it occupies.
pub proof fn law_decode_ignores_flag_bits(data: Seq<u8>, first: u8)
    requires
        data.len() > 0,
        first / 16 == data[0] / 16,
    ensures
        spec_decode_packet(data.update(0, first)) == spec_decode_packet(data),
{
    let d2 = data.update(0, first);
    assert(d2.drop_first() =~= data.drop_first());
    match varlen_decode(data.drop_first(), 4) {
        Some((remaining, field_len)) => {
            let total = 1 + field_len + remaining;
            if data.len() >= total {
                assert(d2.subrange(1 + field_len as int, total as int) =~= data.subrange(
                    1 + field_len as int,
                    total as int,
                ));
            }
        },
        None => {},
    }
}

/// A PUBLISH packet with any flags in the low nibble of its first byte
/// (`0x30` to `0x3F`, e.g. a retained message) decodes like one with none:
/// the topic and payload it carries, and the whole packet consumed.
pub proof fn law_publish_with_flags_roundtrip(flags: u8, topic: Seq<u8>, payload: Seq<u8>, rest: Seq<u8>)
    requires
        flags < 16,
        topic.len() < 65536,
        2 + topic.len() + payload.len() <= max_remaining_length(),
    ensures
        spec_decode_packet(publish_bytes(topic, payload).update(0, (0x30 + flags) as u8) + rest) == Some((
            EventView::Publish { topic: truncated(topic, 64), payload: truncated(payload, 256) },
            publish_bytes(topic, payload).len(),
        )),
{
    law_publish_roundtrip(topic, payload, rest);
    let data = publish_bytes(topic, payload) + rest;
    assert(publish_bytes(topic, payload).update(0, (0x30 + flags) as u8) + rest =~= data.update(
        0,
        (0x30 + flags) as u8,
    ));
    assert(data[0] == 0x30);
    law_decode_ignores_flag_bits(data, (0x30 + flags) as u8);
}

/// The replies to SUBSCRIBE and CONNECT are decoded: a SUBACK
/// (`0x90 0x03`, packet id, return code) is `SubAck` and a CONNACK
/// (`0x20 0x02`, flags, return code) is `ConnAck`, each consuming its whole
/// packet, whatever follows.
pub proof fn law_acks_decode(packet_id_hi: u8, packet_id_lo: u8, flags: u8, code: u8, rest: Seq<u8>)
    ensures
        spec_decode_packet(seq![0x90u8, 0x03u8, packet_id_hi, packet_id_lo, code] + rest) == Some((
            EventView::SubAck,
            5nat,
        )),
        spec_decode_packet(seq![0x20u8, 0x02u8, flags, code] + rest) == Some((EventView::ConnAck, 4nat)),
{
    let suback = seq![0x90u8, 0x03u8, packet_id_hi, packet_id_lo, code] + rest;
    assert(suback.drop_first() =~= seq![0x03u8] + (seq![packet_id_hi, packet_id_lo, code] + rest));
    assert(suback[0] == 0x90);
    assert(packet_type(0x90) == 0x09);
    let connack = seq![0x20u8, 0x02u8, flags, code] + rest;
    assert(connack.drop_first() =~= seq![0x02u8] + (seq![flags, code] + rest));
    assert(connack[0] == 0x20);
    assert(packet_type(0x20) == 0x02);
}

/// The reply to PINGREQ, `0xD0 0x00`, decodes to `PingResp` and occupies two
/// bytes.
pub proof fn law_pingresp_decodes(rest: Seq<u8>)
    ensures
        spec_decode_packet(seq![0xD0u8, 0x00u8] + rest) == Some((EventView::PingResp, 2nat)),
{
    let data = seq![0xD0u8, 0x00u8] + rest;
    assert(data.drop_first() =~= seq![0x00u8] + rest);
    assert(data[0] == 0xD0);
    assert(packet_type(0xD0) == 0x0D);
}

} // verus!
