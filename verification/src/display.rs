use vstd::prelude::*;
use vstd::utf8::*;
use vstd::string::*;
use crate::control::decimal_digits;
use crate::mqtt::{truncated, utf8_text};

verus! {

/// The width of a screen line, in bytes.
pub const LINE_WIDTH: usize = 16;

/// `n` spaces.
pub open spec fn spaces(n: nat) -> Seq<u8> {
    Seq::new(n, |i: int| 0x20u8)
}

/// A screen line showing `text`: its first 16 bytes, padded with spaces.
pub open spec fn fixed_line(text: Seq<u8>) -> Seq<u8> {
    truncated(text, 16) + spaces((16 - truncated(text, 16).len()) as nat)
}

/// Every screen line is exactly the line width: text is cut to 16 bytes and
/// padded with spaces, and what fits is kept unchanged at the start.
pub proof fn law_lines_are_full_width(text: Seq<u8>)
    ensures
        fixed_line(text).len() == 16,
        text.len() <= 16 ==> fixed_line(text).take(text.len() as int) == text,
        text.len() >= 16 ==> fixed_line(text) == text.take(16),
{
    assert(text.len() <= 16 ==> fixed_line(text).take(text.len() as int) =~= text);
    assert(text.len() >= 16 ==> fixed_line(text) =~= text.take(16));
}

/// `digits` right-aligned in a field of `width` (`{:>width}`): padded with
/// spaces on the left, never cut.
pub open spec fn right_aligned(digits: Seq<u8>, width: nat) -> Seq<u8> {
    if digits.len() < width {
        spaces((width - digits.len()) as nat) + digits
    } else {
        digits
    }
}

/// The text of the first metrics line: `Raw: {:>4}`.
pub open spec fn raw_text(raw: u16) -> Seq<u8> {
    encode_utf8("Raw: "@) + right_aligned(decimal_digits(raw as nat), 4)
}

/// The text of the second metrics line: `Hum: {:>3}% [DRY!]` below 30 %,
/// `Hum: {:>3}% [OK  ]` otherwise.
pub open spec fn humidity_text(percentage: u8) -> Seq<u8> {
    encode_utf8("Hum: "@) + right_aligned(decimal_digits(percentage as nat), 3) + encode_utf8("% ["@)
        + (if percentage < 30 {
        encode_utf8("DRY!"@)
    } else {
        encode_utf8("OK  "@)
    }) + encode_utf8("]"@)
}

/// `OK` for a working link, `! ` otherwise.
pub open spec fn link_text(ok: bool) -> Seq<u8> {
    if ok {
        encode_utf8("OK"@)
    } else {
        encode_utf8("! "@)
    }
}

/// The text of the third metrics line: `W:{}  M:{}`.
pub open spec fn status_text(wifi_ok: bool, mqtt_ok: bool) -> Seq<u8> {
    encode_utf8("W:"@) + link_text(wifi_ok) + encode_utf8("  M:"@) + link_text(mqtt_ok)
}

/// A line of fixed width being written: starts as spaces, and text written
/// into it is cut once the line is full.
pub struct BufferWriter {
    buf: Vec<u8>,
    pos: usize,
}

impl BufferWriter {
    #[verifier::type_invariant]
    spec fn inv(self) -> bool {
        self.pos <= self.buf@.len()
    }

    /// The line's bytes.
    pub closed spec fn bytes(&self) -> Seq<u8> {
        self.buf@
    }

    /// How much has been written.
    pub closed spec fn written(&self) -> nat {
        self.pos as nat
    }

    /// A blank line of `width` bytes.
    pub fn new(width: usize) -> (r: Self)
        ensures
            r.bytes() == spaces(width as nat),
            r.written() == 0,
    {
        let mut buf: Vec<u8> = Vec::new();
        let mut i: usize = 0;
        while i < width
            invariant
                i <= width,
                buf@ == spaces(i as nat),
            decreases width - i,
        {
            buf.push(0x20);
            i = i + 1;
            proof {
                assert(buf@ =~= spaces(i as nat));
            }
        }
        BufferWriter { buf, pos: 0 }
    }

    /// Writes `s` after what is there, cut to the room left.
    pub fn write_str(&mut self, s: &[u8])
        ensures
            final(self).bytes().len() == old(self).bytes().len(),
            final(self).written() == old(self).written() + truncated(
                s@,
                (old(self).bytes().len() - old(self).written()) as nat,
            ).len(),
            final(self).bytes() == old(self).bytes().take(old(self).written() as int) + truncated(
                s@,
                (old(self).bytes().len() - old(self).written()) as nat,
            ) + old(self).bytes().skip(final(self).written() as int),
    {
        proof {
            use_type_invariant(&*self);
        }
        let ghost before = self.buf@;
        let ghost start = self.pos;
        let rem = self.buf.len() - self.pos;
        let to_write = if s.len() < rem {
            s.len()
        } else {
            rem
        };
        let pos = self.pos;
        let mut buf: Vec<u8> = Vec::new();
        self.pos = 0;
        std::mem::swap(&mut buf, &mut self.buf);
        let cap = buf.len();
        let mut i: usize = 0;
        while i < to_write
            invariant
                i <= to_write,
                to_write <= s@.len(),
                pos + to_write <= cap,
                buf@.len() == cap,
                buf@.len() == before.len(),
                buf@.take(pos as int) == before.take(pos as int),
                buf@.subrange(pos as int, pos + i) == s@.take(i as int),
                buf@.skip(pos + to_write) == before.skip(pos + to_write),
            decreases to_write - i,
        {
            let ghost prev = buf@;
            buf.set(pos + i, s[i]);
            i = i + 1;
            proof {
                assert(buf@.take(pos as int) =~= prev.take(pos as int));
                assert(buf@.subrange(pos as int, pos + i) =~= s@.take(i as int));
                assert(buf@.skip(pos + to_write) =~= prev.skip(pos + to_write));
            }
        }
        self.buf = buf;
        self.pos = pos + to_write;
        proof {
            assert(s@.take(to_write as int) =~= truncated(s@, (before.len() - start) as nat));
            assert(self.buf@ =~= before.take(start as int) + truncated(s@, (before.len() - start) as nat)
                + before.skip(self.pos as int)) by {
                assert(self.buf@ =~= self.buf@.take(pos as int) + self.buf@.subrange(pos as int, pos + to_write)
                    + self.buf@.skip(pos + to_write));
            }
        }
    }

    /// The line's bytes.
    pub fn as_bytes(&self) -> (r: &[u8])
        ensures
            r@ == self.bytes(),
    {
        self.buf.as_slice()
    }

    /// The line as text, or the empty text when cutting split a character.
    pub fn as_str(&self) -> (r: &str)
        ensures
            valid_utf8(self.bytes()) ==> r@ == decode_utf8(self.bytes()),
            !valid_utf8(self.bytes()) ==> r@.len() == 0,
    {
        match utf8_text(self.buf.as_slice()) {
            Some(s) => s,
            None => {
                proof {
                    reveal_strlit("");
                }
                ""
            },
        }
    }
}

/// A screen line holding `text`.
pub fn line_with(text: &[u8]) -> (r: BufferWriter)
    ensures
        r.bytes() == fixed_line(text@),
{
    let mut w = BufferWriter::new(LINE_WIDTH);
    w.write_str(text);
    proof {
        assert(w.bytes() =~= fixed_line(text@));
    }
    w
}

/// Appends the decimal digits of `n`.
fn push_decimal(out: &mut Vec<u8>, n: u32)
    ensures
        final(out)@ == old(out)@ + decimal_digits(n as nat),
    decreases n,
{
    if n >= 10 {
        push_decimal(out, n / 10);
    }
    out.push((48 + n % 10) as u8);
    proof {
        assert(final(out)@ =~= old(out)@ + decimal_digits(n as nat));
    }
}

/// Appends `n` right-aligned in a field of `width`.
fn push_right_aligned(out: &mut Vec<u8>, n: u32, width: usize)
    ensures
        final(out)@ == old(out)@ + right_aligned(decimal_digits(n as nat), width as nat),
{
    let mut digits: Vec<u8> = Vec::new();
    push_decimal(&mut digits, n);
    assert(digits@ =~= decimal_digits(n as nat));
    if digits.len() < width {
        let mut i: usize = digits.len();
        let ghost start = out@;
        while i < width
            invariant
                digits@.len() <= i <= width,
                out@ == start + spaces((i - digits@.len()) as nat),
            decreases width - i,
        {
            out.push(0x20);
            i = i + 1;
            proof {
                assert(out@ =~= start + spaces((i - digits@.len()) as nat));
            }
        }
    }
    push_text(out, digits.as_slice());
    proof {
        assert(final(out)@ =~= old(out)@ + right_aligned(decimal_digits(n as nat), width as nat));
    }
}

/// Appends `s`.
fn push_text(out: &mut Vec<u8>, s: &[u8])
    ensures
        final(out)@ == old(out)@ + s@,
{
    let mut i: usize = 0;
    while i < s.len()
        invariant
            i <= s@.len(),
            out@ == old(out)@ + s@.take(i as int),
        decreases s@.len() - i,
    {
        out.push(s[i]);
        i = i + 1;
        proof {
            assert(s@.take(i as int) =~= s@.take(i - 1).push(s@[i - 1]));
        }
    }
    proof {
        assert(s@.take(i as int) =~= s@);
    }
}

/// The three lines of the boot screen: `PLANTY`, the step and its detail,
/// each cut to the line width.
pub fn boot_lines(step: &str, detail: &str) -> (r: (BufferWriter, BufferWriter, BufferWriter))
    ensures
        r.0.bytes() == fixed_line(encode_utf8("PLANTY"@)),
        r.1.bytes() == fixed_line(step.spec_bytes()),
        r.2.bytes() == fixed_line(detail.spec_bytes()),
{
    (line_with("PLANTY".as_bytes()), line_with(step.as_bytes()), line_with(detail.as_bytes()))
}

/// The three lines of the metrics screen: the raw reading, the humidity with
/// a dryness flag, and the state of the Wi-Fi and MQTT links.
pub fn metrics_lines(raw: u16, percentage: u8, wifi_ok: bool, mqtt_ok: bool) -> (r: (
    BufferWriter,
    BufferWriter,
    BufferWriter,
))
    ensures
        r.0.bytes() == fixed_line(raw_text(raw)),
        r.1.bytes() == fixed_line(humidity_text(percentage)),
        r.2.bytes() == fixed_line(status_text(wifi_ok, mqtt_ok)),
{
    let mut t1: Vec<u8> = Vec::new();
    push_text(&mut t1, "Raw: ".as_bytes());
    push_right_aligned(&mut t1, raw as u32, 4);
    let mut t2: Vec<u8> = Vec::new();
    push_text(&mut t2, "Hum: ".as_bytes());
    push_right_aligned(&mut t2, percentage as u32, 3);
    push_text(&mut t2, "% [".as_bytes());
    let state = if percentage < 30 {
        "DRY!"
    } else {
        "OK  "
    };
    push_text(&mut t2, state.as_bytes());
    push_text(&mut t2, "]".as_bytes());
    let w = if wifi_ok {
        "OK"
    } else {
        "! "
    };
    let m = if mqtt_ok {
        "OK"
    } else {
        "! "
    };
    let mut t3: Vec<u8> = Vec::new();
    push_text(&mut t3, "W:".as_bytes());
    push_text(&mut t3, w.as_bytes());
    push_text(&mut t3, "  M:".as_bytes());
    push_text(&mut t3, m.as_bytes());
    proof {
        assert(t1@ =~= raw_text(raw));
        assert(t2@ =~= humidity_text(percentage));
        assert(t3@ =~= status_text(wifi_ok, mqtt_ok));
    }
    (line_with(t1.as_slice()), line_with(t2.as_slice()), line_with(t3.as_slice()))
}

/// ASCII text encodes to its bytes one for one.
proof fn lemma_ascii_bytes(chars: Seq<char>, bytes: Seq<u8>)
    requires
        chars.len() == bytes.len(),
        forall|i: int| 0 <= i < chars.len() ==> chars[i] as int == bytes[i] as int && bytes[i] < 128,
    ensures
        encode_utf8(chars) == bytes,
{
    assert forall|i: int| 0 <= i < chars.len() implies '\0' <= #[trigger] chars[i] <= '\u{7f}' by {
        assert(chars[i] as int == bytes[i] as int);
    }
    assert(is_ascii_chars(chars));
    is_ascii_chars_encode_utf8(chars);
    assert(encode_utf8(chars) =~= bytes);
}

/// The humidity line is always exactly the line width (so the screen shows
/// it whole), and its flag reads `[DRY!]` exactly when the humidity is below
/// 30 % (0 % included) and `[OK  ]` otherwise.
pub proof fn law_humidity_flag(percentage: u8)
    ensures
        humidity_text(percentage).len() == 16,
        fixed_line(humidity_text(percentage)) == humidity_text(percentage),
        humidity_text(percentage).subrange(10, 16) == (if percentage < 30 {
            seq![0x5Bu8, 0x44u8, 0x52u8, 0x59u8, 0x21u8, 0x5Du8]
        } else {
            seq![0x5Bu8, 0x4Fu8, 0x4Bu8, 0x20u8, 0x20u8, 0x5Du8]
        }),
{
    reveal_strlit("Hum: ");
    reveal_strlit("% [");
    reveal_strlit("DRY!");
    reveal_strlit("OK  ");
    reveal_strlit("]");
    lemma_ascii_bytes("Hum: "@, seq![0x48u8, 0x75u8, 0x6Du8, 0x3Au8, 0x20u8]);
    lemma_ascii_bytes("% ["@, seq![0x25u8, 0x20u8, 0x5Bu8]);
    lemma_ascii_bytes("DRY!"@, seq![0x44u8, 0x52u8, 0x59u8, 0x21u8]);
    lemma_ascii_bytes("OK  "@, seq![0x4Fu8, 0x4Bu8, 0x20u8, 0x20u8]);
    lemma_ascii_bytes("]"@, seq![0x5Du8]);
    crate::control::lemma_decimal_digits_len(percentage as nat);
    let digits = right_aligned(decimal_digits(percentage as nat), 3);
    assert(digits.len() == 3);
    let t = humidity_text(percentage);
    assert(t.len() == 16);
    assert(t.subrange(10, 16) =~= (if percentage < 30 {
        seq![0x5Bu8, 0x44u8, 0x52u8, 0x59u8, 0x21u8, 0x5Du8]
    } else {
        seq![0x5Bu8, 0x4Fu8, 0x4Bu8, 0x20u8, 0x20u8, 0x5Du8]
    }));
    assert(fixed_line(t) =~= t);
}

} // verus!
