use vstd::prelude::*;
use vstd::string::*;
use vstd::utf8::*;
use crate::mqtt::{ArrayBuf, MqttEvent, utf8_text};
use crate::servo::ServoState;
use crate::soil::State;

verus! {

/// The ASCII decimal digits of `n`, most significant first, without leading
/// zeros ("0" for zero).
pub open spec fn decimal_digits(n: nat) -> Seq<u8>
    decreases n,
{
    if n < 10 {
        seq![(48 + n) as u8]
    } else {
        decimal_digits(n / 10).push((48 + n % 10) as u8)
    }
}

/// How many decimal digits small numbers have.
pub proof fn lemma_decimal_digits_len(n: nat)
    ensures
        1 <= decimal_digits(n).len(),
        n < 10 ==> decimal_digits(n).len() == 1,
        10 <= n < 100 ==> decimal_digits(n).len() == 2,
        100 <= n < 1000 ==> decimal_digits(n).len() == 3,
        1000 <= n < 10000 ==> decimal_digits(n).len() == 4,
        10000 <= n < 100000 ==> decimal_digits(n).len() == 5,
    decreases n,
{
    if n >= 10 {
        lemma_decimal_digits_len(n / 10);
    }
}

/// The decimal digits of `n` as text.
pub open spec fn decimal_text(n: nat) -> Seq<char> {
    decimal_digits(n).map_values(|b: u8| b as char)
}

/// The digits written for a number are ASCII digits `0`..=`9`, with no
/// leading zero, and read back, most significant first, as the number.
pub proof fn law_decimal_digits_read_back(n: nat)
    ensures
        forall|i: int| 0 <= i < decimal_digits(n).len() ==> 48 <= #[trigger] decimal_digits(n)[i] <= 57,
        forall|i: int| 0 <= i < decimal_text(n).len() ==> '0' <= #[trigger] decimal_text(n)[i] <= '9',
        digits_value(decimal_text(n)) == n,
        n > 0 ==> decimal_digits(n)[0] != 48,
    decreases n,
{
    lemma_decimal_digits_len(n);
    if n < 10 {
        let d = (48 + n) as u8;
        assert(decimal_text(n) =~= seq![d as char]);
        assert(decimal_text(n).drop_last() =~= Seq::<char>::empty());
        assert((d as char) as nat == d as nat);
        assert(digits_value(decimal_text(n).drop_last()) == 0);
        assert(decimal_text(n).last() == d as char);
    } else {
        law_decimal_digits_read_back(n / 10);
        let d = (48 + n % 10) as u8;
        assert(decimal_digits(n) == decimal_digits(n / 10).push(d));
        assert(decimal_text(n) =~= decimal_text(n / 10).push(d as char));
        assert(decimal_text(n).drop_last() =~= decimal_text(n / 10));
        assert((d as char) as nat == d as nat);
        assert(decimal_text(n).last() == d as char);
        assert(digits_value(decimal_text(n)) == digits_value(decimal_text(n / 10)) * 10 + n % 10);
        assert(decimal_digits(n)[0] == decimal_digits(n / 10)[0]);
        assert forall|i: int| 0 <= i < decimal_digits(n).len() implies 48 <= #[trigger] decimal_digits(n)[i]
            <= 57 by {
            if i < decimal_digits(n / 10).len() {
                assert(decimal_digits(n)[i] == decimal_digits(n / 10)[i]);
            }
        }
    }
}

/// Every number that fits 16 bits, written in decimal, parses back to
/// itself: each of the digits `0` to `9` is read as its value.
pub proof fn law_parse_u16_reads_decimal(n: nat)
    requires
        n <= 65535,
    ensures
        parse_u16(decimal_text(n)) == Some(n as u16),
{
    law_decimal_digits_read_back(n);
    lemma_decimal_digits_len(n);
    let d = decimal_text(n);
    assert('0' <= d[0] <= '9');
    assert(without_plus(d) == d);
    assert(all_digits(d));
}

/// Writes `val` in decimal at the front of `buf` and returns the number of
/// digits written.
pub fn format_number(val: u8, buf: &mut [u8]) -> (n: usize)
    requires
        decimal_digits(val as nat).len() <= old(buf)@.len(),
    ensures
        n == decimal_digits(val as nat).len(),
        final(buf)@.len() == old(buf)@.len(),
        final(buf)@.take(n as int) == decimal_digits(val as nat),
        final(buf)@.skip(n as int) == old(buf)@.skip(n as int),
{
    proof {
        lemma_decimal_digits_len(val as nat);
    }
    if val == 0 {
        buf[0] = 48; // '0'
        proof {
            assert(buf@.take(1) =~= decimal_digits(0));
            assert(buf@.skip(1) =~= old(buf)@.skip(1));
        }
        return 1;
    }
    let mut tmp: [u8; 3] = [0u8; 3];
    let mut i: usize = 0;
    let mut v: u8 = val;
    // Digits already produced, most significant first.
    let ghost mut done: Seq<u8> = Seq::empty();
    while v > 0
        invariant
            i <= 3,
            done.len() == i,
            v == 0 ==> done == decimal_digits(val as nat),
            v > 0 ==> decimal_digits(val as nat) == decimal_digits(v as nat) + done,
            v > 0 ==> i + decimal_digits(v as nat).len() <= 3,
            forall|k: int| 0 <= k < i ==> tmp@[k] == done[i - 1 - k],
        decreases v,
    {
        proof {
            lemma_decimal_digits_len(v as nat);
            lemma_decimal_digits_len((v / 10) as nat);
        }
        let digit: u8 = 48 + v % 10;
        tmp[i] = digit;
        let ghost before = done;
        proof {
            done = seq![digit] + done;
            if v >= 10 {
                assert(decimal_digits(v as nat) == decimal_digits((v / 10) as nat).push(digit));
                assert(decimal_digits(v as nat) + before =~= decimal_digits((v / 10) as nat) + done);
            } else {
                assert(decimal_digits(v as nat) =~= seq![digit]);
            }
        }
        v = v / 10;
        i = i + 1;
    }
    let mut j: usize = 0;
    let count = i;
    while i > 0
        invariant
            i + j == count,
            count == done.len(),
            done == decimal_digits(val as nat),
            count <= 3,
            count <= buf@.len(),
            buf@.len() == old(buf)@.len(),
            forall|k: int| 0 <= k < count ==> tmp@[k] == done[count - 1 - k],
            buf@.take(j as int) == done.take(j as int),
            buf@.skip(count as int) == old(buf)@.skip(count as int),
        decreases i,
    {
        i = i - 1;
        let ghost prev = buf@;
        buf[j] = tmp[i];
        j = j + 1;
        proof {
            assert(buf@.take(j as int) =~= prev.take(j - 1).push(done[j - 1]));
            assert(done.take(j as int) =~= done.take(j - 1).push(done[j - 1]));
            assert(buf@.skip(count as int) =~= prev.skip(count as int));
        }
    }
    proof {
        assert(done.take(j as int) =~= done);
    }
    j
}


/// `char::is_whitespace`: the characters with the Unicode White_Space
/// property, which `str::trim` removes.
pub open spec fn is_white_space(c: char) -> bool {
    let u = c as u32;
    ||| 0x09 <= u <= 0x0D
    ||| u == 0x20
    ||| u == 0x85
    ||| u == 0xA0
    ||| u == 0x1680
    ||| 0x2000 <= u <= 0x200A
    ||| u == 0x2028
    ||| u == 0x2029
    ||| u == 0x202F
    ||| u == 0x205F
    ||| u == 0x3000
}

/// White space removed at the start.
pub open spec fn trim_start(s: Seq<char>) -> Seq<char>
    decreases s.len(),
{
    if s.len() > 0 && is_white_space(s[0]) {
        trim_start(s.drop_first())
    } else {
        s
    }
}

/// White space removed at the end.
pub open spec fn trim_end(s: Seq<char>) -> Seq<char>
    decreases s.len(),
{
    if s.len() > 0 && is_white_space(s.last()) {
        trim_end(s.drop_last())
    } else {
        s
    }
}

/// `str::trim`: white space removed at both ends.
pub open spec fn trim(s: Seq<char>) -> Seq<char> {
    trim_end(trim_start(s))
}

/// `trim_start_matches(':')`: every leading colon removed.
pub open spec fn strip_colons(s: Seq<char>) -> Seq<char>
    decreases s.len(),
{
    if s.len() > 0 && s[0] == ':' {
        strip_colons(s.drop_first())
    } else {
        s
    }
}

/// `str::split(',')`: the pieces between commas, empty ones included (one
/// empty piece for the empty text).
pub open spec fn split_commas(s: Seq<char>) -> Seq<Seq<char>>
    decreases s.len(),
{
    if s.len() == 0 {
        seq![Seq::<char>::empty()]
    } else {
        let parts = split_commas(s.drop_last());
        if s.last() == ',' {
            parts.push(Seq::<char>::empty())
        } else {
            parts.update(parts.len() - 1, parts.last().push(s.last()))
        }
    }
}

/// An ASCII decimal digit.
pub open spec fn is_digit(c: char) -> bool {
    '0' <= c <= '9'
}

/// The number written by the decimal digits `s`.
pub open spec fn digits_value(s: Seq<char>) -> nat
    decreases s.len(),
{
    if s.len() == 0 {
        0
    } else {
        digits_value(s.drop_last()) * 10 + (s.last() as nat - 48) as nat
    }
}

/// `str::parse::<u16>`: an optional `+` then one or more decimal digits
/// whose value fits 16 bits.
pub open spec fn parse_u16(s: Seq<char>) -> Option<u16> {
    let d = without_plus(s);
    if d.len() == 0 || !all_digits(d) || digits_value(d) > 65535 {
        None
    } else {
        Some(digits_value(d) as u16)
    }
}

/// `s` without one leading `+`, if it has one.
pub open spec fn without_plus(s: Seq<char>) -> Seq<char> {
    if s.len() > 0 && s[0] == '+' {
        s.drop_first()
    } else {
        s
    }
}

/// Every character a decimal digit.
pub open spec fn all_digits(d: Seq<char>) -> bool {
    forall|i: int| 0 <= i < d.len() ==> is_digit(#[trigger] d[i])
}

/// Whether `s` begins with `prefix`.
pub open spec fn starts_with(s: Seq<char>, prefix: Seq<char>) -> bool {
    prefix.len() <= s.len() && s.take(prefix.len() as int) == prefix
}

/// The value after a key: blanks, any colons, blanks, then a `u16`.
pub open spec fn field_value(rest: Seq<char>) -> Option<u16> {
    parse_u16(trim(strip_colons(trim(rest))))
}

/// The key `"dry"`.
pub open spec fn quoted_dry() -> Seq<char> {
    seq!['"', 'd', 'r', 'y', '"']
}

/// The key `dry`.
pub open spec fn bare_dry() -> Seq<char> {
    seq!['d', 'r', 'y']
}

/// The key `"wet"`.
pub open spec fn quoted_wet() -> Seq<char> {
    seq!['"', 'w', 'e', 't', '"']
}

/// The key `wet`.
pub open spec fn bare_wet() -> Seq<char> {
    seq!['w', 'e', 't']
}

/// The effect of one comma-separated part on the (dry, wet) values found so
/// far: a part keyed `"dry"` or `dry` (or `"wet"`/`wet`) sets that value to
/// what follows the key, `None` when it does not parse; other parts change
/// nothing.
pub open spec fn apply_part(acc: (Option<u16>, Option<u16>), part: Seq<char>) -> (Option<u16>, Option<u16>) {
    let p = trim(part);
    if starts_with(p, quoted_dry()) {
        (field_value(p.skip(5)), acc.1)
    } else if starts_with(p, bare_dry()) {
        (field_value(p.skip(3)), acc.1)
    } else if starts_with(p, quoted_wet()) {
        (acc.0, field_value(p.skip(5)))
    } else if starts_with(p, bare_wet()) {
        (acc.0, field_value(p.skip(3)))
    } else {
        acc
    }
}

/// The (dry, wet) values after taking every part into account, in order.
pub open spec fn scan_parts(parts: Seq<Seq<char>>) -> (Option<u16>, Option<u16>)
    decreases parts.len(),
{
    if parts.len() == 0 {
        (None, None)
    } else {
        apply_part(scan_parts(parts.drop_last()), parts.last())
    }
}

/// The calibration message `{dry: <u16>, wet: <u16>}` (keys quoted or not,
/// in any order, the last one of each winning): `Some((dry, wet))` when the
/// trimmed text is braced and both values parse.
pub open spec fn spec_parse_calibration(json: Seq<char>) -> Option<(u16, u16)> {
    let t = trim(json);
    if t.len() == 0 || t[0] != '{' || t.last() != '}' {
        None
    } else {
        match scan_parts(split_commas(t.subrange(1, t.len() - 1))) {
            (Some(dry), Some(wet)) => Some((dry, wet)),
            _ => None,
        }
    }
}

fn is_white_space_char(c: char) -> (r: bool)
    ensures
        r == is_white_space(c),
{
    let u = c as u32;
    (0x09 <= u && u <= 0x0D) || u == 0x20 || u == 0x85 || u == 0xA0 || u == 0x1680 || (0x2000 <= u && u
        <= 0x200A) || u == 0x2028 || u == 0x2029 || u == 0x202F || u == 0x205F || u == 0x3000
}

/// The characters of `text`.
fn text_chars(text: &str) -> (r: Vec<char>)
    ensures
        r@ == text@,
{
    let n = text.unicode_len();
    let mut out: Vec<char> = Vec::new();
    let mut i: usize = 0;
    while i < n
        invariant
            n == text@.len(),
            i <= n,
            out@ == text@.take(i as int),
        decreases n - i,
    {
        out.push(text.get_char(i));
        i = i + 1;
        proof {
            assert(out@ =~= text@.take(i as int));
        }
    }
    proof {
        assert(text@.take(n as int) =~= text@);
    }
    out
}

/// The bounds of `chars[lo..hi]` with white space trimmed at both ends.
fn trim_range(chars: &Vec<char>, lo: usize, hi: usize) -> (r: (usize, usize))
    requires
        lo <= hi <= chars@.len(),
    ensures
        lo <= r.0 <= r.1 <= hi,
        chars@.subrange(r.0 as int, r.1 as int) == trim(chars@.subrange(lo as int, hi as int)),
{
    let mut a = lo;
    while a < hi && is_white_space_char(chars[a])
        invariant
            lo <= a <= hi <= chars@.len(),
            trim_start(chars@.subrange(lo as int, hi as int)) == trim_start(chars@.subrange(a as int, hi as int)),
        decreases hi - a,
    {
        proof {
            assert(chars@.subrange(a as int, hi as int).drop_first() =~= chars@.subrange(a + 1, hi as int));
        }
        a = a + 1;
    }
    let mut b = hi;
    while b > a && is_white_space_char(chars[b - 1])
        invariant
            lo <= a <= b <= hi <= chars@.len(),
            trim_start(chars@.subrange(lo as int, hi as int)) == chars@.subrange(a as int, hi as int),
            trim_end(chars@.subrange(a as int, hi as int)) == trim_end(chars@.subrange(a as int, b as int)),
        decreases b - a,
    {
        proof {
            assert(chars@.subrange(a as int, b as int).drop_last() =~= chars@.subrange(a as int, b - 1));
        }
        b = b - 1;
    }
    (a, b)
}

/// The start of `chars[lo..hi]` after its leading colons.
fn skip_colons(chars: &Vec<char>, lo: usize, hi: usize) -> (a: usize)
    requires
        lo <= hi <= chars@.len(),
    ensures
        lo <= a <= hi,
        chars@.subrange(a as int, hi as int) == strip_colons(chars@.subrange(lo as int, hi as int)),
{
    let mut a = lo;
    while a < hi && chars[a] == ':'
        invariant
            lo <= a <= hi <= chars@.len(),
            strip_colons(chars@.subrange(lo as int, hi as int)) == strip_colons(chars@.subrange(a as int, hi as int)),
        decreases hi - a,
    {
        proof {
            assert(chars@.subrange(a as int, hi as int).drop_first() =~= chars@.subrange(a + 1, hi as int));
        }
        a = a + 1;
    }
    a
}

/// Whether `chars[lo..hi]` starts with `prefix`.
fn starts_with_at(chars: &Vec<char>, lo: usize, hi: usize, prefix: &[char]) -> (r: bool)
    requires
        lo <= hi <= chars@.len(),
    ensures
        r == starts_with(chars@.subrange(lo as int, hi as int), prefix@),
{
    if prefix.len() > hi - lo {
        return false;
    }
    let mut i: usize = 0;
    while i < prefix.len()
        invariant
            prefix@.len() <= hi - lo,
            lo <= hi <= chars@.len(),
            i <= prefix@.len(),
            forall|k: int| 0 <= k < i ==> chars@[lo + k] == prefix@[k],
        decreases prefix@.len() - i,
    {
        if chars[lo + i] != prefix[i] {
            proof {
                assert(chars@.subrange(lo as int, hi as int).take(prefix@.len() as int)[i as int] != prefix@[i as int]);
            }
            return false;
        }
        i = i + 1;
    }
    proof {
        assert(chars@.subrange(lo as int, hi as int).take(prefix@.len() as int) =~= prefix@);
    }
    true
}

/// A number written in digits is at least the number its prefix writes.
pub proof fn lemma_digits_value_grows(s: Seq<char>, k: int)
    requires
        0 <= k <= s.len(),
        all_digits(s),
    ensures
        digits_value(s.take(k)) <= digits_value(s),
    decreases s.len() - k,
{
    if k < s.len() {
        lemma_digits_value_grows(s, k + 1);
        assert(s.take(k + 1).drop_last() =~= s.take(k));
    } else {
        assert(s.take(k) =~= s);
    }
}

/// Splitting always gives at least one part.
pub proof fn lemma_split_commas_nonempty(s: Seq<char>)
    ensures
        split_commas(s).len() >= 1,
    decreases s.len(),
{
    if s.len() > 0 {
        lemma_split_commas_nonempty(s.drop_last());
    }
}

/// `chars[lo..hi]` read as a `u16` the way `str::parse` reads it.
fn parse_u16_range(chars: &Vec<char>, lo: usize, hi: usize) -> (r: Option<u16>)
    requires
        lo <= hi <= chars@.len(),
    ensures
        r == parse_u16(chars@.subrange(lo as int, hi as int)),
{
    let ghost s = chars@.subrange(lo as int, hi as int);
    let mut start = lo;
    if lo < hi && chars[lo] == '+' {
        start = lo + 1;
    }
    let ghost d = chars@.subrange(start as int, hi as int);
    proof {
        if lo < hi && chars@[lo as int] == '+' {
            assert(d =~= s.drop_first());
        } else {
            assert(d =~= s);
        }
        assert(d == without_plus(s));
    }
    if start == hi {
        return None;
    }
    let mut value: u32 = 0;
    let mut i = start;
    while i < hi
        invariant
            lo <= start <= i <= hi <= chars@.len(),
            d == chars@.subrange(start as int, hi as int),
            s == chars@.subrange(lo as int, hi as int),
            d == without_plus(s),
            d.len() > 0,
            forall|k: int| 0 <= k < i - start ==> is_digit(#[trigger] d[k]),
            value == digits_value(d.take(i - start)),
            value <= 65535,
        decreases hi - i,
    {
        let c = chars[i];
        if !('0' <= c && c <= '9') {
            proof {
                assert(d[i - start] == c);
                assert(!is_digit(d[i - start]));
                assert(!all_digits(d));
            }
            return None;
        }
        let digit = (c as u32) - 48;
        proof {
            assert(d.take(i - start + 1).drop_last() =~= d.take(i - start));
            assert(d.take(i - start + 1).last() == c);
        }
        value = value * 10 + digit;
        i = i + 1;
        assert(value == digits_value(d.take(i - start)));
        if value > 65535 {
            proof {
                if all_digits(d) {
                    lemma_digits_value_grows(d, i - start);
                }
            }
            return None;
        }
    }
    proof {
        assert(d.take(i - start) =~= d);
    }
    Some(value as u16)
}

/// The (dry, wet) values after taking the part `chars[lo..hi]` into account.
fn calibration_part(chars: &Vec<char>, lo: usize, hi: usize, acc: (Option<u16>, Option<u16>)) -> (r: (
    Option<u16>,
    Option<u16>,
))
    requires
        lo <= hi <= chars@.len(),
    ensures
        r == apply_part(acc, chars@.subrange(lo as int, hi as int)),
{
    let (a, b) = trim_range(chars, lo, hi);
    let ghost p = chars@.subrange(a as int, b as int);
    let quoted_dry_key = ['"', 'd', 'r', 'y', '"'];
    let dry_key = ['d', 'r', 'y'];
    let quoted_wet_key = ['"', 'w', 'e', 't', '"'];
    let wet_key = ['w', 'e', 't'];
    proof {
        assert(quoted_dry_key@ =~= quoted_dry());
        assert(dry_key@ =~= bare_dry());
        assert(quoted_wet_key@ =~= quoted_wet());
        assert(wet_key@ =~= bare_wet());
    }
    if starts_with_at(chars, a, b, quoted_dry_key.as_slice()) {
        proof {
            assert(p.skip(5) =~= chars@.subrange(a + 5, b as int));
        }
        (field_value_range(chars, a + 5, b), acc.1)
    } else if starts_with_at(chars, a, b, dry_key.as_slice()) {
        proof {
            assert(p.skip(3) =~= chars@.subrange(a + 3, b as int));
        }
        (field_value_range(chars, a + 3, b), acc.1)
    } else if starts_with_at(chars, a, b, quoted_wet_key.as_slice()) {
        proof {
            assert(p.skip(5) =~= chars@.subrange(a + 5, b as int));
        }
        (acc.0, field_value_range(chars, a + 5, b))
    } else if starts_with_at(chars, a, b, wet_key.as_slice()) {
        proof {
            assert(p.skip(3) =~= chars@.subrange(a + 3, b as int));
        }
        (acc.0, field_value_range(chars, a + 3, b))
    } else {
        acc
    }
}

/// The value that follows a key in `chars[lo..hi]`.
fn field_value_range(chars: &Vec<char>, lo: usize, hi: usize) -> (r: Option<u16>)
    requires
        lo <= hi <= chars@.len(),
    ensures
        r == field_value(chars@.subrange(lo as int, hi as int)),
{
    let (a, b) = trim_range(chars, lo, hi);
    let c = skip_colons(chars, a, b);
    let (d, e) = trim_range(chars, c, b);
    parse_u16_range(chars, d, e)
}

/// The (dry, wet) values found in the comma-separated parts of
/// `chars[inner_lo..inner_hi]`.
fn scan_calibration_parts(chars: &Vec<char>, inner_lo: usize, inner_hi: usize) -> (acc: (Option<u16>, Option<u16>))
    requires
        inner_lo <= inner_hi <= chars@.len(),
    ensures
        acc == scan_parts(split_commas(chars@.subrange(inner_lo as int, inner_hi as int))),
{
    let ghost inner = chars@.subrange(inner_lo as int, inner_hi as int);
    let mut acc: (Option<u16>, Option<u16>) = (None, None);
    let mut part_start = inner_lo;
    let mut i = inner_lo;
    proof {
        lemma_split_commas_nonempty(chars@.subrange(inner_lo as int, i as int));
        assert(chars@.subrange(inner_lo as int, i as int) =~= Seq::<char>::empty());
        assert(chars@.subrange(part_start as int, i as int) =~= Seq::<char>::empty());
    }
    while i < inner_hi
        invariant
            inner_lo <= part_start <= i <= inner_hi <= chars@.len(),
            inner == chars@.subrange(inner_lo as int, inner_hi as int),
            split_commas(chars@.subrange(inner_lo as int, i as int)).len() >= 1,
            split_commas(chars@.subrange(inner_lo as int, i as int)).last() == chars@.subrange(
                part_start as int,
                i as int,
            ),
            acc == scan_parts(split_commas(chars@.subrange(inner_lo as int, i as int)).drop_last()),
        decreases inner_hi - i,
    {
        let ghost parts = split_commas(chars@.subrange(inner_lo as int, i as int));
        let ghost next = chars@.subrange(inner_lo as int, i + 1);
        proof {
            assert(next.drop_last() =~= chars@.subrange(inner_lo as int, i as int));
            assert(next.last() == chars@[i as int]);
            lemma_split_commas_nonempty(next);
        }
        if chars[i] == ',' {
            acc = calibration_part(chars, part_start, i, acc);
            proof {
                assert(split_commas(next).drop_last() =~= parts);
                assert(parts =~= parts.drop_last().push(parts.last()));
                assert(chars@.subrange(i + 1, i + 1) =~= Seq::<char>::empty());
            }
            part_start = i + 1;
        } else {
            proof {
                assert(split_commas(next).drop_last() =~= parts.drop_last());
                assert(chars@.subrange(part_start as int, i + 1) =~= chars@.subrange(part_start as int, i as int).push(
                    chars@[i as int],
                ));
            }
        }
        i = i + 1;
    }
    proof {
        let parts = split_commas(inner);
        assert(parts =~= parts.drop_last().push(parts.last()));
    }
    acc = calibration_part(chars, part_start, inner_hi, acc);
    acc
}

/// Reads a calibration message such as `{"dry": 3263, "wet": 1610}`:
/// `Some((dry, wet))` when the trimmed text is braced and both values are
/// found and parse as `u16`.
pub fn parse_calibration(json: &str) -> (r: Option<(u16, u16)>)
    ensures
        r == spec_parse_calibration(json@),
{
    let chars = text_chars(json);
    let (lo, hi) = trim_range(&chars, 0, chars.len());
    let ghost t = chars@.subrange(lo as int, hi as int);
    proof {
        assert(chars@.subrange(0, chars@.len() as int) =~= json@);
    }
    if lo == hi || chars[lo] != '{' || chars[hi - 1] != '}' {
        return None;
    }
    let acc = scan_calibration_parts(&chars, lo + 1, hi - 1);
    proof {
        assert(t.subrange(1, t.len() - 1) =~= chars@.subrange(lo + 1, hi - 1));
    }
    match acc {
        (Some(dry), Some(wet)) => Some((dry, wet)),
        _ => None,
    }
}

/// The calibration message `{"dry": <dry>, "wet": <wet>}`, both values in
/// decimal.
pub open spec fn calibration_message(dry: nat, wet: nat) -> Seq<char> {
    seq!['{'] + quoted_dry() + seq![':', ' '] + decimal_text(dry) + seq![',', ' '] + quoted_wet() + seq![
        ':',
        ' ',
    ] + decimal_text(wet) + seq!['}']
}

/// Text after the last comma, when it holds none, extends the last piece.
proof fn lemma_split_commas_extend(a: Seq<char>, b: Seq<char>)
    requires
        forall|i: int| 0 <= i < b.len() ==> b[i] != ',',
    ensures
        split_commas(a + b) == split_commas(a).update(
            split_commas(a).len() - 1,
            split_commas(a).last() + b,
        ),
    decreases b.len(),
{
    lemma_split_commas_nonempty(a);
    let p = split_commas(a);
    if b.len() == 0 {
        assert(a + b =~= a);
        assert(p.last() + b =~= p.last());
        assert(p.update(p.len() - 1, p.last() + b) =~= p);
    } else {
        let b1 = b.drop_last();
        lemma_split_commas_extend(a, b1);
        assert((a + b).drop_last() =~= a + b1);
        assert((a + b).last() == b.last());
        let q = split_commas(a + b1);
        assert(q.last() == p.last() + b1);
        assert(q.last().push(b.last()) =~= p.last() + b);
        assert(q.update(q.len() - 1, q.last().push(b.last())) =~= p.update(p.len() - 1, p.last() + b));
    }
}

/// The digits of a number are neither blanks, colons nor commas.
proof fn lemma_decimal_text_chars(n: nat)
    ensures
        decimal_text(n).len() >= 1,
        forall|i: int|
            0 <= i < decimal_text(n).len() ==> !is_white_space(#[trigger] decimal_text(n)[i])
                && decimal_text(n)[i] != ':' && decimal_text(n)[i] != ',' && decimal_text(n)[i] != '+',
{
    law_decimal_digits_read_back(n);
    lemma_decimal_digits_len(n);
    assert forall|i: int| 0 <= i < decimal_text(n).len() implies !is_white_space(
        #[trigger] decimal_text(n)[i],
    ) && decimal_text(n)[i] != ':' && decimal_text(n)[i] != ',' && decimal_text(n)[i] != '+' by {
        let c = decimal_text(n)[i];
        assert('0' <= c <= '9');
        assert(48 <= c as u32 <= 57);
    }
}

/// What follows a key, `: ` and a number in decimal, is that number.
proof fn lemma_field_value_decimal(n: nat)
    requires
        n <= 65535,
    ensures
        field_value(seq![':', ' '] + decimal_text(n)) == Some(n as u16),
{
    let d = decimal_text(n);
    lemma_decimal_text_chars(n);
    law_parse_u16_reads_decimal(n);
    let s = seq![':', ' '] + d;
    assert(!is_white_space(s.last()));
    assert(trim_start(s) == s);
    assert(trim_end(s) == s);
    let s1 = s.drop_first();
    assert(s1 =~= seq![' '] + d);
    assert(strip_colons(s1) == s1);
    assert(strip_colons(s) == s1);
    assert(s1.drop_first() =~= d);
    assert(trim_start(d) == d);
    assert(trim_start(s1) == d);
    assert(trim_end(d) == d);
}

/// A calibration message written with any two 16-bit values, in the form
/// `{"dry": <dry>, "wet": <wet>}`, is read back as exactly those values.
pub proof fn law_calibration_message_roundtrip(dry: u16, wet: u16)
    ensures
        spec_parse_calibration(calibration_message(dry as nat, wet as nat)) == Some((dry, wet)),
{
    let m = calibration_message(dry as nat, wet as nat);
    let dd = decimal_text(dry as nat);
    let wd = decimal_text(wet as nat);
    lemma_decimal_text_chars(dry as nat);
    lemma_decimal_text_chars(wet as nat);
    lemma_field_value_decimal(dry as nat);
    lemma_field_value_decimal(wet as nat);
    assert(m[0] == '{');
    assert(m.last() == '}');
    assert(trim_start(m) == m);
    assert(trim_end(m) == m);
    let a = quoted_dry() + seq![':', ' '] + dd;
    let b = seq![' '] + quoted_wet() + seq![':', ' '] + wd;
    let inner = m.subrange(1, m.len() - 1);
    assert(inner =~= a.push(',') + b);
    assert forall|i: int| 0 <= i < b.len() implies b[i] != ',' by {
        if i >= b.len() - wd.len() {
            assert(b[i] == wd[i - (b.len() - wd.len())]);
        }
    }
    assert forall|i: int| 0 <= i < a.len() implies a[i] != ',' by {
        if i >= 7 {
            assert(a[i] == dd[i - 7]);
        }
    }
    lemma_split_commas_extend(a.push(','), b);
    lemma_split_commas_extend(Seq::<char>::empty(), a);
    assert(Seq::<char>::empty() + a =~= a);
    assert(split_commas(Seq::<char>::empty()) == seq![Seq::<char>::empty()]);
    assert(split_commas(a) =~= seq![a]);
    assert(a.push(',').drop_last() =~= a);
    assert(split_commas(a.push(',')) =~= seq![a, Seq::<char>::empty()]);
    let parts = split_commas(inner);
    assert(parts =~= seq![a, b]);
    assert(parts.drop_last() =~= seq![a]);
    assert(seq![a].drop_last() =~= Seq::<Seq<char>>::empty());
    // The first part: `"dry": <dry>`.
    assert(a.last() == dd.last());
    assert(trim_start(a) == a);
    assert(trim_end(a) == a);
    assert(a.take(5) =~= quoted_dry());
    assert(a.skip(5) =~= seq![':', ' '] + dd);
    assert(apply_part((None, None), a) == (Some(dry), None::<u16>));
    // The second part: ` "wet": <wet>`.
    let bq = quoted_wet() + seq![':', ' '] + wd;
    assert(b.drop_first() =~= bq);
    assert(trim_start(bq) == bq);
    assert(trim_start(b) == bq);
    assert(bq.last() == wd.last());
    assert(trim_end(bq) == bq);
    assert(bq.take(5) =~= quoted_wet());
    assert(bq.take(5)[1] != quoted_dry()[1]);
    assert(bq.take(3)[0] != bare_dry()[0]);
    assert(bq.skip(5) =~= seq![':', ' '] + wd);
    assert(apply_part((Some(dry), None), b) == (Some(dry), Some(wet)));
    assert(scan_parts(Seq::<Seq<char>>::empty()) == (None::<u16>, None::<u16>));
    assert(seq![a].last() == a);
    assert(scan_parts(seq![a]) == (Some(dry), None::<u16>));
    assert(scan_parts(parts) == (Some(dry), Some(wet)));
}



/// The topic that carries valve commands.
pub open spec fn motor_topic() -> Seq<char> {
    "planty/mecha/motor"@
}

/// The topic that carries calibration messages.
pub open spec fn calibrate_topic() -> Seq<char> {
    "planty/sensor/calibrate"@
}

/// The topic the humidity is published on.
pub open spec fn soil_topic() -> Seq<char> {
    "planty/sensor/soil"@
}

/// The topic that carries valve commands.
pub fn topic_motor() -> (r: &'static str)
    ensures
        r@ == motor_topic(),
{
    "planty/mecha/motor"
}

/// The topic that carries calibration messages.
pub fn topic_calibrate() -> (r: &'static str)
    ensures
        r@ == calibrate_topic(),
{
    "planty/sensor/calibrate"
}

/// The topic the humidity is published on.
pub fn topic_soil() -> (r: &'static str)
    ensures
        r@ == soil_topic(),
{
    "planty/sensor/soil"
}

/// Whether two byte strings are equal.
fn bytes_equal(a: &[u8], b: &[u8]) -> (r: bool)
    ensures
        r == (a@ == b@),
{
    if a.len() != b.len() {
        return false;
    }
    let mut i: usize = 0;
    while i < a.len()
        invariant
            a@.len() == b@.len(),
            i <= a@.len(),
            forall|k: int| 0 <= k < i ==> a@[k] == b@[k],
        decreases a@.len() - i,
    {
        if a[i] != b[i] {
            return false;
        }
        i = i + 1;
    }
    proof {
        assert(a@ =~= b@);
    }
    true
}

/// What a message received on a subscribed topic asks for.
#[derive(Clone, Copy, PartialEq, Eq, Debug, Structural)]
pub enum Command {
    /// `open` on the motor topic.
    OpenValve,
    /// `close` on the motor topic.
    CloseValve,
    /// Other text on the motor topic.
    UnknownMotorCommand,
    /// A motor-topic payload that is not UTF-8 text.
    MotorCommandNotText,
    /// A calibration message with both values.
    Calibrate { dry: u16, wet: u16 },
    /// A calibration message that could not be read.
    CalibrationUnreadable,
    /// A calibration payload that is not UTF-8 text.
    CalibrationNotText,
    /// A message on another topic.
    Ignore,
}

/// What a PUBLISH with this topic and payload asks for.
pub open spec fn spec_interpret(topic: Seq<u8>, payload: Seq<u8>) -> Command {
    if topic == encode_utf8(motor_topic()) {
        if payload == encode_utf8("open"@) {
            Command::OpenValve
        } else if payload == encode_utf8("close"@) {
            Command::CloseValve
        } else if valid_utf8(payload) {
            Command::UnknownMotorCommand
        } else {
            Command::MotorCommandNotText
        }
    } else if topic == encode_utf8(calibrate_topic()) {
        if valid_utf8(payload) {
            match spec_parse_calibration(decode_utf8(payload)) {
                Some((dry, wet)) => Command::Calibrate { dry, wet },
                None => Command::CalibrationUnreadable,
            }
        } else {
            Command::CalibrationNotText
        }
    } else {
        Command::Ignore
    }
}

/// Reads the command in a PUBLISH received on `topic`.
pub fn interpret_publish(topic: &ArrayBuf<64>, payload: &ArrayBuf<256>) -> (r: Command)
    ensures
        r == spec_interpret(topic@, payload@),
{
    let t = topic.as_slice();
    let p = payload.as_slice();
    if bytes_equal(t, topic_motor().as_bytes()) {
        if bytes_equal(p, "open".as_bytes()) {
            Command::OpenValve
        } else if bytes_equal(p, "close".as_bytes()) {
            Command::CloseValve
        } else if utf8_text(p).is_some() {
            Command::UnknownMotorCommand
        } else {
            Command::MotorCommandNotText
        }
    } else if bytes_equal(t, topic_calibrate().as_bytes()) {
        match utf8_text(p) {
            Some(json) => match parse_calibration(json) {
                Some((dry, wet)) => Command::Calibrate { dry, wet },
                None => Command::CalibrationUnreadable,
            },
            None => Command::CalibrationNotText,
        }
    } else {
        Command::Ignore
    }
}


/// Consecutive polls without an MQTT event after which the link is taken to
/// be silently dead and a reconnect is forced (the loop runs about once a
/// second).
pub const MQTT_STALL_THRESHOLD: u32 = 45;

/// The humidity is published on every fifth pass of the main loop.
pub const PUBLISH_EVERY: u32 = 5;

/// A valve movement the main loop asks for.
#[derive(Clone, Copy, PartialEq, Eq, Debug, Structural)]
pub enum ValveAction {
    Open,
    Close,
}

/// What a poll of the MQTT connection produced.
pub enum PollOutcome {
    Event(MqttEvent),
    Disconnected,
    NoData,
    TimedOut,
}

/// What the main loop does about a poll.
#[derive(Clone, Copy, PartialEq, Eq, Debug, Structural)]
pub enum PollReaction {
    Command(Command),
    Reconnect,
    Nothing,
}

/// The decisions of the main loop: valve moves on soil-state changes and
/// button presses, what to do about each MQTT poll, and when to publish the
/// humidity.
pub struct Controller {
    last_state: State,
    button_prev_pressed: bool,
    publish_counter: u32,
    silent_polls: u32,
}

/// What a `Controller` holds.
pub struct ControllerView {
    pub last_state: State,
    pub button_prev_pressed: bool,
    pub publish_counter: nat,
    pub silent_polls: nat,
}

impl View for Controller {
    type V = ControllerView;

    closed spec fn view(&self) -> ControllerView {
        ControllerView {
            last_state: self.last_state,
            button_prev_pressed: self.button_prev_pressed,
            publish_counter: self.publish_counter as nat,
            silent_polls: self.silent_polls as nat,
        }
    }
}

/// The valve move for a soil state: open when dry, close when wet.
pub open spec fn action_for_state(s: State) -> ValveAction {
    match s {
        State::Dry => ValveAction::Open,
        State::Wet => ValveAction::Close,
    }
}

/// The silent-poll count after a poll without an event, and whether it
/// forces a reconnect.
pub open spec fn silent_step(silent: nat) -> (nat, bool) {
    if silent + 1 >= MQTT_STALL_THRESHOLD {
        (0, true)
    } else {
        (silent + 1, false)
    }
}

/// The publish counter after a pass, and whether the pass publishes.
pub open spec fn publish_step(counter: nat) -> (nat, bool) {
    if counter >= PUBLISH_EVERY {
        (1, true)
    } else {
        (counter + 1, false)
    }
}

/// The reaction to a poll outcome (the silent-poll count aside).
pub open spec fn poll_reaction(outcome: PollOutcome, silent: nat) -> PollReaction {
    match outcome {
        PollOutcome::Event(MqttEvent::Publish { topic, payload }) => PollReaction::Command(
            spec_interpret(topic@, payload@),
        ),
        PollOutcome::Event(_) => PollReaction::Nothing,
        PollOutcome::Disconnected => PollReaction::Reconnect,
        _ => if silent_step(silent).1 {
            PollReaction::Reconnect
        } else {
            PollReaction::Nothing
        },
    }
}

impl Controller {
    #[verifier::type_invariant]
    spec fn inv(self) -> bool {
        &&& self.publish_counter <= PUBLISH_EVERY
        &&& self.silent_polls < MQTT_STALL_THRESHOLD
    }

    /// The state at start-up: the soil taken as wet, the button released,
    /// both counters at zero.
    pub fn new() -> (r: Self)
        ensures
            r@ == (ControllerView {
                last_state: State::Wet,
                button_prev_pressed: false,
                publish_counter: 0,
                silent_polls: 0,
            }),
    {
        Controller { last_state: State::Wet, button_prev_pressed: false, publish_counter: 0, silent_polls: 0 }
    }

    /// A new soil state: when it differs from the last one, the valve is
    /// opened (dry) or closed (wet) and the change is published.
    pub fn on_soil_state(&mut self, current: State) -> (r: Option<ValveAction>)
        ensures
            final(self)@ == (ControllerView { last_state: current, ..old(self)@ }),
            r == (if current != old(self)@.last_state {
                Some(action_for_state(current))
            } else {
                None
            }),
    {
        proof {
            use_type_invariant(&*self);
        }
        if current != self.last_state {
            self.last_state = current;
            match current {
                State::Dry => Some(ValveAction::Open),
                State::Wet => Some(ValveAction::Close),
            }
        } else {
            None
        }
    }

    /// The button's level on this pass: a press (released before, pressed
    /// now) toggles the valve; holding it does nothing more.
    pub fn on_button(&mut self, pressed: bool, valve: ServoState) -> (r: Option<ValveAction>)
        ensures
            final(self)@ == (ControllerView { button_prev_pressed: pressed, ..old(self)@ }),
            r == (if pressed && !old(self)@.button_prev_pressed {
                Some(
                    match valve {
                        ServoState::Close => ValveAction::Open,
                        ServoState::Open => ValveAction::Close,
                    },
                )
            } else {
                None
            }),
    {
        proof {
            use_type_invariant(&*self);
        }
        let r = if pressed && !self.button_prev_pressed {
            match valve {
                ServoState::Close => Some(ValveAction::Open),
                ServoState::Open => Some(ValveAction::Close),
            }
        } else {
            None
        };
        self.button_prev_pressed = pressed;
        r
    }

    /// The reaction to a poll: an event clears the silent-poll count and a
    /// PUBLISH is read as a command; a broken connection clears it and asks
    /// for a reconnect; no data or a timeout counts as silent, and the
    /// 45th silent poll in a row asks for a reconnect (and clears the count).
    pub fn on_poll(&mut self, outcome: PollOutcome) -> (r: PollReaction)
        ensures
            r == poll_reaction(outcome, old(self)@.silent_polls),
            final(self)@ == (ControllerView {
                silent_polls: match outcome {
                    PollOutcome::Event(_) => 0,
                    PollOutcome::Disconnected => 0,
                    _ => silent_step(old(self)@.silent_polls).0,
                },
                ..old(self)@
            }),
    {
        proof {
            use_type_invariant(&*self);
        }
        match outcome {
            PollOutcome::Event(event) => {
                self.silent_polls = 0;
                match event {
                    MqttEvent::Publish { topic, payload } => PollReaction::Command(interpret_publish(&topic, &payload)),
                    _ => PollReaction::Nothing,
                }
            },
            PollOutcome::Disconnected => {
                self.silent_polls = 0;
                PollReaction::Reconnect
            },
            _ => {
                if self.silent_polls + 1 >= MQTT_STALL_THRESHOLD {
                    self.silent_polls = 0;
                    PollReaction::Reconnect
                } else {
                    self.silent_polls = self.silent_polls + 1;
                    PollReaction::Nothing
                }
            },
        }
    }

    /// Whether this pass publishes the humidity: every fifth pass, the first
    /// one after five passes.
    pub fn publish_due(&mut self) -> (r: bool)
        ensures
            (final(self)@.publish_counter, r) == publish_step(old(self)@.publish_counter),
            final(self)@ == (ControllerView { publish_counter: final(self)@.publish_counter, ..old(self)@ }),
    {
        proof {
            use_type_invariant(&*self);
        }
        let due = if self.publish_counter >= PUBLISH_EVERY {
            self.publish_counter = 0;
            true
        } else {
            false
        };
        self.publish_counter = self.publish_counter + 1;
        due
    }
}

/// The publish counter after `n` passes from start-up.
pub open spec fn publish_counter_after(n: nat) -> nat
    decreases n,
{
    if n == 0 {
        0
    } else {
        publish_step(publish_counter_after((n - 1) as nat)).0
    }
}

/// From start-up, the humidity is published on passes 6, 11, 16, ... (every
/// fifth pass once five have gone by).
pub proof fn law_publish_every_fifth_pass(n: nat)
    ensures
        publish_counter_after(n) == (if n == 0 {
            0
        } else {
            ((n - 1) % 5 + 1) as nat
        }),
        publish_step(publish_counter_after(n)).1 <==> (n > 0 && n % 5 == 0),
    decreases n,
{
    if n > 0 {
        law_publish_every_fifth_pass((n - 1) as nat);
    }
}

/// The silent-poll count after `n` silent polls in a row from zero.
pub open spec fn silent_after(n: nat) -> nat
    decreases n,
{
    if n == 0 {
        0
    } else {
        silent_step(silent_after((n - 1) as nat)).0
    }
}

/// From a cleared count, the 45th silent poll in a row forces a reconnect,
/// and no earlier one does.
pub proof fn law_reconnect_after_45_silent_polls(n: nat)
    requires
        n < MQTT_STALL_THRESHOLD,
    ensures
        silent_after(n) == n,
        silent_step(silent_after(n)).1 <==> n == 44,
    decreases n,
{
    if n > 0 {
        law_reconnect_after_45_silent_polls((n - 1) as nat);
    }
}

} // verus!
