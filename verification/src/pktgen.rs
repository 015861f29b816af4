//! Logic of the L2 frame generator: MAC address text, the frames it sends,
//! how it recognises its own frames coming back, and its verdict.

use vstd::prelude::*;

use crate::simple_switch::forwards;

verus! {

// ---------------------------------------------------------------------------
// MAC address text
// ---------------------------------------------------------------------------

/// Why a MAC address text was refused.
#[derive(Debug, Clone, Copy, PartialEq, Eq, Structural)]
pub enum MacError {
    /// A field is not a hexadecimal number from 0 to ff.
    InvalidAddress,
    /// The text does not have exactly six fields.
    InvalidFormat,
}

/// The value of a hexadecimal digit (either case), if `c` is one.
pub open spec fn hex_digit_value(c: char) -> Option<nat> {
    if '0' <= c && c <= '9' {
        Some((c as int - '0' as int) as nat)
    } else if 'a' <= c && c <= 'f' {
        Some((c as int - 'a' as int + 10) as nat)
    } else if 'A' <= c && c <= 'F' {
        Some((c as int - 'A' as int + 10) as nat)
    } else {
        None
    }
}

/// Whether every character of `digits` is a hexadecimal digit.
pub open spec fn all_hex_digits(digits: Seq<char>) -> bool {
    forall|i: int| 0 <= i < digits.len() ==> (#[trigger] hex_digit_value(digits[i])) is Some
}

/// The number that the hexadecimal digits `digits` denote.
pub open spec fn hex_number(digits: Seq<char>) -> nat
    decreases digits.len(),
{
    if digits.len() == 0 {
        0
    } else {
        let d = match hex_digit_value(digits.last()) {
            Some(v) => v,
            None => 0,
        };
        hex_number(digits.drop_last()) * 16 + d
    }
}

/// A byte written in hexadecimal: an optional `+`, then at least one
/// hexadecimal digit, denoting a number no greater than 255.
pub open spec fn parse_hex_byte(field: Seq<char>) -> Option<u8> {
    let digits = if field.len() > 0 && field[0] == '+' {
        field.drop_first()
    } else {
        field
    };
    if digits.len() > 0 && all_hex_digits(digits) && hex_number(digits) <= 255 {
        Some(hex_number(digits) as u8)
    } else {
        None
    }
}

/// The fields of `s` separated by `:`; a text without `:` is one field, and
/// two adjacent separators enclose an empty field.
pub open spec fn split_fields(s: Seq<char>) -> Seq<Seq<char>>
    decreases s.len(),
{
    if s.len() == 0 {
        seq![Seq::empty()]
    } else {
        let fields = split_fields(s.drop_last());
        if s.last() == ':' {
            fields.push(Seq::empty())
        } else {
            fields.update(fields.len() - 1, fields.last().push(s.last()))
        }
    }
}

/// The MAC address that the text `s` denotes: every field must be a byte in
/// hexadecimal, and there must be six of them.
pub open spec fn mac_from_text(s: Seq<char>) -> Result<Seq<u8>, MacError> {
    let fields = split_fields(s);
    if exists|k: int| 0 <= k < fields.len() && (#[trigger] parse_hex_byte(fields[k])) is None {
        Err(MacError::InvalidAddress)
    } else if fields.len() != 6 {
        Err(MacError::InvalidFormat)
    } else {
        Ok(fields.map_values(|f: Seq<char>| parse_hex_byte(f)->0))
    }
}

proof fn lemma_split_fields_nonempty(s: Seq<char>)
    ensures
        split_fields(s).len() >= 1,
    decreases s.len(),
{
    if s.len() > 0 {
        lemma_split_fields_nonempty(s.drop_last());
    }
}

/// The fields of a prefix of `s`, but for the last, are fields of `s`.
proof fn lemma_split_fields_prefix(s: Seq<char>, j: int)
    requires
        0 <= j <= s.len(),
    ensures
        split_fields(s).len() >= split_fields(s.take(j)).len(),
        forall|k: int|
            0 <= k < split_fields(s.take(j)).len() - 1 ==> #[trigger] split_fields(s)[k]
                == split_fields(s.take(j))[k],
    decreases s.len(),
{
    if j < s.len() {
        let t = s.drop_last();
        assert(t.take(j) =~= s.take(j));
        lemma_split_fields_prefix(t, j);
        lemma_split_fields_nonempty(t);
    } else {
        assert(s.take(j) =~= s);
    }
}

/// Parses a byte written in hexadecimal, as `u8::from_str_radix` does with
/// radix 16.
pub fn parse_hex_byte_exec(field: &str) -> (r: Option<u8>)
    ensures
        r == parse_hex_byte(field@),
{
    let n = field.unicode_len();
    let mut start: usize = 0;
    if n > 0 && field.get_char(0) == '+' {
        start = 1;
    }
    let ghost digits = if field@.len() > 0 && field@[0] == '+' {
        field@.drop_first()
    } else {
        field@
    };
    assert(digits =~= field@.subrange(start as int, n as int));
    if start == n {
        return None;
    }
    // The value of the digits read so far, or 256 once it exceeds 255.
    let mut value: u32 = 0;
    let mut i: usize = start;
    while i < n
        invariant
            start <= i <= n,
            n == field@.len(),
            digits == field@.subrange(start as int, n as int),
            digits == (if field@.len() > 0 && field@[0] == '+' {
                field@.drop_first()
            } else {
                field@
            }),
            all_hex_digits(field@.subrange(start as int, i as int)),
            hex_number(field@.subrange(start as int, i as int)) <= 255 ==> value
                == hex_number(field@.subrange(start as int, i as int)),
            hex_number(field@.subrange(start as int, i as int)) > 255 ==> value == 256,
        decreases n - i,
    {
        let c = field.get_char(i);
        let d: u32 = if '0' <= c && c <= '9' {
            (c as u32) - ('0' as u32)
        } else if 'a' <= c && c <= 'f' {
            (c as u32) - ('a' as u32) + 10
        } else if 'A' <= c && c <= 'F' {
            (c as u32) - ('A' as u32) + 10
        } else {
            assert(digits[i - start] == c);
            assert(hex_digit_value(digits[i - start]) is None);
            assert(!all_hex_digits(digits));
            return None;
        };
        let ghost prev = field@.subrange(start as int, i as int);
        let ghost next = field@.subrange(start as int, i + 1);
        assert(next.drop_last() =~= prev);
        assert(next.last() == c);
        assert(hex_number(next) == hex_number(prev) * 16 + d);
        assert(all_hex_digits(next)) by {
            assert forall|k: int| 0 <= k < next.len() implies (#[trigger] hex_digit_value(
                next[k],
            )) is Some by {
                if k < prev.len() {
                    assert(next[k] == prev[k]);
                }
            }
        }
        if value < 256 {
            value = value * 16 + d;
            if value > 255 {
                value = 256;
            }
        }
        i = i + 1;
    }
    assert(field@.subrange(start as int, n as int) == digits);
    if value > 255 {
        None
    } else {
        Some(value as u8)
    }
}

/// Parses a MAC address written as six `:`-separated hexadecimal fields.
/// A field that is not a byte in hexadecimal is reported first, then a
/// wrong number of fields.
pub fn try_parse_mac(s: &str) -> (r: Result<[u8; 6], MacError>)
    ensures
        match r {
            Ok(mac) => mac_from_text(s@) == Ok::<Seq<u8>, MacError>(mac@),
            Err(e) => mac_from_text(s@) == Err::<Seq<u8>, MacError>(e),
        },
{
    let n = s.unicode_len();
    let mut parts: Vec<u8> = Vec::new();
    let ghost mut done: Seq<Seq<char>> = seq![];
    let mut start: usize = 0;
    let mut i: usize = 0;
    assert(s@.take(0) =~= Seq::<char>::empty());
    assert(s@.subrange(0, 0) =~= Seq::<char>::empty());
    while i < n
        invariant
            start <= i <= n,
            n == s@.len(),
            split_fields(s@.take(i as int)) == done.push(s@.subrange(start as int, i as int)),
            parts@.len() == done.len(),
            forall|k: int| 0 <= k < done.len() ==> parse_hex_byte(#[trigger] done[k]) == Some(parts@[k]),
        decreases n - i,
    {
        let c = s.get_char(i);
        let ghost cur = s@.subrange(start as int, i as int);
        assert(s@.take(i + 1).drop_last() =~= s@.take(i as int));
        assert(s@.take(i + 1).last() == c);
        if c == ':' {
            let field = s.substring_char(start, i);
            match parse_hex_byte_exec(field) {
                None => {
                    proof {
                        assert(split_fields(s@.take(i + 1)) == done.push(cur).push(Seq::empty()));
                        lemma_split_fields_prefix(s@, i + 1);
                        let k = done.len() as int;
                        assert(split_fields(s@)[k] == cur);
                        assert(parse_hex_byte(split_fields(s@)[k]) is None);
                    }
                    return Err(MacError::InvalidAddress);
                },
                Some(b) => {
                    parts.push(b);
                    proof {
                        done = done.push(cur);
                        assert(s@.subrange(i + 1, i + 1) =~= Seq::<char>::empty());
                    }
                    start = i + 1;
                },
            }
        } else {
            proof {
                assert(s@.subrange(start as int, i + 1) =~= cur.push(c));
                assert(done.push(cur).update(done.len() as int, cur.push(c)) =~= done.push(
                    cur.push(c),
                ));
            }
        }
        i = i + 1;
    }
    assert(s@.take(n as int) =~= s@);
    let field = s.substring_char(start, n);
    let last = match parse_hex_byte_exec(field) {
        None => {
            proof {
                let k = done.len() as int;
                assert(split_fields(s@)[k] == field@);
            }
            return Err(MacError::InvalidAddress);
        },
        Some(b) => b,
    };
    parts.push(last);
    let ghost fields = done.push(field@);
    assert(split_fields(s@) == fields);
    assert(forall|k: int| 0 <= k < fields.len() ==> parse_hex_byte(#[trigger] fields[k]) == Some(parts@[k])) by {
        assert forall|k: int| 0 <= k < fields.len() implies parse_hex_byte(#[trigger] fields[k]) == Some(parts@[k]) by {
            if k < done.len() {
                assert(fields[k] == done[k]);
            }
        }
    }
    if parts.len() != 6 {
        return Err(MacError::InvalidFormat);
    }
    let mac = [parts[0], parts[1], parts[2], parts[3], parts[4], parts[5]];
    assert(mac@ =~= fields.map_values(|f: Seq<char>| parse_hex_byte(f)->0));
    Ok(mac)
}

/// Parses a MAC address that is known to be well written.
pub fn parse_mac(s: &str) -> (mac: [u8; 6])
    requires
        mac_from_text(s@) is Ok,
    ensures
        mac_from_text(s@) == Ok::<Seq<u8>, MacError>(mac@),
{
    match try_parse_mac(s) {
        Ok(mac) => mac,
        Err(_) => {
            proof {
                assert(false);
            }
            [0u8; 6]
        },
    }
}

// ---------------------------------------------------------------------------
// Frames
// ---------------------------------------------------------------------------

/// Size of a generated frame: a 14-byte Ethernet header and a 46-byte
/// payload, the minimum Ethernet frame.
pub const FRAME_SIZE: usize = 60;

/// Byte `k` (0 is the most significant) of the big-endian encoding of `x`.
pub open spec fn be_byte(x: u32, k: int) -> u8 {
    if k == 0 {
        (x / 0x100_0000) as u8
    } else if k == 1 {
        (x / 0x1_0000 % 0x100) as u8
    } else if k == 2 {
        (x / 0x100 % 0x100) as u8
    } else {
        (x % 0x100) as u8
    }
}

/// The frame with sequence number `seq`: destination and source MAC, the
/// IPv4 EtherType, then the low 32 bits of `seq` in big-endian order,
/// repeated over the payload.
pub open spec fn spec_frame(dst: Seq<u8>, src: Seq<u8>, seq: u64) -> Seq<u8> {
    dst + src + seq![0x08u8, 0x00u8] + Seq::new(46, |j: int| be_byte(seq as u32, j % 4))
}

/// Builds the frame with sequence number `seq` from `src_mac` to `dst_mac`.
pub fn build_frame(dst_mac: &[u8; 6], src_mac: &[u8; 6], seq: u64) -> (frame: Vec<u8>)
    ensures
        frame@ == spec_frame(dst_mac@, src_mac@, seq),
{
    let mut frame: Vec<u8> = Vec::new();
    for k in 0..6
        invariant
            frame@ == dst_mac@.take(k as int),
    {
        frame.push(dst_mac[k]);
        assert(dst_mac@.take(k + 1) =~= dst_mac@.take(k as int).push(dst_mac@[k as int]));
    }
    assert(dst_mac@.take(6) =~= dst_mac@);
    for k in 0..6
        invariant
            frame@ == dst_mac@ + src_mac@.take(k as int),
    {
        frame.push(src_mac[k]);
        assert(src_mac@.take(k + 1) =~= src_mac@.take(k as int).push(src_mac@[k as int]));
    }
    assert(src_mac@.take(6) =~= src_mac@);
    frame.push(0x08);
    frame.push(0x00);
    let x = seq as u32;
    let seq_bytes: [u8; 4] = [(x >> 24) as u8, (x >> 16) as u8, (x >> 8) as u8, x as u8];
    assert(seq_bytes[0] == be_byte(x, 0) && seq_bytes[1] == be_byte(x, 1) && seq_bytes[2]
        == be_byte(x, 2) && seq_bytes[3] == be_byte(x, 3)) by {
        assert((x >> 24) as u8 == (x / 0x100_0000) as u8 && (x >> 16) as u8 == (x / 0x1_0000
            % 0x100) as u8 && (x >> 8) as u8 == (x / 0x100 % 0x100) as u8 && x as u8 == (x
            % 0x100) as u8) by (bit_vector);
    }
    let ghost header = dst_mac@ + src_mac@ + seq![0x08u8, 0x00u8];
    let ghost payload = Seq::new(46, |j: int| be_byte(x, j % 4));
    assert(frame@ =~= header);
    for j in 14..FRAME_SIZE
        invariant
            frame@ == header + payload.take(j - 14),
            payload == Seq::new(46, |j: int| be_byte(x, j % 4)),
            forall|k: int| 0 <= k < 4 ==> seq_bytes[k] == be_byte(x, k),
    {
        frame.push(seq_bytes[(j - 14) % 4]);
        assert(payload.take(j + 1 - 14) =~= payload.take(j - 14).push(payload[j - 14]));
    }
    assert(payload.take(46) =~= payload);
    frame
}

/// Whether a received frame of length `len` comes from `src`: it holds a
/// whole Ethernet header whose source MAC is `src`.
pub open spec fn has_source(buf: Seq<u8>, len: int, src: Seq<u8>) -> bool {
    len >= 14 && buf.subrange(6, 12) == src
}

/// Whether the received frame in the first `len` bytes of `buf` has
/// `src_mac` as its source MAC.
pub fn frame_has_source(buf: &[u8], len: usize, src_mac: &[u8; 6]) -> (r: bool)
    requires
        len <= buf@.len(),
    ensures
        r == has_source(buf@, len as int, src_mac@),
{
    if len < 14 {
        return false;
    }
    let mut k: usize = 0;
    while k < 6
        invariant
            k <= 6,
            14 <= len <= buf@.len(),
            forall|m: int| 0 <= m < k ==> buf@[6 + m] == src_mac@[m],
        decreases 6 - k,
    {
        if buf[6 + k] != src_mac[k] {
            assert(buf@.subrange(6, 12)[k as int] != src_mac@[k as int]);
            return false;
        }
        k = k + 1;
    }
    assert(buf@.subrange(6, 12) =~= src_mac@);
    true
}

/// The receive tally after one frame arrived: one more when the frame comes
/// from `src_mac`.
pub fn count_received(received: u64, expected: u64, buf: &[u8], len: usize, src_mac: &[u8; 6]) -> (r: u64)
    requires
        received < expected,
        len <= buf@.len(),
    ensures
        r == if has_source(buf@, len as int, src_mac@) {
            received + 1
        } else {
            received as int
        },
        r <= expected,
{
    if frame_has_source(buf, len, src_mac) {
        received + 1
    } else {
        received
    }
}

/// Whether the receive loop tries another receive: not every frame sent
/// has been counted yet, and the timeout has not run out.
pub fn should_receive(received: u64, expected: u64, in_time: bool) -> (r: bool)
    ensures
        r == (received < expected && in_time),
{
    received < expected && in_time
}

/// What one receive attempt gave.
#[derive(Debug, Clone, Copy, PartialEq, Eq, Structural)]
pub enum RecvResult {
    /// A frame of this many bytes arrived.
    Frame(usize),
    /// Nothing arrived before the socket's receive timeout.
    TimedOut,
    /// The receive failed otherwise.
    Failed,
}

/// One step of the receive loop: the new tally, and whether the loop may
/// go on. A frame is counted when it is one of ours and the loop goes on; a
/// timeout or a failure stops the loop with the tally unchanged.
pub fn receive_step(
    received: u64,
    expected: u64,
    result: RecvResult,
    buf: &[u8],
    src_mac: &[u8; 6],
) -> (r: (u64, bool))
    requires
        received < expected,
        result matches RecvResult::Frame(len) ==> len <= buf@.len(),
    ensures
        match result {
            RecvResult::Frame(len) => {
                &&& r.0 == if has_source(buf@, len as int, src_mac@) {
                    received + 1
                } else {
                    received as int
                }
                &&& r.1
            },
            _ => r.0 == received && !r.1,
        },
        r.0 <= expected,
{
    match result {
        RecvResult::Frame(len) => (count_received(received, expected, buf, len, src_mac), true),
        RecvResult::TimedOut => (received, false),
        RecvResult::Failed => (received, false),
    }
}

/// The test passes when every frame sent came back.
pub fn all_received(received: u64, expected: u64) -> (pass: bool)
    ensures
        pass == (received == expected),
{
    received == expected
}

/// The receive timeout of `timeout_ms` milliseconds as seconds and
/// microseconds.
pub fn receive_timeout(timeout_ms: u64) -> (r: (i64, i64))
    ensures
        r.0 == timeout_ms / 1000,
        r.1 == timeout_ms % 1000 * 1000,
{
    ((timeout_ms / 1000) as i64, ((timeout_ms % 1000) * 1000) as i64)
}

// ---------------------------------------------------------------------------
// Laws
// ---------------------------------------------------------------------------

/// The hexadecimal digit for `d` (below 16), upper-case letters when
/// `upper` holds, lower-case ones otherwise.
pub open spec fn hex_char(d: int, upper: bool) -> char {
    if d < 10 {
        ('0' as int + d) as char
    } else if upper {
        ('A' as int + d - 10) as char
    } else {
        ('a' as int + d - 10) as char
    }
}

/// `b` as two hexadecimal digits (`{:02X}` when `upper`, else `{:02x}`).
pub open spec fn byte_text(b: u8, upper: bool) -> Seq<char> {
    seq![hex_char(b as int / 16, upper), hex_char(b as int % 16, upper)]
}

/// The first `n` (at least one) bytes of `mac` in the usual notation,
/// `:`-separated.
pub open spec fn mac_text_prefix(mac: Seq<u8>, n: nat, upper: bool) -> Seq<char>
    decreases n,
{
    if n <= 1 {
        byte_text(mac[0], upper)
    } else {
        mac_text_prefix(mac, (n - 1) as nat, upper) + seq![':'] + byte_text(mac[n - 1], upper)
    }
}

/// A MAC address in the usual notation, such as `00:1b:2c:3d:4e:ff` or, when
/// `upper`, `00:1B:2C:3D:4E:FF`.
pub open spec fn mac_text(mac: Seq<u8>, upper: bool) -> Seq<char> {
    mac_text_prefix(mac, 6, upper)
}

proof fn lemma_split_fields_single(t: Seq<char>)
    requires
        !t.contains(':'),
    ensures
        split_fields(t) == seq![t],
    decreases t.len(),
{
    if t.len() > 0 {
        let u = t.drop_last();
        assert(!u.contains(':')) by {
            if u.contains(':') {
                let k = choose|k: int| 0 <= k < u.len() && u[k] == ':';
                assert(t[k] == ':');
            }
        }
        lemma_split_fields_single(u);
        assert(t.last() != ':') by {
            assert(t[t.len() - 1] == t.last());
        }
        assert(u.push(t.last()) =~= t);
        assert(seq![u].update(0, u.push(t.last())) =~= seq![t]);
    } else {
        assert(t =~= Seq::<char>::empty());
    }
}

proof fn lemma_split_fields_append(a: Seq<char>, t: Seq<char>)
    requires
        !t.contains(':'),
    ensures
        split_fields(a + seq![':'] + t) == split_fields(a).push(t),
    decreases t.len(),
{
    let s = a + seq![':'] + t;
    if t.len() == 0 {
        assert(s.drop_last() =~= a);
        assert(t =~= Seq::<char>::empty());
    } else {
        let u = t.drop_last();
        assert(!u.contains(':')) by {
            if u.contains(':') {
                let k = choose|k: int| 0 <= k < u.len() && u[k] == ':';
                assert(t[k] == ':');
            }
        }
        lemma_split_fields_append(a, u);
        assert(s.drop_last() =~= a + seq![':'] + u);
        assert(s.last() == t.last());
        assert(t.last() != ':') by {
            assert(t[t.len() - 1] == t.last());
        }
        assert(u.push(t.last()) =~= t);
        assert(split_fields(a).push(u).update(split_fields(a).len() as int, u.push(t.last()))
            =~= split_fields(a).push(t));
    }
}

proof fn lemma_byte_text(b: u8, upper: bool)
    ensures
        !byte_text(b, upper).contains(':'),
        parse_hex_byte(byte_text(b, upper)) == Some(b),
{
    let t = byte_text(b, upper);
    let hi = b / 16;
    let lo = b % 16;
    assert(hex_digit_value(hex_char(hi as int, upper)) == Some(hi as nat));
    assert(hex_digit_value(hex_char(lo as int, upper)) == Some(lo as nat));
    assert(t[0] == hex_char(hi as int, upper) && t[1] == hex_char(lo as int, upper));
    assert(!t.contains(':')) by {
        if t.contains(':') {
            let k = choose|k: int| 0 <= k < t.len() && t[k] == ':';
            assert(k == 0 || k == 1);
        }
    }
    assert(t.drop_last() =~= seq![hex_char(hi as int, upper)]);
    assert(seq![hex_char(hi as int, upper)].drop_last() =~= Seq::<char>::empty());
    assert(hex_number(Seq::<char>::empty()) == 0);
    assert(hex_number(seq![hex_char(hi as int, upper)]) == hi);
    assert(hex_number(t) == hi * 16 + lo);
    assert(all_hex_digits(t));
}

proof fn lemma_mac_text_prefix_fields(mac: Seq<u8>, n: nat, upper: bool)
    requires
        1 <= n <= mac.len(),
    ensures
        split_fields(mac_text_prefix(mac, n, upper)) == Seq::new(n, |i: int| byte_text(mac[i], upper)),
    decreases n,
{
    lemma_byte_text(mac[n - 1], upper);
    if n == 1 {
        lemma_split_fields_single(byte_text(mac[0], upper));
        assert(seq![byte_text(mac[0], upper)] =~= Seq::new(1, |i: int| byte_text(mac[i], upper)));
    } else {
        lemma_mac_text_prefix_fields(mac, (n - 1) as nat, upper);
        lemma_split_fields_append(mac_text_prefix(mac, (n - 1) as nat, upper), byte_text(mac[n - 1], upper));
        assert(Seq::new((n - 1) as nat, |i: int| byte_text(mac[i], upper)).push(byte_text(mac[n - 1], upper))
            =~= Seq::new(n, |i: int| byte_text(mac[i], upper)));
    }
}

/// A MAC address written in the usual notation, six two-digit hexadecimal
/// fields in lower or in upper case, is read back as that address.
pub proof fn lemma_mac_text_round_trip(mac: Seq<u8>, upper: bool)
    requires
        mac.len() == 6,
    ensures
        mac_from_text(mac_text(mac, upper)) == Ok::<Seq<u8>, MacError>(mac),
{
    let fields = split_fields(mac_text(mac, upper));
    lemma_mac_text_prefix_fields(mac, 6, upper);
    assert forall|k: int| 0 <= k < fields.len() implies #[trigger] parse_hex_byte(fields[k])
        == Some(mac[k]) by {
        lemma_byte_text(mac[k], upper);
    }
    assert(fields.map_values(|f: Seq<char>| parse_hex_byte(f)->0) =~= mac);
}

/// Every frame the generator builds is recognised as its own when it comes
/// back: it holds a whole header whose source MAC is the generator's.
pub proof fn lemma_built_frame_has_source(dst: Seq<u8>, src: Seq<u8>, seq: u64)
    requires
        dst.len() == 6,
        src.len() == 6,
    ensures
        spec_frame(dst, src, seq).len() == FRAME_SIZE,
        has_source(spec_frame(dst, src, seq), FRAME_SIZE as int, src),
{
    assert(spec_frame(dst, src, seq).subrange(6, 12) =~= src);
}

/// The receive timeout is a valid time value for exactly `timeout_ms`
/// milliseconds: whole seconds and fewer than a million microseconds.
pub proof fn lemma_receive_timeout(timeout_ms: u64)
    ensures
        0 <= timeout_ms % 1000 * 1000 < 1_000_000,
        (timeout_ms / 1000) * 1000 + (timeout_ms % 1000 * 1000) / 1000 == timeout_ms,
{
}

/// Every frame the generator builds gets through the simple switch: it is
/// an IPv4 frame longer than an Ethernet header.
pub proof fn lemma_built_frame_forwarded(dst: Seq<u8>, src: Seq<u8>, seq: u64)
    requires
        dst.len() == 6,
        src.len() == 6,
    ensures
        forwards(spec_frame(dst, src, seq)),
{
    let f = spec_frame(dst, src, seq);
    assert(f.len() as i32 == 60);
    assert(f[12] == 0x08 && f[13] == 0x00);
}

/// The data plane sends every generated frame to the MAC address it was
/// generated for: the frame's first six bytes are its destination.
pub proof fn lemma_built_frame_destination(dst: Seq<u8>, src: Seq<u8>, seq: u64)
    requires
        dst.len() == 6,
        src.len() == 6,
    ensures
        spec_frame(dst, src, seq).len() >= 6,
        spec_frame(dst, src, seq).subrange(0, 6) == dst,
{
    assert(spec_frame(dst, src, seq).subrange(0, 6) =~= dst);
}

/// The four bytes `be_byte` gives for `x`, read back big-endian, are `x`.
pub proof fn lemma_be_bytes_read_back(x: u32)
    ensures
        be_byte(x, 0) * 0x100_0000 + be_byte(x, 1) * 0x1_0000 + be_byte(x, 2) * 0x100 + be_byte(
            x,
            3,
        ) == x,
        0 <= be_byte(x, 0) < 0x100,
{
    assert((x / 0x100_0000) as u8 as int * 0x100_0000 + (x / 0x1_0000 % 0x100) as u8 as int
        * 0x1_0000 + (x / 0x100 % 0x100) as u8 as int * 0x100 + (x % 0x100) as u8 as int == x)
        by (bit_vector);
}

/// A generated frame carries its sequence number: the payload's first four
/// bytes, read big-endian, are the sequence number's low 32 bits, and the
/// payload repeats them every four bytes to the end of the 60-byte frame.
pub proof fn lemma_frame_encodes_sequence(dst: Seq<u8>, src: Seq<u8>, seq: u64)
    requires
        dst.len() == 6,
        src.len() == 6,
    ensures
        spec_frame(dst, src, seq).len() == 60,
        spec_frame(dst, src, seq).subrange(0, 6) == dst,
        spec_frame(dst, src, seq).subrange(6, 12) == src,
        spec_frame(dst, src, seq)[12] == 0x08,
        spec_frame(dst, src, seq)[13] == 0x00,
        spec_frame(dst, src, seq)[14] * 0x100_0000 + spec_frame(dst, src, seq)[15] * 0x1_0000
            + spec_frame(dst, src, seq)[16] * 0x100 + spec_frame(dst, src, seq)[17] == seq
            % 0x1_0000_0000,
        forall|j: int|
            18 <= j < 60 ==> #[trigger] spec_frame(dst, src, seq)[j] == spec_frame(
                dst,
                src,
                seq,
            )[j - 4],
{
    let f = spec_frame(dst, src, seq);
    let x = seq as u32;
    assert(seq as u32 == seq % 0x1_0000_0000) by (bit_vector);
    assert(f.subrange(0, 6) =~= dst);
    assert(f.subrange(6, 12) =~= src);
    assert(f[14] == be_byte(x, 0) && f[15] == be_byte(x, 1) && f[16] == be_byte(x, 2) && f[17]
        == be_byte(x, 3));
    lemma_be_bytes_read_back(x);
    assert forall|j: int| 18 <= j < 60 implies #[trigger] f[j] == f[j - 4] by {
        assert((j - 14) % 4 == (j - 18) % 4);
    }
}

/// Frames with sequence numbers that differ in their low 32 bits differ.
pub proof fn lemma_frames_distinct(dst: Seq<u8>, src: Seq<u8>, a: u64, b: u64)
    requires
        dst.len() == 6,
        src.len() == 6,
        a % 0x1_0000_0000 != b % 0x1_0000_0000,
    ensures
        spec_frame(dst, src, a) != spec_frame(dst, src, b),
{
    lemma_frame_encodes_sequence(dst, src, a);
    lemma_frame_encodes_sequence(dst, src, b);
}

/// A received frame counts as one of ours exactly when it holds a whole
/// Ethernet header and its bytes 6 to 11, the source MAC, are `src`: its
/// destination MAC (bytes 0 to 5) plays no part.
pub proof fn lemma_has_source_by_bytes(buf: Seq<u8>, len: int, src: Seq<u8>)
    requires
        src.len() == 6,
        buf.len() >= 12,
    ensures
        has_source(buf, len, src) <==> (len >= 14 && forall|m: int|
            0 <= m < 6 ==> #[trigger] buf[6 + m] == src[m]),
{
    if len >= 14 && (forall|m: int| 0 <= m < 6 ==> #[trigger] buf[6 + m] == src[m]) {
        assert forall|k: int| 0 <= k < 6 implies buf.subrange(6, 12)[k] == src[k] by {
            assert(buf[6 + k] == src[k]);
        }
        assert(buf.subrange(6, 12) =~= src);
    }
    if has_source(buf, len, src) {
        assert forall|m: int| 0 <= m < 6 implies #[trigger] buf[6 + m] == src[m] by {
            assert(buf.subrange(6, 12)[m] == buf[6 + m]);
        }
    }
}

} // verus!
