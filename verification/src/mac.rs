//! MAC address parsing and Wake-on-LAN magic packets.
use vstd::prelude::*;
use vstd::string::StringSliceAdditionalSpecFns;
use vstd::utf8::*;
use crate::config::DeviceConfig;

verus! {

/// Why a MAC address was refused.
///
/// `InvalidUtf8` and `InvalidByte` carry the two bytes of the offending pair
/// (after separators were removed), in the order in which they appear.
#[derive(Debug, Clone, Copy, PartialEq, Eq, Structural)]
pub enum MacError {
    /// Without separators the address is not exactly 12 bytes long.
    InvalidLength,
    /// A pair of bytes is not a valid UTF-8 string on its own.
    InvalidUtf8 { high: u8, low: u8 },
    /// A pair of bytes is text, but not a base-16 number.
    InvalidByte { high: u8, low: u8 },
}

/// `:` and `-` may separate the digits of a MAC address anywhere.
pub open spec fn is_separator(b: u8) -> bool {
    b == 0x3a || b == 0x2d
}

/// The bytes of the input with every `:` and `-` removed.
pub open spec fn strip_separators(bytes: Seq<u8>) -> Seq<u8>
    decreases bytes.len(),
{
    if bytes.len() == 0 {
        Seq::empty()
    } else {
        let rest = strip_separators(bytes.drop_last());
        if is_separator(bytes.last()) {
            rest
        } else {
            rest.push(bytes.last())
        }
    }
}

/// The value of an ASCII base-16 digit (either case).
pub open spec fn hex_digit_value(b: u8) -> Option<u8> {
    if 0x30 <= b <= 0x39 {
        Some((b - 0x30) as u8)
    } else if 0x61 <= b <= 0x66 {
        Some((b - 0x61 + 10) as u8)
    } else if 0x41 <= b <= 0x46 {
        Some((b - 0x41 + 10) as u8)
    } else {
        None
    }
}

/// The byte that a two-character base-16 number denotes, as `u8::from_str_radix(_, 16)`
/// reads it: two digits, or a `+` sign followed by one digit.
pub open spec fn pair_value(high: u8, low: u8) -> Option<u8> {
    if high == 0x2b {
        hex_digit_value(low)
    } else {
        match (hex_digit_value(high), hex_digit_value(low)) {
            (Some(h), Some(l)) => Some((h * 16 + l) as u8),
            _ => None,
        }
    }
}

/// Reads the first `count` pairs of `digits`, stopping at the first pair that fails.
pub open spec fn parse_pairs(digits: Seq<u8>, count: nat) -> Result<Seq<u8>, MacError>
    decreases count,
{
    if count == 0 {
        Ok(Seq::empty())
    } else {
        match parse_pairs(digits, (count - 1) as nat) {
            Err(e) => Err(e),
            Ok(done) => {
                let high = digits[2 * (count - 1)];
                let low = digits[2 * (count - 1) + 1];
                if !valid_utf8(seq![high, low]) {
                    Err(MacError::InvalidUtf8 { high, low })
                } else {
                    match pair_value(high, low) {
                        Some(v) => Ok(done.push(v)),
                        None => Err(MacError::InvalidByte { high, low }),
                    }
                }
            },
        }
    }
}

/// What parsing the text whose UTF-8 bytes are `bytes` as a MAC address gives.
pub open spec fn spec_parse_mac(bytes: Seq<u8>) -> Result<Seq<u8>, MacError> {
    let digits = strip_separators(bytes);
    if digits.len() != 12 {
        Err(MacError::InvalidLength)
    } else {
        parse_pairs(digits, 6)
    }
}

/// The magic packet for `mac`: six `0xFF` bytes, then the MAC sixteen times.
pub open spec fn magic_packet(mac: Seq<u8>) -> Seq<u8> {
    Seq::new(102, |i: int| if i < 6 { 0xffu8 } else { mac[(i - 6) % 6] })
}

/// Once a pair has failed, reading more pairs gives the same error.
proof fn lemma_parse_pairs_error_sticks(digits: Seq<u8>, m: nat, n: nat)
    requires
        m <= n,
        parse_pairs(digits, m) is Err,
    ensures
        parse_pairs(digits, n) == parse_pairs(digits, m),
    decreases n - m,
{
    if m < n {
        lemma_parse_pairs_error_sticks(digits, m, (n - 1) as nat);
    }
}

fn hex_digit(b: u8) -> (res: Option<u8>)
    ensures
        res == hex_digit_value(b),
{
    if 0x30 <= b && b <= 0x39 {
        Some(b - 0x30)
    } else if 0x61 <= b && b <= 0x66 {
        Some(b - 0x61 + 10)
    } else if 0x41 <= b && b <= 0x46 {
        Some(b - 0x41 + 10)
    } else {
        None
    }
}

fn parse_pair(high: u8, low: u8) -> (res: Option<u8>)
    ensures
        res == pair_value(high, low),
{
    if high == 0x2b {
        return hex_digit(low);
    }
    match (hex_digit(high), hex_digit(low)) {
        (Some(h), Some(l)) => {
            assert(h * 16 + l < 256);
            Some(h * 16 + l)
        },
        _ => None,
    }
}

proof fn lemma_single_byte_utf8(b: u8)
    ensures
        valid_utf8(seq![b]) <==> b < 0x80,
{
    reveal_with_fuel(valid_utf8, 2);
    let s = seq![b];
    if b < 0x80 {
        assert((b & 0x7f) as u32 <= 0x7f) by (bit_vector);
        assert(pop_first_scalar(s) =~= Seq::<u8>::empty());
    }
}

proof fn lemma_pair_utf8(a: u8, b: u8)
    ensures
        valid_utf8(seq![a, b]) <==> ((a < 0x80 && b < 0x80) || (0xc2 <= a <= 0xdf && 0x80 <= b
            <= 0xbf)),
{
    reveal_with_fuel(valid_utf8, 3);
    let s = seq![a, b];
    if a < 0x80 {
        assert((a & 0x7f) as u32 <= 0x7f) by (bit_vector);
        assert(pop_first_scalar(s) =~= seq![b]);
        lemma_single_byte_utf8(b);
    } else if 0xc0 <= a <= 0xdf && 0x80 <= b <= 0xbf {
        assert(pop_first_scalar(s) =~= Seq::<u8>::empty());
        assert(0xc0 <= a <= 0xdf && 0x80 <= b <= 0xbf ==> ((((a & 0x1f) as u32) << 6u32) | ((b
            & 0x3f) as u32) >= 0x80 <==> a >= 0xc2)) by (bit_vector);
        assert(0xc0 <= a <= 0xdf && 0x80 <= b <= 0xbf ==> ((((a & 0x1f) as u32) << 6u32) | ((b
            & 0x3f) as u32) < 0x800)) by (bit_vector);
    }
}

fn pair_is_utf8(a: u8, b: u8) -> (res: bool)
    ensures
        res == valid_utf8(seq![a, b]),
{
    proof {
        lemma_pair_utf8(a, b);
    }
    (a < 0x80 && b < 0x80) || (0xc2 <= a && a <= 0xdf && 0x80 <= b && b <= 0xbf)
}

/// Parses a MAC address such as `AA:BB:CC:DD:EE:FF`.
///
/// Every `:` and `-` is dropped first, wherever it stands; what remains must be
/// exactly 12 bytes, read as six pairs of base-16 digits.
pub fn parse_mac(input: &str) -> (res: Result<[u8; 6], MacError>)
    ensures
        match res {
            Ok(mac) => spec_parse_mac(input.spec_bytes()) == Ok::<Seq<u8>, MacError>(mac@),
            Err(e) => spec_parse_mac(input.spec_bytes()) == Err::<Seq<u8>, MacError>(e),
        },
{
    let bytes = input.as_bytes();
    let mut digits: Vec<u8> = Vec::new();
    let mut i: usize = 0;
    while i < bytes.len()
        invariant
            i <= bytes@.len(),
            bytes@ == input.spec_bytes(),
            digits@ == strip_separators(bytes@.take(i as int)),
        decreases bytes@.len() - i,
    {
        let b = bytes[i];
        assert(bytes@.take(i + 1).drop_last() =~= bytes@.take(i as int));
        if !(b == 0x3a || b == 0x2d) {
            digits.push(b);
        }
        i = i + 1;
    }
    assert(bytes@.take(bytes@.len() as int) =~= bytes@);
    if digits.len() != 12 {
        return Err(MacError::InvalidLength);
    }
    let mut mac: [u8; 6] = [0u8; 6];
    let mut k: usize = 0;
    assert(mac@.take(0) =~= Seq::<u8>::empty());
    while k < 6
        invariant
            k <= 6,
            digits@.len() == 12,
            digits@ == strip_separators(input.spec_bytes()),
            parse_pairs(digits@, k as nat) == Ok::<Seq<u8>, MacError>(mac@.take(k as int)),
        decreases 6 - k,
    {
        let high = digits[2 * k];
        let low = digits[2 * k + 1];
        if !pair_is_utf8(high, low) {
            proof {
                lemma_parse_pairs_error_sticks(digits@, (k + 1) as nat, 6);
            }
            return Err(MacError::InvalidUtf8 { high, low });
        }
        match parse_pair(high, low) {
            Some(v) => {
                let ghost before = mac@;
                mac[k] = v;
                assert(mac@.take(k as int) =~= before.take(k as int));
                assert(mac@.take(k + 1) =~= mac@.take(k as int).push(v));
            },
            None => {
                proof {
                    lemma_parse_pairs_error_sticks(digits@, (k + 1) as nat, 6);
                }
                return Err(MacError::InvalidByte { high, low });
            },
        }
        k = k + 1;
    }
    assert(mac@.take(6) =~= mac@);
    Ok(mac)
}

/// Builds the Wake-on-LAN magic packet for `mac`.
pub fn build_magic_packet(mac: &[u8; 6]) -> (packet: [u8; 102])
    ensures
        packet@ == magic_packet(mac@),
{
    let mut packet: [u8; 102] = [0u8; 102];
    let mut i: usize = 0;
    while i < 102
        invariant
            i <= 102,
            packet@.len() == 102,
            forall|j: int| 0 <= j < i ==> packet@[j] == magic_packet(mac@)[j],
        decreases 102 - i,
    {
        if i < 6 {
            packet[i] = 0xff;
        } else {
            packet[i] = mac[(i - 6) % 6];
        }
        i = i + 1;
    }
    assert(packet@ =~= magic_packet(mac@));
    packet
}

/// The magic packet for a saved device, or why its MAC address cannot be read.
pub fn wake_packet(device: &DeviceConfig) -> (res: Result<[u8; 102], MacError>)
    ensures
        match res {
            Ok(packet) => spec_parse_mac(encode_utf8(device.mac@)) matches Ok(mac) && packet@
                == magic_packet(mac),
            Err(e) => spec_parse_mac(encode_utf8(device.mac@)) == Err::<Seq<u8>, MacError>(e),
        },
{
    let mac = parse_mac(device.mac.as_str())?;
    Ok(build_magic_packet(&mac))
}

/// A magic packet starts with six `0xFF` bytes, which are followed by the MAC
/// address sixteen times over, and nothing else.
pub proof fn law_magic_packet_layout(mac: Seq<u8>)
    requires
        mac.len() == 6,
    ensures
        magic_packet(mac).len() == 6 + 16 * 6,
        magic_packet(mac).take(6) == seq![0xffu8, 0xffu8, 0xffu8, 0xffu8, 0xffu8, 0xffu8],
        forall|k: int| 0 <= k < 16 ==> #[trigger] magic_packet(mac).subrange(6 + 6 * k, 12 + 6 * k) == mac,
{
    let p = magic_packet(mac);
    assert(p.take(6) =~= seq![0xffu8, 0xffu8, 0xffu8, 0xffu8, 0xffu8, 0xffu8]);
    assert forall|k: int| 0 <= k < 16 implies #[trigger] p.subrange(6 + 6 * k, 12 + 6 * k) == mac by {
        assert forall|j: int| 0 <= j < 6 implies p.subrange(6 + 6 * k, 12 + 6 * k)[j] == mac[j] by {
            assert((6 * k + j) % 6 == j) by (nonlinear_arith)
                requires
                    0 <= j < 6,
                    0 <= k,
            ;
        }
        assert(p.subrange(6 + 6 * k, 12 + 6 * k) =~= mac);
    }
}

/// The base-16 digit of a value below 16, upper-case when `upper` holds.
pub open spec fn hex_digit_char(v: int, upper: bool) -> u8 {
    if v < 10 {
        (0x30 + v) as u8
    } else if upper {
        (0x41 + v - 10) as u8
    } else {
        (0x61 + v - 10) as u8
    }
}

/// The two digits of a byte, each in the case `upper` picks for its position
/// (`upper[i]` for the `i`-th digit of the address).
pub open spec fn byte_text(mac: Seq<u8>, upper: Seq<bool>, k: int) -> Seq<u8> {
    seq![
        hex_digit_char((mac[k] / 16) as int, upper[2 * k]),
        hex_digit_char((mac[k] % 16) as int, upper[2 * k + 1]),
    ]
}

/// The text of the first `n` bytes of `mac`, two digits each in the cases
/// `upper` picks, with `sep` between consecutive bytes.
pub open spec fn mac_text(mac: Seq<u8>, upper: Seq<bool>, sep: Seq<u8>, n: nat) -> Seq<u8>
    decreases n,
{
    if n == 0 {
        Seq::empty()
    } else if n == 1 {
        byte_text(mac, upper, 0)
    } else {
        mac_text(mac, upper, sep, (n - 1) as nat) + sep + byte_text(mac, upper, n - 1)
    }
}

/// The twelve digits of `mac` without separators, in the cases `upper` picks.
pub open spec fn mac_digits(mac: Seq<u8>, upper: Seq<bool>) -> Seq<u8> {
    Seq::new(
        12,
        |i: int|
            if i % 2 == 0 {
                hex_digit_char((mac[i / 2] / 16) as int, upper[i])
            } else {
                hex_digit_char((mac[i / 2] % 16) as int, upper[i])
            },
    )
}

proof fn lemma_strip_concat(a: Seq<u8>, b: Seq<u8>)
    ensures
        strip_separators(a + b) == strip_separators(a) + strip_separators(b),
    decreases b.len(),
{
    if b.len() == 0 {
        assert(a + b =~= a);
        assert(strip_separators(a) + strip_separators(b) =~= strip_separators(a));
    } else {
        assert((a + b).drop_last() =~= a + b.drop_last());
        lemma_strip_concat(a, b.drop_last());
        if !is_separator(b.last()) {
            assert(strip_separators(a) + strip_separators(b.drop_last()).push(b.last()) =~= (
            strip_separators(a) + strip_separators(b.drop_last())).push(b.last()));
        }
    }
}

proof fn lemma_hex_digit_char(v: int, upper: bool)
    requires
        0 <= v < 16,
    ensures
        hex_digit_value(hex_digit_char(v, upper)) == Some(v as u8),
        hex_digit_char(v, upper) < 0x80,
        !is_separator(hex_digit_char(v, upper)),
        hex_digit_char(v, upper) != 0x2b,
{
}

proof fn lemma_byte_text_digits(mac: Seq<u8>, upper: Seq<bool>, k: int)
    requires
        0 <= k < 6,
        mac.len() == 6,
        upper.len() == 12,
    ensures
        strip_separators(byte_text(mac, upper, k)) == byte_text(mac, upper, k),
{
    lemma_hex_digit_char((mac[k] / 16) as int, upper[2 * k]);
    lemma_hex_digit_char((mac[k] % 16) as int, upper[2 * k + 1]);
    let t = byte_text(mac, upper, k);
    assert(t.drop_last().drop_last() =~= Seq::<u8>::empty());
    assert(strip_separators(t.drop_last().drop_last()) =~= Seq::<u8>::empty());
    assert(strip_separators(t.drop_last()) =~= seq![t[0]]);
    assert(strip_separators(t) =~= t);
}

proof fn lemma_mac_text_digits(mac: Seq<u8>, upper: Seq<bool>, sep: Seq<u8>, n: nat)
    requires
        mac.len() == 6,
        upper.len() == 12,
        1 <= n <= 6,
        strip_separators(sep) == Seq::<u8>::empty(),
    ensures
        strip_separators(mac_text(mac, upper, sep, n)) == mac_digits(mac, upper).take(2 * n as int),
    decreases n,
{
    lemma_byte_text_digits(mac, upper, n - 1);
    let d = mac_digits(mac, upper);
    if n == 1 {
        assert(byte_text(mac, upper, 0) =~= d.take(2));
    } else {
        lemma_mac_text_digits(mac, upper, sep, (n - 1) as nat);
        let prefix = mac_text(mac, upper, sep, (n - 1) as nat);
        lemma_strip_concat(prefix + sep, byte_text(mac, upper, n - 1));
        lemma_strip_concat(prefix, sep);
        assert(d.take(2 * n as int) =~= d.take(2 * (n - 1) as int) + byte_text(mac, upper, n - 1))
            by {
            assert forall|i: int| 2 * (n - 1) <= i < 2 * n implies #[trigger] d[i] == byte_text(
                mac,
                upper,
                n - 1,
            )[i - 2 * (n - 1)] by {
                assert(i / 2 == n - 1);
            }
        }
    }
}

proof fn lemma_parse_mac_digits(mac: Seq<u8>, upper: Seq<bool>, n: nat)
    requires
        mac.len() == 6,
        upper.len() == 12,
        n <= 6,
    ensures
        parse_pairs(mac_digits(mac, upper), n) == Ok::<Seq<u8>, MacError>(mac.take(n as int)),
    decreases n,
{
    if n == 0 {
        assert(mac.take(0) =~= Seq::<u8>::empty());
    } else {
        lemma_parse_mac_digits(mac, upper, (n - 1) as nat);
        let b = mac[n - 1];
        let d = mac_digits(mac, upper);
        let high = d[2 * (n - 1)];
        let low = d[2 * (n - 1) + 1];
        assert((2 * (n - 1)) / 2 == n - 1);
        assert((2 * (n - 1) + 1) / 2 == n - 1);
        assert(high == hex_digit_char((b / 16) as int, upper[2 * (n - 1)]));
        assert(low == hex_digit_char((b % 16) as int, upper[2 * (n - 1) + 1]));
        lemma_hex_digit_char((b / 16) as int, upper[2 * (n - 1)]);
        lemma_hex_digit_char((b % 16) as int, upper[2 * (n - 1) + 1]);
        lemma_pair_utf8(high, low);
        assert(pair_value(high, low) == Some(b));
        assert(mac.take(n as int) =~= mac.take(n - 1).push(b));
    }
}

/// Writing a MAC address as six pairs of base-16 digits, each digit in either
/// case, the pairs separated by `:`, by `-` or by nothing, and parsing the
/// text gives the address back.
pub proof fn law_parse_written_mac(mac: Seq<u8>, upper: Seq<bool>, sep: Seq<u8>)
    requires
        mac.len() == 6,
        upper.len() == 12,
        sep == Seq::<u8>::empty() || sep == seq![0x3au8] || sep == seq![0x2du8],
    ensures
        spec_parse_mac(mac_text(mac, upper, sep, 6)) == Ok::<Seq<u8>, MacError>(mac),
{
    assert(strip_separators(sep) =~= Seq::<u8>::empty()) by {
        if sep.len() == 1 {
            assert(sep.drop_last() =~= Seq::<u8>::empty());
            assert(strip_separators(sep.drop_last()) =~= Seq::<u8>::empty());
        }
    }
    lemma_mac_text_digits(mac, upper, sep, 6);
    assert(mac_digits(mac, upper).take(12) =~= mac_digits(mac, upper));
    lemma_parse_mac_digits(mac, upper, 6);
    assert(mac.take(6) =~= mac);
}

/// The two usual spellings, `AA:BB:CC:DD:EE:FF` (upper case, `:`) and
/// `aa-bb-cc-dd-ee-ff` (lower case, `-`), both parse back to the address.
pub proof fn law_parse_usual_spellings(mac: Seq<u8>)
    requires
        mac.len() == 6,
    ensures
        spec_parse_mac(mac_text(mac, Seq::new(12, |i: int| true), seq![0x3au8], 6)) == Ok::<
            Seq<u8>,
            MacError,
        >(mac),
        spec_parse_mac(mac_text(mac, Seq::new(12, |i: int| false), seq![0x2du8], 6)) == Ok::<
            Seq<u8>,
            MacError,
        >(mac),
{
    law_parse_written_mac(mac, Seq::new(12, |i: int| true), seq![0x3au8]);
    law_parse_written_mac(mac, Seq::new(12, |i: int| false), seq![0x2du8]);
}

/// The digits `0-9`, `a-f` and `A-F` stand for 0 to 15; no other byte is a digit.
/// A pair of digits stands for sixteen times the first plus the second, and a
/// `+` followed by a digit for that digit.
pub proof fn law_hex_digit_values(v: int, w: int, b: u8)
    requires
        0 <= v < 16,
        0 <= w < 16,
    ensures
        ({
            let lower = seq![
                0x30u8, 0x31u8, 0x32u8, 0x33u8, 0x34u8, 0x35u8, 0x36u8, 0x37u8, 0x38u8, 0x39u8,
                0x61u8, 0x62u8, 0x63u8, 0x64u8, 0x65u8, 0x66u8,
            ];
            let upper = seq![
                0x30u8, 0x31u8, 0x32u8, 0x33u8, 0x34u8, 0x35u8, 0x36u8, 0x37u8, 0x38u8, 0x39u8,
                0x41u8, 0x42u8, 0x43u8, 0x44u8, 0x45u8, 0x46u8,
            ];
            &&& hex_digit_value(lower[v]) == Some(v as u8)
            &&& hex_digit_value(upper[v]) == Some(v as u8)
            &&& pair_value(lower[v], upper[w]) == Some((16 * v + w) as u8)
            &&& pair_value(upper[v], lower[w]) == Some((16 * v + w) as u8)
            &&& pair_value(0x2bu8, lower[w]) == Some(w as u8)
            &&& (!lower.contains(b) && !upper.contains(b) ==> hex_digit_value(b) is None)
        }),
{
    let lower = seq![
        0x30u8, 0x31u8, 0x32u8, 0x33u8, 0x34u8, 0x35u8, 0x36u8, 0x37u8, 0x38u8, 0x39u8,
        0x61u8, 0x62u8, 0x63u8, 0x64u8, 0x65u8, 0x66u8,
    ];
    let upper = seq![
        0x30u8, 0x31u8, 0x32u8, 0x33u8, 0x34u8, 0x35u8, 0x36u8, 0x37u8, 0x38u8, 0x39u8,
        0x41u8, 0x42u8, 0x43u8, 0x44u8, 0x45u8, 0x46u8,
    ];
    if !lower.contains(b) && !upper.contains(b) {
        if 0x30 <= b <= 0x39 {
            assert(lower[b - 0x30] == b);
        } else if 0x61 <= b <= 0x66 {
            assert(lower[b - 0x61 + 10] == b);
        } else if 0x41 <= b <= 0x46 {
            assert(upper[b - 0x41 + 10] == b);
        }
    }
}

/// Removing separators drops exactly the `:` and `-` bytes: text without them
/// is kept whole, and a `:` or `-` anywhere is as if it were not there.
pub proof fn law_strip_separators(a: Seq<u8>, b: Seq<u8>, sep: u8)
    requires
        sep == 0x3a || sep == 0x2d,
    ensures
        (forall|i: int| 0 <= i < a.len() ==> #[trigger] a[i] != 0x3a && a[i] != 0x2d)
            ==> strip_separators(a) == a,
        strip_separators(a + seq![sep] + b) == strip_separators(a + b),
{
    lemma_strip_keeps_plain(a);
    lemma_strip_concat(a + seq![sep], b);
    lemma_strip_concat(a, seq![sep]);
    lemma_strip_concat(a, b);
    assert(seq![sep].drop_last() =~= Seq::<u8>::empty());
    assert(strip_separators(seq![sep].drop_last()) =~= Seq::<u8>::empty());
    assert(strip_separators(a) + strip_separators(seq![sep]) =~= strip_separators(a));
}

proof fn lemma_strip_keeps_plain(a: Seq<u8>)
    ensures
        (forall|i: int| 0 <= i < a.len() ==> #[trigger] a[i] != 0x3a && a[i] != 0x2d)
            ==> strip_separators(a) == a,
    decreases a.len(),
{
    if a.len() > 0 && (forall|i: int| 0 <= i < a.len() ==> #[trigger] a[i] != 0x3a && a[i] != 0x2d) {
        let r = a.drop_last();
        assert forall|i: int| 0 <= i < r.len() implies #[trigger] r[i] != 0x3a && r[i] != 0x2d by {
            assert(r[i] == a[i]);
        }
        lemma_strip_keeps_plain(r);
        assert(a.last() == a[a.len() - 1]);
        assert(r.push(a.last()) =~= a);
    }
}

proof fn lemma_parse_pairs_ok(digits: Seq<u8>, n: nat)
    requires
        digits.len() >= 2 * n,
    ensures
        parse_pairs(digits, n) matches Ok(v) ==> v.len() == n && forall|k: int|
            0 <= k < n ==> pair_value(digits[2 * k], digits[2 * k + 1]) == Some(#[trigger] v[k]),
    decreases n,
{
    if n > 0 {
        lemma_parse_pairs_ok(digits, (n - 1) as nat);
        if let Ok(v) = parse_pairs(digits, n) {
            if let Ok(w) = parse_pairs(digits, (n - 1) as nat) {
                assert forall|k: int| 0 <= k < n implies pair_value(digits[2 * k], digits[2 * k + 1])
                    == Some(#[trigger] v[k]) by {
                    if k < n - 1 {
                        assert(v[k] == w[k]);
                    }
                }
            }
        }
    }
}

/// A MAC address is read from exactly twelve bytes that are not `:` or `-`;
/// each byte of the address is the number its pair of digits stands for, and
/// any other count of such bytes is refused as the wrong length.
pub proof fn law_parse_mac_result(bytes: Seq<u8>)
    ensures
        strip_separators(bytes).len() != 12 ==> spec_parse_mac(bytes) == Err::<Seq<u8>, MacError>(
            MacError::InvalidLength,
        ),
        spec_parse_mac(bytes) matches Ok(mac) ==> {
            let d = strip_separators(bytes);
            &&& d.len() == 12
            &&& mac.len() == 6
            &&& forall|k: int|
                0 <= k < 6 ==> pair_value(d[2 * k], d[2 * k + 1]) == Some(#[trigger] mac[k])
        },
{
    let d = strip_separators(bytes);
    if d.len() == 12 {
        lemma_parse_pairs_ok(d, 6);
    }
}

} // verus!
