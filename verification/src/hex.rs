//! Fixed-width hexadecimal text: two digits per byte, written in the case
//! asked for, read in either case.
use vstd::prelude::*;
use vstd::string::*;

verus! {

/// The digit for a value below 16: `A` to `F` where `upper` is set, else `a`
/// to `f`.
pub open spec fn hex_digit(n: int, upper: bool) -> char {
    if n < 10 {
        (48 + n) as u8 as char
    } else if upper {
        (55 + n) as u8 as char
    } else {
        (87 + n) as u8 as char
    }
}

/// The value of a hexadecimal digit of either case, `None` for any other
/// character.
pub open spec fn hex_value(c: char) -> Option<int> {
    if '0' <= c <= '9' {
        Some(c as int - 48)
    } else if 'A' <= c <= 'F' {
        Some(c as int - 55)
    } else if 'a' <= c <= 'f' {
        Some(c as int - 87)
    } else {
        None
    }
}

/// Two digits for each byte of `s`, high nibble first.
pub open spec fn hex_encode(s: Seq<u8>, upper: bool) -> Seq<char> {
    Seq::new(
        2 * s.len(),
        |i: int|
            if i % 2 == 0 {
                hex_digit(s[i / 2] as int / 16, upper)
            } else {
                hex_digit(s[i / 2] as int % 16, upper)
            },
    )
}

/// Whether `t` is an even number of hexadecimal digits.
pub open spec fn is_hex_text(t: Seq<char>) -> bool {
    &&& t.len() % 2 == 0
    &&& forall|i: int| 0 <= i < t.len() ==> (#[trigger] hex_value(t[i])) is Some
}

/// The bytes that the digits of `t` stand for, two digits to a byte.
pub open spec fn hex_decode(t: Seq<char>) -> Seq<u8> {
    Seq::new(
        t.len() / 2,
        |i: int| (hex_value(t[2 * i]).unwrap() * 16 + hex_value(t[2 * i + 1]).unwrap()) as u8,
    )
}

/// A digit that was written reads back as its value.
pub proof fn lemma_hex_digit_value(n: int, upper: bool)
    requires
        0 <= n < 16,
    ensures
        hex_value(hex_digit(n, upper)) == Some(n),
{
}

/// Text that was written from bytes is hexadecimal and reads back as those
/// bytes.
pub proof fn lemma_hex_round_trip(s: Seq<u8>, upper: bool)
    ensures
        hex_encode(s, upper).len() == 2 * s.len(),
        is_hex_text(hex_encode(s, upper)),
        hex_decode(hex_encode(s, upper)) == s,
{
    let t = hex_encode(s, upper);
    assert forall|i: int| 0 <= i < t.len() implies (#[trigger] hex_value(t[i])) is Some by {
        lemma_hex_digit_value(s[i / 2] as int / 16, upper);
        lemma_hex_digit_value(s[i / 2] as int % 16, upper);
    }
    assert forall|i: int| 0 <= i < s.len() implies hex_decode(t)[i] == s[i] by {
        lemma_hex_digit_value(s[i] as int / 16, upper);
        lemma_hex_digit_value(s[i] as int % 16, upper);
        assert((2 * i) / 2 == i && (2 * i) % 2 == 0);
        assert((2 * i + 1) / 2 == i && (2 * i + 1) % 2 == 1);
    }
    assert(hex_decode(t) =~= s);
}

/// The one-digit text for a value below 16.
fn hex_digit_str(n: u8, upper: bool) -> (s: &'static str)
    requires
        n < 16,
    ensures
        s@ == seq![hex_digit(n as int, upper)],
{
    let digits = if upper {
        "0123456789ABCDEF"
    } else {
        "0123456789abcdef"
    };
    proof {
        reveal_strlit("0123456789ABCDEF");
        reveal_strlit("0123456789abcdef");
        assert(digits@.len() == 16);
        assert(is_ascii(digits));
    }
    let s = digits.substring_ascii(n as usize, n as usize + 1);
    proof {
        assert(s@ =~= seq![digits@[n as int]]);
        assert(digits@[n as int] == hex_digit(n as int, upper));
    }
    s
}

/// Appends two digits for each byte of `bytes`.
pub fn append_hex(out: &mut String, bytes: &[u8], upper: bool)
    ensures
        final(out)@ == old(out)@ + hex_encode(bytes@, upper),
{
    let mut i: usize = 0;
    while i < bytes.len()
        invariant
            i <= bytes@.len(),
            out@ == old(out)@ + hex_encode(bytes@.subrange(0, i as int), upper),
        decreases bytes@.len() - i,
    {
        let b = bytes[i];
        out.append(hex_digit_str(b / 16, upper));
        out.append(hex_digit_str(b % 16, upper));
        proof {
            let shorter = bytes@.subrange(0, i as int);
            let longer = bytes@.subrange(0, i + 1);
            assert(hex_encode(longer, upper) =~= hex_encode(shorter, upper) + seq![
                hex_digit(b as int / 16, upper),
                hex_digit(b as int % 16, upper),
            ]);
            assert(out@ =~= old(out)@ + hex_encode(longer, upper));
        }
        i += 1;
    }
    assert(bytes@.subrange(0, i as int) =~= bytes@);
}

/// The value of the ASCII digit `b`, if it is a hexadecimal digit.
fn hex_value_of_byte(b: u8) -> (r: Option<u8>)
    requires
        b < 128,
    ensures
        r matches Some(v) ==> hex_value(b as char) == Some(v as int),
        r is None ==> hex_value(b as char) is None,
{
    if 48 <= b && b <= 57 {
        Some(b - 48)
    } else if 65 <= b && b <= 70 {
        Some(b - 55)
    } else if 97 <= b && b <= 102 {
        Some(b - 87)
    } else {
        None
    }
}

/// Reads hexadecimal text into bytes, two digits to a byte.
///
/// Fails on text of odd length and on any character that is no hexadecimal
/// digit.
pub fn parse_hex(text: &str) -> (r: Option<Vec<u8>>)
    ensures
        r matches Some(bytes) ==> is_hex_text(text@) && bytes@ == hex_decode(text@),
        r is None ==> !is_hex_text(text@),
{
    if !text.is_ascii() {
        proof {
            let i = choose|i: int|
                0 <= i < text@.len() && !('\0' <= #[trigger] text@[i] <= '\u{7f}');
            assert(hex_value(text@[i]) is None);
        }
        return None;
    }
    let raw = text.as_bytes();
    proof {
        is_ascii_spec_bytes(text);
    }
    let n = raw.len();
    if n % 2 != 0 {
        return None;
    }
    let mut out: Vec<u8> = Vec::new();
    let mut i: usize = 0;
    while i < n / 2
        invariant
            n == raw@.len(),
            n == text@.len(),
            n % 2 == 0,
            i <= n / 2,
            is_ascii(text),
            forall|j: int| 0 <= j < n ==> raw@[j] == text@[j] as u8,
            out@.len() == i,
            forall|j: int| 0 <= j < 2 * i ==> (#[trigger] hex_value(text@[j])) is Some,
            forall|j: int| 0 <= j < i ==> out@[j] == hex_decode(text@)[j],
        decreases n / 2 - i,
    {
        let hi_byte = raw[2 * i];
        let lo_byte = raw[2 * i + 1];
        proof {
            assert('\0' <= text@[2 * i] <= '\u{7f}');
            assert('\0' <= text@[2 * i + 1] <= '\u{7f}');
            assert(hi_byte as char == text@[2 * i]);
            assert(lo_byte as char == text@[2 * i + 1]);
        }
        let hi = hex_value_of_byte(hi_byte);
        let lo = hex_value_of_byte(lo_byte);
        match (hi, lo) {
            (Some(h), Some(l)) => {
                out.push(h * 16 + l);
            },
            _ => {
                return None;
            },
        }
        i += 1;
    }
    assert(out@ =~= hex_decode(text@));
    Some(out)
}

} // verus!
