//! Rendering integers, byte strings and strings as text.
use crate::fragment::Hint;
use vstd::prelude::*;
use vstd::string::StringExecFns;

verus! {

/// Relies on `String::push`: appends one character.
#[verifier::external_body]
pub(crate) fn push_char(s: &mut String, c: char)
    ensures
        final(s)@ == old(s)@.push(c),
{
    s.push(c)
}

/// What `{:?}` makes of a string: quoted, with escapes.
pub uninterp spec fn debug_text(s: Seq<char>) -> Seq<char>;

/// Relies on `<str as Debug>::fmt`: the text depends on the string alone.
#[verifier::external_body]
pub(crate) fn debug_str(s: &str) -> (r: String)
    ensures
        r@ == debug_text(s@),
{
    format!("{:?}", s)
}

/// The digit of value `d` (below 16).
pub open spec fn digit_char(d: nat, upper: bool) -> char {
    if d < 10 {
        (48 + d) as char
    } else if upper {
        (55 + d) as char
    } else {
        (87 + d) as char
    }
}

/// The digits of `x` in base `base`, most significant first, without leading
/// zeros (`0` for zero).
pub open spec fn digits(x: nat, base: nat, upper: bool) -> Seq<char>
    decreases x,
    via digits_decreases
{
    if base < 2 || x < base {
        seq![digit_char(x, upper)]
    } else {
        digits(x / base, base, upper).push(digit_char(x % base, upper))
    }
}

#[via_fn]
proof fn digits_decreases(x: nat, base: nat, upper: bool) {
    if !(base < 2 || x < base) {
        assert(x / base < x) by (nonlinear_arith)
            requires
                base >= 2,
                x >= base,
        ;
    }
}

/// `10` to the power `k`.
pub open spec fn ten_pow(k: nat) -> nat
    decreases k,
{
    if k == 0 {
        1
    } else {
        10 * ten_pow((k - 1) as nat)
    }
}

/// `s` padded on the left with zeros to `width` characters.
pub open spec fn zero_padded(s: Seq<char>, width: nat) -> Seq<char> {
    if s.len() >= width {
        s
    } else {
        Seq::new((width - s.len()) as nat, |i: int| '0') + s
    }
}

/// The value of `x` that binary and hexadecimal rendering show: its
/// two's-complement bit pattern in 128 bits.
pub open spec fn bit_pattern(x: i128) -> nat {
    if x < 0 {
        (x + 0x1_0000_0000_0000_0000_0000_0000_0000_0000) as nat
    } else {
        x as nat
    }
}

/// An unsigned integer rendered as `hint` asks.
pub open spec fn u128_text(x: u128, hint: Option<Hint>) -> Seq<char> {
    match hint {
        Some(Hint::Binary) => seq!['0', 'b'] + digits(x as nat, 2, false),
        Some(Hint::Hexadecimal { uppercase }) => if uppercase {
            seq!['0', 'X'] + digits(x as nat, 16, true)
        } else {
            seq!['0', 'x'] + digits(x as nat, 16, false)
        },
        Some(Hint::Microseconds) => digits(x as nat / 1_000_000, 10, false) + seq!['.']
            + zero_padded(digits(x as nat % 1_000_000, 10, false), 6),
        _ => digits(x as nat, 10, false),
    }
}

/// A signed integer rendered as `hint` asks.
pub open spec fn i128_text(x: i128, hint: Option<Hint>) -> Seq<char> {
    match hint {
        Some(Hint::Binary) => seq!['0', 'b'] + digits(bit_pattern(x), 2, false),
        Some(Hint::Hexadecimal { uppercase }) => if uppercase {
            seq!['0', 'X'] + digits(bit_pattern(x), 16, true)
        } else {
            seq!['0', 'x'] + digits(bit_pattern(x), 16, false)
        },
        _ => if x < 0 {
            seq!['-'] + digits((-x) as nat, 10, false)
        } else {
            digits(x as nat, 10, false)
        },
    }
}

fn digit(d: u128, upper: bool) -> (c: char)
    requires
        d < 16,
    ensures
        c == digit_char(d as nat, upper),
{
    if d < 10 {
        let c = match d {
            0 => '0',
            1 => '1',
            2 => '2',
            3 => '3',
            4 => '4',
            5 => '5',
            6 => '6',
            7 => '7',
            8 => '8',
            _ => '9',
        };
        c
    } else if upper {
        match d {
            10 => 'A',
            11 => 'B',
            12 => 'C',
            13 => 'D',
            14 => 'E',
            _ => 'F',
        }
    } else {
        match d {
            10 => 'a',
            11 => 'b',
            12 => 'c',
            13 => 'd',
            14 => 'e',
            _ => 'f',
        }
    }
}

/// Appends the digits of `x` in base `base`.
pub fn push_digits(buf: &mut String, x: u128, base: u128, upper: bool)
    requires
        2 <= base <= 16,
    ensures
        final(buf)@ == old(buf)@ + digits(x as nat, base as nat, upper),
    decreases x,
{
    if x >= base {
        assert(x / base < x) by (nonlinear_arith)
            requires
                base >= 2,
                x >= base,
        ;
        push_digits(buf, x / base, base, upper);
    }
    push_char(buf, digit(x % base, upper));
    proof {
        if x < base {
            assert(x % base == x) by (nonlinear_arith)
                requires
                    x < base,
            ;
        }
        if x >= base {
            assert(digits(x as nat, base as nat, upper) == digits(
                (x / base) as nat,
                base as nat,
                upper,
            ).push(digit_char((x % base) as nat, upper)));
        }
    }
    assert(buf@ =~= old(buf)@ + digits(x as nat, base as nat, upper));
}

proof fn lemma_digits_len(x: nat, k: nat)
    requires
        1 <= k,
        x < ten_pow(k),
    ensures
        1 <= digits(x, 10, false).len() <= k,
    decreases k,
{
    if x >= 10 {
        reveal_with_fuel(ten_pow, 2);
        assert(k > 1);
        let t = ten_pow((k - 1) as nat);
        assert(x < 10 * t);
        assert(x / 10 < t) by (nonlinear_arith)
            requires
                x < 10 * t,
        ;
        lemma_digits_len(x / 10, (k - 1) as nat);
    }
}

/// Appends `x` rendered as `hint` asks.
pub fn push_u128(buf: &mut String, x: u128, hint: Option<Hint>)
    ensures
        final(buf)@ == old(buf)@ + u128_text(x, hint),
{
    match hint {
        Some(Hint::Binary) => {
            proof {
                reveal_strlit("0b");
            }
            buf.append("0b");
            push_digits(buf, x, 2, false);
            assert(buf@ =~= old(buf)@ + u128_text(x, hint));
        },
        Some(Hint::Hexadecimal { uppercase }) => {
            proof {
                reveal_strlit("0X");
                reveal_strlit("0x");
            }
            if uppercase {
                buf.append("0X");
            } else {
                buf.append("0x");
            }
            push_digits(buf, x, 16, uppercase);
            assert(buf@ =~= old(buf)@ + u128_text(x, hint));
        },
        Some(Hint::Microseconds) => {
            push_digits(buf, x / 1_000_000, 10, false);
            push_char(buf, '.');
            let micros = x % 1_000_000;
            let mut tmp = String::new();
            push_digits(&mut tmp, micros, 10, false);
            proof {
                reveal_with_fuel(ten_pow, 7);
                lemma_digits_len(micros as nat, 6);
            }
            let len = tmp.as_str().unicode_len();
            let mut k: usize = len;
            while k < 6
                invariant
                    len as nat == digits(micros as nat, 10, false).len(),
                    len <= k <= 6,
                    buf@ == old(buf)@ + digits(x as nat / 1_000_000, 10, false) + seq!['.']
                        + Seq::new((k - len) as nat, |i: int| '0'),
                decreases 6 - k,
            {
                push_char(buf, '0');
                assert(Seq::new((k + 1 - len) as nat, |i: int| '0') =~= Seq::new(
                    (k - len) as nat,
                    |i: int| '0',
                ).push('0'));
                k = k + 1;
            }
            buf.append(tmp.as_str());
            proof {
                if len < 6 {
                    assert(zero_padded(digits(micros as nat, 10, false), 6) =~= Seq::new(
                        (6 - len) as nat,
                        |i: int| '0',
                    ) + tmp@);
                } else {
                    assert(Seq::new((k - len) as nat, |i: int| '0') =~= Seq::<char>::empty());
                }
            }
            assert(buf@ =~= old(buf)@ + u128_text(x, hint));
        },
        _ => push_digits(buf, x, 10, false),
    }
}

/// Appends `x` rendered as `hint` asks.
pub fn push_i128(buf: &mut String, x: i128, hint: Option<Hint>)
    ensures
        final(buf)@ == old(buf)@ + i128_text(x, hint),
{
    proof {
        reveal_strlit("0b");
        reveal_strlit("0X");
        reveal_strlit("0x");
    }
    let pattern: u128 = if x < 0 {
        0xFFFF_FFFF_FFFF_FFFF_FFFF_FFFF_FFFF_FFFF - ((-(x + 1)) as u128)
    } else {
        x as u128
    };
    match hint {
        Some(Hint::Binary) => {
            buf.append("0b");
            push_digits(buf, pattern, 2, false);
        },
        Some(Hint::Hexadecimal { uppercase }) => {
            if uppercase {
                buf.append("0X");
            } else {
                buf.append("0x");
            }
            push_digits(buf, pattern, 16, uppercase);
        },
        _ => {
            if x < 0 {
                push_char(buf, '-');
                push_digits(buf, ((-(x + 1)) as u128) + 1, 10, false);
            } else {
                push_digits(buf, x as u128, 10, false);
            }
        },
    }
    assert(buf@ =~= old(buf)@ + i128_text(x, hint));
}

/// How a byte shows inside a byte-string literal.
pub open spec fn byte_escape(c: u8) -> Seq<char> {
    if c == 9 {
        seq!['\\', 't']
    } else if c == 10 {
        seq!['\\', 'n']
    } else if c == 13 {
        seq!['\\', 'r']
    } else if c == 32 {
        seq![' ']
    } else if c == 34 {
        seq!['\\', '"']
    } else if c == 92 {
        seq!['\\', '\\']
    } else if 0x21 <= c && c <= 0x7E {
        seq![c as char]
    } else {
        seq!['\\', 'x', digit_char((c / 16) as nat, false), digit_char((c % 16) as nat, false)]
    }
}

/// The escaped bodies of the first `n` bytes of `b`.
pub open spec fn escaped(b: Seq<u8>, n: nat) -> Seq<char>
    decreases n,
{
    if n == 0 || n > b.len() {
        Seq::empty()
    } else {
        escaped(b, (n - 1) as nat) + byte_escape(b[n - 1])
    }
}

/// How a byte shows as an element of a byte list.
pub open spec fn byte_item(c: u8, hint: Option<Hint>) -> Seq<char> {
    match hint {
        Some(Hint::Binary) | Some(Hint::Hexadecimal { .. }) => u128_text(c as u128, hint),
        _ => digits(c as nat, 10, false),
    }
}

/// The first `n` bytes of `b` as list elements, separated by `", "`.
pub open spec fn byte_items(b: Seq<u8>, n: nat, hint: Option<Hint>) -> Seq<char>
    decreases n,
{
    if n == 0 || n > b.len() {
        Seq::empty()
    } else if n == 1 {
        byte_item(b[0], hint)
    } else {
        byte_items(b, (n - 1) as nat, hint) + seq![',', ' '] + byte_item(b[n - 1], hint)
    }
}

/// Bytes rendered as `hint` asks: a byte-string literal for `Ascii`, else a
/// list of numbers.
pub open spec fn bytes_text(b: Seq<u8>, hint: Option<Hint>) -> Seq<char> {
    match hint {
        Some(Hint::Ascii) => seq!['b', '"'] + escaped(b, b.len()) + seq!['"'],
        _ => seq!['['] + byte_items(b, b.len(), hint) + seq![']'],
    }
}

fn push_escaped(buf: &mut String, c: u8)
    ensures
        final(buf)@ == old(buf)@ + byte_escape(c),
{
    if c == 9 {
        push_char(buf, '\\');
        push_char(buf, 't');
    } else if c == 10 {
        push_char(buf, '\\');
        push_char(buf, 'n');
    } else if c == 13 {
        push_char(buf, '\\');
        push_char(buf, 'r');
    } else if c == 32 {
        push_char(buf, ' ');
    } else if c == 34 {
        push_char(buf, '\\');
        push_char(buf, '"');
    } else if c == 92 {
        push_char(buf, '\\');
        push_char(buf, '\\');
    } else if 0x21 <= c && c <= 0x7E {
        push_char(buf, c as char);
    } else {
        push_char(buf, '\\');
        push_char(buf, 'x');
        push_char(buf, digit((c / 16) as u128, false));
        push_char(buf, digit((c % 16) as u128, false));
    }
    assert(buf@ =~= old(buf)@ + byte_escape(c));
}

/// Appends `bytes` rendered as `hint` asks.
pub fn push_bytes(buf: &mut String, bytes: &[u8], hint: Option<Hint>)
    ensures
        final(buf)@ == old(buf)@ + bytes_text(bytes@, hint),
{
    let ghost b = bytes@;
    match hint {
        Some(Hint::Ascii) => {
            push_char(buf, 'b');
            push_char(buf, '"');
            let ghost start = buf@;
            let mut i: usize = 0;
            while i < bytes.len()
                invariant
                    b == bytes@,
                    i <= b.len(),
                    buf@ == start + escaped(b, i as nat),
                decreases b.len() - i,
            {
                push_escaped(buf, bytes[i]);
                assert(buf@ =~= start + escaped(b, (i + 1) as nat));
                i = i + 1;
            }
            push_char(buf, '"');
            assert(buf@ =~= old(buf)@ + bytes_text(b, hint));
        },
        _ => {
            push_char(buf, '[');
            let ghost start = buf@;
            let mut i: usize = 0;
            while i < bytes.len()
                invariant
                    b == bytes@,
                    i <= b.len(),
                    buf@ == start + byte_items(b, i as nat, hint),
                decreases b.len() - i,
            {
                if i > 0 {
                    push_char(buf, ',');
                    push_char(buf, ' ');
                }
                match hint {
                    Some(Hint::Binary) | Some(Hint::Hexadecimal { .. }) => push_u128(
                        buf,
                        bytes[i] as u128,
                        hint,
                    ),
                    _ => push_digits(buf, bytes[i] as u128, 10, false),
                }
                assert(buf@ =~= start + byte_items(b, (i + 1) as nat, hint));
                i = i + 1;
            }
            push_char(buf, ']');
            assert(buf@ =~= old(buf)@ + bytes_text(b, hint));
        },
    }
}

} // verus!
