//! Numbers as text: decimal for notices and paths, hexadecimal for tokens.
use vstd::prelude::*;
use vstd::string::*;
use vstd::utf8::{encode_utf8, is_ascii_chars, is_ascii_chars_encode_utf8};

verus! {

/// The digit of value `d`, for `d < 16`.
pub open spec fn digit(d: int) -> char {
    "0123456789abcdef"@[d]
}

/// `n` in decimal, without leading zeros.
pub open spec fn decimal(n: nat) -> Seq<char>
    decreases n,
{
    if n < 10 {
        seq![digit(n as int)]
    } else {
        decimal(n / 10).push(digit((n % 10) as int))
    }
}

/// The last `width` hexadecimal digits of `n`.
pub open spec fn hex_digits(n: nat, width: nat) -> Seq<char>
    decreases width,
{
    if width == 0 {
        Seq::empty()
    } else {
        hex_digits(n / 16, (width - 1) as nat).push(digit((n % 16) as int))
    }
}

/// The text of a token: its sixteen hexadecimal digits.
pub open spec fn token_text(token: u64) -> Seq<char> {
    hex_digits(token as nat, 16)
}

/// Whether `b` is an ASCII hexadecimal digit, of either case.
pub open spec fn is_hex(b: u8) -> bool {
    48 <= b <= 57 || 65 <= b <= 70 || 97 <= b <= 102
}

/// The value of an ASCII hexadecimal digit.
pub open spec fn hex_digit_value(b: u8) -> nat {
    if b <= 57 {
        (b - 48) as nat
    } else if b <= 70 {
        (b - 55) as nat
    } else {
        (b - 87) as nat
    }
}

/// Whether `s` is made of hexadecimal digits, at least one.
pub open spec fn is_hex_number(s: Seq<u8>) -> bool {
    s.len() > 0 && forall|i: int| 0 <= i < s.len() ==> is_hex(#[trigger] s[i])
}

/// The number that a run of hexadecimal digits denotes.
pub open spec fn hex_value(s: Seq<u8>) -> nat
    decreases s.len(),
{
    if s.len() == 0 {
        0
    } else {
        hex_value(s.drop_last()) * 16 + hex_digit_value(s.last())
    }
}

/// The token that a run of hexadecimal digits denotes, if it is small enough to
/// be one.
pub open spec fn token_value(s: Seq<u8>) -> Option<u64> {
    if hex_value(s) <= u64::MAX {
        Some(hex_value(s) as u64)
    } else {
        None
    }
}

fn append_digit(text: &mut String, d: usize)
    requires
        d < 16,
    ensures
        final(text)@ == old(text)@.push(digit(d as int)),
{
    let digits = "0123456789abcdef";
    proof {
        reveal_strlit("0123456789abcdef");
    }
    text.append(digits.substring_ascii(d, d + 1));
    assert(text@ =~= old(text)@.push(digit(d as int)));
}

/// Appends `n` in decimal.
pub fn append_decimal(text: &mut String, n: u64)
    ensures
        final(text)@ == old(text)@ + decimal(n as nat),
    decreases n,
{
    let ghost before = text@;
    if n >= 10 {
        append_decimal(text, n / 10);
    }
    append_digit(text, (n % 10) as usize);
    assert(text@ =~= before + decimal(n as nat));
}

fn append_hex(text: &mut String, n: u64, width: usize)
    ensures
        final(text)@ == old(text)@ + hex_digits(n as nat, width as nat),
    decreases width,
{
    let ghost before = text@;
    if width > 0 {
        append_hex(text, n / 16, width - 1);
        append_digit(text, (n % 16) as usize);
    }
    assert(text@ =~= before + hex_digits(n as nat, width as nat));
}

/// Appends the sixteen hexadecimal digits of `token`.
pub fn append_token(text: &mut String, token: u64)
    ensures
        final(text)@ == old(text)@ + token_text(token),
{
    append_hex(text, token, 16)
}

/// Whether `b` is an ASCII hexadecimal digit.
pub fn hex_byte(b: u8) -> (r: bool)
    ensures
        r == is_hex(b),
        r <==> ('0' as u8 <= b <= '9' as u8 || 'a' as u8 <= b <= 'f' as u8 || 'A' as u8 <= b
            <= 'F' as u8),
{
    (48 <= b && b <= 57) || (65 <= b && b <= 70) || (97 <= b && b <= 102)
}

proof fn lemma_hex_value_grows(s: Seq<u8>, k: int)
    requires
        0 <= k <= s.len(),
    ensures
        hex_value(s.take(k)) <= hex_value(s),
    decreases s.len() - k,
{
    if k == s.len() {
        assert(s.take(k) =~= s);
    } else {
        lemma_hex_value_grows(s, k + 1);
        assert(s.take(k + 1).drop_last() =~= s.take(k));
    }
}

/// Reads a run of hexadecimal digits as a token; one too large for any token
/// gives nothing.
pub fn parse_token(s: &[u8]) -> (r: Option<u64>)
    requires
        is_hex_number(s@),
    ensures
        r == token_value(s@),
        r is Some <==> s@.fold_left(0int, hex_step()) <= u64::MAX,
        r is Some ==> r->0 == s@.fold_left(0int, hex_step()),
{
    proof {
        law_hex_numbers(s@);
    }
    let mut value: u64 = 0;
    let mut i: usize = 0;
    while i < s.len()
        invariant
            i <= s@.len(),
            value == hex_value(s@.take(i as int)),
            is_hex_number(s@),
            hex_value(s@) == s@.fold_left(0int, hex_step()),
        decreases s@.len() - i,
    {
        let b: u8 = s[i];
        assert(is_hex(s@[i as int]));
        let d: u64 = if b <= 57 {
            (b - 48) as u64
        } else if b <= 70 {
            (b - 55) as u64
        } else {
            (b - 87) as u64
        };
        proof {
            assert(s@.take(i + 1).drop_last() =~= s@.take(i as int));
            lemma_hex_value_grows(s@, i + 1);
        }
        if value > 0x0fff_ffff_ffff_ffff {
            return None;
        }
        value = value * 16 + d;
        i += 1;
    }
    assert(s@.take(i as int) =~= s@);
    Some(value)
}

/// The number of values that `width` hexadecimal digits can tell apart.
spec fn hex_range(width: nat) -> nat
    decreases width,
{
    if width == 0 {
        1
    } else {
        hex_range((width - 1) as nat) * 16
    }
}

proof fn lemma_digit(d: int)
    requires
        0 <= d < 16,
    ensures
        '\0' <= digit(d) <= '\u{7f}',
        is_hex(digit(d) as u8),
        hex_digit_value(digit(d) as u8) == d,
{
    reveal_strlit("0123456789abcdef");
}

proof fn lemma_hex_digits(n: nat, width: nat)
    requires
        n < hex_range(width),
    ensures
        hex_digits(n, width).len() == width,
        is_ascii_chars(hex_digits(n, width)),
        forall|i: int|
            0 <= i < width ==> is_hex(#[trigger] encode_utf8(hex_digits(n, width))[i]),
        hex_value(encode_utf8(hex_digits(n, width))) == n,
    decreases width,
{
    let text = hex_digits(n, width);
    if width == 0 {
        assert(encode_utf8(text) =~= Seq::empty());
    } else {
        let head = hex_digits(n / 16, (width - 1) as nat);
        lemma_hex_digits(n / 16, (width - 1) as nat);
        lemma_digit((n % 16) as int);
        is_ascii_chars_encode_utf8(head);
        is_ascii_chars_encode_utf8(text);
        let bytes = encode_utf8(text);
        assert forall|i: int| 0 <= i < head.len() implies bytes[i] == encode_utf8(head)[i] by {
            assert(text[i] == head[i]);
        }
        assert(bytes.drop_last() =~= encode_utf8(head));
        assert(text[width - 1] == digit((n % 16) as int));
        assert(bytes.last() == digit((n % 16) as int) as u8);
    }
}

/// A token survives being written and read back: its text is a hexadecimal
/// number of sixteen ASCII digits, and it denotes the token.
pub proof fn law_token_text_round_trips(token: u64)
    ensures
        token_text(token).len() == 16,
        is_ascii_chars(token_text(token)),
        encode_utf8(token_text(token)).len() == 16,
        is_hex_number(encode_utf8(token_text(token))),
        token_value(encode_utf8(token_text(token))) == Some(token),
{
    reveal_with_fuel(hex_range, 17);
    lemma_hex_digits(token as nat, 16);
    is_ascii_chars_encode_utf8(token_text(token));
}

/// One step of reading a hexadecimal number: the value so far and the next digit.
pub open spec fn hex_step() -> spec_fn(int, u8) -> int {
    |v: int, b: u8|
        v * 16 + if b <= '9' as u8 {
            b - '0' as u8
        } else if b <= 'F' as u8 {
            b - 'A' as u8 + 10
        } else {
            b - 'a' as u8 + 10
        }
}

/// The digits are the decimal ones, then the letters from `a` to `f`.
pub proof fn law_digits(d: int)
    ensures
        0 <= d < 10 ==> digit(d) as int == '0' as int + d,
        10 <= d < 16 ==> digit(d) as int == 'a' as int + (d - 10),
{
    reveal_strlit("0123456789abcdef");
}

proof fn lemma_decimal(n: nat, step: spec_fn(int, char) -> int)
    requires
        forall|v: int, c: char| #[trigger] step(v, c) == v * 10 + (c as int - '0' as int),
    ensures
        decimal(n).len() > 0,
        forall|i: int| 0 <= i < decimal(n).len() ==> '0' <= #[trigger] decimal(n)[i] <= '9',
        decimal(n)[0] == '0' ==> n == 0,
        n == 0 ==> decimal(n).len() == 1,
        decimal(n).fold_left(0int, step) == n,
    decreases n,
{
    let text = decimal(n);
    if n < 10 {
        law_digits(n as int);
        assert(text.drop_last() =~= Seq::empty());
        assert(text.drop_last().fold_left(0int, step) == 0);
    } else {
        lemma_decimal(n / 10, step);
        law_digits((n % 10) as int);
        assert(text.drop_last() =~= decimal(n / 10));
        assert(text.last() == digit((n % 10) as int));
        assert(text[0] == decimal(n / 10)[0]);
    }
}

/// The decimal text of a number is made of decimal digits, starts with `0` only
/// for zero itself, and reads back as the number.
pub proof fn law_decimal_text_reads_back(n: nat)
    ensures
        decimal(n).len() > 0,
        forall|i: int| 0 <= i < decimal(n).len() ==> '0' <= #[trigger] decimal(n)[i] <= '9',
        decimal(n)[0] == '0' ==> n == 0 && decimal(n).len() == 1,
        decimal(n).fold_left(0int, |v: int, c: char| v * 10 + (c as int - '0' as int)) == n,
{
    lemma_decimal(n, |v: int, c: char| v * 10 + (c as int - '0' as int));
}

proof fn lemma_hex_text(n: nat, width: nat, step: spec_fn(int, char) -> int)
    requires
        n < hex_range(width),
        forall|v: int, c: char|
            #[trigger] step(v, c) == v * 16 + if c <= '9' {
                c as int - '0' as int
            } else {
                c as int - 'a' as int + 10
            },
    ensures
        hex_digits(n, width).len() == width,
        forall|i: int|
            0 <= i < width ==> ('0' <= #[trigger] hex_digits(n, width)[i] <= '9' || 'a'
                <= hex_digits(n, width)[i] <= 'f'),
        hex_digits(n, width).fold_left(0int, step) == n,
    decreases width,
{
    let text = hex_digits(n, width);
    if width > 0 {
        let head = hex_digits(n / 16, (width - 1) as nat);
        lemma_hex_text(n / 16, (width - 1) as nat, step);
        law_digits((n % 16) as int);
        assert(text.drop_last() =~= head);
        assert(text.last() == digit((n % 16) as int));
        assert forall|i: int| 0 <= i < width implies ('0' <= #[trigger] text[i] <= '9' || 'a'
            <= text[i] <= 'f') by {
            if i < width - 1 {
                assert(text[i] == head[i]);
            }
        }
    }
}

/// The text of a token is sixteen lower-case hexadecimal digits that read as the
/// token.
pub proof fn law_token_text_reads_back(token: u64)
    ensures
        token_text(token).len() == 16,
        forall|i: int|
            0 <= i < 16 ==> ('0' <= #[trigger] token_text(token)[i] <= '9' || 'a' <= token_text(
                token,
            )[i] <= 'f'),
        token_text(token).fold_left(
            0int,
            |v: int, c: char|
                v * 16 + if c <= '9' {
                    c as int - '0' as int
                } else {
                    c as int - 'a' as int + 10
                },
        ) == token,
{
    reveal_with_fuel(hex_range, 17);
    lemma_hex_text(
        token as nat,
        16,
        |v: int, c: char|
            v * 16 + if c <= '9' {
                c as int - '0' as int
            } else {
                c as int - 'a' as int + 10
            },
    );
}

proof fn lemma_hex_value_is_fold(s: Seq<u8>, step: spec_fn(int, u8) -> int)
    requires
        forall|i: int| 0 <= i < s.len() ==> is_hex(#[trigger] s[i]),
        forall|v: int, b: u8|
            #[trigger] step(v, b) == v * 16 + if b <= '9' as u8 {
                b - '0' as u8
            } else if b <= 'F' as u8 {
                b - 'A' as u8 + 10
            } else {
                b - 'a' as u8 + 10
            },
    ensures
        hex_value(s) == s.fold_left(0int, step),
    decreases s.len(),
{
    if s.len() > 0 {
        let head = s.drop_last();
        assert forall|i: int| 0 <= i < head.len() implies is_hex(#[trigger] head[i]) by {
            assert(head[i] == s[i]);
        }
        lemma_hex_value_is_fold(head, step);
        assert(is_hex(s[s.len() - 1]));
    }
}

/// A run of bytes is a hexadecimal number if and only if it is not empty and each
/// byte is a digit or a letter from `a` to `f` of either case. It then denotes the
/// number that its digits spell, and that number is a token if it fits.
pub proof fn law_hex_numbers(s: Seq<u8>)
    ensures
        is_hex_number(s) <==> s.len() > 0 && forall|i: int|
            0 <= i < s.len() ==> ('0' as u8 <= #[trigger] s[i] <= '9' as u8 || 'a' as u8 <= s[i]
                <= 'f' as u8 || 'A' as u8 <= s[i] <= 'F' as u8),
        is_hex_number(s) ==> {
            let value = s.fold_left(
                0int,
                |v: int, b: u8|
                    v * 16 + if b <= '9' as u8 {
                        b - '0' as u8
                    } else if b <= 'F' as u8 {
                        b - 'A' as u8 + 10
                    } else {
                        b - 'a' as u8 + 10
                    },
            );
            &&& s.fold_left(0int, hex_step()) == value
            &&& hex_value(s) == value
            &&& value <= u64::MAX ==> token_value(s) == Some(value as u64)
            &&& value > u64::MAX ==> token_value(s) is None
        },
{
    if s.len() > 0 && forall|i: int|
        0 <= i < s.len() ==> ('0' as u8 <= #[trigger] s[i] <= '9' as u8 || 'a' as u8 <= s[i]
            <= 'f' as u8 || 'A' as u8 <= s[i] <= 'F' as u8) {
        assert(forall|i: int| 0 <= i < s.len() ==> is_hex(#[trigger] s[i]));
    }
    if is_hex_number(s) {
        assert forall|i: int| 0 <= i < s.len() implies ('0' as u8 <= #[trigger] s[i] <= '9' as u8
            || 'a' as u8 <= s[i] <= 'f' as u8 || 'A' as u8 <= s[i] <= 'F' as u8) by {
            assert(is_hex(s[i]));
        }
        lemma_hex_value_is_fold(s, hex_step());
        lemma_hex_value_is_fold(
            s,
            |v: int, b: u8|
                v * 16 + if b <= '9' as u8 {
                    b - '0' as u8
                } else if b <= 'F' as u8 {
                    b - 'A' as u8 + 10
                } else {
                    b - 'a' as u8 + 10
                },
        );
    }
}

} // verus!
