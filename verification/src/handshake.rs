//! The handshake by which a data connection presents a token.
use crate::text::{
    hex_byte, is_hex, is_hex_number, law_hex_numbers, law_token_text_round_trips, parse_token,
    token_text, token_value,
};
use vstd::prelude::*;
use vstd::slice::slice_subrange;
use vstd::string::*;
use vstd::utf8::{encode_utf8, is_ascii_chars, is_ascii_chars_encode_utf8};

verus! {

/// Whether `data` starts with `TOKEN `, hexadecimal digits up to position `end`,
/// and a line feed there.
pub open spec fn is_handshake(data: Seq<u8>, end: int) -> bool {
    &&& 6 < end < data.len()
    &&& data.take(6) == encode_utf8("TOKEN "@)
    &&& is_hex_number(data.subrange(6, end))
    &&& data[end] == 10
}

/// What a handshake consists of.
pub struct HandshakeView {
    /// The token that it presents, if its digits can be one.
    pub token: Option<u64>,
    /// The bytes after it.
    pub rest: Seq<u8>,
}

/// The handshake at the start of `data`, if there is one.
pub open spec fn handshake(data: Seq<u8>) -> Option<HandshakeView> {
    if exists|end: int| is_handshake(data, end) {
        let end = choose|end: int| is_handshake(data, end);
        Some(
            HandshakeView {
                token: token_value(data.subrange(6, end)),
                rest: data.skip(end + 1),
            },
        )
    } else {
        None
    }
}

/// What [`parse_handshake`] finds: the token, and where the bytes after the
/// handshake start.
pub struct Handshake {
    pub token: Option<u64>,
    pub len: usize,
}

pub(crate) proof fn lemma_one_handshake(data: Seq<u8>, a: int, b: int)
    requires
        is_handshake(data, a),
        is_handshake(data, b),
    ensures
        a == b,
{
    if a < b {
        assert(data.subrange(6, b)[a - 6] == data[a]);
    }
    if b < a {
        assert(data.subrange(6, a)[b - 6] == data[b]);
    }
}

/// Looks for a handshake at the start of `data`.
pub fn parse_handshake(data: &[u8]) -> (r: Option<Handshake>)
    ensures
        match r {
            Some(h) => {
                &&& h.len <= data@.len()
                &&& handshake(data@) == Some(
                    HandshakeView { token: h.token, rest: data@.skip(h.len as int) },
                )
            },
            None => handshake(data@) is None,
        },
        r matches Some(h) ==> {
            &&& 8 <= h.len <= data@.len()
            &&& data@[0] == 'T' as u8 && data@[1] == 'O' as u8 && data@[2] == 'K' as u8
            &&& data@[3] == 'E' as u8 && data@[4] == 'N' as u8 && data@[5] == ' ' as u8
            &&& data@[h.len - 1] == '\n' as u8
            &&& forall|i: int|
                6 <= i < h.len - 1 ==> ('0' as u8 <= #[trigger] data@[i] <= '9' as u8 || 'a' as u8
                    <= data@[i] <= 'f' as u8 || 'A' as u8 <= data@[i] <= 'F' as u8)
        },
{
    proof {
        law_handshakes_start_with_the_word(data@);
    }
    let prefix = "TOKEN ".as_bytes();
    proof {
        reveal_strlit("TOKEN ");
        is_ascii_chars_encode_utf8("TOKEN "@);
    }
    if data.len() <= 6 {
        return None;
    }
    let mut k: usize = 0;
    while k < 6
        invariant
            k <= 6,
            6 < data@.len(),
            prefix@ == encode_utf8("TOKEN "@),
            prefix@.len() == 6,
            forall|j: int| 0 <= j < k ==> data@[j] == prefix@[j],
        decreases 6 - k,
    {
        if data[k] != prefix[k] {
            proof {
                assert(data@.take(6)[k as int] != prefix@[k as int]);
            }
            return None;
        }
        k += 1;
    }
    assert(data@.take(6) =~= encode_utf8("TOKEN "@));
    let mut end: usize = 6;
    while end < data.len() && hex_byte(data[end])
        invariant
            6 <= end <= data@.len(),
            forall|j: int| 6 <= j < end ==> is_hex(#[trigger] data@[j]),
        decreases data@.len() - end,
    {
        end += 1;
    }
    if end == 6 || end == data.len() || data[end] != 10 {
        assert forall|e: int| !is_handshake(data@, e) by {
            if is_handshake(data@, e) {
                if e < end {
                    assert(is_hex(data@[e]));
                } else if end < e {
                    assert(is_hex(data@.subrange(6, e)[end - 6]));
                }
            }
        }
        return None;
    }
    proof {
        assert forall|j: int| 0 <= j < end - 6 implies is_hex(
            #[trigger] data@.subrange(6, end as int)[j],
        ) by {
            assert(is_hex(data@[j + 6]));
        }
        assert(is_handshake(data@, end as int));
        lemma_one_handshake(data@, choose|e: int| is_handshake(data@, e), end as int);
        assert forall|i: int| 6 <= i < end implies ('0' as u8 <= #[trigger] data@[i] <= '9' as u8
            || 'a' as u8 <= data@[i] <= 'f' as u8 || 'A' as u8 <= data@[i] <= 'F' as u8) by {
            assert(is_hex(data@[i]));
        }
    }
    Some(Handshake { token: parse_token(slice_subrange(data, 6, end)), len: end + 1 })
}

/// A tool that sends `TOKEN `, the text of the token it was given and a line
/// feed presents that very token, whatever it sends along behind it.
pub proof fn law_handshake_presents_the_token(token: u64, rest: Seq<u8>)
    ensures
        handshake(encode_utf8("TOKEN "@ + token_text(token) + "\n"@) + rest) == Some(
            HandshakeView { token: Some(token), rest },
        ),
{
    let text = "TOKEN "@ + token_text(token) + "\n"@;
    let line = encode_utf8(text);
    let data = line + rest;
    reveal_strlit("TOKEN ");
    reveal_strlit("\n");
    law_token_text_round_trips(token);
    is_ascii_chars_encode_utf8(token_text(token));
    is_ascii_chars_encode_utf8("TOKEN "@);
    assert(is_ascii_chars(text)) by {
        assert forall|i: int| 0 <= i < text.len() implies '\0' <= #[trigger] text[i]
            <= '\u{7f}' by {
            if 6 <= i < 22 {
                assert(text[i] == token_text(token)[i - 6]);
            }
        }
    }
    is_ascii_chars_encode_utf8(text);
    assert forall|i: int| 0 <= i < 6 implies data[i] == encode_utf8("TOKEN "@)[i] by {
        assert(text[i] == "TOKEN "@[i]);
    }
    assert(data.take(6) =~= encode_utf8("TOKEN "@));
    assert forall|i: int| 0 <= i < 16 implies data[6 + i] == encode_utf8(token_text(token))[i] by {
        assert(text[6 + i] == token_text(token)[i]);
    }
    assert(data.subrange(6, 22) =~= encode_utf8(token_text(token)));
    assert(text[22] == '\n');
    assert(data[22] == 10);
    assert(is_handshake(data, 22));
    lemma_one_handshake(data, choose|e: int| is_handshake(data, e), 22);
    assert(data.skip(23) =~= rest);
}

proof fn lemma_word_bytes()
    ensures
        encode_utf8("TOKEN "@) == seq![
            'T' as u8,
            'O' as u8,
            'K' as u8,
            'E' as u8,
            'N' as u8,
            ' ' as u8,
        ],
{
    reveal_strlit("TOKEN ");
    is_ascii_chars_encode_utf8("TOKEN "@);
    let word = "TOKEN "@;
    assert(word[0] == 'T' && word[1] == 'O' && word[2] == 'K' && word[3] == 'E' && word[4] == 'N'
        && word[5] == ' ');
    assert(encode_utf8(word) =~= seq![
        'T' as u8,
        'O' as u8,
        'K' as u8,
        'E' as u8,
        'N' as u8,
        ' ' as u8,
    ]);
}

/// Nothing is taken for a handshake unless its first six bytes are those of the
/// word `TOKEN` and a space: all other data is raw, whatever it looks like.
pub proof fn law_handshakes_start_with_the_word(data: Seq<u8>)
    ensures
        data.len() < 8 ==> handshake(data) is None,
        handshake(data) is Some ==> {
            &&& data[0] == 'T' as u8 && data[1] == 'O' as u8 && data[2] == 'K' as u8
            &&& data[3] == 'E' as u8 && data[4] == 'N' as u8 && data[5] == ' ' as u8
        },
{
    lemma_word_bytes();
    if handshake(data) is Some {
        let end = choose|end: int| is_handshake(data, end);
        assert(is_handshake(data, end));
        let head = data.take(6);
        assert(head[0] == data[0] && head[1] == data[1] && head[2] == data[2]);
        assert(head[3] == data[3] && head[4] == data[4] && head[5] == data[5]);
    }
}

/// After the word come hexadecimal digits, at least one, and then a line feed;
/// what is presented is the number that the digits spell, and what follows the
/// line feed is the rest.
pub proof fn law_handshakes_end_at_the_line_feed(data: Seq<u8>)
    requires
        handshake(data) is Some,
    ensures
        ({
            let end = data.len() - handshake(data)->0.rest.len() - 1;
            let digits = data.subrange(6, end);
            let value = digits.fold_left(
                0int,
                |v: int, b: u8|
                    v * 16 + if b <= '9' as u8 {
                        b - '0' as u8
                    } else if b <= 'F' as u8 {
                        b - 'A' as u8 + 10
                    } else {
                        b - 'a' as u8 + 10
                    },
            );
            &&& 6 < end < data.len()
            &&& data[end] == '\n' as u8
            &&& handshake(data)->0.rest == data.subrange(end + 1, data.len() as int)
            &&& forall|i: int|
                6 <= i < end ==> ('0' as u8 <= #[trigger] data[i] <= '9' as u8 || 'a' as u8
                    <= data[i] <= 'f' as u8 || 'A' as u8 <= data[i] <= 'F' as u8)
            &&& value <= u64::MAX ==> handshake(data)->0.token == Some(value as u64)
            &&& value > u64::MAX ==> handshake(data)->0.token is None
        }),
{
    let end = choose|end: int| is_handshake(data, end);
    assert(is_handshake(data, end));
    assert(data.len() - handshake(data)->0.rest.len() - 1 == end);
    let digits = data.subrange(6, end);
    law_hex_numbers(digits);
    assert forall|i: int| 6 <= i < end implies ('0' as u8 <= #[trigger] data[i] <= '9' as u8
        || 'a' as u8 <= data[i] <= 'f' as u8 || 'A' as u8 <= data[i] <= 'F' as u8) by {
        assert(digits[i - 6] == data[i]);
    }
    assert(data.skip(end + 1) =~= data.subrange(end + 1, data.len() as int));
}

/// Everything of that form is a handshake: the word, hexadecimal digits and a
/// line feed are never taken for raw data.
pub proof fn law_every_token_line_is_a_handshake(data: Seq<u8>, end: int)
    requires
        6 < end < data.len(),
        data[0] == 'T' as u8 && data[1] == 'O' as u8 && data[2] == 'K' as u8,
        data[3] == 'E' as u8 && data[4] == 'N' as u8 && data[5] == ' ' as u8,
        forall|i: int|
            6 <= i < end ==> ('0' as u8 <= #[trigger] data[i] <= '9' as u8 || 'a' as u8 <= data[i]
                <= 'f' as u8 || 'A' as u8 <= data[i] <= 'F' as u8),
        data[end] == '\n' as u8,
    ensures
        handshake(data) is Some,
        handshake(data)->0.rest == data.subrange(end + 1, data.len() as int),
{
    lemma_word_bytes();
    assert(data.take(6) =~= encode_utf8("TOKEN "@));
    let digits = data.subrange(6, end);
    assert forall|i: int| 0 <= i < digits.len() implies ('0' as u8 <= #[trigger] digits[i]
        <= '9' as u8 || 'a' as u8 <= digits[i] <= 'f' as u8 || 'A' as u8 <= digits[i]
        <= 'F' as u8) by {
        assert(digits[i] == data[i + 6]);
    }
    law_hex_numbers(digits);
    assert(is_handshake(data, end));
    lemma_one_handshake(data, choose|e: int| is_handshake(data, e), end);
    assert(data.skip(end + 1) =~= data.subrange(end + 1, data.len() as int));
}

} // verus!
