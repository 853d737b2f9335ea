//! Building text: decimal numbers, quoting and escaping, and the calls into
//! the standard library and the Base64 encoder that the renderer rests on.

use vstd::prelude::*;
use vstd::std_specs::iter::IteratorSpec;
use vstd::utf8::{decode_utf8, valid_utf8};

verus! {

/// The Base64 text of `bytes`, in the standard alphabet and with padding:
/// what `base64::encode` returns for them.
pub uninterp spec fn base64_encoding(bytes: Seq<u8>) -> Seq<char>;

/// The length of the Base64 text of `len` bytes: four characters for every
/// three bytes, the last group padded.
pub open spec fn base64_len(len: nat) -> nat {
    (len / 3) * 4 + if len % 3 > 0 {
        4nat
    } else {
        0nat
    }
}

/// `base64::encode` of the `base64` crate. For every input whose encoded
/// length fits `usize` (on longer ones it panics) it returns the Base64 text
/// of the input, which depends on the bytes alone.
#[verifier::external_body]
pub(crate) fn base64_text(bytes: &[u8]) -> (text: String)
    requires
        base64_len(bytes@.len()) <= usize::MAX,
    ensures
        text@ == base64_encoding(bytes@),
{
    base64::encode(bytes)
}

/// `String::from_utf8` of the standard library: the text that `bytes` spell
/// in UTF-8, or `None` if they are not valid UTF-8.
#[verifier::external_body]
pub(crate) fn utf8_text(bytes: &[u8]) -> (text: Option<String>)
    ensures
        text is Some <==> valid_utf8(bytes@),
        text matches Some(t) ==> t@ == decode_utf8(bytes@),
{
    String::from_utf8(bytes.to_vec()).ok()
}

/// `String::push` of the standard library: appends one character.
#[verifier::external_body]
pub(crate) fn push_char(text: &mut String, c: char)
    ensures
        final(text)@ == old(text)@.push(c),
{
    text.push(c)
}

/// The character of the decimal digit `d`.
pub open spec fn digit_char(d: nat) -> char
    recommends
        d < 10,
{
    ((0x30 + d) as u8) as char
}

/// The decimal text of `n`, without leading zeros.
pub open spec fn decimal_text(n: nat) -> Seq<char>
    decreases n,
{
    if n < 10 {
        seq![digit_char(n)]
    } else {
        decimal_text(n / 10).push(digit_char(n % 10))
    }
}

/// The decimal text of `value`, with a leading `-` if it is negative.
pub open spec fn integer_text(value: int) -> Seq<char> {
    if value < 0 {
        seq!['-'] + decimal_text((-value) as nat)
    } else {
        decimal_text(value as nat)
    }
}

/// Appends the decimal text of `n` to `text`.
pub fn push_decimal(text: &mut String, n: u64)
    ensures
        final(text)@ == old(text)@ + decimal_text(n as nat),
    decreases n,
{
    if n >= 10 {
        push_decimal(text, n / 10);
    }
    let digit: u8 = (n % 10) as u8;
    push_char(text, (0x30 + digit) as char);
    proof {
        if n >= 10 {
            assert(old(text)@ + decimal_text(n as nat) =~= (old(text)@ + decimal_text(
                (n / 10) as nat,
            )).push(digit_char((n % 10) as nat)));
        } else {
            assert(old(text)@ + decimal_text(n as nat) =~= old(text)@.push(digit_char(n as nat)));
        }
    }
}

/// Appends the decimal text of `value` to `text`.
pub fn push_integer(text: &mut String, value: i64)
    ensures
        final(text)@ == old(text)@ + integer_text(value as int),
{
    if value < 0 {
        push_char(text, '-');
        let magnitude: u64 = (-(value + 1)) as u64 + 1;
        push_decimal(text, magnitude);
        assert(old(text)@ + integer_text(value as int) =~= old(text)@.push('-') + decimal_text(
            magnitude as nat,
        ));
    } else {
        push_decimal(text, value as u64);
    }
}

/// `s` with a backslash put before every double quote.
pub open spec fn escaped(s: Seq<char>) -> Seq<char>
    decreases s.len(),
{
    if s.len() == 0 {
        Seq::empty()
    } else if s.last() == '"' {
        escaped(s.drop_last()) + seq!['\\', '"']
    } else {
        escaped(s.drop_last()).push(s.last())
    }
}

/// Appends `raw` to `text`, with a backslash before every double quote.
pub fn push_escaped(text: &mut String, raw: &str)
    ensures
        final(text)@ == old(text)@ + escaped(raw@),
{
    let mut chars = raw.chars();
    let ghost mut done: int = 0;
    assert(raw@.take(0) =~= Seq::<char>::empty());
    assert(raw@.skip(0) =~= raw@);
    loop
        invariant
            0 <= done <= raw@.len(),
            chars.obeys_prophetic_iter_laws(),
            chars.remaining() == raw@.skip(done),
            text@ == old(text)@ + escaped(raw@.take(done)),
        ensures
            text@ == old(text)@ + escaped(raw@),
        decreases raw@.len() - done,
    {
        let ghost before = text@;
        match chars.next() {
            Some(c) => {
                if c == '"' {
                    push_char(text, '\\');
                }
                push_char(text, c);
                proof {
                    assert(raw@.skip(done)[0] == raw@[done]);
                    assert(raw@.skip(done).drop_first() =~= raw@.skip(done + 1));
                    assert(raw@.take(done + 1).drop_last() =~= raw@.take(done));
                    assert(raw@.take(done + 1).last() == c);
                    assert(text@ =~= old(text)@ + escaped(raw@.take(done + 1)));
                    done = done + 1;
                }
            },
            None => {
                proof {
                    assert(raw@.take(done) =~= raw@);
                }
                break ;
            },
        }
    }
}

} // verus!
