//! Leaf codecs for filesystem-safe names: RFC 3986 percent-encoding and RFC
//! 4648 base64 (standard alphabet, `=` padding).

use vstd::arithmetic::div_mod::lemma_fundamental_div_mod;
use vstd::arithmetic::div_mod::lemma_fundamental_div_mod_converse;
use vstd::prelude::*;
use vstd::string::StrSliceExecFns;
use vstd::string::StringSliceAdditionalSpecFns;

verus! {

broadcast use vstd::seq_lib::group_seq_lib_default;

/// Relies on String::push: appends exactly one character.
#[verifier::external_body]
fn push_char(s: &mut String, c: char)
    ensures
        final(s)@ == old(s)@.push(c),
{
    s.push(c);
}

/// A byte of RFC 3986's unreserved set, passed through unescaped.
pub open spec fn is_unreserved(b: u8) -> bool {
    ||| 65 <= b <= 90  // A-Z
    ||| 97 <= b <= 122  // a-z
    ||| 48 <= b <= 57  // 0-9
    ||| b == 45  // -
    ||| b == 95  // _
    ||| b == 46  // .
    ||| b == 126  // ~

}

/// The uppercase hex digit for a value below 16.
pub open spec fn hex_digit(v: int) -> char {
    if v < 10 {
        (48 + v) as char
    } else {
        (55 + v) as char
    }
}

/// How one byte is percent-encoded: itself when unreserved, `%XX` otherwise.
pub open spec fn pe_byte(b: u8) -> Seq<char> {
    if is_unreserved(b) {
        seq![b as char]
    } else {
        seq!['%', hex_digit(b as int / 16), hex_digit(b as int % 16)]
    }
}

/// The percent-encoding of a byte sequence.
pub open spec fn percent_encode(bs: Seq<u8>) -> Seq<char>
    decreases bs.len(),
{
    if bs.len() == 0 {
        Seq::<char>::empty()
    } else {
        percent_encode(bs.drop_last()) + pe_byte(bs.last())
    }
}

fn hex_digit_exec(v: u8) -> (c: char)
    requires
        v < 16,
    ensures
        c == hex_digit(v as int),
{
    if v < 10 {
        (48 + v) as char
    } else {
        (55 + v) as char
    }
}

/// Percent-encode the UTF-8 bytes of `val` into a filesystem-safe name:
/// unreserved bytes pass through, every other byte becomes `%XX` uppercase
/// hex.
#[verifier::loop_isolation(false)]
pub fn url_encode(val: &str) -> (r: String)
    ensures
        r@ == percent_encode(val.spec_bytes()),
{
    let bytes = val.as_bytes_vec();
    let mut out = String::new();
    let mut i: usize = 0;
    while i < bytes.len()
        invariant
            i <= bytes.len(),
            out@ == percent_encode(bytes@.subrange(0, i as int)),
        decreases bytes.len() - i,
    {
        let ghost pre = bytes@.subrange(0, i as int);
        let b = bytes[i];
        proof {
            assert(bytes@.subrange(0, i + 1 as int) =~= pre.push(b));
            assert(pre.push(b).drop_last() =~= pre);
        }
        let unreserved = (b >= 65 && b <= 90) || (b >= 97 && b <= 122) || (b >= 48 && b <= 57)
            || b == 45 || b == 95 || b == 46 || b == 126;
        if unreserved {
            push_char(&mut out, b as char);
            proof {
                assert(out@ =~= percent_encode(pre) + pe_byte(b));
            }
        } else {
            push_char(&mut out, '%');
            push_char(&mut out, hex_digit_exec(b / 16));
            push_char(&mut out, hex_digit_exec(b % 16));
            proof {
                assert(out@ =~= percent_encode(pre) + pe_byte(b));
            }
        }
        i = i + 1;
    }
    proof {
        assert(bytes@.subrange(0, bytes@.len() as int) =~= bytes@);
    }
    out
}

/// The base64 character for a 6-bit value.
pub open spec fn b64_char(v: int) -> char {
    if 0 <= v < 26 {
        (65 + v) as char  // A-Z
    } else if v < 52 {
        (97 + v - 26) as char  // a-z
    } else if v < 62 {
        (48 + v - 52) as char  // 0-9
    } else if v == 62 {
        '+'
    } else {
        '/'
    }
}

/// The 6-bit value of a base64 alphabet character, `None` outside the
/// alphabet.
pub open spec fn b64_val(c: char) -> Option<int> {
    let v = c as int;
    if 65 <= v <= 90 {
        Some(v - 65)
    } else if 97 <= v <= 122 {
        Some(v - 97 + 26)
    } else if 48 <= v <= 57 {
        Some(v - 48 + 52)
    } else if c == '+' {
        Some(62)
    } else if c == '/' {
        Some(63)
    } else {
        None
    }
}

/// Four base64 characters for one full 3-byte group.
pub open spec fn enc3(b0: u8, b1: u8, b2: u8) -> Seq<char> {
    seq![
        b64_char(b0 as int / 4),
        b64_char((b0 as int % 4) * 16 + b1 as int / 16),
        b64_char((b1 as int % 16) * 4 + b2 as int / 64),
        b64_char(b2 as int % 64),
    ]
}

/// The base64 encoding of the bytes of `bs` from index `i` on: full 3-byte
/// groups, then a padded final group of one or two bytes.
pub open spec fn enc_tail(bs: Seq<u8>, i: int) -> Seq<char>
    decreases bs.len() - i,
{
    if 0 <= i && i + 3 <= bs.len() {
        enc3(bs[i], bs[i + 1], bs[i + 2]) + enc_tail(bs, i + 3)
    } else if 0 <= i && bs.len() - i == 1 {
        seq![b64_char(bs[i] as int / 4), b64_char((bs[i] as int % 4) * 16), '=', '=']
    } else if 0 <= i && bs.len() - i == 2 {
        seq![
            b64_char(bs[i] as int / 4),
            b64_char((bs[i] as int % 4) * 16 + bs[i + 1] as int / 16),
            b64_char((bs[i + 1] as int % 16) * 4),
            '=',
        ]
    } else {
        Seq::<char>::empty()
    }
}

/// The base64 encoding of a byte sequence.
pub open spec fn base64_chars(bs: Seq<u8>) -> Seq<char> {
    enc_tail(bs, 0)
}

fn b64_char_exec(v: u8) -> (c: char)
    requires
        v < 64,
    ensures
        c == b64_char(v as int),
{
    if v < 26 {
        (65 + v) as char
    } else if v < 52 {
        (97 + (v - 26)) as char
    } else if v < 62 {
        (48 + (v - 52)) as char
    } else if v == 62 {
        '+'
    } else {
        '/'
    }
}

/// Encode bytes as RFC 4648 base64 with the standard alphabet and `=`
/// padding.
#[verifier::loop_isolation(false)]
pub fn base64_encode(input: &[u8]) -> (r: String)
    ensures
        r@ == base64_chars(input@),
{
    let n = input.len();
    let mut out = String::new();
    let mut i: usize = 0;
    while n >= 3 && i <= n - 3
        invariant
            i <= n,
            out@ + enc_tail(input@, i as int) == enc_tail(input@, 0),
        decreases n - i,
    {
        let b0 = input[i];
        let b1 = input[i + 1];
        let b2 = input[i + 2];
        let ghost before = out@;
        push_char(&mut out, b64_char_exec(b0 / 4));
        push_char(&mut out, b64_char_exec((b0 % 4) * 16 + b1 / 16));
        push_char(&mut out, b64_char_exec((b1 % 16) * 4 + b2 / 64));
        push_char(&mut out, b64_char_exec(b2 % 64));
        proof {
            assert(out@ =~= before + enc3(b0, b1, b2));
            assert(out@ + enc_tail(input@, i + 3) =~= before + enc_tail(input@, i as int));
        }
        i = i + 3;
    }
    if i < n {
        let b0 = input[i];
        let ghost before = out@;
        if n - i == 1 {
            push_char(&mut out, b64_char_exec(b0 / 4));
            push_char(&mut out, b64_char_exec((b0 % 4) * 16));
            push_char(&mut out, '=');
            push_char(&mut out, '=');
            proof {
                assert(out@ =~= before + enc_tail(input@, i as int));
            }
        } else {
            let b1 = input[i + 1];
            push_char(&mut out, b64_char_exec(b0 / 4));
            push_char(&mut out, b64_char_exec((b0 % 4) * 16 + b1 / 16));
            push_char(&mut out, b64_char_exec((b1 % 16) * 4));
            push_char(&mut out, '=');
            proof {
                assert(out@ =~= before + enc_tail(input@, i as int));
            }
        }
    } else {
        proof {
            assert(enc_tail(input@, i as int) =~= Seq::<char>::empty());
            assert(out@ =~= out@ + enc_tail(input@, i as int));
        }
    }
    proof {
        assert(out@ =~= enc_tail(input@, 0));
    }
    out
}

/// How base64 decoding can fail.
#[derive(Debug, Clone, Copy, PartialEq, Eq, Structural)]
pub enum DecodeError {
    /// After whitespace removal the length is not a multiple of four.
    InvalidLength,
    /// A character outside the alphabet, with its position.
    InvalidCharacter { ch: char, index: usize },
    /// More than two `=`, or an `=` before the final padding run.
    InvalidPadding,
}

/// An ASCII whitespace character, ignored by the decoder.
pub open spec fn is_b64_space(c: char) -> bool {
    let v = c as int;
    v == 32 || v == 9 || v == 10 || v == 12 || v == 13
}

/// How many `=` end the sequence.
pub open spec fn trailing_eq(s: Seq<char>) -> int
    decreases s.len(),
{
    if s.len() > 0 && s.last() == '=' {
        1 + trailing_eq(s.drop_last())
    } else {
        0
    }
}

/// The first position holding neither `=` nor an alphabet character, at or
/// after `i`.
pub open spec fn first_invalid(s: Seq<char>, i: int) -> Option<int>
    decreases s.len() - i,
{
    if i < 0 || i >= s.len() {
        None
    } else if s[i] != '=' && b64_val(s[i]) is None {
        Some(i)
    } else {
        first_invalid(s, i + 1)
    }
}

/// The value of a chunk character, `=` counting as zero.
pub open spec fn val_or_zero(c: char) -> int {
    if c == '=' {
        0
    } else {
        match b64_val(c) {
            Some(v) => v,
            None => 0,
        }
    }
}

/// The bytes of one four-character chunk: always the first byte, the second
/// unless the third character is padding, the third unless the fourth
/// character is padding.
pub open spec fn dec_chunk(c0: char, c1: char, c2: char, c3: char) -> Seq<u8> {
    let v0 = val_or_zero(c0);
    let v1 = val_or_zero(c1);
    let v2 = val_or_zero(c2);
    let v3 = val_or_zero(c3);
    let b0 = v0 * 4 + v1 / 16;
    let b1 = (v1 % 16) * 16 + v2 / 4;
    let b2 = (v2 % 4) * 64 + v3;
    seq![b0 as u8] + (if c2 != '=' {
        seq![b1 as u8]
    } else {
        Seq::<u8>::empty()
    }) + (if c3 != '=' {
        seq![b2 as u8]
    } else {
        Seq::<u8>::empty()
    })
}

/// Decode whole four-character chunks, in order.
pub open spec fn dec_chunks(s: Seq<char>) -> Seq<u8>
    decreases s.len(),
{
    if s.len() < 4 {
        Seq::<u8>::empty()
    } else {
        dec_chunk(s[0], s[1], s[2], s[3]) + dec_chunks(s.skip(4))
    }
}

/// What `base64_decode` returns, as a function of the input characters:
/// whitespace is ignored, the empty input decodes to no bytes, and the
/// errors come in the order the checks run.
pub open spec fn base64_decode_spec(s: Seq<char>) -> Result<Seq<u8>, DecodeError> {
    let clean = s.filter(|c: char| !is_b64_space(c));
    if clean.len() == 0 {
        Ok(Seq::<u8>::empty())
    } else if clean.len() % 4 != 0 {
        Err(DecodeError::InvalidLength)
    } else if trailing_eq(clean) > 2 {
        Err(DecodeError::InvalidPadding)
    } else if exists|j: int| 0 <= j < clean.len() - trailing_eq(clean) && clean[j] == '=' {
        Err(DecodeError::InvalidPadding)
    } else {
        match first_invalid(clean, 0) {
            Some(j) => Err(DecodeError::InvalidCharacter { ch: clean[j], index: j as usize }),
            None => Ok(dec_chunks(clean)),
        }
    }
}

fn val_from_base64_char(c: char) -> (r: Option<u8>)
    ensures
        match r {
            Some(v) => b64_val(c) == Some(v as int) && v < 64,
            None => b64_val(c) is None,
        },
{
    let v = c as u32;
    if v >= 65 && v <= 90 {
        Some((v - 65) as u8)
    } else if v >= 97 && v <= 122 {
        Some((v - 97 + 26) as u8)
    } else if v >= 48 && v <= 57 {
        Some((v - 48 + 52) as u8)
    } else if c == '+' {
        Some(62)
    } else if c == '/' {
        Some(63)
    } else {
        None
    }
}

/// Decode RFC 4648 base64, ignoring ASCII whitespace, distinguishing bad
/// length, a character outside the alphabet (with its position), and
/// misplaced or excessive padding.
#[verifier::loop_isolation(false)]
#[verifier::rlimit(100)]
pub fn base64_decode(input: &str) -> (r: Result<Vec<u8>, DecodeError>)
    ensures
        match r {
            Ok(v) => base64_decode_spec(input@) == Ok::<Seq<u8>, DecodeError>(v@),
            Err(e) => base64_decode_spec(input@) == Err::<Seq<u8>, DecodeError>(e),
        },
{
    let ghost spacefree = |c: char| !is_b64_space(c);
    let in_len = input.unicode_len();
    let mut clean: Vec<char> = Vec::new();
    let mut i: usize = 0;
    while i < in_len
        invariant
            i <= in_len,
            clean@ == input@.subrange(0, i as int).filter(spacefree),
        decreases in_len - i,
    {
        let ghost pre = input@.subrange(0, i as int);
        let c = input.get_char(i);
        proof {
            assert(input@.subrange(0, i + 1 as int) =~= pre.push(c));
            pre.lemma_filter_push(c, spacefree);
        }
        let v = c as u32;
        if !(v == 32 || v == 9 || v == 10 || v == 12 || v == 13) {
            clean.push(c);
        }
        i = i + 1;
    }
    proof {
        assert(input@.subrange(0, input@.len() as int) =~= input@);
    }
    let ghost cl = input@.filter(spacefree);
    let n = clean.len();

    if n == 0 {
        return Ok(Vec::new());
    }
    if n % 4 != 0 {
        return Err(DecodeError::InvalidLength);
    }

    let mut end: usize = n;
    proof {
        assert(cl.subrange(0, n as int) =~= cl);
    }
    while end > 0 && clean[end - 1] == '='
        invariant
            end <= n,
            trailing_eq(cl) == trailing_eq(cl.subrange(0, end as int)) + (n - end),
        decreases end,
    {
        proof {
            let cur = cl.subrange(0, end as int);
            assert(cur.last() == '=');
            assert(cur.drop_last() =~= cl.subrange(0, end - 1));
        }
        end = end - 1;
    }
    proof {
        let cur = cl.subrange(0, end as int);
        if end > 0 {
            assert(cur.last() != '=');
        }
        assert(trailing_eq(cur) == 0);
    }
    let pad = n - end;
    proof {
        assert(pad == trailing_eq(cl));
    }
    if pad > 2 {
        return Err(DecodeError::InvalidPadding);
    }

    let mut j: usize = 0;
    while j < end
        invariant
            j <= end,
            forall|k: int| 0 <= k < j ==> cl[k] != '=',
        decreases end - j,
    {
        if clean[j] == '=' {
            return Err(DecodeError::InvalidPadding);
        }
        j = j + 1;
    }

    let mut out: Vec<u8> = Vec::new();
    let mut i: usize = 0;
    proof {
        assert(cl.skip(0) =~= cl);
        assert(Seq::<u8>::empty() + dec_chunks(cl) =~= dec_chunks(cl));
    }
    while i < n
        invariant
            i <= n,
            i % 4 == 0,
            first_invalid(cl, 0) == first_invalid(cl, i as int),
            dec_chunks(cl) == out@ + dec_chunks(cl.skip(i as int)),
        decreases n - i,
    {
        let mut vals: [u8; 4] = [0, 0, 0, 0];
        let mut j: usize = 0;
        while j < 4
            invariant
                j <= 4,
                i + 4 <= n,
                first_invalid(cl, 0) == first_invalid(cl, i + j),
                forall|k: int|
                    0 <= k < j ==> vals@[k] as int == val_or_zero(cl[i + k]) && vals@[k] < 64,
            decreases 4 - j,
        {
            let c = clean[i + j];
            if c == '=' {
                proof {
                    assert(first_invalid(cl, i + j) == first_invalid(cl, i + j + 1));
                }
                vals.set(j, 0);
            } else {
                match val_from_base64_char(c) {
                    Some(v) => {
                        proof {
                            assert(first_invalid(cl, i + j) == first_invalid(cl, i + j + 1));
                        }
                        vals.set(j, v);
                    },
                    None => {
                        proof {
                            assert(first_invalid(cl, i + j) == Some(i + j));
                        }
                        return Err(
                            DecodeError::InvalidCharacter { ch: c, index: i + j },
                        );
                    },
                }
            }
            j = j + 1;
        }
        let b0 = vals[0] * 4 + vals[1] / 16;
        let b1 = (vals[1] % 16) * 16 + vals[2] / 4;
        let b2 = (vals[2] % 4) * 64 + vals[3];
        let ghost before = out@;
        out.push(b0);
        if clean[i + 2] != '=' {
            out.push(b1);
        }
        if clean[i + 3] != '=' {
            out.push(b2);
        }
        proof {
            let suf = cl.skip(i as int);
            assert(suf.len() >= 4);
            assert(suf[0] == cl[i as int] && suf[1] == cl[i + 1] && suf[2] == cl[i + 2] && suf[3]
                == cl[i + 3]);
            assert(suf.skip(4) =~= cl.skip(i + 4));
            assert(out@ =~= before + dec_chunk(cl[i as int], cl[i + 1], cl[i + 2], cl[i + 3]));
            assert(out@ + dec_chunks(cl.skip(i + 4)) =~= before + dec_chunks(suf));
        }
        i = i + 4;
    }
    proof {
        assert(first_invalid(cl, n as int) is None);
        assert(dec_chunks(cl.skip(n as int)) =~= Seq::<u8>::empty());
        assert(out@ =~= dec_chunks(cl));
    }
    Ok(out)
}

proof fn lemma_b64_char_val(v: int)
    requires
        0 <= v < 64,
    ensures
        b64_val(b64_char(v)) == Some(v),
        b64_char(v) != '=',
        !is_b64_space(b64_char(v)),
{
}

proof fn lemma_filter_id(s: Seq<char>)
    requires
        forall|j: int| 0 <= j < s.len() ==> !is_b64_space(s[j]),
    ensures
        s.filter(|c: char| !is_b64_space(c)) == s,
    decreases s.len(),
{
    let p = |c: char| !is_b64_space(c);
    if s.len() == 0 {
        reveal(Seq::filter);
        assert(s.filter(p) =~= s);
    } else {
        lemma_filter_id(s.drop_last());
        s.drop_last().lemma_filter_push(s.last(), p);
        assert(s.drop_last().push(s.last()) =~= s);
        assert(s.filter(p) =~= s);
    }
}

proof fn lemma_trailing_bounds(s: Seq<char>)
    ensures
        0 <= trailing_eq(s) <= s.len(),
    decreases s.len(),
{
    if s.len() > 0 && s.last() == '=' {
        lemma_trailing_bounds(s.drop_last());
    }
}

proof fn lemma_trailing_concat(a: Seq<char>, t: Seq<char>)
    requires
        t.len() > 0,
        trailing_eq(t) < t.len(),
    ensures
        trailing_eq(a + t) == trailing_eq(t),
    decreases t.len(),
{
    lemma_trailing_bounds(t);
    if t.last() == '=' {
        assert((a + t).last() == t.last());
        assert((a + t).drop_last() =~= a + t.drop_last());
        lemma_trailing_bounds(t.drop_last());
        lemma_trailing_concat(a, t.drop_last());
    } else {
        assert((a + t).last() != '=');
    }
}

proof fn lemma_first_invalid_none(s: Seq<char>, i: int)
    requires
        0 <= i <= s.len(),
        forall|j: int| i <= j < s.len() ==> s[j] == '=' || b64_val(s[j]) is Some,
    ensures
        first_invalid(s, i) is None,
    decreases s.len() - i,
{
    if i < s.len() {
        lemma_first_invalid_none(s, i + 1);
    }
}

/// The pad length the encoder leaves for a remainder of `m` bytes.
pub open spec fn pad_of(m: int) -> int {
    if m % 3 == 1 {
        2
    } else if m % 3 == 2 {
        1
    } else {
        0
    }
}

proof fn lemma_enc_props(bs: Seq<u8>, i: int)
    requires
        0 <= i <= bs.len(),
    ensures
        enc_tail(bs, i).len() % 4 == 0,
        bs.len() - i > 0 ==> enc_tail(bs, i).len() >= 4,
        trailing_eq(enc_tail(bs, i)) == pad_of(bs.len() - i),
        forall|j: int|
            0 <= j < enc_tail(bs, i).len() ==> (enc_tail(bs, i)[j] == '=' || b64_val(
                enc_tail(bs, i)[j],
            ) is Some),
        forall|j: int| 0 <= j < enc_tail(bs, i).len() ==> !is_b64_space(enc_tail(bs, i)[j]),
        forall|j: int|
            0 <= j < enc_tail(bs, i).len() - trailing_eq(enc_tail(bs, i)) ==> enc_tail(bs, i)[j]
                != '=',
    decreases bs.len() - i,
{
    let e = enc_tail(bs, i);
    let m = bs.len() - i;
    if m == 0 {
    } else if m == 1 {
        let b0 = bs[i] as int;
        lemma_b64_char_val(b0 / 4);
        lemma_b64_char_val((b0 % 4) * 16);
        assert(e.len() == 4);
        assert(trailing_eq(e) == 2) by {
            let e1 = e.drop_last();
            let e2 = e1.drop_last();
            assert(e.last() == '=');
            assert(trailing_eq(e) == 1 + trailing_eq(e1));
            assert(e1 =~= seq![b64_char(b0 / 4), b64_char((b0 % 4) * 16), '=']);
            assert(e1.last() == '=');
            assert(trailing_eq(e1) == 1 + trailing_eq(e2));
            assert(e2 =~= seq![b64_char(b0 / 4), b64_char((b0 % 4) * 16)]);
            assert(e2.last() != '=');
            assert(trailing_eq(e2) == 0);
        }
    } else if m == 2 {
        let b0 = bs[i] as int;
        let b1 = bs[i + 1] as int;
        lemma_b64_char_val(b0 / 4);
        lemma_b64_char_val((b0 % 4) * 16 + b1 / 16);
        lemma_b64_char_val((b1 % 16) * 4);
        assert(e.len() == 4);
        assert(trailing_eq(e) == 1) by {
            let e1 = e.drop_last();
            assert(e.last() == '=');
            assert(trailing_eq(e) == 1 + trailing_eq(e1));
            assert(e1 =~= seq![
                b64_char(b0 / 4),
                b64_char((b0 % 4) * 16 + b1 / 16),
                b64_char((b1 % 16) * 4),
            ]);
            assert(e1.last() != '=');
            assert(trailing_eq(e1) == 0);
        }
    } else {
        let b0 = bs[i] as int;
        let b1 = bs[i + 1] as int;
        let b2 = bs[i + 2] as int;
        lemma_b64_char_val(b0 / 4);
        lemma_b64_char_val((b0 % 4) * 16 + b1 / 16);
        lemma_b64_char_val((b1 % 16) * 4 + b2 / 64);
        lemma_b64_char_val(b2 % 64);
        lemma_enc_props(bs, i + 3);
        let t = enc_tail(bs, i + 3);
        let head = enc3(bs[i], bs[i + 1], bs[i + 2]);
        assert(e =~= head + t);
        assert(forall|j: int| 0 <= j < t.len() ==> e[j + 4] == t[j]);
        if m == 3 {
            assert(t.len() == 0);
            assert(trailing_eq(e) == 0) by {
                assert(e.last() == head[3]);
            }
            assert(pad_of(m) == 0);
        } else {
            lemma_trailing_bounds(t);
            lemma_trailing_concat(head, t);
            assert((bs.len() - (i + 3)) % 3 == m % 3) by {
                assert(m == (m - 3) + 3);
            }
        }
        assert forall|j: int| 0 <= j < e.len() implies (e[j] == '=' || b64_val(e[j]) is Some) by {
            if j >= 4 {
                assert(e[j] == t[j - 4]);
            }
        }
        assert forall|j: int| 0 <= j < e.len() implies !is_b64_space(e[j]) by {
            if j >= 4 {
                assert(e[j] == t[j - 4]);
            }
        }
        assert forall|j: int| 0 <= j < e.len() - trailing_eq(e) implies e[j] != '=' by {
            if j >= 4 {
                assert(e[j] == t[j - 4]);
                assert(t[j - 4] != '=');
            }
        }
    }
}

proof fn lemma_group_ids(b0: int, b1: int, b2: int)
    requires
        0 <= b0 < 256,
        0 <= b1 < 256,
        0 <= b2 < 256,
    ensures
        0 <= b0 / 4 < 64,
        0 <= (b0 % 4) * 16 + b1 / 16 < 64,
        0 <= (b1 % 16) * 4 + b2 / 64 < 64,
        0 <= b2 % 64 < 64,
        (b0 / 4) * 4 + ((b0 % 4) * 16 + b1 / 16) / 16 == b0,
        (((b0 % 4) * 16 + b1 / 16) % 16) * 16 + ((b1 % 16) * 4 + b2 / 64) / 4 == b1,
        (((b1 % 16) * 4 + b2 / 64) % 4) * 64 + b2 % 64 == b2,
{
    lemma_fundamental_div_mod(b0, 4);
    lemma_fundamental_div_mod(b1, 16);
    lemma_fundamental_div_mod(b2, 64);
    lemma_fundamental_div_mod_converse((b0 % 4) * 16 + b1 / 16, 16, b0 % 4, b1 / 16);
    lemma_fundamental_div_mod_converse((b1 % 16) * 4 + b2 / 64, 4, b1 % 16, b2 / 64);
}

proof fn lemma_dec_enc(bs: Seq<u8>, i: int)
    requires
        0 <= i <= bs.len(),
    ensures
        dec_chunks(enc_tail(bs, i)) == bs.skip(i),
    decreases bs.len() - i,
{
    let e = enc_tail(bs, i);
    let m = bs.len() - i;
    if m == 0 {
        assert(dec_chunks(e) =~= bs.skip(i));
    } else if m == 1 {
        let b0 = bs[i] as int;
        lemma_group_ids(b0, 0, 0);
        lemma_b64_char_val(b0 / 4);
        lemma_b64_char_val((b0 % 4) * 16);
        assert(e.len() == 4);
        assert(e.skip(4) =~= Seq::<char>::empty());
        lemma_fundamental_div_mod_converse((b0 % 4) * 16, 16, b0 % 4, 0);
        assert(dec_chunk(e[0], e[1], e[2], e[3]) =~= seq![bs[i]]);
        assert(dec_chunks(e.skip(4)) =~= Seq::<u8>::empty());
        assert(dec_chunks(e) == dec_chunk(e[0], e[1], e[2], e[3]) + dec_chunks(e.skip(4)));
        assert(dec_chunks(e) =~= bs.skip(i));
    } else if m == 2 {
        let b0 = bs[i] as int;
        let b1 = bs[i + 1] as int;
        lemma_group_ids(b0, b1, 0);
        lemma_b64_char_val(b0 / 4);
        lemma_b64_char_val((b0 % 4) * 16 + b1 / 16);
        lemma_b64_char_val((b1 % 16) * 4);
        assert(e.len() == 4);
        assert(e.skip(4) =~= Seq::<char>::empty());
        lemma_fundamental_div_mod_converse((b1 % 16) * 4, 4, b1 % 16, 0);
        assert(dec_chunk(e[0], e[1], e[2], e[3]) =~= seq![bs[i], bs[i + 1]]);
        assert(dec_chunks(e.skip(4)) =~= Seq::<u8>::empty());
        assert(dec_chunks(e) == dec_chunk(e[0], e[1], e[2], e[3]) + dec_chunks(e.skip(4)));
        assert(dec_chunks(e) =~= bs.skip(i));
    } else {
        let b0 = bs[i] as int;
        let b1 = bs[i + 1] as int;
        let b2 = bs[i + 2] as int;
        lemma_group_ids(b0, b1, b2);
        lemma_b64_char_val(b0 / 4);
        lemma_b64_char_val((b0 % 4) * 16 + b1 / 16);
        lemma_b64_char_val((b1 % 16) * 4 + b2 / 64);
        lemma_b64_char_val(b2 % 64);
        lemma_dec_enc(bs, i + 3);
        let t = enc_tail(bs, i + 3);
        let head = enc3(bs[i], bs[i + 1], bs[i + 2]);
        assert(e =~= head + t);
        lemma_enc_props(bs, i + 3);
        assert(e.len() >= 4);
        assert(e[0] == head[0] && e[1] == head[1] && e[2] == head[2] && e[3] == head[3]);
        assert(e.skip(4) =~= t);
        assert(dec_chunk(e[0], e[1], e[2], e[3]) =~= seq![bs[i], bs[i + 1], bs[i + 2]]);
        assert(dec_chunks(e) == dec_chunk(e[0], e[1], e[2], e[3]) + dec_chunks(e.skip(4)));
        assert(dec_chunks(e) =~= seq![bs[i], bs[i + 1], bs[i + 2]] + bs.skip(i + 3));
        assert(seq![bs[i], bs[i + 1], bs[i + 2]] + bs.skip(i + 3) =~= bs.skip(i));
    }
}

/// Round trip: decoding what the encoder produced gives the bytes back, for
/// every byte sequence.
pub proof fn lemma_base64_round_trip(bs: Seq<u8>)
    ensures
        base64_decode_spec(base64_chars(bs)) == Ok::<Seq<u8>, DecodeError>(bs),
{
    let e = enc_tail(bs, 0);
    lemma_enc_props(bs, 0);
    lemma_filter_id(e);
    let clean = e.filter(|c: char| !is_b64_space(c));
    assert(clean == e);
    if bs.len() == 0 {
        assert(e.len() == 0);
        assert(bs =~= Seq::<u8>::empty());
    } else {
        assert(e.len() >= 4);
        lemma_trailing_bounds(e);
        assert(trailing_eq(e) <= 2);
        assert(!(exists|j: int| 0 <= j < e.len() - trailing_eq(e) && e[j] == '=')) by {
            if exists|j: int| 0 <= j < e.len() - trailing_eq(e) && e[j] == '=' {
                let j = choose|j: int| 0 <= j < e.len() - trailing_eq(e) && e[j] == '=';
                assert(e[j] != '=');
            }
        }
        lemma_first_invalid_none(e, 0);
        lemma_dec_enc(bs, 0);
        assert(bs.skip(0) =~= bs);
    }
}

} // verus!
