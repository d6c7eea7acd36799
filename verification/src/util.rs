//! Percent-encoding and -decoding of URL bytes, and the JSON string-array
//! renderer used for track listings.

use vstd::prelude::*;

verus! {

/// Bytes that `url_encode` passes through unchanged: ASCII alphanumerics
/// and `-`, `.`, `_`, `~`.
pub open spec fn is_unreserved(b: u8) -> bool {
    (48 <= b && b <= 57) || (65 <= b && b <= 90) || (97 <= b && b <= 122) || b == 45 || b == 46
        || b == 95 || b == 126
}

/// Upper-case hex digit for a value below 16.
pub open spec fn hex_digit(n: int) -> u8 {
    if n < 10 {
        (48 + n) as u8
    } else {
        (55 + n) as u8
    }
}

/// A hex digit byte, either case.
pub open spec fn is_hex(b: u8) -> bool {
    (48 <= b && b <= 57) || (65 <= b && b <= 70) || (97 <= b && b <= 102)
}

/// Value of a hex digit byte.
pub open spec fn hex_val(b: u8) -> int {
    if 48 <= b && b <= 57 {
        b - 48
    } else if 65 <= b && b <= 70 {
        b - 55
    } else {
        b - 87
    }
}

/// Value of a two-byte escape payload, as `u8::from_str_radix(.., 16)`
/// reads it: two hex digits, or a leading `+` and one hex digit.
pub open spec fn hexpair_val(a: u8, b: u8) -> Option<u8> {
    if is_hex(a) && is_hex(b) {
        Some((16 * hex_val(a) + hex_val(b)) as u8)
    } else if a == 43 && is_hex(b) {
        Some(hex_val(b) as u8)
    } else {
        None
    }
}

/// Encoding of one byte: itself when unreserved, else `%XX`.
pub open spec fn enc_byte(b: u8) -> Seq<u8> {
    if is_unreserved(b) {
        seq![b]
    } else {
        seq![37u8, hex_digit(b as int / 16), hex_digit(b as int % 16)]
    }
}

/// Percent-encoding of a byte sequence.
pub open spec fn spec_encode(s: Seq<u8>) -> Seq<u8>
    decreases s.len(),
{
    if s.len() == 0 {
        Seq::empty()
    } else {
        enc_byte(s[0]) + spec_encode(s.drop_first())
    }
}

/// Percent-decoding of a byte sequence; `None` on a malformed escape.
pub open spec fn spec_decode(s: Seq<u8>) -> Option<Seq<u8>>
    decreases s.len(),
{
    if s.len() == 0 {
        Some(Seq::empty())
    } else if s[0] == 37 {
        if s.len() < 3 {
            None
        } else {
            match hexpair_val(s[1], s[2]) {
                None => None,
                Some(v) => match spec_decode(s.skip(3)) {
                    None => None,
                    Some(r) => Some(seq![v] + r),
                },
            }
        }
    } else {
        match spec_decode(s.skip(1)) {
            None => None,
            Some(r) => Some(seq![s[0]] + r),
        }
    }
}

/// Rejected percent-escape inside a URL byte string.
#[derive(Debug, Clone, Copy, PartialEq, Eq, Structural)]
pub enum DecodeError {
    InvalidEscape,
}

fn hex_digit_byte(n: u8) -> (r: u8)
    requires
        n < 16,
    ensures
        r == hex_digit(n as int),
{
    if n < 10 {
        48 + n
    } else {
        55 + n
    }
}

/// Percent-encode a byte string: unreserved bytes pass through, every
/// other byte becomes `%XX` with upper-case hex.
pub fn url_encode(input: &Vec<u8>) -> (r: Vec<u8>)
    ensures
        r@ == spec_encode(input@),
{
    let mut out: Vec<u8> = Vec::new();
    let mut i: usize = 0;
    proof {
        assert(input@.skip(0) =~= input@);
        assert(out@ + spec_encode(input@) =~= spec_encode(input@));
    }
    while i < input.len()
        invariant
            i <= input@.len(),
            spec_encode(input@) == out@ + spec_encode(input@.skip(i as int)),
        decreases input.len() - i,
    {
        let b = input[i];
        let ghost prev = out@;
        proof {
            assert(input@.skip(i as int)[0] == b);
            assert(input@.skip(i as int).drop_first() =~= input@.skip(i + 1));
            assert(spec_encode(input@.skip(i as int)) == enc_byte(b) + spec_encode(
                input@.skip(i + 1),
            ));
        }
        if (48 <= b && b <= 57) || (65 <= b && b <= 90) || (97 <= b && b <= 122) || b == 45 || b
            == 46 || b == 95 || b == 126 {
            out.push(b);
        } else {
            out.push(37);
            out.push(hex_digit_byte(b / 16));
            out.push(hex_digit_byte(b % 16));
        }
        proof {
            assert(out@ =~= prev + enc_byte(b));
            assert((prev + enc_byte(b)) + spec_encode(input@.skip(i + 1)) =~= prev + (enc_byte(b)
                + spec_encode(input@.skip(i + 1))));
        }
        i = i + 1;
    }
    proof {
        assert(input@.skip(input@.len() as int) =~= Seq::<u8>::empty());
        assert(out@ =~= spec_encode(input@));
    }
    out
}

fn hex_byte_val(b: u8) -> (r: Option<u8>)
    ensures
        match r {
            Some(v) => is_hex(b) && v == hex_val(b),
            None => !is_hex(b),
        },
{
    if 48 <= b && b <= 57 {
        Some(b - 48)
    } else if 65 <= b && b <= 70 {
        Some(b - 55)
    } else if 97 <= b && b <= 102 {
        Some(b - 87)
    } else {
        None
    }
}

/// Percent-decode a byte string; a malformed or truncated escape is an
/// error.
pub fn url_decode(input: &Vec<u8>) -> (r: Result<Vec<u8>, DecodeError>)
    ensures
        match r {
            Ok(d) => spec_decode(input@) == Some(d@),
            Err(_) => spec_decode(input@) is None,
        },
{
    let mut out: Vec<u8> = Vec::new();
    let mut i: usize = 0;
    proof {
        assert(input@.skip(0) =~= input@);
        match spec_decode(input@) {
            Some(rest) => {
                assert(out@ + rest =~= rest);
            },
            None => {},
        }
    }
    while i < input.len()
        invariant
            i <= input@.len(),
            match spec_decode(input@.skip(i as int)) {
                Some(rest) => spec_decode(input@) == Some(out@ + rest),
                None => spec_decode(input@) is None,
            },
        decreases input.len() - i,
    {
        let b = input[i];
        proof {
            assert(input@.skip(i as int)[0] == b);
        }
        if b == 37 {
            if input.len() - i < 3 {
                proof {
                    assert(input@.skip(i as int).len() < 3);
                }
                return Err(DecodeError::InvalidEscape);
            }
            let h1 = input[i + 1];
            let h2 = input[i + 2];
            proof {
                assert(input@.skip(i as int)[1] == h1);
                assert(input@.skip(i as int)[2] == h2);
                assert(input@.skip(i as int).skip(3) =~= input@.skip(i + 3));
            }
            let ghost prev = out@;
            let v1 = hex_byte_val(h1);
            let v2 = hex_byte_val(h2);
            match (v1, v2) {
                (Some(a), Some(c)) => {
                    out.push(16 * a + c);
                },
                (None, Some(c)) if h1 == 43 => {
                    out.push(c);
                },
                _ => {
                    proof {
                        assert(hexpair_val(h1, h2) is None);
                    }
                    return Err(DecodeError::InvalidEscape);
                },
            }
            proof {
                let v = hexpair_val(h1, h2).unwrap();
                assert(out@ =~= prev + seq![v]);
                match spec_decode(input@.skip(i + 3)) {
                    Some(rest) => {
                        assert((prev + seq![v]) + rest =~= prev + (seq![v] + rest));
                    },
                    None => {},
                }
            }
            i = i + 3;
        } else {
            let ghost prev = out@;
            out.push(b);
            proof {
                assert(input@.skip(i as int).skip(1) =~= input@.skip(i + 1));
                assert(out@ =~= prev + seq![b]);
                match spec_decode(input@.skip(i + 1)) {
                    Some(rest) => {
                        assert((prev + seq![b]) + rest =~= prev + (seq![b] + rest));
                    },
                    None => {},
                }
            }
            i = i + 1;
        }
    }
    proof {
        assert(input@.skip(input@.len() as int) =~= Seq::<u8>::empty());
        assert(out@ + Seq::<u8>::empty() =~= out@);
    }
    Ok(out)
}

/// Round trip: decoding an encoded byte string gives it back, for every
/// byte string, non-ASCII bytes included.
pub proof fn lemma_decode_encode(s: Seq<u8>)
    ensures
        spec_decode(spec_encode(s)) == Some(s),
    decreases s.len(),
{
    if s.len() == 0 {
        assert(spec_encode(s) =~= Seq::<u8>::empty());
    } else {
        lemma_decode_encode(s.drop_first());
        let b = s[0];
        let e = spec_encode(s);
        let rest = spec_encode(s.drop_first());
        if is_unreserved(b) {
            assert(e == seq![b] + rest);
            assert(e[0] == b && b != 37);
            assert(e.skip(1) =~= rest);
            assert(seq![b] + s.drop_first() =~= s);
        } else {
            let h1 = hex_digit(b as int / 16);
            let h2 = hex_digit(b as int % 16);
            assert(e == seq![37u8, h1, h2] + rest);
            assert(e[0] == 37 && e[1] == h1 && e[2] == h2);
            assert(e.len() >= 3);
            assert(is_hex(h1) && hex_val(h1) == b / 16);
            assert(is_hex(h2) && hex_val(h2) == b % 16);
            assert(16 * (b / 16) + b % 16 == b);
            assert(hexpair_val(h1, h2) == Some(b));
            assert(e.skip(3) =~= rest);
            assert(seq![b] + s.drop_first() =~= s);
        }
    }
}

/// `"` `s` `"`.
pub open spec fn json_quote(s: Seq<u8>) -> Seq<u8> {
    seq![34u8] + s + seq![34u8]
}

/// Quoted entries joined by commas.
pub open spec fn json_inner(items: Seq<Seq<u8>>) -> Seq<u8>
    decreases items.len(),
{
    if items.len() == 0 {
        Seq::empty()
    } else if items.len() == 1 {
        json_quote(items[0])
    } else {
        json_quote(items[0]) + seq![44u8] + json_inner(items.drop_first())
    }
}

/// `[` quoted entries `]`.
pub open spec fn spec_json_array(items: Seq<Seq<u8>>) -> Seq<u8> {
    seq![91u8] + json_inner(items) + seq![93u8]
}

proof fn lemma_json_inner_snoc(items: Seq<Seq<u8>>, x: Seq<u8>)
    requires
        items.len() >= 1,
    ensures
        json_inner(items.push(x)) == json_inner(items) + seq![44u8] + json_quote(x),
    decreases items.len(),
{
    if items.len() == 1 {
        assert(items.push(x).drop_first() =~= seq![x]);
        assert(json_inner(seq![x]) == json_quote(x));
        assert(json_inner(items.push(x)) =~= json_inner(items) + seq![44u8] + json_quote(x));
    } else {
        lemma_json_inner_snoc(items.drop_first(), x);
        assert(items.push(x).drop_first() =~= items.drop_first().push(x));
        assert(json_inner(items.push(x)) =~= json_inner(items) + seq![44u8] + json_quote(x));
    }
}

/// Render a list of byte strings as a JSON array of strings, in order.
pub fn iter_to_json_string(items: &Vec<Vec<u8>>) -> (r: Vec<u8>)
    ensures
        r@ == spec_json_array(items.deep_view()),
{
    let mut out: Vec<u8> = Vec::new();
    out.push(91);
    let mut i: usize = 0;
    while i < items.len()
        invariant
            i <= items@.len(),
            out@ == seq![91u8] + json_inner(items.deep_view().take(i as int)),
        decreases items.len() - i,
    {
        if i > 0 {
            out.push(44);
        }
        out.push(34);
        crate::ascii::push_all(&mut out, &items[i]);
        out.push(34);
        proof {
            let dv = items.deep_view();
            assert(dv[i as int] == items@[i as int]@);
            if i == 0 {
                assert(dv.take(1) =~= seq![dv[0]]);
                assert(out@ =~= seq![91u8] + json_inner(dv.take(1)));
            } else {
                assert(dv.take(i as int).len() >= 1);
                lemma_json_inner_snoc(dv.take(i as int), dv[i as int]);
                assert(dv.take(i as int).push(dv[i as int]) =~= dv.take(i + 1));
                assert(out@ =~= seq![91u8] + json_inner(dv.take(i + 1)));
            }
        }
        i = i + 1;
    }
    out.push(93);
    proof {
        assert(items.deep_view().take(items@.len() as int) =~= items.deep_view());
        assert(out@ =~= spec_json_array(items.deep_view()));
    }
    out
}

} // verus!
