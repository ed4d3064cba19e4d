//! The executable scanner: it walks the characters of a color literal,
//! skipping whitespace, pairing hex digits into bytes, and rejecting
//! everything else, together with the driver that enforces the RGB/RGBA
//! length policy.

use vstd::prelude::*;
use vstd::string::StrSliceExecFns;

use crate::model::HexError;
use crate::model::all_scannable;
use crate::model::decode_pairs;
use crate::model::hex_digits_of;
use crate::model::hex_outcome;
use crate::model::NibbleScan;
use crate::model::first_invalid;
use crate::model::invalid_char_error;
use crate::model::is_hex_digit;
use crate::model::is_hex_ws;
use crate::model::is_scannable;
use crate::model::leading_ws;
use crate::model::lemma_decode_pairs_snoc;
use crate::model::lemma_first_invalid_is;
use crate::model::lemma_first_invalid_props;
use crate::model::lemma_hex_digits_prefix_len;
use crate::model::lemma_hex_digits_step;
use crate::model::lemma_hex_digits_ws_run;
use crate::model::lemma_leading_ws_is;
use crate::model::lemma_leading_ws_props;
use crate::model::literal_body;
use crate::model::pair_value;
use crate::model::quoted;
use crate::model::scan_nibble;

verus! {

/// A destructive scanner over the body of a color literal.
pub struct TokenTreeIter {
    buf: Vec<char>,
    pos: usize,
}

impl TokenTreeIter {
    /// The scanner's position never passes the end of its buffer.
    pub closed spec fn wf(self) -> bool {
        self.pos <= self.buf@.len()
    }

    /// The characters the scanner has not consumed yet.
    pub closed spec fn remaining(self) -> Seq<char> {
        self.buf@.skip(self.pos as int)
    }

    /// Constructs a scanner from the raw text of a string literal: the text
    /// must be quote-delimited; the quotes and one optional leading `#`
    /// marker are stripped, and the rest is retained for scanning.
    pub fn new(input: &str) -> (r: Result<TokenTreeIter, HexError>)
        ensures
            match r {
                Ok(it) => quoted(input@) && it.wf() && it.remaining() == literal_body(input@),
                Err(e) => !quoted(input@) && e == HexError::MalformedQuoting,
            },
    {
        let n = input.unicode_len();
        if n < 2 || input.get_char(0) != '"' || input.get_char(n - 1) != '"' {
            return Err(HexError::MalformedQuoting);
        }
        let mut start: usize = 1;
        if n >= 3 && input.get_char(1) == '#' {
            start = 2;
        }
        let mut buf: Vec<char> = Vec::new();
        let mut i: usize = start;
        while i < n - 1
            invariant
                quoted(input@),
                n == input@.len(),
                start <= i <= n - 1,
                start == 1 || start == 2,
                start == 2 <==> n >= 3 && input@[1] == '#',
                buf@ == input@.subrange(start as int, i as int),
            decreases n - i,
        {
            let c = input.get_char(i);
            buf.push(c);
            i += 1;
            proof {
                assert(buf@ =~= input@.subrange(start as int, i as int));
            }
        }
        proof {
            assert(buf@ =~= literal_body(input@));
        }
        Ok(TokenTreeIter { buf, pos: 0 })
    }

    /// Parses a single hex character (`a`-`f`/`A`-`F`/`0`-`9`) as a `u8` from
    /// the scanner's internal buffer, skipping whitespace: `Ok(None)` when the
    /// buffer is exhausted, and an error for any other character.
    pub fn next_hex_val(&mut self) -> (r: Result<Option<u8>, HexError>)
        requires
            old(self).wf(),
        ensures
            final(self).wf(),
            match scan_nibble(old(self).remaining()) {
                NibbleScan::End => r == Ok::<Option<u8>, HexError>(None) && final(self).remaining()
                    == Seq::<char>::empty(),
                NibbleScan::Digit { value, used } => r == Ok::<Option<u8>, HexError>(Some(value))
                    && final(self).remaining() == old(self).remaining().skip(used),
                NibbleScan::Invalid { ch, used } => r == Err::<Option<u8>, HexError>(
                    invalid_char_error(ch),
                ) && final(self).remaining() == old(self).remaining().skip(used),
            },
    {
        while self.pos < self.buf.len()
            invariant
                self.wf(),
                self.buf == old(self).buf,
                old(self).pos <= self.pos,
                forall|j: int| old(self).pos <= j < self.pos ==> is_hex_ws(self.buf@[j]),
            decreases self.buf@.len() - self.pos,
        {
            let c = self.buf[self.pos];
            if c == ' ' || c == '\r' || c == '\n' || c == '\t' {
                self.pos += 1;
            } else {
                self.pos += 1;
                proof {
                    let s = old(self).remaining();
                    let k = self.pos - 1 - old(self).pos;
                    assert(forall|j: int|
                        0 <= j < k ==> s[j] == self.buf@[old(self).pos + j] && is_hex_ws(s[j]));
                    assert(s[k as int] == c);
                    lemma_leading_ws_is(s, k as int);
                    assert(old(self).remaining().skip(k + 1) =~= self.buf@.skip(
                        self.pos as int,
                    ));
                }
                let u = c as u32;
                if 48 <= u && u <= 57 {
                    return Ok(Some((u - 48) as u8));
                } else if 65 <= u && u <= 70 {
                    return Ok(Some((u - 55) as u8));
                } else if 97 <= u && u <= 102 {
                    return Ok(Some((u - 87) as u8));
                } else if u < 128 {
                    return Err(HexError::InvalidHexCharacter(c));
                } else {
                    return Err(HexError::InvalidNonAsciiCharacter);
                }
            }
        }
        proof {
            let s = old(self).remaining();
            assert(forall|j: int|
                0 <= j < s.len() ==> s[j] == self.buf@[old(self).pos + j] && is_hex_ws(s[j]));
            lemma_leading_ws_is(s, s.len() as int);
            assert(self.remaining() =~= Seq::<char>::empty());
        }
        Ok(None)
    }

    /// Produces the next byte of the color: two hex digits, high nibble
    /// first, with whitespace skipped freely around them. Returns `Ok(None)`
    /// when the buffer is exhausted; an input that ends after an unpaired
    /// digit is rejected.
    pub fn next_byte(&mut self) -> (r: Result<Option<u8>, HexError>)
        requires
            old(self).wf(),
        ensures
            final(self).wf(),
            match scan_nibble(old(self).remaining()) {
                NibbleScan::End => r == Ok::<Option<u8>, HexError>(None) && final(self).remaining()
                    == Seq::<char>::empty(),
                NibbleScan::Invalid { ch, used } => r == Err::<Option<u8>, HexError>(
                    invalid_char_error(ch),
                ) && final(self).remaining() == old(self).remaining().skip(used),
                NibbleScan::Digit { value, used } => match scan_nibble(
                    old(self).remaining().skip(used),
                ) {
                    NibbleScan::End => r == Err::<Option<u8>, HexError>(HexError::OddHexDigitCount)
                        && final(self).remaining() == Seq::<char>::empty(),
                    NibbleScan::Invalid { ch, used: u2 } => r == Err::<Option<u8>, HexError>(
                        invalid_char_error(ch),
                    ) && final(self).remaining() == old(self).remaining().skip(used).skip(u2),
                    NibbleScan::Digit { value: v2, used: u2 } => r == Ok::<Option<u8>, HexError>(
                        Some((value * 16 + v2) as u8),
                    ) && final(self).remaining() == old(self).remaining().skip(used).skip(u2),
                },
            },
    {
        let p1 = match self.next_hex_val() {
            Err(e) => return Err(e),
            Ok(None) => return Ok(None),
            Ok(Some(v)) => v,
        };
        let p2 = match self.next_hex_val() {
            Err(e) => return Err(e),
            Ok(None) => return Err(HexError::OddHexDigitCount),
            Ok(Some(v)) => v,
        };
        proof {
            assert(p1 <= 15 && p2 <= 15);
        }
        Ok(Some(p1 * 16 + p2))
    }
}

/// Converts the raw text of a string literal holding hex-encoded color data
/// into the bytes it encodes: three bytes for six hex digits (RGB), four
/// bytes for eight (RGBA), and an error for everything else.
pub fn color_from_hex(input: &str) -> (r: Result<Vec<u8>, HexError>)
    ensures
        match r {
            Ok(v) => hex_outcome(input@) == Ok::<Seq<u8>, HexError>(v@) && 3 <= v@.len() <= 4,
            Err(e) => hex_outcome(input@) == Err::<Seq<u8>, HexError>(e),
        },
{
    let mut iter = match TokenTreeIter::new(input) {
        Ok(it) => it,
        Err(e) => return Err(e),
    };
    let ghost body = literal_body(input@);
    let mut bytes: Vec<u8> = Vec::new();
    let ghost mut k: int = 0;
    let mut done = false;
    while !done
        invariant
            iter.wf(),
            quoted(input@),
            body == literal_body(input@),
            0 <= k <= body.len(),
            !done ==> iter.remaining() == body.skip(k),
            forall|j: int| 0 <= j < k ==> is_scannable(body[j]),
            hex_digits_of(body.take(k)).len() == 2 * bytes@.len(),
            bytes@ == decode_pairs(hex_digits_of(body.take(k))),
            bytes@.len() <= 4,
            done ==> k == body.len() && all_scannable(body),
        decreases body.len() - k + (if done { 0int } else { 1int }),
    {
        let ghost s = iter.remaining();
        let res = iter.next_byte();
        proof {
            lemma_leading_ws_props(s);
            assert(forall|j: int| 0 <= j < s.len() ==> s[j] == body[k + j]);
        }
        match res {
            Ok(Some(b)) => {
                proof {
                    let w1 = leading_ws(s);
                    let u1 = w1 + 1;
                    let s2 = s.skip(u1);
                    lemma_leading_ws_props(s2);
                    let w2 = leading_ws(s2);
                    let u2 = w2 + 1;
                    let c1 = s[w1];
                    let c2 = s2[w2];
                    assert(forall|j: int| 0 <= j < s2.len() ==> s2[j] == body[k + u1 + j]);
                    let k1 = k + u1;
                    let k2 = k1 + u2;
                    assert(is_hex_digit(c1) && is_hex_digit(c2));
                    assert forall|j: int| k <= j < k + w1 implies is_hex_ws(body[j]) by {
                        assert(body[j] == s[j - k]);
                    }
                    assert forall|j: int| k1 <= j < k1 + w2 implies is_hex_ws(body[j]) by {
                        assert(body[j] == s2[j - k1]);
                    }
                    lemma_hex_digits_step(body, k, w1);
                    lemma_hex_digits_step(body, k1, w2);
                    let d0 = hex_digits_of(body.take(k));
                    assert(hex_digits_of(body.take(k2)) == d0.push(c1).push(c2));
                    assert(d0.push(c1).push(c2) =~= d0 + seq![c1, c2]);
                    lemma_decode_pairs_snoc(d0, c1, c2);
                    assert(pair_value(c1, c2) == b);
                    assert(iter.remaining() == s2.skip(u2));
                    assert(s2.skip(u2) =~= body.skip(k2));
                    assert(forall|j: int| k <= j < k2 ==> is_scannable(body[j]));
                    k = k2;
                }
                bytes.push(b);
                if bytes.len() > 4 {
                    proof {
                        assert(hex_digits_of(body.take(k)).len() == 10);
                        if all_scannable(body) {
                            lemma_hex_digits_prefix_len(body, k, body.len() as int);
                            assert(body.take(body.len() as int) =~= body);
                        } else {
                            lemma_first_invalid_props(body);
                            let p = first_invalid(body);
                            assert(p >= k);
                            lemma_hex_digits_prefix_len(body, k, p);
                        }
                    }
                    return Err(HexError::TooManyBytes);
                }
            },
            Ok(None) => {
                proof {
                    assert(leading_ws(s) == s.len());
                    assert(forall|j: int| 0 <= j < s.len() ==> is_hex_ws(s[j]));
                    assert forall|j: int| k <= j < body.len() implies is_hex_ws(body[j]) by {
                        assert(body[j] == s[j - k]);
                        assert(is_hex_ws(s[j - k]));
                    }
                    lemma_hex_digits_ws_run(body, k, s.len() as int);
                    k = body.len() as int;
                    assert(all_scannable(body));
                }
                done = true;
            },
            Err(e) => {
                proof {
                    let w1 = leading_ws(s);
                    match scan_nibble(s) {
                        NibbleScan::End => {
                            assert(false);
                        },
                        NibbleScan::Invalid { ch, used } => {
                            let p = k + w1;
                            assert forall|j: int| k <= j < p implies is_hex_ws(body[j]) by {
                                assert(body[j] == s[j - k]);
                            }
                            assert(body[p] == ch && !is_scannable(ch));
                            lemma_first_invalid_is(body, p);
                            lemma_hex_digits_ws_run(body, k, w1);
                            assert(hex_digits_of(body.take(p)).len() == 2 * bytes@.len());
                            assert(hex_outcome(input@) == Err::<Seq<u8>, HexError>(
                                invalid_char_error(ch),
                            ));
                        },
                        NibbleScan::Digit { value, used } => {
                            let s2 = s.skip(used);
                            let w2 = leading_ws(s2);
                            lemma_leading_ws_props(s2);
                            let k1 = k + used;
                            let c1 = s[w1];
                            assert(forall|j: int| 0 <= j < s2.len() ==> s2[j] == body[k1 + j]);
                            assert forall|j: int| k <= j < k + w1 implies is_hex_ws(body[j]) by {
                                assert(body[j] == s[j - k]);
                            }
                            lemma_hex_digits_step(body, k, w1);
                            assert forall|j: int| k1 <= j < k1 + w2 implies is_hex_ws(
                                body[j],
                            ) by {
                                assert(body[j] == s2[j - k1]);
                            }
                            match scan_nibble(s2) {
                                NibbleScan::End => {
                                    lemma_hex_digits_ws_run(body, k1, s2.len() as int);
                                    assert(body.take(body.len() as int) =~= body);
                                    assert(all_scannable(body));
                                    assert(hex_digits_of(body) == hex_digits_of(
                                        body.take(k),
                                    ).push(c1));
                                    assert(hex_digits_of(body).len() == 2 * bytes@.len() + 1);
                                    assert(hex_outcome(input@) == Err::<Seq<u8>, HexError>(
                                        HexError::OddHexDigitCount,
                                    ));
                                },
                                NibbleScan::Invalid { ch, used: u2 } => {
                                    let p = k1 + w2;
                                    assert(body[p] == ch && !is_scannable(ch));
                                    assert(forall|j: int| 0 <= j < p ==> is_scannable(body[j]));
                                    lemma_first_invalid_is(body, p);
                                    lemma_hex_digits_ws_run(body, k1, w2);
                                    assert(hex_digits_of(body.take(p)) == hex_digits_of(
                                        body.take(k),
                                    ).push(c1));
                                    assert(hex_digits_of(body.take(p)).len() == 2 * bytes@.len()
                                        + 1);
                                    assert(hex_outcome(input@) == Err::<Seq<u8>, HexError>(
                                        invalid_char_error(ch),
                                    ));
                                },
                                NibbleScan::Digit { .. } => {
                                    assert(false);
                                },
                            }
                        },
                    }
                }
                return Err(e);
            },
        }
    }
    proof {
        assert(body.take(body.len() as int) =~= body);
    }
    if bytes.len() < 3 {
        return Err(HexError::TooFewBytes);
    }
    Ok(bytes)
}

} // verus!
