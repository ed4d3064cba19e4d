//! The mathematical model of the color-literal language: which characters are
//! hex digits and which are skippable whitespace, what the digits of a body
//! are, how digit pairs decode to bytes, and the outcome of a whole conversion.

use vstd::prelude::*;

verus! {

/// Why a conversion was rejected.
#[derive(Clone, Copy, Debug, PartialEq, Eq)]
pub enum HexError {
    /// The literal text does not begin and end with a quote character.
    MalformedQuoting,
    /// An ASCII character outside the hex-digit/whitespace set was found.
    InvalidHexCharacter(char),
    /// A non-ASCII character was found.
    InvalidNonAsciiCharacter,
    /// The input ended in the middle of a digit pair.
    OddHexDigitCount,
    /// More than eight hex digits (four bytes) were supplied.
    TooManyBytes,
    /// Fewer than six hex digits (three bytes) were supplied.
    TooFewBytes,
}

/// The whitespace characters the scanner skips between hex digits.
pub open spec fn is_hex_ws(c: char) -> bool {
    c == ' ' || c == '\r' || c == '\n' || c == '\t'
}

/// `c` is a hex digit: `0`-`9`, `A`-`F` or `a`-`f`.
pub open spec fn is_hex_digit(c: char) -> bool {
    (48 <= c as u32 && c as u32 <= 57) || (65 <= c as u32 && c as u32 <= 70) || (97 <= c as u32
        && c as u32 <= 102)
}

/// The scanner accepts exactly hex digits and skippable whitespace.
pub open spec fn is_scannable(c: char) -> bool {
    is_hex_digit(c) || is_hex_ws(c)
}

/// The value of a hex digit, 0 through 15.
pub open spec fn hex_digit_value(c: char) -> u8 {
    if 48 <= c as u32 && c as u32 <= 57 {
        (c as u32 - 48) as u8
    } else if 65 <= c as u32 && c as u32 <= 70 {
        (c as u32 - 55) as u8
    } else {
        (c as u32 - 87) as u8
    }
}

/// The byte encoded by a pair of hex digits, high nibble first.
pub open spec fn pair_value(hi: char, lo: char) -> u8 {
    (hex_digit_value(hi) * 16 + hex_digit_value(lo)) as u8
}

/// The hex digits of `s`, in order, with the skippable whitespace removed.
pub open spec fn hex_digits_of(s: Seq<char>) -> Seq<char>
    decreases s.len(),
{
    if s.len() == 0 {
        Seq::empty()
    } else if is_hex_ws(s.last()) {
        hex_digits_of(s.drop_last())
    } else {
        hex_digits_of(s.drop_last()).push(s.last())
    }
}

/// The bytes encoded by consecutive digit pairs of `d`; a trailing unpaired
/// digit contributes nothing.
pub open spec fn decode_pairs(d: Seq<char>) -> Seq<u8>
    decreases d.len(),
{
    if d.len() < 2 {
        Seq::empty()
    } else {
        seq![pair_value(d[0], d[1])] + decode_pairs(d.skip(2))
    }
}

/// The length of the run of skippable whitespace at the front of `s`.
pub open spec fn leading_ws(s: Seq<char>) -> int
    decreases s.len(),
{
    if s.len() > 0 && is_hex_ws(s[0]) {
        1 + leading_ws(s.skip(1))
    } else {
        0
    }
}

/// Every character of `s` is a hex digit or skippable whitespace.
pub open spec fn all_scannable(s: Seq<char>) -> bool {
    forall|i: int| 0 <= i < s.len() ==> is_scannable(s[i])
}

/// The position of the first character of `s` the scanner rejects.
pub open spec fn first_invalid(s: Seq<char>) -> int
    decreases s.len(),
{
    if s.len() == 0 {
        0
    } else if !is_scannable(s[0]) {
        0
    } else {
        1 + first_invalid(s.skip(1))
    }
}

/// What one request for a hex digit finds after the whitespace at the front
/// of the remaining input: the end of the input, a digit, or a character the
/// scanner rejects; `used` counts the characters the request consumes.
pub enum NibbleScan {
    End,
    Digit { value: u8, used: int },
    Invalid { ch: char, used: int },
}

/// The result of scanning for the next hex digit in `s`.
pub open spec fn scan_nibble(s: Seq<char>) -> NibbleScan {
    let w = leading_ws(s);
    if w == s.len() {
        NibbleScan::End
    } else if is_hex_digit(s[w]) {
        NibbleScan::Digit { value: hex_digit_value(s[w]), used: w + 1 }
    } else {
        NibbleScan::Invalid { ch: s[w], used: w + 1 }
    }
}

/// `leading_ws` names the first position that holds no skippable whitespace.
pub proof fn lemma_leading_ws_props(s: Seq<char>)
    ensures
        0 <= leading_ws(s) <= s.len(),
        forall|j: int| 0 <= j < leading_ws(s) ==> is_hex_ws(s[j]),
        leading_ws(s) < s.len() ==> !is_hex_ws(s[leading_ws(s)]),
    decreases s.len(),
{
    if s.len() > 0 && is_hex_ws(s[0]) {
        lemma_leading_ws_props(s.skip(1));
        assert(forall|j: int|
            1 <= j < leading_ws(s) ==> s[j] == s.skip(1)[j - 1] && is_hex_ws(s.skip(1)[j - 1]));
    }
}

/// A run of whitespace of length `k` followed by the end of the input or a
/// non-whitespace character pins `leading_ws` down to `k`.
pub proof fn lemma_leading_ws_is(s: Seq<char>, k: int)
    requires
        0 <= k <= s.len(),
        forall|j: int| 0 <= j < k ==> is_hex_ws(s[j]),
        k < s.len() ==> !is_hex_ws(s[k]),
    ensures
        leading_ws(s) == k,
    decreases k,
{
    if k == 0 {
    } else {
        assert(is_hex_ws(s[0]));
        assert(forall|j: int| 0 <= j < k - 1 ==> s.skip(1)[j] == s[j + 1]);
        lemma_leading_ws_is(s.skip(1), k - 1);
    }
}

/// The hex digits of a concatenation are the concatenated hex digits.
pub proof fn lemma_hex_digits_concat(a: Seq<char>, b: Seq<char>)
    ensures
        hex_digits_of(a + b) == hex_digits_of(a) + hex_digits_of(b),
    decreases b.len(),
{
    if b.len() == 0 {
        assert(a + b =~= a);
        assert(hex_digits_of(a) + hex_digits_of(b) =~= hex_digits_of(a));
    } else {
        lemma_hex_digits_concat(a, b.drop_last());
        assert((a + b).drop_last() =~= a + b.drop_last());
        assert((a + b).last() == b.last());
        if is_hex_ws(b.last()) {
            assert(hex_digits_of(a) + hex_digits_of(b) =~= hex_digits_of(a) + hex_digits_of(
                b.drop_last(),
            ));
        } else {
            assert(hex_digits_of(a) + hex_digits_of(b) =~= (hex_digits_of(a) + hex_digits_of(
                b.drop_last(),
            )).push(b.last()));
        }
    }
}

/// A sequence of nothing but whitespace holds no hex digits.
pub proof fn lemma_hex_digits_all_ws(s: Seq<char>)
    requires
        forall|i: int| 0 <= i < s.len() ==> is_hex_ws(s[i]),
    ensures
        hex_digits_of(s) == Seq::<char>::empty(),
    decreases s.len(),
{
    if s.len() > 0 {
        lemma_hex_digits_all_ws(s.drop_last());
    }
}

/// A sequence of nothing but hex digits is its own digit sequence.
pub proof fn lemma_hex_digits_all_hex(s: Seq<char>)
    requires
        forall|i: int| 0 <= i < s.len() ==> is_hex_digit(s[i]),
    ensures
        hex_digits_of(s) == s,
    decreases s.len(),
{
    if s.len() > 0 {
        lemma_hex_digits_all_hex(s.drop_last());
        assert(hex_digits_of(s) =~= s.drop_last().push(s.last()));
        assert(s.drop_last().push(s.last()) =~= s);
    }
}

/// Consuming a run of `w` whitespace characters from position `k` on leaves
/// the digits of the consumed prefix unchanged.
pub proof fn lemma_hex_digits_ws_run(s: Seq<char>, k: int, w: int)
    requires
        0 <= k,
        0 <= w,
        k + w <= s.len(),
        forall|j: int| k <= j < k + w ==> is_hex_ws(s[j]),
    ensures
        hex_digits_of(s.take(k + w)) == hex_digits_of(s.take(k)),
{
    assert(s.take(k + w) =~= s.take(k) + s.subrange(k, k + w));
    lemma_hex_digits_concat(s.take(k), s.subrange(k, k + w));
    lemma_hex_digits_all_ws(s.subrange(k, k + w));
    assert(hex_digits_of(s.take(k)) + Seq::<char>::empty() =~= hex_digits_of(s.take(k)));
}

/// Consuming a run of `w` whitespace characters from position `k` on and then
/// one non-whitespace character extends the digits of the consumed prefix by
/// exactly that character.
pub proof fn lemma_hex_digits_step(s: Seq<char>, k: int, w: int)
    requires
        0 <= k,
        0 <= w,
        k + w < s.len(),
        forall|j: int| k <= j < k + w ==> is_hex_ws(s[j]),
        !is_hex_ws(s[k + w]),
    ensures
        hex_digits_of(s.take(k + w + 1)) == hex_digits_of(s.take(k)).push(s[k + w]),
{
    lemma_hex_digits_ws_run(s, k, w);
    assert(s.take(k + w + 1) =~= s.take(k + w) + seq![s[k + w]]);
    lemma_hex_digits_concat(s.take(k + w), seq![s[k + w]]);
    let single = seq![s[k + w]];
    assert(single.len() == 1 && single.last() == s[k + w]);
    assert(single.drop_last() =~= Seq::<char>::empty());
    assert(hex_digits_of(single.drop_last()) == Seq::<char>::empty());
    assert(hex_digits_of(single) =~= single);
    assert(hex_digits_of(s.take(k)) + single =~= hex_digits_of(s.take(k)).push(s[k + w]));
}

/// A longer consumed prefix never holds fewer hex digits.
pub proof fn lemma_hex_digits_prefix_len(s: Seq<char>, i: int, j: int)
    requires
        0 <= i <= j <= s.len(),
    ensures
        hex_digits_of(s.take(i)).len() <= hex_digits_of(s.take(j)).len(),
{
    assert(s.take(j) =~= s.take(i) + s.subrange(i, j));
    lemma_hex_digits_concat(s.take(i), s.subrange(i, j));
}

/// Appending one digit pair to an evenly paired digit sequence appends its
/// byte to the decoding.
pub proof fn lemma_decode_pairs_snoc(d: Seq<char>, c1: char, c2: char)
    requires
        d.len() % 2 == 0,
    ensures
        decode_pairs(d + seq![c1, c2]) == decode_pairs(d).push(pair_value(c1, c2)),
    decreases d.len(),
{
    let e = d + seq![c1, c2];
    if d.len() == 0 {
        assert(e.len() == 2);
        assert(e[0] == c1 && e[1] == c2);
        assert(e.skip(2) =~= Seq::<char>::empty());
        assert(decode_pairs(e.skip(2)) == Seq::<u8>::empty());
        assert(decode_pairs(e) == seq![pair_value(c1, c2)] + decode_pairs(e.skip(2)));
        assert(seq![pair_value(c1, c2)] + Seq::<u8>::empty() =~= Seq::<u8>::empty().push(
            pair_value(c1, c2),
        ));
        assert(decode_pairs(d) == Seq::<u8>::empty());
    } else {
        assert(d.len() >= 2);
        assert(d.skip(2).len() % 2 == 0);
        lemma_decode_pairs_snoc(d.skip(2), c1, c2);
        assert(e.skip(2) =~= d.skip(2) + seq![c1, c2]);
        assert(e[0] == d[0] && e[1] == d[1]);
        assert(decode_pairs(e) == seq![pair_value(d[0], d[1])] + decode_pairs(e.skip(2)));
        assert(decode_pairs(e.skip(2)) == decode_pairs(d.skip(2)).push(pair_value(c1, c2)));
        assert(seq![pair_value(d[0], d[1])] + decode_pairs(d.skip(2)).push(pair_value(c1, c2)) =~= (
        seq![pair_value(d[0], d[1])] + decode_pairs(d.skip(2))).push(pair_value(c1, c2)));
        assert(decode_pairs(d) == seq![pair_value(d[0], d[1])] + decode_pairs(d.skip(2)));
    }
}

/// Pairwise decoding halves the length, dropping a trailing unpaired digit.
pub proof fn lemma_decode_pairs_len(d: Seq<char>)
    ensures
        decode_pairs(d).len() == d.len() / 2,
    decreases d.len(),
{
    if d.len() >= 2 {
        lemma_decode_pairs_len(d.skip(2));
    }
}

/// `first_invalid` names a rejected character preceded only by accepted ones.
pub proof fn lemma_first_invalid_props(s: Seq<char>)
    requires
        !all_scannable(s),
    ensures
        0 <= first_invalid(s) < s.len(),
        !is_scannable(s[first_invalid(s)]),
        forall|j: int| 0 <= j < first_invalid(s) ==> is_scannable(s[j]),
    decreases s.len(),
{
    if is_scannable(s[0]) {
        assert(!all_scannable(s.skip(1))) by {
            let i = choose|i: int| 0 <= i < s.len() && !is_scannable(s[i]);
            assert(s.skip(1)[i - 1] == s[i]);
        }
        lemma_first_invalid_props(s.skip(1));
        assert(forall|j: int|
            1 <= j < first_invalid(s) ==> s[j] == s.skip(1)[j - 1] && is_scannable(
                s.skip(1)[j - 1],
            ));
    }
}

/// A rejected character preceded only by accepted ones pins `first_invalid`
/// down to its position.
pub proof fn lemma_first_invalid_is(s: Seq<char>, p: int)
    requires
        0 <= p < s.len(),
        !is_scannable(s[p]),
        forall|j: int| 0 <= j < p ==> is_scannable(s[j]),
    ensures
        !all_scannable(s),
        first_invalid(s) == p,
    decreases p,
{
    if p > 0 {
        assert(is_scannable(s[0]));
        assert(forall|j: int| 0 <= j < p - 1 ==> s.skip(1)[j] == s[j + 1]);
        assert(s.skip(1)[p - 1] == s[p]);
        lemma_first_invalid_is(s.skip(1), p - 1);
    }
}

/// The raw literal text begins and ends with a quote character.
pub open spec fn quoted(raw: Seq<char>) -> bool {
    raw.len() >= 2 && raw[0] == '"' && raw[raw.len() - 1] == '"'
}

/// The content of a quoted literal: the text between the quotes, with one
/// leading `#` marker removed if present.
pub open spec fn literal_body(raw: Seq<char>) -> Seq<char> {
    let inner = raw.subrange(1, raw.len() - 1);
    if inner.len() > 0 && inner[0] == '#' {
        inner.skip(1)
    } else {
        inner
    }
}

/// The error reported for a character the scanner rejects.
pub open spec fn invalid_char_error(c: char) -> HexError {
    if (c as u32) < 128 {
        HexError::InvalidHexCharacter(c)
    } else {
        HexError::InvalidNonAsciiCharacter
    }
}

/// The outcome of converting the raw text of a color literal.
///
/// The scan walks the body left to right, so an unscannable character is
/// reported only if it comes before the tenth hex digit; scanning the tenth
/// digit completes a fifth byte, which already exceeds the RGBA maximum.
pub open spec fn hex_outcome(raw: Seq<char>) -> Result<Seq<u8>, HexError> {
    if !quoted(raw) {
        Err(HexError::MalformedQuoting)
    } else {
        let body = literal_body(raw);
        if all_scannable(body) {
            let d = hex_digits_of(body);
            if d.len() >= 10 {
                Err(HexError::TooManyBytes)
            } else if d.len() % 2 == 1 {
                Err(HexError::OddHexDigitCount)
            } else if d.len() < 6 {
                Err(HexError::TooFewBytes)
            } else {
                Ok(decode_pairs(d))
            }
        } else {
            let p = first_invalid(body);
            if hex_digits_of(body.take(p)).len() >= 10 {
                Err(HexError::TooManyBytes)
            } else {
                Err(invalid_char_error(body[p]))
            }
        }
    }
}

/// A quoted input whose body holds only hex digits and whitespace, with six
/// or eight digits, converts to the pairwise decoding of its digits in input
/// order: three bytes for six digits, four for eight.
pub proof fn lemma_valid_decoding(raw: Seq<char>)
    requires
        quoted(raw),
        all_scannable(literal_body(raw)),
        hex_digits_of(literal_body(raw)).len() == 6 || hex_digits_of(literal_body(raw)).len() == 8,
    ensures
        hex_outcome(raw) == Ok::<Seq<u8>, HexError>(
            decode_pairs(hex_digits_of(literal_body(raw))),
        ),
        decode_pairs(hex_digits_of(literal_body(raw))).len() == hex_digits_of(
            literal_body(raw),
        ).len() / 2,
{
    lemma_decode_pairs_len(hex_digits_of(literal_body(raw)));
}

/// Whitespace placement is immaterial: two quoted inputs whose bodies hold
/// only hex digits and whitespace and agree on their digit sequences convert
/// to the same outcome.
pub proof fn lemma_whitespace_invariance(s: Seq<char>, t: Seq<char>)
    requires
        quoted(s),
        quoted(t),
        all_scannable(literal_body(s)),
        all_scannable(literal_body(t)),
        hex_digits_of(literal_body(s)) == hex_digits_of(literal_body(t)),
    ensures
        hex_outcome(s) == hex_outcome(t),
{
}

/// A single leading `#` marker is immaterial: inserting one directly after
/// the opening quote of a literal whose content does not already begin with
/// `#` leaves the outcome unchanged.
pub proof fn lemma_hash_invariance(s: Seq<char>)
    requires
        quoted(s),
        s.len() > 2 ==> s[1] != '#',
    ensures
        hex_outcome(seq!['"', '#'] + s.skip(1)) == hex_outcome(s),
{
    let t = seq!['"', '#'] + s.skip(1);
    assert(t[0] == '"' && t[1] == '#');
    assert(t[t.len() - 1] == s[s.len() - 1]);
    assert(quoted(t));
    let inner_t = t.subrange(1, t.len() - 1);
    let inner_s = s.subrange(1, s.len() - 1);
    assert(inner_t[0] == '#');
    assert(inner_t.skip(1) =~= inner_s);
    if inner_s.len() > 0 {
        assert(inner_s[0] == s[1]);
    }
    assert(literal_body(t) == literal_body(s));
}

/// The lowercase form of a hex digit; every other character is unchanged.
pub open spec fn lower_hex_char(c: char) -> char {
    if c == 'A' {
        'a'
    } else if c == 'B' {
        'b'
    } else if c == 'C' {
        'c'
    } else if c == 'D' {
        'd'
    } else if c == 'E' {
        'e'
    } else if c == 'F' {
        'f'
    } else {
        c
    }
}

proof fn lemma_lower_hex_char(c: char)
    ensures
        is_hex_ws(lower_hex_char(c)) == is_hex_ws(c),
        is_hex_digit(lower_hex_char(c)) == is_hex_digit(c),
        is_scannable(lower_hex_char(c)) == is_scannable(c),
        is_hex_digit(c) ==> hex_digit_value(lower_hex_char(c)) == hex_digit_value(c),
        !is_hex_digit(c) ==> lower_hex_char(c) == c,
        ((lower_hex_char(c) as u32) < 128) == ((c as u32) < 128),
{
}

proof fn lemma_hex_digits_map_lower(s: Seq<char>)
    ensures
        hex_digits_of(s.map_values(|c: char| lower_hex_char(c))) == hex_digits_of(s).map_values(
            |c: char| lower_hex_char(c),
        ),
    decreases s.len(),
{
    let t = s.map_values(|c: char| lower_hex_char(c));
    if s.len() == 0 {
        assert(t =~= Seq::<char>::empty());
        assert(hex_digits_of(s).map_values(|c: char| lower_hex_char(c)) =~= Seq::<char>::empty());
    } else {
        lemma_hex_digits_map_lower(s.drop_last());
        lemma_lower_hex_char(s.last());
        assert(t.drop_last() =~= s.drop_last().map_values(|c: char| lower_hex_char(c)));
        assert(t.last() == lower_hex_char(s.last()));
        if is_hex_ws(s.last()) {
        } else {
            assert(hex_digits_of(s).map_values(|c: char| lower_hex_char(c)) =~= hex_digits_of(
                s.drop_last(),
            ).map_values(|c: char| lower_hex_char(c)).push(lower_hex_char(s.last())));
        }
    }
}

proof fn lemma_decode_pairs_map_lower(d: Seq<char>)
    ensures
        decode_pairs(d.map_values(|c: char| lower_hex_char(c))) == decode_pairs(d),
    decreases d.len(),
{
    let e = d.map_values(|c: char| lower_hex_char(c));
    if d.len() < 2 {
    } else {
        lemma_decode_pairs_map_lower(d.skip(2));
        assert(e.skip(2) =~= d.skip(2).map_values(|c: char| lower_hex_char(c)));
        assert(e[0] == lower_hex_char(d[0]) && e[1] == lower_hex_char(d[1]));
        lemma_lower_hex_char(d[0]);
        lemma_lower_hex_char(d[1]);
        assert(pair_value(e[0], e[1]) == pair_value(d[0], d[1]));
        assert(decode_pairs(e) =~= decode_pairs(d));
    }
}

/// Hex digits are read without regard to case: lowercasing every character
/// of the raw text leaves the outcome unchanged.
pub proof fn lemma_case_invariance(s: Seq<char>)
    ensures
        hex_outcome(s.map_values(|c: char| lower_hex_char(c))) == hex_outcome(s),
{
    let t = s.map_values(|c: char| lower_hex_char(c));
    assert(forall|i: int| 0 <= i < s.len() ==> t[i] == lower_hex_char(s[i]));
    assert forall|i: int| 0 <= i < s.len() implies t[i] == '"' <==> s[i] == '"' by {
        lemma_lower_hex_char(s[i]);
    }
    if !quoted(s) {
        assert(!quoted(t));
    } else {
        assert(quoted(t));
        let bs = literal_body(s);
        let bt = literal_body(t);
        assert(s.subrange(1, s.len() - 1).map_values(|c: char| lower_hex_char(c)) =~= t.subrange(
            1,
            t.len() - 1,
        ));
        if s.len() > 2 {
            lemma_lower_hex_char(s[1]);
            assert(t[1] == '#' <==> s[1] == '#');
        }
        assert(bt =~= bs.map_values(|c: char| lower_hex_char(c)));
        assert forall|i: int| 0 <= i < bs.len() implies is_scannable(bt[i]) == is_scannable(
            bs[i],
        ) by {
            lemma_lower_hex_char(bs[i]);
        }
        if all_scannable(bs) {
            assert(all_scannable(bt));
            lemma_hex_digits_map_lower(bs);
            lemma_decode_pairs_map_lower(hex_digits_of(bs));
            assert(hex_digits_of(bt).len() == hex_digits_of(bs).len());
        } else {
            lemma_first_invalid_props(bs);
            let p = first_invalid(bs);
            lemma_lower_hex_char(bs[p]);
            assert(bt[p] == bs[p]);
            lemma_first_invalid_is(bt, p);
            assert(bt.take(p) =~= bs.take(p).map_values(|c: char| lower_hex_char(c)));
            lemma_hex_digits_map_lower(bs.take(p));
            assert(hex_digits_of(bt.take(p)).len() == hex_digits_of(bs.take(p)).len());
        }
    }
}

/// The lowercase hex digit with value `n`.
pub open spec fn hex_char_of(n: u8) -> char {
    if n == 0 {
        '0'
    } else if n == 1 {
        '1'
    } else if n == 2 {
        '2'
    } else if n == 3 {
        '3'
    } else if n == 4 {
        '4'
    } else if n == 5 {
        '5'
    } else if n == 6 {
        '6'
    } else if n == 7 {
        '7'
    } else if n == 8 {
        '8'
    } else if n == 9 {
        '9'
    } else if n == 10 {
        'a'
    } else if n == 11 {
        'b'
    } else if n == 12 {
        'c'
    } else if n == 13 {
        'd'
    } else if n == 14 {
        'e'
    } else {
        'f'
    }
}

/// The two lowercase hex digits encoding `b`, high nibble first.
pub open spec fn encode_byte(b: u8) -> Seq<char> {
    seq![hex_char_of(b / 16), hex_char_of(b % 16)]
}

/// The hex encoding of `v`: two lowercase digits per byte, in order.
pub open spec fn encode_bytes(v: Seq<u8>) -> Seq<char>
    decreases v.len(),
{
    if v.len() == 0 {
        Seq::empty()
    } else {
        encode_byte(v[0]) + encode_bytes(v.skip(1))
    }
}

proof fn lemma_hex_char_of(n: u8)
    requires
        n < 16,
    ensures
        is_hex_digit(hex_char_of(n)),
        hex_digit_value(hex_char_of(n)) == n,
{
}

proof fn lemma_encode_bytes_shape(v: Seq<u8>)
    ensures
        encode_bytes(v).len() == 2 * v.len(),
        forall|i: int| 0 <= i < encode_bytes(v).len() ==> is_hex_digit(encode_bytes(v)[i]),
    decreases v.len(),
{
    if v.len() > 0 {
        lemma_encode_bytes_shape(v.skip(1));
        assert(v[0] / 16 < 16 && v[0] % 16 < 16);
        lemma_hex_char_of(v[0] / 16);
        lemma_hex_char_of(v[0] % 16);
        assert(forall|i: int|
            2 <= i < encode_bytes(v).len() ==> encode_bytes(v)[i] == encode_bytes(v.skip(1))[i
                - 2]);
    }
}

proof fn lemma_decode_encode(v: Seq<u8>)
    ensures
        decode_pairs(encode_bytes(v)) == v,
    decreases v.len(),
{
    let e = encode_bytes(v);
    if v.len() == 0 {
        assert(decode_pairs(e) =~= v);
    } else {
        assert(e[0] == hex_char_of(v[0] / 16) && e[1] == hex_char_of(v[0] % 16));
        assert(v[0] / 16 < 16 && v[0] % 16 < 16);
        lemma_hex_char_of(v[0] / 16);
        lemma_hex_char_of(v[0] % 16);
        assert(v[0] == (v[0] / 16) * 16 + v[0] % 16) by {
            vstd::arithmetic::div_mod::lemma_fundamental_div_mod(v[0] as int, 16);
        }
        assert(pair_value(e[0], e[1]) == v[0]);
        assert(e.skip(2) =~= encode_bytes(v.skip(1)));
        lemma_decode_encode(v.skip(1));
        assert(decode_pairs(e) =~= v);
    }
}

/// Round trip: encoding three or four bytes as two lowercase hex digits per
/// byte, quoting the result, and converting gives back the same bytes.
pub proof fn lemma_round_trip(v: Seq<u8>)
    requires
        3 <= v.len() <= 4,
    ensures
        hex_outcome(seq!['"'] + encode_bytes(v) + seq!['"']) == Ok::<Seq<u8>, HexError>(v),
{
    let raw = seq!['"'] + encode_bytes(v) + seq!['"'];
    lemma_encode_bytes_shape(v);
    assert(raw[0] == '"' && raw[raw.len() - 1] == '"');
    assert(quoted(raw));
    let inner = raw.subrange(1, raw.len() - 1);
    assert(inner =~= encode_bytes(v));
    assert(is_hex_digit(inner[0]));
    assert(inner[0] != '#');
    assert(literal_body(raw) == encode_bytes(v));
    lemma_hex_digits_all_hex(encode_bytes(v));
    lemma_decode_encode(v);
}

} // verus!
