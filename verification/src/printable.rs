//! Text formatting for printed statistics: decimal integers, integers
//! with comma separators, and right-justified fields.

use vstd::prelude::*;
use vstd::string::*;
use vstd::utf8::*;
use crate::Units;
use vstd::arithmetic::power2::{pow2, lemma_pow2_unfold, lemma_pow2_strictly_increases, lemma2_to64, lemma2_to64_rest};

verus! {

/// The character for a decimal digit.
pub open spec fn digit_char(d: int) -> char {
    (48 + d) as char
}

/// The decimal representation of a natural number, most significant
/// digit first, with no leading zeros.
pub open spec fn decimal(n: nat) -> Seq<char>
    decreases n,
{
    if n < 10 {
        seq![digit_char(n as int)]
    } else {
        decimal(n / 10).push(digit_char((n % 10) as int))
    }
}

/// The decimal representation of an integer, with a leading minus sign
/// for negative values.
pub open spec fn signed_decimal(v: int) -> Seq<char> {
    if v < 0 {
        seq!['-'] + decimal((-v) as nat)
    } else {
        decimal(v as nat)
    }
}

/// A run of `n` spaces.
pub open spec fn spaces(n: nat) -> Seq<char> {
    Seq::new(n, |i: int| ' ')
}

/// The text `s` right-justified in a field of `width` characters; text
/// wider than the field is left as it is.
pub open spec fn right_justify(s: Seq<char>, width: nat) -> Seq<char> {
    if s.len() < width {
        spaces((width - s.len()) as nat) + s
    } else {
        s
    }
}

/// A digit string with a comma inserted before every group of three
/// digits counted from the right.
pub open spec fn group_digits(d: Seq<char>) -> Seq<char>
    decreases d.len(),
{
    if d.len() <= 3 {
        d
    } else {
        group_digits(d.subrange(0, d.len() - 3)) + seq![','] + d.subrange(
            d.len() - 3,
            d.len() as int,
        )
    }
}

/// The text `s` left-justified in a field of `width` characters; text
/// wider than the field is left as it is.
pub open spec fn left_justify(s: Seq<char>, width: nat) -> Seq<char> {
    if s.len() < width {
        s + spaces((width - s.len()) as nat)
    } else {
        s
    }
}

/// The standard printed line of a named integer statistic with its units:
/// the singular unit name for the value one, the plural name otherwise.
pub open spec fn integer_line_text(name: Seq<char>, value: int, singular: Seq<char>, plural: Seq<char>) -> Seq<char> {
    spaces(4) + left_justify(name, 12) + seq![' '] + right_justify(with_commas(signed_decimal(value)), 12)
        + seq![' '] + if value == 1 {
        singular
    } else {
        plural
    }
}

/// The text of an integer with comma separators.  A leading sign is kept
/// in front of the digits, and no comma follows it.
pub open spec fn with_commas(v: Seq<char>) -> Seq<char> {
    if v.len() <= 3 {
        v
    } else if v.len() % 3 == 1 && (v[0] == '+' || v[0] == '-') {
        seq![v[0]] + group_digits(v.skip(1))
    } else {
        group_digits(v)
    }
}

proof fn lemma_decimal_ascii(n: nat)
    ensures
        is_ascii_chars(decimal(n)),
        decimal(n).len() >= 1,
    decreases n,
{
    if n >= 10 {
        lemma_decimal_ascii(n / 10);
    }
}

proof fn lemma_signed_decimal_ascii(v: int)
    ensures
        is_ascii_chars(signed_decimal(v)),
{
    if v < 0 {
        lemma_decimal_ascii((-v) as nat);
        assert(is_ascii_chars(seq!['-']));
        is_ascii_chars_concat(seq!['-'] + decimal((-v) as nat), seq!['-'], decimal((-v) as nat));
    } else {
        lemma_decimal_ascii(v as nat);
    }
}

// The one-character text of a decimal digit.
fn digit_str(d: u64) -> (r: &'static str)
    requires
        d < 10,
    ensures
        r@ == seq![digit_char(d as int)],
{
    if d == 0 {
        proof { reveal_strlit("0"); }
        "0"
    } else if d == 1 {
        proof { reveal_strlit("1"); }
        "1"
    } else if d == 2 {
        proof { reveal_strlit("2"); }
        "2"
    } else if d == 3 {
        proof { reveal_strlit("3"); }
        "3"
    } else if d == 4 {
        proof { reveal_strlit("4"); }
        "4"
    } else if d == 5 {
        proof { reveal_strlit("5"); }
        "5"
    } else if d == 6 {
        proof { reveal_strlit("6"); }
        "6"
    } else if d == 7 {
        proof { reveal_strlit("7"); }
        "7"
    } else if d == 8 {
        proof { reveal_strlit("8"); }
        "8"
    } else {
        proof { reveal_strlit("9"); }
        "9"
    }
}

/// The decimal text of an unsigned integer.
pub fn decimal_u64(n: u64) -> (r: String)
    ensures
        r@ == decimal(n as nat),
    decreases n,
{
    if n < 10 {
        String::from_str(digit_str(n))
    } else {
        let mut r = decimal_u64(n / 10);
        r.append(digit_str(n % 10));
        r
    }
}

/// The decimal text of a signed integer.
pub fn decimal_i64(v: i64) -> (r: String)
    ensures
        r@ == signed_decimal(v as int),
{
    if v < 0 {
        let magnitude: u64 = if v == i64::MIN {
            9223372036854775808u64
        } else {
            (-v) as u64
        };
        proof { reveal_strlit("-"); }
        let mut r = String::from_str("-");
        let digits = decimal_u64(magnitude);
        r.append(digits.as_str());
        r
    } else {
        decimal_u64(v as u64)
    }
}

/// The text of the bytes `b` with a comma inserted before every group of
/// three bytes counted from the right, each group decoded on its own.
pub open spec fn group_utf8(b: Seq<u8>) -> Seq<char>
    decreases b.len(),
{
    if b.len() <= 3 {
        decode_utf8(b)
    } else {
        group_utf8(b.subrange(0, b.len() - 3)) + seq![','] + decode_utf8(
            b.subrange(b.len() - 3, b.len() as int),
        )
    }
}

/// Every cut between groups of three bytes, counted from the right, falls
/// on a character boundary, so that every group is valid UTF-8.
pub open spec fn groups_on_boundaries(b: Seq<u8>) -> bool {
    forall|i: int| 0 < i < b.len() && (b.len() - i) % 3 == 0 ==> #[trigger] is_char_boundary(b, i)
}

/// The text starts with a sign that is kept apart from the grouping: it
/// is longer than three bytes, its length in bytes is one more than a
/// multiple of three, and its first character is `+` or `-`.
pub open spec fn sign_kept_apart(v: Seq<char>) -> bool {
    &&& encode_utf8(v).len() > 3
    &&& encode_utf8(v).len() % 3 == 1
    &&& (v[0] == '+' || v[0] == '-')
}

/// The bytes that are grouped by three when commas are inserted into `v`.
pub open spec fn comma_digits(v: Seq<char>) -> Seq<u8> {
    if sign_kept_apart(v) {
        encode_utf8(v.skip(1))
    } else {
        encode_utf8(v)
    }
}

/// Commas can be inserted into `v`: it is at most three bytes long, or
/// every group of three bytes to be separated is valid UTF-8.
pub open spec fn commas_defined(v: Seq<char>) -> bool {
    encode_utf8(v).len() <= 3 || groups_on_boundaries(comma_digits(v))
}

/// The text `v` with commas inserted between groups of three bytes counted
/// from the right, a leading sign kept in front.  On ASCII text this is
/// `with_commas`.
pub open spec fn with_commas_utf8(v: Seq<char>) -> Seq<char> {
    if encode_utf8(v).len() <= 3 {
        v
    } else if sign_kept_apart(v) {
        seq![v[0]] + group_utf8(encode_utf8(v.skip(1)))
    } else {
        group_utf8(encode_utf8(v))
    }
}

// A character boundary of a valid byte sequence that lies before another
// boundary `j` is also a boundary of the first `j` bytes.
proof fn lemma_boundary_in_prefix(b: Seq<u8>, i: int, j: int)
    requires
        valid_utf8(b),
        0 < i < j,
        j <= b.len(),
        is_char_boundary(b, i),
        is_char_boundary(b, j),
    ensures
        valid_utf8(b.subrange(0, j)),
        is_char_boundary(b.subrange(0, j), i),
{
    valid_utf8_split(b, j);
    let p = b.subrange(0, j);
    is_char_boundary_iff_not_is_continuation_byte(b, i);
    is_char_boundary_iff_not_is_continuation_byte(p, i);
    assert(p[i] == b[i]);
}

// Grouping ASCII bytes is grouping the characters they encode.
proof fn lemma_group_ascii(v: Seq<char>)
    requires
        is_ascii_chars(v),
    ensures
        groups_on_boundaries(encode_utf8(v)),
        group_utf8(encode_utf8(v)) == group_digits(v),
    decreases v.len(),
{
    let b = encode_utf8(v);
    is_ascii_chars_encode_utf8(v);
    encode_utf8_valid_utf8(v);
    assert forall|i: int| 0 < i < b.len() && (b.len() - i) % 3 == 0 implies #[trigger] is_char_boundary(b, i) by {
        is_char_boundary_iff_not_is_continuation_byte(b, i);
        assert(v[i] as u8 == b[i]);
    }
    if v.len() <= 3 {
        encode_utf8_decode_utf8(v);
    } else {
        let n = v.len() as int;
        let head = v.subrange(0, n - 3);
        let tail = v.subrange(n - 3, n);
        assert(is_ascii_chars(head));
        assert(is_ascii_chars(tail));
        is_ascii_chars_encode_utf8(head);
        is_ascii_chars_encode_utf8(tail);
        assert(b.subrange(0, n - 3) =~= encode_utf8(head)) by {
            assert forall|k: int| 0 <= k < n - 3 implies b.subrange(0, n - 3)[k] == encode_utf8(head)[k] by {
                assert(head[k] == v[k]);
                assert(v[k] as u8 == b[k]);
                assert(head[k] as u8 == encode_utf8(head)[k]);
            }
        }
        assert(b.subrange(n - 3, n) =~= encode_utf8(tail)) by {
            assert forall|k: int| 0 <= k < 3 implies b.subrange(n - 3, n)[k] == encode_utf8(tail)[k] by {
                assert(tail[k] == v[n - 3 + k]);
                assert(v[n - 3 + k] as u8 == b[n - 3 + k]);
                assert(tail[k] as u8 == encode_utf8(tail)[k]);
            }
        }
        lemma_group_ascii(head);
        encode_utf8_decode_utf8(tail);
    }
}

/// On ASCII text, commas can always be inserted, and they go where
/// `with_commas` puts them.
pub proof fn lemma_commas_ascii(v: Seq<char>)
    requires
        is_ascii_chars(v),
    ensures
        commas_defined(v),
        with_commas_utf8(v) == with_commas(v),
{
    is_ascii_chars_encode_utf8(v);
    lemma_group_ascii(v);
    if v.len() > 0 {
        let rest = v.skip(1);
        assert(is_ascii_chars(rest)) by {
            assert forall|i: int| 0 <= i < rest.len() implies '\0' <= #[trigger] rest[i] <= '\u{7f}' by {
                assert(rest[i] == v[i + 1]);
            }
        }
        is_ascii_chars_encode_utf8(rest);
        lemma_group_ascii(rest);
    }
}

// Inserts the commas into text whose groups of three bytes, counted from
// the right, are each valid UTF-8.
fn group_utf8_str(d: &str) -> (r: String)
    requires
        groups_on_boundaries(d.spec_bytes()),
    ensures
        r@ == group_utf8(d.spec_bytes()),
    decreases d.spec_bytes().len(),
{
    let ghost b = d.spec_bytes();
    proof {
        encode_utf8_decode_utf8(d@);
        encode_utf8_valid_utf8(d@);
    }
    let n = d.as_bytes().len();
    if n <= 3 {
        String::from_str(d)
    } else {
        let ghost cut = (n - 3) as int;
        assert(0 < cut < b.len() && (b.len() - cut) % 3 == 0);
        assert(is_char_boundary(b, cut));
        let (head, tail) = d.split_at(n - 3);
        proof {
            is_char_boundary_start_end_of_seq(b);
            valid_utf8_split(b, cut);
            let hb = head.spec_bytes();
            assert(hb =~= b.subrange(0, cut));
            assert forall|i: int| 0 < i < hb.len() && (hb.len() - i) % 3 == 0 implies #[trigger] is_char_boundary(hb, i) by {
                assert(is_char_boundary(b, i));
                lemma_boundary_in_prefix(b, i, cut);
            }
            encode_utf8_decode_utf8(head@);
            encode_utf8_decode_utf8(tail@);
        }
        let mut r = group_utf8_str(head);
        proof { reveal_strlit(","); }
        r.append(",");
        r.append(tail);
        proof {
            assert(tail@ == decode_utf8(b.subrange(cut, b.len() as int)));
        }
        r
    }
}

/// Inserts commas into the text of a number: a comma goes before every
/// group of three bytes counted from the right, and a leading `+` or `-`
/// is kept in front when it would start a group of its own.  Every group
/// of three bytes must be valid UTF-8 on its own, which ASCII text always
/// is.
pub fn commas(value: &str) -> (r: String)
    requires
        commas_defined(value@),
    ensures
        r@ == with_commas_utf8(value@),
{
    proof {
        encode_utf8_decode_utf8(value@);
    }
    let n = value.as_bytes().len();
    if n <= 3 {
        return String::from_str(value);
    }
    if n % 3 == 1 {
        let first = value.get_char(0);
        if first == '+' || first == '-' {
            let chars = value.unicode_len();
            let digits = value.substring_char(1, chars);
            assert(digits@ =~= value@.skip(1));
            let grouped = group_utf8_str(digits);
            let mut r = if first == '+' {
                proof { reveal_strlit("+"); }
                String::from_str("+")
            } else {
                proof { reveal_strlit("-"); }
                String::from_str("-")
            };
            r.append(grouped.as_str());
            return r;
        }
    }
    group_utf8_str(value)
}

/// The decimal text of a signed integer, with comma separators.
pub fn commas_i64(value: i64) -> (r: String)
    ensures
        r@ == with_commas(signed_decimal(value as int)),
{
    let base = decimal_i64(value);
    proof {
        lemma_signed_decimal_ascii(value as int);
        lemma_commas_ascii(base@);
    }
    commas(base.as_str())
}

/// The decimal text of an unsigned integer, with comma separators.
pub fn commas_u64(value: u64) -> (r: String)
    ensures
        r@ == with_commas(decimal(value as nat)),
{
    let base = decimal_u64(value);
    proof {
        lemma_decimal_ascii(value as nat);
        lemma_commas_ascii(base@);
    }
    commas(base.as_str())
}

/// Appends `n` spaces to `s`.
pub fn push_spaces(s: &mut String, n: usize)
    ensures
        final(s)@ == old(s)@ + spaces(n as nat),
{
    let ghost start = s@;
    let mut i: usize = 0;
    while i < n
        invariant
            i <= n,
            s@ == start + spaces(i as nat),
        decreases n - i,
    {
        proof { reveal_strlit(" "); }
        s.append(" ");
        i = i + 1;
        assert(start + spaces(i as nat) =~= start + spaces((i - 1) as nat) + " "@);
    }
}

/// Appends `text` to `s`, right-justified in a field of `width`
/// characters.
pub fn push_right_justified(s: &mut String, text: &str, width: usize)
    ensures
        final(s)@ == old(s)@ + right_justify(text@, width as nat),
{
    let n = text.unicode_len();
    let ghost start = s@;
    if n < width {
        push_spaces(s, width - n);
    } else {
        assert(start + spaces(0) =~= start);
    }
    let ghost mid = s@;
    s.append(text);
    assert(s@ =~= start + right_justify(text@, width as nat));
}

/// Appends `text` to `s`, left-justified in a field of `width`
/// characters.
pub fn push_left_justified(s: &mut String, text: &str, width: usize)
    ensures
        final(s)@ == old(s)@ + left_justify(text@, width as nat),
{
    let n = text.unicode_len();
    let ghost start = s@;
    s.append(text);
    if n < width {
        push_spaces(s, width - n);
    }
    assert(s@ =~= start + left_justify(text@, width as nat));
}

/// The standard printed line of a named integer statistic with its units.
pub fn integer_line(name: &str, value: i64, units: &Units) -> (r: String)
    ensures
        r@ == integer_line_text(name@, value as int, units.singular@, units.plural@),
{
    let mut line = String::new();
    push_spaces(&mut line, 4);
    push_left_justified(&mut line, name, 12);
    proof { reveal_strlit(" "); }
    line.append(" ");
    let digits = commas_i64(value);
    push_right_justified(&mut line, digits.as_str(), 12);
    line.append(" ");
    if value == 1 {
        line.append(units.singular.as_str());
    } else {
        line.append(units.plural.as_str());
    }
    assert(line@ =~= integer_line_text(name@, value as int, units.singular@, units.plural@));
    line
}

/// The value printed as the mode of integer samples whose pseudo-log mode
/// is `log_mode`: three quarters of two to the absolute log mode (the
/// power itself below four), negated for a negative log mode.
pub open spec fn log_mode_value_of(log_mode: int) -> int {
    let a = if log_mode < 0 { -log_mode } else { log_mode };
    let u = pow2(a as nat) - pow2(a as nat) / 4;
    if log_mode < 0 { -u } else { u }
}

/// The printed mode value is three quarters of two to the absolute log
/// mode, carrying the log mode's sign; below an absolute log mode of two it
/// is the power itself.
pub proof fn lemma_log_mode_value(log_mode: int)
    ensures
        log_mode >= 2 ==> 4 * log_mode_value_of(log_mode) == 3 * pow2(log_mode as nat),
        log_mode <= -2 ==> 4 * log_mode_value_of(log_mode) == -3 * pow2((-log_mode) as nat),
        log_mode == 0 ==> log_mode_value_of(log_mode) == 1,
        log_mode == 1 ==> log_mode_value_of(log_mode) == 2,
        log_mode == -1 ==> log_mode_value_of(log_mode) == -2,
{
    lemma2_to64();
    let a = if log_mode < 0 { -log_mode } else { log_mode };
    if a >= 2 {
        vstd::arithmetic::power2::lemma_pow2_adds(2, (a - 2) as nat);
        let q: int = pow2((a - 2) as nat) as int;
        assert(pow2(a as nat) == 4 * q);
        vstd::arithmetic::div_mod::lemma_fundamental_div_mod_converse(4 * q, 4, q, 0);
        assert(pow2(a as nat) / 4 == q);
    }
}

/// Returns the value printed as the mode of integer samples with the
/// given pseudo-log mode.
pub fn log_mode_value(log_mode: i64) -> (r: i64)
    requires
        -63 <= log_mode <= 63,
    ensures
        r == log_mode_value_of(log_mode as int),
        log_mode >= 2 ==> 4 * r == 3 * pow2(log_mode as nat),
        log_mode <= -2 ==> 4 * r == -3 * pow2((-log_mode) as nat),
        log_mode == 0 ==> r == 1,
        log_mode == 1 ==> r == 2,
        log_mode == -1 ==> r == -2,
{
    proof {
        lemma_log_mode_value(log_mode as int);
    }
    let a: u64 = if log_mode < 0 { (-log_mode) as u64 } else { log_mode as u64 };
    let mut power: u64 = 1;
    let mut i: u64 = 0;
    proof {
        lemma2_to64();
    }
    while i < a
        invariant
            i <= a <= 63,
            power == pow2(i as nat),
        decreases a - i,
    {
        proof {
            lemma_pow2_unfold((i + 1) as nat);
            lemma_pow2_strictly_increases((i + 1) as nat, 64);
            lemma2_to64();
        }
        power = power * 2;
        i = i + 1;
    }
    proof {
        if a < 63 {
            lemma_pow2_strictly_increases(a as nat, 63);
        }
        lemma2_to64();
        lemma2_to64_rest();
        assert(power <= 0x8000_0000_0000_0000u64);
        assert(power - power / 4 <= 0x6000_0000_0000_0000) by (nonlinear_arith)
            requires
                power <= 0x8000_0000_0000_0000u64,
        ;
    }
    let u = (power - power / 4) as i64;
    if log_mode < 0 {
        -u
    } else {
        u
    }
}

/// The text `t` with each `e` replaced by ` e+`.
pub open spec fn widen_exponent(t: Seq<char>) -> Seq<char>
    decreases t.len(),
{
    if t.len() == 0 {
        Seq::empty()
    } else {
        widen_exponent(t.drop_last()) + if t.last() == 'e' {
            seq![' ', 'e', '+']
        } else {
            seq![t.last()]
        }
    }
}

/// The text `s` with each `e+-`, taken from the left without overlaps,
/// replaced by ` e-`.
pub open spec fn negative_exponent(s: Seq<char>) -> Seq<char>
    decreases s.len(),
{
    if s.len() < 3 {
        s
    } else if s[0] == 'e' && s[1] == '+' && s[2] == '-' {
        seq![' ', 'e', '-'] + negative_exponent(s.skip(3))
    } else {
        seq![s[0]] + negative_exponent(s.drop_first())
    }
}

/// The scientific text `t` with its exponent set apart and signed:
/// `+1.5e-3` becomes `+1.5  e-3` and `+1.5e3` becomes `+1.5 e+3`.
pub open spec fn spread_scientific(t: Seq<char>) -> Seq<char> {
    negative_exponent(widen_exponent(t))
}

/// The first characters of `s` before its first space, at most `n`.
pub open spec fn head_before_space(s: Seq<char>, n: nat) -> Seq<char>
    decreases n,
{
    if n == 0 || s.len() == 0 || s[0] == ' ' {
        Seq::empty()
    } else {
        seq![s[0]] + head_before_space(s.drop_first(), (n - 1) as nat)
    }
}

/// The characters of `s` after its last space: all of it when it has no
/// space.
pub open spec fn after_last_space(s: Seq<char>) -> Seq<char>
    decreases s.len(),
{
    if s.len() == 0 {
        Seq::empty()
    } else if s.last() == ' ' {
        Seq::empty()
    } else {
        after_last_space(s.drop_last()).push(s.last())
    }
}

/// The mantissa printed for the scientific text `t`: its first eight
/// characters before the exponent, given a decimal point and trailing
/// zeros as needed to make eight characters.
pub open spec fn sci_mantissa(t: Seq<char>) -> Seq<char> {
    let m = head_before_space(spread_scientific(t), 8);
    let pointed = if m.contains('.') { m } else { m + seq!['.', '0'] };
    if pointed.len() < 8 {
        pointed + Seq::new((8 - pointed.len()) as nat, |i: int| '0')
    } else {
        pointed
    }
}

/// The exponent printed for the scientific text `t`: the signed exponent,
/// padded with spaces to at least four bytes.
pub open spec fn sci_exponent(t: Seq<char>) -> Seq<char> {
    let x = after_last_space(spread_scientific(t));
    let bytes = encode_utf8(x).len();
    if bytes < 4 {
        x + spaces((4 - bytes) as nat)
    } else {
        x
    }
}

// Replaces each `e` of the text by ` e+`.
fn widen_exponent_text(t: &str) -> (r: String)
    ensures
        r@ == widen_exponent(t@),
{
    let n = t.unicode_len();
    let mut r = String::new();
    let mut i: usize = 0;
    proof {
        assert(t@.take(0) =~= Seq::<char>::empty());
    }
    while i < n
        invariant
            n == t@.len(),
            i <= n,
            r@ == widen_exponent(t@.take(i as int)),
        decreases n - i,
    {
        let c = t.get_char(i);
        proof {
            assert(t@.take(i + 1).drop_last() =~= t@.take(i as int));
            assert(t@.take(i + 1).last() == c);
        }
        if c == 'e' {
            proof { reveal_strlit(" e+"); }
            r.append(" e+");
        } else {
            let one = t.substring_char(i, i + 1);
            assert(one@ =~= seq![c]);
            r.append(one);
        }
        i = i + 1;
    }
    assert(t@.take(n as int) =~= t@);
    r
}

// Replaces each `e+-` of the text, from the left, by ` e-`.
fn negative_exponent_text(s: &str) -> (r: String)
    ensures
        r@ == negative_exponent(s@),
{
    let n = s.unicode_len();
    let mut r = String::new();
    let mut i: usize = 0;
    proof {
        assert(s@.skip(0) =~= s@);
    }
    while i < n
        invariant
            n == s@.len(),
            i <= n,
            r@ + negative_exponent(s@.skip(i as int)) == negative_exponent(s@),
        decreases n - i,
    {
        let ghost rest = s@.skip(i as int);
        if n - i < 3 {
            let tail = s.substring_char(i, n);
            assert(tail@ =~= rest);
            r.append(tail);
            proof {
                assert(negative_exponent(rest) == rest);
                assert(s@.skip(n as int) =~= Seq::<char>::empty());
                assert(r@ + negative_exponent(s@.skip(n as int)) =~= r@);
            }
            i = n;
        } else if s.get_char(i) == 'e' && s.get_char(i + 1) == '+' && s.get_char(i + 2) == '-' {
            proof { reveal_strlit(" e-"); }
            let ghost before = r@;
            r.append(" e-");
            proof {
                assert(rest.skip(3) =~= s@.skip(i + 3));
                assert(negative_exponent(rest) == seq![' ', 'e', '-'] + negative_exponent(s@.skip(i + 3)));
                assert(r@ + negative_exponent(s@.skip(i + 3)) =~= before + negative_exponent(rest));
            }
            i = i + 3;
        } else {
            let one = s.substring_char(i, i + 1);
            let ghost before = r@;
            r.append(one);
            proof {
                assert(one@ =~= seq![rest[0]]);
                assert(rest.drop_first() =~= s@.skip(i + 1));
                assert(r@ + negative_exponent(s@.skip(i + 1)) =~= before + negative_exponent(rest));
            }
            i = i + 1;
        }
    }
    proof {
        assert(s@.skip(n as int) =~= Seq::<char>::empty());
        assert(r@ + negative_exponent(s@.skip(n as int)) =~= r@);
    }
    r
}

// The head of a text before its first space is the text up to a position.
proof fn lemma_head_before_space(s: Seq<char>, n: nat, k: int)
    requires
        0 <= k <= s.len(),
        k <= n,
        forall|j: int| 0 <= j < k ==> s[j] != ' ',
        k == n || k == s.len() || s[k] == ' ',
    ensures
        head_before_space(s, n) == s.take(k),
    decreases n,
{
    if k == 0 {
        assert(s.take(0) =~= Seq::<char>::empty());
    } else {
        lemma_head_before_space(s.drop_first(), (n - 1) as nat, k - 1);
        assert(seq![s[0]] + s.drop_first().take(k - 1) =~= s.take(k));
    }
}

/// Splits the scientific text of a number, as written with a forced sign,
/// into the mantissa and the exponent that are printed: the mantissa is
/// eight characters with a decimal point, and the exponent is signed and
/// padded with spaces to at least four bytes.
pub fn scientific_parts(text: &str) -> (r: (String, String))
    ensures
        r.0@ == sci_mantissa(text@),
        r.1@ == sci_exponent(text@),
{
    let widened = widen_exponent_text(text);
    let spread = negative_exponent_text(widened.as_str());
    let s = spread.as_str();
    let ghost sv = spread_scientific(text@);
    assert(s@ == sv);
    let n = s.unicode_len();

    // The mantissa: the first characters before the exponent, at most eight.

    let mut k: usize = 0;
    let mut got_decimal = false;
    while k < n && k < 8 && s.get_char(k) != ' '
        invariant
            n == sv.len(),
            s@ == sv,
            k <= n,
            k <= 8,
            forall|j: int| 0 <= j < k ==> sv[j] != ' ',
            got_decimal <==> sv.take(k as int).contains('.'),
        decreases n - k,
    {
        if s.get_char(k) == '.' {
            got_decimal = true;
        }
        proof {
            let c = sv[k as int];
            assert(sv.take(k + 1) =~= sv.take(k as int).push(c));
            if c == '.' {
                assert(sv.take(k + 1)[k as int] == '.');
            }
            let longer = sv.take(k + 1);
            if longer.contains('.') && c != '.' {
                let w = choose|w: int| 0 <= w < longer.len() && #[trigger] longer[w] == '.';
                assert(sv.take(k as int)[w] == '.');
            }
        }
        k = k + 1;
    }
    proof {
        lemma_head_before_space(sv, 8, k as int);
    }
    let mut mantissa = String::from_str(s.substring_char(0, k));
    assert(mantissa@ =~= head_before_space(sv, 8));
    if !got_decimal {
        proof { reveal_strlit(".0"); }
        mantissa.append(".0");
    }
    let ghost pointed = mantissa@;
    let mut count = mantissa.as_str().unicode_len();
    while count < 8
        invariant
            count <= 8 || count == pointed.len(),
            pointed.len() < 8 ==> count <= 8,
            count >= pointed.len(),
            count == mantissa@.len(),
            mantissa@ == pointed + Seq::new((count - pointed.len()) as nat, |i: int| '0'),
        decreases 8 - count,
    {
        proof { reveal_strlit("0"); }
        let ghost before = mantissa@;
        mantissa.append("0");
        proof {
            assert(mantissa@ =~= pointed + Seq::new((count + 1 - pointed.len()) as nat, |i: int| '0'));
        }
        count = count + 1;
    }
    proof {
        if pointed.len() >= 8 {
            assert(mantissa@ =~= pointed);
        }
    }

    // The exponent: the characters after the last space.

    let mut start: usize = 0;
    let mut i: usize = 0;
    proof {
        assert(sv.take(0) =~= Seq::<char>::empty());
    }
    while i < n
        invariant
            n == sv.len(),
            s@ == sv,
            start <= i <= n,
            after_last_space(sv.take(i as int)) == sv.take(i as int).skip(start as int),
        decreases n - i,
    {
        proof {
            assert(sv.take(i + 1).drop_last() =~= sv.take(i as int));
        }
        if s.get_char(i) == ' ' {
            start = i + 1;
            proof {
                assert(sv.take(i + 1).skip(i + 1) =~= Seq::<char>::empty());
            }
        } else {
            proof {
                assert(sv.take(i + 1).skip(start as int) =~= sv.take(i as int).skip(start as int).push(sv[i as int]));
            }
        }
        i = i + 1;
    }
    proof {
        assert(sv.take(n as int) =~= sv);
    }
    let mut exponent = String::from_str(s.substring_char(start, n));
    assert(exponent@ =~= after_last_space(sv));
    let bytes = exponent.as_str().as_bytes().len();
    if bytes < 4 {
        push_spaces(&mut exponent, 4 - bytes);
    }
    (mantissa, exponent)
}

} // verus!
