//! The text form of a glyph that the editor copies to and reads from the
//! clipboard: `[` then the glyph's bytes in decimal, separated by commas,
//! then `]`, as in `[0,255,16]`.
use vstd::prelude::*;
use vstd::std_specs::iter::IteratorSpec;

use simple_string_patterns::StripCharacters;

verus! {

/// A decimal digit, as `char::is_digit(10)` tells it.
pub open spec fn is_decimal_digit(c: char) -> bool {
    '0' <= c <= '9'
}

/// The character of the decimal digit `d`.
pub open spec fn digit_char(d: int) -> char {
    (('0' as int) + d) as char
}

/// The value of a decimal digit character.
pub open spec fn digit_value(c: char) -> int {
    (c as int) - ('0' as int)
}

/// A byte in decimal, without leading zeros.
pub open spec fn decimal(v: u8) -> Seq<char> {
    let n = v as int;
    if n < 10 {
        seq![digit_char(n)]
    } else if n < 100 {
        seq![digit_char(n / 10), digit_char(n % 10)]
    } else {
        seq![digit_char(n / 100), digit_char((n / 10) % 10), digit_char(n % 10)]
    }
}

/// The value of a string of decimal digits.
pub open spec fn digits_value(s: Seq<char>) -> int
    decreases s.len(),
{
    if s.len() == 0 {
        0
    } else {
        digits_value(s.drop_last()) * 10 + digit_value(s.last())
    }
}

/// What `u8::from_str_radix(s, 10).unwrap_or(0)` gives for a string of
/// decimal digits: its value, or 0 where it is empty or too large.
pub open spec fn parse_u8_or_zero(digits: Seq<char>) -> u8 {
    if digits.len() == 0 || digits_value(digits) > 255 {
        0
    } else {
        digits_value(digits) as u8
    }
}

/// The byte that a field of the text stands for: its digits, the other
/// characters dropped, read in decimal; 0 where it has none or too many.
pub open spec fn field_value(field: Seq<char>) -> u8 {
    parse_u8_or_zero(field.filter(|c: char| is_decimal_digit(c)))
}

/// The bytes in decimal, separated by commas.
pub open spec fn join_decimal(values: Seq<u8>) -> Seq<char>
    decreases values.len(),
{
    if values.len() == 0 {
        Seq::empty()
    } else if values.len() == 1 {
        decimal(values[0])
    } else {
        join_decimal(values.drop_last()) + seq![','] + decimal(values.last())
    }
}

/// The text form of a glyph's bytes.
pub open spec fn data_text(values: Seq<u8>) -> Seq<char> {
    seq!['['] + join_decimal(values) + seq![']']
}

/// The text cut at its commas, as `str::split(',')` cuts it: one field
/// more than there are commas.
pub open spec fn split_commas(s: Seq<char>) -> Seq<Seq<char>>
    decreases s.len(),
{
    if s.len() == 0 {
        seq![Seq::empty()]
    } else {
        let init = split_commas(s.drop_last());
        if s.last() == ',' {
            init.push(Seq::empty())
        } else {
            init.update(init.len() - 1, init.last().push(s.last()))
        }
    }
}

/// The bytes that a text stands for: one per field.
pub open spec fn parse_values(text: Seq<char>) -> Seq<u8> {
    split_commas(text).map_values(|field: Seq<char>| field_value(field))
}

/// Calls `StripCharacters::strip_non_digits` of `simple_string_patterns`
/// (defined in its dependency `alphanumeric`). Its source keeps, in order,
/// the characters of the text for which `char::is_digit(10)` holds, that is
/// `'0'` to `'9'`, and collects them into a new `String`.
#[verifier::external_body]
fn strip_non_digits(text: &str) -> (digits: String)
    ensures
        digits@ == text@.filter(|c: char| is_decimal_digit(c)),
{
    text.strip_non_digits()
}

/// The characters of a text.
pub fn chars_of(text: &str) -> (chars: Vec<char>)
    ensures
        chars@ == text@,
{
    let mut it = text.chars();
    let mut chars: Vec<char> = Vec::new();
    loop
        invariant
            chars@ + IteratorSpec::remaining(&it) == text@,
            IteratorSpec::decrease(&it) is Some,
        ensures
            chars@ == text@,
        decreases IteratorSpec::decrease(&it)->0,
    {
        match it.next() {
            Some(c) => {
                chars.push(c);
            },
            None => {
                assert(chars@ =~= chars@ + IteratorSpec::remaining(&it));
                break;
            },
        }
    }
    chars
}

/// The text of the decimal digit `d`.
fn digit_str(d: u8) -> (text: &'static str)
    requires
        d < 10,
    ensures
        text@ == seq![digit_char(d as int)],
{
    let text = if d == 0 {
        proof {
            reveal_strlit("0");
        }
        "0"
    } else if d == 1 {
        proof {
            reveal_strlit("1");
        }
        "1"
    } else if d == 2 {
        proof {
            reveal_strlit("2");
        }
        "2"
    } else if d == 3 {
        proof {
            reveal_strlit("3");
        }
        "3"
    } else if d == 4 {
        proof {
            reveal_strlit("4");
        }
        "4"
    } else if d == 5 {
        proof {
            reveal_strlit("5");
        }
        "5"
    } else if d == 6 {
        proof {
            reveal_strlit("6");
        }
        "6"
    } else if d == 7 {
        proof {
            reveal_strlit("7");
        }
        "7"
    } else if d == 8 {
        proof {
            reveal_strlit("8");
        }
        "8"
    } else {
        proof {
            reveal_strlit("9");
        }
        "9"
    };
    assert(text@ =~= seq![digit_char(d as int)]);
    text
}

/// Appends `value` in decimal to `text`.
pub fn push_decimal(text: &mut String, value: u8)
    ensures
        final(text)@ == old(text)@ + decimal(value),
{
    if value >= 100 {
        text.append(digit_str(value / 100));
    }
    if value >= 10 {
        text.append(digit_str((value / 10) % 10));
    }
    text.append(digit_str(value % 10));
    assert(text@ =~= old(text)@ + decimal(value));
}

/// Reads a string of decimal digits as `u8::from_str_radix(.., 10)` does,
/// with 0 where that fails: for an empty string, or a value above 255.
pub fn parse_digits(digits: &Vec<char>) -> (value: u8)
    requires
        forall|i: int| 0 <= i < digits@.len() ==> is_decimal_digit(#[trigger] digits@[i]),
    ensures
        value == parse_u8_or_zero(digits@),
{
    let mut acc: u32 = 0;
    let mut too_large = false;
    let mut i: usize = 0;
    while i < digits.len()
        invariant
            i <= digits@.len(),
            forall|k: int| 0 <= k < digits@.len() ==> is_decimal_digit(#[trigger] digits@[k]),
            too_large <==> digits_value(digits@.take(i as int)) > 255,
            !too_large ==> acc == digits_value(digits@.take(i as int)),
            digits_value(digits@.take(i as int)) >= 0,
        decreases digits@.len() - i,
    {
        let c = digits[i];
        let d = (c as u32) - ('0' as u32);
        assert(digits@.take(i + 1).drop_last() =~= digits@.take(i as int));
        if !too_large {
            acc = acc * 10 + d;
            if acc > 255 {
                too_large = true;
            }
        }
        i += 1;
    }
    assert(digits@.take(digits@.len() as int) =~= digits@);
    if digits.len() == 0 || too_large {
        0
    } else {
        acc as u8
    }
}

/// The byte that one field of a glyph's text stands for.
pub fn parse_field(field: &str) -> (value: u8)
    ensures
        value == field_value(field@),
{
    let digits = strip_non_digits(field);
    let chars = chars_of(digits.as_str());
    proof {
        let pred = |c: char| is_decimal_digit(c);
        assert forall|i: int| 0 <= i < chars@.len() implies is_decimal_digit(#[trigger] chars@[i]) by {
            field@.lemma_filter_pred(pred, i);
        }
    }
    parse_digits(&chars)
}

/// Cutting a text never leaves it without a field.
pub proof fn lemma_split_commas_nonempty(s: Seq<char>)
    ensures
        split_commas(s).len() >= 1,
    decreases s.len(),
{
    if s.len() > 0 {
        lemma_split_commas_nonempty(s.drop_last());
    }
}

/// Characters without a comma extend the last field.
proof fn lemma_split_append_no_comma(x: Seq<char>, d: Seq<char>)
    requires
        forall|i: int| 0 <= i < d.len() ==> d[i] != ',',
    ensures
        split_commas(x + d) == split_commas(x).update(
            split_commas(x).len() - 1,
            split_commas(x).last() + d,
        ),
    decreases d.len(),
{
    lemma_split_commas_nonempty(x);
    if d.len() == 0 {
        assert(x + d =~= x);
        assert(split_commas(x).last() + d =~= split_commas(x).last());
        assert(split_commas(x).update(split_commas(x).len() - 1, split_commas(x).last() + d)
            =~= split_commas(x));
    } else {
        let e = d.drop_last();
        lemma_split_append_no_comma(x, e);
        assert((x + d).drop_last() =~= x + e);
        assert((x + d).last() == d.last());
        assert((split_commas(x).last() + e).push(d.last()) =~= split_commas(x).last() + d);
        assert(split_commas(x + d) =~= split_commas(x).update(
            split_commas(x).len() - 1,
            split_commas(x).last() + d,
        ));
    }
}

/// A comma opens a new, empty field.
proof fn lemma_split_append_comma(x: Seq<char>)
    ensures
        split_commas(x.push(',')) == split_commas(x).push(Seq::empty()),
{
    assert(x.push(',').drop_last() =~= x);
}

/// A digit is no comma.
proof fn lemma_decimal_digits(v: u8)
    ensures
        1 <= decimal(v).len() <= 3,
        forall|i: int| 0 <= i < decimal(v).len() ==> is_decimal_digit(#[trigger] decimal(v)[i]),
        forall|i: int| 0 <= i < decimal(v).len() ==> #[trigger] decimal(v)[i] != ',',
{
}

/// The fields of `[` and the bytes in decimal: the first carries the
/// bracket, each holds one byte.
proof fn lemma_split_joined(values: Seq<u8>)
    requires
        values.len() >= 1,
    ensures
        split_commas(seq!['['] + join_decimal(values)).len() == values.len(),
        split_commas(seq!['['] + join_decimal(values))[0] == seq!['['] + decimal(values[0]),
        forall|i: int|
            1 <= i < values.len() ==> #[trigger] split_commas(seq!['['] + join_decimal(values))[i]
                == decimal(values[i]),
    decreases values.len(),
{
    if values.len() == 1 {
        lemma_decimal_digits(values[0]);
        let d = seq!['['] + decimal(values[0]);
        lemma_split_append_no_comma(Seq::empty(), d);
        assert(Seq::<char>::empty() + d =~= d);
        assert(Seq::<char>::empty() + d =~= seq!['['] + join_decimal(values));
    } else {
        let init = values.drop_last();
        lemma_split_joined(init);
        lemma_decimal_digits(values.last());
        let x = seq!['['] + join_decimal(init);
        lemma_split_append_comma(x);
        lemma_split_append_no_comma(x.push(','), decimal(values.last()));
        assert(seq!['['] + join_decimal(values) =~= x.push(',') + decimal(values.last()));
        assert(Seq::<char>::empty() + decimal(values.last()) =~= decimal(values.last()));
        let s = split_commas(seq!['['] + join_decimal(values));
        assert forall|i: int| 1 <= i < values.len() implies #[trigger] s[i] == decimal(values[i]) by {
            if i < values.len() - 1 {
                assert(init[i] == values[i]);
            }
        }
    }
}

/// Keeping the digits of a string of digits keeps all of it.
proof fn lemma_filter_keeps_digits(s: Seq<char>)
    requires
        forall|i: int| 0 <= i < s.len() ==> is_decimal_digit(#[trigger] s[i]),
    ensures
        s.filter(|c: char| is_decimal_digit(c)) == s,
    decreases s.len(),
{
    reveal_with_fuel(Seq::filter, 1);
    if s.len() > 0 {
        lemma_filter_keeps_digits(s.drop_last());
        assert(s.drop_last().push(s.last()) =~= s);
    }
}

/// Brackets carry no digits.
proof fn lemma_filter_drops_bracket(c: char)
    requires
        !is_decimal_digit(c),
    ensures
        seq![c].filter(|d: char| is_decimal_digit(d)) == Seq::<char>::empty(),
{
    reveal_with_fuel(Seq::filter, 2);
    assert(seq![c].drop_last() =~= Seq::<char>::empty());
}

/// A byte in decimal reads back as that byte.
proof fn lemma_decimal_reads_back(v: u8)
    ensures
        parse_u8_or_zero(decimal(v)) == v,
{
    let s = decimal(v);
    let n = v as int;
    assert forall|d: int| 0 <= d < 10 implies digit_value(#[trigger] digit_char(d)) == d by {
    }
    if n < 10 {
        assert(s =~= seq![digit_char(n)]);
        assert(s.drop_last() =~= Seq::<char>::empty());
        assert(digits_value(s.drop_last()) == 0);
        assert(digits_value(s) == digit_value(digit_char(n)));
    } else if n < 100 {
        let t = s.drop_last();
        assert(s =~= seq![digit_char(n / 10), digit_char(n % 10)]);
        assert(t =~= seq![digit_char(n / 10)]);
        assert(t.drop_last() =~= Seq::<char>::empty());
        assert(digits_value(t.drop_last()) == 0);
        assert(digits_value(t) == n / 10);
        assert(digits_value(s) == (n / 10) * 10 + n % 10);
    } else {
        let t = s.drop_last();
        let u = t.drop_last();
        assert(s =~= seq![digit_char(n / 100), digit_char((n / 10) % 10), digit_char(n % 10)]);
        assert(t =~= seq![digit_char(n / 100), digit_char((n / 10) % 10)]);
        assert(u =~= seq![digit_char(n / 100)]);
        assert(u.drop_last() =~= Seq::<char>::empty());
        assert(digits_value(u.drop_last()) == 0);
        assert(digits_value(u) == n / 100);
        assert(digits_value(t) == (n / 100) * 10 + (n / 10) % 10);
        assert(digits_value(s) == ((n / 100) * 10 + (n / 10) % 10) * 10 + n % 10);
        assert(((n / 100) * 10 + (n / 10) % 10) * 10 + n % 10 == n) by (nonlinear_arith)
            requires
                100 <= n < 256,
        ;
    }
}

/// The field that holds a byte in decimal, with brackets or without,
/// stands for that byte.
proof fn lemma_field_of_decimal(v: u8, before: bool, after: bool)
    ensures
        field_value(
            (if before { seq!['['] } else { Seq::empty() }) + decimal(v) + (if after {
                seq![']']
            } else {
                Seq::empty()
            }),
        ) == v,
{
    let pred = |c: char| is_decimal_digit(c);
    let b: Seq<char> = if before { seq!['['] } else { Seq::empty() };
    let a: Seq<char> = if after { seq![']'] } else { Seq::empty() };
    lemma_decimal_digits(v);
    lemma_filter_keeps_digits(decimal(v));
    lemma_filter_keeps_digits(Seq::empty());
    lemma_filter_drops_bracket('[');
    lemma_filter_drops_bracket(']');
    Seq::filter_distributes_over_add(b, decimal(v), pred);
    Seq::filter_distributes_over_add(b + decimal(v), a, pred);
    assert((b + decimal(v) + a).filter(pred) =~= decimal(v));
    lemma_decimal_reads_back(v);
}

/// The text form of a glyph reads back as the glyph's bytes: what the
/// editor copies to the clipboard it pastes back unchanged. (An empty byte
/// sequence is the one exception: `[]` reads as a single 0.)
pub proof fn lemma_data_text_reads_back(values: Seq<u8>)
    requires
        values.len() >= 1,
    ensures
        parse_values(data_text(values)) == values,
{
    let x = seq!['['] + join_decimal(values);
    lemma_split_joined(values);
    lemma_split_commas_nonempty(x);
    lemma_split_append_no_comma(x, seq![']']);
    let s = split_commas(data_text(values));
    assert(data_text(values) == x + seq![']']);
    let n = values.len() as int;
    assert forall|i: int| 0 <= i < n implies #[trigger] field_value(s[i]) == values[i] by {
        if i == 0 && n == 1 {
            lemma_field_of_decimal(values[0], true, true);
            assert(s[0] =~= seq!['['] + decimal(values[0]) + seq![']']);
        } else if i == 0 {
            lemma_field_of_decimal(values[0], true, false);
            assert(s[0] =~= seq!['['] + decimal(values[0]) + Seq::empty());
        } else if i == n - 1 {
            lemma_field_of_decimal(values[i], false, true);
            assert(s[i] =~= Seq::empty() + decimal(values[i]) + seq![']']);
        } else {
            lemma_field_of_decimal(values[i], false, false);
            assert(s[i] =~= Seq::empty() + decimal(values[i]) + Seq::empty());
        }
    }
    assert(parse_values(data_text(values)) =~= values);
}

/// The bytes that the fields of a text stand for, as `str::split(',')`
/// cuts it.
pub fn parse_text_values(text: &str) -> (values: Vec<u8>)
    ensures
        values@ == parse_values(text@),
{
    let chars = chars_of(text);
    let mut values: Vec<u8> = Vec::new();
    let mut start: usize = 0;
    let mut i: usize = 0;
    while i < chars.len()
        invariant
            chars@ == text@,
            start <= i <= chars@.len(),
            split_commas(text@.take(i as int)).len() == values@.len() + 1,
            split_commas(text@.take(i as int)).last() == text@.subrange(start as int, i as int),
            forall|j: int|
                0 <= j < values@.len() ==> values@[j] == field_value(
                    #[trigger] split_commas(text@.take(i as int))[j],
                ),
        decreases chars@.len() - i,
    {
        proof {
            lemma_split_commas_nonempty(text@.take(i as int));
            assert(text@.take(i + 1).drop_last() =~= text@.take(i as int));
        }
        if chars[i] == ',' {
            let field = text.substring_char(start, i);
            values.push(parse_field(field));
            start = i + 1;
            assert(text@.subrange(start as int, i + 1) =~= Seq::<char>::empty());
        } else {
            assert(text@.subrange(start as int, i + 1) =~= text@.subrange(start as int, i as int).push(text@[i as int]));
        }
        i += 1;
    }
    let field = text.substring_char(start, chars.len());
    values.push(parse_field(field));
    proof {
        assert(text@.take(chars@.len() as int) =~= text@);
        assert(values@ =~= parse_values(text@));
    }
    values
}

/// The text form of a glyph's bytes.
pub fn format_values(values: &[u8]) -> (text: String)
    ensures
        text@ == data_text(values@),
{
    let mut text = String::new();
    proof {
        reveal_strlit("[");
        reveal_strlit(",");
        reveal_strlit("]");
    }
    text.append("[");
    let mut k: usize = 0;
    while k < values.len()
        invariant
            k <= values@.len(),
            text@ == seq!['['] + join_decimal(values@.take(k as int)),
        decreases values@.len() - k,
    {
        let ghost before = text@;
        proof {
            reveal_strlit(",");
        }
        if k > 0 {
            text.append(",");
        }
        push_decimal(&mut text, values[k]);
        proof {
            let next = values@.take(k + 1);
            assert(next.drop_last() =~= values@.take(k as int));
            assert(next.last() == values@[k as int]);
            if k == 0 {
                assert(join_decimal(next) == decimal(values@[0]));
                assert(text@ =~= seq!['['] + join_decimal(next));
            } else {
                assert(join_decimal(next) == join_decimal(values@.take(k as int)) + seq![','] + decimal(values@[k as int]));
                assert(text@ =~= seq!['['] + join_decimal(next));
            }
        }
        k += 1;
    }
    text.append("]");
    assert(values@.take(values@.len() as int) =~= values@);
    assert(text@ =~= data_text(values@));
    text
}

} // verus!
