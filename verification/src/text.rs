//! One line of text for each frame.

use vstd::arithmetic::power::{lemma_pow0, lemma_pow1, lemma_pow_adds, lemma_pow_positive, pow};
use vstd::prelude::*;

use crate::fixed::Fixed;
use crate::scalar::Scalar;

verus! {

/// `String::clear` removes everything from a string.
pub assume_specification[ String::clear ](s: &mut String)
    ensures
        final(s)@ == Seq::<char>::empty(),
;

/// A scalar that can be written out.
///
/// Its text is given by its length and its characters one by one.
pub trait Printed: Scalar {
    spec fn spec_text_len(self, precision: usize) -> usize;

    spec fn spec_text_char(self, precision: usize, i: usize) -> char;

    /// Appends `self` in decimal, with `precision` places. No string is as long as
    /// `isize::MAX`.
    fn append_text(self, precision: usize, line: &mut String)
        requires
            precision < isize::MAX,
        ensures
            final(line)@ == old(line)@ + Seq::new(
                self.spec_text_len(precision) as nat,
                |i: int| self.spec_text_char(precision, i as usize),
            ),
    ;
}

/// The text of a value.
pub open spec fn text_of<S: Printed>(x: S, precision: usize) -> Seq<char> {
    Seq::new(
        x.spec_text_len(precision) as nat,
        |i: int| x.spec_text_char(precision, i as usize),
    )
}

/// The texts of several values.
pub open spec fn texts_of<S: Printed>(bars: Seq<S>, precision: usize) -> Seq<Seq<char>> {
    Seq::new(bars.len(), |i: int| text_of(bars[i], precision))
}

/// The fields with commas between them.
pub open spec fn joined(fields: Seq<Seq<char>>) -> Seq<char>
    decreases fields.len(),
{
    if fields.len() == 0 {
        Seq::empty()
    } else if fields.len() == 1 {
        fields[0]
    } else {
        joined(fields.drop_last()).push(',') + fields.last()
    }
}

/// The line for a frame: its fields with commas between them, and a newline.
pub open spec fn frame_text(fields: Seq<Seq<char>>) -> Seq<char> {
    joined(fields).push('\n')
}

/// Replaces what `line_buf` holds by the line for `bars`. Every value is written
/// straight into the buffer, which keeps its memory from one frame to the next.
pub fn write_frame_text<S: Printed>(line_buf: &mut String, bars: &[S], precision: usize)
    requires
        precision < isize::MAX,
    ensures
        final(line_buf)@ == frame_text(texts_of(bars@, precision)),
{
    let ghost fields = texts_of(bars@, precision);
    line_buf.clear();
    let mut i: usize = 0;
    proof {
        reveal_strlit(",");
        reveal_strlit("\n");
    }
    assert(fields.take(0) =~= Seq::<Seq<char>>::empty());
    while i < bars.len()
        invariant
            precision < isize::MAX,
            i <= bars.len(),
            fields == texts_of(bars@, precision),
            line_buf@ =~= joined(fields.take(i as int)),
            ","@ =~= seq![','],
        decreases bars.len() - i,
    {
        let ghost upto = fields.take(i + 1);
        assert(upto.drop_last() =~= fields.take(i as int));
        if i > 0 {
            line_buf.append(",");
        }
        bars[i].append_text(precision, line_buf);
        assert(upto.last() == text_of(bars@[i as int], precision));
        assert(line_buf@ =~= joined(upto));
        i += 1;
    }
    assert(fields.take(i as int) =~= fields);
    line_buf.append("\n");
    assert("\n"@ =~= seq!['\n']);
}

/// The digit for a number below ten.
pub open spec fn digit_char(d: int) -> char {
    if d == 0 {
        '0'
    } else if d == 1 {
        '1'
    } else if d == 2 {
        '2'
    } else if d == 3 {
        '3'
    } else if d == 4 {
        '4'
    } else if d == 5 {
        '5'
    } else if d == 6 {
        '6'
    } else if d == 7 {
        '7'
    } else if d == 8 {
        '8'
    } else {
        '9'
    }
}

/// A whole number in decimal.
pub open spec fn decimal(n: nat) -> Seq<char>
    decreases n,
{
    if n < 10 {
        seq![digit_char(n as int)]
    } else {
        decimal(n / 10).push(digit_char(n as int % 10))
    }
}

/// A number of units of one part in 2^32, rounded to the nearest whole number; halves go
/// to the even one.
pub open spec fn nearest(units: int) -> int {
    let q = units / 0x1_0000_0000;
    let r = units % 0x1_0000_0000;
    if 2 * r > 0x1_0000_0000 || (2 * r == 0x1_0000_0000 && q % 2 == 1) {
        q + 1
    } else {
        q
    }
}

/// The last `places` digits of a number, with zeros in front where it has fewer.
pub open spec fn last_digits(n: int, places: nat) -> Seq<char> {
    Seq::new(places, |k: int| digit_char((n / pow(10, (places - 1 - k) as nat)) % 10))
}

/// A fixed-point number in decimal, rounded to the nearest number with `precision`
/// places.
pub open spec fn fixed_text(x: Fixed, precision: usize) -> Seq<char> {
    let shift = pow(10, precision as nat);
    let n = nearest(vstd::math::abs(x.raw as int) * shift);
    let sign: Seq<char> = if x.raw < 0 {
        seq!['-']
    } else {
        Seq::empty()
    };
    let places: Seq<char> = if precision == 0 {
        Seq::empty()
    } else {
        seq!['.'] + last_digits(n, precision as nat)
    };
    sign + decimal((n / shift) as nat) + places
}

/// Appends a digit.
fn append_digit(line: &mut String, d: u64)
    requires
        d < 10,
    ensures
        final(line)@ == old(line)@.push(digit_char(d as int)),
{
    let digit: &str = match d {
        0 => "0",
        1 => "1",
        2 => "2",
        3 => "3",
        4 => "4",
        5 => "5",
        6 => "6",
        7 => "7",
        8 => "8",
        _ => "9",
    };
    proof {
        reveal_strlit("0");
        reveal_strlit("1");
        reveal_strlit("2");
        reveal_strlit("3");
        reveal_strlit("4");
        reveal_strlit("5");
        reveal_strlit("6");
        reveal_strlit("7");
        reveal_strlit("8");
        reveal_strlit("9");
    }
    assert(digit@ =~= seq![digit_char(d as int)]);
    line.append(digit);
}

/// Appends a whole number in decimal.
fn append_decimal(line: &mut String, n: u64)
    ensures
        final(line)@ == old(line)@ + decimal(n as nat),
    decreases n,
{
    if n >= 10 {
        append_decimal(line, n / 10);
    }
    append_digit(line, n % 10);
    assert(line@ =~= old(line)@ + decimal(n as nat));
}

/// Ten to a power, from the power before.
proof fn lemma_next_power(places: nat)
    requires
        places > 0,
    ensures
        pow(10, places) == 10 * pow(10, (places - 1) as nat),
        pow(10, places) % 2 == 0,
        pow(10, (places - 1) as nat) > 0,
{
    reveal(pow);
    lemma_pow_positive(10, (places - 1) as nat);
}

/// An even whole number in front of what is rounded stays in front.
proof fn lemma_nearest_shifts(a: int, units: int)
    requires
        a % 2 == 0,
    ensures
        nearest(a * 0x1_0000_0000 + units) == a + nearest(units),
{
}

/// What is rounded to `places` places, with its whole part taken off and the next digit
/// moved in front.
pub open spec fn next_units(units: int) -> int {
    10 * (units % 0x1_0000_0000)
}

/// Rounding with the whole part taken off.
proof fn lemma_nearest_step(units: int, places: nat)
    requires
        0 <= units,
        places > 0,
    ensures
        nearest(units * pow(10, places)) == (units / 0x1_0000_0000) * pow(10, places) + nearest(
            next_units(units) * pow(10, (places - 1) as nat),
        ),
{
    let one = 0x1_0000_0000int;
    let shift = pow(10, places);
    let less = pow(10, (places - 1) as nat);
    let q = units / one;
    let r = units % one;
    lemma_next_power(places);
    let a = q * shift;
    assert(units * shift == a * one + (10 * r) * less) by (nonlinear_arith)
        requires
            units == q * one + r,
            a == q * shift,
            shift == 10 * less,
    ;
    assert(a == 2 * (q * (5 * less))) by (nonlinear_arith)
        requires
            a == q * shift,
            shift == 10 * less,
    ;
    lemma_nearest_shifts(a, (10 * r) * less);
}

/// The whole part of what rounding to `places` places gives.
pub open spec fn rounded_whole(units: int, places: nat) -> int {
    nearest(units * pow(10, places)) / pow(10, places)
}

/// Rounding carries into the whole part where every place is a nine and the rest goes
/// up, and nowhere else.
proof fn lemma_carry(units: int, places: nat)
    requires
        0 <= units,
    ensures
        0 <= nearest(units * pow(10, places)),
        ({
            let q = units / 0x1_0000_0000;
            let next = next_units(units);
            let d = next / 0x1_0000_0000;
            &&& q <= rounded_whole(units, places) <= q + 1
            &&& places == 0 ==> rounded_whole(units, places) == nearest(units)
            &&& places > 0 ==> 0 <= d <= 9
            &&& places > 0 ==> (rounded_whole(units, places) == q + 1 <==> d == 9 && rounded_whole(
                next,
                (places - 1) as nat,
            ) == 10)
        }),
    decreases places,
{
    let one = 0x1_0000_0000int;
    let q = units / one;
    if places == 0 {
        lemma_pow0(10);
        assert(units * 1 == units) by (nonlinear_arith);
        assert(nearest(units) / 1 == nearest(units));
    } else {
        let fewer = (places - 1) as nat;
        let next = next_units(units);
        let d = next / one;
        lemma_carry(next, fewer);
        lemma_nearest_step(units, places);
        lemma_next_power(places);
        let shift = pow(10, places);
        let less = pow(10, fewer);
        let n = nearest(next * less);
        let lead = n / less;
        assert(n / shift == lead / 10) by (nonlinear_arith)
            requires
                shift == 10 * less,
                lead == n / less,
                less > 0,
                0 <= n,
        {
            vstd::arithmetic::div_mod::lemma_div_denominator(n, less, 10);
            assert(less * 10 == shift);
        }
        assert((q * shift + n) / shift == q + n / shift) by (nonlinear_arith)
            requires
                shift > 0,
        ;
        assert(0 <= q * shift) by (nonlinear_arith)
            requires
                0 <= q,
                0 < shift,
        ;
    }
}

/// The digits of a rounded number: the next one, and those that are left.
proof fn lemma_last_digits_step(units: int, places: nat)
    requires
        0 <= units,
        places > 0,
    ensures
        last_digits(nearest(units * pow(10, places)), places) == seq![
            digit_char(rounded_whole(next_units(units), (places - 1) as nat) % 10),
        ] + last_digits(
            nearest(next_units(units) * pow(10, (places - 1) as nat)),
            (places - 1) as nat,
        ),
{
    let fewer = (places - 1) as nat;
    let shift = pow(10, places);
    let less = pow(10, fewer);
    let a = units / 0x1_0000_0000;
    let n = nearest(units * shift);
    let m = nearest(next_units(units) * less);
    lemma_nearest_step(units, places);
    lemma_next_power(places);
    let left = last_digits(n, places);
    let right = seq![digit_char((m / less) % 10)] + last_digits(m, fewer);
    assert forall|k: int| 0 <= k < places implies left[k] == right[k] by {
        let low = (places - 1 - k) as nat;
        let unit = pow(10, low);
        let above = pow(10, k as nat);
        lemma_pow_positive(10, low);
        lemma_pow_adds(10, low, k as nat);
        assert(less == unit * above);
        lemma_digit_above(a, m, shift, less, unit, above);
    }
    assert(left =~= right);
}

/// What is added in whole tens of a place does not change the digit there.
proof fn lemma_digit_above(a: int, m: int, shift: int, less: int, unit: int, above: int)
    requires
        unit > 0,
        shift == 10 * less,
        less == unit * above,
    ensures
        ((a * shift + m) / unit) % 10 == (m / unit) % 10,
{
    let tens = a * above;
    assert(a * shift + m == unit * (10 * tens) + m) by (nonlinear_arith)
        requires
            shift == 10 * less,
            less == unit * above,
            tens == a * above,
    ;
    assert((unit * (10 * tens) + m) / unit == 10 * tens + m / unit) by (nonlinear_arith)
        requires
            unit > 0,
    ;
}

/// A number of up to `10^digits` has up to `digits` digits.
proof fn lemma_decimal_len(n: nat, digits: nat, limit: nat)
    requires
        digits > 0,
        limit == pow(10, digits),
        n < limit,
    ensures
        1 <= decimal(n).len() <= digits,
    decreases digits,
{
    if n >= 10 {
        lemma_pow1(10);
        if digits == 1 {
            assert(false);
        }
        let fewer = (digits - 1) as nat;
        reveal(pow);
        let tenth = pow(10, fewer);
        lemma_pow_positive(10, fewer);
        assert(limit == 10 * tenth);
        lemma_decimal_len(n / 10, fewer, tenth as nat);
    }
}

/// The whole part of a fixed-point number has ten digits at most.
proof fn lemma_whole_part_len(n: nat)
    requires
        n <= 0x8000_0001,
    ensures
        1 <= decimal(n).len() <= 10,
{
    assert(pow(10, 10) == 10_000_000_000) by {
        reveal_with_fuel(pow, 11);
    }
    lemma_decimal_len(n, 10, 10_000_000_000);
}

/// The whole part of what rounding to `places` places gives.
fn rounded_whole_of(units: u64, places: usize) -> (r: u64)
    requires
        units <= 0x8000_0000_0000_0000,
    ensures
        r == rounded_whole(units as int, places as nat),
{
    let whole: u64 = units / 0x1_0000_0000;
    let mut rest: u64 = units;
    let mut left: usize = places;
    while left > 0
        invariant
            whole == units as int / 0x1_0000_0000,
            left <= places,
            rest <= 0x8000_0000_0000_0000,
            rounded_whole(units as int, places as nat) == whole + 1 <==> rounded_whole(
                rest as int,
                left as nat,
            ) == rest as int / 0x1_0000_0000 + 1,
        decreases left,
    {
        proof {
            lemma_carry(units as int, places as nat);
            lemma_carry(rest as int, left as nat);
        }
        rest = 10 * (rest % 0x1_0000_0000);
        left -= 1;
        if rest / 0x1_0000_0000 != 9 {
            return whole;
        }
    }
    proof {
        lemma_carry(units as int, places as nat);
        lemma_carry(rest as int, 0);
    }
    let part: u64 = rest % 0x1_0000_0000;
    if part > 0x8000_0000 || (part == 0x8000_0000 && (rest / 0x1_0000_0000) % 2 == 1) {
        whole + 1
    } else {
        whole
    }
}

impl Printed for Fixed {
    open spec fn spec_text_len(self, precision: usize) -> usize {
        fixed_text(self, precision).len() as usize
    }

    open spec fn spec_text_char(self, precision: usize, i: usize) -> char {
        fixed_text(self, precision)[i as int]
    }

    fn append_text(self, precision: usize, line: &mut String) {
        let x: i128 = self.raw as i128;
        let size: u64 = if x < 0 {
            (-x) as u64
        } else {
            x as u64
        };
        let ghost before = line@;
        let ghost n = nearest(size * pow(10, precision as nat));
        proof {
            reveal_strlit("-");
            reveal_strlit(".");
            assert("-"@ =~= seq!['-']);
            assert("."@ =~= seq!['.']);
            lemma_carry(size as int, precision as nat);
            lemma_whole_part_len(rounded_whole(size as int, precision as nat) as nat);
        }
        if self.raw < 0 {
            line.append("-");
        }
        append_decimal(line, rounded_whole_of(size, precision));
        if precision > 0 {
            line.append(".");
            let ghost integral = line@;
            let mut units: u64 = size;
            let mut places: usize = precision;
            while places > 0
                invariant
                    units <= 0x8000_0000_0000_0000,
                    places <= precision,
                    line@ + last_digits(nearest(units * pow(10, places as nat)), places as nat)
                        =~= integral + last_digits(n, precision as nat),
                decreases places,
            {
                proof {
                    lemma_last_digits_step(units as int, places as nat);
                    lemma_carry(units as int, places as nat);
                    lemma_carry(next_units(units as int), (places - 1) as nat);
                }
                let ghost shown = line@;
                units = 10 * (units % 0x1_0000_0000);
                places -= 1;
                append_digit(line, rounded_whole_of(units, places) % 10);
                assert(line@ + last_digits(nearest(units * pow(10, places as nat)), places as nat)
                    =~= shown + last_digits(
                    nearest(units * pow(10, places as nat)),
                    places as nat,
                ).insert(0, digit_char(rounded_whole(units as int, places as nat) % 10)));
            }
            assert(line@ =~= integral + last_digits(n, precision as nat));
        }
        let ghost text = fixed_text(self, precision);
        assert(line@ =~= before + text);
        assert(text.len() <= precision + 12);
        assert(Seq::new(
            self.spec_text_len(precision) as nat,
            |i: int| self.spec_text_char(precision, i as usize),
        ) =~= text);
    }
}

/// The text of a fixed-point number is the one that [`fixed_text`] gives.
pub proof fn law_fixed_text(x: Fixed, precision: usize)
    requires
        precision < isize::MAX,
    ensures
        text_of(x, precision) == fixed_text(x, precision),
{
    let size = vstd::math::abs(x.raw as int) as int;
    lemma_carry(size, precision as nat);
    lemma_whole_part_len(rounded_whole(size, precision as nat) as nat);
    let text = fixed_text(x, precision);
    assert(text.len() <= precision + 12);
    assert(text_of(x, precision) =~= text);
}

/// The number that a text shows is off by half a unit of its last place at most.
pub proof fn law_text_is_nearest(x: Fixed, precision: usize)
    ensures
        ({
            let exact = vstd::math::abs(x.raw as int) * pow(10, precision as nat);
            -0x1_0000_0000 <= 2 * (nearest(exact) * 0x1_0000_0000 - exact) <= 0x1_0000_0000
        }),
{
}

/// A digit is no separator.
proof fn lemma_decimal_is_plain(n: nat)
    ensures
        !decimal(n).contains(','),
        !decimal(n).contains('\n'),
    decreases n,
{
    if n >= 10 {
        lemma_decimal_is_plain(n / 10);
        let text = decimal(n);
        let rest = decimal(n / 10);
        assert(text == rest.push(digit_char(n as int % 10)));
        assert forall|i: int| 0 <= i < text.len() implies text[i] != ',' && text[i] != '\n' by {
            if i < rest.len() {
                assert(rest.contains(rest[i]));
            }
        }
    }
}

/// No fixed-point number is written with a comma or a newline.
pub proof fn law_fixed_text_is_plain(x: Fixed, precision: usize)
    ensures
        !fixed_text(x, precision).contains(','),
        !fixed_text(x, precision).contains('\n'),
{
    let size = vstd::math::abs(x.raw as int) as int;
    let whole = decimal(rounded_whole(size, precision as nat) as nat);
    lemma_decimal_is_plain(rounded_whole(size, precision as nat) as nat);
    let text = fixed_text(x, precision);
    let signs: int = if x.raw < 0 {
        1
    } else {
        0
    };
    assert forall|i: int| 0 <= i < text.len() implies text[i] != ',' && text[i] != '\n' by {
        if signs <= i < signs + whole.len() {
            assert(text[i] == whole[i - signs]);
            assert(whole.contains(whole[i - signs]));
        }
    }
}

/// What a reader gets who splits a text at its commas.
pub open spec fn split(text: Seq<char>) -> Seq<Seq<char>>
    decreases text.len(),
{
    if text.len() == 0 {
        seq![Seq::empty()]
    } else {
        let before = split(text.drop_last());
        if text.last() == ',' {
            before.push(Seq::empty())
        } else {
            before.drop_last().push(before.last().push(text.last()))
        }
    }
}

/// What follows a comma, and holds none, is split off whole.
proof fn lemma_split_field(before: Seq<char>, field: Seq<char>)
    requires
        !field.contains(','),
    ensures
        split(before.push(',') + field) == split(before).push(field),
    decreases field.len(),
{
    let text = before.push(',') + field;
    if field.len() == 0 {
        assert(text =~= before.push(','));
        assert(text.drop_last() =~= before);
        assert(field =~= Seq::<char>::empty());
    } else {
        let shorter = field.drop_last();
        assert(!shorter.contains(',')) by {
            if shorter.contains(',') {
                let k = choose|k: int| 0 <= k < shorter.len() && shorter[k] == ',';
                assert(field[k] == ',');
            }
        }
        lemma_split_field(before, shorter);
        assert(text.drop_last() =~= before.push(',') + shorter);
        assert(text.last() == field.last());
        assert(field.last() != ',') by {
            assert(field[field.len() - 1] == field.last());
        }
        let split_before = split(before).push(shorter);
        assert(split_before.drop_last() =~= split(before));
        assert(shorter.push(field.last()) =~= field);
    }
}

/// A text without commas is a single field.
proof fn lemma_split_single(field: Seq<char>)
    requires
        !field.contains(','),
    ensures
        split(field) == seq![field],
    decreases field.len(),
{
    if field.len() == 0 {
        assert(field =~= Seq::<char>::empty());
    } else {
        let shorter = field.drop_last();
        assert(!shorter.contains(',')) by {
            if shorter.contains(',') {
                let k = choose|k: int| 0 <= k < shorter.len() && shorter[k] == ',';
                assert(field[k] == ',');
            }
        }
        lemma_split_single(shorter);
        assert(field[field.len() - 1] == field.last());
        assert(split(shorter).drop_last() =~= Seq::<Seq<char>>::empty());
        assert(shorter.push(field.last()) =~= field);
        assert(split(field) =~= seq![field]);
    }
}

/// A reader who splits the line of a frame at its commas gets the fields back, one
/// for each bar.
pub proof fn law_line_splits_back(fields: Seq<Seq<char>>)
    requires
        fields.len() > 0,
        forall|i: int| 0 <= i < fields.len() ==> !(#[trigger] fields[i]).contains(','),
    ensures
        frame_text(fields).last() == '\n',
        split(frame_text(fields).drop_last()) == fields,
    decreases fields.len(),
{
    assert(frame_text(fields).drop_last() =~= joined(fields));
    if fields.len() == 1 {
        lemma_split_single(fields[0]);
        assert(seq![fields[0]] =~= fields);
    } else {
        let before = fields.drop_last();
        assert forall|i: int| 0 <= i < before.len() implies !(#[trigger] before[i]).contains(
            ',',
        ) by {
            assert(before[i] == fields[i]);
        }
        law_line_splits_back(before);
        assert(frame_text(before).drop_last() =~= joined(before));
        lemma_split_field(joined(before), fields.last());
        assert(before.push(fields.last()) =~= fields);
    }
}

/// The newline that ends a line is the only one in it.
pub proof fn law_line_has_one_newline(fields: Seq<Seq<char>>)
    requires
        forall|i: int| 0 <= i < fields.len() ==> !(#[trigger] fields[i]).contains('\n'),
    ensures
        !joined(fields).contains('\n'),
    decreases fields.len(),
{
    if fields.len() == 1 {
    } else if fields.len() > 1 {
        let before = fields.drop_last();
        assert forall|i: int| 0 <= i < before.len() implies !(#[trigger] before[i]).contains(
            '\n',
        ) by {
            assert(before[i] == fields[i]);
        }
        law_line_has_one_newline(before);
        let text = joined(fields);
        if text.contains('\n') {
            let k = choose|k: int| 0 <= k < text.len() && text[k] == '\n';
            let head = joined(before);
            if k < head.len() {
                assert(head[k] == '\n');
            } else if k > head.len() {
                assert(fields.last()[k - head.len() - 1] == '\n');
                assert(fields[fields.len() - 1] == fields.last());
            }
        }
    }
}

/// A reader who splits the line for fixed-point bars at its commas gets the text of
/// each bar back, and the line holds no newline but the last.
pub proof fn law_fixed_line_splits_back(bars: Seq<Fixed>, precision: usize)
    requires
        precision < isize::MAX,
        bars.len() > 0,
    ensures
        split(frame_text(texts_of(bars, precision)).drop_last()) == texts_of(bars, precision),
        !joined(texts_of(bars, precision)).contains('\n'),
{
    let fields = texts_of(bars, precision);
    assert forall|i: int| 0 <= i < fields.len() implies !(#[trigger] fields[i]).contains(',')
        && !fields[i].contains('\n') by {
        law_fixed_text(bars[i], precision);
        law_fixed_text_is_plain(bars[i], precision);
    }
    law_line_splits_back(fields);
    law_line_has_one_newline(fields);
}

/// The number that a digit stands for.
pub open spec fn digit_value(c: char) -> int {
    if c == '1' {
        1
    } else if c == '2' {
        2
    } else if c == '3' {
        3
    } else if c == '4' {
        4
    } else if c == '5' {
        5
    } else if c == '6' {
        6
    } else if c == '7' {
        7
    } else if c == '8' {
        8
    } else if c == '9' {
        9
    } else {
        0
    }
}

/// The number that a reader of digits gets.
pub open spec fn read(digits: Seq<char>) -> int
    decreases digits.len(),
{
    if digits.len() == 0 {
        0
    } else {
        10 * read(digits.drop_last()) + digit_value(digits.last())
    }
}

/// A whole number in decimal reads as that number.
proof fn lemma_decimal_reads(n: nat)
    ensures
        read(decimal(n)) == n,
    decreases n,
{
    let text = decimal(n);
    if n < 10 {
        assert(text.drop_last() =~= Seq::<char>::empty());
        assert(text.last() == digit_char(n as int));
        assert(read(text.drop_last()) == 0);
    } else {
        lemma_decimal_reads(n / 10);
        assert(text.drop_last() =~= decimal(n / 10));
        assert(text.last() == digit_char(n as int % 10));
    }
}

/// The last digits of a number are those of its tenth, and the last one.
proof fn lemma_last_digit(n: int, places: nat)
    requires
        0 <= n,
        places > 0,
    ensures
        last_digits(n, places) == last_digits(n / 10, (places - 1) as nat).push(
            digit_char(n % 10),
        ),
{
    let fewer = (places - 1) as nat;
    let left = last_digits(n, places);
    let right = last_digits(n / 10, fewer).push(digit_char(n % 10));
    assert forall|k: int| 0 <= k < places implies left[k] == right[k] by {
        let low = (places - 1 - k) as nat;
        if low > 0 {
            lemma_next_power(low);
            let less = pow(10, (low - 1) as nat);
            vstd::arithmetic::div_mod::lemma_div_denominator(n, 10, less);
            assert(n / pow(10, low) == (n / 10) / less);
            assert((fewer - 1 - k) as nat == (low - 1) as nat);
        } else {
            lemma_pow0(10);
            assert(n / 1 == n);
        }
    }
    assert(left =~= right);
}

/// Digits followed by the last digits of a number read as what comes before, moved up,
/// and that part of the number.
proof fn lemma_last_digits_read(before: Seq<char>, n: int, places: nat)
    requires
        0 <= n,
    ensures
        read(before + last_digits(n, places)) == read(before) * pow(10, places) + n % pow(
            10,
            places,
        ),
    decreases places,
{
    if places == 0 {
        lemma_pow0(10);
        assert(before + last_digits(n, places) =~= before);
        assert(n % 1 == 0);
        assert(read(before) * 1 == read(before)) by (nonlinear_arith);
    } else {
        let fewer = (places - 1) as nat;
        lemma_last_digit(n, places);
        lemma_last_digits_read(before, n / 10, fewer);
        lemma_next_power(places);
        let text = before + last_digits(n, places);
        assert(text.drop_last() =~= before + last_digits(n / 10, fewer));
        assert(text.last() == digit_char(n % 10));
        let shift = pow(10, places);
        let less = pow(10, fewer);
        let r = read(before);
        vstd::arithmetic::div_mod::lemma_breakdown(n, 10, less);
        assert(10 * less == shift);
        assert(n % shift == 10 * ((n / 10) % less) + n % 10);
        assert(10 * (r * less) == r * shift) by (nonlinear_arith)
            requires
                shift == 10 * less,
        ;
    }
}

/// What a reader makes of the text of a number: after the sign of a negative number, the
/// digits before and after the point read as the number in units of its last place, but
/// for half a unit, and where it lies half way between two, as the even one. There are
/// `precision` digits after the point, and no point where there are none.
pub proof fn law_text_reads_back(x: Fixed, precision: usize)
    ensures
        ({
            let text = fixed_text(x, precision);
            let places = precision as int;
            let start: int = if x.raw < 0 {
                1
            } else {
                0
            };
            let end = if precision == 0 {
                text.len() as int
            } else {
                text.len() - places - 1
            };
            let digits = text.subrange(start, end) + text.subrange(
                text.len() - places,
                text.len() as int,
            );
            let exact = vstd::math::abs(x.raw as int) * pow(10, precision as nat);
            let off = 2 * (read(digits) * 0x1_0000_0000 - exact);
            &&& start < end
            &&& x.raw < 0 ==> text[0] == '-'
            &&& precision > 0 ==> text[end] == '.'
            &&& -0x1_0000_0000 <= off <= 0x1_0000_0000
            &&& off == 0x1_0000_0000 || off == -0x1_0000_0000 ==> read(digits) % 2 == 0
        }),
{
    let size = vstd::math::abs(x.raw as int) as int;
    let shift = pow(10, precision as nat);
    let n = nearest(size * shift);
    let whole = decimal((n / shift) as nat);
    let places = last_digits(n, precision as nat);
    lemma_pow_positive(10, precision as nat);
    lemma_carry(size, precision as nat);
    lemma_whole_part_len(rounded_whole(size, precision as nat) as nat);
    let text = fixed_text(x, precision);
    let start: int = if x.raw < 0 {
        1
    } else {
        0
    };
    let end = start + whole.len();
    assert(text.subrange(start, end) =~= whole);
    assert(text.subrange(text.len() - precision, text.len() as int) =~= places);
    lemma_decimal_reads((n / shift) as nat);
    lemma_last_digits_read(whole, n, precision as nat);
    vstd::arithmetic::div_mod::lemma_fundamental_div_mod(n, shift);
    assert(n == (n / shift) * shift + n % shift) by (nonlinear_arith)
        requires
            n == shift * (n / shift) + n % shift,
    ;
    law_text_is_nearest(x, precision);
}

} // verus!
