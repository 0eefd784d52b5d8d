//! The telemetry line: `<remaining>,<value to two decimal places>,<uptime_ms>`.

use vstd::prelude::*;
use vstd::string::StringExecFns;
use crate::decimal::{
    all_digits, decimal, digit_char, digits_value, is_digit, is_numeral, lemma_decimal_reads_back,
    numeral_value, push_decimal, push_digit, read_u64,
};
use crate::text::{first_index, free_of, lemma_first_index_is, lemma_split_free,
    lemma_split_joined, split};

verus! {

/// One sample, as it is reported.
#[derive(Clone, Copy, Debug, PartialEq, Eq)]
pub struct TelemetryRecord {
    /// How many samples of the running measurement are still to come after
    /// this one: it counts down to zero.
    pub remaining: u64,
    /// The converted quantity in hundredths of its unit, which is the
    /// resolution that a telemetry line carries.
    pub value_hundredths: i64,
    /// Milliseconds since the node started, taken when the sample was.
    pub uptime_ms: u128,
}

/// The absolute value of `h`.
pub open spec fn magnitude(h: int) -> nat {
    if h < 0 {
        (-h) as nat
    } else {
        h as nat
    }
}

/// How a quantity of `h` hundredths is written: a minus sign where it is
/// negative, the whole part, a point, and two digits.
pub open spec fn fixed2(h: int) -> Seq<char> {
    let m = magnitude(h);
    let sign = if h < 0 {
        seq!['-']
    } else {
        Seq::<char>::empty()
    };
    sign + decimal(m / 100) + seq!['.', digit_char((m / 10) % 10), digit_char(m % 10)]
}

/// The number of hundredths that a text of the form of [`fixed2`] denotes.
pub open spec fn read_fixed2(s: Seq<char>) -> int {
    let negative = s.len() > 0 && s[0] == '-';
    let body = if negative {
        s.drop_first()
    } else {
        s
    };
    let point = first_index(body, '.');
    let m = 100 * digits_value(body.take(point)) + digits_value(body.skip(point + 1));
    if negative {
        -m
    } else {
        m as int
    }
}

/// The line that reports `r`.
pub open spec fn record_line(r: TelemetryRecord) -> Seq<char> {
    decimal(r.remaining as nat) + seq![','] + fixed2(r.value_hundredths as int) + seq![',']
        + decimal(r.uptime_ms as nat)
}

/// A run of digits holds no character that is not a digit.
pub proof fn lemma_digits_free_of(s: Seq<char>, sep: char)
    requires
        all_digits(s),
        !is_digit(sep),
    ensures
        free_of(s, sep),
{
}

/// What is written for `h` hundredths holds no comma.
pub proof fn lemma_fixed2_free_of_comma(h: int)
    ensures
        free_of(fixed2(h), ','),
{
    let m = magnitude(h);
    lemma_decimal_reads_back(m / 100);
    let whole = decimal(m / 100);
    let s = fixed2(h);
    let offset: int = if h < 0 {
        1
    } else {
        0
    };
    assert forall|k: int| 0 <= k < s.len() implies s[k] != ',' by {
        if offset <= k < offset + whole.len() {
            assert(s[k] == whole[k - offset]);
        }
    }
}

/// What is written for `h` hundredths denotes `h`.
pub proof fn lemma_fixed2_reads_back(h: int)
    ensures
        read_fixed2(fixed2(h)) == h,
{
    let m = magnitude(h);
    lemma_decimal_reads_back(m / 100);
    let whole = decimal(m / 100);
    let tail = seq!['.', digit_char((m / 10) % 10), digit_char(m % 10)];
    let s = fixed2(h);
    let body = whole + tail;
    if h < 0 {
        assert(s.drop_first() =~= body);
    } else {
        assert(s =~= body);
    }
    let point = whole.len() as int;
    assert forall|k: int| 0 <= k < point implies body[k] != '.' by {
        assert(body[k] == whole[k]);
    }
    assert(body[point] == '.');
    lemma_first_index_is(body, '.', point);
    assert(body.take(point) =~= whole);
    let frac = body.skip(point + 1);
    assert(frac =~= seq![digit_char((m / 10) % 10), digit_char(m % 10)]);
    assert(frac.drop_last() =~= seq![digit_char((m / 10) % 10)]);
    assert(frac.drop_last().drop_last() =~= Seq::<char>::empty());
    assert(digits_value(frac.drop_last().drop_last()) == 0);
    assert(digits_value(frac.drop_last()) == (m / 10) % 10);
    assert(digits_value(frac) == 10 * ((m / 10) % 10) + m % 10);
}

/// Cutting a telemetry line at its commas gives back the three fields, and
/// each reads as the number it was written from: the countdown and the uptime
/// exactly, and the quantity to the hundredth.
pub proof fn lemma_line_round_trip(r: TelemetryRecord)
    ensures
        split(record_line(r), ',') == seq![
            decimal(r.remaining as nat),
            fixed2(r.value_hundredths as int),
            decimal(r.uptime_ms as nat),
        ],
        read_u64(split(record_line(r), ',')[0]) == Some(r.remaining),
        read_fixed2(split(record_line(r), ',')[1]) == r.value_hundredths,
        is_numeral(split(record_line(r), ',')[2]),
        numeral_value(split(record_line(r), ',')[2]) == r.uptime_ms,
{
    let first = decimal(r.remaining as nat);
    let second = fixed2(r.value_hundredths as int);
    let third = decimal(r.uptime_ms as nat);
    lemma_decimal_reads_back(r.remaining as nat);
    lemma_decimal_reads_back(r.uptime_ms as nat);
    lemma_fixed2_reads_back(r.value_hundredths as int);
    lemma_fixed2_free_of_comma(r.value_hundredths as int);
    lemma_digits_free_of(first, ',');
    lemma_digits_free_of(third, ',');
    let rest = second + seq![','] + third;
    assert(record_line(r) =~= first + seq![','] + rest);
    lemma_split_joined(first, ',', rest);
    lemma_split_joined(second, ',', third);
    lemma_split_free(third, ',');
    assert(split(record_line(r), ',') =~= seq![first, second, third]);
}

/// Appends a quantity of `hundredths`, written with two decimal places, to `out`.
pub fn push_fixed2(out: &mut String, hundredths: i64)
    ensures
        final(out)@ == old(out)@ + fixed2(hundredths as int),
{
    let m: u128 = if hundredths < 0 {
        proof {
            reveal_strlit("-");
        }
        out.append("-");
        (-(hundredths as i128)) as u128
    } else {
        hundredths as u128
    };
    assert(m == magnitude(hundredths as int));
    push_decimal(out, m / 100);
    proof {
        reveal_strlit(".");
    }
    out.append(".");
    push_digit(out, ((m / 10) % 10) as u8);
    push_digit(out, (m % 10) as u8);
    assert(out@ =~= old(out)@ + fixed2(hundredths as int));
}

/// Writes the line that reports `record`.
pub fn format_record(record: &TelemetryRecord) -> (line: String)
    ensures
        line@ == record_line(*record),
{
    let mut line: String = String::new();
    proof {
        reveal_strlit(",");
    }
    push_decimal(&mut line, record.remaining as u128);
    line.append(",");
    push_fixed2(&mut line, record.value_hundredths);
    line.append(",");
    push_decimal(&mut line, record.uptime_ms);
    assert(line@ =~= record_line(*record));
    line
}

} // verus!
