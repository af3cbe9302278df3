//! The public value model: typed scalar and container values, date-times,
//! parse results and errors, and child-key descriptors.

use vstd::prelude::*;

use crate::lex::{
    basic_ok, check_basic_content, check_float, check_integer, check_literal_content,
    check_ml_basic_content, check_ml_literal_content, float_end, integer_end, literal_content_ok,
    ml_basic_ok, ml_literal_content_ok,
};
use crate::text::{
    all_digits, chars_to_string, dec_val, lemma_dec_val_nat_str, lemma_dec_val_upper,
    lemma_dec_val_zero_pad, lemma_nat_str_digits, lemma_nat_str_leading,
    lemma_nat_str_len_bound, nat_str, parse_u64,
    pow10, str_to_chars, u64_to_digits, u64_to_digits_pad, zero_pad,
};

verus! {

/// The four quoting styles a TOML string value can carry.
#[derive(Debug, PartialEq, Eq, Structural, Copy, Clone)]
pub enum StrType {
    /// A `"..."` string: escapes allowed, no literal newline.
    Basic,
    /// A `"""..."""` string: escapes and literal newlines allowed.
    MLBasic,
    /// A `'...'` string: no escapes, no literal newline.
    Literal,
    /// A `'''...'''` string: no escapes, literal newlines allowed.
    MLLiteral,
}

/// The sign of a timezone offset.
#[derive(Debug, PartialEq, Eq, Structural, Copy, Clone)]
pub enum PosNeg {
    /// A positive offset, written `+`.
    Pos,
    /// A negative offset, written `-`.
    Neg,
}

/// A signed hours-and-minutes timezone offset from UTC.
#[derive(Debug, Clone)]
pub struct TimeOffsetAmount {
    /// Whether the offset is positive or negative.
    pub pos_neg: PosNeg,
    /// Offset hours: two decimal digits, 00 through 23.
    pub hour: String,
    /// Offset minutes: two decimal digits, 00 through 59.
    pub minute: String,
}

/// A timezone: either Zulu (UTC) or an explicit offset.
#[derive(Debug, Clone)]
pub enum TimeOffset {
    /// The Zulu timezone, written `Z`.
    Zulu,
    /// An explicit offset from UTC.
    Time(TimeOffsetAmount),
}

/// A calendar date, kept in its exact written form.
#[derive(Debug, Clone)]
pub struct Date {
    /// Four decimal digits, 0001 through 9999.
    pub year: String,
    /// Two decimal digits, 01 through 12.
    pub month: String,
    /// Two decimal digits, 01 up to the month's day count.
    pub day: String,
}

/// A time of day with optional fractional seconds and timezone offset.
#[derive(Debug, Clone)]
pub struct Time {
    /// Two decimal digits, 00 through 23.
    pub hour: String,
    /// Two decimal digits, 00 through 59.
    pub minute: String,
    /// Two decimal digits, 00 through 59.
    pub second: String,
    /// Optional fractional seconds: one or more decimal digits.
    pub fraction: Option<String>,
    /// Optional timezone offset.
    pub offset: Option<TimeOffset>,
}

/// A date with an optional time part.
#[derive(Debug, Clone)]
pub struct DateTime {
    pub date: Date,
    pub time: Option<Time>,
}

/// A TOML value: a typed scalar, an array, or an inline table.
///
/// Numeric values keep their exact written form, underscores and sign
/// included, so that re-rendering reproduces the source text.
#[derive(Debug)]
pub enum Value {
    /// An integer, as written.
    Integer(String),
    /// A float, as written.
    Float(String),
    /// A boolean.
    Boolean(bool),
    /// A date with optional time.
    DateTime(DateTime),
    /// A string: the content without quotes, and its quoting style.
    String(String, StrType),
    /// An ordered sequence of values.
    Array(Vec<Value>),
    /// An ordered sequence of key-value pairs with unique keys.
    InlineTable(Vec<(String, Value)>),
}

/// The child keys of a container key in a parsed document.
#[derive(Debug)]
pub enum Children {
    /// The container is positionally indexed (an array or an array of
    /// tables): its children are `base[0]` through `base[n-1]`.
    Count(usize),
    /// The container is name-indexed (a table or an inline table): its
    /// children are the listed subkeys, in document order.
    Keys(Vec<String>),
}

/// A recoverable error collected while parsing; the document stays usable.
#[derive(Debug)]
pub enum ParseError {
    /// An array whose elements have differing types. Carries the array's
    /// full key, the line it starts on, and the column (always 0: column
    /// reporting is not implemented).
    MixedArray(String, usize, usize),
    /// A key seen twice in the same scope. Carries the full key, the line
    /// and column of the second occurrence, and the value the key keeps
    /// pointing to (the first occurrence's).
    DuplicateKey(String, usize, usize, Value),
    /// A table header that redeclares an existing table or collides with a
    /// value. Carries the table's full key, line, column, and the keys and
    /// values already recorded under it.
    InvalidTable(String, usize, usize, Vec<(String, Value)>),
    /// A date-time that is lexically well-formed but out of range. Carries
    /// the full key, line, column, and the written date-time text.
    InvalidDateTime(String, usize, usize, String),
    /// Reserved for future use: integer overflow.
    IntegerOverflow(String, usize, usize, String),
    /// Reserved for future use: integer underflow.
    IntegerUnderflow(String, usize, usize, String),
    /// Reserved for future use: invalid integer form.
    InvalidInteger(String, usize, usize, String),
    /// Reserved for future use: positive infinity.
    Infinity(String, usize, usize, String),
    /// Reserved for future use: negative infinity.
    NegativeInfinity(String, usize, usize, String),
    /// Reserved for future use: float precision loss.
    LossOfPrecision(String, usize, usize, String),
    /// Reserved for future use: invalid float form.
    InvalidFloat(String, usize, usize, String),
    /// Reserved for future use: invalid boolean form.
    InvalidBoolean(String, usize, usize, String),
    /// Reserved for future use: invalid string form.
    InvalidString(String, usize, usize, String, StrType),
    /// Reserved for future use: any other error.
    GenericError(String, usize, usize, Option<String>, String),
}

/// The column a parse error reports; column reporting is not implemented,
/// so every collected error carries 0 here.
pub open spec fn error_col(e: ParseError) -> usize {
    match e {
        ParseError::MixedArray(_, _, c) => c,
        ParseError::DuplicateKey(_, _, c, _) => c,
        ParseError::InvalidTable(_, _, c, _) => c,
        ParseError::InvalidDateTime(_, _, c, _) => c,
        ParseError::IntegerOverflow(_, _, c, _) => c,
        ParseError::IntegerUnderflow(_, _, c, _) => c,
        ParseError::InvalidInteger(_, _, c, _) => c,
        ParseError::Infinity(_, _, c, _) => c,
        ParseError::NegativeInfinity(_, _, c, _) => c,
        ParseError::LossOfPrecision(_, _, c, _) => c,
        ParseError::InvalidFloat(_, _, c, _) => c,
        ParseError::InvalidBoolean(_, _, c, _) => c,
        ParseError::InvalidString(_, _, c, _, _) => c,
        ParseError::GenericError(_, _, c, _, _) => c,
    }
}

/// The outcome of one parse call.
#[derive(Debug)]
pub enum ParseResult {
    /// The entire input was parsed without error.
    Full,
    /// The entire input was parsed, but recoverable errors were collected,
    /// in the order encountered.
    FullError(Vec<ParseError>),
    /// A strict prefix of the input was parsed without error. Carries the
    /// unparsed remainder, the line parsing stopped on, and the column
    /// (always 0).
    Partial(String, usize, usize),
    /// A strict prefix of the input was parsed and recoverable errors were
    /// collected. Carries the remainder, line, column, and the errors.
    PartialError(String, usize, usize, Vec<ParseError>),
    /// Nothing could be parsed. Carries the line and column (always 0).
    Failure(usize, usize),
}

/// The error returned by value-construction functions on invalid input;
/// the message names the offending input.
#[derive(Debug)]
pub struct TOMLError {
    message: String,
}

impl TOMLError {
    /// The characters of the error's message.
    pub closed spec fn spec_message(&self) -> Seq<char> {
        self.message@
    }

    /// An error with the given message.
    pub fn new(msg: String) -> (r: TOMLError)
        ensures
            r.spec_message() == msg@,
    {
        TOMLError { message: msg }
    }

    /// The error's message.
    pub fn message(&self) -> (r: &str)
        ensures
            r@ == self.spec_message(),
    {
        self.message.as_str()
    }
}

// --- deep (view-level) equality -------------------------------------------

pub open spec fn opt_string_eq(a: Option<String>, b: Option<String>) -> bool {
    match (a, b) {
        (Option::None, Option::None) => true,
        (Option::Some(x), Option::Some(y)) => x@ == y@,
        _ => false,
    }
}

pub open spec fn toa_eq(a: TimeOffsetAmount, b: TimeOffsetAmount) -> bool {
    a.pos_neg == b.pos_neg && a.hour@ == b.hour@ && a.minute@ == b.minute@
}

pub open spec fn offset_eq(a: TimeOffset, b: TimeOffset) -> bool {
    match (a, b) {
        (TimeOffset::Zulu, TimeOffset::Zulu) => true,
        (TimeOffset::Time(x), TimeOffset::Time(y)) => toa_eq(x, y),
        _ => false,
    }
}

pub open spec fn opt_offset_eq(a: Option<TimeOffset>, b: Option<TimeOffset>) -> bool {
    match (a, b) {
        (Option::None, Option::None) => true,
        (Option::Some(x), Option::Some(y)) => offset_eq(x, y),
        _ => false,
    }
}

pub open spec fn date_eq(a: Date, b: Date) -> bool {
    a.year@ == b.year@ && a.month@ == b.month@ && a.day@ == b.day@
}

pub open spec fn time_eq(a: Time, b: Time) -> bool {
    a.hour@ == b.hour@ && a.minute@ == b.minute@ && a.second@ == b.second@ && opt_string_eq(
        a.fraction,
        b.fraction,
    ) && opt_offset_eq(a.offset, b.offset)
}

pub open spec fn datetime_eq(a: DateTime, b: DateTime) -> bool {
    date_eq(a.date, b.date) && match (a.time, b.time) {
        (Option::None, Option::None) => true,
        (Option::Some(x), Option::Some(y)) => time_eq(x, y),
        _ => false,
    }
}

/// Equality of values up to the views of their strings: what the
/// hand-written `PartialEq` implementations decide.
pub open spec fn value_eq(a: Value, b: Value) -> bool
    decreases a,
{
    match (a, b) {
        (Value::Integer(x), Value::Integer(y)) => x@ == y@,
        (Value::Float(x), Value::Float(y)) => x@ == y@,
        (Value::Boolean(x), Value::Boolean(y)) => x == y,
        (Value::DateTime(x), Value::DateTime(y)) => datetime_eq(x, y),
        (Value::String(x, xt), Value::String(y, yt)) => x@ == y@ && xt == yt,
        (Value::Array(xs), Value::Array(ys)) => xs@.len() == ys@.len() && (forall|i: int|
            0 <= i < xs@.len() ==> value_eq(#[trigger] xs@[i], ys@[i])),
        (Value::InlineTable(xs), Value::InlineTable(ys)) => xs@.len() == ys@.len() && (forall|
            i: int,
        |
            0 <= i < xs@.len() ==> (#[trigger] xs@[i]).0@ == ys@[i].0@ && value_eq(
                xs@[i].1,
                ys@[i].1,
            )),
        _ => false,
    }
}

pub open spec fn children_eq(a: Children, b: Children) -> bool {
    match (a, b) {
        (Children::Count(x), Children::Count(y)) => x == y,
        (Children::Keys(xs), Children::Keys(ys)) => xs@.len() == ys@.len() && (forall|i: int|
            0 <= i < xs@.len() ==> (#[trigger] xs@[i])@ == ys@[i]@),
        _ => false,
    }
}

// --- executable equality ----------------------------------------------------

fn opt_str_exec_eq(a: &Option<String>, b: &Option<String>) -> (r: bool)
    ensures
        r == opt_string_eq(*a, *b),
{
    match (a, b) {
        (Option::None, Option::None) => true,
        (Option::Some(x), Option::Some(y)) => *x == *y,
        _ => false,
    }
}

impl PartialEq for TimeOffsetAmount {
    fn eq(&self, other: &Self) -> (r: bool) {
        let pn = match (self.pos_neg, other.pos_neg) {
            (PosNeg::Pos, PosNeg::Pos) => true,
            (PosNeg::Neg, PosNeg::Neg) => true,
            _ => false,
        };
        pn && self.hour == other.hour && self.minute == other.minute
    }
}

impl vstd::std_specs::cmp::PartialEqSpecImpl for TimeOffsetAmount {
    open spec fn obeys_eq_spec() -> bool {
        true
    }

    open spec fn eq_spec(&self, other: &Self) -> bool {
        toa_eq(*self, *other)
    }
}

impl Eq for TimeOffsetAmount {

}

impl PartialEq for TimeOffset {
    fn eq(&self, other: &Self) -> (r: bool) {
        match (self, other) {
            (TimeOffset::Zulu, TimeOffset::Zulu) => true,
            (TimeOffset::Time(x), TimeOffset::Time(y)) => x == y,
            _ => false,
        }
    }
}

impl vstd::std_specs::cmp::PartialEqSpecImpl for TimeOffset {
    open spec fn obeys_eq_spec() -> bool {
        true
    }

    open spec fn eq_spec(&self, other: &Self) -> bool {
        offset_eq(*self, *other)
    }
}

impl Eq for TimeOffset {

}

fn opt_offset_exec_eq(a: &Option<TimeOffset>, b: &Option<TimeOffset>) -> (r: bool)
    ensures
        r == opt_offset_eq(*a, *b),
{
    match (a, b) {
        (Option::None, Option::None) => true,
        (Option::Some(x), Option::Some(y)) => x == y,
        _ => false,
    }
}

impl PartialEq for Date {
    fn eq(&self, other: &Self) -> (r: bool) {
        self.year == other.year && self.month == other.month && self.day == other.day
    }
}

impl vstd::std_specs::cmp::PartialEqSpecImpl for Date {
    open spec fn obeys_eq_spec() -> bool {
        true
    }

    open spec fn eq_spec(&self, other: &Self) -> bool {
        date_eq(*self, *other)
    }
}

impl Eq for Date {

}

impl PartialEq for Time {
    fn eq(&self, other: &Self) -> (r: bool) {
        self.hour == other.hour && self.minute == other.minute && self.second == other.second
            && opt_str_exec_eq(&self.fraction, &other.fraction) && opt_offset_exec_eq(
            &self.offset,
            &other.offset,
        )
    }
}

impl vstd::std_specs::cmp::PartialEqSpecImpl for Time {
    open spec fn obeys_eq_spec() -> bool {
        true
    }

    open spec fn eq_spec(&self, other: &Self) -> bool {
        time_eq(*self, *other)
    }
}

impl Eq for Time {

}

impl PartialEq for DateTime {
    fn eq(&self, other: &Self) -> (r: bool) {
        let t = match (&self.time, &other.time) {
            (Option::None, Option::None) => true,
            (Option::Some(x), Option::Some(y)) => x == y,
            _ => false,
        };
        t && self.date == other.date
    }
}

impl vstd::std_specs::cmp::PartialEqSpecImpl for DateTime {
    open spec fn obeys_eq_spec() -> bool {
        true
    }

    open spec fn eq_spec(&self, other: &Self) -> bool {
        datetime_eq(*self, *other)
    }
}

impl Eq for DateTime {

}

impl PartialEq for Value {
    fn eq(&self, other: &Self) -> (r: bool) {
        value_exec_eq(self, other)
    }
}

impl vstd::std_specs::cmp::PartialEqSpecImpl for Value {
    open spec fn obeys_eq_spec() -> bool {
        true
    }

    open spec fn eq_spec(&self, other: &Self) -> bool {
        value_eq(*self, *other)
    }
}

impl Eq for Value {

}

fn value_exec_eq(a: &Value, b: &Value) -> (r: bool)
    ensures
        r == value_eq(*a, *b),
    decreases *a,
{
    match (a, b) {
        (Value::Integer(x), Value::Integer(y)) => *x == *y,
        (Value::Float(x), Value::Float(y)) => *x == *y,
        (Value::Boolean(x), Value::Boolean(y)) => *x == *y,
        (Value::DateTime(x), Value::DateTime(y)) => *x == *y,
        (Value::String(x, xt), Value::String(y, yt)) => {
            let t = match (xt, yt) {
                (StrType::Basic, StrType::Basic) => true,
                (StrType::MLBasic, StrType::MLBasic) => true,
                (StrType::Literal, StrType::Literal) => true,
                (StrType::MLLiteral, StrType::MLLiteral) => true,
                _ => false,
            };
            t && *x == *y
        },
        (Value::Array(xs), Value::Array(ys)) => {
            if xs.len() != ys.len() {
                return false;
            }
            let mut i: usize = 0;
            while i < xs.len()
                invariant
                    *a == Value::Array(*xs),
                    *b == Value::Array(*ys),
                    i <= xs@.len(),
                    xs@.len() == ys@.len(),
                    forall|j: int| 0 <= j < i ==> value_eq(#[trigger] xs@[j], ys@[j]),
                decreases xs@.len() - i,
            {
                proof {
                    assert(decreases_to!(*a => a->Array_0));
                    assert(decreases_to!(a->Array_0 => a->Array_0@));
                    assert(decreases_to!(a->Array_0@ => a->Array_0@[i as int]));
                    assert(decreases_to!(*a => xs@[i as int]));
                }
                if !value_exec_eq(&xs[i], &ys[i]) {
                    return false;
                }
                i += 1;
            }
            true
        },
        (Value::InlineTable(xs), Value::InlineTable(ys)) => {
            if xs.len() != ys.len() {
                return false;
            }
            let mut i: usize = 0;
            while i < xs.len()
                invariant
                    *a == Value::InlineTable(*xs),
                    *b == Value::InlineTable(*ys),
                    i <= xs@.len(),
                    xs@.len() == ys@.len(),
                    forall|j: int|
                        0 <= j < i ==> (#[trigger] xs@[j]).0@ == ys@[j].0@ && value_eq(
                            xs@[j].1,
                            ys@[j].1,
                        ),
                decreases xs@.len() - i,
            {
                proof {
                    assert(decreases_to!(*a => a->InlineTable_0));
                    assert(decreases_to!(a->InlineTable_0 => a->InlineTable_0@));
                    assert(decreases_to!(a->InlineTable_0@ => a->InlineTable_0@[i as int]));
                    assert(decreases_to!(a->InlineTable_0@[i as int] => a->InlineTable_0@[i as int].1));
                    assert(decreases_to!(*a => xs@[i as int].1));
                }
                if !(xs[i].0 == ys[i].0) {
                    return false;
                }
                if !value_exec_eq(&xs[i].1, &ys[i].1) {
                    return false;
                }
                i += 1;
            }
            true
        },
        _ => false,
    }
}

impl PartialEq for Children {
    fn eq(&self, other: &Self) -> (r: bool) {
        match (self, other) {
            (Children::Count(x), Children::Count(y)) => x == y,
            (Children::Keys(xs), Children::Keys(ys)) => {
                if xs.len() != ys.len() {
                    return false;
                }
                let mut i: usize = 0;
                while i < xs.len()
                    invariant
                        *self == Children::Keys(*xs),
                        *other == Children::Keys(*ys),
                        i <= xs@.len(),
                        xs@.len() == ys@.len(),
                        forall|j: int| 0 <= j < i ==> (#[trigger] xs@[j])@ == ys@[j]@,
                    decreases xs@.len() - i,
                {
                    if !(xs[i] == ys[i]) {
                        return false;
                    }
                    i += 1;
                }
                true
            },
            _ => false,
        }
    }
}

impl vstd::std_specs::cmp::PartialEqSpecImpl for Children {
    open spec fn obeys_eq_spec() -> bool {
        true
    }

    open spec fn eq_spec(&self, other: &Self) -> bool {
        children_eq(*self, *other)
    }
}

impl Eq for Children {

}

// --- validity ----------------------------------------------------------------

/// The leap-year rule: divisible by 4, except centuries not divisible by 400.
pub open spec fn leap_year(y: nat) -> bool {
    y % 4 == 0 && (y % 100 != 0 || y % 400 == 0)
}

/// How many days the given month has in the given year.
pub open spec fn days_in_month(y: nat, m: nat) -> nat {
    if m == 2 {
        if leap_year(y) {
            29
        } else {
            28
        }
    } else if m == 1 || m == 3 || m == 5 || m == 7 || m == 8 || m == 10 || m == 12 {
        31
    } else {
        30
    }
}

/// Whether the numeric year, month and day form a real calendar date.
pub open spec fn date_ok_nums(y: nat, m: nat, d: nat) -> bool {
    1 <= y <= 9999 && 1 <= m <= 12 && 1 <= d && d <= days_in_month(y, m)
}

/// Whether the numeric hour, minute and second are in range.
pub open spec fn time_ok_nums(h: nat, mi: nat, se: nat) -> bool {
    h <= 23 && mi <= 59 && se <= 59
}

/// A well-formed two-digit field with value at most `max`.
pub open spec fn two_digits_max(s: Seq<char>, max: nat) -> bool {
    s.len() == 2 && all_digits(s) && dec_val(s) <= max
}

pub open spec fn spec_valid_toa(a: TimeOffsetAmount) -> bool {
    two_digits_max(a.hour@, 23) && two_digits_max(a.minute@, 59)
}

pub open spec fn spec_valid_offset(o: TimeOffset) -> bool {
    match o {
        TimeOffset::Zulu => true,
        TimeOffset::Time(a) => spec_valid_toa(a),
    }
}

pub open spec fn spec_valid_date(d: Date) -> bool {
    d.year@.len() == 4 && all_digits(d.year@) && two_digits_max(d.month@, 99) && two_digits_max(
        d.day@,
        99,
    ) && date_ok_nums(dec_val(d.year@), dec_val(d.month@), dec_val(d.day@))
}

pub open spec fn spec_valid_time(t: Time) -> bool {
    two_digits_max(t.hour@, 23) && two_digits_max(t.minute@, 59) && two_digits_max(t.second@, 59)
        && (match t.fraction {
        Option::None => true,
        Option::Some(f) => f@.len() >= 1 && all_digits(f@) && dec_val(f@) <= u64::MAX,
    }) && (match t.offset {
        Option::None => true,
        Option::Some(o) => spec_valid_offset(o),
    })
}

pub open spec fn spec_valid_datetime(dt: DateTime) -> bool {
    spec_valid_date(dt.date) && match dt.time {
        Option::None => true,
        Option::Some(t) => spec_valid_time(t),
    }
}

/// Whether a value's written form re-validates under the grammar rule that
/// parses its kind. Arrays and inline tables are shallow here, as containers
/// are checked element by element when built.
pub open spec fn spec_valid_value(v: Value) -> bool {
    match v {
        Value::Integer(s) => integer_end(s@, 0) == Option::Some(s@.len() as int),
        Value::Float(s) => float_end(s@, 0) == Option::Some(s@.len() as int),
        Value::Boolean(_) => true,
        Value::DateTime(dt) => spec_valid_datetime(dt),
        Value::String(s, t) => match t {
            StrType::Basic => basic_ok(s@, 0),
            StrType::MLBasic => ml_basic_ok(s@, 0),
            StrType::Literal => literal_content_ok(s@),
            StrType::MLLiteral => ml_literal_content_ok(s@),
        },
        Value::Array(_) => true,
        Value::InlineTable(_) => true,
    }
}

/// A two-digit all-digit field at most `max`: the shared check behind the
/// date and time validators.
fn check_two_digits_max(s: &String, max: u64) -> (b: bool)
    ensures
        b == two_digits_max(s@, max as nat),
{
    if s.as_str().unicode_len() != 2 {
        return false;
    }
    match parse_u64(s) {
        Option::Some(v) => v <= max,
        Option::None => false,
    }
}

impl TimeOffsetAmount {
    /// Whether the offset fields are two digits each and in range.
    pub fn validate(&self) -> (b: bool)
        ensures
            b == spec_valid_toa(*self),
    {
        if self.hour.as_str().unicode_len() != 2 || self.minute.as_str().unicode_len() != 2 {
            return false;
        }
        self.validate_numbers()
    }

    /// The numeric part of the check: digits only, hour at most 23, minute
    /// at most 59.
    fn validate_numbers(&self) -> (b: bool)
        ensures
            b == (all_digits(self.hour@) && dec_val(self.hour@) <= 23 && all_digits(self.minute@)
                && dec_val(self.minute@) <= 59),
    {
        let h_ok = match parse_u64(&self.hour) {
            Option::Some(h) => h <= 23,
            Option::None => false,
        };
        if !h_ok {
            return false;
        }
        match parse_u64(&self.minute) {
            Option::Some(m) => m <= 59,
            Option::None => false,
        }
    }
}

impl TimeOffset {
    /// Whether the offset, if explicit, is in range.
    pub fn validate(&self) -> (b: bool)
        ensures
            b == spec_valid_offset(*self),
    {
        match self {
            TimeOffset::Zulu => true,
            TimeOffset::Time(amount) => amount.validate(),
        }
    }
}

impl Date {
    /// Whether the date has the right field widths and names a real
    /// calendar day, leap years included.
    pub fn validate(&self) -> (b: bool)
        ensures
            b == spec_valid_date(*self),
    {
        if self.year.as_str().unicode_len() != 4 || self.month.as_str().unicode_len() != 2
            || self.day.as_str().unicode_len() != 2 {
            return false;
        }
        self.validate_numbers()
    }

    /// The numeric part of the check: digits only, year 1 through 9999,
    /// month 1 through 12, day within the month's length.
    fn validate_numbers(&self) -> (b: bool)
        ensures
            b == (all_digits(self.year@) && all_digits(self.month@) && all_digits(self.day@)
                && dec_val(self.month@) <= 99 && dec_val(self.day@) <= 99 && date_ok_nums(
                dec_val(self.year@),
                dec_val(self.month@),
                dec_val(self.day@),
            )),
    {
        let y = match parse_u64(&self.year) {
            Option::Some(y) => y,
            Option::None => {
                return false;
            },
        };
        if y == 0 || y > 9999 {
            return false;
        }
        let m = match parse_u64(&self.month) {
            Option::Some(m) => m,
            Option::None => {
                return false;
            },
        };
        if m < 1 || m > 12 {
            return false;
        }
        let d = match parse_u64(&self.day) {
            Option::Some(d) => d,
            Option::None => {
                return false;
            },
        };
        if d < 1 {
            return false;
        }
        let limit: u64 = if m == 2 {
            let leap = y % 4 == 0 && (y % 100 != 0 || y % 400 == 0);
            if leap {
                29
            } else {
                28
            }
        } else if m == 1 || m == 3 || m == 5 || m == 7 || m == 8 || m == 10 || m == 12 {
            31
        } else {
            30
        };
        d <= limit
    }
}

impl Time {
    /// Whether the time has the right field widths and in-range components.
    pub fn validate(&self) -> (b: bool)
        ensures
            b == spec_valid_time(*self),
    {
        if self.hour.as_str().unicode_len() != 2 || self.minute.as_str().unicode_len() != 2
            || self.second.as_str().unicode_len() != 2 {
            return false;
        }
        self.validate_numbers()
    }

    /// The numeric part of the check: component ranges, an all-digit
    /// fraction that fits in 64 bits, and a valid offset.
    fn validate_numbers(&self) -> (b: bool)
        ensures
            b == (all_digits(self.hour@) && dec_val(self.hour@) <= 23 && all_digits(self.minute@)
                && dec_val(self.minute@) <= 59 && all_digits(self.second@) && dec_val(self.second@)
                <= 59 && (match self.fraction {
                Option::None => true,
                Option::Some(f) => f@.len() >= 1 && all_digits(f@) && dec_val(f@) <= u64::MAX,
            }) && (match self.offset {
                Option::None => true,
                Option::Some(o) => spec_valid_offset(o),
            })),
    {
        let h_ok = match parse_u64(&self.hour) {
            Option::Some(h) => h <= 23,
            Option::None => false,
        };
        if !h_ok {
            return false;
        }
        let mi_ok = match parse_u64(&self.minute) {
            Option::Some(m) => m <= 59,
            Option::None => false,
        };
        if !mi_ok {
            return false;
        }
        let se_ok = match parse_u64(&self.second) {
            Option::Some(se) => se <= 59,
            Option::None => false,
        };
        if !se_ok {
            return false;
        }
        match &self.fraction {
            Option::Some(f) => {
                if f.as_str().unicode_len() == 0 {
                    return false;
                }
                if parse_u64(f).is_none() {
                    return false;
                }
            },
            Option::None => {},
        }
        match &self.offset {
            Option::Some(off) => off.validate(),
            Option::None => true,
        }
    }
}

impl DateTime {
    /// A date-time from its parts.
    pub fn new(date: Date, time: Option<Time>) -> (r: DateTime)
        ensures
            r.date == date,
            r.time == time,
    {
        DateTime { date, time }
    }

    /// Whether the date and, if present, the time are valid.
    pub fn validate(&self) -> (b: bool)
        ensures
            b == spec_valid_datetime(*self),
    {
        if !self.date.validate() {
            return false;
        }
        match &self.time {
            Option::Some(time) => time.validate(),
            Option::None => true,
        }
    }
}

impl Value {
    /// Re-runs the grammar rule for the value's kind over its written form;
    /// true exactly when the whole text matches. Containers are shallow:
    /// their elements are validated where they are built.
    pub fn validate(&self) -> (b: bool)
        ensures
            b == spec_valid_value(*self),
    {
        match self {
            Value::Integer(s) => check_integer(s),
            Value::Float(s) => check_float(s),
            Value::Boolean(_) => true,
            Value::DateTime(dt) => dt.validate(),
            Value::String(s, t) => match t {
                StrType::Basic => check_basic_content(s),
                StrType::MLBasic => check_ml_basic_content(s),
                StrType::Literal => check_literal_content(s),
                StrType::MLLiteral => check_ml_literal_content(s),
            },
            Value::Array(_) => true,
            Value::InlineTable(_) => true,
        }
    }
}

// --- construction ------------------------------------------------------------

/// Whether an error's message ends with the offending input text, so the
/// input is always recoverable from the message.
pub open spec fn message_names_input(e: TOMLError, input: Seq<char>) -> bool {
    e.spec_message().len() >= input.len() && e.spec_message().subrange(
        e.spec_message().len() - input.len(),
        e.spec_message().len() as int,
    ) == input
}

/// The decimal form of a signed integer: a minus sign for negatives, then
/// the digits without leading zeros.
pub open spec fn int_str(i: int) -> Seq<char> {
    if i < 0 {
        seq!['-'] + nat_str((-i) as nat)
    } else {
        nat_str(i as nat)
    }
}

/// A signed integer's decimal form is one whole integer token: the
/// written form of `Value::integer` re-validates under the integer
/// grammar.
pub proof fn lemma_int_str_valid(i: int)
    ensures
        integer_end(int_str(i), 0) == Option::Some(int_str(i).len() as int),
{
    let s = int_str(i);
    if i < 0 {
        let n = (-i) as nat;
        lemma_nat_str_digits(n);
        lemma_nat_str_leading(n);
        assert(s[0] == '-');
        assert(crate::lex::sign_skip(s, 0) == 1);
        assert(s[1] == nat_str(n)[0]);
        assert(forall|j: int| 1 <= j < s.len() ==> crate::text::is_digit(#[trigger] s[j]));
        crate::lex::lemma_run_end_digits(s, 2);
    } else {
        let n = i as nat;
        lemma_nat_str_digits(n);
        assert(crate::lex::sign_skip(s, 0) == 0);
        if n == 0 {
            assert(s =~= seq![crate::text::digit_char(0)]);
            assert(s[0] == '0');
        } else {
            lemma_nat_str_leading(n);
            assert(forall|j: int| 0 <= j < s.len() ==> crate::text::is_digit(#[trigger] s[j]));
            crate::lex::lemma_run_end_digits(s, 1);
        }
    }
}

/// Whether three digit strings form a valid date, by width and value.
pub open spec fn valid_date_parts(y: Seq<char>, mo: Seq<char>, da: Seq<char>) -> bool {
    y.len() == 4 && all_digits(y) && two_digits_max(mo, 99) && two_digits_max(da, 99)
        && date_ok_nums(dec_val(y), dec_val(mo), dec_val(da))
}

/// Whether three digit strings form a valid time of day, by width and value.
pub open spec fn valid_time_parts(h: Seq<char>, mi: Seq<char>, se: Seq<char>) -> bool {
    two_digits_max(h, 23) && two_digits_max(mi, 59) && two_digits_max(se, 59)
}

/// Whether a digit string is a valid fractional-second field.
pub open spec fn valid_frac_part(f: Seq<char>) -> bool {
    f.len() >= 1 && all_digits(f) && dec_val(f) <= u64::MAX
}

/// The fields of a `Date`, by view.
pub open spec fn date_views(d: Date, y: Seq<char>, mo: Seq<char>, da: Seq<char>) -> bool {
    d.year@ == y && d.month@ == mo && d.day@ == da
}

/// A view-level description of an optional timezone offset.
pub enum OffsetSpec {
    /// No offset.
    Missing,
    /// The Zulu timezone.
    Zulu,
    /// An explicit offset, by sign and the views of its fields.
    Amount(PosNeg, Seq<char>, Seq<char>),
}

/// The description of an executable optional offset.
pub open spec fn offset_spec_of(o: Option<TimeOffset>) -> OffsetSpec {
    match o {
        Option::None => OffsetSpec::Missing,
        Option::Some(TimeOffset::Zulu) => OffsetSpec::Zulu,
        Option::Some(TimeOffset::Time(a)) => OffsetSpec::Amount(a.pos_neg, a.hour@, a.minute@),
    }
}

/// The fields of a `Time`, by view.
pub open spec fn time_views(
    t: Time,
    h: Seq<char>,
    mi: Seq<char>,
    se: Seq<char>,
    frac: Option<Seq<char>>,
    off: OffsetSpec,
) -> bool {
    t.hour@ == h && t.minute@ == mi && t.second@ == se && (match (t.fraction, frac) {
        (Option::None, Option::None) => true,
        (Option::Some(f), Option::Some(fv)) => f@ == fv,
        _ => false,
    }) && offset_spec_of(t.offset) == off
}

/// A `Value::DateTime` whose date has the given views and whose time part
/// is absent.
pub open spec fn is_date_value(v: Value, y: Seq<char>, mo: Seq<char>, da: Seq<char>) -> bool {
    match v {
        Value::DateTime(dt) => date_views(dt.date, y, mo, da) && dt.time is None,
        _ => false,
    }
}

/// A `Value::DateTime` with the given date and time views.
pub open spec fn is_datetime_value(
    v: Value,
    y: Seq<char>,
    mo: Seq<char>,
    da: Seq<char>,
    h: Seq<char>,
    mi: Seq<char>,
    se: Seq<char>,
    frac: Option<Seq<char>>,
    off: OffsetSpec,
) -> bool {
    match v {
        Value::DateTime(dt) => date_views(dt.date, y, mo, da) && (match dt.time {
            Option::Some(t) => time_views(t, h, mi, se, frac, off),
            Option::None => false,
        }),
        _ => false,
    }
}

impl Date {
    /// A date from its written fields, unvalidated.
    pub fn new_str(year: &str, month: &str, day: &str) -> (r: Date)
        ensures
            date_views(r, year@, month@, day@),
    {
        Date {
            year: String::from_str(year),
            month: String::from_str(month),
            day: String::from_str(day),
        }
    }

    /// A date from its written fields; rejected unless the fields are
    /// correctly sized digit strings naming a real calendar day.
    pub fn from_str(year: &str, month: &str, day: &str) -> (r: Result<Date, TOMLError>)
        ensures
            r is Ok <==> valid_date_parts(year@, month@, day@),
            r matches Ok(d) ==> date_views(d, year@, month@, day@) && spec_valid_date(d),
    {
        let date = Date::new_str(year, month, day);
        if date.validate() {
            Ok(date)
        } else {
            Err(TOMLError::new(String::from_str("Error validating Date.")))
        }
    }
}

impl Time {
    /// A time from its written fields, unvalidated.
    pub fn new_str(
        hour: &str,
        minute: &str,
        second: &str,
        fraction: Option<&str>,
        offset: Option<TimeOffset>,
    ) -> (r: Time)
        ensures
            time_views(
                r,
                hour@,
                minute@,
                second@,
                match fraction {
                    Option::Some(f) => Option::Some(f@),
                    Option::None => Option::None,
                },
                offset_spec_of(offset),
            ),
    {
        let frac = match fraction {
            Option::Some(f) => Option::Some(String::from_str(f)),
            Option::None => Option::None,
        };
        Time {
            hour: String::from_str(hour),
            minute: String::from_str(minute),
            second: String::from_str(second),
            fraction: frac,
            offset,
        }
    }

    /// A time from its written fields; rejected unless the fields are
    /// correctly sized digit strings in range, the fraction (if any) is a
    /// nonempty digit string, and the offset (if any) is in range.
    pub fn from_str(
        hour: &str,
        minute: &str,
        second: &str,
        fraction: Option<&str>,
        offset: Option<TimeOffset>,
    ) -> (r: Result<Time, TOMLError>)
        ensures
            r is Ok <==> valid_time_parts(hour@, minute@, second@) && (match fraction {
                Option::Some(f) => valid_frac_part(f@),
                Option::None => true,
            }) && (match offset {
                Option::Some(o) => spec_valid_offset(o),
                Option::None => true,
            }),
            r matches Ok(t) ==> time_views(
                t,
                hour@,
                minute@,
                second@,
                match fraction {
                    Option::Some(f) => Option::Some(f@),
                    Option::None => Option::None,
                },
                offset_spec_of(offset),
            ) && spec_valid_time(t),
    {
        let time = Time::new_str(hour, minute, second, fraction, offset);
        if time.validate() {
            Ok(time)
        } else {
            Err(TOMLError::new(String::from_str("Error validating Time.")))
        }
    }
}

impl TimeOffsetAmount {
    /// An offset amount from its written fields, unvalidated; the sign must
    /// be `+` or `-`.
    pub fn new_str(pos_neg: &str, hour: &str, minute: &str) -> (r: TimeOffsetAmount)
        requires
            pos_neg@ == seq!['+'] || pos_neg@ == seq!['-'],
        ensures
            r.pos_neg == (if pos_neg@ == seq!['+'] {
                PosNeg::Pos
            } else {
                PosNeg::Neg
            }),
            r.hour@ == hour@,
            r.minute@ == minute@,
    {
        let pn = if pos_neg.unicode_len() == 1 && pos_neg.get_char(0) == '+' {
            PosNeg::Pos
        } else {
            PosNeg::Neg
        };
        proof {
            if pos_neg@ == seq!['+'] {
                assert(pos_neg@[0] == '+');
            } else {
                assert(pos_neg@[0] == '-');
            }
        }
        TimeOffsetAmount {
            pos_neg: pn,
            hour: String::from_str(hour),
            minute: String::from_str(minute),
        }
    }

    /// An offset amount from its written fields; rejected unless the sign
    /// is `+` or `-` and the hour and minute are two-digit strings in range.
    pub fn from_str(pos_neg: &str, hour: &str, minute: &str) -> (r: Result<
        TimeOffsetAmount,
        TOMLError,
    >)
        ensures
            r is Ok <==> (pos_neg@ == seq!['+'] || pos_neg@ == seq!['-']) && two_digits_max(
                hour@,
                23,
            ) && two_digits_max(minute@, 59),
            r matches Ok(a) ==> a.pos_neg == (if pos_neg@ == seq!['+'] {
                PosNeg::Pos
            } else {
                PosNeg::Neg
            }) && a.hour@ == hour@ && a.minute@ == minute@ && spec_valid_toa(a),
    {
        let is_plus = pos_neg.unicode_len() == 1 && pos_neg.get_char(0) == '+';
        let is_minus = pos_neg.unicode_len() == 1 && pos_neg.get_char(0) == '-';
        if !is_plus && !is_minus {
            return Err(
                TOMLError::new(String::from_str("pos_neg value is neither a '+' or a '-'.")),
            );
        }
        proof {
            assert(pos_neg@ =~= seq![pos_neg@[0]]);
        }
        let offset = TimeOffsetAmount::new_str(pos_neg, hour, minute);
        if offset.validate() {
            Ok(offset)
        } else {
            Err(TOMLError::new(String::from_str("Error validating TimeOffsetAmount.")))
        }
    }
}

/// The decimal digits of `m`, left-padded with zeros to width `w`, as an
/// owned string.
fn pad_u64_string(m: u64, w: usize) -> (r: String)
    ensures
        r@ == zero_pad(nat_str(m as nat), w as nat),
{
    let v = u64_to_digits_pad(m, w);
    chars_to_string(&v)
}

/// Zero-padding a number to width `w` yields a well-formed digit field of
/// that exact width exactly when the number is below ten to the `w`.
proof fn lemma_pad_field(n: nat, w: nat)
    requires
        w >= 1,
    ensures
        all_digits(zero_pad(nat_str(n), w)),
        dec_val(zero_pad(nat_str(n), w)) == n,
        zero_pad(nat_str(n), w).len() == w <==> n < pow10(w),
{
    lemma_nat_str_digits(n);
    lemma_dec_val_zero_pad(nat_str(n), w);
    lemma_dec_val_nat_str(n);
    lemma_nat_str_len_bound(n, w);
    if nat_str(n).len() <= w {
        assert(zero_pad(nat_str(n), w).len() == w);
    } else {
        assert(zero_pad(nat_str(n), w).len() == nat_str(n).len());
    }
}

impl Value {
    /// An integer value from an `i64`; cannot fail, as every `i64` is a
    /// valid TOML integer.
    pub fn integer(i: i64) -> (r: Value)
        ensures
            r matches Value::Integer(s) && s@ == int_str(i as int),
            spec_valid_value(r),
    {
        proof {
            lemma_int_str_valid(i as int);
        }
        if i >= 0 {
            let v = u64_to_digits(i as u64);
            Value::Integer(chars_to_string(&v))
        } else {
            let m: u64 = if i == i64::MIN {
                9223372036854775808u64
            } else {
                (-i) as u64
            };
            let mut v = u64_to_digits(m);
            v.insert(0, '-');
            proof {
                assert(v@ =~= seq!['-'] + nat_str(m as nat));
            }
            Value::Integer(chars_to_string(&v))
        }
    }

    /// An integer value from its written form; rejected unless the whole
    /// string matches the integer grammar (optional sign, digits, with
    /// underscores only between digits and no leading zero).
    pub fn int_from_str(s: &str) -> (r: Result<Value, TOMLError>)
        ensures
            r is Ok <==> integer_end(s@, 0) == Option::Some(s@.len() as int),
            r matches Ok(v) ==> v matches Value::Integer(t) && t@ == s@,
            r matches Err(e) ==> message_names_input(e, s@),
    {
        let result = Value::Integer(String::from_str(s));
        if result.validate() {
            Ok(result)
        } else {
            let mut msg = String::from_str("Error parsing int. Argument: ");
            msg.append(s);
            proof {
                assert(msg@.subrange(msg@.len() - s@.len(), msg@.len() as int) =~= s@);
            }
            Err(TOMLError::new(msg))
        }
    }

    /// A float value from its written form; rejected unless the whole
    /// string matches the float grammar (a fractional part, an exponent,
    /// or both).
    pub fn float_from_str(s: &str) -> (r: Result<Value, TOMLError>)
        ensures
            r is Ok <==> float_end(s@, 0) == Option::Some(s@.len() as int),
            r matches Ok(v) ==> v matches Value::Float(t) && t@ == s@,
            r matches Err(e) ==> message_names_input(e, s@),
    {
        let result = Value::Float(String::from_str(s));
        if result.validate() {
            Ok(result)
        } else {
            let mut msg = String::from_str("Error parsing float. Argument: ");
            msg.append(s);
            proof {
                assert(msg@.subrange(msg@.len() - s@.len(), msg@.len() as int) =~= s@);
            }
            Err(TOMLError::new(msg))
        }
    }

    /// A boolean value; cannot fail.
    pub fn bool(b: bool) -> (r: Value)
        ensures
            r == Value::Boolean(b),
    {
        Value::Boolean(b)
    }

    /// A boolean value from its written form, compared case-insensitively
    /// against `true` and `false`.
    pub fn bool_from_str(b: &str) -> (r: Result<Value, TOMLError>)
        ensures
            r matches Ok(v) ==> (v == Value::Boolean(true) <==> lower_ascii_seq(b@) == seq![
                't',
                'r',
                'u',
                'e',
            ]) && (v == Value::Boolean(false) <==> lower_ascii_seq(b@) == seq![
                'f',
                'a',
                'l',
                's',
                'e',
            ]),
            r is Ok <==> lower_ascii_seq(b@) == seq!['t', 'r', 'u', 'e'] || lower_ascii_seq(b@)
                == seq!['f', 'a', 'l', 's', 'e'],
            r matches Err(e) ==> message_names_input(e, b@),
    {
        let chars = str_to_chars(b);
        let mut lower: Vec<char> = Vec::new();
        let n = chars.len();
        for i in 0..n
            invariant
                n == chars@.len(),
                chars@ == b@,
                lower@ =~= lower_ascii_seq(b@).subrange(0, i as int),
        {
            let c = chars[i];
            let lc = if c >= 'A' && c <= 'Z' {
                ((c as u8) + 32) as char
            } else {
                c
            };
            lower.push(lc);
            proof {
                assert(lower@ =~= lower_ascii_seq(b@).subrange(0, i + 1 as int));
            }
        }
        proof {
            assert(lower@ =~= lower_ascii_seq(b@));
        }
        let is_true = lower.len() == 4 && lower[0] == 't' && lower[1] == 'r' && lower[2] == 'u'
            && lower[3] == 'e';
        let is_false = lower.len() == 5 && lower[0] == 'f' && lower[1] == 'a' && lower[2] == 'l'
            && lower[3] == 's' && lower[4] == 'e';
        proof {
            if is_true {
                assert(lower@ =~= seq!['t', 'r', 'u', 'e']);
            }
            if is_false {
                assert(lower@ =~= seq!['f', 'a', 'l', 's', 'e']);
            }
        }
        if is_true {
            Ok(Value::Boolean(true))
        } else if is_false {
            Ok(Value::Boolean(false))
        } else {
            let mut msg = String::from_str("Error parsing bool. Argument: ");
            msg.append(b);
            proof {
                assert(msg@.subrange(msg@.len() - b@.len(), msg@.len() as int) =~= b@);
            }
            Err(TOMLError::new(msg))
        }
    }

    /// A basic string value; rejected unless the content is valid basic
    /// string content (escapes well formed, no raw control characters,
    /// quotes, or backslashes).
    pub fn basic_string(s: &str) -> (r: Result<Value, TOMLError>)
        ensures
            r is Ok <==> basic_ok(s@, 0),
            r matches Ok(v) ==> v matches Value::String(c, t) && c@ == s@ && t == StrType::Basic,
            r matches Err(e) ==> message_names_input(e, s@),
    {
        let result = Value::String(String::from_str(s), StrType::Basic);
        if result.validate() {
            Ok(result)
        } else {
            let mut msg = String::from_str("Error parsing string as basic_string. Argument: ");
            msg.append(s);
            proof {
                assert(msg@.subrange(msg@.len() - s@.len(), msg@.len() as int) =~= s@);
            }
            Err(TOMLError::new(msg))
        }
    }

    /// A multi-line basic string value; as a basic string, but raw
    /// newlines are allowed and an embedded `"""` is rejected.
    pub fn ml_basic_string(s: &str) -> (r: Result<Value, TOMLError>)
        ensures
            r is Ok <==> ml_basic_ok(s@, 0),
            r matches Ok(v) ==> v matches Value::String(c, t) && c@ == s@ && t == StrType::MLBasic,
            r matches Err(e) ==> message_names_input(e, s@),
    {
        let result = Value::String(String::from_str(s), StrType::MLBasic);
        if result.validate() {
            Ok(result)
        } else {
            let mut msg = String::from_str("Error parsing string as ml_basic_string. Argument: ");
            msg.append(s);
            proof {
                assert(msg@.subrange(msg@.len() - s@.len(), msg@.len() as int) =~= s@);
            }
            Err(TOMLError::new(msg))
        }
    }

    /// A literal string value; rejected unless every character is allowed
    /// in a single-quoted string (no escapes, newlines, or single quotes).
    pub fn literal_string(s: &str) -> (r: Result<Value, TOMLError>)
        ensures
            r is Ok <==> literal_content_ok(s@),
            r matches Ok(v) ==> v matches Value::String(c, t) && c@ == s@ && t == StrType::Literal,
            r matches Err(e) ==> message_names_input(e, s@),
    {
        let result = Value::String(String::from_str(s), StrType::Literal);
        if result.validate() {
            Ok(result)
        } else {
            let mut msg = String::from_str("Error parsing string as literal_string. Argument: ");
            msg.append(s);
            proof {
                assert(msg@.subrange(msg@.len() - s@.len(), msg@.len() as int) =~= s@);
            }
            Err(TOMLError::new(msg))
        }
    }

    /// A multi-line literal string value; as a literal string, but raw
    /// newlines are allowed and an embedded `'''` is rejected.
    pub fn ml_literal_string(s: &str) -> (r: Result<Value, TOMLError>)
        ensures
            r is Ok <==> ml_literal_content_ok(s@),
            r matches Ok(v) ==> v matches Value::String(c, t) && c@ == s@ && t
                == StrType::MLLiteral,
            r matches Err(e) ==> message_names_input(e, s@),
    {
        let result = Value::String(String::from_str(s), StrType::MLLiteral);
        if result.validate() {
            Ok(result)
        } else {
            let mut msg = String::from_str("Error parsing string as ml_literal_string. Argument: ");
            msg.append(s);
            proof {
                assert(msg@.subrange(msg@.len() - s@.len(), msg@.len() as int) =~= s@);
            }
            Err(TOMLError::new(msg))
        }
    }
}

impl Value {
    /// A date-only value from numeric parts, zero-padded to field width;
    /// rejected unless the parts name a real calendar day.
    pub fn date_from_int(year: usize, month: usize, day: usize) -> (r: Result<Value, TOMLError>)
        ensures
            r is Ok <==> date_ok_nums(year as nat, month as nat, day as nat),
            r matches Ok(v) ==> is_date_value(
                v,
                zero_pad(nat_str(year as nat), 4),
                zero_pad(nat_str(month as nat), 2),
                zero_pad(nat_str(day as nat), 2),
            ),
    {
        let y = pad_u64_string(year as u64, 4);
        let m = pad_u64_string(month as u64, 2);
        let d = pad_u64_string(day as u64, 2);
        proof {
            lemma_pad_nums_date(year as nat, month as nat, day as nat);
        }
        match Date::from_str(y.as_str(), m.as_str(), d.as_str()) {
            Ok(date) => Ok(Value::DateTime(DateTime::new(date, Option::None))),
            Err(error) => Err(error),
        }
    }

    /// A date-only value from written parts; rejected unless the parts are
    /// correctly sized digit strings naming a real calendar day.
    pub fn date_from_str(year: &str, month: &str, day: &str) -> (r: Result<Value, TOMLError>)
        ensures
            r is Ok <==> valid_date_parts(year@, month@, day@),
            r matches Ok(v) ==> is_date_value(v, year@, month@, day@),
    {
        match Date::from_str(year, month, day) {
            Ok(date) => Ok(Value::DateTime(DateTime::new(date, Option::None))),
            Err(error) => Err(error),
        }
    }

    /// A date-and-time value from numeric parts, zero-padded to field
    /// width; rejected unless date and time are in range.
    pub fn datetime_from_int(
        year: usize,
        month: usize,
        day: usize,
        hour: usize,
        minute: usize,
        second: usize,
    ) -> (r: Result<Value, TOMLError>)
        ensures
            r is Ok <==> date_ok_nums(year as nat, month as nat, day as nat) && time_ok_nums(
                hour as nat,
                minute as nat,
                second as nat,
            ),
            r matches Ok(v) ==> is_datetime_value(
                v,
                zero_pad(nat_str(year as nat), 4),
                zero_pad(nat_str(month as nat), 2),
                zero_pad(nat_str(day as nat), 2),
                zero_pad(nat_str(hour as nat), 2),
                zero_pad(nat_str(minute as nat), 2),
                zero_pad(nat_str(second as nat), 2),
                Option::None,
                OffsetSpec::Missing,
            ),
    {
        let h = pad_u64_string(hour as u64, 2);
        let mi = pad_u64_string(minute as u64, 2);
        let se = pad_u64_string(second as u64, 2);
        proof {
            lemma_pad_nums_time(hour as nat, minute as nat, second as nat);
        }
        Value::datetime_with_time(
            year,
            month,
            day,
            Time::new_str(h.as_str(), mi.as_str(), se.as_str(), Option::None, Option::None),
        )
    }

    /// A date-and-time value from written parts.
    pub fn datetime_from_str(
        year: &str,
        month: &str,
        day: &str,
        hour: &str,
        minute: &str,
        second: &str,
    ) -> (r: Result<Value, TOMLError>)
        ensures
            r is Ok <==> valid_date_parts(year@, month@, day@) && valid_time_parts(
                hour@,
                minute@,
                second@,
            ),
            r matches Ok(v) ==> is_datetime_value(
                v,
                year@,
                month@,
                day@,
                hour@,
                minute@,
                second@,
                Option::None,
                OffsetSpec::Missing,
            ),
    {
        match Date::from_str(year, month, day) {
            Ok(date) => match Time::from_str(hour, minute, second, Option::None, Option::None) {
                Ok(time) => Ok(Value::DateTime(DateTime::new(date, Option::Some(time)))),
                Err(error) => Err(error),
            },
            Err(error) => Err(error),
        }
    }

    /// A date-and-time value with fractional seconds, from numeric parts.
    /// Leading zeros on the fraction cannot be written this way.
    pub fn datetime_frac_from_int(
        year: usize,
        month: usize,
        day: usize,
        hour: usize,
        minute: usize,
        second: usize,
        frac: usize,
    ) -> (r: Result<Value, TOMLError>)
        ensures
            r is Ok <==> date_ok_nums(year as nat, month as nat, day as nat) && time_ok_nums(
                hour as nat,
                minute as nat,
                second as nat,
            ),
            r matches Ok(v) ==> is_datetime_value(
                v,
                zero_pad(nat_str(year as nat), 4),
                zero_pad(nat_str(month as nat), 2),
                zero_pad(nat_str(day as nat), 2),
                zero_pad(nat_str(hour as nat), 2),
                zero_pad(nat_str(minute as nat), 2),
                zero_pad(nat_str(second as nat), 2),
                Option::Some(nat_str(frac as nat)),
                OffsetSpec::Missing,
            ),
    {
        let h = pad_u64_string(hour as u64, 2);
        let mi = pad_u64_string(minute as u64, 2);
        let se = pad_u64_string(second as u64, 2);
        let f = chars_to_string(&u64_to_digits(frac as u64));
        proof {
            lemma_pad_nums_time(hour as nat, minute as nat, second as nat);
            lemma_frac_digits(frac as nat);
        }
        Value::datetime_with_time(
            year,
            month,
            day,
            Time::new_str(
                h.as_str(),
                mi.as_str(),
                se.as_str(),
                Option::Some(f.as_str()),
                Option::None,
            ),
        )
    }

    /// A date-and-time value with fractional seconds, from written parts.
    pub fn datetime_frac_from_str(
        year: &str,
        month: &str,
        day: &str,
        hour: &str,
        minute: &str,
        second: &str,
        frac: &str,
    ) -> (r: Result<Value, TOMLError>)
        ensures
            r is Ok <==> valid_date_parts(year@, month@, day@) && valid_time_parts(
                hour@,
                minute@,
                second@,
            ) && valid_frac_part(frac@),
            r matches Ok(v) ==> is_datetime_value(
                v,
                year@,
                month@,
                day@,
                hour@,
                minute@,
                second@,
                Option::Some(frac@),
                OffsetSpec::Missing,
            ),
    {
        match Date::from_str(year, month, day) {
            Ok(date) => match Time::from_str(
                hour,
                minute,
                second,
                Option::Some(frac),
                Option::None,
            ) {
                Ok(time) => Ok(Value::DateTime(DateTime::new(date, Option::Some(time)))),
                Err(error) => Err(error),
            },
            Err(error) => Err(error),
        }
    }

    /// A date-and-time value with a numeric timezone offset, from numeric
    /// parts; the sign is the character `+` or `-`.
    pub fn datetime_offset_from_int(
        year: usize,
        month: usize,
        day: usize,
        hour: usize,
        minute: usize,
        second: usize,
        posneg: char,
        off_hour: usize,
        off_minute: usize,
    ) -> (r: Result<Value, TOMLError>)
        ensures
            r is Ok <==> (posneg == '+' || posneg == '-') && date_ok_nums(
                year as nat,
                month as nat,
                day as nat,
            ) && time_ok_nums(hour as nat, minute as nat, second as nat) && off_hour <= 23
                && off_minute <= 59,
            r matches Ok(v) ==> is_datetime_value(
                v,
                zero_pad(nat_str(year as nat), 4),
                zero_pad(nat_str(month as nat), 2),
                zero_pad(nat_str(day as nat), 2),
                zero_pad(nat_str(hour as nat), 2),
                zero_pad(nat_str(minute as nat), 2),
                zero_pad(nat_str(second as nat), 2),
                Option::None,
                OffsetSpec::Amount(
                    if posneg == '+' {
                        PosNeg::Pos
                    } else {
                        PosNeg::Neg
                    },
                    zero_pad(nat_str(off_hour as nat), 2),
                    zero_pad(nat_str(off_minute as nat), 2),
                ),
            ),
    {
        if !(posneg == '+' || posneg == '-') {
            return Err(
                TOMLError::new(String::from_str("pos_neg value is neither a '+' or a '-'.")),
            );
        }
        let oh = pad_u64_string(off_hour as u64, 2);
        let om = pad_u64_string(off_minute as u64, 2);
        proof {
            lemma_pad_nums_time(off_hour as nat, 0, 0);
            lemma_pad_nums_time(0, off_minute as nat, off_minute as nat);
        }
        let amount = TimeOffsetAmount {
            pos_neg: if posneg == '+' {
                PosNeg::Pos
            } else {
                PosNeg::Neg
            },
            hour: oh,
            minute: om,
        };
        if !amount.validate() {
            return Err(TOMLError::new(String::from_str("Error validating TimeOffsetAmount.")));
        }
        let h = pad_u64_string(hour as u64, 2);
        let mi = pad_u64_string(minute as u64, 2);
        let se = pad_u64_string(second as u64, 2);
        proof {
            lemma_pad_nums_time(hour as nat, minute as nat, second as nat);
        }
        Value::datetime_with_time(
            year,
            month,
            day,
            Time::new_str(
                h.as_str(),
                mi.as_str(),
                se.as_str(),
                Option::None,
                Option::Some(TimeOffset::Time(amount)),
            ),
        )
    }

    /// A date-and-time value with a numeric timezone offset, from written
    /// parts.
    pub fn datetime_offset_from_str(
        year: &str,
        month: &str,
        day: &str,
        hour: &str,
        minute: &str,
        second: &str,
        posneg: &str,
        off_hour: &str,
        off_minute: &str,
    ) -> (r: Result<Value, TOMLError>)
        ensures
            r is Ok <==> (posneg@ == seq!['+'] || posneg@ == seq!['-']) && two_digits_max(
                off_hour@,
                23,
            ) && two_digits_max(off_minute@, 59) && valid_date_parts(year@, month@, day@)
                && valid_time_parts(hour@, minute@, second@),
            r matches Ok(v) ==> is_datetime_value(
                v,
                year@,
                month@,
                day@,
                hour@,
                minute@,
                second@,
                Option::None,
                OffsetSpec::Amount(
                    if posneg@ == seq!['+'] {
                        PosNeg::Pos
                    } else {
                        PosNeg::Neg
                    },
                    off_hour@,
                    off_minute@,
                ),
            ),
    {
        match Date::from_str(year, month, day) {
            Ok(date) => match TimeOffsetAmount::from_str(posneg, off_hour, off_minute) {
                Ok(offset) => match Time::from_str(
                    hour,
                    minute,
                    second,
                    Option::None,
                    Option::Some(TimeOffset::Time(offset)),
                ) {
                    Ok(time) => Ok(Value::DateTime(DateTime::new(date, Option::Some(time)))),
                    Err(error) => Err(error),
                },
                Err(error) => Err(error),
            },
            Err(error) => Err(error),
        }
    }

    /// A date-and-time value in the Zulu timezone, from numeric parts.
    pub fn datetime_zulu_from_int(
        year: usize,
        month: usize,
        day: usize,
        hour: usize,
        minute: usize,
        second: usize,
    ) -> (r: Result<Value, TOMLError>)
        ensures
            r is Ok <==> date_ok_nums(year as nat, month as nat, day as nat) && time_ok_nums(
                hour as nat,
                minute as nat,
                second as nat,
            ),
            r matches Ok(v) ==> is_datetime_value(
                v,
                zero_pad(nat_str(year as nat), 4),
                zero_pad(nat_str(month as nat), 2),
                zero_pad(nat_str(day as nat), 2),
                zero_pad(nat_str(hour as nat), 2),
                zero_pad(nat_str(minute as nat), 2),
                zero_pad(nat_str(second as nat), 2),
                Option::None,
                OffsetSpec::Zulu,
            ),
    {
        let h = pad_u64_string(hour as u64, 2);
        let mi = pad_u64_string(minute as u64, 2);
        let se = pad_u64_string(second as u64, 2);
        proof {
            lemma_pad_nums_time(hour as nat, minute as nat, second as nat);
        }
        Value::datetime_with_time(
            year,
            month,
            day,
            Time::new_str(
                h.as_str(),
                mi.as_str(),
                se.as_str(),
                Option::None,
                Option::Some(TimeOffset::Zulu),
            ),
        )
    }

    /// A date-and-time value in the Zulu timezone, from written parts.
    pub fn datetime_zulu_from_str(
        year: &str,
        month: &str,
        day: &str,
        hour: &str,
        minute: &str,
        second: &str,
    ) -> (r: Result<Value, TOMLError>)
        ensures
            r is Ok <==> valid_date_parts(year@, month@, day@) && valid_time_parts(
                hour@,
                minute@,
                second@,
            ),
            r matches Ok(v) ==> is_datetime_value(
                v,
                year@,
                month@,
                day@,
                hour@,
                minute@,
                second@,
                Option::None,
                OffsetSpec::Zulu,
            ),
    {
        match Date::from_str(year, month, day) {
            Ok(date) => match Time::from_str(
                hour,
                minute,
                second,
                Option::None,
                Option::Some(TimeOffset::Zulu),
            ) {
                Ok(time) => Ok(Value::DateTime(DateTime::new(date, Option::Some(time)))),
                Err(error) => Err(error),
            },
            Err(error) => Err(error),
        }
    }

    /// A date-and-time value with fractional seconds in the Zulu timezone,
    /// from numeric parts. Leading zeros on the fraction cannot be written
    /// this way.
    pub fn datetime_full_zulu_from_int(
        year: usize,
        month: usize,
        day: usize,
        hour: usize,
        minute: usize,
        second: usize,
        frac: u64,
    ) -> (r: Result<Value, TOMLError>)
        ensures
            r is Ok <==> date_ok_nums(year as nat, month as nat, day as nat) && time_ok_nums(
                hour as nat,
                minute as nat,
                second as nat,
            ),
            r matches Ok(v) ==> is_datetime_value(
                v,
                zero_pad(nat_str(year as nat), 4),
                zero_pad(nat_str(month as nat), 2),
                zero_pad(nat_str(day as nat), 2),
                zero_pad(nat_str(hour as nat), 2),
                zero_pad(nat_str(minute as nat), 2),
                zero_pad(nat_str(second as nat), 2),
                Option::Some(nat_str(frac as nat)),
                OffsetSpec::Zulu,
            ),
    {
        let h = pad_u64_string(hour as u64, 2);
        let mi = pad_u64_string(minute as u64, 2);
        let se = pad_u64_string(second as u64, 2);
        let f = chars_to_string(&u64_to_digits(frac));
        proof {
            lemma_pad_nums_time(hour as nat, minute as nat, second as nat);
            lemma_frac_digits(frac as nat);
        }
        Value::datetime_with_time(
            year,
            month,
            day,
            Time::new_str(
                h.as_str(),
                mi.as_str(),
                se.as_str(),
                Option::Some(f.as_str()),
                Option::Some(TimeOffset::Zulu),
            ),
        )
    }

    /// A date-and-time value with fractional seconds in the Zulu timezone,
    /// from written parts.
    pub fn datetime_full_zulu_from_str(
        year: &str,
        month: &str,
        day: &str,
        hour: &str,
        minute: &str,
        second: &str,
        frac: &str,
    ) -> (r: Result<Value, TOMLError>)
        ensures
            r is Ok <==> valid_date_parts(year@, month@, day@) && valid_time_parts(
                hour@,
                minute@,
                second@,
            ) && valid_frac_part(frac@),
            r matches Ok(v) ==> is_datetime_value(
                v,
                year@,
                month@,
                day@,
                hour@,
                minute@,
                second@,
                Option::Some(frac@),
                OffsetSpec::Zulu,
            ),
    {
        match Date::from_str(year, month, day) {
            Ok(date) => match Time::from_str(
                hour,
                minute,
                second,
                Option::Some(frac),
                Option::Some(TimeOffset::Zulu),
            ) {
                Ok(time) => Ok(Value::DateTime(DateTime::new(date, Option::Some(time)))),
                Err(error) => Err(error),
            },
            Err(error) => Err(error),
        }
    }

    /// A date-and-time value with fractional seconds and a numeric
    /// timezone offset, from numeric parts; the sign is the character `+`
    /// or `-`. Leading zeros on the fraction cannot be written this way.
    pub fn datetime_full_from_int(
        year: usize,
        month: usize,
        day: usize,
        hour: usize,
        minute: usize,
        second: usize,
        frac: u64,
        posneg: char,
        off_hour: usize,
        off_minute: usize,
    ) -> (r: Result<Value, TOMLError>)
        ensures
            r is Ok <==> (posneg == '+' || posneg == '-') && date_ok_nums(
                year as nat,
                month as nat,
                day as nat,
            ) && time_ok_nums(hour as nat, minute as nat, second as nat) && off_hour <= 23
                && off_minute <= 59,
            r matches Ok(v) ==> is_datetime_value(
                v,
                zero_pad(nat_str(year as nat), 4),
                zero_pad(nat_str(month as nat), 2),
                zero_pad(nat_str(day as nat), 2),
                zero_pad(nat_str(hour as nat), 2),
                zero_pad(nat_str(minute as nat), 2),
                zero_pad(nat_str(second as nat), 2),
                Option::Some(nat_str(frac as nat)),
                OffsetSpec::Amount(
                    if posneg == '+' {
                        PosNeg::Pos
                    } else {
                        PosNeg::Neg
                    },
                    zero_pad(nat_str(off_hour as nat), 2),
                    zero_pad(nat_str(off_minute as nat), 2),
                ),
            ),
    {
        if !(posneg == '+' || posneg == '-') {
            return Err(
                TOMLError::new(String::from_str("pos_neg value is neither a '+' or a '-'.")),
            );
        }
        let oh = pad_u64_string(off_hour as u64, 2);
        let om = pad_u64_string(off_minute as u64, 2);
        proof {
            lemma_pad_nums_time(off_hour as nat, 0, 0);
            lemma_pad_nums_time(0, off_minute as nat, off_minute as nat);
        }
        let amount = TimeOffsetAmount {
            pos_neg: if posneg == '+' {
                PosNeg::Pos
            } else {
                PosNeg::Neg
            },
            hour: oh,
            minute: om,
        };
        if !amount.validate() {
            return Err(TOMLError::new(String::from_str("Error validating TimeOffsetAmount.")));
        }
        let h = pad_u64_string(hour as u64, 2);
        let mi = pad_u64_string(minute as u64, 2);
        let se = pad_u64_string(second as u64, 2);
        let f = chars_to_string(&u64_to_digits(frac));
        proof {
            lemma_pad_nums_time(hour as nat, minute as nat, second as nat);
            lemma_frac_digits(frac as nat);
        }
        Value::datetime_with_time(
            year,
            month,
            day,
            Time::new_str(
                h.as_str(),
                mi.as_str(),
                se.as_str(),
                Option::Some(f.as_str()),
                Option::Some(TimeOffset::Time(amount)),
            ),
        )
    }

    /// A date-and-time value with fractional seconds and a numeric
    /// timezone offset, from written parts.
    pub fn datetime_full_from_str(
        year: &str,
        month: &str,
        day: &str,
        hour: &str,
        minute: &str,
        second: &str,
        frac: &str,
        posneg: &str,
        off_hour: &str,
        off_minute: &str,
    ) -> (r: Result<Value, TOMLError>)
        ensures
            r is Ok <==> (posneg@ == seq!['+'] || posneg@ == seq!['-']) && two_digits_max(
                off_hour@,
                23,
            ) && two_digits_max(off_minute@, 59) && valid_date_parts(year@, month@, day@)
                && valid_time_parts(hour@, minute@, second@) && valid_frac_part(frac@),
            r matches Ok(v) ==> is_datetime_value(
                v,
                year@,
                month@,
                day@,
                hour@,
                minute@,
                second@,
                Option::Some(frac@),
                OffsetSpec::Amount(
                    if posneg@ == seq!['+'] {
                        PosNeg::Pos
                    } else {
                        PosNeg::Neg
                    },
                    off_hour@,
                    off_minute@,
                ),
            ),
    {
        match Date::from_str(year, month, day) {
            Ok(date) => match TimeOffsetAmount::from_str(posneg, off_hour, off_minute) {
                Ok(offset) => match Time::from_str(
                    hour,
                    minute,
                    second,
                    Option::Some(frac),
                    Option::Some(TimeOffset::Time(offset)),
                ) {
                    Ok(time) => Ok(Value::DateTime(DateTime::new(date, Option::Some(time)))),
                    Err(error) => Err(error),
                },
                Err(error) => Err(error),
            },
            Err(error) => Err(error),
        }
    }

    /// The shared tail of the numeric date-time constructors: pads and
    /// validates the date parts and validates the given time.
    fn datetime_with_time(year: usize, month: usize, day: usize, time: Time) -> (r: Result<
        Value,
        TOMLError,
    >)
        ensures
            r is Ok <==> date_ok_nums(year as nat, month as nat, day as nat) && spec_valid_time(
                time,
            ),
            r matches Ok(v) ==> (v matches Value::DateTime(dt) && date_views(
                dt.date,
                zero_pad(nat_str(year as nat), 4),
                zero_pad(nat_str(month as nat), 2),
                zero_pad(nat_str(day as nat), 2),
            ) && dt.time == Option::Some(time)),
    {
        let y = pad_u64_string(year as u64, 4);
        let m = pad_u64_string(month as u64, 2);
        let d = pad_u64_string(day as u64, 2);
        proof {
            lemma_pad_nums_date(year as nat, month as nat, day as nat);
        }
        match Date::from_str(y.as_str(), m.as_str(), d.as_str()) {
            Ok(date) => {
                if time.validate() {
                    Ok(Value::DateTime(DateTime::new(date, Option::Some(time))))
                } else {
                    Err(TOMLError::new(String::from_str("Error validating Time.")))
                }
            },
            Err(error) => Err(error),
        }
    }
}

/// Padded numeric date parts are valid date parts exactly when the numbers
/// form a real date.
proof fn lemma_pad_nums_date(y: nat, m: nat, d: nat)
    ensures
        valid_date_parts(
            zero_pad(nat_str(y), 4),
            zero_pad(nat_str(m), 2),
            zero_pad(nat_str(d), 2),
        ) <==> date_ok_nums(y, m, d),
{
    lemma_pad_field(y, 4);
    lemma_pad_field(m, 2);
    lemma_pad_field(d, 2);
    assert(pow10(0) == 1);
    assert(pow10(1) == 10);
    assert(pow10(2) == 100);
    assert(pow10(3) == 1000);
    assert(pow10(4) == 10000);
    if date_ok_nums(y, m, d) {
        assert(y < 10000 && m < 100 && d < 100);
    }
    if valid_date_parts(zero_pad(nat_str(y), 4), zero_pad(nat_str(m), 2), zero_pad(nat_str(d), 2)) {
        lemma_nat_str_digits(y);
        lemma_dec_val_zero_pad(nat_str(y), 4);
        assert(zero_pad(nat_str(y), 4).len() >= nat_str(y).len());
    }
}

/// Padded numeric time parts are valid time parts exactly when the numbers
/// are in range.
proof fn lemma_pad_nums_time(h: nat, mi: nat, se: nat)
    ensures
        valid_time_parts(
            zero_pad(nat_str(h), 2),
            zero_pad(nat_str(mi), 2),
            zero_pad(nat_str(se), 2),
        ) <==> time_ok_nums(h, mi, se),
        two_digits_max(zero_pad(nat_str(h), 2), 23) <==> h <= 23,
        two_digits_max(zero_pad(nat_str(mi), 2), 59) <==> mi <= 59,
        two_digits_max(zero_pad(nat_str(se), 2), 59) <==> se <= 59,
{
    lemma_pad_field(h, 2);
    lemma_pad_field(mi, 2);
    lemma_pad_field(se, 2);
    assert(pow10(0) == 1);
    assert(pow10(1) == 10);
    assert(pow10(2) == 100);
}

/// The canonical digits of a number form a valid fraction field.
proof fn lemma_frac_digits(n: nat)
    requires
        n <= u64::MAX,
    ensures
        valid_frac_part(nat_str(n)),
{
    lemma_nat_str_digits(n);
    lemma_dec_val_nat_str(n);
}

/// A full key from a base key and a named child: the two joined with a
/// dot, or the child alone under an empty base.
pub open spec fn spec_combine_keys(base: Seq<char>, child: Seq<char>) -> Seq<char> {
    if base.len() > 0 {
        base + seq!['.'] + child
    } else {
        child
    }
}

/// A full key from a base key and a positional child: the base followed by
/// the index in brackets.
pub open spec fn spec_combine_keys_index(base: Seq<char>, i: nat) -> Seq<char> {
    base + seq!['['] + nat_str(i) + seq![']']
}

impl Children {
    /// The full key for the named child `child_key` of `base_key`.
    pub fn combine_keys(base_key: &str, child_key: &str) -> (r: String)
        ensures
            r@ == spec_combine_keys(base_key@, child_key@),
    {
        if base_key.is_empty() {
            String::from_str(child_key)
        } else {
            let mut full_key = String::from_str(base_key);
            full_key.append(".");
            full_key.append(child_key);
            proof {
                reveal_strlit(".");
                assert("."@ =~= seq!['.']);
            }
            full_key
        }
    }

    /// The full key for the positional child `child_key` of `base_key`.
    pub fn combine_keys_index(base_key: &str, child_key: usize) -> (r: String)
        ensures
            r@ == spec_combine_keys_index(base_key@, child_key as nat),
    {
        let mut full_key = String::from_str(base_key);
        full_key.append("[");
        let digits = u64_to_digits(child_key as u64);
        let ds = chars_to_string(&digits);
        full_key.append(ds.as_str());
        full_key.append("]");
        proof {
            reveal_strlit("[");
            reveal_strlit("]");
            assert("["@ =~= seq!['[']);
            assert("]"@ =~= seq![']']);
        }
        full_key
    }

    /// The full keys of all this descriptor's children under `base_key`:
    /// bracketed indices for a positional container, dotted subkeys for a
    /// named one.
    pub fn combine_child_keys(&self, base_key: String) -> (r: Vec<String>)
        ensures
            match self {
                Children::Count(n) => r@.len() == n && (forall|i: int|
                    0 <= i < r@.len() ==> (#[trigger] r@[i])@ == spec_combine_keys_index(
                        base_key@,
                        i as nat,
                    )),
                Children::Keys(ks) => r@.len() == ks@.len() && (forall|i: int|
                    0 <= i < r@.len() ==> (#[trigger] r@[i])@ == spec_combine_keys(
                        base_key@,
                        ks@[i]@,
                    )),
            },
    {
        let mut all_keys: Vec<String> = Vec::new();
        match self {
            Children::Count(c) => {
                let n = *c;
                for i in 0..n
                    invariant
                        all_keys@.len() == i,
                        forall|j: int|
                            0 <= j < i ==> (#[trigger] all_keys@[j])@ == spec_combine_keys_index(
                                base_key@,
                                j as nat,
                            ),
                {
                    all_keys.push(Children::combine_keys_index(base_key.as_str(), i));
                }
            },
            Children::Keys(ks) => {
                let n = ks.len();
                for i in 0..n
                    invariant
                        n == ks@.len(),
                        *self == Children::Keys(*ks),
                        all_keys@.len() == i,
                        forall|j: int|
                            0 <= j < i ==> (#[trigger] all_keys@[j])@ == spec_combine_keys(
                                base_key@,
                                ks@[j]@,
                            ),
                {
                    all_keys.push(Children::combine_keys(base_key.as_str(), ks[i].as_str()));
                }
            },
        }
        all_keys
    }
}

// --- rendering ---------------------------------------------------------------

/// The character an offset sign renders as.
pub open spec fn posneg_render(p: PosNeg) -> Seq<char> {
    match p {
        PosNeg::Pos => seq!['+'],
        PosNeg::Neg => seq!['-'],
    }
}

/// The text of an offset amount: sign, hours, colon, minutes.
pub open spec fn toa_render(a: TimeOffsetAmount) -> Seq<char> {
    posneg_render(a.pos_neg) + a.hour@ + seq![':'] + a.minute@
}

/// The text of a timezone offset.
pub open spec fn offset_render(o: TimeOffset) -> Seq<char> {
    match o {
        TimeOffset::Zulu => seq!['Z'],
        TimeOffset::Time(a) => toa_render(a),
    }
}

/// The text of a date: year, month and day joined with dashes.
pub open spec fn date_render(d: Date) -> Seq<char> {
    d.year@ + seq!['-'] + d.month@ + seq!['-'] + d.day@
}

/// The text of a time part: `T`, the clock fields, then the optional
/// fraction and offset.
pub open spec fn time_render(t: Time) -> Seq<char> {
    seq!['T'] + t.hour@ + seq![':'] + t.minute@ + seq![':'] + t.second@ + (match t.fraction {
        Option::Some(f) => seq!['.'] + f@,
        Option::None => Seq::<char>::empty(),
    }) + (match t.offset {
        Option::Some(o) => offset_render(o),
        Option::None => Seq::<char>::empty(),
    })
}

/// The text of a date-time: the date, then the time if present.
pub open spec fn datetime_render(dt: DateTime) -> Seq<char> {
    date_render(dt.date) + (match dt.time {
        Option::Some(t) => time_render(t),
        Option::None => Seq::<char>::empty(),
    })
}

/// The delimiter of a string quoting style; it opens and closes alike.
pub open spec fn strtype_delim(t: StrType) -> Seq<char> {
    match t {
        StrType::Basic => seq!['"'],
        StrType::MLBasic => seq!['"', '"', '"'],
        StrType::Literal => seq!['\''],
        StrType::MLLiteral => seq!['\'', '\'', '\''],
    }
}

/// The canonical text of a value: scalars in their written form, arrays
/// bracketed with `, ` between elements, inline tables braced with
/// `key = value` pairs.
pub open spec fn value_render(v: Value) -> Seq<char>
    decreases v,
{
    match v {
        Value::Integer(s) => s@,
        Value::Float(s) => s@,
        Value::Boolean(b) => if b {
            seq!['t', 'r', 'u', 'e']
        } else {
            seq!['f', 'a', 'l', 's', 'e']
        },
        Value::DateTime(dt) => datetime_render(dt),
        Value::String(s, t) => strtype_delim(t) + s@ + strtype_delim(t),
        Value::Array(xs) => seq!['['] + arr_items_render(xs@, 0) + seq![']'],
        Value::InlineTable(xs) => seq!['{'] + it_items_render(xs@, 0) + seq!['}'],
    }
}

/// The canonical text of an array's elements from index `i` on.
pub open spec fn arr_items_render(xs: Seq<Value>, i: int) -> Seq<char>
    decreases xs, xs.len() - i,
{
    if i < 0 || i >= xs.len() {
        Seq::<char>::empty()
    } else if i == xs.len() - 1 {
        value_render(xs[i])
    } else {
        value_render(xs[i]) + seq![',', ' '] + arr_items_render(xs, i + 1)
    }
}

/// The canonical text of an inline table's pairs from index `i` on.
pub open spec fn it_items_render(xs: Seq<(String, Value)>, i: int) -> Seq<char>
    decreases xs, xs.len() - i,
{
    if i < 0 || i >= xs.len() {
        Seq::<char>::empty()
    } else if i == xs.len() - 1 {
        xs[i].0@ + seq![' ', '=', ' '] + value_render(xs[i].1)
    } else {
        xs[i].0@ + seq![' ', '=', ' '] + value_render(xs[i].1) + seq![',', ' '] + it_items_render(
            xs,
            i + 1,
        )
    }
}

impl TimeOffsetAmount {
    /// The offset amount as text, `+HH:MM` or `-HH:MM`.
    pub fn render(&self) -> (r: String)
        ensures
            r@ == toa_render(*self),
    {
        let mut out = match self.pos_neg {
            PosNeg::Pos => String::from_str("+"),
            PosNeg::Neg => String::from_str("-"),
        };
        out.append(self.hour.as_str());
        out.append(":");
        out.append(self.minute.as_str());
        proof {
            reveal_strlit("+");
            reveal_strlit("-");
            reveal_strlit(":");
            assert("+"@ =~= seq!['+']);
            assert("-"@ =~= seq!['-']);
            assert(":"@ =~= seq![':']);
        }
        out
    }
}

impl TimeOffset {
    /// The offset as text: `Z`, or a signed amount.
    pub fn render(&self) -> (r: String)
        ensures
            r@ == offset_render(*self),
    {
        match self {
            TimeOffset::Zulu => {
                let out = String::from_str("Z");
                proof {
                    reveal_strlit("Z");
                    assert("Z"@ =~= seq!['Z']);
                }
                out
            },
            TimeOffset::Time(a) => a.render(),
        }
    }
}

impl Date {
    /// The date as text, `YYYY-MM-DD`.
    pub fn render(&self) -> (r: String)
        ensures
            r@ == date_render(*self),
    {
        let mut out = self.year.clone();
        out.append("-");
        out.append(self.month.as_str());
        out.append("-");
        out.append(self.day.as_str());
        proof {
            reveal_strlit("-");
            assert("-"@ =~= seq!['-']);
        }
        out
    }
}

impl Time {
    /// The time as text: `THH:MM:SS`, then the fraction and offset when
    /// present.
    pub fn render(&self) -> (r: String)
        ensures
            r@ == time_render(*self),
    {
        let mut out = String::from_str("T");
        out.append(self.hour.as_str());
        out.append(":");
        out.append(self.minute.as_str());
        out.append(":");
        out.append(self.second.as_str());
        proof {
            reveal_strlit("T");
            reveal_strlit(":");
            assert("T"@ =~= seq!['T']);
            assert(":"@ =~= seq![':']);
        }
        match &self.fraction {
            Option::Some(f) => {
                out.append(".");
                out.append(f.as_str());
                proof {
                    reveal_strlit(".");
                    assert("."@ =~= seq!['.']);
                }
            },
            Option::None => {},
        }
        match &self.offset {
            Option::Some(o) => {
                let os = o.render();
                out.append(os.as_str());
            },
            Option::None => {},
        }
        out
    }
}

impl DateTime {
    /// The date-time as text: the date, then the time if present.
    pub fn render(&self) -> (r: String)
        ensures
            r@ == datetime_render(*self),
    {
        let mut out = self.date.render();
        match &self.time {
            Option::Some(t) => {
                let ts = t.render();
                out.append(ts.as_str());
            },
            Option::None => {},
        }
        out
    }
}

/// The delimiter of a quoting style, as an owned string.
pub(crate) fn strtype_delim_exec(t: StrType) -> (r: String)
    ensures
        r@ == strtype_delim(t),
{
    match t {
        StrType::Basic => {
            let out = String::from_str("\"");
            proof {
                reveal_strlit("\"");
                assert("\""@ =~= seq!['"']);
            }
            out
        },
        StrType::MLBasic => {
            let out = String::from_str("\"\"\"");
            proof {
                reveal_strlit("\"\"\"");
                assert("\"\"\""@ =~= seq!['"', '"', '"']);
            }
            out
        },
        StrType::Literal => {
            let out = String::from_str("'");
            proof {
                reveal_strlit("'");
                assert("'"@ =~= seq!['\'']);
            }
            out
        },
        StrType::MLLiteral => {
            let out = String::from_str("'''");
            proof {
                reveal_strlit("'''");
                assert("'''"@ =~= seq!['\'', '\'', '\'']);
            }
            out
        },
    }
}

impl Value {
    /// The canonical text of the value: scalars exactly as written, strings
    /// in their quotes, arrays as `[a, b]`, inline tables as
    /// `{k = v, l = w}`.
    pub fn render(&self) -> (r: String)
        ensures
            r@ == value_render(*self),
        decreases *self,
    {
        match self {
            Value::Integer(s) => s.clone(),
            Value::Float(s) => s.clone(),
            Value::Boolean(b) => {
                if *b {
                    let out = String::from_str("true");
                    proof {
                        reveal_strlit("true");
                        assert("true"@ =~= seq!['t', 'r', 'u', 'e']);
                    }
                    out
                } else {
                    let out = String::from_str("false");
                    proof {
                        reveal_strlit("false");
                        assert("false"@ =~= seq!['f', 'a', 'l', 's', 'e']);
                    }
                    out
                }
            },
            Value::DateTime(dt) => dt.render(),
            Value::String(s, t) => {
                let mut out = strtype_delim_exec(*t);
                out.append(s.as_str());
                let close = strtype_delim_exec(*t);
                out.append(close.as_str());
                out
            },
            Value::Array(xs) => {
                let mut out = String::from_str("[");
                proof {
                    reveal_strlit("[");
                    reveal_strlit("]");
                    assert("["@ =~= seq!['[']);
                    assert("]"@ =~= seq![']']);
                }
                let n = xs.len();
                let mut i: usize = 0;
                while i < n
                    invariant
                        *self == Value::Array(*xs),
                        n == xs@.len(),
                        0 <= i <= n,
                        out@ == seq!['['] + arr_items_render(xs@, 0).subrange(
                            0,
                            arr_items_render(xs@, 0).len() - arr_items_render(xs@, i as int).len(),
                        ),
                        arr_items_render(xs@, i as int).len() <= arr_items_render(xs@, 0).len(),
                        arr_items_render(xs@, 0) == arr_items_render(xs@, 0).subrange(
                            0,
                            arr_items_render(xs@, 0).len() - arr_items_render(xs@, i as int).len(),
                        ) + arr_items_render(xs@, i as int),
                    decreases n - i,
                {
                    proof {
                        assert(decreases_to!(*self => self->Array_0));
                        assert(decreases_to!(self->Array_0 => self->Array_0@));
                        assert(decreases_to!(self->Array_0@ => self->Array_0@[i as int]));
                        assert(decreases_to!(*self => xs@[i as int]));
                    }
                    let es = xs[i].render();
                    out.append(es.as_str());
                    if i + 1 < n {
                        out.append(", ");
                        proof {
                            reveal_strlit(", ");
                            assert(", "@ =~= seq![',', ' ']);
                            assert(arr_items_render(xs@, i as int) =~= value_render(xs@[i as int])
                                + seq![',', ' '] + arr_items_render(xs@, i + 1 as int));
                        }
                    } else {
                        proof {
                            assert(arr_items_render(xs@, i as int) =~= value_render(
                                xs@[i as int],
                            ));
                            assert(arr_items_render(xs@, i + 1 as int) =~= Seq::<char>::empty());
                        }
                    }
                    proof {
                        let cur = arr_items_render(xs@, i as int);
                        let next = arr_items_render(xs@, i + 1 as int);
                        assert(next =~= cur.subrange(cur.len() - next.len(), cur.len() as int));
                        lemma_render_prefix_step(arr_items_render(xs@, 0), cur, next);
                    }
                    i += 1;
                }
                proof {
                    assert(arr_items_render(xs@, n as int) =~= Seq::<char>::empty());
                    assert(out@ =~= seq!['['] + arr_items_render(xs@, 0));
                }
                out.append("]");
                out
            },
            Value::InlineTable(xs) => {
                let mut out = String::from_str("{");
                proof {
                    reveal_strlit("{");
                    reveal_strlit("}");
                    assert("{"@ =~= seq!['{']);
                    assert("}"@ =~= seq!['}']);
                }
                let n = xs.len();
                let mut i: usize = 0;
                while i < n
                    invariant
                        *self == Value::InlineTable(*xs),
                        n == xs@.len(),
                        0 <= i <= n,
                        out@ == seq!['{'] + it_items_render(xs@, 0).subrange(
                            0,
                            it_items_render(xs@, 0).len() - it_items_render(xs@, i as int).len(),
                        ),
                        it_items_render(xs@, i as int).len() <= it_items_render(xs@, 0).len(),
                        it_items_render(xs@, 0) == it_items_render(xs@, 0).subrange(
                            0,
                            it_items_render(xs@, 0).len() - it_items_render(xs@, i as int).len(),
                        ) + it_items_render(xs@, i as int),
                    decreases n - i,
                {
                    proof {
                        assert(decreases_to!(*self => self->InlineTable_0));
                        assert(decreases_to!(self->InlineTable_0 => self->InlineTable_0@));
                        assert(decreases_to!(self->InlineTable_0@ => self->InlineTable_0@[i as int]));
                        assert(decreases_to!(self->InlineTable_0@[i as int] => self->InlineTable_0@[i as int].1));
                        assert(decreases_to!(*self => xs@[i as int].1));
                    }
                    out.append(xs[i].0.as_str());
                    out.append(" = ");
                    let es = xs[i].1.render();
                    out.append(es.as_str());
                    proof {
                        reveal_strlit(" = ");
                        assert(" = "@ =~= seq![' ', '=', ' ']);
                    }
                    if i + 1 < n {
                        out.append(", ");
                        proof {
                            reveal_strlit(", ");
                            assert(", "@ =~= seq![',', ' ']);
                            assert(it_items_render(xs@, i as int) =~= xs@[i as int].0@ + seq![
                                ' ',
                                '=',
                                ' ',
                            ] + value_render(xs@[i as int].1) + seq![',', ' '] + it_items_render(
                                xs@,
                                i + 1 as int,
                            ));
                        }
                    } else {
                        proof {
                            assert(it_items_render(xs@, i as int) =~= xs@[i as int].0@ + seq![
                                ' ',
                                '=',
                                ' ',
                            ] + value_render(xs@[i as int].1));
                            assert(it_items_render(xs@, i + 1 as int) =~= Seq::<char>::empty());
                        }
                    }
                    proof {
                        let cur = it_items_render(xs@, i as int);
                        let next = it_items_render(xs@, i + 1 as int);
                        assert(next =~= cur.subrange(cur.len() - next.len(), cur.len() as int));
                        lemma_render_prefix_step(it_items_render(xs@, 0), cur, next);
                    }
                    i += 1;
                }
                proof {
                    assert(it_items_render(xs@, n as int) =~= Seq::<char>::empty());
                    assert(out@ =~= seq!['{'] + it_items_render(xs@, 0));
                }
                out.append("}");
                out
            },
        }
    }
}

/// One step of the render loops: if the whole text decomposes as a done
/// part plus `cur`, and `cur` decomposes as one piece plus `next`, then
/// the done part extended by that piece is again a prefix decomposition.
pub(crate) proof fn lemma_render_prefix_step(whole: Seq<char>, cur: Seq<char>, next: Seq<char>)
    requires
        cur.len() <= whole.len(),
        whole == whole.subrange(0, whole.len() - cur.len()) + cur,
        next.len() <= cur.len(),
        next == cur.subrange(cur.len() - next.len(), cur.len() as int),
    ensures
        next.len() <= whole.len(),
        whole == whole.subrange(0, whole.len() - next.len()) + next,
        whole.subrange(0, whole.len() - next.len()) == whole.subrange(0, whole.len() - cur.len())
            + cur.subrange(0, cur.len() - next.len()),
{
    assert(whole.subrange(0, whole.len() - next.len()) =~= whole.subrange(
        0,
        whole.len() - cur.len(),
    ) + cur.subrange(0, cur.len() - next.len()));
    assert(whole =~= whole.subrange(0, whole.len() - next.len()) + next);
}

/// Whether a full date-time token's components are in range: the date is
/// a real calendar day and the clock, fraction and offset fields, when
/// present, are within bounds. Field positions follow the token grammar;
/// meaningful only when the whole text is one date-time token.
pub open spec fn valid_datetime_text(s: Seq<char>) -> bool {
    date_ok_nums(
        dec_val(s.subrange(0, 4)),
        dec_val(s.subrange(5, 7)),
        dec_val(s.subrange(8, 10)),
    ) && (s.len() > 10 ==> time_ok_nums(
        dec_val(s.subrange(11, 13)),
        dec_val(s.subrange(14, 16)),
        dec_val(s.subrange(17, 19)),
    ) && ({
        let j = if 20 < s.len() && s[19] == '.' && crate::text::is_digit(s[20]) {
            crate::lex::digit_run_end(s, 20)
        } else {
            19
        };
        (20 < s.len() && s[19] == '.' && crate::text::is_digit(s[20]) ==> dec_val(
            s.subrange(20, j),
        ) <= u64::MAX) && (j < s.len() && (s[j] == '+' || s[j] == '-') ==> dec_val(
            s.subrange(j + 1, j + 3),
        ) <= 23 && dec_val(s.subrange(j + 4, j + 6)) <= 59)
    }))
}

impl Value {
    /// A date-time value parsed from one string; accepted exactly when the
    /// whole string is a single date-time token whose components are in
    /// range.
    pub fn datetime_parse(dt: &str) -> (r: Result<Value, TOMLError>)
        ensures
            r is Ok ==> crate::lex::datetime_end(dt@, 0) == Option::Some(dt@.len() as int)
                && valid_datetime_text(dt@),
            crate::lex::datetime_end(dt@, 0) == Option::Some(dt@.len() as int)
                && valid_datetime_text(dt@) ==> r is Ok,
            r matches Ok(v) ==> (v matches Value::DateTime(d) && datetime_render(d) == dt@
                && spec_valid_datetime(d)),
            r matches Err(e) ==> message_names_input(e, dt@),
    {
        let chars = str_to_chars(dt);
        match crate::grammar::parse_datetime(&chars, 0) {
            Option::Some((d, e)) => {
                if e != chars.len() {
                    let mut msg = String::from_str(
                        "Error parsing string as datetime. Argument: ",
                    );
                    msg.append(dt);
                    proof {
                        assert(msg@.subrange(msg@.len() - dt@.len(), msg@.len() as int) =~= dt@);
                    }
                    return Err(TOMLError::new(msg));
                }
                if d.validate() {
                    proof {
                        lemma_datetime_text_valid(dt@, d);
                    }
                    Ok(Value::DateTime(d))
                } else {
                    proof {
                        lemma_datetime_text_valid(dt@, d);
                    }
                    let mut msg = String::from_str(
                        "Error parsing string as datetime. Argument: ",
                    );
                    msg.append(dt);
                    proof {
                        assert(msg@.subrange(msg@.len() - dt@.len(), msg@.len() as int) =~= dt@);
                    }
                    Err(TOMLError::new(msg))
                }
            },
            Option::None => {
                let mut msg = String::from_str("Error parsing string as datetime. Argument: ");
                msg.append(dt);
                proof {
                    assert(msg@.subrange(msg@.len() - dt@.len(), msg@.len() as int) =~= dt@);
                }
                Err(TOMLError::new(msg))
            },
        }
    }
}

/// How a parsed date-time's fields relate to the token text between `pos`
/// and `end`: every component string is its substring, at the positions
/// the grammar fixes.
pub open spec fn datetime_fields(s: Seq<char>, pos: int, d: DateTime, end: int) -> bool {
    &&& 0 <= pos
    &&& pos + 10 <= end <= s.len()
    &&& crate::lex::digits_at(s, pos, 4)
    &&& crate::lex::digits_at(s, pos + 5, 2)
    &&& crate::lex::digits_at(s, pos + 8, 2)
    &&& d.date.year@ == s.subrange(pos, pos + 4)
    &&& d.date.month@ == s.subrange(pos + 5, pos + 7)
    &&& d.date.day@ == s.subrange(pos + 8, pos + 10)
    &&& match d.time {
        Option::Some(t) => {
            let j0 = pos + 10;
            let has_frac = j0 + 10 < s.len() && s[j0 + 9] == '.' && crate::text::is_digit(
                s[j0 + 10],
            );
            let j = if has_frac {
                crate::lex::digit_run_end(s, j0 + 10)
            } else {
                j0 + 9
            };
            &&& j0 + 9 <= end
            &&& crate::lex::digits_at(s, j0 + 1, 2)
            &&& crate::lex::digits_at(s, j0 + 4, 2)
            &&& crate::lex::digits_at(s, j0 + 7, 2)
            &&& t.hour@ == s.subrange(j0 + 1, j0 + 3)
            &&& t.minute@ == s.subrange(j0 + 4, j0 + 6)
            &&& t.second@ == s.subrange(j0 + 7, j0 + 9)
            &&& (match t.fraction {
                Option::Some(f) => has_frac && f@ == s.subrange(j0 + 10, j),
                Option::None => !has_frac,
            })
            &&& (match t.offset {
                Option::Some(TimeOffset::Zulu) => j < s.len() && s[j] == 'Z' && end == j + 1,
                Option::Some(TimeOffset::Time(a)) => j < s.len() && (s[j] == '+' || s[j] == '-')
                    && crate::lex::digits_at(s, j + 1, 2) && crate::lex::digits_at(s, j + 4, 2)
                    && a.hour@ == s.subrange(j + 1, j + 3) && a.minute@ == s.subrange(
                    j + 4,
                    j + 6,
                ) && end == j + 6,
                Option::None => end == j,
            })
        },
        Option::None => end == pos + 10,
    }
}

/// For a date-time token spanning the whole text, the struct-level
/// validity check decides exactly the text-level one: the struct's fields
/// are the text's component substrings.
proof fn lemma_datetime_text_valid(s: Seq<char>, d: DateTime)
    requires
        datetime_fields(s, 0, d, s.len() as int),
    ensures
        spec_valid_datetime(d) <==> valid_datetime_text(s),
{
    lemma_dec_val_upper(d.date.month@);
    lemma_dec_val_upper(d.date.day@);
    assert(pow10(0) == 1);
    assert(pow10(1) == 10);
    assert(pow10(2) == 100);
    assert(pow10(3) == 1000);
    assert(pow10(4) == 10000);
    lemma_dec_val_upper(d.date.year@);
    match d.time {
        Option::Some(t) => {
            lemma_dec_val_upper(t.hour@);
            lemma_dec_val_upper(t.minute@);
            lemma_dec_val_upper(t.second@);
            match t.fraction {
                Option::Some(f) => {
                    crate::lex::lemma_digit_run(s, 20);
                    assert(crate::lex::digit_run_end(s, 20) >= 21);
                    assert(f@.len() >= 1);
                    assert(all_digits(f@));
                },
                Option::None => {},
            }
            match t.offset {
                Option::Some(TimeOffset::Time(a)) => {
                    lemma_dec_val_upper(a.hour@);
                    lemma_dec_val_upper(a.minute@);
                },
                _ => {},
            }
        },
        Option::None => {},
    }
}

/// ASCII lowercasing of a single character.
pub open spec fn lower_ascii(c: char) -> char {
    if 'A' <= c && c <= 'Z' {
        ((c as int) + 32) as char
    } else {
        c
    }
}

/// ASCII lowercasing of a character sequence.
pub open spec fn lower_ascii_seq(s: Seq<char>) -> Seq<char> {
    s.map_values(|c: char| lower_ascii(c))
}

} // verus!
