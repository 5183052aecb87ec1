//! Cron schedules: five-field expressions compiled into bit masks.

use vstd::prelude::*;
use vstd::string::*;
use vstd::set_lib::{lemma_int_range, set_int_range};
use crate::text::{
    chars_of, decimal, decimal_string, is_whitespace, is_whitespace_char, lemma_position,
    lemma_position_bounds, parse_number, parse_unsigned, position,
};

verus! {

/// The length of the run of non-whitespace characters at the front of `s`.
pub open spec fn word_len(s: Seq<char>) -> nat
    decreases s.len(),
{
    if s.len() == 0 || is_whitespace(s[0]) {
        0
    } else {
        1 + word_len(s.drop_first())
    }
}

/// The leading run of non-whitespace characters is no longer than `s`.
pub proof fn lemma_word_len_bound(s: Seq<char>)
    ensures
        word_len(s) <= s.len(),
    decreases s.len(),
{
    if s.len() == 0 || is_whitespace(s[0]) {
    } else {
        lemma_word_len_bound(s.drop_first());
    }
}

/// The maximal runs of non-whitespace characters in `s`, in order.
pub open spec fn words(s: Seq<char>) -> Seq<Seq<char>>
    decreases s.len(),
    via words_decreases
{
    if s.len() == 0 {
        Seq::empty()
    } else if is_whitespace(s[0]) {
        words(s.drop_first())
    } else {
        seq![s.take(word_len(s) as int)] + words(s.skip(word_len(s) as int))
    }
}

#[via_fn]
proof fn words_decreases(s: Seq<char>) {
    lemma_word_len_bound(s);
}

/// `word_len` is the one length at which the leading run of non-whitespace
/// characters ends.
pub proof fn lemma_word_len(s: Seq<char>, n: int)
    requires
        0 <= n <= s.len(),
        forall|k: int| 0 <= k < n ==> !is_whitespace(#[trigger] s[k]),
        n < s.len() ==> is_whitespace(s[n]),
    ensures
        word_len(s) == n,
    decreases n,
{
    if n > 0 {
        let rest = s.drop_first();
        assert forall|k: int| 0 <= k < n - 1 implies !is_whitespace(#[trigger] rest[k]) by {
            assert(rest[k] == s[k + 1]);
        }
        lemma_word_len(rest, n - 1);
    }
}

/// A compiled schedule: one bit mask per field. Bit `v` of a mask is set
/// where the field matches the value `v`.
#[derive(Debug, Clone, Copy)]
pub struct CronSchedule {
    /// Minutes, bits 0 to 59.
    pub minute: u64,
    /// Hours, bits 0 to 23.
    pub hour: u32,
    /// Days of the month, bits 1 to 31.
    pub day: u32,
    /// Months, bits 1 to 12.
    pub month: u16,
    /// Days of the week, bits 0 to 6.
    pub weekday: u8,
}

/// Whether bit `v` of `mask` is set.
pub open spec fn mask_has(mask: u64, v: int) -> bool {
    0 <= v < 64 && (mask >> (v as u64)) & 1 == 1
}

/// The values that a mask holds.
pub open spec fn mask_values(mask: u64) -> Set<int> {
    Set::new(|v: int| mask_has(mask, v))
}

impl CronSchedule {
    /// Whether the schedule matches the minute `v`.
    pub open spec fn has_minute(self, v: int) -> bool {
        mask_has(self.minute, v)
    }

    /// Whether the schedule matches the hour `v`.
    pub open spec fn has_hour(self, v: int) -> bool {
        mask_has(self.hour as u64, v)
    }

    /// Whether the schedule matches the day of the month `v`.
    pub open spec fn has_day(self, v: int) -> bool {
        mask_has(self.day as u64, v)
    }

    /// Whether the schedule matches the month `v`.
    pub open spec fn has_month(self, v: int) -> bool {
        mask_has(self.month as u64, v)
    }

    /// Whether the schedule matches the day of the week `v`.
    pub open spec fn has_weekday(self, v: int) -> bool {
        mask_has(self.weekday as u64, v)
    }
}

/// Why an expression does not compile.
pub enum CronError {
    /// The expression has this many fields, not five.
    FieldCount(nat),
    /// This part is no number, or one outside the field's range.
    InvalidValue(Seq<char>),
    /// This part is no range `a-b` with `a <= b` inside the field's range.
    InvalidRange(Seq<char>),
    /// The step of this part `*/step` is no positive number.
    InvalidStep(Seq<char>),
}

impl CronError {
    /// The text that reports the error.
    pub open spec fn message(self) -> Seq<char> {
        match self {
            CronError::FieldCount(n) => "Expected 5 fields in cron expression, got: "@ + decimal(n),
            CronError::InvalidValue(part) => "Invalid value: "@ + part,
            CronError::InvalidRange(part) => "Invalid range: "@ + part,
            CronError::InvalidStep(part) => "Invalid step: "@ + part,
        }
    }
}

/// What one comma-separated part of a field asks for.
pub enum Part {
    /// `*`: every value of the field.
    All,
    /// `*/step`: every `step`-th value, counted from the field's lowest.
    Step(nat),
    /// `a-b`: the values from `a` to `b`.
    Range(nat, nat),
    /// A single value.
    Value(nat),
}

/// Whether `part` has the form `*/...`.
pub open spec fn is_step(part: Seq<char>) -> bool {
    part.len() >= 2 && part[0] == '*' && part[1] == '/'
}

/// Whether `part` holds a `-`.
pub open spec fn has_dash(part: Seq<char>) -> bool {
    position(part, '-') < part.len()
}

/// Reads one part of a field whose values run from `lo` to `hi`.
pub open spec fn parse_part(part: Seq<char>, lo: nat, hi: nat) -> Result<Part, CronError> {
    if part.len() == 1 && part[0] == '*' {
        Ok(Part::All)
    } else if is_step(part) {
        match parse_unsigned(part.skip(2), 255) {
            Some(step) => if step == 0 {
                Err(CronError::InvalidStep(part))
            } else {
                Ok(Part::Step(step))
            },
            None => Err(CronError::InvalidStep(part)),
        }
    } else if has_dash(part) {
        let dash = position(part, '-');
        match (parse_unsigned(part.take(dash), 255), parse_unsigned(part.skip(dash + 1), 255)) {
            (Some(a), Some(b)) => if a > b || a < lo || b > hi {
                Err(CronError::InvalidRange(part))
            } else {
                Ok(Part::Range(a, b))
            },
            _ => Err(CronError::InvalidRange(part)),
        }
    } else {
        match parse_unsigned(part, 255) {
            Some(v) => if v < lo || v > hi {
                Err(CronError::InvalidValue(part))
            } else {
                Ok(Part::Value(v))
            },
            None => Err(CronError::InvalidValue(part)),
        }
    }
}

impl Part {
    /// Whether the part matches the value `v` in a field from `lo` to `hi`.
    pub open spec fn allows(self, lo: nat, hi: nat, v: int) -> bool {
        match self {
            Part::All => lo <= v <= hi,
            Part::Step(step) => lo <= v <= hi && (v - lo) % (step as int) == 0,
            Part::Range(a, b) => a <= v <= b,
            Part::Value(x) => v == x,
        }
    }
}

/// Whether `part` is well-formed and matches the value `v`.
pub open spec fn part_allows(part: Seq<char>, lo: nat, hi: nat, v: int) -> bool {
    match parse_part(part, lo, hi) {
        Ok(p) => p.allows(lo, hi, v),
        Err(_) => false,
    }
}

/// The error of the first ill-formed part of a field, if it has one. The
/// parts of a field are separated by commas.
pub open spec fn field_error(field: Seq<char>, lo: nat, hi: nat) -> Option<CronError>
    decreases field.len(),
{
    let comma = position(field, ',');
    if comma < 0 || comma >= field.len() {
        match parse_part(field, lo, hi) {
            Ok(_) => None,
            Err(e) => Some(e),
        }
    } else {
        match parse_part(field.take(comma), lo, hi) {
            Ok(_) => field_error(field.skip(comma + 1), lo, hi),
            Err(e) => Some(e),
        }
    }
}

/// Whether some part of the field matches the value `v`.
pub open spec fn field_allows(field: Seq<char>, lo: nat, hi: nat, v: int) -> bool
    decreases field.len(),
{
    let comma = position(field, ',');
    if comma < 0 || comma >= field.len() {
        part_allows(field, lo, hi, v)
    } else {
        part_allows(field.take(comma), lo, hi, v) || field_allows(
            field.skip(comma + 1),
            lo,
            hi,
            v,
        )
    }
}

/// The lowest value of field `k`.
pub open spec fn field_lo(k: int) -> nat {
    if k == 2 || k == 3 {
        1
    } else {
        0
    }
}

/// The highest value of field `k`.
pub open spec fn field_hi(k: int) -> nat {
    if k == 0 {
        59
    } else if k == 1 {
        23
    } else if k == 2 {
        31
    } else if k == 3 {
        12
    } else {
        6
    }
}

/// The error of the first of the fields `k..5` that has one.
pub open spec fn fields_error(fields: Seq<Seq<char>>, k: int) -> Option<CronError>
    decreases 5 - k,
{
    if k >= 5 {
        None
    } else {
        match field_error(fields[k], field_lo(k), field_hi(k)) {
            Some(e) => Some(e),
            None => fields_error(fields, k + 1),
        }
    }
}

/// Why `expr` does not compile, or `None` where it does: it needs five
/// whitespace-separated fields, each well-formed.
pub open spec fn expr_error(expr: Seq<char>) -> Option<CronError> {
    let fields = words(expr);
    if fields.len() != 5 {
        Some(CronError::FieldCount(fields.len()))
    } else {
        fields_error(fields, 0)
    }
}

/// Whether the masks of `schedule` hold exactly the values that the five
/// fields of `expr` match.
pub open spec fn compiles_to(expr: Seq<char>, schedule: CronSchedule) -> bool {
    let fields = words(expr);
    &&& fields.len() == 5
    &&& forall|v: int| #[trigger]
        schedule.has_minute(v) <==> field_allows(fields[0], 0, 59, v)
    &&& forall|v: int| #[trigger] schedule.has_hour(v) <==> field_allows(fields[1], 0, 23, v)
    &&& forall|v: int| #[trigger] schedule.has_day(v) <==> field_allows(fields[2], 1, 31, v)
    &&& forall|v: int| #[trigger] schedule.has_month(v) <==> field_allows(fields[3], 1, 12, v)
    &&& forall|v: int| #[trigger]
        schedule.has_weekday(v) <==> field_allows(fields[4], 0, 6, v)
}

/// The schedule that `expr` compiles to. It is the only one: a mask is
/// determined by its bits (`lemma_compiled_unique`).
pub open spec fn compiled(expr: Seq<char>) -> CronSchedule {
    choose|schedule: CronSchedule| compiles_to(expr, schedule)
}

proof fn lemma_low_bits_step(a: u64, b: u64, n: u64)
    by (bit_vector)
    requires
        n < 63,
        (a & !(0xFFFF_FFFF_FFFF_FFFFu64 << n)) == (b & !(0xFFFF_FFFF_FFFF_FFFFu64 << n)),
        ((a >> n) & 1 == 1) <==> ((b >> n) & 1 == 1),
    ensures
        (a & !(0xFFFF_FFFF_FFFF_FFFFu64 << (n + 1))) == (b & !(0xFFFF_FFFF_FFFF_FFFFu64 << (n + 1))),
{
}

proof fn lemma_low_bits_last(a: u64, b: u64)
    by (bit_vector)
    requires
        (a & !(0xFFFF_FFFF_FFFF_FFFFu64 << 63)) == (b & !(0xFFFF_FFFF_FFFF_FFFFu64 << 63)),
        ((a >> 63) & 1 == 1) <==> ((b >> 63) & 1 == 1),
    ensures
        a == b,
{
}

proof fn lemma_low_bits_none(a: u64, b: u64)
    by (bit_vector)
    ensures
        (a & !(0xFFFF_FFFF_FFFF_FFFFu64 << 0)) == (b & !(0xFFFF_FFFF_FFFF_FFFFu64 << 0)),
{
}

proof fn lemma_low_bits(a: u64, b: u64, n: u64)
    requires
        n <= 63,
        forall|v: int| 0 <= v < 64 ==> (mask_has(a, v) <==> mask_has(b, v)),
    ensures
        (a & !(0xFFFF_FFFF_FFFF_FFFFu64 << n)) == (b & !(0xFFFF_FFFF_FFFF_FFFFu64 << n)),
    decreases n,
{
    if n == 0 {
        lemma_low_bits_none(a, b);
    } else {
        let m = (n - 1) as u64;
        lemma_low_bits(a, b, m);
        assert(mask_has(a, m as int) <==> mask_has(b, m as int));
        lemma_low_bits_step(a, b, m);
    }
}

/// Two masks with the same bits are the same mask.
pub proof fn lemma_masks_equal(a: u64, b: u64)
    requires
        forall|v: int| 0 <= v < 64 ==> (mask_has(a, v) <==> mask_has(b, v)),
    ensures
        a == b,
{
    lemma_low_bits(a, b, 63);
    assert(mask_has(a, 63) <==> mask_has(b, 63));
    lemma_low_bits_last(a, b);
}

/// An expression compiles to one schedule only.
pub proof fn lemma_compiled_unique(expr: Seq<char>, schedule: CronSchedule)
    requires
        compiles_to(expr, schedule),
    ensures
        schedule == compiled(expr),
{
    let other = compiled(expr);
    assert(compiles_to(expr, other));
    assert forall|v: int| 0 <= v < 64 implies (mask_has(schedule.minute, v) <==> mask_has(
        other.minute,
        v,
    )) by {
        assert(schedule.has_minute(v) <==> other.has_minute(v));
    }
    lemma_masks_equal(schedule.minute, other.minute);
    assert forall|v: int| 0 <= v < 64 implies (#[trigger] mask_has(schedule.hour as u64, v)
        <==> mask_has(other.hour as u64, v)) by {
        assert(schedule.has_hour(v) <==> other.has_hour(v));
    }
    lemma_masks_equal(schedule.hour as u64, other.hour as u64);
    assert forall|v: int| 0 <= v < 64 implies (#[trigger] mask_has(schedule.day as u64, v)
        <==> mask_has(other.day as u64, v)) by {
        assert(schedule.has_day(v) <==> other.has_day(v));
    }
    lemma_masks_equal(schedule.day as u64, other.day as u64);
    assert forall|v: int| 0 <= v < 64 implies (#[trigger] mask_has(schedule.month as u64, v)
        <==> mask_has(other.month as u64, v)) by {
        assert(schedule.has_month(v) <==> other.has_month(v));
    }
    lemma_masks_equal(schedule.month as u64, other.month as u64);
    assert forall|v: int| 0 <= v < 64 implies (#[trigger] mask_has(schedule.weekday as u64, v)
        <==> mask_has(other.weekday as u64, v)) by {
        assert(schedule.has_weekday(v) <==> other.has_weekday(v));
    }
    lemma_masks_equal(schedule.weekday as u64, other.weekday as u64);
}

proof fn lemma_set_bit(m: u64, b: u64, v: u64)
    by (bit_vector)
    requires
        b < 64,
        v < 64,
    ensures
        (((m | (1u64 << b)) >> v) & 1 == 1) <==> (v == b || (m >> v) & 1 == 1),
{
}

/// Whether `mask` has no bit above bit `hi`.
pub open spec fn mask_within(mask: u64, hi: u64) -> bool {
    mask < (1u64 << (hi + 1))
}

proof fn lemma_set_bit_bound(m: u64, b: u64, hi: u64)
    by (bit_vector)
    requires
        b <= hi < 63,
        m < (1u64 << (hi + 1)),
    ensures
        (m | (1u64 << b)) < (1u64 << (hi + 1)),
{
}

/// Sets bit `bit` of `mask`.
fn set_bit(mask: &mut u64, bit: u8)
    requires
        bit < 64,
    ensures
        forall|v: int| #[trigger]
            mask_has(*final(mask), v) <==> (v == bit || mask_has(*old(mask), v)),
        forall|hi: u64|
            bit <= hi < 63 && mask_within(*old(mask), hi) ==> #[trigger] mask_within(
                *final(mask),
                hi,
            ),
{
    let m: u64 = *mask;
    let b: u64 = bit as u64;
    *mask = m | (1u64 << b);
    proof {
        assert forall|v: int| #[trigger] mask_has(*mask, v) <==> (v == bit || mask_has(m, v)) by {
            if 0 <= v < 64 {
                lemma_set_bit(m, b, v as u64);
            }
        }
        assert forall|hi: u64| bit <= hi < 63 && mask_within(m, hi) implies #[trigger] mask_within(
            *mask,
            hi,
        ) by {
            lemma_set_bit_bound(m, b, hi);
        }
    }
}

/// Sets the bits `a` to `b` of `mask`.
fn set_bits(mask: &mut u64, a: u8, b: u8)
    requires
        a <= b < 63,
    ensures
        forall|v: int| #[trigger]
            mask_has(*final(mask), v) <==> (a <= v <= b || mask_has(*old(mask), v)),
        forall|hi: u64|
            b <= hi < 63 && mask_within(*old(mask), hi) ==> #[trigger] mask_within(
                *final(mask),
                hi,
            ),
{
    let mut v: u8 = a;
    while v <= b
        invariant
            a <= v <= b + 1,
            b < 63,
            forall|x: int| #[trigger]
                mask_has(*mask, x) <==> (a <= x < v || mask_has(*old(mask), x)),
            forall|hi: u64|
                b <= hi < 63 && mask_within(*old(mask), hi) ==> #[trigger] mask_within(*mask, hi),
        decreases b + 1 - v,
    {
        set_bit(mask, v);
        v += 1;
    }
}

proof fn lemma_step_gap(lo: int, v: int, step: int, x: int)
    by (nonlinear_arith)
    requires
        step > 0,
        lo <= v <= x < v + step,
        (v - lo) % step == 0,
    ensures
        ((x - lo) % step == 0) <==> x == v,
{
}

/// Sets every `step`-th bit of `mask` from bit `lo` up to bit `hi`.
fn set_stepped(mask: &mut u64, lo: u8, hi: u8, step: u64)
    requires
        lo <= hi < 63,
        0 < step <= 255,
    ensures
        forall|v: int| #[trigger]
            mask_has(*final(mask), v) <==> ((lo <= v <= hi && (v - lo) % (step as int) == 0)
                || mask_has(*old(mask), v)),
        mask_within(*old(mask), hi as u64) ==> mask_within(*final(mask), hi as u64),
{
    let mut v: u64 = lo as u64;
    assert(0int % (step as int) == 0) by (nonlinear_arith)
        requires
            step > 0,
    ;
    while v <= hi as u64
        invariant
            lo <= v <= hi + step,
            lo <= hi < 63,
            0 < step <= 255,
            (v - lo) % (step as int) == 0,
            forall|x: int| #[trigger]
                mask_has(*mask, x) <==> ((lo <= x < v && x <= hi && (x - lo) % (step as int) == 0)
                    || mask_has(*old(mask), x)),
            mask_within(*old(mask), hi as u64) ==> mask_within(*mask, hi as u64),
        decreases hi + step - v,
    {
        let ghost before = *mask;
        set_bit(mask, v as u8);
        proof {
            assert forall|x: int| #[trigger]
                mask_has(*mask, x) <==> ((lo <= x < v + step && x <= hi && (x - lo) % (step as int)
                    == 0) || mask_has(*old(mask), x)) by {
                assert(mask_has(*mask, x) <==> (x == v || mask_has(before, x)));
                if v <= x < v + step {
                    lemma_step_gap(lo as int, v as int, step as int, x);
                }
            }
            assert((v + step - lo) % (step as int) == 0) by (nonlinear_arith)
                requires
                    (v - lo) % (step as int) == 0,
                    step > 0,
            ;
        }
        v += step;
    }
}

/// The text `prefix` followed by the characters `from..to` of `expr`.
fn message_with_part(prefix: &str, expr: &str, from: usize, to: usize) -> (m: String)
    requires
        from <= to <= expr@.len(),
    ensures
        m@ == prefix@ + expr@.subrange(from as int, to as int),
{
    let mut m = String::from_str(prefix);
    m.append(expr.substring_char(from, to));
    m
}

/// Finds the first `needle` among the characters `from..to`.
fn find_char(chars: &[char], from: usize, to: usize, needle: char) -> (r: Option<usize>)
    requires
        from <= to <= chars@.len(),
    ensures
        match r {
            Some(i) => from <= i < to && i - from == position(
                chars@.subrange(from as int, to as int),
                needle,
            ),
            None => position(chars@.subrange(from as int, to as int), needle) == to - from,
        },
{
    let ghost text = chars@.subrange(from as int, to as int);
    let mut i: usize = from;
    while i < to
        invariant
            from <= i <= to <= chars@.len(),
            text == chars@.subrange(from as int, to as int),
            forall|j: int| 0 <= j < i - from ==> text[j] != needle,
        decreases to - i,
    {
        if chars[i] == needle {
            proof {
                lemma_position(text, needle, i - from);
            }
            return Some(i);
        }
        i += 1;
    }
    proof {
        lemma_position(text, needle, i - from);
    }
    None
}

proof fn lemma_empty_mask(v: u64, hi: u64)
    by (bit_vector)
    requires
        hi < 63,
    ensures
        (0u64 >> v) & 1 == 0,
        0u64 < (1u64 << (hi + 1)),
{
}

/// Compiles the part `from..to` of `expr` into `mask`.
fn apply_part(
    expr: &str,
    chars: &[char],
    from: usize,
    to: usize,
    lo: u8,
    hi: u8,
    mask: &mut u64,
) -> (r: Result<(), String>)
    requires
        chars@ == expr@,
        from <= to <= chars@.len(),
        lo <= hi < 63,
        mask_within(*old(mask), hi as u64),
    ensures
        match parse_part(expr@.subrange(from as int, to as int), lo as nat, hi as nat) {
            Ok(p) => r is Ok && mask_within(*final(mask), hi as u64) && forall|v: int| #[trigger]
                mask_has(*final(mask), v) <==> (p.allows(lo as nat, hi as nat, v) || mask_has(
                    *old(mask),
                    v,
                )),
            Err(e) => r is Err && r->Err_0@ == e.message(),
        },
{
    let ghost part = chars@.subrange(from as int, to as int);
    if to - from == 1 && chars[from] == '*' {
        set_bits(mask, lo, hi);
        Ok(())
    } else if to - from >= 2 && chars[from] == '*' && chars[from + 1] == '/' {
        assert(part.skip(2) =~= chars@.subrange(from + 2, to as int));
        match parse_number(vstd::slice::slice_subrange(chars, from + 2, to), 255) {
            Some(step) => {
                if step == 0 {
                    Err(message_with_part("Invalid step: ", expr, from, to))
                } else {
                    set_stepped(mask, lo, hi, step);
                    Ok(())
                }
            },
            None => Err(message_with_part("Invalid step: ", expr, from, to)),
        }
    } else {
        match find_char(chars, from, to, '-') {
            Some(dash) => {
                assert(part.take(dash - from) =~= chars@.subrange(from as int, dash as int));
                assert(part.skip(dash - from + 1) =~= chars@.subrange(dash + 1, to as int));
                match (
                    parse_number(vstd::slice::slice_subrange(chars, from, dash), 255),
                    parse_number(vstd::slice::slice_subrange(chars, dash + 1, to), 255),
                ) {
                    (Some(a), Some(b)) => {
                        if a > b || a < lo as u64 || b > hi as u64 {
                            Err(message_with_part("Invalid range: ", expr, from, to))
                        } else {
                            set_bits(mask, a as u8, b as u8);
                            Ok(())
                        }
                    },
                    _ => Err(message_with_part("Invalid range: ", expr, from, to)),
                }
            },
            None => {
                match parse_number(vstd::slice::slice_subrange(chars, from, to), 255) {
                    Some(v) => {
                        if v < lo as u64 || v > hi as u64 {
                            Err(message_with_part("Invalid value: ", expr, from, to))
                        } else {
                            set_bit(mask, v as u8);
                            Ok(())
                        }
                    },
                    None => Err(message_with_part("Invalid value: ", expr, from, to)),
                }
            },
        }
    }
}

/// The texts that the index pairs `spans` cut out of `chars`.
pub open spec fn span_texts(chars: Seq<char>, spans: Seq<(usize, usize)>) -> Seq<Seq<char>> {
    Seq::new(spans.len(), |k: int| chars.subrange(spans[k].0 as int, spans[k].1 as int))
}

/// Finds the whitespace-separated fields of an expression.
fn split_fields(chars: &[char]) -> (spans: Vec<(usize, usize)>)
    ensures
        span_texts(chars@, spans@) == words(chars@),
        forall|k: int| 0 <= k < spans@.len() ==> (#[trigger] spans@[k]).0 <= spans@[k].1
            <= chars@.len(),
{
    let mut spans: Vec<(usize, usize)> = Vec::new();
    let len = chars.len();
    let mut i: usize = 0;
    assert(span_texts(chars@, spans@) =~= Seq::<Seq<char>>::empty());
    assert(chars@.skip(0) =~= chars@);
    while i < len
        invariant
            i <= len == chars@.len(),
            words(chars@) == span_texts(chars@, spans@) + words(chars@.skip(i as int)),
            forall|k: int| 0 <= k < spans@.len() ==> (#[trigger] spans@[k]).0 <= spans@[k].1
                <= chars@.len(),
        decreases len - i,
    {
        let ghost rest = chars@.skip(i as int);
        if is_whitespace_char(chars[i]) {
            assert(rest.drop_first() =~= chars@.skip(i + 1));
            i += 1;
        } else {
            let start = i;
            while i < len && !is_whitespace_char(chars[i])
                invariant
                    start <= i <= len == chars@.len(),
                    rest == chars@.skip(start as int),
                    forall|k: int| 0 <= k < i - start ==> !is_whitespace(#[trigger] rest[k]),
                decreases len - i,
            {
                i += 1;
            }
            proof {
                lemma_word_len(rest, i - start);
                assert(rest.take(i - start) =~= chars@.subrange(start as int, i as int));
                assert(rest.skip(i - start) =~= chars@.skip(i as int));
            }
            let ghost before = spans@;
            spans.push((start, i));
            assert(span_texts(chars@, spans@) =~= span_texts(chars@, before)
                + seq![chars@.subrange(start as int, i as int)]);
        }
    }
    assert(chars@.skip(i as int) =~= Seq::<char>::empty());
    assert(span_texts(chars@, spans@) + Seq::<Seq<char>>::empty() =~= span_texts(chars@, spans@));
    spans
}

/// Compiles cron expressions.
pub struct CronParser {
    field_ranges: [(u8, u8); 5],
}

impl CronParser {
    #[verifier::type_invariant]
    spec fn ranges_are_standard(&self) -> bool {
        &&& self.field_ranges[0] == (0u8, 59u8)
        &&& self.field_ranges[1] == (0u8, 23u8)
        &&& self.field_ranges[2] == (1u8, 31u8)
        &&& self.field_ranges[3] == (1u8, 12u8)
        &&& self.field_ranges[4] == (0u8, 6u8)
    }

    /// The lowest and the highest value that the parser accepts in field
    /// `k`, counted from 0 for the minute.
    pub closed spec fn field_range(&self, k: int) -> (u8, u8) {
        self.field_ranges[k]
    }

    /// A parser for the five fields minute, hour, day of month, month and
    /// day of week: minutes run from 0 to 59, hours from 0 to 23, days of
    /// the month from 1 to 31, months from 1 to 12, and days of the week
    /// from 0 to 6.
    pub fn new() -> (parser: Self)
        ensures
            forall|k: int|
                0 <= k < 5 ==> #[trigger] parser.field_range(k) == (
                    field_lo(k) as u8,
                    field_hi(k) as u8,
                ),
    {
        CronParser { field_ranges: [(0, 59), (0, 23), (1, 31), (1, 12), (0, 6)] }
    }

    /// Compiles the field `from..to` of `expr`, whose values run from
    /// `field_range.0` to `field_range.1`.
    fn parse_field(
        &self,
        expr: &str,
        chars: &[char],
        from: usize,
        to: usize,
        field_range: (u8, u8),
    ) -> (r: Result<u64, String>)
        requires
            chars@ == expr@,
            from <= to <= chars@.len(),
            field_range.0 <= field_range.1 < 63,
        ensures
            match field_error(
                expr@.subrange(from as int, to as int),
                field_range.0 as nat,
                field_range.1 as nat,
            ) {
                Some(e) => r is Err && r->Err_0@ == e.message(),
                None => r is Ok && mask_within(r->Ok_0, field_range.1 as u64) && forall|v: int|
                    #[trigger] mask_has(r->Ok_0, v) <==> field_allows(
                        expr@.subrange(from as int, to as int),
                        field_range.0 as nat,
                        field_range.1 as nat,
                        v,
                    ),
            },
    {
        let (lo, hi) = field_range;
        let ghost field = expr@.subrange(from as int, to as int);
        let mut mask: u64 = 0;
        let mut pos: usize = from;
        proof {
            assert(field.skip(0) =~= field);
            assert forall|v: int| !mask_has(mask, v) by {
                if 0 <= v < 64 {
                    lemma_empty_mask(v as u64, hi as u64);
                }
            }
            lemma_empty_mask(0, hi as u64);
        }
        loop
            invariant
                chars@ == expr@,
                from <= pos <= to <= chars@.len(),
                lo <= hi < 63,
                lo == field_range.0,
                hi == field_range.1,
                field == expr@.subrange(from as int, to as int),
                mask_within(mask, hi as u64),
                field_error(field, lo as nat, hi as nat) == field_error(
                    field.skip(pos - from),
                    lo as nat,
                    hi as nat,
                ),
                forall|v: int| #[trigger]
                    field_allows(field, lo as nat, hi as nat, v) <==> (mask_has(mask, v)
                        || field_allows(field.skip(pos - from), lo as nat, hi as nat, v)),
            decreases to - pos,
        {
            let ghost rest = field.skip(pos - from);
            let ghost before = mask;
            assert(rest =~= chars@.subrange(pos as int, to as int));
            match find_char(chars, pos, to, ',') {
                Some(comma) => {
                    assert(rest.take(comma - pos) =~= expr@.subrange(pos as int, comma as int));
                    assert(rest.skip(comma - pos + 1) =~= field.skip(comma + 1 - from));
                    match apply_part(expr, chars, pos, comma, lo, hi, &mut mask) {
                        Ok(()) => {},
                        Err(e) => {
                            return Err(e);
                        },
                    }
                    assert forall|v: int| #[trigger]
                        field_allows(field, lo as nat, hi as nat, v) <==> (mask_has(mask, v)
                            || field_allows(
                            field.skip(comma + 1 - from),
                            lo as nat,
                            hi as nat,
                            v,
                        )) by {
                        assert(mask_has(mask, v) <==> (part_allows(
                            rest.take(comma - pos),
                            lo as nat,
                            hi as nat,
                            v,
                        ) || mask_has(before, v)));
                    }
                    pos = comma + 1;
                },
                None => {
                    assert(rest =~= expr@.subrange(pos as int, to as int));
                    match apply_part(expr, chars, pos, to, lo, hi, &mut mask) {
                        Ok(()) => {},
                        Err(e) => {
                            return Err(e);
                        },
                    }
                    assert forall|v: int| #[trigger]
                        mask_has(mask, v) <==> field_allows(field, lo as nat, hi as nat, v) by {
                        assert(mask_has(mask, v) <==> (part_allows(rest, lo as nat, hi as nat, v)
                            || mask_has(before, v)));
                    }
                    return Ok(mask);
                },
            }
        }
    }

    /// Compiles a cron expression: five whitespace-separated fields for
    /// minute, hour, day of month, month and day of week. Each field is a
    /// comma-separated list of `*`, `*/step`, `a-b` or a single value.
    pub fn parse(&self, expr: &str) -> (r: Result<CronSchedule, String>)
        ensures
            match expr_error(expr@) {
                Some(e) => r is Err && r->Err_0@ == e.message(),
                None => r is Ok && compiles_to(expr@, r->Ok_0) && r->Ok_0 == compiled(expr@),
            },
    {
        proof {
            use_type_invariant(self);
            reveal_with_fuel(fields_error, 6);
        }
        let chars = chars_of(expr);
        let spans = split_fields(chars.as_slice());
        let ghost fields = words(expr@);
        if spans.len() != 5 {
            let mut m = String::from_str("Expected 5 fields in cron expression, got: ");
            m.append(decimal_string(spans.len() as u64).as_str());
            return Err(m);
        }
        assert(forall|k: int| 0 <= k < 5 ==> fields[k] == #[trigger] span_texts(expr@, spans@)[k]);
        let minute = match self.parse_field(
            expr,
            chars.as_slice(),
            spans[0].0,
            spans[0].1,
            self.field_ranges[0],
        ) {
            Ok(mask) => mask,
            Err(e) => {
                return Err(e);
            },
        };
        let hour = match self.parse_field(
            expr,
            chars.as_slice(),
            spans[1].0,
            spans[1].1,
            self.field_ranges[1],
        ) {
            Ok(mask) => mask,
            Err(e) => {
                return Err(e);
            },
        };
        let day = match self.parse_field(
            expr,
            chars.as_slice(),
            spans[2].0,
            spans[2].1,
            self.field_ranges[2],
        ) {
            Ok(mask) => mask,
            Err(e) => {
                return Err(e);
            },
        };
        let month = match self.parse_field(
            expr,
            chars.as_slice(),
            spans[3].0,
            spans[3].1,
            self.field_ranges[3],
        ) {
            Ok(mask) => mask,
            Err(e) => {
                return Err(e);
            },
        };
        let weekday = match self.parse_field(
            expr,
            chars.as_slice(),
            spans[4].0,
            spans[4].1,
            self.field_ranges[4],
        ) {
            Ok(mask) => mask,
            Err(e) => {
                return Err(e);
            },
        };
        proof {
            lemma_narrow(hour, 23);
            lemma_narrow(day, 31);
            lemma_narrow(month, 12);
            lemma_narrow(weekday, 6);
        }
        let schedule = CronSchedule {
            minute,
            hour: hour as u32,
            day: day as u32,
            month: month as u16,
            weekday: weekday as u8,
        };
        proof {
            lemma_compiled_unique(expr@, schedule);
        }
        Ok(schedule)
    }
}

/// A mask without bits above bit `hi` fits the integer type of its field.
proof fn lemma_narrow(mask: u64, hi: u64)
    by (bit_vector)
    requires
        hi <= 31,
        mask < (1u64 << (hi + 1)),
    ensures
        hi <= 6 ==> mask <= 0xFF,
        hi <= 12 ==> mask <= 0xFFFF,
        mask <= 0xFFFF_FFFF,
{
}

/// The values that a field matches.
pub open spec fn field_values(field: Seq<char>, lo: nat, hi: nat) -> Set<int> {
    Set::new(|v: int| field_allows(field, lo, hi, v))
}

/// A well-formed part matches only values of its field, and at least one.
pub proof fn lemma_part_matches(part: Seq<char>, lo: nat, hi: nat)
    requires
        lo <= hi,
        parse_part(part, lo, hi) is Ok,
    ensures
        forall|v: int| #[trigger] part_allows(part, lo, hi, v) ==> lo <= v <= hi,
        exists|v: int| lo <= v <= hi && part_allows(part, lo, hi, v),
{
    match parse_part(part, lo, hi)->Ok_0 {
        Part::All => {
            assert(part_allows(part, lo, hi, lo as int));
        },
        Part::Step(step) => {
            assert(0int % (step as int) == 0) by (nonlinear_arith)
                requires
                    step > 0,
            ;
            assert(part_allows(part, lo, hi, lo as int));
        },
        Part::Range(a, b) => {
            assert(part_allows(part, lo, hi, a as int));
        },
        Part::Value(x) => {
            assert(part_allows(part, lo, hi, x as int));
        },
    }
}

/// A field without error matches only values between `lo` and `hi`, and at
/// least one of them: no schedule compiles to an empty mask.
pub proof fn lemma_field_matches(field: Seq<char>, lo: nat, hi: nat)
    requires
        lo <= hi,
        field_error(field, lo, hi) is None,
    ensures
        forall|v: int| #[trigger] field_allows(field, lo, hi, v) ==> lo <= v <= hi,
        exists|v: int| lo <= v <= hi && field_allows(field, lo, hi, v),
    decreases field.len(),
{
    let comma = position(field, ',');
    if comma < 0 || comma >= field.len() {
        lemma_part_matches(field, lo, hi);
        let v = choose|v: int| lo <= v <= hi && part_allows(field, lo, hi, v);
        assert(field_allows(field, lo, hi, v));
    } else {
        lemma_part_matches(field.take(comma), lo, hi);
        lemma_field_matches(field.skip(comma + 1), lo, hi);
        let v = choose|v: int| lo <= v <= hi && part_allows(field.take(comma), lo, hi, v);
        assert(field_allows(field, lo, hi, v));
    }
    assert forall|v: int| #[trigger] field_allows(field, lo, hi, v) implies lo <= v <= hi by {
        if comma < 0 || comma >= field.len() {
            assert(part_allows(field, lo, hi, v));
        } else {
            if part_allows(field.take(comma), lo, hi, v) {
            } else {
                assert(field_allows(field.skip(comma + 1), lo, hi, v));
            }
        }
    }
}

/// A field that is the single part `*` matches every value of its range, so
/// its mask has `hi - lo + 1` bits set.
pub proof fn lemma_wildcard_field(lo: nat, hi: nat)
    requires
        lo <= hi,
    ensures
        field_error(seq!['*'], lo, hi) is None,
        field_values(seq!['*'], lo, hi) == set_int_range(lo as int, hi as int + 1),
        field_values(seq!['*'], lo, hi).finite(),
        field_values(seq!['*'], lo, hi).len() == hi - lo + 1,
{
    let star = seq!['*'];
    lemma_position(star, ',', 1);
    assert(parse_part(star, lo, hi) == Ok::<Part, CronError>(Part::All));
    assert(field_values(star, lo, hi) =~= set_int_range(lo as int, hi as int + 1));
    lemma_int_range(lo as int, hi as int + 1);
}

/// An expression whose five fields are all `*` compiles, and each mask of
/// the schedule has exactly as many bits set as its field has values.
pub proof fn lemma_wildcard_schedule(expr: Seq<char>, schedule: CronSchedule)
    requires
        words(expr).len() == 5,
        forall|k: int| 0 <= k < 5 ==> #[trigger] words(expr)[k] == seq!['*'],
        compiles_to(expr, schedule),
    ensures
        expr_error(expr) is None,
        mask_values(schedule.minute).len() == 60,
        mask_values(schedule.hour as u64).len() == 24,
        mask_values(schedule.day as u64).len() == 31,
        mask_values(schedule.month as u64).len() == 12,
        mask_values(schedule.weekday as u64).len() == 7,
{
    let fields = words(expr);
    reveal_with_fuel(fields_error, 6);
    lemma_wildcard_field(0, 59);
    lemma_wildcard_field(0, 23);
    lemma_wildcard_field(1, 31);
    lemma_wildcard_field(1, 12);
    lemma_wildcard_field(0, 6);
    assert(fields[0] == seq!['*'] && fields[1] == seq!['*'] && fields[2] == seq!['*'] && fields[3]
        == seq!['*'] && fields[4] == seq!['*']);
    assert(mask_values(schedule.minute) =~= field_values(fields[0], 0, 59)) by {
        assert forall|v: int| mask_has(schedule.minute, v) == field_allows(fields[0], 0, 59, v) by {
            assert(schedule.has_minute(v) == mask_has(schedule.minute, v));
        }
    }
    assert(mask_values(schedule.hour as u64) =~= field_values(fields[1], 0, 23)) by {
        assert forall|v: int|
            mask_has(schedule.hour as u64, v) == field_allows(fields[1], 0, 23, v) by {
            assert(schedule.has_hour(v) == mask_has(schedule.hour as u64, v));
        }
    }
    assert(mask_values(schedule.day as u64) =~= field_values(fields[2], 1, 31)) by {
        assert forall|v: int|
            mask_has(schedule.day as u64, v) == field_allows(fields[2], 1, 31, v) by {
            assert(schedule.has_day(v) == mask_has(schedule.day as u64, v));
        }
    }
    assert(mask_values(schedule.month as u64) =~= field_values(fields[3], 1, 12)) by {
        assert forall|v: int|
            mask_has(schedule.month as u64, v) == field_allows(fields[3], 1, 12, v) by {
            assert(schedule.has_month(v) == mask_has(schedule.month as u64, v));
        }
    }
    assert(mask_values(schedule.weekday as u64) =~= field_values(fields[4], 0, 6)) by {
        assert forall|v: int|
            mask_has(schedule.weekday as u64, v) == field_allows(fields[4], 0, 6, v) by {
            assert(schedule.has_weekday(v) == mask_has(schedule.weekday as u64, v));
        }
    }
}

/// The text of two fields joined by a comma.
pub open spec fn comma_joined(a: Seq<char>, b: Seq<char>) -> Seq<char> {
    a + seq![','] + b
}

/// A comma-joined field reports the first error of its two sides, and
/// matches a value exactly where one of the sides does.
pub proof fn lemma_comma_joined(a: Seq<char>, b: Seq<char>, lo: nat, hi: nat)
    ensures
        field_error(comma_joined(a, b), lo, hi) == match field_error(a, lo, hi) {
            Some(e) => Some(e),
            None => field_error(b, lo, hi),
        },
        forall|v: int| #[trigger]
            field_allows(comma_joined(a, b), lo, hi, v) <==> (field_allows(a, lo, hi, v)
                || field_allows(b, lo, hi, v)),
    decreases a.len(),
{
    let whole = comma_joined(a, b);
    let comma = position(a, ',');
    lemma_position_bounds(a, ',');
    if comma >= a.len() {
        lemma_position(whole, ',', a.len() as int);
        assert(whole.take(a.len() as int) =~= a);
        assert(whole.skip(a.len() as int + 1) =~= b);
    } else {
        lemma_position(whole, ',', comma);
        assert(whole.take(comma) =~= a.take(comma));
        assert(whole.skip(comma + 1) =~= comma_joined(a.skip(comma + 1), b));
        lemma_comma_joined(a.skip(comma + 1), b, lo, hi);
    }
    assert forall|v: int| #[trigger]
        field_allows(whole, lo, hi, v) <==> (field_allows(a, lo, hi, v) || field_allows(
            b,
            lo,
            hi,
            v,
        )) by {
        if comma >= a.len() {
        } else {
            let rest = a.skip(comma + 1);
            assert(field_allows(comma_joined(rest, b), lo, hi, v) <==> (field_allows(
                rest,
                lo,
                hi,
                v,
            ) || field_allows(b, lo, hi, v)));
        }
    }
}

/// The values of a comma-joined field are the union of the values of its
/// two sides.
pub proof fn lemma_comma_union(a: Seq<char>, b: Seq<char>, lo: nat, hi: nat)
    ensures
        field_values(comma_joined(a, b), lo, hi) == field_values(a, lo, hi).union(
            field_values(b, lo, hi),
        ),
{
    lemma_comma_joined(a, b, lo, hi);
    assert(field_values(comma_joined(a, b), lo, hi) =~= field_values(a, lo, hi).union(
        field_values(b, lo, hi),
    ));
}

proof fn lemma_or_bit(a: u64, b: u64, v: u64)
    by (bit_vector)
    requires
        v < 64,
    ensures
        (((a | b) >> v) & 1 == 1) <==> ((a >> v) & 1 == 1 || (b >> v) & 1 == 1),
{
}

/// The mask compiled from a comma-joined field has the bits of the masks
/// compiled from its two sides, and no others.
pub proof fn lemma_comma_masks(
    a: Seq<char>,
    b: Seq<char>,
    lo: nat,
    hi: nat,
    mask_a: u64,
    mask_b: u64,
    mask_joined: u64,
)
    requires
        mask_values(mask_a) == field_values(a, lo, hi),
        mask_values(mask_b) == field_values(b, lo, hi),
        mask_values(mask_joined) == field_values(comma_joined(a, b), lo, hi),
    ensures
        mask_values(mask_joined) == mask_values(mask_a | mask_b),
{
    lemma_comma_union(a, b, lo, hi);
    assert forall|v: int| mask_has(mask_a | mask_b, v) <==> (mask_has(mask_a, v) || mask_has(
        mask_b,
        v,
    )) by {
        if 0 <= v < 64 {
            lemma_or_bit(mask_a, mask_b, v as u64);
        }
    }
    assert(mask_values(mask_a | mask_b) =~= mask_values(mask_a).union(mask_values(mask_b)));
}

} // verus!
