//! The numbers that a comparison accepts.
//!
//! Numbers may be written with a fraction and a unit. Here each stands for its key, an integer that
//! orders as the number does; the host says which.
use crate::query::atoms::{NumberRequest, Operand, OperandView};
use crate::query::lexer;
use crate::query::options;
use crate::query::options::numeric_property;
use crate::text;
use crate::text::{byte_count, chars_of, joined, lower_ascii, same_text, split_once, text_of};
use vstd::prelude::*;

verus! {

/// A text without the white space at its start.
pub open spec fn without_start(written: Seq<char>) -> Seq<char>
    decreases written.len(),
{
    if written.len() > 0 && lexer::white_space(written[0]) {
        without_start(written.drop_first())
    } else {
        written
    }
}

/// A text without the white space at its end.
pub open spec fn without_end(written: Seq<char>) -> Seq<char>
    decreases written.len(),
{
    if written.len() > 0 && lexer::white_space(written.last()) {
        without_end(written.drop_last())
    } else {
        written
    }
}

/// Where the first letter of the alphabet stands, or the end.
pub open spec fn letter_at(written: Seq<char>) -> int
    decreases written.len(),
{
    if written.len() == 0 || is_letter(written[0]) {
        0
    } else {
        1 + letter_at(written.drop_first())
    }
}

pub open spec fn is_letter(c: char) -> bool {
    'a' <= c <= 'z' || 'A' <= c <= 'Z'
}

/// The power of 1024 that a unit stands for.
pub open spec fn unit_power(unit: Seq<char>) -> Option<u32> {
    if unit == ""@ || unit == "b"@ {
        Some(0)
    } else if unit == "k"@ || unit == "kb"@ || unit == "kib"@ {
        Some(1)
    } else if unit == "m"@ || unit == "mb"@ || unit == "mib"@ {
        Some(2)
    } else if unit == "g"@ || unit == "gb"@ || unit == "gib"@ {
        Some(3)
    } else if unit == "t"@ || unit == "tb"@ || unit == "tib"@ {
        Some(4)
    } else {
        None
    }
}

proof fn lemma_letter_at(written: Seq<char>, count: int)
    requires
        0 <= count <= written.len(),
        forall|i: int| 0 <= i < count ==> !is_letter(#[trigger] written[i]),
    ensures
        letter_at(written) == count + letter_at(written.skip(count)),
    decreases count,
{
    if count == 0 {
        assert(written.skip(0) =~= written);
    } else {
        let rest = written.drop_first();
        assert forall|i: int| 0 <= i < count - 1 implies !is_letter(#[trigger] rest[i]) by {
            assert(rest[i] == written[i + 1]);
        }
        lemma_letter_at(rest, count - 1);
        assert(rest.skip(count - 1) =~= written.skip(count));
    }
}

fn find_letter(chars: &Vec<char>) -> (at: usize)
    ensures
        at == letter_at(chars@),
        at <= chars@.len(),
{
    let mut at: usize = 0;
    while at < chars.len()
        invariant
            at <= chars@.len(),
            forall|i: int| 0 <= i < at ==> !is_letter(#[trigger] chars@[i]),
        decreases chars@.len() - at,
    {
        let c = chars[at];
        if 'a' <= c && c <= 'z' || 'A' <= c && c <= 'Z' {
            proof {
                lemma_letter_at(chars@, at as int);
                assert(chars@.skip(at as int)[0] == c);
            }
            return at;
        }
        at = at + 1;
    }
    proof {
        lemma_letter_at(chars@, at as int);
    }
    at
}

fn trim(written: &str) -> (bare: String)
    ensures
        bare@ == without_end(without_start(written@)),
{
    let chars = chars_of(written);
    let mut start: usize = 0;
    assert(chars@.skip(0) =~= chars@);
    while start < chars.len() && chars[start].is_whitespace()
        invariant
            start <= chars@.len(),
            without_start(chars@) == without_start(chars@.skip(start as int)),
        decreases chars@.len() - start,
    {
        let ghost rest = chars@.skip(start as int);
        assert(rest[0] == chars@[start as int]);
        assert(rest.drop_first() =~= chars@.skip(start + 1));
        start = start + 1;
    }
    let ghost front = chars@.skip(start as int);
    assert(front == without_start(chars@)) by {
        if front.len() > 0 {
            assert(front[0] == chars@[start as int]);
        }
    }
    let mut end: usize = chars.len();
    assert(chars@.subrange(start as int, end as int) =~= front);
    while end > start && chars[end - 1].is_whitespace()
        invariant
            start <= end <= chars@.len(),
            without_end(front) == without_end(chars@.subrange(start as int, end as int)),
        decreases end,
    {
        let ghost part = chars@.subrange(start as int, end as int);
        assert(part.last() == chars@[end - 1]);
        assert(part.drop_last() =~= chars@.subrange(start as int, end - 1));
        end = end - 1;
    }
    proof {
        let part = chars@.subrange(start as int, end as int);
        if part.len() > 0 {
            assert(part.last() == chars@[end - 1]);
        }
    }
    text_of(&chars, start, end)
}

fn power_of(unit: &str) -> (power: Option<u32>)
    ensures
        power == unit_power(unit@),
{
    if same_text(unit, "") || same_text(unit, "b") {
        Some(0)
    } else if same_text(unit, "k") || same_text(unit, "kb") || same_text(unit, "kib") {
        Some(1)
    } else if same_text(unit, "m") || same_text(unit, "mb") || same_text(unit, "mib") {
        Some(2)
    } else if same_text(unit, "g") || same_text(unit, "gb") || same_text(unit, "gib") {
        Some(3)
    } else if same_text(unit, "t") || same_text(unit, "tb") || same_text(unit, "tib") {
        Some(4)
    } else {
        None
    }
}

/// A number as it is written.
#[derive(Debug)]
pub struct Written {
    pub digits: String,
    /// The power of 1024 that its unit stands for, if the unit is known.
    pub power: Option<u32>,
}

/// The digits and the unit of a written number: what stands before the first letter, and the rest.
pub fn written_number(text: &str) -> (written: Written)
    ensures
        ({
            let low = text::lower(without_end(without_start(text@)));
            &&& written.digits@ == low.take(letter_at(low))
            &&& written.power == unit_power(low.skip(letter_at(low)))
        }),
{
    let bare = trim(text);
    let low = lower_ascii(bare.as_str());
    let chars = chars_of(low.as_str());
    let at = find_letter(&chars);
    let digits = text_of(&chars, 0, at);
    let unit = text_of(&chars, at, chars.len());
    assert(digits@ =~= low@.take(at as int));
    assert(unit@ =~= low@.skip(at as int));
    Written { digits, power: power_of(unit.as_str()) }
}

/// How exactly a number is written.
#[derive(Debug)]
pub struct Precision {
    /// How many decimals it has.
    pub decimals: usize,
    /// One of its unit, if it has one.
    pub unit: Option<String>,
}

/// The decimals of a number: what stands behind its first point, up to its unit.
pub open spec fn decimals_of(digits: Seq<char>) -> nat {
    let at = text::first_at(digits, '.');
    if at < digits.len() {
        text::bytes_of(digits.skip(at + 1)).len()
    } else {
        0
    }
}

/// The decimals and the unit of a written number. It reaches as far as one in its last decimal.
pub fn written_precision(text: &str) -> (precision: Precision)
    ensures
        ({
            let low = text::lower(text@);
            let at = letter_at(low);
            &&& precision.decimals == decimals_of(low.take(at))
            &&& match precision.unit {
                Some(one) => at < low.len() && one@ == "1"@ + low.skip(at),
                None => at == low.len(),
            }
        }),
{
    let low = lower_ascii(text);
    let chars = chars_of(low.as_str());
    let at = find_letter(&chars);
    let digits = text_of(&chars, 0, at);
    assert(digits@ =~= low@.take(at as int));
    let decimals: usize = match split_once(digits.as_str(), '.') {
        Some((_, behind)) => byte_count(behind.as_str()),
        None => 0,
    };
    let unit = if at < chars.len() {
        let rest = text_of(&chars, at, chars.len());
        assert(rest@ =~= low@.skip(at as int));
        Some(joined("1", rest.as_str()))
    } else {
        None
    };
    Precision { decimals, unit }
}

/// Keys are found as by a function of the text.
pub open spec fn keys_as<V: Fn(&str) -> Result<i64, String>>(
    ask: V,
    answer: spec_fn(Seq<char>) -> Result<i64, Seq<char>>,
) -> bool {
    forall|written: &str, said: Result<i64, String>| #[trigger]
        call_ensures(ask, (written,), said) ==> (match said {
            Ok(found) => answer(written@) == Ok::<i64, Seq<char>>(found),
            Err(reason) => answer(written@) == Err::<i64, Seq<char>>(reason@),
        })
}

/// Whole numbers are ranked as by a function.
pub open spec fn keyed_as<K: Fn(i128) -> i64>(ask: K, keyed: spec_fn(int) -> int) -> bool {
    forall|number: i128, key: i64| #[trigger]
        call_ensures(ask, (number,), key) ==> keyed(number as int) == key
}

/// A greater number has no smaller key.
pub open spec fn nondecreasing(keyed: spec_fn(int) -> int) -> bool {
    forall|a: int, b: int| a <= b ==> #[trigger] keyed(a) <= #[trigger] keyed(b)
}

/// The keys between which a comparison accepts numbers, and whether it accepts those themselves.
#[derive(Clone, Copy, Debug, PartialEq, Eq, Structural)]
pub struct KeyBounds {
    pub low: i128,
    pub high: i128,
    pub include_low: bool,
    pub include_high: bool,
}

impl KeyBounds {
    pub open spec fn above_lower(self, key: int) -> bool {
        key > self.low || self.include_low && key == self.low
    }

    pub open spec fn below_upper(self, key: int) -> bool {
        key < self.high || self.include_high && key == self.high
    }

    /// A number with this key is accepted.
    pub open spec fn accepts(self, key: int) -> bool {
        self.above_lower(key) && self.below_upper(key)
    }
}

/// Bounds that are in order.
pub open spec fn bounded(
    low: int,
    high: int,
    include_low: bool,
    include_high: bool,
) -> Result<KeyBounds, Seq<char>> {
    if low > high {
        Err("Range lower bound exceeds upper bound"@)
    } else {
        Ok(KeyBounds { low: low as i128, high: high as i128, include_low, include_high })
    }
}

/// The bounds of a comparison. A number that is written plainly reaches up to the next one with as
/// many decimals.
pub open spec fn bounds_of(
    operand: OperandView,
    value: spec_fn(Seq<char>) -> Result<i64, Seq<char>>,
    reach: spec_fn(Seq<char>) -> Result<i64, Seq<char>>,
) -> Result<KeyBounds, Seq<char>> {
    match operand {
        OperandView::Between(a, b) => match (value(a), value(b)) {
            (Err(reason), _) => Err(reason),
            (_, Err(reason)) => Err(reason),
            (Ok(low), Ok(high)) => bounded(low as int, high as int, true, true),
        },
        OperandView::AtLeast(v) => match value(v) {
            Ok(key) => bounded(key as int, i128::MAX as int, true, true),
            Err(reason) => Err(reason),
        },
        OperandView::AtMost(v) => match value(v) {
            Ok(key) => bounded(i128::MIN as int, key as int, true, true),
            Err(reason) => Err(reason),
        },
        OperandView::Above(v) => match value(v) {
            Ok(key) => bounded(key as int, i128::MAX as int, false, true),
            Err(reason) => Err(reason),
        },
        OperandView::Below(v) => match value(v) {
            Ok(key) => bounded(i128::MIN as int, key as int, true, false),
            Err(reason) => Err(reason),
        },
        OperandView::Exactly(v) => match value(v) {
            Ok(key) => bounded(key as int, key as int, true, true),
            Err(reason) => Err(reason),
        },
        OperandView::Plain(v) => match (value(v), reach(v)) {
            (Err(reason), _) => Err(reason),
            (_, Err(reason)) => Err(reason),
            (Ok(low), Ok(high)) => bounded(low as int, high as int, true, false),
        },
    }
}

/// The bounds of a comparison are in order, and a number that is asked for with `=` is its own
/// bound on both sides.
pub proof fn law_number_bounds_are_in_order(
    operand: OperandView,
    value: spec_fn(Seq<char>) -> Result<i64, Seq<char>>,
    reach: spec_fn(Seq<char>) -> Result<i64, Seq<char>>,
)
    requires
        bounds_of(operand, value, reach) is Ok,
    ensures
        ({
            let bounds = bounds_of(operand, value, reach)->Ok_0;
            &&& bounds.low <= bounds.high
            &&& operand matches OperandView::Exactly(written) ==> value(written) == Ok::<
                i64,
                Seq<char>,
            >(bounds.low as i64) && bounds.low == bounds.high && bounds.include_low
                && bounds.include_high
        }),
{
}

/// Executed bounds are the specified ones.
pub open spec fn bounds_agree(
    result: Result<KeyBounds, String>,
    expected: Result<KeyBounds, Seq<char>>,
) -> bool {
    match expected {
        Ok(bounds) => result == Ok::<KeyBounds, String>(bounds),
        Err(reason) => result matches Err(said) && said@ == reason,
    }
}

/// An open end is a key.
spec fn ends_fit(bounds: KeyBounds) -> bool {
    &&& !bounds.include_low ==> bounds.low <= i64::MAX
    &&& !bounds.include_high ==> bounds.high >= i64::MIN
}

fn ordered(low: i128, high: i128, include_low: bool, include_high: bool) -> (result: Result<
    KeyBounds,
    String,
>)
    ensures
        bounds_agree(result, bounded(low as int, high as int, include_low, include_high)),
{
    if low > high {
        return Err("Range lower bound exceeds upper bound".to_owned());
    }
    Ok(KeyBounds { low, high, include_low, include_high })
}

fn find_bounds<V: Fn(&str) -> Result<i64, String>, R: Fn(&str) -> Result<i64, String>>(
    operand: &Operand,
    value: &V,
    reach: &R,
) -> (result: Result<KeyBounds, String>)
    requires
        forall|written: &str| #[trigger] call_requires(*value, (written,)),
        forall|written: &str| #[trigger] call_requires(*reach, (written,)),
    ensures
        forall|
            v: spec_fn(Seq<char>) -> Result<i64, Seq<char>>,
            r: spec_fn(Seq<char>) -> Result<i64, Seq<char>>,
        | #[trigger]
            keys_as(*value, v) && #[trigger] keys_as(*reach, r) ==> bounds_agree(
                result,
                bounds_of(operand@, v, r),
            ),
        result matches Ok(bounds) ==> ends_fit(bounds),
{
    let first = match operand {
        Operand::Between(low, _) => value(low.as_str()),
        Operand::AtLeast(written) => value(written.as_str()),
        Operand::AtMost(written) => value(written.as_str()),
        Operand::Above(written) => value(written.as_str()),
        Operand::Below(written) => value(written.as_str()),
        Operand::Exactly(written) => value(written.as_str()),
        Operand::Plain(written) => value(written.as_str()),
    };
    let key = match first {
        Ok(key) => key as i128,
        Err(reason) => {
            return Err(reason);
        },
    };
    match operand {
        Operand::Between(_, high) => match value(high.as_str()) {
            Ok(high) => ordered(key, high as i128, true, true),
            Err(reason) => Err(reason),
        },
        Operand::AtLeast(_) => ordered(key, i128::MAX, true, true),
        Operand::AtMost(_) => ordered(i128::MIN, key, true, true),
        Operand::Above(_) => ordered(key, i128::MAX, false, true),
        Operand::Below(_) => ordered(i128::MIN, key, true, false),
        Operand::Exactly(_) => ordered(key, key, true, true),
        Operand::Plain(written) => match reach(written.as_str()) {
            Ok(end) => ordered(key, end as i128, true, false),
            Err(reason) => Err(reason),
        },
    }
}

/// A whole number that a row may hold.
pub open spec fn is_whole(number: int) -> bool {
    i64::MIN <= number <= u64::MAX
}

/// A range of keys holds exactly those that are accepted.
pub open spec fn spans_keys(span: (i128, i128), bounds: KeyBounds) -> bool {
    forall|key: i64|
        (span.0 <= key && key <= span.1) == #[trigger] bounds.accepts(key as int)
}

/// A range of whole numbers holds exactly those whose keys are accepted.
pub open spec fn spans_whole(
    span: (i128, i128),
    bounds: KeyBounds,
    keyed: spec_fn(int) -> int,
) -> bool {
    forall|number: int|
        is_whole(number) ==> (span.0 <= number && number <= span.1) == bounds.accepts(
            #[trigger] keyed(number),
        )
}

/// A key is past the lower bound, or past the upper one.
spec fn passes(bounds: KeyBounds, upper: bool, key: int) -> bool {
    if upper {
        !bounds.below_upper(key)
    } else {
        bounds.above_lower(key)
    }
}

fn has_passed(bounds: &KeyBounds, upper: bool, key: i64) -> (yes: bool)
    ensures
        yes == passes(*bounds, upper, key as int),
{
    let key = key as i128;
    if upper {
        !(key < bounds.high || bounds.include_high && key == bounds.high)
    } else {
        key > bounds.low || bounds.include_low && key == bounds.low
    }
}

/// Up to `low` no number has passed a bound, and from `high` on each has.
spec fn passed_between(
    bounds: KeyBounds,
    upper: bool,
    keyed: spec_fn(int) -> int,
    low: int,
    high: int,
) -> bool {
    &&& forall|n: int| is_whole(n) && n < low ==> !passes(bounds, upper, #[trigger] keyed(n))
    &&& forall|n: int| is_whole(n) && n >= high ==> passes(bounds, upper, #[trigger] keyed(n))
}

/// The first whole number that passes a bound, or the one behind all.
fn first_past<K: Fn(i128) -> i64>(bounds: &KeyBounds, upper: bool, keyed: &K) -> (first: i128)
    requires
        forall|number: i128| is_whole(number as int) ==> #[trigger] call_requires(*keyed, (number,)),
    ensures
        i64::MIN <= first <= u64::MAX + 1,
        forall|k: spec_fn(int) -> int| #[trigger]
            keyed_as(*keyed, k) && nondecreasing(k) ==> passed_between(
                *bounds,
                upper,
                k,
                first as int,
                first as int,
            ),
{
    let mut low: i128 = i64::MIN as i128;
    let mut high: i128 = u64::MAX as i128 + 1;
    while low < high
        invariant
            i64::MIN <= low <= high <= u64::MAX + 1,
            forall|number: i128|
                is_whole(number as int) ==> #[trigger] call_requires(*keyed, (number,)),
            forall|k: spec_fn(int) -> int| #[trigger]
                keyed_as(*keyed, k) && nondecreasing(k) ==> passed_between(
                    *bounds,
                    upper,
                    k,
                    low as int,
                    high as int,
                ),
        decreases high - low,
    {
        let middle: i128 = low + (high - low) / 2;
        let key = keyed(middle);
        let ghost (least, most) = (low as int, high as int);
        if has_passed(bounds, upper, key) {
            proof {
                assert forall|k: spec_fn(int) -> int| #[trigger] keyed_as(*keyed, k)
                    && nondecreasing(k) implies passed_between(
                    *bounds,
                    upper,
                    k,
                    least,
                    middle as int,
                ) by {
                    assert(k(middle as int) == key);
                    assert(passed_between(*bounds, upper, k, least, most));
                    assert forall|n: int| is_whole(n) && n >= middle implies passes(
                        *bounds,
                        upper,
                        #[trigger] k(n),
                    ) by {
                        assert(k(middle as int) <= k(n));
                    }
                }
            }
            high = middle;
        } else {
            proof {
                assert forall|k: spec_fn(int) -> int| #[trigger] keyed_as(*keyed, k)
                    && nondecreasing(k) implies passed_between(
                    *bounds,
                    upper,
                    k,
                    middle + 1,
                    most,
                ) by {
                    assert(k(middle as int) == key);
                    assert(passed_between(*bounds, upper, k, least, most));
                    assert forall|n: int| is_whole(n) && n < middle + 1 implies !passes(
                        *bounds,
                        upper,
                        #[trigger] k(n),
                    ) by {
                        assert(k(n) <= k(middle as int));
                    }
                }
            }
            low = middle + 1;
        }
    }
    low
}

/// The range that a comparison with a number accepts: of keys, where the field holds numbers that
/// may have a fraction, and else of whole numbers. `value` gives the key of a written number,
/// `reach` that of the end of a number that is written plainly, and `keyed` that of a whole number.
pub fn number_span<
    V: Fn(&str) -> Result<i64, String>,
    R: Fn(&str) -> Result<i64, String>,
    K: Fn(i128) -> i64,
>(request: &NumberRequest, value: &V, reach: &R, keyed: &K) -> (result: Result<
    (i128, i128),
    String,
>)
    requires
        forall|written: &str| #[trigger] call_requires(*value, (written,)),
        forall|written: &str| #[trigger] call_requires(*reach, (written,)),
        forall|number: i128| is_whole(number as int) ==> #[trigger] call_requires(*keyed, (number,)),
    ensures
        forall|
            v: spec_fn(Seq<char>) -> Result<i64, Seq<char>>,
            r: spec_fn(Seq<char>) -> Result<i64, Seq<char>>,
            k: spec_fn(int) -> int,
        | #[trigger]
            keys_as(*value, v) && #[trigger] keys_as(*reach, r) && #[trigger] keyed_as(*keyed, k)
                && nondecreasing(k) ==> (match bounds_of(request@.operand, v, r) {
                Ok(bounds) => result matches Ok(span) && if options::is_numeric_property(
                    request@.field,
                ) {
                    spans_keys(span, bounds)
                } else {
                    spans_whole(span, bounds, k)
                },
                Err(reason) => result matches Err(said) && said@ == reason,
            }),
{
    let bounds = match find_bounds(&request.operand, value, reach) {
        Ok(bounds) => bounds,
        Err(reason) => {
            return Err(reason);
        },
    };
    if numeric_property(request.field.as_str()) {
        let low: i128 = if bounds.include_low {
            bounds.low
        } else {
            bounds.low + 1
        };
        let high: i128 = if bounds.include_high {
            bounds.high
        } else {
            bounds.high - 1
        };
        assert(spans_keys((low, high), bounds));
        return Ok((low, high));
    }
    let low = first_past(&bounds, false, keyed);
    let high = first_past(&bounds, true, keyed) - 1;
    proof {
        assert forall|k: spec_fn(int) -> int| #[trigger] keyed_as(*keyed, k) && nondecreasing(
            k,
        ) implies spans_whole((low, high), bounds, k) by {
            assert(passed_between(bounds, false, k, low as int, low as int));
            assert(passed_between(bounds, true, k, high + 1, high + 1));
            assert forall|number: int| is_whole(number) implies (low <= number && number <= high)
                == bounds.accepts(#[trigger] k(number)) by {}
        }
    }
    Ok((low, high))
}

} // verus!
