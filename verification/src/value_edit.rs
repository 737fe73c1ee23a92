//! Numeric text-field editing state.
//!
//! An integer content slot edited through a text field keeps the last valid
//! value, the text as typed, and whether the text currently matches the
//! value. The decimal printing and parsing the field relies on is defined and
//! verified here.

use vstd::prelude::*;
use vstd::string::StrSliceExecFns;
use vstd::string::StringExecFns;

verus! {

/// The decimal digit characters.
pub open spec fn digit_char(d: int) -> char {
    if d == 0 {
        '0'
    } else if d == 1 {
        '1'
    } else if d == 2 {
        '2'
    } else if d == 3 {
        '3'
    } else if d == 4 {
        '4'
    } else if d == 5 {
        '5'
    } else if d == 6 {
        '6'
    } else if d == 7 {
        '7'
    } else if d == 8 {
        '8'
    } else {
        '9'
    }
}

/// The decimal digits of `n`, most significant first, no leading zeros.
pub open spec fn dec_digits(n: nat) -> Seq<char>
    decreases n,
{
    if n < 10 {
        seq![digit_char(n as int)]
    } else {
        dec_digits(n / 10) + seq![digit_char((n % 10) as int)]
    }
}

/// The decimal rendering of `v`: a minus sign for negative values, then the
/// digits of the magnitude.
pub open spec fn i64_str(v: int) -> Seq<char> {
    if v < 0 {
        seq!['-'] + dec_digits((-v) as nat)
    } else {
        dec_digits(v as nat)
    }
}

pub open spec fn is_digit(c: char) -> bool {
    48 <= c as u32 <= 57
}

pub open spec fn digit_val(c: char) -> int {
    c as u32 - 48
}

/// The value of a digit string, most significant first.
pub open spec fn digits_val(s: Seq<char>) -> int
    decreases s.len(),
{
    if s.len() == 0 {
        0
    } else {
        digits_val(s.drop_last()) * 10 + digit_val(s.last())
    }
}

pub open spec fn all_digits(s: Seq<char>) -> bool {
    forall|i: int| 0 <= i < s.len() ==> is_digit(#[trigger] s[i])
}

/// What parsing a decimal integer accepts: an optional sign followed by at
/// least one digit, denoting a value that fits the 64-bit signed range.
pub open spec fn parse_i64_spec(s: Seq<char>) -> Option<int> {
    let sign: int = if s.len() > 0 && s[0] == '-' {
        -1
    } else {
        1
    };
    let mag = if s.len() > 0 && (s[0] == '-' || s[0] == '+') {
        s.drop_first()
    } else {
        s
    };
    if mag.len() > 0 && all_digits(mag) && i64::MIN <= sign * digits_val(mag) <= i64::MAX {
        Some(sign * digits_val(mag))
    } else {
        None
    }
}

/// The machine integer a successful parse denotes.
pub open spec fn opt_i64(o: Option<int>) -> Option<i64> {
    match o {
        Some(v) => Some(v as i64),
        None => None,
    }
}

/// A digit string denotes a nonnegative value.
proof fn lemma_digits_val_nonneg(s: Seq<char>)
    requires
        all_digits(s),
    ensures
        digits_val(s) >= 0,
    decreases s.len(),
{
    if s.len() > 0 {
        assert(all_digits(s.drop_last()));
        lemma_digits_val_nonneg(s.drop_last());
    }
}

/// The rendered digits of `n` are digits: nonempty, no sign characters.
proof fn lemma_dec_digits_shape(n: nat)
    ensures
        dec_digits(n).len() >= 1,
        all_digits(dec_digits(n)),
        dec_digits(n)[0] != '-',
        dec_digits(n)[0] != '+',
    decreases n,
{
    if n >= 10 {
        lemma_dec_digits_shape(n / 10);
        let s = dec_digits(n);
        let front = dec_digits(n / 10);
        assert forall|i: int| 0 <= i < s.len() implies is_digit(#[trigger] s[i]) by {
            if i < front.len() {
                assert(s[i] == front[i]);
            } else {
                assert(s[i] == digit_char((n % 10) as int));
            }
        }
        assert(s[0] == front[0]);
    }
}

/// The rendered digits of `n` denote `n`.
proof fn lemma_dec_digits_val(n: nat)
    ensures
        digits_val(dec_digits(n)) == n,
    decreases n,
{
    reveal_with_fuel(digits_val, 3);
    if n < 10 {
        assert(dec_digits(n).drop_last() =~= Seq::<char>::empty());
        assert(digit_val(digit_char(n as int)) == n);
    } else {
        lemma_dec_digits_val(n / 10);
        assert(dec_digits(n).drop_last() =~= dec_digits(n / 10));
        assert(dec_digits(n).last() == digit_char((n % 10) as int));
        assert(digit_val(digit_char((n % 10) as int)) == n % 10);
    }
}

/// Rendering a value in decimal and parsing the rendering back yields the
/// value again.
pub proof fn lemma_decimal_round_trip(v: i64)
    ensures
        parse_i64_spec(i64_str(v as int)) == Some(v as int),
{
    if v >= 0 {
        lemma_dec_digits_shape(v as nat);
        lemma_dec_digits_val(v as nat);
    } else {
        let m = (-(v as int)) as nat;
        lemma_dec_digits_shape(m);
        lemma_dec_digits_val(m);
        let s = i64_str(v as int);
        assert(s[0] == '-');
        assert(s.drop_first() =~= dec_digits(m));
    }
}

/// One decimal digit as a string slice.
fn digit_str(d: u64) -> (s: &'static str)
    requires
        d < 10,
    ensures
        s@ == seq![digit_char(d as int)],
{
    proof {
        reveal_strlit("0");
        reveal_strlit("1");
        reveal_strlit("2");
        reveal_strlit("3");
        reveal_strlit("4");
        reveal_strlit("5");
        reveal_strlit("6");
        reveal_strlit("7");
        reveal_strlit("8");
        reveal_strlit("9");
    }
    let s = if d == 0 {
        "0"
    } else if d == 1 {
        "1"
    } else if d == 2 {
        "2"
    } else if d == 3 {
        "3"
    } else if d == 4 {
        "4"
    } else if d == 5 {
        "5"
    } else if d == 6 {
        "6"
    } else if d == 7 {
        "7"
    } else if d == 8 {
        "8"
    } else {
        "9"
    };
    proof {
        assert(s@ =~= seq![digit_char(d as int)]);
    }
    s
}

/// The decimal digits of `m`.
fn dec_str(m: u64) -> (s: String)
    ensures
        s@ == dec_digits(m as nat),
    decreases m,
{
    let ds = digit_str(m % 10);
    if m < 10 {
        ds.to_owned()
    } else {
        let mut s = dec_str(m / 10);
        s.append(ds);
        s
    }
}

/// Renders `v` in decimal.
pub fn i64_to_string(v: i64) -> (s: String)
    ensures
        s@ == i64_str(v as int),
{
    if v >= 0 {
        dec_str(v as u64)
    } else {
        let mag: u64 = (-(v + 1)) as u64 + 1;
        proof {
            assert(mag as int == -(v as int));
            reveal_strlit("-");
        }
        let mut s = "-".to_owned();
        proof {
            assert(s@ =~= seq!['-']);
        }
        let d = dec_str(mag);
        s.append(d.as_str());
        proof {
            assert(s@ =~= i64_str(v as int));
        }
        s
    }
}

/// Parses a decimal integer exactly as [`parse_i64_spec`] describes.
#[verifier::loop_isolation(false)]
#[verifier::rlimit(30)]
pub fn parse_i64(s: &str) -> (r: Option<i64>)
    ensures
        match r {
            Some(v) => parse_i64_spec(s@) == Some(v as int),
            None => parse_i64_spec(s@) is None,
        },
{
    let n = s.unicode_len();
    if n == 0 {
        return None;
    }
    let first = s.get_char(0);
    let neg = first == '-';
    let start: usize = if first == '-' || first == '+' {
        1
    } else {
        0
    };
    let ghost mag = if start == 1 {
        s@.drop_first()
    } else {
        s@
    };
    if n == start {
        return None;
    }
    let lim: u64 = 0x8000_0000_0000_0000;
    let mut acc: u64 = 0;
    let mut over = false;
    let mut i = start;
    while i < n
        invariant
            start <= i <= n,
            forall|k: int| 0 <= k < i - start ==> is_digit(#[trigger] mag[k]),
            !over ==> acc as int == digits_val(mag.subrange(0, i - start)) && acc <= lim,
            over ==> digits_val(mag.subrange(0, i - start)) > lim as int,
        decreases n - i,
    {
        let c = s.get_char(i);
        let cu = c as u32;
        proof {
            assert(mag[i - start] == s@[i as int]);
        }
        if cu < 48 || cu > 57 {
            proof {
                assert(!is_digit(mag[i - start]));
            }
            return None;
        }
        let d: u64 = (cu - 48) as u64;
        let ghost pre = mag.subrange(0, i - start);
        proof {
            assert(mag.subrange(0, i + 1 - start).drop_last() =~= pre);
            assert(mag.subrange(0, i + 1 - start).last() == mag[i - start]);
            assert(all_digits(pre));
            lemma_digits_val_nonneg(pre);
        }
        if over {
            proof {
                assert(digits_val(mag.subrange(0, i + 1 - start)) > lim as int) by (nonlinear_arith)
                    requires
                        digits_val(mag.subrange(0, i + 1 - start)) == digits_val(pre) * 10
                            + digit_val(mag[i - start]),
                        digits_val(pre) > lim as int,
                        digit_val(mag[i - start]) >= 0,
                ;
            }
        } else if acc > (lim - d) / 10 {
            over = true;
            proof {
                assert(digits_val(mag.subrange(0, i + 1 - start)) > lim as int) by (nonlinear_arith)
                    requires
                        digits_val(mag.subrange(0, i + 1 - start)) == digits_val(pre) * 10
                            + digit_val(mag[i - start]),
                        digits_val(pre) == acc as int,
                        acc > (lim - d) / 10,
                        d < 10,
                        digit_val(mag[i - start]) == d as int,
                        lim == 0x8000_0000_0000_0000u64,
                ;
            }
        } else {
            proof {
                assert(acc * 10 + d <= lim) by (nonlinear_arith)
                    requires
                        acc <= (lim - d) / 10,
                        d < 10,
                        lim == 0x8000_0000_0000_0000u64,
                ;
            }
            acc = acc * 10 + d;
        }
        i = i + 1;
    }
    proof {
        assert(mag.subrange(0, n - start) =~= mag);
        assert(all_digits(mag));
    }
    if over {
        proof {
            lemma_digits_val_nonneg(mag);
            assert(digits_val(mag) > lim as int);
            if s@[0] == '-' {
                assert(-1 * digits_val(mag) < i64::MIN);
            } else {
                assert(1 * digits_val(mag) > i64::MAX);
            }
            assert(parse_i64_spec(s@) is None);
        }
        return None;
    }
    proof {
        lemma_digits_val_nonneg(mag);
    }
    if neg {
        let v: i64 = if acc == lim {
            i64::MIN
        } else {
            -(acc as i64)
        };
        proof {
            assert(v as int == -(acc as int));
            assert(s@[0] == '-');
            assert(mag =~= s@.drop_first());
            assert(mag.len() > 0);
            assert(all_digits(mag));
            assert(acc as int == digits_val(mag));
            assert(digits_val(mag) >= 0);
            assert(i64::MIN <= -digits_val(mag));
            assert(-digits_val(mag) <= i64::MAX);
            assert(-1 * digits_val(mag) == -digits_val(mag));
            assert(parse_i64_spec(s@) == Some(-1 * digits_val(mag)));
        }
        Some(v)
    } else {
        if acc >= lim {
            return None;
        }
        proof {
            assert(parse_i64_spec(s@) == Some(digits_val(mag)));
        }
        Some(acc as i64)
    }
}

/// How a text filter judged an edited text.
#[derive(Clone, Copy, Debug, PartialEq, Eq, Structural)]
pub enum ValueFilterAction {
    /// The text is invalid; keep it as typed anyway.
    InvalidIgnore,
    /// The text is invalid; restore the previous text.
    InvalidReset,
    /// The text may be committed if it parses and lies in range.
    Valid,
}

/// The editing state of an integer text field: the last committed value, the
/// text as currently typed, whether the text matches the value, and the
/// optional range limits.
#[derive(Debug, Clone)]
pub struct NodeNumericEditing {
    current_value: i64,
    text_field: String,
    matching: bool,
    min: Option<i64>,
    max: Option<i64>,
}

impl NodeNumericEditing {
    /// The last committed value.
    pub closed spec fn value(self) -> i64 {
        self.current_value
    }

    /// The text as currently typed.
    pub closed spec fn text(self) -> Seq<char> {
        self.text_field@
    }

    /// The typed text as a string value.
    pub closed spec fn text_str(self) -> String {
        self.text_field
    }

    /// Whether the typed text still matches the committed value.
    pub closed spec fn is_matching_spec(self) -> bool {
        self.matching
    }

    pub closed spec fn min_spec(self) -> Option<i64> {
        self.min
    }

    pub closed spec fn max_spec(self) -> Option<i64> {
        self.max
    }

    /// Whether `v` lies within the configured limits.
    pub open spec fn in_range(self, v: i64) -> bool {
        &&& match self.min_spec() {
            Some(m) => m <= v,
            None => true,
        }
        &&& match self.max_spec() {
            Some(m) => v <= m,
            None => true,
        }
    }

    /// A fresh field showing `value` in decimal, taken as matching.
    pub fn new(value: i64, min: Option<i64>, max: Option<i64>) -> (r: NodeNumericEditing)
        ensures
            r.value() == value,
            r.text() == i64_str(value as int),
            r.is_matching_spec(),
            r.min_spec() == min,
            r.max_spec() == max,
    {
        NodeNumericEditing {
            current_value: value,
            text_field: i64_to_string(value),
            matching: true,
            min,
            max,
        }
    }

    /// Replaces the limits, leaving value and text untouched.
    pub fn set_range(&mut self, min: Option<i64>, max: Option<i64>)
        ensures
            final(self).min_spec() == min,
            final(self).max_spec() == max,
            final(self).value() == old(self).value(),
            final(self).text() == old(self).text(),
            final(self).is_matching_spec() == old(self).is_matching_spec(),
    {
        self.min = min;
        self.max = max;
    }

    /// Commits `value` and rerenders the text, provided it lies in range;
    /// otherwise leaves the state untouched and reports failure.
    pub fn set_value(&mut self, value: i64) -> (ok: bool)
        ensures
            ok == old(self).in_range(value),
            final(self).min_spec() == old(self).min_spec(),
            final(self).max_spec() == old(self).max_spec(),
            final(self).is_matching_spec() == old(self).is_matching_spec(),
            if ok {
                &&& final(self).value() == value
                &&& final(self).text() == i64_str(value as int)
            } else {
                &&& final(self).value() == old(self).value()
                &&& final(self).text() == old(self).text()
            },
    {
        if self.is_valid_impl(&value) {
            self.current_value = value;
            self.text_field = i64_to_string(self.current_value);
            true
        } else {
            false
        }
    }

    /// Commits `value` and rerenders the text unconditionally, reporting
    /// whether it lies in range.
    pub fn set_value_force(&mut self, value: i64) -> (ok: bool)
        ensures
            ok == old(self).in_range(value),
            final(self).min_spec() == old(self).min_spec(),
            final(self).max_spec() == old(self).max_spec(),
            final(self).is_matching_spec() == old(self).is_matching_spec(),
            final(self).value() == value,
            final(self).text() == i64_str(value as int),
    {
        self.current_value = value;
        self.text_field = i64_to_string(self.current_value);
        self.is_valid()
    }

    /// Whether the typed text still matches the committed value.
    pub fn is_matching(&self) -> (r: bool)
        ensures
            r == self.is_matching_spec(),
    {
        self.matching
    }

    /// Whether the committed value lies within the limits.
    pub fn is_valid(&self) -> (r: bool)
        ensures
            r == self.in_range(self.value()),
    {
        self.is_valid_impl(&self.current_value)
    }

    /// Runs an editing closure over the typed text, then a filter over the
    /// result, and commits, keeps, or rolls back the text as the filter
    /// directs: `InvalidIgnore` keeps the filtered text, `InvalidReset`
    /// restores the previous text, and `Valid` commits the parsed value when
    /// it parses and lies in range, keeps the filtered text but clears the
    /// match flag when it does not parse, and restores the previous text when
    /// it parses out of range. The filter sees the previous text, the edited
    /// text, and the parse of the edited text, and may rewrite the text.
    pub fn with_content_mut<F, C, R>(&mut self, cl: F, check: C) -> (r: R) where
        F: FnOnce(String) -> (String, R),
        C: FnOnce(String, String, Option<i64>) -> (String, ValueFilterAction),

        requires
            call_requires(cl, (old(self).text_str(),)),
            forall|edited: String, res: R| #[trigger]
                call_ensures(cl, (old(self).text_str(),), (edited, res)) ==> call_requires(
                    check,
                    (old(self).text_str(), edited, opt_i64(parse_i64_spec(edited@))),
                ),
        ensures
            final(self).min_spec() == old(self).min_spec(),
            final(self).max_spec() == old(self).max_spec(),
            exists|edited: String, checked: String, action: ValueFilterAction|
                {
                    &&& #[trigger] call_ensures(cl, (old(self).text_str(),), (edited, r))
                    &&& #[trigger] call_ensures(
                        check,
                        (old(self).text_str(), edited, opt_i64(parse_i64_spec(edited@))),
                        (checked, action),
                    )
                    &&& match action {
                        ValueFilterAction::InvalidIgnore => final(self).text_str() == checked
                            && final(self).value() == old(self).value() && final(self).is_matching_spec() == old(self).is_matching_spec(),
                        ValueFilterAction::InvalidReset => final(self).text() == old(self).text()
                            && final(self).value() == old(self).value() && final(self).is_matching_spec() == old(self).is_matching_spec(),
                        ValueFilterAction::Valid => match parse_i64_spec(edited@) {
                            Some(v) => if old(self).in_range(v as i64) {
                                final(self).value() as int == v && final(self).is_matching_spec()
                                    && final(self).text_str() == checked
                            } else {
                                final(self).text() == old(self).text() && final(self).value()
                                    == old(self).value() && final(self).is_matching_spec() == old(self).is_matching_spec()
                            },
                            None => final(self).text_str() == checked && final(self).value() == old(self).value() && !final(self).is_matching_spec(),
                        },
                    }
                },
    {
        let previous = self.text_field.clone();
        let (edited, result) = cl(self.text_field.clone());
        let ghost g_edited = edited;
        self.text_field = edited;
        let parsed = parse_i64(self.text_field.as_str());
        proof {
            assert(parsed == opt_i64(parse_i64_spec(g_edited@)));
        }
        let (checked, action) = check(previous.clone(), self.text_field.clone(), parsed);
        let ghost g_checked = checked;
        let ghost g_action = action;
        self.text_field = checked;
        match action {
            ValueFilterAction::InvalidIgnore => {},
            ValueFilterAction::InvalidReset => {
                self.text_field = previous;
            },
            ValueFilterAction::Valid => {
                match parsed {
                    Some(v) => {
                        if self.is_valid_impl(&v) {
                            self.current_value = v;
                            self.matching = true;
                        } else {
                            self.text_field = previous;
                        }
                    },
                    None => {
                        self.matching = false;
                    },
                }
            },
        }
        result
    }

    fn is_valid_impl(&self, value: &i64) -> (r: bool)
        ensures
            r == self.in_range(*value),
    {
        if let Some(min) = self.min {
            if min > *value {
                return false;
            }
        }
        if let Some(max) = self.max {
            if max < *value {
                return false;
            }
        }
        true
    }
}

} // verus!
