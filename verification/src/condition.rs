//! Expectation predicates: what a command's return value is held against.
use crate::text::{decimal, decimal_chars, parse_i64, read_i64, string_of, to_chars};
use vstd::prelude::*;

verus! {

/// An assertion about a native call's return value. The text is a number,
/// decimal or `0x` hexadecimal, possibly behind a `!`; until substitution it
/// may still hold variables.
#[derive(Debug, PartialEq)]
pub enum Condition {
    Eq(String),
    Ne(String),
}

/// The mathematical content of a [`Condition`].
pub enum ConditionView {
    Eq(Seq<char>),
    Ne(Seq<char>),
}

impl DeepView for Condition {
    type V = ConditionView;

    open spec fn deep_view(&self) -> ConditionView {
        match self {
            Condition::Eq(s) => ConditionView::Eq(s@),
            Condition::Ne(s) => ConditionView::Ne(s@),
        }
    }
}

impl View for Condition {
    type V = ConditionView;

    open spec fn view(&self) -> ConditionView {
        self.deep_view()
    }
}

impl Clone for Condition {
    fn clone(&self) -> (r: Self)
        ensures
            r@ == self@,
    {
        match self {
            Condition::Eq(s) => Condition::Eq(s.clone()),
            Condition::Ne(s) => Condition::Ne(s.clone()),
        }
    }
}

/// Whether the text begins with the negation mark `!`.
pub open spec fn is_negated(s: Seq<char>) -> bool {
    s.len() > 0 && s[0] == '!'
}

/// The text without a leading negation mark.
pub open spec fn strip_negation(s: Seq<char>) -> Seq<char> {
    if is_negated(s) {
        s.skip(1)
    } else {
        s
    }
}

/// Whether the text begins with `0x` or `0X`.
pub open spec fn has_hex_prefix(s: Seq<char>) -> bool {
    s.len() >= 2 && s[0] == '0' && (s[1] == 'x' || s[1] == 'X')
}

/// The number that a literal spells: hexadecimal behind `0x` or `0X`, decimal
/// otherwise, as a signed 64-bit value.
pub open spec fn parse_number(s: Seq<char>) -> Option<i64> {
    if has_hex_prefix(s) {
        parse_i64(s.skip(2), 16)
    } else {
        parse_i64(s, 10)
    }
}

/// The comparison value of an expectation text: the number behind an
/// optional negation mark.
pub open spec fn parse_value(s: Seq<char>) -> Option<i64> {
    parse_number(strip_negation(s))
}

/// Whether a return value meets a condition, where the condition's text
/// spells a number: an `Eq` asks for equality, unless its text is negated,
/// and a `Ne` asks for inequality either way.
pub open spec fn condition_holds(c: ConditionView, ret: i64) -> Option<bool> {
    match c {
        ConditionView::Eq(s) => match parse_value(s) {
            Some(expected) => Some(
                if is_negated(s) {
                    ret != expected
                } else {
                    ret == expected
                },
            ),
            None => None,
        },
        ConditionView::Ne(s) => match parse_value(s) {
            Some(expected) => Some(ret != expected),
            None => None,
        },
    }
}

/// Reads the characters `s[from..]` as a literal number.
pub fn read_number(s: &Vec<char>, from: usize) -> (r: Option<i64>)
    requires
        from <= s.len(),
    ensures
        r == parse_number(s@.skip(from as int)),
{
    let ghost rest = s@.skip(from as int);
    if s.len() - from >= 2 && s[from] == '0' && (s[from + 1] == 'x' || s[from + 1] == 'X') {
        assert(rest.skip(2) =~= s@.skip(from + 2));
        read_i64(s, from + 2, 16)
    } else {
        read_i64(s, from, 10)
    }
}

impl Condition {
    /// The comparison value that an expectation text spells, if it spells
    /// one.
    pub fn parse_value(s: &str) -> (r: Option<i64>)
        ensures
            r == parse_value(s@),
    {
        let chars = to_chars(s);
        let from: usize = if chars.len() > 0 && chars[0] == '!' {
            1
        } else {
            0
        };
        assert(chars@.skip(0) =~= chars@);
        read_number(&chars, from)
    }

    /// The text of the condition, whichever its kind.
    pub fn text(&self) -> (s: &String)
        ensures
            s@ == match self@ {
                ConditionView::Eq(t) => t,
                ConditionView::Ne(t) => t,
            },
    {
        match self {
            Condition::Eq(s) => s,
            Condition::Ne(s) => s,
        }
    }

    /// Holds a return value against the condition. `None` where the
    /// condition's text spells no number.
    pub fn check(&self, ret: i64) -> (r: Option<bool>)
        ensures
            r == condition_holds(self@, ret),
    {
        match self {
            Condition::Eq(s) => {
                let chars = to_chars(s.as_str());
                let negated = chars.len() > 0 && chars[0] == '!';
                match Condition::parse_value(s.as_str()) {
                    Some(expected) => Some(
                        if negated {
                            ret != expected
                        } else {
                            ret == expected
                        },
                    ),
                    None => None,
                }
            },
            Condition::Ne(s) => match Condition::parse_value(s.as_str()) {
                Some(expected) => Some(ret != expected),
                None => None,
            },
        }
    }
}

/// An expected value as a test description writes it: a number or a text.
#[derive(Debug, PartialEq)]
pub enum Expected {
    Number(i64),
    Text(String),
}

/// The text of a written expected value: a number in decimal, a text as it
/// is.
pub open spec fn expected_text(e: Expected) -> Seq<char> {
    match e {
        Expected::Number(n) => decimal(n as int),
        Expected::Text(s) => s@,
    }
}

/// Why the expectation of a command cannot be read.
#[derive(Debug, Clone, Copy, PartialEq, Eq)]
pub enum ConditionError {
    /// Both an equality and an inequality are given.
    MutuallyExclusive,
    /// Neither an equality nor an inequality is given.
    Missing,
}

/// The text by which a [`ConditionError`] is reported.
pub open spec fn condition_error_text(e: ConditionError) -> Seq<char> {
    match e {
        ConditionError::MutuallyExclusive => "mutually exclusive fields"@,
        ConditionError::Missing => "missing condition, please give 'expect_eq' or 'expect_ne'"@,
    }
}

impl ConditionError {
    /// The text by which the error is reported.
    pub fn message(&self) -> (s: String)
        ensures
            s@ == condition_error_text(*self),
    {
        match self {
            ConditionError::MutuallyExclusive => "mutually exclusive fields".to_owned(),
            ConditionError::Missing => {
                "missing condition, please give 'expect_eq' or 'expect_ne'".to_owned()
            },
        }
    }
}

impl Expected {
    /// The text of the expected value.
    pub fn into_text(self) -> (s: String)
        ensures
            s@ == expected_text(self),
    {
        match self {
            Expected::Number(n) => string_of(&decimal_chars(n)),
            Expected::Text(s) => s,
        }
    }
}

impl Condition {
    /// The condition of a command that gives `expect_eq`, `expect_ne`, both
    /// or neither: exactly one of the two must be given.
    pub fn from_expectations(expect_eq: Option<Expected>, expect_ne: Option<Expected>) -> (r: Result<
        Condition,
        ConditionError,
    >)
        ensures
            match (expect_eq, expect_ne) {
                (Some(eq), None) => r matches Ok(c) && c@ == ConditionView::Eq(expected_text(eq)),
                (None, Some(ne)) => r matches Ok(c) && c@ == ConditionView::Ne(expected_text(ne)),
                (Some(_), Some(_)) => r == Err::<Condition, ConditionError>(
                    ConditionError::MutuallyExclusive,
                ),
                (None, None) => r == Err::<Condition, ConditionError>(ConditionError::Missing),
            },
    {
        match (expect_eq, expect_ne) {
            (Some(eq), None) => Ok(Condition::Eq(eq.into_text())),
            (None, Some(ne)) => Ok(Condition::Ne(ne.into_text())),
            (Some(_), Some(_)) => Err(ConditionError::MutuallyExclusive),
            (None, None) => Err(ConditionError::Missing),
        }
    }
}

} // verus!
