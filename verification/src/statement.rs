//! Statements: what a line of input asks of the table, and how the line is
//! read.
//!
//! A line is a verb, one space, and the rest. `insert` takes values:
//! numbers, written as decimal digits, and strings, written between double
//! quotes; in a string a backslash takes the character behind it along, and
//! stands before a double quote or a backslash that is meant as such.
//! White space may stand between the values and behind the last one. `read`
//! takes the index of a row in decimal digits.

use vstd::prelude::*;
use vstd::slice::slice_subrange;
use vstd::string::StringSliceAdditionalSpecFns;
use vstd::utf8::{decode_utf8, valid_utf8};
use crate::codec::string_from_utf8;
use crate::datatype::{DataType, ScalarValue, ScalarView, Schema};
use crate::errors::Error;

verus! {

/// The values of a row to insert.
#[derive(Debug, Clone, PartialEq, Eq)]
pub struct InsertStatement {
    pub values: Vec<ScalarValue>,
}

/// A request to the table.
#[derive(Debug, Clone, PartialEq, Eq)]
pub enum Statement {
    /// Insert a row of the given values.
    Insert(InsertStatement),
    /// Read the row with the given index.
    Read(usize),
}

/// What a [`Statement`] asks.
pub enum StatementView {
    Insert(Seq<ScalarView>),
    Read(usize),
}

impl DeepView for Statement {
    type V = StatementView;

    open spec fn deep_view(&self) -> StatementView {
        match self {
            Statement::Insert(insert) => StatementView::Insert(insert.values.deep_view()),
            Statement::Read(index) => StatementView::Read(*index),
        }
    }
}

/// A decimal digit.
pub open spec fn is_digit(b: u8) -> bool {
    48 <= b <= 57
}

/// White space: a blank, or one of the five control characters from tab to
/// carriage return.
pub open spec fn is_space(b: u8) -> bool {
    b == 32 || 9 <= b <= 13
}

/// Where the digits that start at `at` end.
pub open spec fn digits_end(s: Seq<u8>, at: int) -> int
    decreases s.len() - at,
{
    if 0 <= at < s.len() && is_digit(s[at]) {
        digits_end(s, at + 1)
    } else {
        at
    }
}

/// Where the white space that starts at `at` ends.
pub open spec fn spaces_end(s: Seq<u8>, at: int) -> int
    decreases s.len() - at,
{
    if 0 <= at < s.len() && is_space(s[at]) {
        spaces_end(s, at + 1)
    } else {
        at
    }
}

/// The number that decimal digits spell.
pub open spec fn decimal(digits: Seq<u8>) -> int
    decreases digits.len(),
{
    if digits.len() == 0 {
        0
    } else {
        10 * decimal(digits.drop_last()) + (digits.last() - 48)
    }
}

/// Where the string that goes on at `at` ends: the place of the first double
/// quote that no backslash takes along. None where there is none.
pub open spec fn quote_end(s: Seq<u8>, at: int) -> Option<int>
    decreases s.len() - at,
{
    if !(0 <= at < s.len()) {
        None
    } else if s[at] == 34 {
        Some(at)
    } else if s[at] == 92 {
        if at + 1 < s.len() {
            quote_end(s, at + 2)
        } else {
            None
        }
    } else {
        quote_end(s, at + 1)
    }
}

/// What is between the quotes, as it is meant: a backslash before a
/// backslash or a double quote is left out.
pub open spec fn unescape(s: Seq<u8>) -> Seq<u8>
    decreases s.len(),
{
    if s.len() == 0 {
        s
    } else if s[0] == 92 && s.len() >= 2 && (s[1] == 92 || s[1] == 34) {
        seq![s[1]] + unescape(s.skip(2))
    } else {
        seq![s[0]] + unescape(s.skip(1))
    }
}

/// The value that is written at `at`, and where it ends. None where no value
/// is written there: no digit and no double quote stands there, the number
/// is beyond the 64-bit signed integers, or the string does not end.
pub open spec fn token_at(s: Seq<u8>, at: int) -> Option<(ScalarView, int)> {
    if !(0 <= at < s.len()) {
        None
    } else if is_digit(s[at]) {
        let end = digits_end(s, at);
        let value = decimal(s.subrange(at, end));
        if value <= i64::MAX {
            Some((ScalarView::Number(value as i64), end))
        } else {
            None
        }
    } else if s[at] == 34 {
        match quote_end(s, at + 1) {
            Some(end) => {
                let text = unescape(s.subrange(at + 1, end));
                if valid_utf8(text) {
                    Some((ScalarView::String(decode_utf8(text)), end + 1))
                } else {
                    None
                }
            },
            None => None,
        }
    } else {
        None
    }
}

/// The values that are written from `at` on, each followed by any white
/// space. None where something else is written there.
pub open spec fn values_from(s: Seq<u8>, at: int) -> Option<Seq<ScalarView>>
    decreases s.len() - at,
{
    if !(0 <= at < s.len()) {
        Some(Seq::empty())
    } else {
        match token_at(s, at) {
            Some((value, end)) => {
                let next = spaces_end(s, end);
                if at < next <= s.len() {
                    match values_from(s, next) {
                        Some(rest) => Some(seq![value] + rest),
                        None => None,
                    }
                } else {
                    None
                }
            },
            None => None,
        }
    }
}

/// The values are as many as the fields, and each is of the kind of its
/// field. (How long a string may be is left to the insert.)
pub open spec fn kinds_match(types: Seq<DataType>, values: Seq<ScalarView>) -> bool {
    &&& values.len() == types.len()
    &&& forall|i: int|
        0 <= i < types.len() ==> ((#[trigger] types[i]) is String <==> values[i] is String)
}

/// The index that is written in `s`: decimal digits, with or without a plus
/// sign before them, that spell a number within `usize`. None where `s` is
/// anything else.
pub open spec fn index_of(s: Seq<u8>) -> Option<usize> {
    let digits = if s.len() > 0 && s[0] == 43 {
        s.skip(1)
    } else {
        s
    };
    if digits.len() > 0 && digits_end(digits, 0) == digits.len() && decimal(digits) <= usize::MAX {
        Some(decimal(digits) as usize)
    } else {
        None
    }
}

/// Where the first blank of `s` from `at` on stands, or the length of `s`
/// where there is none.
pub open spec fn blank_at(s: Seq<u8>, at: int) -> int
    decreases s.len() - at,
{
    if 0 <= at < s.len() && s[at] != 32 {
        blank_at(s, at + 1)
    } else {
        at
    }
}

/// The statement that a line spells, for a table of the given field types.
pub open spec fn statement_of(line: Seq<u8>, types: Seq<DataType>) -> Result<
    StatementView,
    Error,
> {
    let blank = blank_at(line, 0);
    if blank >= line.len() {
        Err(Error::ParseError)
    } else {
        let verb = line.subrange(0, blank);
        let rest = line.subrange(blank + 1, line.len() as int);
        if verb == insert_word() {
            insert_of(rest, types)
        } else if verb == read_word() {
            match index_of(rest) {
                Some(index) => Ok(StatementView::Read(index)),
                None => Err(Error::ParseError),
            }
        } else {
            Err(Error::UnrecognizedCommand)
        }
    }
}

/// The insert that `rest` spells: its values, where they are of the kinds of
/// the fields.
pub open spec fn insert_of(rest: Seq<u8>, types: Seq<DataType>) -> Result<StatementView, Error> {
    match values_from(rest, 0) {
        Some(values) => if kinds_match(types, values) {
            Ok(StatementView::Insert(values))
        } else {
            Err(Error::ParseError)
        },
        None => Err(Error::ParseError),
    }
}

/// The verb of an insert.
pub open spec fn insert_word() -> Seq<u8> {
    seq![105u8, 110u8, 115u8, 101u8, 114u8, 116u8]
}

/// The verb of a read.
pub open spec fn read_word() -> Seq<u8> {
    seq![114u8, 101u8, 97u8, 100u8]
}

/// More digits spell no smaller number.
proof fn lemma_decimal_grows(digits: Seq<u8>, n: int)
    requires
        0 <= n <= digits.len(),
        forall|i: int| 0 <= i < digits.len() ==> is_digit(digits[i]),
    ensures
        0 <= decimal(digits.take(n)) <= decimal(digits),
    decreases digits.len() - n,
{
    lemma_decimal_positive(digits.take(n));
    if n == digits.len() {
        assert(digits.take(n) =~= digits);
    } else {
        let longer = digits.take(n + 1);
        assert(longer.drop_last() =~= digits.take(n));
        lemma_decimal_grows(digits, n + 1);
    }
}

/// Digits spell no negative number.
proof fn lemma_decimal_positive(digits: Seq<u8>)
    requires
        forall|i: int| 0 <= i < digits.len() ==> is_digit(digits[i]),
    ensures
        0 <= decimal(digits),
    decreases digits.len(),
{
    if digits.len() > 0 {
        lemma_decimal_positive(digits.drop_last());
    }
}

/// The digits from `at` on end where `end` says, if the bytes up to there
/// are digits and the next one is none.
proof fn lemma_digits_end(s: Seq<u8>, at: int, end: int)
    requires
        0 <= at <= end <= s.len(),
        forall|i: int| at <= i < end ==> is_digit(s[i]),
        end == s.len() || !is_digit(s[end]),
    ensures
        digits_end(s, at) == end,
    decreases end - at,
{
    if at < end {
        lemma_digits_end(s, at + 1, end);
    }
}

/// The white space from `at` on ends where `end` says, if the bytes up to
/// there are white space and the next one is none.
proof fn lemma_spaces_end(s: Seq<u8>, at: int, end: int)
    requires
        0 <= at <= end <= s.len(),
        forall|i: int| at <= i < end ==> is_space(s[i]),
        end == s.len() || !is_space(s[end]),
    ensures
        spaces_end(s, at) == end,
    decreases end - at,
{
    if at < end {
        lemma_spaces_end(s, at + 1, end);
    }
}

/// The first blank from `at` on stands where `end` says, if no byte up to
/// there is a blank and the next one is.
proof fn lemma_blank_at(s: Seq<u8>, at: int, end: int)
    requires
        0 <= at <= end <= s.len(),
        forall|i: int| at <= i < end ==> s[i] != 32,
        end == s.len() || s[end] == 32,
    ensures
        blank_at(s, at) == end,
    decreases end - at,
{
    if at < end {
        lemma_blank_at(s, at + 1, end);
    }
}

/// Reads the number whose digits stand from `at` to `end`.
fn read_decimal(s: &[u8], at: usize, end: usize, limit: u64) -> (r: Option<u64>)
    requires
        at <= end <= s@.len(),
        forall|i: int| at <= i < end ==> is_digit(s@[i]),
        limit >= 9,
    ensures
        match r {
            Some(value) => value == decimal(s@.subrange(at as int, end as int)) && value <= limit,
            None => decimal(s@.subrange(at as int, end as int)) > limit,
        },
{
    let ghost digits = s@.subrange(at as int, end as int);
    let mut value: u64 = 0;
    let mut i: usize = at;
    while i < end
        invariant
            at <= i <= end <= s@.len(),
            digits == s@.subrange(at as int, end as int),
            forall|k: int| 0 <= k < digits.len() ==> is_digit(digits[k]),
            forall|k: int| at <= k < end ==> is_digit(s@[k]),
            value == decimal(digits.take(i - at)),
            value <= limit,
            limit >= 9,
        decreases end - i,
    {
        let digit = (s[i] - 48) as u64;
        proof {
            assert(digits.take(i - at + 1).drop_last() =~= digits.take(i - at));
            lemma_decimal_grows(digits, i - at + 1);
        }
        if value > (limit - digit) / 10 {
            return None;
        }
        value = value * 10 + digit;
        i += 1;
    }
    assert(digits.take(i - at) =~= digits);
    Some(value)
}

/// Finds where the digits from `at` on end.
fn scan_digits(s: &[u8], at: usize) -> (end: usize)
    requires
        at <= s@.len(),
    ensures
        end == digits_end(s@, at as int),
        at <= end <= s@.len(),
        forall|i: int| at <= i < end ==> is_digit(s@[i]),
        end == s@.len() || !is_digit(s@[end as int]),
{
    proof {
        vstd::slice::axiom_spec_len(s);
    }
    let mut end = at;
    while end < s.len() && 48 <= s[end] && s[end] <= 57
        invariant
            at <= end <= s@.len(),
            s@.len() <= usize::MAX,
            forall|i: int| at <= i < end ==> is_digit(s@[i]),
        decreases s@.len() - end,
    {
        end += 1;
    }
    proof {
        lemma_digits_end(s@, at as int, end as int);
    }
    end
}

/// Finds where the white space from `at` on ends.
fn scan_spaces(s: &[u8], at: usize) -> (end: usize)
    requires
        at <= s@.len(),
    ensures
        end == spaces_end(s@, at as int),
        at <= end <= s@.len(),
{
    proof {
        vstd::slice::axiom_spec_len(s);
    }
    let mut end = at;
    while end < s.len() && (s[end] == 32 || (9 <= s[end] && s[end] <= 13))
        invariant
            at <= end <= s@.len(),
            s@.len() <= usize::MAX,
            forall|i: int| at <= i < end ==> is_space(s@[i]),
        decreases s@.len() - end,
    {
        end += 1;
    }
    proof {
        lemma_spaces_end(s@, at as int, end as int);
    }
    end
}

/// Finds where the string that goes on at `at` ends.
fn scan_quote(s: &[u8], at: usize) -> (r: Option<usize>)
    requires
        at <= s@.len(),
    ensures
        match r {
            Some(end) => quote_end(s@, at as int) == Some(end as int) && at <= end < s@.len(),
            None => quote_end(s@, at as int) is None,
        },
{
    proof {
        vstd::slice::axiom_spec_len(s);
    }
    let mut i = at;
    while i < s.len()
        invariant
            at <= i,
            s@.len() <= usize::MAX,
            quote_end(s@, at as int) == quote_end(s@, i as int),
        decreases s@.len() - i,
    {
        if s[i] == 34 {
            return Some(i);
        }
        if s[i] == 92 {
            if i + 1 >= s.len() {
                return None;
            }
            i += 2;
        } else {
            i += 1;
        }
    }
    None
}

/// Reads what is between the quotes, from `at` to `end`, as it is meant.
fn read_text(s: &[u8], at: usize, end: usize) -> (text: Vec<u8>)
    requires
        at <= end <= s@.len(),
    ensures
        text@ == unescape(s@.subrange(at as int, end as int)),
{
    let ghost raw = s@.subrange(at as int, end as int);
    let mut text: Vec<u8> = Vec::new();
    let mut i = at;
    assert(raw.skip(0) =~= raw);
    while i < end
        invariant
            at <= i <= end <= s@.len(),
            raw == s@.subrange(at as int, end as int),
            text@ + unescape(raw.skip(i - at)) == unescape(raw),
        decreases end - i,
    {
        let ghost tail = raw.skip(i - at);
        let ghost before = text@;
        if s[i] == 92 && i + 1 < end && (s[i + 1] == 92 || s[i + 1] == 34) {
            text.push(s[i + 1]);
            assert(tail.skip(2) =~= raw.skip(i - at + 2));
            assert(text@ + unescape(tail.skip(2)) =~= before + (seq![tail[1]] + unescape(
                tail.skip(2),
            )));
            i += 2;
        } else {
            text.push(s[i]);
            assert(tail.skip(1) =~= raw.skip(i - at + 1));
            assert(text@ + unescape(tail.skip(1)) =~= before + (seq![tail[0]] + unescape(
                tail.skip(1),
            )));
            i += 1;
        }
    }
    text
}

/// Reads the value that is written at `at`.
fn read_token(s: &[u8], at: usize) -> (r: Option<(ScalarValue, usize)>)
    requires
        at < s@.len(),
    ensures
        match r {
            Some((value, end)) => token_at(s@, at as int) == Some((value.deep_view(), end as int))
                && at < end <= s@.len(),
            None => token_at(s@, at as int) is None,
        },
{
    if 48 <= s[at] && s[at] <= 57 {
        let end = scan_digits(s, at + 1);
        match read_decimal(s, at, end, 0x7fff_ffff_ffff_ffff) {
            Some(value) => Some((ScalarValue::Number(value as i64), end)),
            None => None,
        }
    } else if s[at] == 34 {
        match scan_quote(s, at + 1) {
            Some(end) => {
                let text = read_text(s, at + 1, end);
                match string_from_utf8(text) {
                    Some(string) => Some((ScalarValue::String(string), end + 1)),
                    None => None,
                }
            },
            None => None,
        }
    } else {
        None
    }
}

/// Reads the values that are written in `s`.
fn read_values(s: &[u8]) -> (r: Option<Vec<ScalarValue>>)
    ensures
        match r {
            Some(values) => values_from(s@, 0) == Some(values.deep_view()),
            None => values_from(s@, 0) is None,
        },
{
    proof {
        vstd::slice::axiom_spec_len(s);
    }
    let mut values: Vec<ScalarValue> = Vec::new();
    let mut at: usize = 0;
    while at < s.len()
        invariant
            at <= s@.len(),
            s@.len() <= usize::MAX,
            values_from(s@, 0) == match values_from(s@, at as int) {
                Some(rest) => Some(values.deep_view() + rest),
                None => None::<Seq<ScalarView>>,
            },
        decreases s@.len() - at,
    {
        match read_token(s, at) {
            Some((value, end)) => {
                let next = scan_spaces(s, end);
                values.push(value);
                at = next;
            },
            None => {
                return None;
            },
        }
    }
    Some(values)
}

/// Tests [`kinds_match`].
fn check_kinds(schema: &Schema, values: &Vec<ScalarValue>) -> (b: bool)
    ensures
        b == kinds_match(schema.types(), values.deep_view()),
{
    if schema.feilds.len() != values.len() {
        return false;
    }
    let mut i: usize = 0;
    while i < values.len()
        invariant
            i <= values@.len(),
            schema.feilds@.len() == values@.len(),
            forall|k: int|
                0 <= k < i ==> ((#[trigger] schema.types()[k]) is String
                    <==> values.deep_view()[k] is String),
        decreases values@.len() - i,
    {
        let fits = match (&schema.feilds[i].1, &values[i]) {
            (DataType::String(_), ScalarValue::String(_)) => true,
            (DataType::Number, ScalarValue::Number(_)) => true,
            _ => false,
        };
        if !fits {
            assert(!(schema.types()[i as int] is String <==> values.deep_view()[i as int]
                is String));
            return false;
        }
        i += 1;
    }
    true
}

/// Reads the values of an insert from bytes.
fn insert_from(rest: &[u8], schema: &Schema) -> (r: Result<Statement, Error>)
    ensures
        match r {
            Ok(statement) => insert_of(rest@, schema.types()) == Ok::<StatementView, Error>(
                statement.deep_view(),
            ),
            Err(e) => insert_of(rest@, schema.types()) == Err::<StatementView, Error>(e),
        },
{
    match read_values(rest) {
        Some(values) => {
            if check_kinds(schema, &values) {
                Ok(Statement::Insert(InsertStatement { values }))
            } else {
                Err(Error::ParseError)
            }
        },
        None => Err(Error::ParseError),
    }
}

/// Reads the index of a read from bytes.
fn read_index(s: &[u8]) -> (r: Option<usize>)
    ensures
        r == index_of(s@),
{
    proof {
        vstd::slice::axiom_spec_len(s);
    }
    let start: usize = if s.len() > 0 && s[0] == 43 {
        1
    } else {
        0
    };
    let ghost digits = s@.skip(start as int);
    assert(s@.skip(0) =~= s@);
    let end = scan_digits(s, start);
    proof {
        if end == s@.len() {
            lemma_digits_end(digits, 0, digits.len() as int);
        } else {
            lemma_digits_end(digits, 0, end - start);
        }
    }
    if end != s.len() || end == start {
        return None;
    }
    match read_decimal(s, start, end, usize::MAX as u64) {
        Some(value) => Some(value as usize),
        None => None,
    }
}

/// Tells whether the bytes of `s` from 0 to `end` are those of `word`.
fn is_word(s: &[u8], end: usize, word: &[u8]) -> (b: bool)
    requires
        end <= s@.len(),
    ensures
        b == (s@.subrange(0, end as int) == word@),
{
    proof {
        vstd::slice::axiom_spec_len(word);
    }
    if word.len() != end {
        return false;
    }
    let mut i: usize = 0;
    while i < end
        invariant
            i <= end <= s@.len(),
            word@.len() == end,
            forall|k: int| 0 <= k < i ==> s@[k] == word@[k],
        decreases end - i,
    {
        if s[i] != word[i] {
            return false;
        }
        i += 1;
    }
    assert(s@.subrange(0, end as int) =~= word@);
    true
}

/// Reads the values of an insert: see [`values_from`]. Anything else is
/// refused with [`Error::ParseError`].
pub fn value_tokens(s: &str) -> (r: Result<Vec<ScalarValue>, Error>)
    ensures
        match r {
            Ok(values) => values_from(s.spec_bytes(), 0) == Some(values.deep_view()),
            Err(e) => e == Error::ParseError && values_from(s.spec_bytes(), 0) is None,
        },
{
    match read_values(s.as_bytes()) {
        Some(values) => Ok(values),
        None => Err(Error::ParseError),
    }
}

impl Statement {
    /// Reads an insert from what stands behind the verb: see [`insert_of`].
    /// Values that are not as many as the fields of the schema, or not of
    /// their kinds, are refused with [`Error::ParseError`], as is anything
    /// that spells no values.
    pub fn insert_statement(values: &str, schema: &Schema) -> (r: Result<Statement, Error>)
        ensures
            match r {
                Ok(statement) => insert_of(values.spec_bytes(), schema.types()) == Ok::<
                    StatementView,
                    Error,
                >(statement.deep_view()),
                Err(e) => insert_of(values.spec_bytes(), schema.types()) == Err::<
                    StatementView,
                    Error,
                >(e),
            },
    {
        insert_from(values.as_bytes(), schema)
    }
}

/// Reads a statement from a line: see [`statement_of`].
///
/// A line without a blank is refused with [`Error::ParseError`], a verb
/// other than `insert` and `read` with [`Error::UnrecognizedCommand`], and
/// what does not spell the values or the index that the verb takes with
/// [`Error::ParseError`].
pub fn prepare_statement(s: &str, schema: &Schema) -> (r: Result<Statement, Error>)
    ensures
        match r {
            Ok(statement) => statement_of(s.spec_bytes(), schema.types()) == Ok::<
                StatementView,
                Error,
            >(statement.deep_view()),
            Err(e) => statement_of(s.spec_bytes(), schema.types()) == Err::<StatementView, Error>(
                e,
            ),
        },
{
    let line = s.as_bytes();
    proof {
        vstd::slice::axiom_spec_len(line);
    }
    let mut blank: usize = 0;
    while blank < line.len() && line[blank] != 32
        invariant
            blank <= line@.len(),
            line@.len() <= usize::MAX,
            forall|i: int| 0 <= i < blank ==> line@[i] != 32,
        decreases line@.len() - blank,
    {
        blank += 1;
    }
    proof {
        lemma_blank_at(line@, 0, blank as int);
    }
    if blank >= line.len() {
        return Err(Error::ParseError);
    }
    let rest = slice_subrange(line, blank + 1, line.len());
    let insert: [u8; 6] = [105, 110, 115, 101, 114, 116];
    let read: [u8; 4] = [114, 101, 97, 100];
    if is_word(line, blank, insert.as_slice()) {
        insert_from(rest, schema)
    } else if is_word(line, blank, read.as_slice()) {
        match read_index(rest) {
            Some(index) => Ok(Statement::Read(index)),
            None => Err(Error::ParseError),
        }
    } else {
        Err(Error::UnrecognizedCommand)
    }
}

} // verus!
