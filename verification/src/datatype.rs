//! Scalar values, field types and the schema that fixes a row's layout.

use vstd::prelude::*;
use vstd::utf8::encode_utf8;

verus! {

/// One value of a row.
#[derive(Debug, Clone, PartialEq, Eq)]
pub enum ScalarValue {
    String(String),
    Number(i64),
}

/// What a [`ScalarValue`] holds, with the text as its characters.
pub enum ScalarView {
    String(Seq<char>),
    Number(i64),
}

impl DeepView for ScalarValue {
    type V = ScalarView;

    open spec fn deep_view(&self) -> ScalarView {
        match self {
            ScalarValue::String(s) => ScalarView::String(s@),
            ScalarValue::Number(x) => ScalarView::Number(*x),
        }
    }
}

/// The character of the decimal digit `d`.
pub open spec fn digit_char(d: int) -> char {
    (48 + d) as char
}

/// A natural number in decimal digits, without leading zeros.
pub open spec fn digits_text(n: int) -> Seq<char>
    decreases n,
{
    if n < 10 {
        seq![digit_char(n)]
    } else {
        digits_text(n / 10).push(digit_char(n % 10))
    }
}

/// A number in decimal digits, with a minus sign before them where it is
/// negative.
pub open spec fn number_text(x: int) -> Seq<char> {
    if x < 0 {
        seq!['-'] + digits_text(-x)
    } else {
        digits_text(x)
    }
}

/// `format!` with `{}` on an `i64`: the number in decimal digits, with a
/// minus sign before them where it is negative.
#[verifier::external_body]
fn i64_text(x: i64) -> (text: String)
    ensures
        text@ == number_text(x as int),
{
    format!("{}", x)
}

impl ScalarValue {
    /// The value as text: a string as it is, a number in decimal digits.
    pub fn render(&self) -> (text: String)
        ensures
            text@ == match self.deep_view() {
                ScalarView::String(s) => s,
                ScalarView::Number(x) => number_text(x as int),
            },
    {
        match self {
            ScalarValue::String(s) => s.clone(),
            ScalarValue::Number(x) => i64_text(*x),
        }
    }
}

/// The type of one field.
#[derive(Debug, Clone, Copy, PartialEq, Eq, Structural)]
pub enum DataType {
    /// A string in a slot of the given number of bytes: one length byte and
    /// the payload.
    String(usize),
    /// A signed 64-bit integer.
    Number,
}

impl DataType {
    /// The number of bytes the field takes in a row.
    pub open spec fn spec_size(&self) -> nat {
        match self {
            DataType::String(n) => *n as nat,
            DataType::Number => 8,
        }
    }

    /// `value` is of this type, and a string fits the payload of its slot:
    /// its UTF-8 form leaves room for the length byte and is no longer than
    /// that byte can say.
    pub open spec fn accepts(&self, value: ScalarView) -> bool {
        match (*self, value) {
            (DataType::String(n), ScalarView::String(s)) => encode_utf8(s).len() < n
                && encode_utf8(s).len() <= 255,
            (DataType::Number, ScalarView::Number(_)) => true,
            _ => false,
        }
    }

    /// The number of bytes the field takes in a row.
    pub fn size(&self) -> (n: usize)
        ensures
            n == self.spec_size(),
    {
        match self {
            DataType::String(n) => *n,
            DataType::Number => 8,
        }
    }

    /// Tests [`Self::accepts`].
    pub fn matches(&self, value: &ScalarValue) -> (b: bool)
        ensures
            b == self.accepts(value.deep_view()),
    {
        match (self, value) {
            (DataType::String(n), ScalarValue::String(s)) => {
                let bytes = s.as_str().as_bytes();
                proof {
                    vstd::slice::axiom_spec_len(bytes);
                }
                bytes.len() < *n && bytes.len() <= 255
            },
            (DataType::Number, ScalarValue::Number(_)) => true,
            _ => false,
        }
    }
}

/// The bytes that fields of the given types take together.
pub open spec fn row_width(types: Seq<DataType>) -> nat
    decreases types.len(),
{
    if types.len() == 0 {
        0
    } else {
        row_width(types.drop_last()) + types.last().spec_size()
    }
}

/// A prefix of the fields is no wider than all of them.
pub proof fn lemma_row_width_prefix(types: Seq<DataType>, n: int)
    requires
        0 <= n <= types.len(),
    ensures
        row_width(types.take(n)) <= row_width(types),
    decreases types.len(),
{
    if n == types.len() {
        assert(types.take(n) =~= types);
    } else {
        lemma_row_width_prefix(types.drop_last(), n);
        assert(types.drop_last().take(n) =~= types.take(n));
    }
}

/// One field more makes the row wider by that field's size.
pub proof fn lemma_row_width_step(types: Seq<DataType>, n: int)
    requires
        0 <= n < types.len(),
    ensures
        row_width(types.take(n + 1)) == row_width(types.take(n)) + types[n].spec_size(),
{
    assert(types.take(n + 1).drop_last() =~= types.take(n));
}

/// The ordered fields of a table's rows.
#[derive(Debug, Clone)]
pub struct Schema {
    pub feilds: Vec<(String, DataType)>,
}

impl Schema {
    /// The types of the fields, in order.
    pub open spec fn types(&self) -> Seq<DataType> {
        Seq::new(self.feilds@.len(), |i: int| self.feilds@[i].1)
    }

    /// The number of bytes of one encoded row.
    pub open spec fn spec_row_size(&self) -> nat {
        row_width(self.types())
    }

    /// `values` has one value for each field, each of its field's type and
    /// each string within its slot's payload.
    pub open spec fn accepts(&self, values: Seq<ScalarView>) -> bool {
        &&& values.len() == self.types().len()
        &&& forall|i: int|
            0 <= i < self.types().len() ==> (#[trigger] self.types()[i]).accepts(values[i])
    }

    /// The number of bytes of one encoded row: the sum of the field sizes.
    pub fn row_size(&self) -> (n: usize)
        requires
            self.spec_row_size() <= usize::MAX,
        ensures
            n == self.spec_row_size(),
    {
        let mut sum: usize = 0;
        let mut i: usize = 0;
        while i < self.feilds.len()
            invariant
                i <= self.feilds@.len(),
                sum == row_width(self.types().take(i as int)),
                self.spec_row_size() <= usize::MAX,
            decreases self.feilds@.len() - i,
        {
            proof {
                lemma_row_width_step(self.types(), i as int);
                lemma_row_width_prefix(self.types(), i + 1);
            }
            sum = sum + self.feilds[i].1.size();
            i += 1;
        }
        assert(self.types().take(i as int) =~= self.types());
        sum
    }

    /// The row size, if a row is no wider than `limit` bytes.
    pub fn checked_row_size(&self, limit: usize) -> (r: Option<usize>)
        ensures
            r is Some <==> self.spec_row_size() <= limit,
            r matches Some(n) ==> n == self.spec_row_size(),
    {
        let mut sum: usize = 0;
        let mut i: usize = 0;
        while i < self.feilds.len()
            invariant
                i <= self.feilds@.len(),
                sum == row_width(self.types().take(i as int)),
                sum <= limit,
            decreases self.feilds@.len() - i,
        {
            let ty = self.feilds[i].1;
            proof {
                lemma_row_width_step(self.types(), i as int);
                lemma_row_width_prefix(self.types(), i + 1);
            }
            if ty.size() > limit - sum {
                return None;
            }
            sum = sum + ty.size();
            i += 1;
        }
        assert(self.types().take(i as int) =~= self.types());
        Some(sum)
    }

    /// Tests [`Self::accepts`].
    pub fn matches(&self, values: &[ScalarValue]) -> (b: bool)
        ensures
            b == self.accepts(values.deep_view()),
    {
        if values.len() != self.feilds.len() {
            return false;
        }
        let mut i: usize = 0;
        while i < self.feilds.len()
            invariant
                i <= self.feilds@.len(),
                values@.len() == self.feilds@.len(),
                forall|k: int|
                    0 <= k < i ==> (#[trigger] self.types()[k]).accepts(values.deep_view()[k]),
            decreases self.feilds@.len() - i,
        {
            if !self.feilds[i].1.matches(&values[i]) {
                assert(!self.types()[i as int].accepts(values.deep_view()[i as int]));
                return false;
            }
            i += 1;
        }
        true
    }
}

} // verus!
