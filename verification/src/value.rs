//! Typed property and query values.
use crate::error::{DbError, QueryError};
use crate::text::{parse_i64, push_signed, signed_decimal, signed_literal, text_equals, trim, trim_ws};
use vstd::prelude::*;
use vstd::std_specs::cmp::PartialEqSpecImpl;
use vstd::std_specs::convert::FromSpecImpl;

verus! {

/// Supported scalar property types.
#[derive(Clone, Copy, Debug, PartialEq, Eq, Structural, Hash, PartialOrd, Ord)]
pub enum PropertyType {
    /// Boolean property.
    Boolean,
    /// Signed 64-bit integer property.
    Integer,
    /// UTF-8 text property.
    Text,
}

/// One typed property value.
#[derive(Clone, Debug, Eq, Hash, PartialOrd, Ord)]
pub enum PropertyValue {
    /// Boolean value.
    Boolean(bool),
    /// Signed integer value.
    Integer(i64),
    /// UTF-8 text value.
    Text(String),
}

/// The mathematical content of a [`PropertyValue`]: text is its character
/// sequence.
pub enum ValueView {
    /// Boolean value.
    Boolean(bool),
    /// Signed integer value.
    Integer(i64),
    /// Text value as characters.
    Text(Seq<char>),
}

impl View for PropertyValue {
    type V = ValueView;

    open spec fn view(&self) -> ValueView {
        match self {
            PropertyValue::Boolean(b) => ValueView::Boolean(*b),
            PropertyValue::Integer(i) => ValueView::Integer(*i),
            PropertyValue::Text(s) => ValueView::Text(s@),
        }
    }
}

/// The type tag of a value view.
pub open spec fn value_type_of(v: ValueView) -> PropertyType {
    match v {
        ValueView::Boolean(_) => PropertyType::Boolean,
        ValueView::Integer(_) => PropertyType::Integer,
        ValueView::Text(_) => PropertyType::Text,
    }
}

impl PartialEq for PropertyValue {
    fn eq(&self, other: &Self) -> (r: bool) {
        match (self, other) {
            (PropertyValue::Boolean(a), PropertyValue::Boolean(b)) => *a == *b,
            (PropertyValue::Integer(a), PropertyValue::Integer(b)) => *a == *b,
            (PropertyValue::Text(a), PropertyValue::Text(b)) => *a == *b,
            _ => false,
        }
    }
}

impl PartialEqSpecImpl for PropertyValue {
    open spec fn obeys_eq_spec() -> bool {
        true
    }

    open spec fn eq_spec(&self, other: &Self) -> bool {
        self@ == other@
    }
}

impl PropertyValue {
    /// Returns this value's type tag.
    pub fn value_type(&self) -> (t: PropertyType)
        ensures
            t == value_type_of(self@),
    {
        match self {
            PropertyValue::Boolean(_) => PropertyType::Boolean,
            PropertyValue::Integer(_) => PropertyType::Integer,
            PropertyValue::Text(_) => PropertyType::Text,
        }
    }

    /// Returns the text payload, or `None` for a non-text value.
    pub fn as_text(&self) -> (r: Option<&str>)
        ensures
            match self@ {
                ValueView::Text(s) => r.is_some() && r.unwrap()@ == s,
                _ => r.is_none(),
            },
    {
        match self {
            PropertyValue::Text(value) => Some(value.as_str()),
            _ => None,
        }
    }

    /// Returns the integer payload, or `None` for a non-integer value.
    pub fn as_int(&self) -> (r: Option<i64>)
        ensures
            match self@ {
                ValueView::Integer(i) => r == Some(i),
                _ => r.is_none(),
            },
    {
        match self {
            PropertyValue::Integer(value) => Some(*value),
            _ => None,
        }
    }

    /// Returns the integer payload narrowed to `usize`, or `None` when the
    /// value is not an integer or falls outside `usize` range.
    pub fn as_count(&self) -> (r: Option<usize>)
        ensures
            match self@ {
                ValueView::Integer(i) => if 0 <= i && i <= usize::MAX {
                    r == Some(i as usize)
                } else {
                    r.is_none()
                },
                _ => r.is_none(),
            },
    {
        match self {
            PropertyValue::Integer(value) => {
                if *value >= 0 && (*value as u64) <= (usize::MAX as u64) {
                    Some(*value as usize)
                } else {
                    None
                }
            },
            _ => None,
        }
    }

    /// Returns the boolean payload, or `None` for a non-boolean value.
    pub fn as_bool(&self) -> (r: Option<bool>)
        ensures
            match self@ {
                ValueView::Boolean(b) => r == Some(b),
                _ => r.is_none(),
            },
    {
        match self {
            PropertyValue::Boolean(value) => Some(*value),
            _ => None,
        }
    }

    /// Narrows an unsigned 64-bit value into an integer value.
    ///
    /// Fails with `ValueOutOfRange` when the value exceeds `i64::MAX`.
    pub fn try_from_u64(value: u64) -> (r: Result<PropertyValue, DbError>)
        ensures
            value <= i64::MAX ==> r == Ok::<PropertyValue, DbError>(
                PropertyValue::Integer(value as i64),
            ),
            value > i64::MAX ==> r == Err::<PropertyValue, DbError>(
                DbError::Query(QueryError::ValueOutOfRange),
            ),
    {
        if value <= i64::MAX as u64 {
            Ok(PropertyValue::Integer(value as i64))
        } else {
            Err(DbError::Query(QueryError::ValueOutOfRange))
        }
    }

    /// Narrows a pointer-width unsigned value into an integer value.
    ///
    /// Fails with `ValueOutOfRange` when the value exceeds `i64::MAX`.
    pub fn try_from_usize(value: usize) -> (r: Result<PropertyValue, DbError>)
        ensures
            value <= i64::MAX ==> r == Ok::<PropertyValue, DbError>(
                PropertyValue::Integer(value as i64),
            ),
            value > i64::MAX ==> r == Err::<PropertyValue, DbError>(
                DbError::Query(QueryError::ValueOutOfRange),
            ),
    {
        PropertyValue::try_from_u64(value as u64)
    }

    /// Copies a string slice into a text value.
    pub fn from_str_slice(value: &str) -> (r: PropertyValue)
        ensures
            r@ == ValueView::Text(value@),
    {
        PropertyValue::Text(value.to_owned())
    }
}

/// Lexicographic order of byte strings: `-1`, `0` or `1` as `a` sorts
/// before, equal to, or after `b`.
pub open spec fn bytes_order(a: Seq<u8>, b: Seq<u8>) -> int
    decreases a.len(),
{
    if a.len() == 0 {
        if b.len() == 0 {
            0
        } else {
            -1
        }
    } else if b.len() == 0 {
        1
    } else if a[0] < b[0] {
        -1
    } else if a[0] > b[0] {
        1
    } else {
        bytes_order(a.drop_first(), b.drop_first())
    }
}

/// Rank of a value's variant in the value order.
pub open spec fn variant_rank(v: ValueView) -> int {
    match v {
        ValueView::Boolean(_) => 0,
        ValueView::Integer(_) => 1,
        ValueView::Text(_) => 2,
    }
}

/// The total order of property values: booleans before integers before
/// text; `false < true`; integers numerically; text by its UTF-8 bytes.
/// `-1`, `0` or `1` as `a` sorts before, equal to, or after `b`.
pub open spec fn value_order(a: ValueView, b: ValueView) -> int {
    match (a, b) {
        (ValueView::Boolean(x), ValueView::Boolean(y)) => if x == y {
            0
        } else if !x {
            -1
        } else {
            1
        },
        (ValueView::Integer(x), ValueView::Integer(y)) => if x < y {
            -1
        } else if x == y {
            0
        } else {
            1
        },
        (ValueView::Text(x), ValueView::Text(y)) => bytes_order(
            vstd::utf8::encode_utf8(x),
            vstd::utf8::encode_utf8(y),
        ),
        _ => if variant_rank(a) < variant_rank(b) {
            -1
        } else {
            1
        },
    }
}

/// Every byte string sorts equal to itself.
pub proof fn lemma_bytes_order_reflexive(a: Seq<u8>)
    ensures
        bytes_order(a, a) == 0,
    decreases a.len(),
{
    if a.len() > 0 {
        lemma_bytes_order_reflexive(a.drop_first());
    }
}

/// Every value sorts equal to itself.
pub proof fn lemma_value_order_reflexive(v: ValueView)
    ensures
        value_order(v, v) == 0,
{
    if let ValueView::Text(x) = v {
        lemma_bytes_order_reflexive(vstd::utf8::encode_utf8(x));
    }
}

/// Compares two byte strings lexicographically.
fn order_bytes(a: &[u8], b: &[u8]) -> (c: i8)
    ensures
        c == bytes_order(a@, b@),
{
    let mut i: usize = 0;
    proof {
        assert(a@.skip(0) =~= a@);
        assert(b@.skip(0) =~= b@);
    }
    while i < a.len() && i < b.len()
        invariant
            i <= a@.len(),
            i <= b@.len(),
            bytes_order(a@, b@) == bytes_order(a@.skip(i as int), b@.skip(i as int)),
        decreases a@.len() - i,
    {
        if a[i] < b[i] {
            return -1;
        }
        if a[i] > b[i] {
            return 1;
        }
        proof {
            assert(a@.skip(i as int).drop_first() =~= a@.skip(i as int + 1));
            assert(b@.skip(i as int).drop_first() =~= b@.skip(i as int + 1));
        }
        i = i + 1;
    }
    if i < a.len() {
        1
    } else if i < b.len() {
        -1
    } else {
        0
    }
}

/// Compares two property values in the value order.
pub fn order_values(a: &PropertyValue, b: &PropertyValue) -> (c: i8)
    ensures
        c == value_order(a@, b@),
{
    match (a, b) {
        (PropertyValue::Boolean(x), PropertyValue::Boolean(y)) => if *x == *y {
            0
        } else if !*x {
            -1
        } else {
            1
        },
        (PropertyValue::Integer(x), PropertyValue::Integer(y)) => if *x < *y {
            -1
        } else if *x == *y {
            0
        } else {
            1
        },
        (PropertyValue::Text(x), PropertyValue::Text(y)) => order_bytes(
            x.as_str().as_bytes(),
            y.as_str().as_bytes(),
        ),
        (PropertyValue::Boolean(_), _) => -1,
        (PropertyValue::Text(_), _) => 1,
        (PropertyValue::Integer(_), PropertyValue::Boolean(_)) => 1,
        (PropertyValue::Integer(_), PropertyValue::Text(_)) => -1,
    }
}

impl From<bool> for PropertyValue {
    fn from(value: bool) -> Self {
        PropertyValue::Boolean(value)
    }
}

impl FromSpecImpl<bool> for PropertyValue {
    open spec fn obeys_from_spec() -> bool {
        true
    }

    open spec fn from_spec(v: bool) -> Self {
        PropertyValue::Boolean(v)
    }
}

impl From<i64> for PropertyValue {
    fn from(value: i64) -> Self {
        PropertyValue::Integer(value)
    }
}

impl FromSpecImpl<i64> for PropertyValue {
    open spec fn obeys_from_spec() -> bool {
        true
    }

    open spec fn from_spec(v: i64) -> Self {
        PropertyValue::Integer(v)
    }
}

impl From<String> for PropertyValue {
    fn from(value: String) -> Self {
        PropertyValue::Text(value)
    }
}

impl FromSpecImpl<String> for PropertyValue {
    open spec fn obeys_from_spec() -> bool {
        true
    }

    open spec fn from_spec(v: String) -> Self {
        PropertyValue::Text(v)
    }
}


/// The text between matching quote characters `q` at both ends of `t`.
pub open spec fn quoted_inner(t: Seq<char>, q: char) -> Option<Seq<char>> {
    if t.len() >= 2 && t[0] == q && t.last() == q {
        Some(t.subrange(1, t.len() - 1))
    } else {
        None
    }
}

/// The text of a single- or double-quoted literal, or the literal itself as
/// the error.
pub open spec fn quoted_literal(t: Seq<char>) -> Result<Seq<char>, Seq<char>> {
    match quoted_inner(t, '\'') {
        Some(inner) => Ok(inner),
        None => match quoted_inner(t, '"') {
            Some(inner) => Ok(inner),
            None => Err(t),
        },
    }
}

/// How a query literal token reads as a property value: `true`, `false`, a
/// signed 64-bit integer, or quoted text; otherwise the trimmed token is the
/// error.
pub open spec fn value_token(token: Seq<char>) -> Result<ValueView, Seq<char>> {
    let t = trim_ws(token);
    if t == "true"@ {
        Ok(ValueView::Boolean(true))
    } else if t == "false"@ {
        Ok(ValueView::Boolean(false))
    } else if signed_literal(t) is Some && i64::MIN <= signed_literal(t)->0 <= i64::MAX {
        Ok(ValueView::Integer(signed_literal(t)->0 as i64))
    } else {
        match quoted_literal(t) {
            Ok(inner) => Ok(ValueView::Text(inner)),
            Err(e) => Err(e),
        }
    }
}

/// Strips one pair of matching quotes from `token`.
pub fn parse_quoted(token: &str) -> (r: Result<String, String>)
    ensures
        match quoted_literal(token@) {
            Ok(inner) => r matches Ok(s) && s@ == inner,
            Err(e) => r matches Err(s) && s@ == e,
        },
{
    let n = token.unicode_len();
    if n >= 2 {
        let first = token.get_char(0);
        let last = token.get_char(n - 1);
        if first == '\'' && last == '\'' {
            return Ok(token.substring_char(1, n - 1).to_owned());
        }
        if first == '"' && last == '"' {
            return Ok(token.substring_char(1, n - 1).to_owned());
        }
    }
    Err(token.to_owned())
}

/// Parses a query literal token into a property value.
pub fn parse_value_token(token: &str) -> (r: Result<PropertyValue, String>)
    ensures
        match value_token(token@) {
            Ok(v) => r matches Ok(p) && p@ == v,
            Err(e) => r matches Err(s) && s@ == e,
        },
{
    let trimmed = trim(token);
    if text_equals(trimmed, "true") {
        return Ok(PropertyValue::Boolean(true));
    }
    if text_equals(trimmed, "false") {
        return Ok(PropertyValue::Boolean(false));
    }
    match parse_i64(trimmed) {
        Some(v) => {
            return Ok(PropertyValue::Integer(v));
        },
        None => {},
    }
    match parse_quoted(trimmed) {
        Ok(s) => Ok(PropertyValue::Text(s)),
        Err(e) => Err(e),
    }
}

/// The display text of a value: `true`/`false`, decimal digits, or the text
/// itself.
pub open spec fn value_text(v: ValueView) -> Seq<char> {
    match v {
        ValueView::Boolean(b) => if b {
            "true"@
        } else {
            "false"@
        },
        ValueView::Integer(i) => signed_decimal(i as int),
        ValueView::Text(t) => t,
    }
}

/// Appends the display text of a value.
pub fn push_value_text(out: &mut String, v: &PropertyValue)
    ensures
        final(out)@ == old(out)@ + value_text(v@),
{
    match v {
        PropertyValue::Boolean(b) => {
            if *b {
                out.append("true");
            } else {
                out.append("false");
            }
        },
        PropertyValue::Integer(i) => push_signed(out, *i),
        PropertyValue::Text(t) => out.append(t.as_str()),
    }
}

} // verus!
