use vstd::prelude::*;

use crate::catalog::VariableType;
use crate::text::{chars_of, string_of};

verus! {

/// Each backtick doubled.
pub open spec fn double_backticks(s: Seq<char>) -> Seq<char>
    decreases s.len(),
{
    if s.len() == 0 {
        Seq::empty()
    } else if s.last() == '`' {
        double_backticks(s.drop_last()) + seq!['`', '`']
    } else {
        double_backticks(s.drop_last()).push(s.last())
    }
}

/// A name quoted as an SQL identifier.
pub open spec fn quoted_identifier(s: Seq<char>) -> Seq<char> {
    seq!['`'] + double_backticks(s) + seq!['`']
}

/// `name` quoted as an SQL identifier: in backticks, each backtick inside doubled.
pub fn escape_identifier(name: &str) -> (r: String)
    ensures
        r@ == quoted_identifier(name@),
{
    let s = chars_of(name);
    let mut out: Vec<char> = Vec::new();
    out.push('`');
    let mut i: usize = 0;
    while i < s.len()
        invariant
            i <= s@.len(),
            out@ == seq!['`'] + double_backticks(s@.subrange(0, i as int)),
        decreases s@.len() - i,
    {
        assert(s@.subrange(0, i + 1).drop_last() =~= s@.subrange(0, i as int));
        if s[i] == '`' {
            out.push('`');
            out.push('`');
        } else {
            out.push(s[i]);
        }
        assert(out@ =~= seq!['`'] + double_backticks(s@.subrange(0, i + 1)));
        i = i + 1;
    }
    assert(s@.subrange(0, i as int) =~= s@);
    out.push('`');
    assert(out@ =~= quoted_identifier(name@));
    string_of(&out)
}

/// Whether a value of this kind is sent as a bound string parameter rather
/// than written into the statement: all kinds but boolean, integer and numeric.
pub open spec fn is_bound(t: VariableType) -> bool {
    !(t == VariableType::Boolean || t == VariableType::Integer || t == VariableType::Numeric)
}

pub fn value_is_bound(t: VariableType) -> (r: bool)
    ensures
        r == is_bound(t),
{
    match t {
        VariableType::Boolean | VariableType::Integer | VariableType::Numeric => false,
        _ => true,
    }
}

/// The statement text that sets global variable `name` to `value_text`.
pub open spec fn set_global_text(name: Seq<char>, value_text: Seq<char>) -> Seq<char> {
    "SET GLOBAL "@ + quoted_identifier(name) + " = "@ + value_text + ";"@
}

/// `SET GLOBAL <quoted name> = <value_text>;`
pub fn set_global_sql(name: &str, value_text: &str) -> (r: String)
    ensures
        r@ == set_global_text(name@, value_text@),
{
    let mut out = String::from_str("SET GLOBAL ");
    let q = escape_identifier(name);
    out.append(q.as_str());
    out.append(" = ");
    out.append(value_text);
    out.append(";");
    out
}

/// The placeholder that a bound value takes in the statement.
pub fn value_placeholder() -> (r: &'static str)
    ensures
        r@ == ":value"@,
{
    ":value"
}

/// The statement that applies `value` to `name` for a variable of kind `t`,
/// and the value to bind to its placeholder where the kind is bound.
pub fn set_statement(name: &str, value: &str, t: VariableType) -> (r: (String, Option<String>))
    ensures
        is_bound(t) ==> r.0@ == set_global_text(name@, ":value"@) && r.1 is Some && r.1->0@ == value@,
        !is_bound(t) ==> r.0@ == set_global_text(name@, value@) && r.1 is None,
{
    if value_is_bound(t) {
        (set_global_sql(name, value_placeholder()), Some(value.to_owned()))
    } else {
        (set_global_sql(name, value), None)
    }
}

} // verus!
