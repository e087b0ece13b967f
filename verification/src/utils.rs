//! Anchored pattern compilation helpers.

use vstd::prelude::*;
use vstd::string::StringExecFns;
use crate::matcher::CompiledRegex;
use crate::matcher::pattern_compiles;

verus! {

/// A pattern anchored at the end of the text.
pub open spec fn end_anchored(re: Seq<char>) -> Seq<char> {
    re + seq!['$']
}

/// A pattern anchored at the start of the text.
pub open spec fn start_anchored(re: Seq<char>) -> Seq<char> {
    seq!['^'] + re
}

/// A pattern anchored at both ends: it must match the whole text.
pub open spec fn full_anchored(re: Seq<char>) -> Seq<char> {
    seq!['^'] + re + seq!['$']
}

/// Compiles `re` anchored at the end (`re$`).
pub fn end_regex(re: &str) -> (r: Result<CompiledRegex, String>)
    ensures
        r is Ok <==> pattern_compiles(end_anchored(re@)),
        r matches Ok(c) ==> c.pattern() == end_anchored(re@),
{
    let mut p = String::from_str(re);
    p.append("$");
    proof {
        reveal_strlit("$");
        assert(p@ =~= end_anchored(re@));
    }
    CompiledRegex::compile(p.as_str())
}

/// Compiles `re` anchored at the start (`^re`).
pub fn start_regex(re: &str) -> (r: Result<CompiledRegex, String>)
    ensures
        r is Ok <==> pattern_compiles(start_anchored(re@)),
        r matches Ok(c) ==> c.pattern() == start_anchored(re@),
{
    let mut p = String::from_str("^");
    p.append(re);
    proof {
        reveal_strlit("^");
        assert(p@ =~= start_anchored(re@));
    }
    CompiledRegex::compile(p.as_str())
}

/// Compiles `re` anchored at both ends (`^re$`), as the language map needs
/// it: a language pattern must match the whole language code.
pub fn full_regex(re: &str) -> (r: Result<CompiledRegex, String>)
    ensures
        r is Ok <==> pattern_compiles(full_anchored(re@)),
        r matches Ok(c) ==> c.pattern() == full_anchored(re@),
{
    let mut p = String::from_str("^");
    p.append(re);
    p.append("$");
    proof {
        reveal_strlit("^");
        reveal_strlit("$");
        assert(p@ =~= full_anchored(re@));
    }
    CompiledRegex::compile(p.as_str())
}

} // verus!
