//! The raw rule table.
//!
//! An outside loader parses a rule document into these plain structures; the
//! engine is then built from them. Nothing here is validated yet: boolean
//! fields are still tokens (`"yes"` / `"no"`) and patterns are still pattern
//! text.

use vstd::prelude::*;
use vstd::string::StringExecFns;
use crate::error::Error;
use crate::strutil::str_eq;

verus! {

/// The root of a raw rule table.
#[derive(Debug)]
pub struct SRX {
    pub version: Option<String>,
    pub header: Header,
    pub body: Body,
}

/// Table-wide settings.
#[derive(Debug)]
pub struct Header {
    pub segmentsubflows: Option<String>,
    pub cascade: String,
    pub handles: Vec<FormatHandle>,
}

/// A markup-handling directive. Plain text segmentation ignores these.
#[derive(Debug)]
pub struct FormatHandle {
    pub kind: String,
    pub value: String,
}

/// The two halves of the table: the rule buckets and the language map.
#[derive(Debug)]
pub struct Body {
    pub languagerules: LanguageRules,
    pub maprules: MapRules,
}

/// All rule buckets, in declaration order.
#[derive(Debug)]
pub struct LanguageRules {
    pub rules: Vec<LanguageRule>,
}

/// The language map, in declaration order.
#[derive(Debug)]
pub struct MapRules {
    pub maps: Vec<LanguageMap>,
}

/// One named rule bucket: an ordered list of raw rule definitions.
#[derive(Debug)]
pub struct LanguageRule {
    pub name: String,
    pub rules: Vec<Rule>,
}

/// One raw rule definition: a break/no-break token and the two optional
/// context patterns.
#[derive(Debug)]
pub struct Rule {
    pub do_break: String,
    pub beforebreak: Option<String>,
    pub afterbreak: Option<String>,
}

/// One language-map entry: a language-code pattern and the name of the rule
/// bucket it selects.
#[derive(Debug)]
pub struct LanguageMap {
    pub pattern: String,
    pub name: String,
}

/// The mathematical content of a raw rule definition.
pub ghost struct RawRuleView {
    pub do_break: Seq<char>,
    pub beforebreak: Option<Seq<char>>,
    pub afterbreak: Option<Seq<char>>,
}

impl View for Rule {
    type V = RawRuleView;

    open spec fn view(&self) -> RawRuleView {
        RawRuleView {
            do_break: self.do_break@,
            beforebreak: match self.beforebreak {
                Some(s) => Some(s@),
                None => None,
            },
            afterbreak: match self.afterbreak {
                Some(s) => Some(s@),
                None => None,
            },
        }
    }
}

/// The mathematical content of a rule bucket declaration.
pub ghost struct GroupView {
    pub name: Seq<char>,
    pub rules: Seq<RawRuleView>,
}

impl View for LanguageRule {
    type V = GroupView;

    open spec fn view(&self) -> GroupView {
        GroupView { name: self.name@, rules: self.rules@.map_values(|r: Rule| r@) }
    }
}

/// The mathematical content of a language-map entry.
pub ghost struct MapPairView {
    pub pattern: Seq<char>,
    pub name: Seq<char>,
}

impl View for LanguageMap {
    type V = MapPairView;

    open spec fn view(&self) -> MapPairView {
        MapPairView { pattern: self.pattern@, name: self.name@ }
    }
}

/// The mathematical content of a raw rule table: everything engine
/// construction reads.
pub ghost struct TableView {
    pub cascade: Seq<char>,
    pub maps: Seq<MapPairView>,
    pub groups: Seq<GroupView>,
}

impl View for SRX {
    type V = TableView;

    open spec fn view(&self) -> TableView {
        TableView {
            cascade: self.header.cascade@,
            maps: self.body.maprules.maps@.map_values(|m: LanguageMap| m@),
            groups: self.body.languagerules.rules@.map_values(|g: LanguageRule| g@),
        }
    }
}

/// Whether a string is one of the two boolean tokens of a rule table.
pub open spec fn is_bool_token(s: Seq<char>) -> bool {
    s == "yes"@ || s == "no"@
}

/// The value of a boolean token.
pub open spec fn bool_token_value(s: Seq<char>) -> bool {
    s == "yes"@
}

/// Parses the boolean tokens of a rule table: `"yes"` is true, `"no"` is
/// false, anything else is an error.
pub fn string_to_bool(string: &str) -> (r: Result<bool, Error>)
    ensures
        r is Ok <==> is_bool_token(string@),
        r matches Ok(b) ==> b == bool_token_value(string@),
        r matches Err(e) ==> (e matches Error::SRXError { reason } && reason@ == (
        "unexpected boolean value '"@ + string@ + "'. Expected 'yes' or 'no'."@)),
{
    if str_eq(string, "yes") {
        Ok(true)
    } else if str_eq(string, "no") {
        Ok(false)
    } else {
        let mut reason = String::from_str("unexpected boolean value '");
        reason.append(string);
        reason.append("'. Expected 'yes' or 'no'.");
        Err(Error::SRXError { reason })
    }
}

} // verus!
