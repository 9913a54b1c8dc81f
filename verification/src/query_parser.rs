//! The simple `kind:name` patterns of the `find` operation.
use vstd::prelude::*;
use crate::text::{
    append_chars, chars_eq, chars_of, ends_with, spec_ends_with, spec_split_once, spec_starts_with,
    split_once, starts_with, string_of,
};

verus! {

/// A node kind, and a predicate on each of some of its fields.
#[derive(Debug, PartialEq, Eq)]
pub struct FindPattern {
    pub node_kind: String,
    pub fields: Vec<FieldPattern>,
}

/// A field of a node: its name, the kind of node it must hold if any, and a
/// predicate on its text.
#[derive(Debug, PartialEq, Eq)]
pub struct FieldPattern {
    pub field_name: String,
    pub node_kind: Option<String>,
    pub value: ValuePattern,
}

/// A predicate on a text.
#[derive(Debug, PartialEq, Eq)]
pub enum ValuePattern {
    Exact(String),
    StartsWith(String),
    EndsWith(String),
}

pub enum ValuePatternView {
    Exact(Seq<char>),
    StartsWith(Seq<char>),
    EndsWith(Seq<char>),
}

impl View for ValuePattern {
    type V = ValuePatternView;

    open spec fn view(&self) -> ValuePatternView {
        match self {
            ValuePattern::Exact(s) => ValuePatternView::Exact(s@),
            ValuePattern::StartsWith(s) => ValuePatternView::StartsWith(s@),
            ValuePattern::EndsWith(s) => ValuePatternView::EndsWith(s@),
        }
    }
}

pub open spec fn spec_value_match(p: ValuePatternView, actual: Seq<char>) -> bool {
    match p {
        ValuePatternView::Exact(e) => actual == e,
        ValuePatternView::StartsWith(e) => spec_starts_with(actual, e),
        ValuePatternView::EndsWith(e) => spec_ends_with(actual, e),
    }
}

/// Whether `actual` meets the predicate.
pub fn value_match(pattern: &ValuePattern, actual: &str) -> (r: bool)
    ensures
        r == spec_value_match(pattern@, actual@),
{
    let a = chars_of(actual);
    match pattern {
        ValuePattern::Exact(e) => chars_eq(&a, &chars_of(e.as_str())),
        ValuePattern::StartsWith(e) => starts_with(&a, &chars_of(e.as_str())),
        ValuePattern::EndsWith(e) => ends_with(&a, &chars_of(e.as_str())),
    }
}

pub struct FieldPatternView {
    pub field_name: Seq<char>,
    pub node_kind: Option<Seq<char>>,
    pub value: ValuePatternView,
}

impl View for FieldPattern {
    type V = FieldPatternView;

    open spec fn view(&self) -> FieldPatternView {
        FieldPatternView {
            field_name: self.field_name@,
            node_kind: match &self.node_kind {
                Some(k) => Some(k@),
                None => None,
            },
            value: self.value@,
        }
    }
}

pub struct FindPatternView {
    pub node_kind: Seq<char>,
    pub fields: Seq<FieldPatternView>,
}

impl View for FindPattern {
    type V = FindPatternView;

    open spec fn view(&self) -> FindPatternView {
        FindPatternView { node_kind: self.node_kind@, fields: self.fields@.map_values(|f: FieldPattern| f@) }
    }
}

pub open spec fn missing_colon_message() -> Seq<char> {
    "expected a pattern such as `call:eval` or `class:User`"@
}

pub open spec fn empty_name_message() -> Seq<char> {
    "the pattern name cannot be empty"@
}

pub open spec fn unsupported_kind_message(kind: Seq<char>) -> Seq<char> {
    "unsupported pattern kind `"@ + kind + "`; expected `call` or `class`"@
}

/// `call:<name>` or `class:<name>`: a call whose function, or a class whose
/// name, is the identifier `<name>`.
pub open spec fn spec_find_pattern(pattern: Seq<char>) -> Result<FindPatternView, Seq<char>> {
    match spec_split_once(pattern, ':') {
        None => Err(missing_colon_message()),
        Some((kind, name)) => if name.len() == 0 {
            Err(empty_name_message())
        } else if kind == "call"@ {
            Ok(
                FindPatternView {
                    node_kind: "call"@,
                    fields: seq![
                        FieldPatternView {
                            field_name: "function"@,
                            node_kind: Some("identifier"@),
                            value: ValuePatternView::Exact(name),
                        },
                    ],
                },
            )
        } else if kind == "class"@ {
            Ok(
                FindPatternView {
                    node_kind: "class_definition"@,
                    fields: seq![
                        FieldPatternView {
                            field_name: "name"@,
                            node_kind: Some("identifier"@),
                            value: ValuePatternView::Exact(name),
                        },
                    ],
                },
            )
        } else {
            Err(unsupported_kind_message(kind))
        },
    }
}

impl FindPattern {
    /// Reads a `kind:name` pattern.
    pub fn parse(pattern: &str) -> (r: Result<Self, String>)
        ensures
            match r {
                Ok(p) => spec_find_pattern(pattern@) == Ok::<FindPatternView, Seq<char>>(p@),
                Err(e) => spec_find_pattern(pattern@) == Err::<FindPatternView, Seq<char>>(e@),
            },
    {
        proof {
            reveal_strlit("expected a pattern such as `call:eval` or `class:User`");
            reveal_strlit("the pattern name cannot be empty");
            reveal_strlit("call");
            reveal_strlit("class");
            reveal_strlit("class_definition");
            reveal_strlit("function");
            reveal_strlit("name");
            reveal_strlit("identifier");
            reveal_strlit("unsupported pattern kind `");
            reveal_strlit("`; expected `call` or `class`");
        }
        let chars = chars_of(pattern);
        let (kind, name) = match split_once(&chars, ':') {
            Some(parts) => parts,
            None => {
                return Err("expected a pattern such as `call:eval` or `class:User`".to_owned());
            },
        };
        if name.len() == 0 {
            return Err("the pattern name cannot be empty".to_owned());
        }
        let (node_kind, field_name) = if chars_eq(&kind, &chars_of("call")) {
            ("call", "function")
        } else if chars_eq(&kind, &chars_of("class")) {
            ("class_definition", "name")
        } else {
            let mut message = chars_of("unsupported pattern kind `");
            append_chars(&mut message, &kind);
            append_chars(&mut message, &chars_of("`; expected `call` or `class`"));
            assert(message@ =~= unsupported_kind_message(kind@));
            return Err(string_of(&message));
        };
        let field = FieldPattern {
            field_name: field_name.to_owned(),
            node_kind: Some("identifier".to_owned()),
            value: ValuePattern::Exact(string_of(&name)),
        };
        let mut fields: Vec<FieldPattern> = Vec::new();
        fields.push(field);
        let p = FindPattern { node_kind: node_kind.to_owned(), fields };
        proof {
            let fv = p@.fields;
            assert(fv =~= seq![p.fields@[0]@]);
        }
        Ok(p)
    }
}

} // verus!
