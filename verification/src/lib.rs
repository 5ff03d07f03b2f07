//! Expansion of compact tag abbreviations into indented markup.
//!
//! `div.box>p*2+a:href={url}` describes a `div` with class `box` holding two `p` elements and
//! an `a` element: `>` goes down to the children, `+` adds a sibling, `(...)` groups, `*n`
//! repeats, `.x` adds classes, `:x=y` adds props and `<text` adds the inner text.

pub mod checker;
pub mod statement;
pub mod text;

use vstd::prelude::*;
use checker::{correctly_closed, input_correctly_close};
use statement::{build, build_defined, render_statement, statement_tree_defined, Statement};
use text::{chars_of, string_of};

verus! {

/// Expanding `s` is defined: building its statement and rendering it are.
pub open spec fn expansion_defined(s: Seq<char>) -> bool {
    build_defined(s, 0) && statement_tree_defined(build(s, 0))
}

/// Expands an abbreviation into markup; `None` when its parentheses are not balanced.
pub fn expand(input: String) -> (r: Option<String>)
    requires
        correctly_closed(input@) ==> expansion_defined(input@),
    ensures
        r is None <==> !correctly_closed(input@),
        r matches Some(x) ==> x@ == render_statement(build(input@, 0)),
{
    if !input_correctly_close(&input) {
        return None;
    }
    Some(Statement::new(input.as_str(), 0).parse())
}

/// Whether `expand` is defined on `input`: it is unless the parentheses are balanced and the
/// abbreviation cannot be split or rendered.
pub fn expand_is_defined(input: &String) -> (b: bool)
    ensures
        b == (correctly_closed(input@) ==> expansion_defined(input@)),
{
    if !input_correctly_close(input) {
        return true;
    }
    let s = chars_of(input.as_str());
    match Statement::new_checked(&s, 0) {
        Some(t) => t.parse_checked().is_some(),
        None => false,
    }
}

} // verus!
