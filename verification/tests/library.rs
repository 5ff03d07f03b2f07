use emmet_expand::checker::input_correctly_close;
use emmet_expand::statement::attribute::AttributeGroup;
use emmet_expand::statement::element::Element;
use emmet_expand::statement::snippets::{apply_snippet, Snippet};
use emmet_expand::statement::Statement;
use emmet_expand::text::{chars_of, contains_chars, find_char, parse_usize, string_of};
use emmet_expand::{expand, expand_is_defined};

fn chars(s: &str) -> Vec<char> {
    s.chars().collect()
}

#[test]
fn expand_gives_markup_for_balanced_input() {
    assert_eq!(expand("html".to_string()), Some("<html></html>".to_string()));
    assert_eq!(
        expand("(p>a)+b".to_string()),
        Some("<p>\n\t<a href=${1}></a>\n</p>\n<b></b>".to_string())
    );
}

#[test]
fn expand_refuses_unbalanced_parentheses() {
    assert_eq!(expand("(div>p".to_string()), None);
    assert_eq!(expand(")(".to_string()), None);
    assert_eq!(expand("div>p)".to_string()), None);
}

#[test]
fn expand_is_defined_tells_where_expansion_fails() {
    assert!(expand_is_defined(&"html>p".to_string()));
    // Unbalanced input is answered with `None`, which is defined.
    assert!(expand_is_defined(&"(div".to_string()));
    // A group without `>` before its `)` cannot be split.
    assert!(!expand_is_defined(&"(div)".to_string()));
    assert!(!expand_is_defined(&"(p)+(a)".to_string()));
    // A group whose first operator is `+` inside the group cannot be split.
    assert!(!expand_is_defined(&"(p+div)".to_string()));
    // A candidate class `.` in last position reads past the end.
    assert!(!expand_is_defined(&"p.".to_string()));
}

#[test]
fn input_correctly_close_checks_parentheses() {
    assert!(input_correctly_close(&"".to_string()));
    assert!(input_correctly_close(&"(a>(b))+c".to_string()));
    assert!(!input_correctly_close(&"(a".to_string()));
    assert!(!input_correctly_close(&"a)(".to_string()));
}

#[test]
fn find_closing_index_finds_the_matching_parenthesis() {
    assert_eq!(Statement::find_closing_index("div>p)+x"), 5);
    assert_eq!(Statement::find_closing_index("a(b)c)"), 5);
    assert_eq!(Statement::find_closing_index("abc"), 3);
    assert_eq!(Statement::find_closing_index(")"), 0);
    // Without a closing `)`, the result is the length in bytes.
    assert_eq!(Statement::find_closing_index("é"), 2);
    assert_eq!(Statement::find_closing_index("é)"), 1);
}

#[test]
fn parse_input_reads_multipliers() {
    assert_eq!(Statement::parse_input("p*abc"), (("p", "", 1), ""));
    assert_eq!(Statement::parse_input("p*+3"), (("p", "", 1), "3"));
    assert_eq!(Statement::parse_input("p*0"), (("p", "", 0), ""));
    assert_eq!(Statement::parse_input("(li>a)*2"), (("li", "a", 2), ""));
    assert_eq!(Statement::parse_input(""), (("", "", 1), ""));
}

#[test]
fn parse_input_splits_groups_followed_by_siblings() {
    assert_eq!(Statement::parse_input("(p)+(a)"), (("p", "", 1), "(a)"));
    assert_eq!(Statement::parse_input("(p>a)+b"), (("p", "a", 1), "b"));
    // The closing number is a character count used as a byte offset: the children end at
    // byte 4, just after `>`.
    assert_eq!(Statement::parse_input("(é>p)+a"), (("é", "", 1), "a"));
}

#[test]
fn group_bounds_are_byte_offsets() {
    assert_eq!(
        Statement::new("(é>p)+a", 0).parse(),
        "<é></é>\n<a href=${1}></a>".to_string()
    );
    assert_eq!(Statement::parse_input("(é>ab)+c"), (("é", "a", 1), "c"));
    assert_eq!(
        Statement::new("(é>ab)+c", 0).parse(),
        "<é>\n\t<a href=${1}></a>\n</é>\n<c></c>".to_string()
    );
    // Without `)` the group ends at the byte length of its text.
    assert_eq!(Statement::parse_input("(ab>c"), (("ab", "c", 1), ""));
    // A bound inside a character cannot be split.
    assert!(!expand_is_defined(&"(é)+a".to_string()));
    assert!(expand_is_defined(&"(é>ab)+c".to_string()));
}

#[test]
fn props_are_cut_at_character_counts() {
    assert_eq!(
        Statement::new("div:éab:c", 0).parse(),
        "<div éa=${1} :c=${1}></div>".to_string()
    );
    // A cut inside a character cannot be made.
    assert!(!expand_is_defined(&"div:é:c".to_string()));
}

#[test]
fn class_search_slices_by_bytes() {
    assert_eq!(
        Statement::new("x.aé", 0).parse(),
        "<x class=\"aé\"></x>".to_string()
    );
    // The byte after the `.` falls inside `é`.
    assert!(!expand_is_defined(&"x.é".to_string()));
    // The `.` counted in characters lands inside `é` as a byte offset.
    assert!(!expand_is_defined(&"é.x".to_string()));
    // The class list's character position coincides with the byte offset of the `:`.
    assert!(!expand_is_defined(&"€a:b.x".to_string()));
}

#[test]
fn multiplier_zero_renders_once() {
    assert_eq!(Statement::new("p*0", 0).parse(), "<p></p>");
    assert_eq!(
        Statement::new("(li>a)*2", 0).parse(),
        "<li>\n\t<a href=${1}></a>\n</li>\n<li>\n\t<a href=${1}></a>\n</li>"
    );
}

#[test]
fn statements_keep_their_base_level() {
    assert_eq!(Statement::new("ul>li", 1).parse(), "\t<ul>\n\t\t<li></li>\n\t</ul>");
    assert_eq!(Statement::new("b+i", 2).parse(), "\t\t<b></b>\n\t\t<i></i>");
}

#[test]
fn element_renders_on_its_level() {
    assert_eq!(Element::new("p".to_string(), None, 2).to_value(), "\t\t<p></p>");
    let child = Statement::new("li", 1);
    assert_eq!(
        Element::new("ul".to_string(), Some(child), 0).to_value(),
        "<ul>\n\t<li></li>\n</ul>"
    );
    assert_eq!(Element::new("br/".to_string(), None, 1).to_value(), "\t<br/>");
    // The multiplier is not part of the tag.
    assert_eq!(Element::new("p*3".to_string(), None, 0).to_value(), "<p></p>");
}

#[test]
fn attribute_group_finds_each_attribute() {
    let g = AttributeGroup::new(&"div.a:x=y<t".to_string());
    assert_eq!(g.start, Some(3));
    assert!(g.has_text());
    assert_eq!(g.len(), 8);
    assert_eq!(g.parse(false), Some(" class=\"a\" x=\"y\">t".to_string()));
}

#[test]
fn attribute_group_without_attributes() {
    let g = AttributeGroup::new(&"div".to_string());
    assert_eq!(g.start, None);
    assert!(!g.has_text());
    assert_eq!(g.len(), 0);
    assert_eq!(g.parse(true), None);
}

#[test]
fn attribute_group_len_counts_bytes() {
    let g = AttributeGroup::new(&"p<é".to_string());
    assert_eq!(g.len(), 3);
}

#[test]
fn attribute_group_closes_the_tag() {
    let g = AttributeGroup::new(&".a:b".to_string());
    assert_eq!(g.parse(true), Some(" class=\"a\" b=${1}/>".to_string()));
    assert_eq!(g.parse(false), Some(" class=\"a\" b=${1}>".to_string()));
    let t = AttributeGroup::new(&"<x".to_string());
    assert_eq!(t.parse(true), Some(">x".to_string()));
}

#[test]
fn prop_with_value_overrides_bare_prop() {
    assert_eq!(Statement::new("img:src:src={x}", 0).parse(), "<img src={x}></img>");
    assert_eq!(Statement::new("a:href=x", 0).parse(), "<a href=\"x\"></a>");
}

#[test]
fn props_keep_braces_and_semicolons() {
    assert_eq!(Statement::new("i:{...p}:on;", 0).parse(), "<i {...p} on></i>");
    assert_eq!(Statement::new("i:f={a:b}", 0).parse(), "<i f={a:b}></i>");
}

#[test]
fn class_dots_inside_prop_values_are_not_classes() {
    assert_eq!(Statement::new("T:v={a.b}", 0).parse(), "<T v={a.b}></T>");
    assert_eq!(Statement::new("T:{...a}", 0).parse(), "<T {...a}></T>");
}

#[test]
fn snippets_expand_names() {
    assert_eq!(apply_snippet(&chars("a")), chars("a:href"));
    assert_eq!(apply_snippet(&chars("a:title=x")), chars("a:href:title=x"));
    assert_eq!(apply_snippet(&chars("input:c")), chars("input:type=checkbox:name:id/"));
    assert_eq!(apply_snippet(&chars("abbr")), chars("abbr"));
    assert_eq!(apply_snippet(&chars("e")), chars(""));
}

#[test]
fn parse_usize_agrees_with_std() {
    for s in ["42", "+7", "", "+", "-1", "007", "1a", "18446744073709551615", "18446744073709551616"] {
        assert_eq!(parse_usize(&chars(s)), s.parse::<usize>().ok(), "{}", s);
    }
}

#[test]
fn text_helpers() {
    assert_eq!(chars_of("héllo"), chars("héllo"));
    assert_eq!(string_of(&chars("a\tb")), "a\tb".to_string());
    assert_eq!(find_char(&chars("ab>c"), '>'), 2);
    assert_eq!(find_char(&chars("abc"), '>'), 3);
    assert!(contains_chars(&chars("href=x"), &chars("ref")));
    assert!(!contains_chars(&chars("href"), &chars("hrefs")));
    assert!(contains_chars(&chars("x"), &chars("")));
}

#[test]
fn snippet_table_lists_each_name_once() {
    let t = Snippet::get();
    let names: Vec<String> = t.iter().map(|(k, _)| k.iter().collect()).collect();
    assert_eq!(names, vec!["a", "e", "input:c", "label"]);
}

#[test]
fn balanced_group_is_closed_inside_the_text() {
    assert!(input_correctly_close(&"(a(b)c)d".to_string()));
    assert_eq!(Statement::find_closing_index("a(b)c)d"), 5);
}

#[test]
fn text_attribute_is_last() {
    let g = AttributeGroup::new(&"div<a.b:c".to_string());
    assert_eq!(g.start, Some(3));
    assert_eq!(g.len(), 6);
    assert_eq!(g.parse(false), Some(">a.b:c".to_string()));
}

#[test]
fn clones_render_the_same() {
    let s = Statement::new("ul>li*2+p", 0);
    let c = s.clone();
    assert_eq!(c.parse(), s.parse());
    let e = Element::new("ul".to_string(), Some(Statement::new("li", 1)), 0);
    assert_eq!(e.clone().to_value(), e.to_value());
}

#[test]
fn multiplier_repeats_the_element() {
    let one = Statement::new("p.x", 0).parse();
    assert_eq!(Statement::new("p.x*3", 0).parse(), vec![one.clone(), one.clone(), one].join("\n"));
}

#[test]
fn plus_adds_a_sibling_on_the_next_line() {
    let a = Statement::new("b", 1).parse();
    let b = Statement::new("i>a", 1).parse();
    assert_eq!(Statement::new("b+i>a", 1).parse(), format!("{}\n{}", a, b));
}

#[test]
fn level_indents_every_line() {
    let flat = Statement::new("ul>li*2>a", 0).parse();
    let indented: Vec<String> = flat.split('\n').map(|x| format!("\t\t{}", x)).collect();
    assert_eq!(Statement::new("ul>li*2>a", 2).parse(), indented.join("\n"));
}

#[test]
fn text_after_star_is_ignored() {
    assert_eq!(
        Element::new("p*3.x".to_string(), None, 0).to_value(),
        Element::new("p".to_string(), None, 0).to_value()
    );
}

#[test]
fn group_len_covers_the_text_from_start() {
    let s = "div.a:x=y<t";
    let g = AttributeGroup::new(&s.to_string());
    assert_eq!(g.len(), s.len() - g.start.unwrap_or(s.len()));
}

#[test]
fn text_attribute_ends_the_group() {
    let g = AttributeGroup::new(&"p.a<hey".to_string());
    assert_eq!(g.parse(true), g.parse(false));
    assert!(g.parse(false).unwrap().ends_with(">hey"));
}
