//! Elements: one tag with its attributes and, possibly, its children.

use vstd::prelude::*;
use crate::text::{
    byte_len, char_pos, char_pos_exec, is_boundary, lemma_byte_offset_ends, lemma_char_pos, lemma_char_pos_at,
    append_all, append_repeat, chars_of, find_char, index_of, lemma_index_of, line_free, repeat_char,
    string_of, sub_chars,
};
use super::attribute::{
    attributes_renderable, group_defined, group_output, group_spec, has_text_attribute, lemma_group_output_line_free,
    lemma_group_start, AttributeGroup,
    AttributeModel,
};
use super::snippets::{apply_snippet, expanded_value, lemma_expanded_value_line_free};
use super::{element_tree_defined, render_element, Statement, StatementModel};

verus! {

/// What an element holds, as values.
pub struct ElementModel {
    pub value: Seq<char>,
    pub childs: Option<Box<StatementModel>>,
    pub level: usize,
}

/// One element of a statement, with its children one level deeper.
#[derive(Debug)]
pub struct Element {
    value: String,
    childs: Option<Box<Statement>>,
    level: usize,
}

/// The element text before any `*` multiplier.
pub open spec fn element_name(value: Seq<char>) -> Seq<char> {
    value.take(index_of(value, '*'))
}

/// The element text once its snippet, if any, is expanded.
pub open spec fn element_text(value: Seq<char>) -> Seq<char> {
    expanded_value(element_name(value))
}

/// The element text ends with `/`, which makes a single tag.
pub open spec fn ends_with_slash(v: Seq<char>) -> bool {
    v.len() > 0 && v.last() == '/'
}

/// The element text without its closing `/`.
pub open spec fn clean_text(v: Seq<char>) -> Seq<char> {
    if ends_with_slash(v) {
        v.drop_last()
    } else {
        v
    }
}

/// Rendering the element itself is defined when its attributes can be split, the first
/// attribute's number is a character boundary of the text (the tag ends there), and every props
/// attribute can be cut into props.
pub open spec fn element_defined(value: Seq<char>) -> bool {
    let clean = clean_text(element_text(value));
    let g = group_spec(clean);
    &&& group_defined(clean)
    &&& (g.start matches Some(p) ==> is_boundary(clean, p as int))
    &&& attributes_renderable(g.attributes)
}

/// The tag name: the text before the first attribute's number (taken as a byte offset), `div`
/// when that is empty but there are attributes.
pub open spec fn element_tag(value: Seq<char>) -> Seq<char> {
    let clean = clean_text(element_text(value));
    let g = group_spec(clean);
    let tag = clean.take(
        char_pos(
            clean,
            match g.start {
                Some(p) => p as int,
                None => byte_len(clean) as int,
            },
        ),
    );
    if g.attributes.len() > 0 && tag.len() == 0 {
        seq!['d', 'i', 'v']
    } else {
        tag
    }
}

/// The markup of an element from its parts: the opening tag indented by `tabs`, then either
/// `/>` (single) or the children's lines and the closing tag.
pub open spec fn element_markup(
    tag: Seq<char>,
    attrs: Seq<AttributeModel>,
    single: bool,
    child_value: Seq<char>,
    tabs: Seq<char>,
) -> Seq<char> {
    if single {
        tabs + seq!['<'] + tag + if attrs.len() > 0 {
            group_output(attrs, true)
        } else {
            seq!['/', '>']
        }
    } else {
        tabs + seq!['<'] + tag + (if attrs.len() > 0 {
            group_output(attrs, false)
        } else {
            seq!['>']
        }) + child_value + seq!['<', '/'] + tag + seq!['>']
    }
}

/// The children's lines of an element: the rendered children between newlines, then the
/// indentation of the closing tag; nothing without children.
pub open spec fn child_lines(child: Option<Seq<char>>, tabs: Seq<char>) -> Seq<char> {
    match child {
        Some(c) => seq!['\n'] + c + seq!['\n'] + tabs,
        None => Seq::<char>::empty(),
    }
}

/// The markup of an element with the given text, rendered children (if any) and level: the
/// opening tag indented by `level` tabs, then either `/>` (a text ending with `/`, no children,
/// no inner text) or the children on their own lines and the closing tag, indented like the
/// opening tag on a line of its own when there are children.
pub open spec fn element_output(value: Seq<char>, child: Option<Seq<char>>, level: usize) -> Seq<char> {
    let v = element_text(value);
    let g = group_spec(clean_text(v));
    let tabs = repeat_char('\t', level as nat);
    let child_value = child_lines(child, tabs);
    element_markup(
        element_tag(value),
        g.attributes,
        ends_with_slash(v) && child_value.len() == 0 && !has_text_attribute(g.attributes),
        child_value,
        tabs,
    )
}

/// An element text without newlines gives a tag and attribute markup without newlines.
pub proof fn lemma_element_parts_line_free(value: Seq<char>)
    requires
        line_free(value),
    ensures
        line_free(element_tag(value)),
        line_free(group_output(group_spec(clean_text(element_text(value))).attributes, true)),
        line_free(group_output(group_spec(clean_text(element_text(value))).attributes, false)),
{
    let name = element_name(value);
    lemma_index_of(value, '*');
    assert(line_free(name));
    lemma_expanded_value_line_free(name);
    let clean = clean_text(element_text(value));
    assert(line_free(clean));
    lemma_group_output_line_free(clean, true);
    lemma_group_output_line_free(clean, false);
    lemma_group_start(clean);
    lemma_char_pos(
        clean,
        match group_spec(clean).start {
            Some(p) => p as int,
            None => byte_len(clean) as int,
        },
    );
}

/// An element text whose first attribute starts right away, so that it names no tag, renders
/// with the tag `div`, whatever kind the attributes are: the markup starts with the
/// indentation and `<div`, and without a closing `/` it ends with `</div>`.
pub proof fn lemma_missing_tag_is_div(value: Seq<char>, child: Option<Seq<char>>, level: usize)
    requires
        group_spec(clean_text(element_text(value))).start == Some(0usize),
    ensures
        ({
            let r = element_output(value, child, level);
            &&& r.len() >= level + 4
            &&& r.take(level + 4) == repeat_char('\t', level as nat) + seq!['<', 'd', 'i', 'v']
            &&& !ends_with_slash(element_text(value)) ==> r.len() >= 6 && r.skip(r.len() - 6) == seq![
                '<',
                '/',
                'd',
                'i',
                'v',
                '>',
            ]
        }),
{
    let clean = clean_text(element_text(value));
    lemma_group_start(clean);
    lemma_byte_offset_ends(clean);
    lemma_char_pos_at(clean, 0);
    assert(clean.take(0) =~= Seq::<char>::empty());
    let div = seq!['d', 'i', 'v'];
    assert(element_tag(value) == div);
    let r = element_output(value, child, level);
    let tabs = repeat_char('\t', level as nat);
    let g = group_spec(clean);
    let single = ends_with_slash(element_text(value)) && child_lines(child, tabs).len() == 0
        && !has_text_attribute(g.attributes);
    let a = group_output(g.attributes, single);
    if single {
        assert(r == tabs + seq!['<'] + div + a);
    } else {
        let cv = child_lines(child, tabs);
        assert(r == tabs + seq!['<'] + div + a + cv + seq!['<', '/'] + div + seq!['>']);
        assert(r.skip(r.len() - 6) =~= seq!['<', '/', 'd', 'i', 'v', '>']);
    }
    assert(r.take(level + 4) =~= tabs + seq!['<', 'd', 'i', 'v']);
}

impl Clone for Element {
    fn clone(&self) -> (r: Self)
        ensures
            r.model() == self.model(),
    {
        self.copy()
    }
}

impl Element {
    /// A copy of the element, its children included.
    pub(crate) fn copy(&self) -> (r: Self)
        ensures
            r.model() == self.model(),
        decreases self,
    {
        let childs = match &self.childs {
            Some(c) => Some(Box::new(c.copy())),
            None => None,
        };
        Element { value: self.value.clone(), childs, level: self.level }
    }

    pub closed spec fn model(&self) -> ElementModel
        decreases self,
    {
        ElementModel {
            value: self.value@,
            childs: match self.childs {
                Some(c) => Some(Box::new(c.model())),
                None => None,
            },
            level: self.level,
        }
    }

    /// Creates a new element; its children are a statement one level lower.
    pub fn new(value: String, childs: Option<Statement>, level: usize) -> (e: Self)
        ensures
            e.model() == (ElementModel {
                value: value@,
                childs: match childs {
                    Some(c) => Some(Box::new(c.model())),
                    None => None,
                },
                level,
            }),
    {
        let childs = match childs {
            Some(v) => Some(Box::new(v)),
            None => None,
        };
        Element { value, childs, level }
    }

    /// Parses the element value to markup (see `render_element`).
    pub fn to_value(&self) -> (r: String)
        requires
            element_tree_defined(self.model()),
        ensures
            r@ == render_element(self.model()),
    {
        let v = self.to_value_checked();
        string_of(&v.unwrap())
    }

    /// The markup of the element, or `None` where rendering is not defined.
    pub(crate) fn to_value_checked(&self) -> (r: Option<Vec<char>>)
        ensures
            r is Some <==> element_tree_defined(self.model()),
            r matches Some(x) ==> x@ == render_element(self.model()),
        decreases self,
    {
        let value = chars_of(self.value.as_str());
        let (v, clean, attributes) = match Self::text_and_attributes(&value) {
            Some(x) => x,
            None => {
                return None;
            },
        };
        let tag = Self::tag(&clean, &attributes, Ghost(value@));
        let nv = v.len();
        let ends_slash = nv > 0 && v[nv - 1] == '/';
        let mut child_value: Vec<char> = Vec::new();
        let has_child = match &self.childs {
            Some(c) => {
                match c.parse_checked() {
                    Some(rendered) => {
                        child_value.push('\n');
                        append_all(&mut child_value, &rendered);
                        child_value.push('\n');
                        append_repeat(&mut child_value, '\t', self.level);
                        true
                    },
                    None => {
                        return None;
                    },
                }
            },
            None => false,
        };
        let single = ends_slash && !has_child && !attributes.has_text();
        let out = Self::markup(&tag, &attributes, single, &child_value, self.level);
        let ghost child = match self.model().childs {
            Some(c) => Some(super::render_statement(*c)),
            None => None,
        };
        assert(out@ == element_output(value@, child, self.level));
        Some(out)
    }

    /// The element text after its snippet, the same without its closing `/`, and its
    /// attribute group; `None` where the element cannot be rendered.
    fn text_and_attributes(value: &[char]) -> (r: Option<(Vec<char>, Vec<char>, AttributeGroup)>)
        ensures
            r is Some <==> element_defined(value@),
            r matches Some(x) ==> {
                &&& x.0@ == element_text(value@)
                &&& x.1@ == clean_text(x.0@)
                &&& x.2.model() == group_spec(x.1@)
                &&& x.2.start == group_spec(x.1@).start
                &&& element_defined(value@)
            },
    {
        let star = find_char(value, '*');
        proof {
            lemma_index_of(value@, '*');
        }
        let name = sub_chars(value, 0, star);
        assert(name@ =~= element_name(value@));
        let v = apply_snippet(&name);
        let nv = v.len();
        let clean = if nv > 0 && v[nv - 1] == '/' {
            sub_chars(&v, 0, nv - 1)
        } else {
            sub_chars(&v, 0, nv)
        };
        assert(clean@ =~= clean_text(v@));
        let clean_value = string_of(&clean);
        let g = match AttributeGroup::new_checked(&clean_value) {
            Some(g) => g,
            None => {
                return None;
            },
        };
        let start_ok = match g.start {
            Some(p) => char_pos_exec(&clean, p).1,
            None => true,
        };
        if !start_ok || !g.renderable() {
            return None;
        }
        Some((v, clean, g))
    }

    /// The tag name (see `element_tag`).
    fn tag(clean: &Vec<char>, attributes: &AttributeGroup, Ghost(value): Ghost<Seq<char>>) -> (tag: Vec<char>)
        requires
            clean@ == clean_text(element_text(value)),
            attributes.model() == group_spec(clean@),
            attributes.start == group_spec(clean@).start,
            element_defined(value),
        ensures
            tag@ == element_tag(value),
    {
        proof {
            lemma_group_start(clean@);
            lemma_byte_offset_ends(clean@);
            lemma_char_pos_at(clean@, clean@.len() as int);
        }
        let tag_end = match attributes.start {
            Some(p) => char_pos_exec(clean, p).0,
            None => clean.len(),
        };
        proof {
            lemma_char_pos(clean@, match attributes.start {
                Some(p) => p as int,
                None => byte_len(clean@) as int,
            });
        }
        let has_attributes = attributes.parse(false).is_some();
        let tag = sub_chars(clean, 0, tag_end);
        if has_attributes && tag.len() == 0 {
            proof {
                reveal_strlit("div");
            }
            chars_of("div")
        } else {
            tag
        }
    }

    /// Assembles an element's markup from its parts (see `element_markup`).
    fn markup(
        tag: &Vec<char>,
        attributes: &AttributeGroup,
        single: bool,
        child_value: &Vec<char>,
        level: usize,
    ) -> (out: Vec<char>)
        requires
            attributes_renderable(attributes.model().attributes),
        ensures
            out@ == element_markup(
                tag@,
                attributes.model().attributes,
                single,
                child_value@,
                repeat_char('\t', level as nat),
            ),
    {
        let mut out: Vec<char> = Vec::new();
        append_repeat(&mut out, '\t', level);
        out.push('<');
        append_all(&mut out, tag);
        match attributes.parse(single) {
            Some(a) => {
                let av = chars_of(a.as_str());
                append_all(&mut out, &av);
            },
            None => {
                if single {
                    out.push('/');
                }
                out.push('>');
            },
        }
        if !single {
            append_all(&mut out, child_value);
            out.push('<');
            out.push('/');
            append_all(&mut out, tag);
            out.push('>');
        }
        out
    }
}

} // verus!
