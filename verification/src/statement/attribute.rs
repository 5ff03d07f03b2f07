//! Attributes of one element: the class list, the props and the inner text.

use vstd::prelude::*;
use crate::text::{
    byte_len, byte_offset, byte_offset_exec, char_pos, char_pos_exec, is_boundary, lemma_ascii_offsets,
    lemma_boundary_next, lemma_byte_offset_ends, lemma_byte_offset_grows, lemma_byte_offset_order,
    lemma_byte_offset_step, lemma_char_pos, lemma_char_pos_at, lemma_char_pos_monotone, utf8_width,
    utf8_width_exec, append_all, append_range, append_str, chars_of, concat_all, contains_chars, contains_seq, count_char,
    find_char, first_hit, has_char, index_of, lemma_count_step, lemma_first_hit, lemma_first_hit_unique, lemma_index_of,
    free_of, line_free, lemma_concat_all_free, occurs_at, string_of, sub_chars, CharProbe, Probe,
};

verus! {

/// The kind of an attribute segment: `.a.b` classes, `:x=y` props, `<text`.
#[derive(PartialEq, Eq, Structural, Clone, Copy, Debug)]
pub enum AttributeType {
    Class,
    Props,
    Text,
}

/// The value of an attribute.
pub struct AttributeModel {
    pub value: Seq<char>,
    pub kind: AttributeType,
}

/// One attribute segment of an element.
pub struct Attribute {
    value: String,
    attribute_type: AttributeType,
}

/// The values of a list of attributes.
pub open spec fn attribute_models(v: Seq<Attribute>) -> Seq<AttributeModel> {
    v.map_values(|a: Attribute| a.model())
}

// ---------------------------------------------------------------------------
// Props: `name=value` pairs separated by `:` outside braces
// ---------------------------------------------------------------------------

/// `{` seen minus `}` seen before position `i`.
pub open spec fn brace_depth(s: Seq<char>, i: int) -> int {
    count_char(s.take(i), '{') - count_char(s.take(i), '}')
}

/// A `:` that is not inside braces separates two props.
pub open spec fn is_prop_separator(s: Seq<char>, i: int) -> bool {
    s[i] == ':' && brace_depth(s, i) == 0
}

/// The character positions of the separators among the first `n` characters of `s`.
pub open spec fn separators_upto(s: Seq<char>, n: int) -> Seq<int>
    decreases n,
{
    if n <= 0 {
        Seq::empty()
    } else if is_prop_separator(s, n - 1) {
        separators_upto(s, n - 1).push(n - 1)
    } else {
        separators_upto(s, n - 1)
    }
}

/// The character positions of all separators of `s`.
pub open spec fn prop_separators(s: Seq<char>) -> Seq<int> {
    separators_upto(s, s.len() as int)
}

/// Where the piece after the first `j` separators starts, as a byte offset: 0 for the first
/// piece, else one past the position of the `j`-th separator.
pub open spec fn piece_start(seps: Seq<int>, j: int) -> int {
    if j == 0 {
        0
    } else {
        seps[j - 1] + 1
    }
}

/// The pieces that end at a separator: each runs from its start to the position of its
/// separator, both taken as byte offsets.
pub open spec fn closed_pieces(s: Seq<char>, seps: Seq<int>) -> Seq<Seq<char>> {
    Seq::new(seps.len(), |j: int| s.subrange(char_pos(s, piece_start(seps, j)), char_pos(s, seps[j])))
}

/// The props of `s`: `s` cut at every `:` that is outside braces.  The cut counts the
/// separators' positions in characters and slices at them as byte offsets, so in a text with
/// non-ASCII characters the pieces shift: `éab:c` is cut into `éa` and `:c`.
pub open spec fn split_props(s: Seq<char>) -> Seq<Seq<char>> {
    let seps = prop_separators(s);
    closed_pieces(s, seps).push(s.skip(char_pos(s, piece_start(seps, seps.len() as int))))
}

/// Cutting the props is defined: the position of each separator, and the one after it, are
/// character boundaries when taken as byte offsets.
pub open spec fn props_defined(s: Seq<char>) -> bool {
    forall|j: int|
        0 <= j < prop_separators(s).len() ==> is_boundary(s, #[trigger] prop_separators(s)[j]) && is_boundary(
            s,
            prop_separators(s)[j] + 1,
        )
}

/// The separators are separators of `s`, in increasing order, and those of a prefix come
/// first.
proof fn lemma_separators(s: Seq<char>, m: int, n: int)
    requires
        0 <= m <= n <= s.len(),
    ensures
        forall|j: int|
            0 <= j < separators_upto(s, n).len() ==> 0 <= #[trigger] separators_upto(s, n)[j] < n
                && is_prop_separator(s, separators_upto(s, n)[j]),
        forall|i: int, j: int|
            0 <= i < j < separators_upto(s, n).len() ==> #[trigger] separators_upto(s, n)[i]
                < #[trigger] separators_upto(s, n)[j],
        separators_upto(s, m).len() <= separators_upto(s, n).len(),
        separators_upto(s, m) == separators_upto(s, n).take(separators_upto(s, m).len() as int),
    decreases n,
{
    if n > 0 {
        if m == n {
            lemma_separators(s, m - 1, n - 1);
        } else {
            lemma_separators(s, m, n - 1);
        }
        let prev = separators_upto(s, n - 1);
        let cur = separators_upto(s, n);
        if is_prop_separator(s, n - 1) {
            assert forall|j: int| 0 <= j < cur.len() implies 0 <= #[trigger] cur[j] < n && is_prop_separator(s, cur[j]) by {
                if j < prev.len() {
                    assert(cur[j] == prev[j]);
                }
            }
            assert forall|i: int, j: int| 0 <= i < j < cur.len() implies #[trigger] cur[i] < #[trigger] cur[j] by {
                assert(cur[i] == prev[i]);
                if j < prev.len() {
                    assert(cur[j] == prev[j]);
                }
            }
            if m < n {
                let k = separators_upto(s, m).len() as int;
                assert(cur.take(k) =~= prev.take(k));
            } else {
                assert(cur.take(cur.len() as int) =~= cur);
            }
        } else if m == n {
            assert(cur.take(cur.len() as int) =~= cur);
        }
    } else {
        assert(separators_upto(s, m) =~= Seq::<int>::empty());
    }
}

/// A prop is dropped when another prop's name (the part before its `=`) contains it
/// and that other prop is longer: a bare `href` gives way to `href=x`.
pub open spec fn shadowed(props: Seq<Seq<char>>, p: Seq<char>) -> bool {
    exists|j: int|
        0 <= j < props.len() && contains_seq(#[trigger] props[j].take(index_of(props[j], '=')), p)
            && props[j].len() > p.len()
}

/// The markup of one prop.
pub open spec fn render_prop(p: Seq<char>) -> Seq<char> {
    let e = index_of(p, '=');
    if e < p.len() {
        let name = p.take(e + 1);
        let value = p.skip(e + 1);
        if value.contains('{') {
            seq![' '] + name + value
        } else {
            seq![' '] + name + seq!['"'] + value + seq!['"']
        }
    } else if p.len() > 0 && (p[0] == '{' || p.last() == ';') {
        seq![' '] + if p.last() == ';' {
            p.drop_last()
        } else {
            p
        }
    } else {
        seq![' '] + p + seq!['=', '$', '{', '1', '}']
    }
}

/// What each prop contributes: nothing when shadowed, else its markup.
pub open spec fn prop_outputs(props: Seq<Seq<char>>) -> Seq<Seq<char>> {
    Seq::new(
        props.len(),
        |i: int|
            if shadowed(props, props[i]) {
                Seq::<char>::empty()
            } else {
                render_prop(props[i])
            },
    )
}

/// The markup of a props attribute.
pub open spec fn props_output(v: Seq<char>) -> Seq<char> {
    concat_all(prop_outputs(split_props(v)))
}

/// `v` with every `.` turned into a space.
pub open spec fn dots_to_spaces(v: Seq<char>) -> Seq<char> {
    Seq::new(v.len(), |i: int| if v[i] == '.' { ' ' } else { v[i] })
}

/// The markup of one attribute.
pub open spec fn render_attribute(a: AttributeModel) -> Seq<char> {
    match a.kind {
        AttributeType::Text => seq!['>'] + a.value,
        AttributeType::Class => seq![' ', 'c', 'l', 'a', 's', 's', '=', '"'] + dots_to_spaces(a.value)
            + seq!['"'],
        AttributeType::Props => props_output(a.value),
    }
}

impl Attribute {
    pub closed spec fn model(&self) -> AttributeModel {
        AttributeModel { value: self.value@, kind: self.attribute_type }
    }

    /// Length of the attribute's text in bytes.
    pub fn len(&self) -> (r: usize)
        ensures
            r == byte_len(self.model().value) as usize,
    {
        self.value.as_str().len()
    }

    /// The props of the attribute's text (see `split_props`), or `None` where a cut falls
    /// inside a character.
    fn get_props(v: &[char]) -> (r: Option<Vec<Vec<char>>>)
        ensures
            r is Some <==> props_defined(v@),
            r matches Some(p) ==> pieces_view(p@) == split_props(v@),
    {
        let n = v.len();
        let ghost all = prop_separators(v@);
        let mut pieces: Vec<Vec<char>> = Vec::new();
        let mut last: usize = 0;
        let mut opens: usize = 0;
        let mut closes: usize = 0;
        let mut i: usize = 0;
        proof {
            lemma_separators(v@, 0, n as int);
            assert(pieces_view(pieces@) =~= closed_pieces(v@, separators_upto(v@, 0)));
        }
        while i < n
            invariant
                n == v@.len(),
                i <= n,
                all == prop_separators(v@),
                opens == count_char(v@.take(i as int), '{'),
                closes == count_char(v@.take(i as int), '}'),
                pieces_view(pieces@) == closed_pieces(v@, separators_upto(v@, i as int)),
                last == piece_start(separators_upto(v@, i as int), separators_upto(v@, i as int).len() as int),
                last <= i,
                separators_upto(v@, i as int).len() <= all.len(),
                separators_upto(v@, i as int) == all.take(separators_upto(v@, i as int).len() as int),
                forall|j: int|
                    0 <= j < separators_upto(v@, i as int).len() ==> is_boundary(v@, #[trigger] all[j])
                        && is_boundary(v@, all[j] + 1),
            decreases n - i,
        {
            proof {
                lemma_count_step(v@, '{', i as int);
                lemma_count_step(v@, '}', i as int);
                lemma_separators(v@, i + 1, n as int);
                lemma_separators(v@, i as int, i + 1);
            }
            let ghost seps = separators_upto(v@, i as int);
            let c = v[i];
            if c == ':' && opens == closes {
                assert(is_prop_separator(v@, i as int));
                assert(separators_upto(v@, i + 1) == seps.push(i as int));
                assert(all.take(seps.len() as int + 1) == seps.push(i as int));
                assert(all.take(seps.len() as int + 1)[seps.len() as int] == all[seps.len() as int]);
                assert(all[seps.len() as int] == i);
                let (e, e_ok) = char_pos_exec(v, i);
                let (nx, nx_ok) = char_pos_exec(v, i + 1);
                if !(e_ok && nx_ok) {
                    return None;
                }
                let (a, _) = char_pos_exec(v, last);
                proof {
                    lemma_char_pos_monotone(v@, last as int, i as int);
                    lemma_char_pos(v@, i as int);
                }
                let piece = sub_chars(v, a, e);
                let ghost before = pieces@;
                pieces.push(piece);
                proof {
                    let seps2 = seps.push(i as int);
                    let old_view = closed_pieces(v@, seps);
                    let new_view = closed_pieces(v@, seps2);
                    assert(pieces_view(pieces@) =~= pieces_view(before).push(piece@));
                    assert forall|j: int| 0 <= j < new_view.len() implies #[trigger] new_view[j] == pieces_view(
                        pieces@,
                    )[j] by {
                        if j < seps.len() {
                            assert(seps2[j] == seps[j]);
                            assert(piece_start(seps2, j) == piece_start(seps, j));
                            assert(new_view[j] == old_view[j]);
                        } else {
                            assert(piece_start(seps2, j) == piece_start(seps, j));
                        }
                    }
                    assert(pieces_view(pieces@) =~= new_view);
                }
                last = i + 1;
            } else {
                assert(!is_prop_separator(v@, i as int));
                assert(separators_upto(v@, i + 1) == seps);
            }
            if c == '{' {
                opens = opens + 1;
            } else if c == '}' {
                closes = closes + 1;
            }
            i = i + 1;
        }
        assert(separators_upto(v@, n as int) == all);
        assert(all.take(all.len() as int) =~= all);
        let (a, _) = char_pos_exec(v, last);
        proof {
            lemma_char_pos(v@, last as int);
        }
        let tail = sub_chars(v, a, n);
        assert(tail@ =~= v@.skip(a as int));
        proof {
            assert(pieces_view(pieces@.push(tail)) =~= pieces_view(pieces@).push(tail@));
        }
        pieces.push(tail);
        Some(pieces)
    }

    /// Markup of one prop.
    fn prop_markup(p: &[char]) -> (r: Vec<char>)
        ensures
            r@ == render_prop(p@),
    {
        let n = p.len();
        let e = find_char(p, '=');
        proof {
            lemma_index_of(p@, '=');
        }
        let mut out: Vec<char> = Vec::new();
        out.push(' ');
        if e < n {
            let value_has_brace = has_char_from(p, '{', e + 1);
            append_range(&mut out, p, 0, e + 1);
            if value_has_brace {
                append_range(&mut out, p, e + 1, n);
                assert(out@ =~= seq![' '] + p@.take(e + 1) + p@.skip(e + 1));
            } else {
                out.push('"');
                append_range(&mut out, p, e + 1, n);
                out.push('"');
                assert(out@ =~= seq![' '] + p@.take(e + 1) + seq!['"'] + p@.skip(e + 1) + seq!['"']);
            }
        } else if n > 0 && (p[0] == '{' || p[n - 1] == ';') {
            if p[n - 1] == ';' {
                append_range(&mut out, p, 0, n - 1);
                assert(out@ =~= seq![' '] + p@.drop_last());
            } else {
                append_range(&mut out, p, 0, n);
                assert(out@ =~= seq![' '] + p@);
            }
        } else {
            append_range(&mut out, p, 0, n);
            out.push('=');
            out.push('$');
            out.push('{');
            out.push('1');
            out.push('}');
            assert(out@ =~= seq![' '] + p@ + seq!['=', '$', '{', '1', '}']);
        }
        out
    }

    /// Whether some prop of `props` shadows `p` (see `shadowed`).
    fn is_shadowed(props: &Vec<Vec<char>>, p: &[char]) -> (r: bool)
        ensures
            r == shadowed(pieces_view(props@), p@),
    {
        let ghost ps = pieces_view(props@);
        let n = props.len();
        let mut j: usize = 0;
        while j < n
            invariant
                n == props@.len(),
                ps == pieces_view(props@),
                j <= n,
                forall|k: int|
                    0 <= k < j ==> !(contains_seq(#[trigger] ps[k].take(index_of(ps[k], '=')), p@)
                        && ps[k].len() > p@.len()),
            decreases n - j,
        {
            let el = &props[j];
            let e = find_char(el, '=');
            proof {
                lemma_index_of(el@, '=');
            }
            let name = sub_chars(el, 0, e);
            assert(name@ == ps[j as int].take(index_of(ps[j as int], '=')));
            if contains_chars(&name, p) && el.len() > p.len() {
                return true;
            }
            j = j + 1;
        }
        false
    }

    /// Markup of a props attribute.
    fn props_markup(v: &[char]) -> (r: Vec<char>)
        requires
            props_defined(v@),
        ensures
            r@ == props_output(v@),
    {
        let props = Self::get_props(v).unwrap();
        let ghost ps = pieces_view(props@);
        let ghost outs = prop_outputs(ps);
        let n = props.len();
        let mut out: Vec<char> = Vec::new();
        let mut i: usize = 0;
        while i < n
            invariant
                n == props@.len(),
                ps == pieces_view(props@),
                outs == prop_outputs(ps),
                i <= n,
                out@ == concat_all(outs.take(i as int)),
            decreases n - i,
        {
            assert(outs.take(i + 1).drop_last() =~= outs.take(i as int));
            let p = &props[i];
            assert(p@ == ps[i as int]);
            if !Self::is_shadowed(&props, p) {
                let m = Self::prop_markup(p);
                append_all(&mut out, &m);
            } else {
                assert(outs[i as int] =~= Seq::<char>::empty());
                assert(out@ =~= out@ + outs[i as int]);
            }
            i = i + 1;
        }
        assert(outs.take(n as int) =~= outs);
        out
    }

    /// Parses the attribute to markup according to its kind (props need cuts that fall on
    /// character boundaries).
    pub fn parse(&self) -> (r: String)
        requires
            self.model().kind == AttributeType::Props ==> props_defined(self.model().value),
        ensures
            r@ == render_attribute(self.model()),
    {
        let v = chars_of(self.value.as_str());
        let mut out: Vec<char> = Vec::new();
        match self.attribute_type {
            AttributeType::Text => {
                out.push('>');
                append_all(&mut out, &v);
                assert(out@ =~= seq!['>'] + v@);
            },
            AttributeType::Class => {
                append_str(&mut out, " class=\"");
                proof {
                    reveal_strlit(" class=\"");
                }
                let ghost head = out@;
                let n = v.len();
                let mut i: usize = 0;
                while i < n
                    invariant
                        n == v@.len(),
                        i <= n,
                        out@ == head + dots_to_spaces(v@).take(i as int),
                    decreases n - i,
                {
                    if v[i] == '.' {
                        out.push(' ');
                    } else {
                        out.push(v[i]);
                    }
                    assert(dots_to_spaces(v@).take(i + 1) =~= dots_to_spaces(v@).take(i as int).push(
                        dots_to_spaces(v@)[i as int],
                    ));
                    i = i + 1;
                }
                out.push('"');
                assert(dots_to_spaces(v@).take(n as int) =~= dots_to_spaces(v@));
                assert(out@ =~= seq![' ', 'c', 'l', 'a', 's', 's', '=', '"'] + dots_to_spaces(v@)
                    + seq!['"']);
            },
            AttributeType::Props => {
                out = Self::props_markup(&v);
            },
        }
        string_of(&out)
    }
}


// ---------------------------------------------------------------------------
// Attribute groups: where each attribute starts and ends
// ---------------------------------------------------------------------------

/// What the search for the class list finds at character position `i`: `Some(true)` where a
/// `.` there starts the class list, `Some(false)` where it does not, and `None` where the check
/// slices the text at a byte offset that is not a character boundary.  The search counts `i`
/// in characters and slices at it as a byte offset: the `.` is skipped when it belongs to a
/// prop's variable (a `:` in the bytes before `i`, and a `}` or `:` from byte `i + 1` on) or to
/// a `..` run (the byte before `i`, or the byte after it, is a `.`).
pub open spec fn class_dot_check(s: Seq<char>, i: int) -> Option<bool> {
    if s[i] != '.' {
        Some(false)
    } else if !is_boundary(s, i) {
        None
    } else {
        let p = char_pos(s, i);
        let in_prop = if s.take(p).contains(':') {
            if is_boundary(s, i + 1) {
                let rest = s.skip(char_pos(s, i + 1));
                Some(rest.contains('}') || rest.contains(':'))
            } else {
                None
            }
        } else {
            Some(false)
        };
        match in_prop {
            None => None,
            Some(true) => Some(false),
            Some(false) => {
                let dot_before = if i == 0 {
                    Some(false)
                } else if is_boundary(s, i - 1) {
                    Some(s.subrange(char_pos(s, i - 1), p) == seq!['.'])
                } else {
                    None
                };
                match dot_before {
                    None => None,
                    Some(true) => Some(false),
                    Some(false) => if is_boundary(s, i + 1) && is_boundary(s, i + 2) {
                        Some(s.subrange(char_pos(s, i + 1), char_pos(s, i + 2)) != seq!['.'])
                    } else {
                        None
                    },
                }
            },
        }
    }
}

/// Stops the search for the class list: a `.` that starts it, or a check that cannot be made.
pub struct ClassStopProbe;

impl Probe for ClassStopProbe {
    open spec fn hit(&self, s: Seq<char>, i: int) -> bool {
        class_dot_check(s, i) != Some(false)
    }
}

/// Where the search for the class list stops, or `s.len()` when it runs through.
pub open spec fn class_stop(s: Seq<char>) -> int {
    first_hit(ClassStopProbe, s, 0)
}

/// The class list's marker: the character position of its `.`.
pub open spec fn class_number(s: Seq<char>) -> Option<int> {
    let f = class_stop(s);
    if f < s.len() && class_dot_check(s, f) == Some(true) {
        Some(f)
    } else {
        None
    }
}

/// The class list starts at the first `.` that passes the class check, past any `.` that fails
/// it (such as one inside a prop's braces); and where it starts, the check passes and every
/// earlier position fails it.
pub proof fn lemma_class_list_first_passing_dot(s: Seq<char>, i: int)
    requires
        0 <= i < s.len(),
    ensures
        (class_dot_check(s, i) == Some(true) && forall|j: int|
            0 <= j < i ==> #[trigger] class_dot_check(s, j) == Some(false)) <==> class_number(s) == Some(i),
{
    lemma_first_hit(ClassStopProbe, s, 0);
    if class_dot_check(s, i) == Some(true) && forall|j: int|
        0 <= j < i ==> #[trigger] class_dot_check(s, j) == Some(false) {
        assert forall|j: int| 0 <= j < i implies !#[trigger] ClassStopProbe.hit(s, j) by {
            assert(class_dot_check(s, j) == Some(false));
        }
        lemma_first_hit_unique(ClassStopProbe, s, 0, i);
    }
    if class_number(s) == Some(i) {
        assert forall|j: int| 0 <= j < i implies #[trigger] class_dot_check(s, j) == Some(false) by {
            assert(!ClassStopProbe.hit(s, j));
        }
    }
}

/// The props' marker: the byte offset of the first `:`.
pub open spec fn prop_number(s: Seq<char>) -> Option<int> {
    if s.contains(':') {
        Some(byte_offset(s, index_of(s, ':')) as int)
    } else {
        None
    }
}

/// The text's marker: the byte offset of the first `<`.
pub open spec fn text_number(s: Seq<char>) -> Option<int> {
    if s.contains('<') {
        Some(byte_offset(s, index_of(s, '<')) as int)
    } else {
        None
    }
}

/// `best`, or the marker of the given kind numbered `pos` if that is at least `from` and below
/// `best`.
pub open spec fn pick(
    best: Option<(int, AttributeType)>,
    pos: Option<int>,
    kind: AttributeType,
    from: int,
) -> Option<(int, AttributeType)> {
    match pos {
        Some(p) => if from <= p && match best {
            Some(b) => p < b.0,
            None => true,
        } {
            Some((p, kind))
        } else {
            best
        },
        None => best,
    }
}

/// The first marker numbered `from` or more.  Markers are ordered by number, the class list's
/// character position mixed with the byte offsets of `:` and `<`; among equal numbers the
/// text comes first, then the class list.
pub open spec fn next_marker(s: Seq<char>, from: int) -> Option<(int, AttributeType)> {
    pick(
        pick(pick(None, text_number(s), AttributeType::Text, from), class_number(s), AttributeType::Class, from),
        prop_number(s),
        AttributeType::Props,
        from,
    )
}

/// Where the attribute whose marker is numbered `v` ends, as a byte offset: at the next
/// marker, or at the end of the text.
pub open spec fn marker_end(s: Seq<char>, v: int) -> int {
    match next_marker(s, v + 1) {
        Some(m) => m.0,
        None => byte_len(s) as int,
    }
}

/// Markers lie inside the text: their numbers are below its byte length.
pub proof fn lemma_marker_bound(s: Seq<char>, from: int)
    ensures
        next_marker(s, from) matches Some(m) ==> from <= m.0 < byte_len(s),
        class_number(s) matches Some(c) ==> 0 <= c < s.len(),
        prop_number(s) matches Some(p) ==> 0 <= p < byte_len(s),
        text_number(s) matches Some(t) ==> 0 <= t < byte_len(s),
{
    let n = s.len() as int;
    lemma_first_hit(ClassStopProbe, s, 0);
    lemma_index_of(s, ':');
    lemma_index_of(s, '<');
    lemma_byte_offset_ends(s);
    lemma_byte_offset_order(s);
    lemma_byte_offset_grows(s, 0, n);
}

/// The attributes whose markers are numbered `from` or more, in order: each runs from one
/// byte after its marker to the next marker (taken as byte offsets); the text runs to the end
/// and is the last attribute.
pub open spec fn attributes_from(s: Seq<char>, from: int) -> Seq<AttributeModel>
    decreases byte_len(s) - from,
{
    match next_marker(s, from) {
        None => Seq::empty(),
        Some(m) => {
            if m.1 == AttributeType::Text {
                seq![AttributeModel { value: s.skip(char_pos(s, m.0 + 1)), kind: AttributeType::Text }]
            } else {
                proof {
                    lemma_marker_bound(s, from);
                }
                seq![
                    AttributeModel {
                        value: s.subrange(char_pos(s, m.0 + 1), char_pos(s, marker_end(s, m.0))),
                        kind: m.1,
                    },
                ] + attributes_from(s, m.0 + 1)
            }
        },
    }
}

/// Reading the attributes from `from` on is defined: every slice bound is a character boundary,
/// and the class list and the props do not share a marker (the class list would then end
/// before it starts).
pub open spec fn attributes_defined_from(s: Seq<char>, from: int) -> bool
    decreases byte_len(s) - from,
{
    match next_marker(s, from) {
        None => true,
        Some(m) => {
            if m.1 == AttributeType::Text {
                is_boundary(s, m.0 + 1)
            } else {
                proof {
                    lemma_marker_bound(s, from);
                }
                &&& !(m.1 == AttributeType::Class && prop_number(s) == Some(m.0))
                &&& is_boundary(s, m.0 + 1)
                &&& is_boundary(s, marker_end(s, m.0))
                &&& attributes_defined_from(s, m.0 + 1)
            }
        },
    }
}

/// Splitting `s` into attributes is defined: the search for the class list makes every check
/// it reaches, and reading the attributes is defined.
pub open spec fn group_defined(s: Seq<char>) -> bool {
    &&& (class_stop(s) < s.len() ==> class_dot_check(s, class_stop(s)) is Some)
    &&& attributes_defined_from(s, 0)
}

/// What an attribute group holds, as values.
pub struct GroupModel {
    pub start: Option<usize>,
    pub attributes: Seq<AttributeModel>,
}

/// The attribute group of `s`: where the first attribute starts, and the attributes.
pub open spec fn group_spec(s: Seq<char>) -> GroupModel {
    GroupModel {
        start: match next_marker(s, 0) {
            Some(m) => Some(m.0 as usize),
            None => None,
        },
        attributes: attributes_from(s, 0),
    }
}

/// The first attribute starts before the end of the text; there is one exactly when there are
/// attributes.
pub proof fn lemma_group_start(s: Seq<char>)
    ensures
        next_marker(s, 0) matches Some(m) ==> 0 <= m.0 < byte_len(s),
        group_spec(s).start is Some <==> group_spec(s).attributes.len() > 0,
{
    lemma_marker_bound(s, 0);
}

/// Attributes are read in order of appearance and reading stops after the text: a text
/// attribute is always the last one, and it runs to the end of the element's text.
pub proof fn lemma_text_attribute_is_last(s: Seq<char>, from: int)
    ensures
        forall|i: int|
            0 <= i < attributes_from(s, from).len() - 1 ==> #[trigger] attributes_from(s, from)[i].kind
                != AttributeType::Text,
        next_marker(s, from) matches Some(m) ==> (m.1 == AttributeType::Text ==> attributes_from(s, from)
            == seq![AttributeModel { value: s.skip(char_pos(s, m.0 + 1)), kind: AttributeType::Text }]),
    decreases byte_len(s) - from,
{
    lemma_marker_bound(s, from);
    match next_marker(s, from) {
        None => {},
        Some(m) => {
            if m.1 != AttributeType::Text {
                lemma_text_attribute_is_last(s, m.0 + 1);
                let head = AttributeModel {
                    value: s.subrange(char_pos(s, m.0 + 1), char_pos(s, marker_end(s, m.0))),
                    kind: m.1,
                };
                let rest = attributes_from(s, m.0 + 1);
                assert(attributes_from(s, from) == seq![head] + rest);
                assert forall|i: int| 0 <= i < attributes_from(s, from).len() - 1 implies
                    #[trigger] attributes_from(s, from)[i].kind != AttributeType::Text by {
                    if i > 0 {
                        assert(attributes_from(s, from)[i] == rest[i - 1]);
                    }
                }
            }
        },
    }
}

/// When the text holds a `<`, the attributes end with the text attribute, which runs from
/// after that `<` to the end.
proof fn lemma_text_attribute_ends(s: Seq<char>, from: int)
    requires
        s.contains('<'),
        0 <= from <= byte_offset(s, index_of(s, '<')),
    ensures
        attributes_from(s, from).len() > 0,
        attributes_from(s, from).last() == (AttributeModel {
            value: s.skip(index_of(s, '<') + 1),
            kind: AttributeType::Text,
        }),
    decreases byte_len(s) - from,
{
    let q = index_of(s, '<');
    let t = byte_offset(s, q) as int;
    lemma_index_of(s, '<');
    lemma_marker_bound(s, from);
    let m = next_marker(s, from).unwrap();
    if m.1 != AttributeType::Text {
        assert(m.0 < t);
        lemma_text_attribute_ends(s, m.0 + 1);
        let rest = attributes_from(s, m.0 + 1);
        let head = AttributeModel {
            value: s.subrange(char_pos(s, m.0 + 1), char_pos(s, marker_end(s, m.0))),
            kind: m.1,
        };
        assert(attributes_from(s, from) == seq![head] + rest);
        assert((seq![head] + rest).last() == rest.last());
    } else {
        assert(m.0 == t);
        lemma_byte_offset_step(s, q);
        assert(utf8_width('<') == 1);
        lemma_char_pos_at(s, q + 1);
    }
}

/// A text attribute ends the group: the group's markup is then the same for a single and a
/// paired tag, and it ends with `>` and the text after the first `<`.
pub proof fn lemma_text_ends_group(s: Seq<char>)
    requires
        index_of(s, '<') < s.len(),
    ensures
        ({
            let o = group_output(group_spec(s).attributes, true);
            let tail = seq!['>'] + s.skip(index_of(s, '<') + 1);
            &&& o == group_output(group_spec(s).attributes, false)
            &&& o.len() >= tail.len()
            &&& o.skip(o.len() - tail.len()) == tail
        }),
{
    let attrs = group_spec(s).attributes;
    lemma_index_of(s, '<');
    lemma_text_attribute_ends(s, 0);
    let r = rendered_attributes(attrs);
    let tail = seq!['>'] + s.skip(index_of(s, '<') + 1);
    assert(r.last() == tail);
    let before = concat_all(r.drop_last());
    let joined = concat_all(r);
    assert(joined == before + tail);
    assert(joined[before.len() as int] == '>');
    assert(joined.contains('>'));
    assert(joined.skip(joined.len() - tail.len()) =~= tail);
}

/// Sum of the character lengths of the attributes' texts.
pub open spec fn total_chars(attrs: Seq<AttributeModel>) -> nat
    decreases attrs.len(),
{
    if attrs.len() == 0 {
        0
    } else {
        total_chars(attrs.drop_last()) + attrs.last().value.len()
    }
}

proof fn lemma_totals_prepend(head: AttributeModel, rest: Seq<AttributeModel>)
    ensures
        total_chars(seq![head] + rest) == head.value.len() + total_chars(rest),
        total_bytes(seq![head] + rest) == byte_len(head.value) + total_bytes(rest),
    decreases rest.len(),
{
    let all = seq![head] + rest;
    if rest.len() == 0 {
        assert(all =~= seq![head]);
        assert(all.drop_last() =~= Seq::<AttributeModel>::empty());
        assert(total_chars(Seq::<AttributeModel>::empty()) == 0);
        assert(total_bytes(Seq::<AttributeModel>::empty()) == 0);
        assert(all.last() == head);
    } else {
        lemma_totals_prepend(head, rest.drop_last());
        assert(all.drop_last() =~= seq![head] + rest.drop_last());
        assert(all.last() == rest.last());
    }
}

/// In an ASCII text the attributes from `from` on cover the text from the first marker to the
/// end: one character for each marker plus the attributes' texts.
proof fn lemma_attributes_cover(s: Seq<char>, from: int)
    requires
        vstd::utf8::is_ascii_chars(s),
    ensures
        attributes_from(s, from).len() + total_chars(attributes_from(s, from)) == match next_marker(s, from) {
            Some(m) => s.len() - m.0,
            None => 0,
        },
        total_bytes(attributes_from(s, from)) == total_chars(attributes_from(s, from)),
    decreases byte_len(s) - from,
{
    lemma_ascii_offsets(s);
    lemma_marker_bound(s, from);
    match next_marker(s, from) {
        None => {},
        Some(m) => {
            let n = s.len() as int;
            assert(char_pos(s, m.0 + 1) == m.0 + 1);
            let value = if m.1 == AttributeType::Text {
                s.skip(char_pos(s, m.0 + 1))
            } else {
                lemma_marker_bound(s, m.0 + 1);
                let end = marker_end(s, m.0);
                assert(char_pos(s, end) == end);
                s.subrange(char_pos(s, m.0 + 1), char_pos(s, end))
            };
            assert(vstd::utf8::is_ascii_chars(value));
            vstd::utf8::is_ascii_chars_encode_utf8(value);
            let head = AttributeModel { value, kind: m.1 };
            if m.1 == AttributeType::Text {
                assert(attributes_from(s, from) == seq![head]);
                lemma_totals_prepend(head, Seq::empty());
                assert(seq![head] + Seq::<AttributeModel>::empty() =~= seq![head]);
            } else {
                lemma_attributes_cover(s, m.0 + 1);
                let rest = attributes_from(s, m.0 + 1);
                assert(attributes_from(s, from) == seq![head] + rest);
                lemma_totals_prepend(head, rest);
            }
        },
    }
}

/// For an ASCII text, the length of its attribute group is the length of the text from the
/// first attribute on (0 without attributes).
pub proof fn lemma_group_len_covers_text(s: Seq<char>)
    requires
        vstd::utf8::is_ascii_chars(s),
        s.len() <= usize::MAX,
    ensures
        group_len(group_spec(s).attributes) == s.len() - match group_spec(s).start {
            Some(p) => p as int,
            None => s.len() as int,
        },
{
    lemma_attributes_cover(s, 0);
    lemma_group_start(s);
    lemma_ascii_offsets(s);
}

/// The props of a text that does not hold `c` do not hold it.
proof fn lemma_props_free(s: Seq<char>, c: char)
    requires
        free_of(s, c),
    ensures
        forall|i: int| 0 <= i < split_props(s).len() ==> free_of(#[trigger] split_props(s)[i], c),
{
    let seps = prop_separators(s);
    let n = s.len() as int;
    lemma_separators(s, n, n);
    let ps = split_props(s);
    assert forall|j: int| 0 <= j < ps.len() implies free_of(#[trigger] ps[j], c) by {
        let st = piece_start(seps, j);
        let a = char_pos(s, st);
        lemma_char_pos(s, st);
        if j < seps.len() {
            if j > 0 {
                assert(seps[j - 1] < seps[j]);
            }
            lemma_char_pos_monotone(s, st, seps[j]);
            lemma_char_pos(s, seps[j]);
            assert(ps[j] == s.subrange(a, char_pos(s, seps[j])));
            assert forall|i: int| 0 <= i < ps[j].len() implies ps[j][i] != c by {
                assert(ps[j][i] == s[a + i]);
            }
        } else {
            assert(ps[j] == s.skip(a));
            assert forall|i: int| 0 <= i < ps[j].len() implies ps[j][i] != c by {
                assert(ps[j][i] == s[a + i]);
            }
        }
    }
}

/// The markup of an attribute whose text does not hold `c` does not hold it, for a newline, and
/// for `>` unless the attribute is a text (whose markup starts with `>`).
proof fn lemma_render_attribute_free(a: AttributeModel, c: char)
    requires
        free_of(a.value, c),
        c == '\n' || (c == '>' && a.kind != AttributeType::Text),
    ensures
        free_of(render_attribute(a), c),
{
    match a.kind {
        AttributeType::Text => {},
        AttributeType::Class => {
            let r = render_attribute(a);
            let head = seq![' ', 'c', 'l', 'a', 's', 's', '=', '"'];
            let d = dots_to_spaces(a.value);
            assert(r == head + d + seq!['"']);
            assert forall|i: int| 0 <= i < r.len() implies r[i] != c by {
                if i < head.len() {
                } else if i < head.len() + d.len() {
                    assert(r[i] == d[i - head.len()]);
                }
            }
        },
        AttributeType::Props => {
            let props = split_props(a.value);
            lemma_props_free(a.value, c);
            let outs = prop_outputs(props);
            assert forall|i: int| 0 <= i < outs.len() implies free_of(#[trigger] outs[i], c) by {
                let p = props[i];
                assert(free_of(p, c));
                lemma_index_of(p, '=');
                let e = index_of(p, '=');
                if !shadowed(props, p) {
                    let o = render_prop(p);
                    assert forall|k: int| 0 <= k < o.len() implies o[k] != c by {
                        if e < p.len() {
                            let name = p.take(e + 1);
                            let value = p.skip(e + 1);
                            if k >= 1 && k < 1 + name.len() {
                                assert(o[k] == p[k - 1]);
                            } else if k >= 1 + name.len() {
                                if value.contains('{') {
                                    assert(o[k] == p[k - 1]);
                                } else if k < 2 + name.len() + value.len() && k >= 2 + name.len() {
                                    assert(o[k] == p[k - 2]);
                                }
                            }
                        } else if p.len() > 0 && (p[0] == '{' || p.last() == ';') {
                            if k >= 1 {
                                assert(o[k] == p[k - 1]);
                            }
                        } else if k >= 1 && k < 1 + p.len() {
                            assert(o[k] == p[k - 1]);
                        }
                    }
                }
            }
            lemma_concat_all_free(outs, c);
        },
    }
}

/// The attributes of a text that does not hold `c` do not hold it, and without a `<` none of
/// them is a text.
proof fn lemma_attributes_free(s: Seq<char>, from: int, c: char)
    requires
        free_of(s, c),
    ensures
        forall|i: int|
            0 <= i < attributes_from(s, from).len() ==> free_of(#[trigger] attributes_from(s, from)[i].value, c),
        !s.contains('<') ==> forall|i: int|
            0 <= i < attributes_from(s, from).len() ==> (#[trigger] attributes_from(s, from)[i]).kind
                != AttributeType::Text,
    decreases byte_len(s) - from,
{
    lemma_marker_bound(s, from);
    match next_marker(s, from) {
        None => {},
        Some(m) => {
            let a = char_pos(s, m.0 + 1);
            lemma_char_pos(s, m.0 + 1);
            let all = attributes_from(s, from);
            if m.1 != AttributeType::Text {
                lemma_marker_bound(s, m.0 + 1);
                let end = marker_end(s, m.0);
                lemma_char_pos_monotone(s, m.0 + 1, end);
                lemma_char_pos(s, end);
                let v = s.subrange(a, char_pos(s, end));
                assert forall|i: int| 0 <= i < v.len() implies v[i] != c by {
                    assert(v[i] == s[a + i]);
                }
                lemma_attributes_free(s, m.0 + 1, c);
                let rest = attributes_from(s, m.0 + 1);
                assert forall|i: int| 0 <= i < all.len() implies free_of(#[trigger] all[i].value, c) && (!s.contains(
                    '<',
                ) ==> all[i].kind != AttributeType::Text) by {
                    if i > 0 {
                        assert(all[i] == rest[i - 1]);
                    }
                }
            } else {
                let v = s.skip(a);
                assert forall|i: int| 0 <= i < v.len() implies v[i] != c by {
                    assert(v[i] == s[a + i]);
                }
            }
        },
    }
}

/// The attribute markup of a text without newlines holds no newline.
pub proof fn lemma_group_output_line_free(s: Seq<char>, is_single: bool)
    requires
        line_free(s),
    ensures
        line_free(group_output(group_spec(s).attributes, is_single)),
{
    let attrs = group_spec(s).attributes;
    lemma_attributes_free(s, 0, '\n');
    let r = rendered_attributes(attrs);
    assert forall|i: int| 0 <= i < r.len() implies free_of(#[trigger] r[i], '\n') by {
        lemma_render_attribute_free(attrs[i], '\n');
    }
    lemma_concat_all_free(r, '\n');
}

/// For a text without `<` and `>`, a single and a paired tag differ only in how the attribute
/// markup is closed: the attributes' markup holds no `>` and is followed by `/>` or by `>`.
pub proof fn lemma_single_and_paired_closing(s: Seq<char>)
    requires
        !s.contains('<'),
        !s.contains('>'),
    ensures
        ({
            let joined = concat_all(rendered_attributes(group_spec(s).attributes));
            &&& !joined.contains('>')
            &&& group_output(group_spec(s).attributes, true) == joined + seq!['/', '>']
            &&& group_output(group_spec(s).attributes, false) == joined + seq!['>']
        }),
{
    let attrs = group_spec(s).attributes;
    assert(free_of(s, '>')) by {
        assert forall|i: int| 0 <= i < s.len() implies s[i] != '>' by {
            if s[i] == '>' {
                assert(s.contains('>'));
            }
        }
    }
    lemma_attributes_free(s, 0, '>');
    let r = rendered_attributes(attrs);
    assert forall|i: int| 0 <= i < r.len() implies free_of(#[trigger] r[i], '>') by {
        lemma_render_attribute_free(attrs[i], '>');
    }
    lemma_concat_all_free(r, '>');
    let joined = concat_all(r);
    if joined.contains('>') {
        let k = choose|k: int| 0 <= k < joined.len() && joined[k] == '>';
        assert(joined[k] != '>');
    }
}

/// The markup of each attribute.
pub open spec fn rendered_attributes(attrs: Seq<AttributeModel>) -> Seq<Seq<char>> {
    Seq::new(attrs.len(), |i: int| render_attribute(attrs[i]))
}

/// The markup of a non-empty attribute group: the attributes' markup, followed by `/>` (single
/// element) or `>` unless it already holds a `>`.
pub open spec fn group_output(attrs: Seq<AttributeModel>, is_single: bool) -> Seq<char> {
    let joined = concat_all(rendered_attributes(attrs));
    if joined.contains('>') {
        joined
    } else if is_single {
        joined + seq!['/', '>']
    } else {
        joined + seq!['>']
    }
}

/// Every props attribute can be cut into props.
pub open spec fn attributes_renderable(attrs: Seq<AttributeModel>) -> bool {
    forall|i: int|
        0 <= i < attrs.len() ==> (#[trigger] attrs[i]).kind == AttributeType::Props ==> props_defined(
            attrs[i].value,
        )
}

/// Some attribute is a text.
pub open spec fn has_text_attribute(attrs: Seq<AttributeModel>) -> bool {
    exists|i: int| 0 <= i < attrs.len() && #[trigger] attrs[i].kind == AttributeType::Text
}

/// Sum of the byte lengths of the attributes' texts.
pub open spec fn total_bytes(attrs: Seq<AttributeModel>) -> nat
    decreases attrs.len(),
{
    if attrs.len() == 0 {
        0
    } else {
        total_bytes(attrs.drop_last()) + byte_len(attrs.last().value)
    }
}

/// The length of a group: 0 without attributes, else their number plus their bytes.
pub open spec fn group_len(attrs: Seq<AttributeModel>) -> nat {
    if attrs.len() == 0 {
        0
    } else {
        attrs.len() + total_bytes(attrs)
    }
}

/// The attributes of one element.
pub struct AttributeGroup {
    pub start: Option<usize>,
    pub attributes: Vec<Attribute>,
}

impl AttributeGroup {
    pub open spec fn model(&self) -> GroupModel {
        GroupModel { start: self.start, attributes: attribute_models(self.attributes@) }
    }

    /// Creates the attribute group of an element's text (see `group_spec`): `start` is the
    /// number of the earliest marker (the class list's character position, or the byte offset
    /// of the first `:` or `<`), and it is `None` exactly when there are no attributes.
    pub fn new(input: &String) -> (g: Self)
        requires
            group_defined(input@),
        ensures
            g.model() == group_spec(input@),
            g.start == group_spec(input@).start,
            g.start is Some <==> g.model().attributes.len() > 0,
    {
        proof {
            lemma_group_start(input@);
        }
        Self::new_checked(input).unwrap()
    }

    /// The attribute group of `input`, or `None` where splitting is not defined.
    pub(crate) fn new_checked(input: &String) -> (r: Option<Self>)
        ensures
            r is Some <==> group_defined(input@),
            r matches Some(g) ==> g.model() == group_spec(input@) && g.start == group_spec(input@).start,
    {
        let nb = input.as_str().as_bytes().len();
        let s = chars_of(input.as_str());
        assert(nb == byte_len(s@));
        let n = s.len();
        let cn = match class_number_exec(&s) {
            Some(c) => c,
            None => {
                return None;
            },
        };
        let q = find_char(&s, ':');
        let t = find_char(&s, '<');
        proof {
            lemma_index_of(s@, ':');
            lemma_index_of(s@, '<');
            lemma_marker_bound(s@, 0);
        }
        let pn = if q < n { Some(byte_offset_exec(&s, q)) } else { None };
        let tn = if t < n { Some(byte_offset_exec(&s, t)) } else { None };
        let start = match next_marker_exec(Ghost(s@), cn, pn, tn, 0) {
            Some(m) => Some(m.0),
            None => None,
        };
        let mut attributes: Vec<Attribute> = Vec::new();
        let mut from: usize = 0;
        loop
            invariant_except_break
                n == s@.len(),
                s@ == input@,
                nb == byte_len(s@),
                lift(cn) == class_number(s@),
                lift(pn) == prop_number(s@),
                lift(tn) == text_number(s@),
                from <= nb,
                attribute_models(attributes@) + attributes_from(s@, from as int) == attributes_from(s@, 0),
                attributes_defined_from(s@, 0) == attributes_defined_from(s@, from as int),
            ensures
                attribute_models(attributes@) == attributes_from(s@, 0),
                attributes_defined_from(s@, 0),
            decreases nb - from,
        {
            proof {
                lemma_marker_bound(s@, from as int);
            }
            match next_marker_exec(Ghost(s@), cn, pn, tn, from) {
                None => {
                    assert(attribute_models(attributes@) + attributes_from(s@, from as int)
                        =~= attribute_models(attributes@));
                    break;
                },
                Some(m) => {
                    let (v, kind) = m;
                    let (a, a_ok) = char_pos_exec(&s, v + 1);
                    if !a_ok {
                        return None;
                    }
                    proof {
                        lemma_char_pos(s@, v + 1);
                    }
                    if kind == AttributeType::Text {
                        let value = sub_chars(&s, a, n);
                        let attr = Attribute { value: string_of(&value), attribute_type: kind };
                        assert(s@.skip(a as int) =~= s@.subrange(a as int, n as int));
                        let ghost before = attributes@;
                        attributes.push(attr);
                        assert(attribute_models(attributes@) =~= attribute_models(before).push(attr.model()));
                        break;
                    } else {
                        let tie = match pn {
                            Some(x) => kind == AttributeType::Class && x == v,
                            None => false,
                        };
                        if tie {
                            return None;
                        }
                        proof {
                            lemma_marker_bound(s@, v + 1);
                        }
                        let end = match next_marker_exec(Ghost(s@), cn, pn, tn, v + 1) {
                            Some(m2) => m2.0,
                            None => nb,
                        };
                        let (z, z_ok) = char_pos_exec(&s, end);
                        if !z_ok {
                            return None;
                        }
                        proof {
                            lemma_char_pos(s@, end as int);
                            lemma_char_pos_monotone(s@, v + 1, end as int);
                        }
                        let value = sub_chars(&s, a, z);
                        let attr = Attribute { value: string_of(&value), attribute_type: kind };
                        let ghost before = attributes@;
                        attributes.push(attr);
                        assert(attribute_models(attributes@) =~= attribute_models(before).push(attr.model()));
                        assert(attribute_models(attributes@) + attributes_from(s@, v + 1) =~=
                            attribute_models(before) + attributes_from(s@, from as int));
                        from = v + 1;
                    }
                },
            }
        }
        Some(AttributeGroup { start, attributes })
    }

    /// Whether every props attribute of the group can be cut into props (see `props_defined`).
    pub(crate) fn renderable(&self) -> (r: bool)
        ensures
            r == attributes_renderable(self.model().attributes),
    {
        let ghost attrs = self.model().attributes;
        let n = self.attributes.len();
        let mut i: usize = 0;
        while i < n
            invariant
                n == self.attributes@.len(),
                attrs == attribute_models(self.attributes@),
                attrs == self.model().attributes,
                i <= n,
                forall|j: int|
                    0 <= j < i ==> (#[trigger] attrs[j]).kind == AttributeType::Props ==> props_defined(
                        attrs[j].value,
                    ),
            decreases n - i,
        {
            let a = &self.attributes[i];
            if a.attribute_type == AttributeType::Props {
                let v = chars_of(a.value.as_str());
                if Attribute::get_props(&v).is_none() {
                    assert(attrs[i as int] == a.model());
                    return false;
                }
            }
            assert(attrs[i as int] == a.model());
            i = i + 1;
        }
        true
    }

    /// Total length of all attributes: their number plus their bytes (0 without attributes).
    pub fn len(&self) -> (r: usize)
        requires
            group_len(self.model().attributes) <= usize::MAX,
        ensures
            r == group_len(self.model().attributes),
    {
        let n = self.attributes.len();
        if n == 0 {
            return 0;
        }
        let ghost attrs = self.model().attributes;
        proof {
            lemma_total_bytes_prefix(attrs, n as int);
        }
        let mut r: usize = n;
        let mut i: usize = 0;
        while i < n
            invariant
                n == self.attributes@.len(),
                attrs == attribute_models(self.attributes@),
                attrs == self.model().attributes,
                n + total_bytes(attrs) <= usize::MAX,
                i <= n,
                r == n + total_bytes(attrs.take(i as int)),
            decreases n - i,
        {
            proof {
                lemma_total_bytes_prefix(attrs, i + 1);
                assert(attrs.take(i + 1).drop_last() =~= attrs.take(i as int));
            }
            let l = self.attributes[i].len();
            r = r + l;
            i = i + 1;
        }
        assert(attrs.take(n as int) =~= attrs);
        r
    }

    /// Whether some attribute of the group is a text.
    pub fn has_text(&self) -> (r: bool)
        ensures
            r == has_text_attribute(self.model().attributes),
    {
        let ghost attrs = self.model().attributes;
        let n = self.attributes.len();
        let mut i: usize = 0;
        while i < n
            invariant
                n == self.attributes@.len(),
                attrs == attribute_models(self.attributes@),
                attrs == self.model().attributes,
                i <= n,
                forall|j: int| 0 <= j < i ==> attrs[j].kind != AttributeType::Text,
            decreases n - i,
        {
            if self.attributes[i].attribute_type == AttributeType::Text {
                assert(attrs[i as int].kind == AttributeType::Text);
                return true;
            }
            i = i + 1;
        }
        false
    }

    /// Parses all attributes and closes the tag (`/>` for a single element, else `>`);
    /// `None` without attributes.
    pub fn parse(&self, is_single: bool) -> (r: Option<String>)
        requires
            attributes_renderable(self.model().attributes),
        ensures
            r is None <==> self.model().attributes.len() == 0,
            r matches Some(x) ==> x@ == group_output(self.model().attributes, is_single),
    {
        let ghost attrs = self.model().attributes;
        let ghost outs = rendered_attributes(attrs);
        let n = self.attributes.len();
        if n == 0 {
            return None;
        }
        let mut out: Vec<char> = Vec::new();
        let mut i: usize = 0;
        while i < n
            invariant
                n == self.attributes@.len(),
                attrs == attribute_models(self.attributes@),
                attributes_renderable(attrs),
                outs == rendered_attributes(attrs),
                i <= n,
                out@ == concat_all(outs.take(i as int)),
            decreases n - i,
        {
            assert(outs.take(i + 1).drop_last() =~= outs.take(i as int));
            assert(attrs[i as int] == self.attributes[i as int].model());
            let piece = self.attributes[i].parse();
            let pv = chars_of(piece.as_str());
            append_all(&mut out, &pv);
            i = i + 1;
        }
        assert(outs.take(n as int) =~= outs);
        if !has_char(&out, '>') {
            if is_single {
                out.push('/');
                out.push('>');
                assert(out@ =~= concat_all(outs) + seq!['/', '>']);
            } else {
                out.push('>');
                assert(out@ =~= concat_all(outs) + seq!['>']);
            }
        }
        Some(string_of(&out))
    }
}

proof fn lemma_total_bytes_prefix(attrs: Seq<AttributeModel>, i: int)
    requires
        0 <= i <= attrs.len(),
    ensures
        total_bytes(attrs.take(i)) <= total_bytes(attrs),
        i > 0 ==> total_bytes(attrs.take(i - 1)) + byte_len(attrs[i - 1].value) == total_bytes(attrs.take(i)),
    decreases attrs.len() - i,
{
    if i > 0 {
        assert(attrs.take(i).drop_last() =~= attrs.take(i - 1));
    }
    if i < attrs.len() {
        lemma_total_bytes_prefix(attrs, i + 1);
        assert(attrs.take(i + 1).drop_last() =~= attrs.take(i));
    } else {
        assert(attrs.take(i) =~= attrs);
    }
}

/// An optional number as an integer.
pub open spec fn lift(o: Option<usize>) -> Option<int> {
    match o {
        Some(x) => Some(x as int),
        None => None,
    }
}

/// An optional marker with an integer number.
pub open spec fn lift_marker(o: Option<(usize, AttributeType)>) -> Option<(int, AttributeType)> {
    match o {
        Some(m) => Some((m.0 as int, m.1)),
        None => None,
    }
}

/// What the search for the class list finds at `i` (see `class_dot_check`).
fn class_dot_check_exec(s: &[char], i: usize) -> (r: Option<bool>)
    requires
        i < s@.len(),
    ensures
        r == class_dot_check(s@, i as int),
{
    let n = s.len();
    if s[i] != '.' {
        return Some(false);
    }
    let (p, p_ok) = char_pos_exec(s, i);
    if !p_ok {
        return None;
    }
    proof {
        lemma_char_pos(s@, i as int);
    }
    let before = sub_chars(s, 0, p);
    assert(before@ =~= s@.take(p as int));
    if has_char(&before, ':') {
        let (p1, p1_ok) = char_pos_exec(s, i + 1);
        if !p1_ok {
            return None;
        }
        proof {
            lemma_char_pos(s@, i + 1);
        }
        if has_char_from(s, '}', p1) || has_char_from(s, ':', p1) {
            return Some(false);
        }
    }
    if i > 0 {
        let (q, q_ok) = char_pos_exec(s, i - 1);
        if !q_ok {
            return None;
        }
        proof {
            lemma_char_pos(s@, i - 1);
            lemma_char_pos_monotone(s@, i - 1, i as int);
        }
        let ghost prev = s@.subrange(q as int, p as int);
        if p == q + 1 && s[q] == '.' {
            assert(prev =~= seq!['.']);
            return Some(false);
        }
        assert(prev != seq!['.']) by {
            if prev == seq!['.'] {
                assert(prev.len() == 1);
                assert(prev[0] == s@[q as int]);
            }
        }
    }
    let (a, a_ok) = char_pos_exec(s, i + 1);
    if !a_ok {
        return None;
    }
    proof {
        lemma_boundary_next(s@, i + 1);
    }
    if a < n && utf8_width_exec(s[a]) == 1 {
        let ghost next = s@.subrange(a as int, a + 1);
        assert(next =~= seq![s@[a as int]]);
        assert(char_pos(s@, i + 2) == a + 1);
        assert((next != seq!['.']) == (s@[a as int] != '.')) by {
            if s@[a as int] == '.' {
                assert(next =~= seq!['.']);
            } else {
                assert(next[0] != seq!['.'][0]);
            }
        }
        Some(s[a] != '.')
    } else {
        assert(!is_boundary(s@, i + 2));
        None
    }
}

/// The class list's marker (see `class_number`), or `None` where the search meets a check that
/// cannot be made.
fn class_number_exec(s: &[char]) -> (r: Option<Option<usize>>)
    ensures
        r is None <==> (class_stop(s@) < s@.len() && class_dot_check(s@, class_stop(s@)) is None),
        r matches Some(c) ==> lift(c) == class_number(s@),
{
    let n = s.len();
    let mut i: usize = 0;
    while i < n
        invariant
            n == s@.len(),
            i <= n,
            forall|j: int| 0 <= j < i ==> !#[trigger] ClassStopProbe.hit(s@, j),
        decreases n - i,
    {
        match class_dot_check_exec(s, i) {
            Some(false) => {},
            Some(true) => {
                proof {
                    lemma_first_hit_unique(ClassStopProbe, s@, 0, i as int);
                }
                return Some(Some(i));
            },
            None => {
                proof {
                    lemma_first_hit_unique(ClassStopProbe, s@, 0, i as int);
                }
                return None;
            },
        }
        assert(!ClassStopProbe.hit(s@, i as int));
        i = i + 1;
    }
    proof {
        lemma_first_hit_unique(ClassStopProbe, s@, 0, n as int);
    }
    Some(None)
}

/// `best`, or the marker `pos` of the given kind (see `pick`).
fn pick_exec(
    best: Option<(usize, AttributeType)>,
    pos: Option<usize>,
    kind: AttributeType,
    from: usize,
) -> (r: Option<(usize, AttributeType)>)
    ensures
        lift_marker(r) == pick(lift_marker(best), lift(pos), kind, from as int),
{
    match pos {
        Some(p) => {
            let below = match best {
                Some(b) => p < b.0,
                None => true,
            };
            if from <= p && below {
                Some((p, kind))
            } else {
                best
            }
        },
        None => best,
    }
}

/// The first marker numbered `from` or more (see `next_marker`).
fn next_marker_exec(
    Ghost(s): Ghost<Seq<char>>,
    cn: Option<usize>,
    pn: Option<usize>,
    tn: Option<usize>,
    from: usize,
) -> (r: Option<(usize, AttributeType)>)
    requires
        lift(cn) == class_number(s),
        lift(pn) == prop_number(s),
        lift(tn) == text_number(s),
    ensures
        lift_marker(r) == next_marker(s, from as int),
{
    let b = pick_exec(None, tn, AttributeType::Text, from);
    let b = pick_exec(b, cn, AttributeType::Class, from);
    pick_exec(b, pn, AttributeType::Props, from)
}

/// The attribute part of an opening tag always closes the tag: its markup holds a `>`.
pub proof fn lemma_group_output_closes_tag(attrs: Seq<AttributeModel>, is_single: bool)
    ensures
        group_output(attrs, is_single).contains('>'),
{
    let joined = concat_all(rendered_attributes(attrs));
    if !joined.contains('>') {
        let r = group_output(attrs, is_single);
        if is_single {
            assert(r[joined.len() as int + 1] == '>');
        } else {
            assert(r[joined.len() as int] == '>');
        }
    }
}

/// A bare prop gives way to the same prop with a value: when `props[j]` is `props[i]`
/// followed by `=` and a value, `props[i]` contributes nothing.
pub proof fn lemma_valued_prop_overrides_bare(props: Seq<Seq<char>>, i: int, j: int)
    requires
        0 <= i < props.len(),
        0 <= j < props.len(),
        !props[i].contains('='),
        props[j].len() > props[i].len(),
        props[j].take(props[i].len() as int) == props[i],
        props[j][props[i].len() as int] == '=',
    ensures
        prop_outputs(props)[i] == Seq::<char>::empty(),
{
    let p = props[i];
    let q = props[j];
    assert forall|k: int| 0 <= k < p.len() implies !#[trigger] CharProbe('=').hit(q, k) by {
        assert(q[k] == q.take(p.len() as int)[k]);
        if q[k] == '=' {
            assert(p[k] == '=');
            assert(p.contains('='));
        }
    }
    lemma_first_hit_unique(CharProbe('='), q, 0, p.len() as int);
    assert(q.take(index_of(q, '=')) == p);
    assert(p.subrange(0, p.len() as int) =~= p);
    assert(occurs_at(p, p, 0));
    assert(shadowed(props, p));
}

/// The characters of each piece.
pub open spec fn pieces_view(v: Seq<Vec<char>>) -> Seq<Seq<char>> {
    v.map_values(|p: Vec<char>| p@)
}

/// Whether `c` occurs in `s` at or after `from`.
fn has_char_from(s: &[char], c: char, from: usize) -> (b: bool)
    requires
        from <= s@.len(),
    ensures
        b == s@.skip(from as int).contains(c),
{
    let n = s.len();
    let mut i = from;
    while i < n
        invariant
            n == s@.len(),
            from <= i <= n,
            forall|j: int| from <= j < i ==> s@[j] != c,
        decreases n - i,
    {
        if s[i] == c {
            assert(s@.skip(from as int)[i - from] == c);
            return true;
        }
        i = i + 1;
    }
    assert forall|k: int| 0 <= k < s@.skip(from as int).len() implies s@.skip(from as int)[k] != c by {
        assert(s@.skip(from as int)[k] == s@[from + k]);
    }
    false
}

} // verus!
