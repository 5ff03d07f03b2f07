//! Snippets: short names that stand for a longer element text.

use vstd::prelude::*;
use crate::text::{append_all, append_range, chars_of, line_free};

verus! {

/// The snippet table: each name and the element text it stands for.
pub open spec fn snippet_table() -> Seq<(Seq<char>, Seq<char>)> {
    seq![
        ("a"@, "a:href"@),
        ("e"@, ""@),
        ("input:c"@, "input:type=checkbox:name:id/"@),
        ("label"@, "label:for"@),
    ]
}

/// A snippet name applies to an element text that starts with it and either ends there or
/// goes on with props (`:`).
pub open spec fn snippet_applies(v: Seq<char>, key: Seq<char>) -> bool {
    key.len() <= v.len() && v.take(key.len() as int) == key && (v.len() == key.len() || v[key.len() as int]
        == ':')
}

/// Among the first `n` entries of `table`, the one with the longest name that applies to `v`
/// (the first of them where names are equally long).  Names that apply to the same text are
/// prefixes of one another, so the longest is also the greatest.
pub open spec fn best_snippet(v: Seq<char>, table: Seq<(Seq<char>, Seq<char>)>, n: int) -> Option<int>
    decreases n,
{
    if n <= 0 {
        None
    } else {
        let prev = best_snippet(v, table, n - 1);
        if snippet_applies(v, table[n - 1].0) && match prev {
            Some(j) => table[j].0.len() < table[n - 1].0.len(),
            None => true,
        } {
            Some(n - 1)
        } else {
            prev
        }
    }
}

/// The element text once a snippet name at its start is replaced by what it stands for.
pub open spec fn expanded_value(v: Seq<char>) -> Seq<char> {
    let t = snippet_table();
    match best_snippet(v, t, t.len() as int) {
        Some(j) => t[j].1 + v.skip(t[j].0.len() as int),
        None => v,
    }
}

proof fn lemma_best_snippet_in_table(v: Seq<char>, table: Seq<(Seq<char>, Seq<char>)>, n: int)
    requires
        0 <= n <= table.len(),
    ensures
        best_snippet(v, table, n) matches Some(j) ==> 0 <= j < n && snippet_applies(v, table[j].0),
    decreases n,
{
    if n > 0 {
        lemma_best_snippet_in_table(v, table, n - 1);
    }
}

/// A text that neither is a snippet name nor starts with a name followed by `:` is left as it
/// is: a name followed by anything else (`a.link`, `labels`) is not replaced.
pub proof fn lemma_unnamed_text_unchanged(v: Seq<char>)
    requires
        forall|i: int|
            0 <= i < snippet_table().len() ==> v != (#[trigger] snippet_table()[i]).0 && !(v.len()
                > snippet_table()[i].0.len() && v.take(snippet_table()[i].0.len() as int) == snippet_table()[i].0
                && v[snippet_table()[i].0.len() as int] == ':'),
    ensures
        expanded_value(v) == v,
{
    let t = snippet_table();
    lemma_best_snippet_in_table(v, t, t.len() as int);
    match best_snippet(v, t, t.len() as int) {
        Some(j) => {
            let k = t[j].0;
            assert(v != k);
            if v.len() == k.len() {
                assert(v.take(k.len() as int) =~= v);
            }
        },
        None => {},
    }
}

/// No snippet brings in a newline.
pub proof fn lemma_expanded_value_line_free(v: Seq<char>)
    requires
        line_free(v),
    ensures
        line_free(expanded_value(v)),
{
    reveal_strlit("a:href");
    reveal_strlit("");
    reveal_strlit("input:type=checkbox:name:id/");
    reveal_strlit("label:for");
    let t = snippet_table();
    lemma_best_snippet_in_table(v, t, t.len() as int);
    assert forall|j: int| 0 <= j < t.len() implies line_free(#[trigger] t[j].1) by {}
    match best_snippet(v, t, t.len() as int) {
        Some(j) => {
            assert(line_free(t[j].1));
            let k = t[j].0.len() as int;
            assert forall|i: int| 0 <= i < v.skip(k).len() implies v.skip(k)[i] != '\n' by {
                assert(v.skip(k)[i] == v[i + k]);
            }
        },
        None => {},
    }
}

/// The names and texts of a list of snippet entries.
pub open spec fn entries_view(v: Seq<(Vec<char>, Vec<char>)>) -> Seq<(Seq<char>, Seq<char>)> {
    v.map_values(|e: (Vec<char>, Vec<char>)| (e.0@, e.1@))
}

/// The snippet table.
pub struct Snippet;

impl Snippet {
    /// The snippet entries: each name and the element text it stands for.
    pub fn get() -> (t: Vec<(Vec<char>, Vec<char>)>)
        ensures
            entries_view(t@) == snippet_table(),
    {
        let mut t: Vec<(Vec<char>, Vec<char>)> = Vec::new();
        t.push((chars_of("a"), chars_of("a:href")));
        t.push((chars_of("e"), chars_of("")));
        t.push((chars_of("input:c"), chars_of("input:type=checkbox:name:id/")));
        t.push((chars_of("label"), chars_of("label:for")));
        assert(entries_view(t@) =~= snippet_table());
        t
    }
}

/// Whether the snippet name `key` applies to `v` (see `snippet_applies`).
fn applies(v: &[char], key: &[char]) -> (b: bool)
    ensures
        b == snippet_applies(v@, key@),
{
    let n = key.len();
    if n > v.len() {
        return false;
    }
    let mut i: usize = 0;
    while i < n
        invariant
            n == key@.len(),
            n <= v@.len(),
            i <= n,
            forall|j: int| 0 <= j < i ==> v@[j] == key@[j],
        decreases n - i,
    {
        if v[i] != key[i] {
            assert(v@.take(n as int)[i as int] != key@[i as int]);
            return false;
        }
        i = i + 1;
    }
    assert(v@.take(n as int) =~= key@);
    n == v.len() || v[n] == ':'
}

/// Replaces a snippet name at the start of `v` by what it stands for (see `expanded_value`).
pub fn apply_snippet(v: &[char]) -> (r: Vec<char>)
    ensures
        r@ == expanded_value(v@),
{
    let t = Snippet::get();
    let ghost tv = entries_view(t@);
    let n = t.len();
    let mut best: Option<usize> = None;
    let mut i: usize = 0;
    while i < n
        invariant
            n == t@.len(),
            tv == entries_view(t@),
            i <= n,
            match best {
                Some(j) => best_snippet(v@, tv, i as int) == Some(j as int),
                None => best_snippet(v@, tv, i as int) is None,
            },
            best matches Some(j) ==> j < i && snippet_applies(v@, tv[j as int].0),
        decreases n - i,
    {
        let key = &t[i].0;
        assert(key@ == tv[i as int].0);
        if applies(v, key) {
            let better = match best {
                Some(j) => {
                    assert(t[j as int].0@ == tv[j as int].0);
                    t[j].0.len() < key.len()
                },
                None => true,
            };
            if better {
                best = Some(i);
            }
        }
        i = i + 1;
    }
    match best {
        Some(j) => {
            let key = &t[j].0;
            let text = &t[j].1;
            assert(key@ == tv[j as int].0 && text@ == tv[j as int].1);
            let mut r: Vec<char> = Vec::new();
            append_all(&mut r, text);
            append_range(&mut r, v, key.len(), v.len());
            assert(v@.subrange(key@.len() as int, v@.len() as int) =~= v@.skip(key@.len() as int));
            r
        },
        None => {
            let mut r: Vec<char> = Vec::new();
            append_all(&mut r, v);
            assert(r@ =~= v@);
            r
        },
    }
}

} // verus!
