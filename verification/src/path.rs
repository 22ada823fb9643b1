//! Paths of notes inside a vault, and the rules by which a directory walk
//! picks notes out.
use vstd::prelude::*;

use crate::text::{
    chars_of, lemma_lex_skip, lemma_lex_strict_total, lemma_text_order_strict_total, lex_less,
    strict_total, text_before, text_order,
};

verus! {

broadcast use vstd::string::group_string_axioms;

/// A path relative to the vault's root, held as the names of its components
/// (each a name that a directory listing gave: never empty, never `.` or
/// `..`, never holding `/`).
pub struct NotePath {
    pub parts: Vec<String>,
}

impl View for NotePath {
    type V = Seq<Seq<char>>;

    open spec fn view(&self) -> Seq<Seq<char>> {
        self.parts@.map_values(|s: String| s@)
    }
}

/// The extension that marks a note.
pub open spec fn markdown_extension() -> Seq<char> {
    seq!['m', 'd']
}

/// Index of the last `.` in `s`, or -1 where there is none.
pub open spec fn last_dot(s: Seq<char>) -> int
    decreases s.len(),
{
    if s.len() == 0 {
        -1
    } else if s.last() == '.' {
        s.len() - 1
    } else {
        last_dot(s.drop_last())
    }
}

pub proof fn lemma_last_dot(s: Seq<char>)
    ensures
        -1 <= last_dot(s) < s.len(),
        last_dot(s) >= 0 ==> s[last_dot(s)] == '.',
        forall|k: int| last_dot(s) < k < s.len() ==> s[k] != '.',
    decreases s.len(),
{
    if s.len() > 0 && s.last() != '.' {
        lemma_last_dot(s.drop_last());
        assert forall|k: int| last_dot(s) < k < s.len() implies s[k] != '.' by {
            if k < s.len() - 1 {
                assert(s.drop_last()[k] == s[k]);
            }
        }
    }
}

/// The name `..`, which is never split at its dot.
pub open spec fn is_dot_dot(s: Seq<char>) -> bool {
    s.len() == 2 && s[0] == '.' && s[1] == '.'
}

/// The name `.`.
pub open spec fn is_dot(s: Seq<char>) -> bool {
    s.len() == 1 && s[0] == '.'
}

/// The stem of a file name, as `Path::file_stem` gives it (empty where it
/// gives none): nothing for `.` and `..`, else the part before the last `.`,
/// or the whole name where that `.` is missing or comes first.
pub open spec fn file_stem_of(name: Seq<char>) -> Seq<char> {
    if is_dot_dot(name) || is_dot(name) {
        Seq::empty()
    } else if last_dot(name) <= 0 {
        name
    } else {
        name.take(last_dot(name))
    }
}

/// The extension of a file name, as `Path::extension` gives it: the part
/// after the last `.`, where that `.` is present and not the first character.
pub open spec fn extension_of(name: Seq<char>) -> Option<Seq<char>> {
    if is_dot_dot(name) || last_dot(name) <= 0 {
        None
    } else {
        Some(name.skip(last_dot(name) + 1))
    }
}

/// A name that starts with `.`; the walk skips such entries.
pub open spec fn is_hidden(name: Seq<char>) -> bool {
    name.len() > 0 && name[0] == '.'
}

/// The stem of a path's last component, or the empty string for the empty
/// path.
pub open spec fn path_stem(p: Seq<Seq<char>>) -> Seq<char> {
    if p.len() == 0 {
        Seq::empty()
    } else {
        file_stem_of(p.last())
    }
}

/// A path the walk keeps: no component is hidden and the file's extension is
/// `md`.
pub open spec fn is_note_path(p: Seq<Seq<char>>) -> bool {
    &&& p.len() > 0
    &&& forall|i: int| 0 <= i < p.len() ==> !is_hidden(#[trigger] p[i])
    &&& extension_of(p.last()) == Some(markdown_extension())
}

/// Paths ordered as `Path`s compare: component by component, each component
/// by code point.
pub open spec fn path_less(a: Seq<Seq<char>>, b: Seq<Seq<char>>) -> bool {
    lex_less(a, b, text_order())
}

pub open spec fn path_order() -> spec_fn(Seq<Seq<char>>, Seq<Seq<char>>) -> bool {
    |a: Seq<Seq<char>>, b: Seq<Seq<char>>| path_less(a, b)
}

pub proof fn lemma_path_order_strict_total()
    ensures
        strict_total(path_order()),
{
    lemma_text_order_strict_total();
    lemma_lex_strict_total(text_order());
    assert(path_order() =~= (|x: Seq<Seq<char>>, y: Seq<Seq<char>>| lex_less(x, y, text_order())));
}

/// The components joined by `/`.
pub open spec fn joined(p: Seq<Seq<char>>) -> Seq<char>
    decreases p.len(),
{
    if p.len() == 0 {
        Seq::empty()
    } else if p.len() == 1 {
        p[0]
    } else {
        joined(p.drop_last()) + seq!['/'] + p.last()
    }
}

/// What a directory walk does with an entry.
#[derive(PartialEq, Eq, Structural, Clone, Copy, Debug)]
pub enum EntryKind {
    /// A hidden entry, or a file that is not a note: left alone.
    Skip,
    /// A directory to walk into.
    Descend,
    /// A note file to keep.
    Note,
}

pub open spec fn entry_kind_of(name: Seq<char>, is_dir: bool) -> EntryKind {
    if is_hidden(name) {
        EntryKind::Skip
    } else if is_dir {
        EntryKind::Descend
    } else if extension_of(name) == Some(markdown_extension()) {
        EntryKind::Note
    } else {
        EntryKind::Skip
    }
}

/// A path is a note exactly when the walk descends into each of its
/// directories and keeps its last component as a note.
pub proof fn lemma_walk_keeps_notes(p: Seq<Seq<char>>)
    requires
        p.len() > 0,
    ensures
        is_note_path(p) <==> ((forall|i: int|
            0 <= i < p.len() - 1 ==> entry_kind_of(#[trigger] p[i], true) == EntryKind::Descend)
            && entry_kind_of(p.last(), false) == EntryKind::Note),
{
    if (forall|i: int| 0 <= i < p.len() - 1 ==> entry_kind_of(#[trigger] p[i], true) == EntryKind::Descend)
        && entry_kind_of(p.last(), false) == EntryKind::Note {
        assert forall|i: int| 0 <= i < p.len() implies !is_hidden(#[trigger] p[i]) by {
            if i < p.len() - 1 {
                assert(entry_kind_of(p[i], true) == EntryKind::Descend);
            }
        }
    }
}

/// Index of the last `.` in `v`.
fn find_last_dot(v: &Vec<char>) -> (r: Option<usize>)
    ensures
        match r {
            Some(i) => i == last_dot(v@),
            None => last_dot(v@) == -1,
        },
{
    let mut i: usize = v.len();
    assert(v@.take(i as int) =~= v@);
    while i > 0
        invariant
            i <= v.len(),
            last_dot(v@) == last_dot(v@.take(i as int)),
        decreases i,
    {
        assert(v@.take(i as int).last() == v@[i - 1]);
        if v[i - 1] == '.' {
            return Some(i - 1);
        }
        assert(v@.take(i as int).drop_last() =~= v@.take(i - 1));
        i = i - 1;
    }
    None
}

fn dot_dot(v: &Vec<char>) -> (r: bool)
    ensures
        r == is_dot_dot(v@),
{
    v.len() == 2 && v[0] == '.' && v[1] == '.'
}

/// The stem of a file name (`Path::file_stem` on a single name).
pub fn file_stem(name: &str) -> (r: String)
    ensures
        r@ == file_stem_of(name@),
{
    let v = chars_of(name);
    let d = find_last_dot(&v);
    proof {
        lemma_last_dot(v@);
    }
    if dot_dot(&v) || (v.len() == 1 && v[0] == '.') {
        return String::new();
    }
    match d {
        Some(i) => {
            if i > 0 {
                String::from_str(name.substring_char(0, i))
            } else {
                String::from_str(name)
            }
        },
        None => String::from_str(name),
    }
}

/// Whether the name's extension is `md`.
pub fn has_markdown_extension(name: &str) -> (r: bool)
    ensures
        r == (extension_of(name@) == Some(markdown_extension())),
{
    let v = chars_of(name);
    let d = find_last_dot(&v);
    match d {
        Some(i) => {
            proof {
                lemma_last_dot(v@);
            }
            if i > 0 && !dot_dot(&v) {
                let n = v.len();
                let r = n - i == 3 && v[i + 1] == 'm' && v[i + 2] == 'd';
                proof {
                    let e = v@.skip(i + 1);
                    if r {
                        assert(e =~= markdown_extension());
                    } else if e == markdown_extension() {
                        assert(e.len() == 2);
                        assert(e[0] == v@[i + 1]);
                        assert(e[1] == v@[i + 2]);
                    }
                }
                r
            } else {
                false
            }
        },
        None => false,
    }
}

/// Whether the name starts with `.`.
pub fn is_hidden_name(name: &str) -> (r: bool)
    ensures
        r == is_hidden(name@),
{
    let v = chars_of(name);
    v.len() > 0 && v[0] == '.'
}

/// What a directory walk does with an entry of this name: hidden entries are
/// skipped, directories are walked into, and files are kept when their
/// extension is `md`.
pub fn entry_kind(name: &str, is_dir: bool) -> (r: EntryKind)
    ensures
        r == entry_kind_of(name@, is_dir),
{
    if is_hidden_name(name) {
        EntryKind::Skip
    } else if is_dir {
        EntryKind::Descend
    } else if has_markdown_extension(name) {
        EntryKind::Note
    } else {
        EntryKind::Skip
    }
}

impl NotePath {
    /// A copy of this path.
    pub fn duplicate(&self) -> (r: NotePath)
        ensures
            r@ == self@,
    {
        let mut parts: Vec<String> = Vec::new();
        let mut i: usize = 0;
        while i < self.parts.len()
            invariant
                i <= self.parts.len(),
                parts@.len() == i,
                forall|k: int| 0 <= k < i ==> #[trigger] parts@[k]@ == self.parts@[k]@,
            decreases self.parts.len() - i,
        {
            parts.push(self.parts[i].clone());
            i = i + 1;
        }
        let r = NotePath { parts };
        assert(r@ =~= self@);
        r
    }

    /// The stem of the path's file name (empty for the empty path).
    pub fn file_stem(&self) -> (r: String)
        ensures
            r@ == path_stem(self@),
    {
        let n = self.parts.len();
        if n == 0 {
            String::new()
        } else {
            file_stem(self.parts[n - 1].as_str())
        }
    }

    /// Whether a walk of the vault keeps this path as a note.
    pub fn is_note(&self) -> (r: bool)
        ensures
            r == is_note_path(self@),
    {
        let n = self.parts.len();
        if n == 0 {
            return false;
        }
        let mut i: usize = 0;
        while i < n
            invariant
                n == self.parts.len(),
                i <= n,
                forall|k: int| 0 <= k < i ==> !is_hidden(#[trigger] self@[k]),
            decreases n - i,
        {
            assert(self@[i as int] == self.parts@[i as int]@);
            if is_hidden_name(self.parts[i].as_str()) {
                return false;
            }
            i = i + 1;
        }
        assert(self@.last() == self.parts@[n - 1]@);
        has_markdown_extension(self.parts[n - 1].as_str())
    }

    /// Whether the two paths have the same components.
    pub fn same_as(&self, other: &NotePath) -> (r: bool)
        ensures
            r == (self@ == other@),
    {
        if self.parts.len() != other.parts.len() {
            assert(self@.len() != other@.len());
            return false;
        }
        let mut i: usize = 0;
        while i < self.parts.len()
            invariant
                self.parts.len() == other.parts.len(),
                i <= self.parts.len(),
                forall|k: int| 0 <= k < i ==> self@[k] == other@[k],
            decreases self.parts.len() - i,
        {
            assert(self@[i as int] == self.parts@[i as int]@);
            assert(other@[i as int] == other.parts@[i as int]@);
            if self.parts[i] != other.parts[i] {
                return false;
            }
            i = i + 1;
        }
        assert(self@ =~= other@);
        true
    }

    /// Whether this path sorts strictly before `other`.
    pub fn sorts_before(&self, other: &NotePath) -> (r: bool)
        ensures
            r == path_less(self@, other@),
    {
        let a = &self.parts;
        let b = &other.parts;
        let mut i: usize = 0;
        while i < a.len() && i < b.len()
            invariant
                i <= a.len(),
                i <= b.len(),
                a == &self.parts,
                b == &other.parts,
                self@.len() == a.len(),
                other@.len() == b.len(),
                self@.take(i as int) == other@.take(i as int),
            decreases a.len() - i,
        {
            assert(self@[i as int] == a@[i as int]@);
            assert(other@[i as int] == b@[i as int]@);
            if a[i] != b[i] {
                proof {
                    lemma_lex_skip(self@, other@, text_order(), i as int);
                    assert(self@.skip(i as int)[0] == self@[i as int]);
                    assert(other@.skip(i as int)[0] == other@[i as int]);
                }
                return text_before(a[i].as_str(), b[i].as_str());
            }
            proof {
                assert(self@.take(i + 1) =~= self@.take(i as int).push(self@[i as int]));
                assert(other@.take(i + 1) =~= other@.take(i as int).push(other@[i as int]));
            }
            i = i + 1;
        }
        proof {
            lemma_lex_skip(self@, other@, text_order(), i as int);
        }
        i < b.len()
    }

    /// The components joined by `/`.
    pub fn display(&self) -> (r: String)
        ensures
            r@ == joined(self@),
    {
        let mut out = String::new();
        let mut i: usize = 0;
        while i < self.parts.len()
            invariant
                i <= self.parts.len(),
                out@ == joined(self@.take(i as int)),
            decreases self.parts.len() - i,
        {
            proof {
                let t = self@.take(i + 1);
                assert(t.drop_last() =~= self@.take(i as int));
                assert(t.last() == self.parts@[i as int]@);
                if i == 0 {
                    assert(self@.take(0) =~= Seq::<Seq<char>>::empty());
                }
            }
            proof {
                reveal_strlit("/");
            }
            if i > 0 {
                out.append("/");
            }
            out.append(self.parts[i].as_str());
            i = i + 1;
        }
        assert(self@.take(self.parts.len() as int) =~= self@);
        out
    }
}

/// A file name (other than `.` and `..`) is its stem, then, where it has an
/// extension, `.` and the extension: the name splits at its last `.`, unless
/// that `.` is its first character.
pub proof fn lemma_stem_and_extension(name: Seq<char>)
    requires
        !is_dot(name),
        !is_dot_dot(name),
    ensures
        match extension_of(name) {
            Some(e) => name == file_stem_of(name) + seq!['.'] + e && file_stem_of(name).len() > 0
                && !e.contains('.'),
            None => file_stem_of(name) == name && forall|k: int| 0 < k < name.len() ==> #[trigger] name[k] != '.',
        },
{
    lemma_last_dot(name);
    let d = last_dot(name);
    if d > 0 {
        let e = name.skip(d + 1);
        assert(name =~= name.take(d) + seq!['.'] + e);
        if e.contains('.') {
            let k = choose|k: int| 0 <= k < e.len() && e[k] == '.';
            assert(name[d + 1 + k] == '.');
        }
    }
}

} // verus!
