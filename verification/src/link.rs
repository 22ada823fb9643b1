//! Wiki links (`[[page#heading|alias]]`, `![[page]]`) found in a note's text.
use vstd::prelude::*;

use crate::path::NotePath;
use crate::text::chars_of;

verus! {

broadcast use vstd::string::group_string_axioms;

/// A link from one note to a page.
pub struct Link {
    /// The page linked to: the text before any `#` or `|`, as written.
    pub page: String,
    /// The note whose text holds the link.
    pub src: NotePath,
    /// The text after `|`, where there is one.
    pub alias: Option<String>,
    /// The text between `#` and `|` (or the end), where there is a `#`.
    pub heading: Option<String>,
    /// Whether the link is an embed, `![[...]]`.
    pub embed: bool,
}

/// What a link says, apart from where it was found.
pub struct LinkModel {
    pub page: Seq<char>,
    pub alias: Option<Seq<char>>,
    pub heading: Option<Seq<char>>,
    pub embed: bool,
}

pub open spec fn opt_view(o: Option<String>) -> Option<Seq<char>> {
    match o {
        Some(s) => Some(s@),
        None => None,
    }
}

impl View for Link {
    type V = LinkModel;

    open spec fn view(&self) -> LinkModel {
        LinkModel {
            page: self.page@,
            alias: opt_view(self.alias),
            heading: opt_view(self.heading),
            embed: self.embed,
        }
    }
}

/// Characters that cannot stand inside a link.
pub open spec fn is_link_stop(c: char) -> bool {
    c == '[' || c == ']' || c == '\n'
}

/// The first position at or after `i` holding `[`, `]` or a newline, or the
/// length of `s` where there is none.
pub open spec fn next_stop(s: Seq<char>, i: int) -> int
    decreases s.len() - i,
{
    if i >= s.len() {
        s.len() as int
    } else if is_link_stop(s[i]) {
        i
    } else {
        next_stop(s, i + 1)
    }
}

/// The first position in `from..to` holding `c`, or `to` where there is none.
pub open spec fn find_from(s: Seq<char>, c: char, from: int, to: int) -> int
    decreases to - from,
{
    if from >= to {
        to
    } else if s[from] == c {
        from
    } else {
        find_from(s, c, from + 1, to)
    }
}

pub proof fn lemma_next_stop(s: Seq<char>, i: int)
    requires
        0 <= i <= s.len(),
    ensures
        i <= next_stop(s, i) <= s.len(),
        next_stop(s, i) < s.len() ==> is_link_stop(s[next_stop(s, i)]),
        forall|k: int| i <= k < next_stop(s, i) ==> !is_link_stop(#[trigger] s[k]),
    decreases s.len() - i,
{
    if i < s.len() && !is_link_stop(s[i]) {
        lemma_next_stop(s, i + 1);
    }
}

pub proof fn lemma_find_from(s: Seq<char>, c: char, from: int, to: int)
    requires
        from <= to,
    ensures
        from <= find_from(s, c, from, to) <= to,
        find_from(s, c, from, to) < to ==> s[find_from(s, c, from, to)] == c,
        forall|k: int| from <= k < find_from(s, c, from, to) ==> #[trigger] s[k] != c,
    decreases to - from,
{
    if from < to && s[from] != c {
        lemma_find_from(s, c, from + 1, to);
    }
}

/// A link opens at `i`: `[[`, then text free of brackets and newlines, then
/// `]]`.
pub open spec fn link_at(s: Seq<char>, i: int) -> bool {
    let j = next_stop(s, i + 2);
    &&& 0 <= i
    &&& i + 1 < s.len()
    &&& s[i] == '['
    &&& s[i + 1] == '['
    &&& j + 1 < s.len()
    &&& s[j] == ']'
    &&& s[j + 1] == ']'
}

/// The link whose text lies between `i + 2` and `j`.
pub open spec fn link_model(s: Seq<char>, i: int, j: int) -> LinkModel {
    let bar = find_from(s, '|', i + 2, j);
    let hash = find_from(s, '#', i + 2, bar);
    LinkModel {
        page: s.subrange(i + 2, hash),
        alias: if bar < j {
            Some(s.subrange(bar + 1, j))
        } else {
            None
        },
        heading: if hash < bar {
            Some(s.subrange(hash + 1, bar))
        } else {
            None
        },
        embed: i > 0 && s[i - 1] == '!',
    }
}

/// The links of `s` that start in `i..e`, left to right. A link whose page
/// is empty (such as `[[#heading]]`) names no page and is left out.
pub open spec fn links_between(s: Seq<char>, i: int, e: int) -> Seq<LinkModel>
    decreases s.len() - i,
{
    if i < 0 || i >= e || i >= s.len() {
        Seq::empty()
    } else if link_at(s, i) {
        let j = next_stop(s, i + 2);
        proof {
            lemma_next_stop(s, i + 2);
        }
        let m = link_model(s, i, j);
        let rest = links_between(s, j + 2, e);
        if m.page.len() > 0 {
            seq![m] + rest
        } else {
            rest
        }
    } else {
        links_between(s, i + 1, e)
    }
}

/// The end of the line starting at `i`: the position of the next newline, or
/// the length of `s`.
pub open spec fn line_end(s: Seq<char>, i: int) -> int
    decreases s.len() - i,
{
    if i >= s.len() {
        s.len() as int
    } else if s[i] == '\n' {
        i
    } else {
        line_end(s, i + 1)
    }
}

/// Position `i` after at most three spaces.
pub open spec fn after_indent(s: Seq<char>, i: int) -> int {
    if i < s.len() && s[i] == ' ' {
        if i + 1 < s.len() && s[i + 1] == ' ' {
            if i + 2 < s.len() && s[i + 2] == ' ' {
                i + 3
            } else {
                i + 2
            }
        } else {
            i + 1
        }
    } else {
        i
    }
}

/// The fence character of the line starting at `i`, where the line opens or
/// closes a fenced code block: after at most three spaces, three backticks or
/// three tildes.
pub open spec fn fence_mark(s: Seq<char>, i: int) -> Option<char> {
    let k = after_indent(s, i);
    if k + 2 < s.len() && (s[k] == '`' || s[k] == '~') && s[k + 1] == s[k] && s[k + 2] == s[k] {
        Some(s[k])
    } else {
        None
    }
}

/// The start of the line after the one starting at `i`.
pub open spec fn next_line(s: Seq<char>, i: int) -> int {
    if line_end(s, i) < s.len() {
        line_end(s, i) + 1
    } else {
        s.len() as int
    }
}

pub proof fn lemma_line_end(s: Seq<char>, i: int)
    requires
        0 <= i <= s.len(),
    ensures
        i <= line_end(s, i) <= s.len(),
        line_end(s, i) < s.len() ==> s[line_end(s, i)] == '\n',
        forall|k: int| i <= k < line_end(s, i) ==> #[trigger] s[k] != '\n',
    decreases s.len() - i,
{
    if i < s.len() && s[i] != '\n' {
        lemma_line_end(s, i + 1);
    }
}

/// The links of `s` from the line starting at `i` on, where `fence` is the
/// character of the fenced code block that line lies in, if any. A fence line
/// opens a block, and a later fence line of the same character closes it;
/// the lines of a block, fence lines included, hold no links. A block left
/// open runs to the end of the text.
pub open spec fn links_from(s: Seq<char>, i: int, fence: Option<char>) -> Seq<LinkModel>
    decreases s.len() - i,
{
    if i < 0 || i >= s.len() {
        Seq::empty()
    } else {
        let e = line_end(s, i);
        let next = next_line(s, i);
        let mark = fence_mark(s, i);
        proof {
            lemma_line_end(s, i);
        }
        match fence {
            Some(c) => if mark == Some(c) {
                links_from(s, next, None)
            } else {
                links_from(s, next, fence)
            },
            None => if mark is Some {
                links_from(s, next, mark)
            } else {
                links_between(s, i, e) + links_from(s, next, None)
            },
        }
    }
}

/// The links of a whole text, outside fenced code blocks.
pub open spec fn links_of(s: Seq<char>) -> Seq<LinkModel> {
    links_from(s, 0, None)
}

fn scan_to_stop(v: &Vec<char>, from: usize) -> (r: usize)
    requires
        from <= v.len(),
    ensures
        r == next_stop(v@, from as int),
{
    let mut k = from;
    while k < v.len() && !(v[k] == '[' || v[k] == ']' || v[k] == '\n')
        invariant
            from <= k <= v.len(),
            next_stop(v@, from as int) == next_stop(v@, k as int),
        decreases v.len() - k,
    {
        k = k + 1;
    }
    k
}

fn find_char(v: &Vec<char>, c: char, from: usize, to: usize) -> (r: usize)
    requires
        from <= to <= v.len(),
    ensures
        r == find_from(v@, c, from as int, to as int),
{
    let mut k = from;
    while k < to && v[k] != c
        invariant
            from <= k <= to <= v.len(),
            find_from(v@, c, from as int, to as int) == find_from(v@, c, k as int, to as int),
        decreases to - k,
    {
        k = k + 1;
    }
    k
}

fn find_line_end(v: &Vec<char>, from: usize) -> (r: usize)
    requires
        from <= v.len(),
    ensures
        r == line_end(v@, from as int),
{
    let mut k = from;
    while k < v.len() && v[k] != '\n'
        invariant
            from <= k <= v.len(),
            line_end(v@, from as int) == line_end(v@, k as int),
        decreases v.len() - k,
    {
        k = k + 1;
    }
    k
}

fn find_fence_mark(v: &Vec<char>, i: usize) -> (r: Option<char>)
    requires
        i <= v.len(),
    ensures
        r == fence_mark(v@, i as int),
{
    let n = v.len();
    let mut k = i;
    if k < n && v[k] == ' ' {
        k = k + 1;
        if k < n && v[k] == ' ' {
            k = k + 1;
            if k < n && v[k] == ' ' {
                k = k + 1;
            }
        }
    }
    assert(k == after_indent(v@, i as int));
    if k < n && n - k > 2 && (v[k] == '`' || v[k] == '~') && v[k + 1] == v[k] && v[k + 2] == v[k] {
        Some(v[k])
    } else {
        None
    }
}

/// Appends the links that start in `lo..hi` of `v`, the characters of
/// `content`, to `out`.
fn scan_links(v: &Vec<char>, content: &str, src: &NotePath, lo: usize, hi: usize, out: &mut Vec<Link>)
    requires
        v@ == content@,
        lo <= hi <= v.len(),
        forall|k: int| 0 <= k < old(out)@.len() ==> (#[trigger] old(out)@[k]).src@ == src@,
        forall|k: int| 0 <= k < old(out)@.len() ==> (#[trigger] old(out)@[k]).page@.len() > 0,
    ensures
        final(out)@.map_values(|l: Link| l@) == old(out)@.map_values(|l: Link| l@) + links_between(
            v@,
            lo as int,
            hi as int,
        ),
        forall|k: int| 0 <= k < final(out)@.len() ==> (#[trigger] final(out)@[k]).src@ == src@,
        forall|k: int| 0 <= k < final(out)@.len() ==> (#[trigger] final(out)@[k]).page@.len() > 0,
{
    let n = v.len();
    let ghost start = old(out)@.map_values(|l: Link| l@);
    let mut i: usize = lo;
    while i < hi
        invariant
            n == v.len(),
            v@ == content@,
            lo <= i <= n,
            hi <= n,
            out@.map_values(|l: Link| l@) + links_between(v@, i as int, hi as int) == start
                + links_between(v@, lo as int, hi as int),
            forall|k: int| 0 <= k < out@.len() ==> (#[trigger] out@[k]).src@ == src@,
            forall|k: int| 0 <= k < out@.len() ==> (#[trigger] out@[k]).page@.len() > 0,
        decreases n - i,
    {
        if i + 1 < n && v[i] == '[' && v[i + 1] == '[' {
            let j = scan_to_stop(v, i + 2);
            proof {
                lemma_next_stop(v@, i + 2);
            }
            if j < n - 1 && v[j] == ']' && v[j + 1] == ']' {
                assert(link_at(v@, i as int));
                let bar = find_char(v, '|', i + 2, j);
                proof {
                    lemma_find_from(v@, '|', i + 2, j as int);
                }
                let hash = find_char(v, '#', i + 2, bar);
                proof {
                    lemma_find_from(v@, '#', i + 2, bar as int);
                }
                let ghost m = link_model(v@, i as int, j as int);
                if hash > i + 2 {
                    let page = String::from_str(content.substring_char(i + 2, hash));
                    let heading = if hash < bar {
                        Some(String::from_str(content.substring_char(hash + 1, bar)))
                    } else {
                        None
                    };
                    let alias = if bar < j {
                        Some(String::from_str(content.substring_char(bar + 1, j)))
                    } else {
                        None
                    };
                    let embed = i > 0 && v[i - 1] == '!';
                    let link = Link { page, src: src.duplicate(), alias, heading, embed };
                    assert(link@ == m);
                    let ghost before = out@;
                    out.push(link);
                    proof {
                        assert(out@.map_values(|l: Link| l@) =~= before.map_values(|l: Link| l@).push(m));
                        assert(links_between(v@, i as int, hi as int) == seq![m] + links_between(
                            v@,
                            j + 2,
                            hi as int,
                        ));
                        assert(out@.map_values(|l: Link| l@) + links_between(v@, j + 2, hi as int)
                            =~= before.map_values(|l: Link| l@) + links_between(v@, i as int, hi as int));
                    }
                } else {
                    assert(links_between(v@, i as int, hi as int) == links_between(v@, j + 2, hi as int));
                }
                i = j + 2;
                continue;
            }
        }
        assert(!link_at(v@, i as int));
        assert(links_between(v@, i as int, hi as int) == links_between(v@, i + 1, hi as int));
        i = i + 1;
    }
    assert(links_between(v@, i as int, hi as int) =~= Seq::<LinkModel>::empty());
    assert(out@.map_values(|l: Link| l@) =~= out@.map_values(|l: Link| l@) + Seq::<LinkModel>::empty());
}

/// The wiki links in `content`, the text of the note at `src`, in the order
/// they appear; links inside fenced code blocks are left out.
pub fn parse_links(content: &str, src: &NotePath) -> (r: Vec<Link>)
    ensures
        r@.map_values(|l: Link| l@) == links_of(content@),
        forall|k: int| 0 <= k < r@.len() ==> (#[trigger] r@[k]).src@ == src@,
        forall|k: int| 0 <= k < r@.len() ==> (#[trigger] r@[k]).page@.len() > 0,
{
    let v = chars_of(content);
    let n = v.len();
    let mut out: Vec<Link> = Vec::new();
    let mut fence: Option<char> = None;
    let mut i: usize = 0;
    assert(out@.map_values(|l: Link| l@) + links_of(v@) =~= links_of(v@));
    while i < n
        invariant
            n == v.len(),
            v@ == content@,
            i <= n,
            out@.map_values(|l: Link| l@) + links_from(v@, i as int, fence) == links_of(v@),
            forall|k: int| 0 <= k < out@.len() ==> (#[trigger] out@[k]).src@ == src@,
            forall|k: int| 0 <= k < out@.len() ==> (#[trigger] out@[k]).page@.len() > 0,
        decreases n - i,
    {
        let e = find_line_end(&v, i);
        proof {
            lemma_line_end(v@, i as int);
        }
        let mark = find_fence_mark(&v, i);
        let next = if e < n { e + 1 } else { n };
        assert(next == next_line(v@, i as int));
        let ghost before = out@.map_values(|l: Link| l@);
        let ghost f0 = fence;
        match fence {
            Some(c) => {
                if mark == Some(c) {
                    fence = None;
                }
            },
            None => {
                if mark.is_some() {
                    fence = mark;
                } else {
                    scan_links(&v, content, src, i, e, &mut out);
                    assert(links_from(v@, i as int, f0) == links_between(v@, i as int, e as int)
                        + links_from(v@, next as int, None));
                    assert(out@.map_values(|l: Link| l@) + links_from(v@, next as int, None)
                        =~= before + links_from(v@, i as int, f0));
                }
            },
        }
        i = next;
    }
    assert(links_from(v@, n as int, fence) =~= Seq::<LinkModel>::empty());
    assert(out@.map_values(|l: Link| l@) =~= out@.map_values(|l: Link| l@) + Seq::<LinkModel>::empty());
    out
}

// ---------------------------------------------------------------------------
// What a parsed link says of the text
// ---------------------------------------------------------------------------

/// A link written out again: its page, then `#` and its heading where it has
/// one, then `|` and its alias where it has one.
pub open spec fn spelled(l: LinkModel) -> Seq<char> {
    l.page + match l.heading {
        Some(h) => seq!['#'] + h,
        None => Seq::empty(),
    } + match l.alias {
        Some(a) => seq!['|'] + a,
        None => Seq::empty(),
    }
}

/// The page holds neither `#` nor `|`, and the heading no `|`: the text of
/// the link splits at its first `|` and, before that, at its first `#`.
pub open spec fn split_at_markers(l: LinkModel) -> bool {
    &&& !l.page.contains('#')
    &&& !l.page.contains('|')
    &&& (l.heading matches Some(h) ==> !h.contains('|'))
}

/// The link of `s` opening at `i` is `l`.
pub open spec fn parsed_at(s: Seq<char>, l: LinkModel, i: int) -> bool {
    &&& link_at(s, i)
    &&& l == link_model(s, i, next_stop(s, i + 2))
}

/// `l` is the link opening at some position of `s`.
pub open spec fn has_origin(s: Seq<char>, l: LinkModel) -> bool {
    exists|i: int| #[trigger] parsed_at(s, l, i)
}

proof fn lemma_no_char(s: Seq<char>, c: char, lo: int, hi: int)
    requires
        0 <= lo <= hi <= s.len(),
        forall|k: int| lo <= k < hi ==> #[trigger] s[k] != c,
    ensures
        !s.subrange(lo, hi).contains(c),
{
    if s.subrange(lo, hi).contains(c) {
        let k = choose|k: int| 0 <= k < hi - lo && s.subrange(lo, hi)[k] == c;
        assert(s[lo + k] == c);
    }
}

/// A link written out again is exactly the text between its brackets, split
/// at its first `|` and, before that, at its first `#`.
pub proof fn lemma_link_spells_its_text(s: Seq<char>, i: int)
    requires
        link_at(s, i),
    ensures
        spelled(link_model(s, i, next_stop(s, i + 2))) == s.subrange(i + 2, next_stop(s, i + 2)),
        split_at_markers(link_model(s, i, next_stop(s, i + 2))),
{
    let j = next_stop(s, i + 2);
    lemma_next_stop(s, i + 2);
    let bar = find_from(s, '|', i + 2, j);
    lemma_find_from(s, '|', i + 2, j);
    let hash = find_from(s, '#', i + 2, bar);
    lemma_find_from(s, '#', i + 2, bar);
    let l = link_model(s, i, j);
    let head = if hash < bar {
        seq!['#'] + s.subrange(hash + 1, bar)
    } else {
        Seq::<char>::empty()
    };
    let tail = if bar < j {
        seq!['|'] + s.subrange(bar + 1, j)
    } else {
        Seq::<char>::empty()
    };
    assert(s.subrange(i + 2, hash) + head =~= s.subrange(i + 2, bar));
    assert(s.subrange(i + 2, bar) + tail =~= s.subrange(i + 2, j));
    assert(spelled(l) == s.subrange(i + 2, hash) + head + tail);
    lemma_no_char(s, '#', i + 2, hash);
    lemma_no_char(s, '|', i + 2, hash);
    if hash < bar {
        lemma_no_char(s, '|', hash + 1, bar);
    }
}

proof fn lemma_links_between_parsed(s: Seq<char>, i: int, e: int)
    ensures
        forall|q: int|
            0 <= q < links_between(s, i, e).len() ==> #[trigger] has_origin(s, links_between(s, i, e)[q]),
    decreases s.len() - i,
{
    if i < 0 || i >= e || i >= s.len() {
    } else if link_at(s, i) {
        let j = next_stop(s, i + 2);
        lemma_next_stop(s, i + 2);
        lemma_links_between_parsed(s, j + 2, e);
        let m = link_model(s, i, j);
        let rest = links_between(s, j + 2, e);
        if m.page.len() > 0 {
            assert forall|q: int| 0 <= q < links_between(s, i, e).len() implies #[trigger] has_origin(
                s,
                links_between(s, i, e)[q],
            ) by {
                if q == 0 {
                    assert(parsed_at(s, links_between(s, i, e)[q], i));
                } else {
                    assert(links_between(s, i, e)[q] == rest[q - 1]);
                    assert(has_origin(s, rest[q - 1]));
                }
            }
        } else {
            assert(links_between(s, i, e) == rest);
            assert forall|q: int| 0 <= q < links_between(s, i, e).len() implies #[trigger] has_origin(
                s,
                links_between(s, i, e)[q],
            ) by {
                assert(has_origin(s, rest[q]));
            }
        }
    } else {
        lemma_links_between_parsed(s, i + 1, e);
        let rest = links_between(s, i + 1, e);
        assert(links_between(s, i, e) == rest);
        assert forall|q: int| 0 <= q < links_between(s, i, e).len() implies #[trigger] has_origin(
            s,
            links_between(s, i, e)[q],
        ) by {
            assert(has_origin(s, rest[q]));
        }
    }
}

proof fn lemma_links_from_parsed(s: Seq<char>, i: int, fence: Option<char>)
    ensures
        forall|q: int|
            0 <= q < links_from(s, i, fence).len() ==> #[trigger] has_origin(s, links_from(s, i, fence)[q]),
    decreases s.len() - i,
{
    if i < 0 || i >= s.len() {
    } else {
        let e = line_end(s, i);
        let next = next_line(s, i);
        let mark = fence_mark(s, i);
        lemma_line_end(s, i);
        lemma_links_from_parsed(s, next, None);
        lemma_links_from_parsed(s, next, fence);
        lemma_links_from_parsed(s, next, mark);
        if fence is None && mark is None {
            lemma_links_between_parsed(s, i, e);
            let a = links_between(s, i, e);
            let b = links_from(s, next, None);
            assert forall|q: int| 0 <= q < (a + b).len() implies #[trigger] has_origin(s, (a + b)[q]) by {
                if q < a.len() {
                    assert((a + b)[q] == a[q]);
                    assert(has_origin(s, a[q]));
                } else {
                    assert((a + b)[q] == b[q - a.len()]);
                    assert(has_origin(s, b[q - a.len()]));
                }
            }
            assert(links_from(s, i, fence) == a + b);
        } else {
            let r = if fence is Some {
                if mark == fence {
                    links_from(s, next, None)
                } else {
                    links_from(s, next, fence)
                }
            } else {
                links_from(s, next, mark)
            };
            assert(links_from(s, i, fence) == r);
            assert forall|q: int| 0 <= q < r.len() implies #[trigger] has_origin(s, r[q]) by {
                if fence is Some {
                    if mark == fence {
                        assert(has_origin(s, links_from(s, next, None)[q]));
                    } else {
                        assert(has_origin(s, links_from(s, next, fence)[q]));
                    }
                } else {
                    assert(has_origin(s, links_from(s, next, mark)[q]));
                }
            }
        }
    }
}

/// Every link the parser returns is the link opening at some `[[` of the
/// text: written out again it gives back the text between its brackets, its
/// page is not empty, it splits at the first `|` and, before that, the first
/// `#`, and it is an embed exactly when a `!` comes just before it.
pub proof fn lemma_parsed_links_spell_their_text(s: Seq<char>, q: int)
    requires
        0 <= q < links_of(s).len(),
    ensures
        exists|i: int|
            #![trigger parsed_at(s, links_of(s)[q], i)]
            link_at(s, i) && spelled(links_of(s)[q]) == s.subrange(i + 2, next_stop(s, i + 2))
                && links_of(s)[q].embed == (i > 0 && s[i - 1] == '!'),
        split_at_markers(links_of(s)[q]),
{
    lemma_links_from_parsed(s, 0, None);
    assert(has_origin(s, links_of(s)[q]));
    let i = choose|i: int| #[trigger] parsed_at(s, links_of(s)[q], i);
    lemma_link_spells_its_text(s, i);
    assert(parsed_at(s, links_of(s)[q], i));
}

proof fn lemma_next_stop_at(s: Seq<char>, i: int, j: int)
    requires
        0 <= i <= j < s.len(),
        is_link_stop(s[j]),
        forall|k: int| i <= k < j ==> !is_link_stop(#[trigger] s[k]),
    ensures
        next_stop(s, i) == j,
    decreases j - i,
{
    if i < j {
        lemma_next_stop_at(s, i + 1, j);
    }
}

proof fn lemma_line_end_none(s: Seq<char>, i: int)
    requires
        0 <= i <= s.len(),
        forall|k: int| i <= k < s.len() ==> #[trigger] s[k] != '\n',
    ensures
        line_end(s, i) == s.len(),
    decreases s.len() - i,
{
    if i < s.len() {
        lemma_line_end_none(s, i + 1);
    }
}

/// A text that is a single link, `[[` then text free of brackets and
/// newlines that does not start with `#` or `|`, then `]]`, holds exactly one
/// link: not an embed, and written out again it gives back the text between
/// the brackets.
pub proof fn lemma_single_link(inner: Seq<char>)
    requires
        inner.len() > 0,
        inner[0] != '#',
        inner[0] != '|',
        forall|k: int| 0 <= k < inner.len() ==> !is_link_stop(#[trigger] inner[k]),
    ensures
        ({
            let s = seq!['[', '['] + inner + seq![']', ']'];
            &&& links_of(s).len() == 1
            &&& spelled(links_of(s)[0]) == inner
            &&& split_at_markers(links_of(s)[0])
            &&& !links_of(s)[0].embed
        }),
{
    let s = seq!['[', '['] + inner + seq![']', ']'];
    let n = inner.len() as int;
    let j = n + 2;
    assert forall|k: int| 2 <= k < j implies !is_link_stop(#[trigger] s[k]) by {
        assert(s[k] == inner[k - 2]);
    }
    assert(s[j] == ']');
    assert(s[j + 1] == ']');
    lemma_next_stop_at(s, 2, j);
    assert forall|k: int| 0 <= k < s.len() implies #[trigger] s[k] != '\n' by {
        if 2 <= k < j {
            assert(!is_link_stop(s[k]));
        }
    }
    lemma_line_end_none(s, 0);
    assert(after_indent(s, 0) == 0);
    assert(fence_mark(s, 0) is None);
    assert(link_at(s, 0));
    let m = link_model(s, 0, j);
    lemma_find_from(s, '|', 2, j);
    let bar = find_from(s, '|', 2, j);
    lemma_find_from(s, '#', 2, bar);
    assert(s[2] == inner[0]);
    if bar == 2 {
        assert(s[2] == '|');
    }
    let hash = find_from(s, '#', 2, bar);
    if hash == 2 {
        assert(s[2] == '#');
    }
    assert(m.page.len() > 0);
    assert(links_between(s, j + 2, s.len() as int) =~= Seq::<LinkModel>::empty());
    assert(links_between(s, 0, s.len() as int) == seq![m]);
    assert(links_from(s, s.len() as int, None) =~= Seq::<LinkModel>::empty());
    assert(links_of(s) =~= seq![m]);
    lemma_link_spells_its_text(s, 0);
    assert(s.subrange(2, j) =~= inner);
}

} // verus!
