//! Character-level text handling: whitespace trimming and the
//! lexicographic order on sequences that strings and paths are sorted by.
use vstd::prelude::*;

verus! {

broadcast use vstd::string::group_string_axioms;

// ---------------------------------------------------------------------------
// Lexicographic order
// ---------------------------------------------------------------------------

/// `lt` is a strict total order: irreflexive, transitive, and any two
/// distinct values are comparable.
pub open spec fn strict_total<T>(lt: spec_fn(T, T) -> bool) -> bool {
    &&& forall|x: T| !#[trigger] lt(x, x)
    &&& forall|x: T, y: T, z: T| #[trigger] lt(x, y) && #[trigger] lt(y, z) ==> lt(x, z)
    &&& forall|x: T, y: T| x != y ==> #[trigger] lt(x, y) || #[trigger] lt(y, x)
}

/// Lexicographic order on sequences: the first position where the two differ
/// decides, and a proper prefix comes first.
pub open spec fn lex_less<T>(a: Seq<T>, b: Seq<T>, lt: spec_fn(T, T) -> bool) -> bool
    decreases a.len(),
{
    if a.len() == 0 {
        b.len() > 0
    } else if b.len() == 0 {
        false
    } else if a[0] == b[0] {
        lex_less(a.drop_first(), b.drop_first(), lt)
    } else {
        lt(a[0], b[0])
    }
}

/// Characters ordered by code point (which is also the order of their UTF-8
/// encodings compared byte by byte).
pub open spec fn char_order() -> spec_fn(char, char) -> bool {
    |x: char, y: char| (x as u32) < (y as u32)
}

/// Strings ordered lexicographically by code point.
pub open spec fn text_order() -> spec_fn(Seq<char>, Seq<char>) -> bool {
    |x: Seq<char>, y: Seq<char>| lex_less(x, y, char_order())
}

pub open spec fn text_less(a: Seq<char>, b: Seq<char>) -> bool {
    lex_less(a, b, char_order())
}

pub proof fn lemma_lex_irreflexive<T>(a: Seq<T>, lt: spec_fn(T, T) -> bool)
    requires
        strict_total(lt),
    ensures
        !lex_less(a, a, lt),
    decreases a.len(),
{
    if a.len() > 0 {
        lemma_lex_irreflexive(a.drop_first(), lt);
    }
}

pub proof fn lemma_lex_transitive<T>(a: Seq<T>, b: Seq<T>, c: Seq<T>, lt: spec_fn(T, T) -> bool)
    requires
        strict_total(lt),
        lex_less(a, b, lt),
        lex_less(b, c, lt),
    ensures
        lex_less(a, c, lt),
    decreases a.len(),
{
    if a.len() > 0 && b.len() > 0 && c.len() > 0 {
        if a[0] == b[0] && b[0] == c[0] {
            lemma_lex_transitive(a.drop_first(), b.drop_first(), c.drop_first(), lt);
        } else if a[0] == b[0] {
        } else if b[0] == c[0] {
        } else {
            assert(lt(a[0], b[0]) && lt(b[0], c[0]));
            if a[0] == c[0] {
                assert(lt(a[0], a[0]));
            }
        }
    }
}

pub proof fn lemma_lex_total<T>(a: Seq<T>, b: Seq<T>, lt: spec_fn(T, T) -> bool)
    requires
        strict_total(lt),
        a != b,
    ensures
        lex_less(a, b, lt) || lex_less(b, a, lt),
    decreases a.len(),
{
    if a.len() == 0 {
        assert(b.len() > 0) by {
            if b.len() == 0 {
                assert(a =~= b);
            }
        }
    } else if b.len() == 0 {
    } else if a[0] == b[0] {
        if a.drop_first() == b.drop_first() {
            assert(a =~= seq![a[0]] + a.drop_first());
            assert(b =~= seq![b[0]] + b.drop_first());
        }
        lemma_lex_total(a.drop_first(), b.drop_first(), lt);
    } else {
        assert(lt(a[0], b[0]) || lt(b[0], a[0]));
    }
}

/// The lexicographic extension of a strict total order is a strict total order.
pub proof fn lemma_lex_strict_total<T>(lt: spec_fn(T, T) -> bool)
    requires
        strict_total(lt),
    ensures
        strict_total(|x: Seq<T>, y: Seq<T>| lex_less(x, y, lt)),
{
    let l = |x: Seq<T>, y: Seq<T>| lex_less(x, y, lt);
    assert forall|x: Seq<T>| !#[trigger] l(x, x) by {
        lemma_lex_irreflexive(x, lt);
    }
    assert forall|x: Seq<T>, y: Seq<T>, z: Seq<T>| #[trigger] l(x, y) && #[trigger] l(y, z) implies l(
        x,
        z,
    ) by {
        lemma_lex_transitive(x, y, z, lt);
    }
    assert forall|x: Seq<T>, y: Seq<T>| x != y implies #[trigger] l(x, y) || #[trigger] l(y, x) by {
        lemma_lex_total(x, y, lt);
    }
}

/// Once the first `i` positions agree, the order is decided by what follows.
pub proof fn lemma_lex_skip<T>(a: Seq<T>, b: Seq<T>, lt: spec_fn(T, T) -> bool, i: int)
    requires
        0 <= i <= a.len(),
        i <= b.len(),
        a.take(i) == b.take(i),
    ensures
        lex_less(a, b, lt) == lex_less(a.skip(i), b.skip(i), lt),
    decreases i,
{
    if i > 0 {
        assert(a[0] == a.take(i)[0]);
        assert(b[0] == b.take(i)[0]);
        assert(a.drop_first().take(i - 1) =~= a.take(i).drop_first());
        assert(b.drop_first().take(i - 1) =~= b.take(i).drop_first());
        lemma_lex_skip(a.drop_first(), b.drop_first(), lt, i - 1);
        assert(a.drop_first().skip(i - 1) =~= a.skip(i));
        assert(b.drop_first().skip(i - 1) =~= b.skip(i));
    } else {
        assert(a.skip(0) =~= a);
        assert(b.skip(0) =~= b);
    }
}

pub proof fn lemma_char_order_strict_total()
    ensures
        strict_total(char_order()),
{
    assert forall|x: char, y: char| x != y implies #[trigger] char_order()(x, y) || #[trigger] char_order()(
        y,
        x,
    ) by {
        if x as u32 == y as u32 {
            vstd::utf8::char_u32_cast(x, x as u32);
            vstd::utf8::char_u32_cast(y, y as u32);
        }
    }
}

pub proof fn lemma_text_order_strict_total()
    ensures
        strict_total(text_order()),
{
    lemma_char_order_strict_total();
    lemma_lex_strict_total(char_order());
    assert(text_order() =~= (|x: Seq<char>, y: Seq<char>| lex_less(x, y, char_order())));
}

/// `s` is in non-decreasing order of `key` under `lt`.
pub open spec fn sorted_by<T, K>(s: Seq<T>, key: spec_fn(T) -> K, lt: spec_fn(K, K) -> bool) -> bool {
    forall|i: int, j: int| 0 <= i < j < s.len() ==> !lt(#[trigger] key(s[j]), #[trigger] key(s[i]))
}

/// Inserting `x` after every element that does not sort after it, and before
/// every element that does, keeps a sequence sorted.
pub proof fn lemma_insert_sorted<T, K>(
    s: Seq<T>,
    p: int,
    x: T,
    key: spec_fn(T) -> K,
    lt: spec_fn(K, K) -> bool,
)
    requires
        strict_total(lt),
        sorted_by(s, key, lt),
        0 <= p <= s.len(),
        p > 0 ==> !lt(key(x), key(s[p - 1])),
        forall|k: int| p <= k < s.len() ==> lt(key(x), #[trigger] key(s[k])),
    ensures
        sorted_by(s.insert(p, x), key, lt),
{
    let t = s.insert(p, x);
    assert forall|i: int, j: int| 0 <= i < j < t.len() implies !lt(
        #[trigger] key(t[j]),
        #[trigger] key(t[i]),
    ) by {
        if i < p && j == p {
            // key(s[i]) <= key(s[p - 1]) <= key(x)
            if lt(key(x), key(s[i])) {
                if i < p - 1 {
                    assert(!lt(key(s[p - 1]), key(s[i])));
                    if key(s[p - 1]) != key(s[i]) {
                        assert(lt(key(s[i]), key(s[p - 1])));
                        assert(lt(key(x), key(s[p - 1])));
                    }
                }
            }
        } else if i == p && j > p {
            assert(lt(key(x), key(s[j - 1])));
            if lt(key(s[j - 1]), key(x)) {
                assert(lt(key(x), key(x)));
            }
        } else if i < p && j > p {
            assert(!lt(key(s[j - 1]), key(s[i])));
        } else if i > p {
            assert(!lt(key(s[j - 1]), key(s[i - 1])));
        } else {
            assert(!lt(key(s[j]), key(s[i])));
        }
    }
}

/// Inserting `x` before elements that all fail `pred` adds `x` at the end of
/// the filtered sequence where `x` passes, and changes nothing where it fails.
pub proof fn lemma_filter_insert<T>(s: Seq<T>, p: int, x: T, pred: spec_fn(T) -> bool)
    requires
        0 <= p <= s.len(),
        pred(x) ==> forall|k: int| p <= k < s.len() ==> !pred(#[trigger] s[k]),
    ensures
        s.insert(p, x).filter(pred) == if pred(x) {
            s.filter(pred).push(x)
        } else {
            s.filter(pred)
        },
{
    let a = s.take(p);
    let b = s.skip(p);
    assert(s =~= a + b);
    assert(s.insert(p, x) =~= a + seq![x] + b);
    Seq::filter_distributes_over_add(a, b, pred);
    Seq::filter_distributes_over_add(a + seq![x], b, pred);
    Seq::filter_distributes_over_add(a, seq![x], pred);
    seq![x].lemma_filter_push(x, pred);
    assert(Seq::<T>::empty().push(x) =~= seq![x]);
    assert(Seq::<T>::empty().filter(pred) =~= Seq::<T>::empty()) by {
        reveal(Seq::filter);
    }
    Seq::<T>::empty().lemma_filter_push(x, pred);
    if pred(x) {
        assert(b.all(|y: T| !pred(y))) by {
            assert forall|k: int| 0 <= k < b.len() implies !pred(#[trigger] b[k]) by {
                assert(b[k] == s[p + k]);
            }
        }
        b.lemma_all_neg_filter_empty(pred);
        assert(b.filter(pred) =~= Seq::<T>::empty());
        assert(a.filter(pred) + seq![x] + Seq::<T>::empty() =~= (a.filter(pred) + Seq::<T>::empty()).push(x));
    } else {
        assert(a.filter(pred) + Seq::<T>::empty() =~= a.filter(pred));
    }
}

// ---------------------------------------------------------------------------
// Characters and strings
// ---------------------------------------------------------------------------

/// The characters of `s`, in order.
pub fn chars_of(s: &str) -> (v: Vec<char>)
    ensures
        v@ == s@,
{
    let mut v: Vec<char> = Vec::new();
    for c in it: s.chars()
        invariant
            v@ == it.seq().take(it.index() as int),
            it.seq() == s@,
    {
        v.push(c);
    }
    v
}

/// Whether `a` orders strictly before `b` by code point.
pub fn text_before(a: &str, b: &str) -> (r: bool)
    ensures
        r == text_less(a@, b@),
{
    let x = chars_of(a);
    let y = chars_of(b);
    let mut i: usize = 0;
    while i < x.len() && i < y.len()
        invariant
            i <= x.len(),
            i <= y.len(),
            x@.take(i as int) == y@.take(i as int),
            x@ == a@,
            y@ == b@,
        decreases x.len() - i,
    {
        if x[i] != y[i] {
            proof {
                lemma_lex_skip(x@, y@, char_order(), i as int);
                assert(x@.skip(i as int)[0] == x@[i as int]);
                assert(y@.skip(i as int)[0] == y@[i as int]);
            }
            return (x[i] as u32) < (y[i] as u32);
        }
        proof {
            assert(x@.take(i + 1) =~= x@.take(i as int).push(x@[i as int]));
            assert(y@.take(i + 1) =~= y@.take(i as int).push(y@[i as int]));
        }
        i = i + 1;
    }
    proof {
        lemma_lex_skip(x@, y@, char_order(), i as int);
    }
    i < y.len()
}

/// White_Space in the Unicode Character Database, the property that
/// `char::is_whitespace` and `str::trim` go by.
pub open spec fn is_white_space(c: char) -> bool {
    let u = c as u32;
    ||| 0x9 <= u <= 0xd
    ||| u == 0x20
    ||| u == 0x85
    ||| u == 0xa0
    ||| u == 0x1680
    ||| 0x2000 <= u <= 0x200a
    ||| u == 0x2028
    ||| u == 0x2029
    ||| u == 0x202f
    ||| u == 0x205f
    ||| u == 0x3000
}

/// Whether `c` is white space.
pub fn white_space(c: char) -> (r: bool)
    ensures
        r == is_white_space(c),
{
    let u = c as u32;
    (0x9 <= u && u <= 0xd) || u == 0x20 || u == 0x85 || u == 0xa0 || u == 0x1680 || (0x2000 <= u
        && u <= 0x200a) || u == 0x2028 || u == 0x2029 || u == 0x202f || u == 0x205f || u == 0x3000
}

/// `s` without its leading and trailing white space.
pub open spec fn trimmed(s: Seq<char>) -> Seq<char>
    decreases s.len(),
{
    if s.len() > 0 && is_white_space(s[0]) {
        trimmed(s.drop_first())
    } else if s.len() > 0 && is_white_space(s.last()) {
        trimmed(s.drop_last())
    } else {
        s
    }
}

/// Trimming twice is trimming once.
pub proof fn lemma_trimmed_idempotent(s: Seq<char>)
    ensures
        trimmed(trimmed(s)) == trimmed(s),
    decreases s.len(),
{
    if s.len() > 0 && is_white_space(s[0]) {
        lemma_trimmed_idempotent(s.drop_first());
    } else if s.len() > 0 && is_white_space(s.last()) {
        lemma_trimmed_idempotent(s.drop_last());
    }
}

/// `s` with white space removed from both ends, as `str::trim` returns it.
pub fn trim(s: &str) -> (r: String)
    ensures
        r@ == trimmed(s@),
{
    let v = chars_of(s);
    let mut lo: usize = 0;
    let mut hi: usize = v.len();
    assert(v@.subrange(0, hi as int) =~= v@);
    while lo < hi && white_space(v[lo])
        invariant
            lo <= hi == v.len(),
            v@ == s@,
            trimmed(s@) == trimmed(v@.subrange(lo as int, hi as int)),
        decreases hi - lo,
    {
        proof {
            assert(v@.subrange(lo as int, hi as int).drop_first() =~= v@.subrange(
                lo + 1,
                hi as int,
            ));
        }
        lo = lo + 1;
    }
    while lo < hi && white_space(v[hi - 1])
        invariant
            lo <= hi <= v.len(),
            v@ == s@,
            trimmed(s@) == trimmed(v@.subrange(lo as int, hi as int)),
            lo < hi ==> !is_white_space(v@[lo as int]),
        decreases hi - lo,
    {
        proof {
            assert(v@.subrange(lo as int, hi as int).drop_last() =~= v@.subrange(
                lo as int,
                hi - 1,
            ));
        }
        hi = hi - 1;
    }
    String::from_str(s.substring_char(lo, hi))
}

/// The first position where two sequences differ decides their order.
pub proof fn lemma_lex_first_difference<T>(a: Seq<T>, b: Seq<T>, lt: spec_fn(T, T) -> bool, k: int)
    requires
        0 <= k < a.len(),
        k < b.len(),
        a.take(k) == b.take(k),
        a[k] != b[k],
    ensures
        lex_less(a, b, lt) == lt(a[k], b[k]),
{
    lemma_lex_skip(a, b, lt, k);
    assert(a.skip(k)[0] == a[k]);
    assert(b.skip(k)[0] == b[k]);
}

/// A proper prefix comes first.
pub proof fn lemma_lex_prefix<T>(a: Seq<T>, b: Seq<T>, lt: spec_fn(T, T) -> bool)
    requires
        a.len() < b.len(),
        b.take(a.len() as int) == a,
    ensures
        lex_less(a, b, lt),
        !lex_less(b, a, lt),
{
    assert(a.take(a.len() as int) =~= a);
    lemma_lex_skip(a, b, lt, a.len() as int);
    lemma_lex_skip(b, a, lt, a.len() as int);
    assert(a.skip(a.len() as int) =~= Seq::<T>::empty());
}

/// Trimming removes white space from the two ends and nothing else: the
/// result is the stretch `lo..hi` of the text, everything before and after
/// it is white space, and it neither starts nor ends with white space.
pub proof fn lemma_trimmed_shape(s: Seq<char>) -> (r: (int, int))
    ensures
        0 <= r.0 <= r.1 <= s.len(),
        trimmed(s) == s.subrange(r.0, r.1),
        forall|k: int| 0 <= k < r.0 ==> is_white_space(#[trigger] s[k]),
        forall|k: int| r.1 <= k < s.len() ==> is_white_space(#[trigger] s[k]),
        r.0 < r.1 ==> !is_white_space(s[r.0]) && !is_white_space(s[r.1 - 1]),
    decreases s.len(),
{
    if s.len() > 0 && is_white_space(s[0]) {
        let t = s.drop_first();
        let (lo, hi) = lemma_trimmed_shape(t);
        assert(t.subrange(lo, hi) =~= s.subrange(lo + 1, hi + 1));
        assert forall|k: int| 0 <= k < lo + 1 implies is_white_space(#[trigger] s[k]) by {
            if k > 0 {
                assert(s[k] == t[k - 1]);
            }
        }
        assert forall|k: int| hi + 1 <= k < s.len() implies is_white_space(#[trigger] s[k]) by {
            assert(s[k] == t[k - 1]);
        }
        if lo < hi {
            assert(s[lo + 1] == t[lo]);
            assert(s[hi] == t[hi - 1]);
        }
        (lo + 1, hi + 1)
    } else if s.len() > 0 && is_white_space(s.last()) {
        let t = s.drop_last();
        let (lo, hi) = lemma_trimmed_shape(t);
        assert(t.subrange(lo, hi) =~= s.subrange(lo, hi));
        assert forall|k: int| 0 <= k < lo implies is_white_space(#[trigger] s[k]) by {
            assert(s[k] == t[k]);
        }
        assert forall|k: int| hi <= k < s.len() implies is_white_space(#[trigger] s[k]) by {
            if k < s.len() - 1 {
                assert(s[k] == t[k]);
            }
        }
        if lo < hi {
            assert(s[lo] == t[lo]);
            assert(s[hi - 1] == t[hi - 1]);
        }
        (lo, hi)
    } else {
        assert(s.subrange(0, s.len() as int) =~= s);
        (0, s.len() as int)
    }
}

} // verus!
