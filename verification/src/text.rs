//! Character-level text model: whitespace, trimming, searching and splitting,
//! stated over `Seq<char>` and implemented over `Vec<char>` with index ranges.

use vstd::prelude::*;

verus! {

/// A set of characters that trimming or splitting works with.
#[derive(Clone, Copy, Debug, PartialEq, Eq, Structural)]
pub enum CharClass {
    /// Characters with the Unicode `White_Space` property (`char::is_whitespace`).
    Whitespace,
    /// The character `*`.
    Star,
    /// The character `\n`.
    Newline,
    /// The characters `,` and ` `.
    CommaOrSpace,
}

/// The Unicode `White_Space` property, which `char::is_whitespace` tests.
pub open spec fn is_white_space(c: char) -> bool {
    let u = c as u32;
    ||| 0x9 <= u <= 0xd
    ||| u == 0x20
    ||| u == 0x85
    ||| u == 0xa0
    ||| u == 0x1680
    ||| 0x2000 <= u <= 0x200a
    ||| u == 0x2028
    ||| u == 0x2029
    ||| u == 0x202f
    ||| u == 0x205f
    ||| u == 0x3000
}

pub open spec fn in_class(cls: CharClass, c: char) -> bool {
    match cls {
        CharClass::Whitespace => is_white_space(c),
        CharClass::Star => c == '*',
        CharClass::Newline => c == '\n',
        CharClass::CommaOrSpace => c == ',' || c == ' ',
    }
}

/// `s` without its leading characters of class `cls`.
pub open spec fn strip_front(s: Seq<char>, cls: CharClass) -> Seq<char>
    decreases s.len(),
{
    if s.len() > 0 && in_class(cls, s[0]) {
        strip_front(s.drop_first(), cls)
    } else {
        s
    }
}

/// `s` without its trailing characters of class `cls`.
pub open spec fn strip_back(s: Seq<char>, cls: CharClass) -> Seq<char>
    decreases s.len(),
{
    if s.len() > 0 && in_class(cls, s.last()) {
        strip_back(s.drop_last(), cls)
    } else {
        s
    }
}

/// `s` without leading and trailing characters of class `cls` (`str::trim_matches`).
pub open spec fn strip(s: Seq<char>, cls: CharClass) -> Seq<char> {
    strip_back(strip_front(s, cls), cls)
}

/// `str::trim`: `s` without leading and trailing whitespace.
pub open spec fn trim(s: Seq<char>) -> Seq<char> {
    strip(s, CharClass::Whitespace)
}

/// The index of the first `c` in `s`, or `s.len()` when there is none.
pub open spec fn index_of(s: Seq<char>, c: char) -> int
    decreases s.len(),
{
    if s.len() == 0 {
        0
    } else if s[0] == c {
        0
    } else {
        1 + index_of(s.drop_first(), c)
    }
}

/// Whether `c` occurs in `s`.
pub open spec fn has_char(s: Seq<char>, c: char) -> bool {
    index_of(s, c) < s.len()
}

/// The part of `s` before the first `c` (all of `s` when there is none).
pub open spec fn before(s: Seq<char>, c: char) -> Seq<char> {
    s.take(index_of(s, c))
}

/// The part of `s` after the first `c`.
pub open spec fn after(s: Seq<char>, c: char) -> Seq<char> {
    s.skip(index_of(s, c) + 1)
}

/// Splitting `s` at every character of class `cls`, read left to right: the pieces
/// completed so far and the piece under way.
pub open spec fn split_fold(s: Seq<char>, cls: CharClass) -> (Seq<Seq<char>>, Seq<char>)
    decreases s.len(),
{
    if s.len() == 0 {
        (seq![], seq![])
    } else {
        let (done, cur) = split_fold(s.drop_last(), cls);
        if in_class(cls, s.last()) {
            (done.push(cur), seq![])
        } else {
            (done, cur.push(s.last()))
        }
    }
}

/// `str::split` at the characters of class `cls`: always at least one piece.
pub open spec fn split_pieces(s: Seq<char>, cls: CharClass) -> Seq<Seq<char>> {
    split_fold(s, cls).0.push(split_fold(s, cls).1)
}

/// The non-empty pieces of `ps`, in order.
pub open spec fn non_empty(ps: Seq<Seq<char>>) -> Seq<Seq<char>>
    decreases ps.len(),
{
    if ps.len() == 0 {
        seq![]
    } else if ps.last().len() > 0 {
        non_empty(ps.drop_last()).push(ps.last())
    } else {
        non_empty(ps.drop_last())
    }
}

/// The pieces of `ps` trimmed, keeping those that are not empty after trimming.
pub open spec fn trimmed_non_empty(ps: Seq<Seq<char>>) -> Seq<Seq<char>>
    decreases ps.len(),
{
    if ps.len() == 0 {
        seq![]
    } else if trim(ps.last()).len() > 0 {
        trimmed_non_empty(ps.drop_last()).push(trim(ps.last()))
    } else {
        trimmed_non_empty(ps.drop_last())
    }
}

/// `str::split_whitespace`: the maximal runs of non-whitespace characters.
pub open spec fn words(s: Seq<char>) -> Seq<Seq<char>> {
    non_empty(split_pieces(s, CharClass::Whitespace))
}

/// Whether `t` occurs in `s` as a contiguous part (`str::contains`).
pub open spec fn contains_seq(s: Seq<char>, t: Seq<char>) -> bool {
    exists|i: int| 0 <= i <= s.len() - t.len() && #[trigger] s.subrange(i, i + t.len()) == t
}

/// `str::starts_with`.
pub open spec fn starts_with(s: Seq<char>, t: Seq<char>) -> bool {
    t.len() <= s.len() && s.take(t.len() as int) == t
}

/// `str::ends_with`.
pub open spec fn ends_with(s: Seq<char>, t: Seq<char>) -> bool {
    t.len() <= s.len() && s.skip(s.len() - t.len()) == t
}

// ---------------------------------------------------------------------------------------
// Lemmas

proof fn lemma_strip_front_step(v: Seq<char>, a: int, hi: int, cls: CharClass)
    requires
        0 <= a < hi <= v.len(),
        in_class(cls, v[a]),
    ensures
        strip_front(v.subrange(a, hi), cls) == strip_front(v.subrange(a + 1, hi), cls),
{
    assert(v.subrange(a, hi).drop_first() =~= v.subrange(a + 1, hi));
}

proof fn lemma_strip_back_step(v: Seq<char>, a: int, b: int, cls: CharClass)
    requires
        0 <= a < b <= v.len(),
        in_class(cls, v[b - 1]),
    ensures
        strip_back(v.subrange(a, b), cls) == strip_back(v.subrange(a, b - 1), cls),
{
    assert(v.subrange(a, b).drop_last() =~= v.subrange(a, b - 1));
}

proof fn lemma_index_of_step(v: Seq<char>, j: int, hi: int, c: char)
    requires
        0 <= j < hi <= v.len(),
        v[j] != c,
    ensures
        index_of(v.subrange(j, hi), c) == 1 + index_of(v.subrange(j + 1, hi), c),
{
    assert(v.subrange(j, hi).drop_first() =~= v.subrange(j + 1, hi));
}

/// The index of the first `c` lies within `s`, holds `c` when `c` occurs, and no earlier
/// position holds `c`.
pub proof fn lemma_index_of_bounds(s: Seq<char>, c: char)
    ensures
        0 <= index_of(s, c) <= s.len(),
        index_of(s, c) < s.len() ==> s[index_of(s, c)] == c,
        forall|j: int| 0 <= j < index_of(s, c) ==> s[j] != c,
    decreases s.len(),
{
    if s.len() > 0 && s[0] != c {
        lemma_index_of_bounds(s.drop_first(), c);
        assert forall|j: int| 0 <= j < index_of(s, c) implies s[j] != c by {
            if j > 0 {
                assert(s[j] == s.drop_first()[j - 1]);
            }
        }
    }
}

pub proof fn lemma_split_fold_step(v: Seq<char>, i: int, cls: CharClass)
    requires
        0 <= i < v.len(),
    ensures
        split_fold(v.take(i + 1), cls) == (if in_class(cls, v[i]) {
            (split_fold(v.take(i), cls).0.push(split_fold(v.take(i), cls).1), Seq::<char>::empty())
        } else {
            (split_fold(v.take(i), cls).0, split_fold(v.take(i), cls).1.push(v[i]))
        }),
{
    assert(v.take(i + 1).drop_last() =~= v.take(i));
    assert(v.take(i + 1).last() == v[i]);
}

/// Appending characters outside the class only extends the piece under way.
pub proof fn lemma_split_fold_append_plain(s: Seq<char>, t: Seq<char>, cls: CharClass)
    requires
        forall|i: int| 0 <= i < t.len() ==> !in_class(cls, #[trigger] t[i]),
    ensures
        split_fold(s + t, cls) == (split_fold(s, cls).0, split_fold(s, cls).1 + t),
    decreases t.len(),
{
    if t.len() == 0 {
        assert(s + t =~= s);
        assert(split_fold(s, cls).1 + t =~= split_fold(s, cls).1);
    } else {
        let t0 = t.drop_last();
        lemma_split_fold_append_plain(s, t0, cls);
        assert((s + t).drop_last() =~= s + t0);
        assert((s + t).last() == t.last());
        assert((split_fold(s, cls).1 + t0).push(t.last()) =~= split_fold(s, cls).1 + t);
    }
}

/// A separator ends the piece under way.
pub proof fn lemma_split_fold_push_sep(s: Seq<char>, c: char, cls: CharClass)
    requires
        in_class(cls, c),
    ensures
        split_fold(s.push(c), cls) == (split_fold(s, cls).0.push(split_fold(s, cls).1), Seq::<
            char,
        >::empty()),
{
    assert(s.push(c).drop_last() =~= s);
}

/// The pieces of `s`, a separator and then `t` (with no separator in it): the pieces of `s`
/// followed by `t`.
pub proof fn lemma_split_pieces_then(s: Seq<char>, c: char, t: Seq<char>, cls: CharClass)
    requires
        in_class(cls, c),
        forall|i: int| 0 <= i < t.len() ==> !in_class(cls, #[trigger] t[i]),
    ensures
        split_pieces(s + seq![c] + t, cls) == split_pieces(s, cls).push(t),
{
    assert(s + seq![c] =~= s.push(c));
    lemma_split_fold_push_sep(s, c, cls);
    lemma_split_fold_append_plain(s.push(c), t, cls);
    assert(Seq::<char>::empty() + t =~= t);
}

// ---------------------------------------------------------------------------------------
// Executable helpers

/// The characters of `s`, in order.
pub fn chars_of(s: &str) -> (v: Vec<char>)
    ensures
        v@ == s@,
{
    let mut v: Vec<char> = Vec::new();
    for c in it: s.chars()
        invariant
            v@ == it.seq().take(it.index() as int),
    {
        v.push(c);
    }
    v
}

/// Whether `c` is a whitespace character (`char::is_whitespace`).
pub fn is_whitespace(c: char) -> (b: bool)
    ensures
        b == is_white_space(c),
{
    let u = c as u32;
    (0x9 <= u && u <= 0xd) || u == 0x20 || u == 0x85 || u == 0xa0 || u == 0x1680 || (0x2000
        <= u && u <= 0x200a) || u == 0x2028 || u == 0x2029 || u == 0x202f || u == 0x205f || u
        == 0x3000
}

/// Whether `c` belongs to the class `cls`.
pub fn class_contains(cls: CharClass, c: char) -> (b: bool)
    ensures
        b == in_class(cls, c),
{
    match cls {
        CharClass::Whitespace => is_whitespace(c),
        CharClass::Star => c == '*',
        CharClass::Newline => c == '\n',
        CharClass::CommaOrSpace => c == ',' || c == ' ',
    }
}

/// The first position in `lo..hi` that holds `c`, or `hi`.
pub fn find_char(v: &Vec<char>, lo: usize, hi: usize, c: char) -> (r: usize)
    requires
        lo <= hi <= v.len(),
    ensures
        lo <= r <= hi,
        r - lo == index_of(v@.subrange(lo as int, hi as int), c),
{
    let mut j = lo;
    while j < hi && v[j] != c
        invariant
            lo <= j <= hi <= v.len(),
            index_of(v@.subrange(lo as int, hi as int), c) == (j - lo) + index_of(
                v@.subrange(j as int, hi as int),
                c,
            ),
        decreases hi - j,
    {
        proof {
            lemma_index_of_step(v@, j as int, hi as int, c);
        }
        j = j + 1;
    }
    j
}

/// The bounds of `lo..hi` without leading and trailing characters of class `cls`.
pub fn strip_range(v: &Vec<char>, lo: usize, hi: usize, cls: CharClass) -> (r: (usize, usize))
    requires
        lo <= hi <= v.len(),
    ensures
        lo <= r.0 <= r.1 <= hi,
        v@.subrange(r.0 as int, r.1 as int) == strip(v@.subrange(lo as int, hi as int), cls),
{
    let mut a = lo;
    while a < hi && class_contains(cls, v[a])
        invariant
            lo <= a <= hi <= v.len(),
            strip_front(v@.subrange(lo as int, hi as int), cls) == strip_front(
                v@.subrange(a as int, hi as int),
                cls,
            ),
        decreases hi - a,
    {
        proof {
            lemma_strip_front_step(v@, a as int, hi as int, cls);
        }
        a = a + 1;
    }
    assert(strip_front(v@.subrange(a as int, hi as int), cls) == v@.subrange(a as int, hi as int));
    let mut b = hi;
    while b > a && class_contains(cls, v[b - 1])
        invariant
            lo <= a <= b <= hi <= v.len(),
            strip_back(v@.subrange(a as int, hi as int), cls) == strip_back(
                v@.subrange(a as int, b as int),
                cls,
            ),
        decreases b - a,
    {
        proof {
            lemma_strip_back_step(v@, a as int, b as int, cls);
        }
        b = b - 1;
    }
    assert(strip_back(v@.subrange(a as int, b as int), cls) == v@.subrange(a as int, b as int));
    (a, b)
}

/// Whether two string slices hold the same characters.
pub fn same_text(a: &str, b: &str) -> (r: bool)
    ensures
        r == (a@ == b@),
{
    let sa = String::from_str(a);
    let sb = String::from_str(b);
    sa == sb
}

/// Whether `a[alo..alo + n]` and `b[blo..blo + n]` hold the same characters.
pub fn range_eq(a: &Vec<char>, alo: usize, b: &Vec<char>, blo: usize, n: usize) -> (r: bool)
    requires
        alo + n <= a.len(),
        blo + n <= b.len(),
    ensures
        r == (a@.subrange(alo as int, alo + n) == b@.subrange(blo as int, blo + n)),
{
    let mut k: usize = 0;
    while k < n
        invariant
            k <= n,
            alo + n <= a.len(),
            blo + n <= b.len(),
            a@.subrange(alo as int, alo + k) == b@.subrange(blo as int, blo + k),
        decreases n - k,
    {
        if a[alo + k] != b[blo + k] {
            assert(a@.subrange(alo as int, alo + n)[k as int] != b@.subrange(
                blo as int,
                blo + n,
            )[k as int]);
            return false;
        }
        proof {
            assert forall|j: int| 0 <= j < k + 1 implies #[trigger] a@.subrange(
                alo as int,
                alo + k + 1,
            )[j] == b@.subrange(blo as int, blo + k + 1)[j] by {
                if j < k {
                    assert(a@.subrange(alo as int, alo + k)[j] == b@.subrange(
                        blo as int,
                        blo + k,
                    )[j]);
                }
            }
            assert(a@.subrange(alo as int, alo + k + 1) =~= b@.subrange(blo as int, blo + k + 1));
        }
        k = k + 1;
    }
    assert(a@.subrange(alo as int, alo + n) =~= b@.subrange(blo as int, blo + n));
    true
}

/// Appends the piece `v[start..end]` of `s` to `out`, trimmed when `trim_piece`, unless it
/// is empty.
fn push_piece(
    s: &str,
    v: &Vec<char>,
    start: usize,
    end: usize,
    trim_piece: bool,
    out: &mut Vec<String>,
)
    requires
        v@ == s@,
        start <= end <= v.len(),
    ensures
        ({
            let piece = v@.subrange(start as int, end as int);
            let kept = if trim_piece {
                trim(piece)
            } else {
                piece
            };
            final(out).deep_view() == if kept.len() > 0 {
                old(out).deep_view().push(kept)
            } else {
                old(out).deep_view()
            }
        }),
{
    let (a, b) = if trim_piece {
        strip_range(v, start, end, CharClass::Whitespace)
    } else {
        (start, end)
    };
    if a < b {
        let p = s.substring_char(a, b);
        let ps = String::from_str(p);
        let ghost before_push = out.deep_view();
        out.push(ps);
        assert(out.deep_view() =~= before_push.push(ps@));
    }
}

/// The pieces of `s` between characters of class `cls`, keeping the non-empty ones;
/// with `trim_pieces`, each piece is trimmed first (`split(..).map(str::trim).filter(..)`).
pub fn split_non_empty(s: &str, cls: CharClass, trim_pieces: bool) -> (out: Vec<String>)
    ensures
        trim_pieces ==> out.deep_view() == trimmed_non_empty(split_pieces(s@, cls)),
        !trim_pieces ==> out.deep_view() == non_empty(split_pieces(s@, cls)),
{
    let v = chars_of(s);
    let n = v.len();
    let mut out: Vec<String> = Vec::new();
    let mut start: usize = 0;
    let ghost mut done: Seq<Seq<char>> = seq![];
    let mut i: usize = 0;
    while i < n
        invariant
            v@ == s@,
            n == v.len(),
            start <= i <= n,
            split_fold(v@.take(i as int), cls) == (done, v@.subrange(start as int, i as int)),
            trim_pieces ==> out.deep_view() == trimmed_non_empty(done),
            !trim_pieces ==> out.deep_view() == non_empty(done),
        decreases n - i,
    {
        proof {
            lemma_split_fold_step(v@, i as int, cls);
        }
        if class_contains(cls, v[i]) {
            let ghost piece = v@.subrange(start as int, i as int);
            push_piece(s, &v, start, i, trim_pieces, &mut out);
            proof {
                let old_done = done;
                done = done.push(piece);
                assert(done.drop_last() =~= old_done);
            }
            start = i + 1;
        } else {
            assert(v@.subrange(start as int, i as int).push(v@[i as int]) =~= v@.subrange(
                start as int,
                i + 1,
            ));
        }
        i = i + 1;
    }
    let ghost piece = v@.subrange(start as int, n as int);
    push_piece(s, &v, start, n, trim_pieces, &mut out);
    proof {
        assert(v@.take(n as int) =~= s@);
        let old_done = done;
        done = done.push(piece);
        assert(done.drop_last() =~= old_done);
    }
    out
}

} // verus!
