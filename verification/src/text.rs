//! Character-level string operations with their meaning stated over `Seq<char>`.
//!
//! These are the operations the command-line parser and the ignore filter
//! perform on strings: trimming white space, splitting on a separator,
//! prefix and suffix tests.
use vstd::prelude::*;

verus! {

/// Whether `c` has the Unicode `White_Space` property, which is what
/// `char::is_whitespace` (and therefore `str::trim`) tests for.
pub open spec fn is_space(c: char) -> bool {
    let u = c as u32;
    ||| u == 0x20
    ||| (0x09 <= u && u <= 0x0d)
    ||| u == 0x85
    ||| u == 0xa0
    ||| u == 0x1680
    ||| (0x2000 <= u && u <= 0x200a)
    ||| u == 0x2028
    ||| u == 0x2029
    ||| u == 0x202f
    ||| u == 0x205f
    ||| u == 0x3000
}

/// `s` without its leading white space.
pub open spec fn trim_start(s: Seq<char>) -> Seq<char>
    decreases s.len(),
{
    if s.len() > 0 && is_space(s[0]) {
        trim_start(s.drop_first())
    } else {
        s
    }
}

/// `s` without its trailing white space.
pub open spec fn trim_end(s: Seq<char>) -> Seq<char>
    decreases s.len(),
{
    if s.len() > 0 && is_space(s.last()) {
        trim_end(s.drop_last())
    } else {
        s
    }
}

/// `s` without leading and trailing white space.
pub open spec fn trim(s: Seq<char>) -> Seq<char> {
    trim_end(trim_start(s))
}

/// `s` without every trailing occurrence of `c`.
pub open spec fn strip_trailing(s: Seq<char>, c: char) -> Seq<char>
    decreases s.len(),
{
    if s.len() > 0 && s.last() == c {
        strip_trailing(s.drop_last(), c)
    } else {
        s
    }
}

/// The pieces of `s` between occurrences of `sep`, in order; an empty `s`
/// gives one empty piece, and two adjacent separators give an empty piece.
pub open spec fn split(s: Seq<char>, sep: char) -> Seq<Seq<char>>
    decreases s.len(),
{
    if s.len() == 0 {
        seq![Seq::<char>::empty()]
    } else {
        let r = split(s.drop_last(), sep);
        if s.last() == sep {
            r.push(Seq::<char>::empty())
        } else {
            r.update(r.len() - 1, r.last().push(s.last()))
        }
    }
}

/// The pieces joined back together with `sep` between them.
pub open spec fn join(pieces: Seq<Seq<char>>, sep: char) -> Seq<char>
    decreases pieces.len(),
{
    if pieces.len() == 0 {
        Seq::<char>::empty()
    } else if pieces.len() == 1 {
        pieces[0]
    } else {
        join(pieces.drop_last(), sep).push(sep) + pieces.last()
    }
}

/// `s` begins with `c`.
pub open spec fn starts_with_char(s: Seq<char>, c: char) -> bool {
    s.len() > 0 && s[0] == c
}

/// `s` ends with `suffix`.
pub open spec fn ends_with(s: Seq<char>, suffix: Seq<char>) -> bool {
    suffix.len() <= s.len() && s.subrange(s.len() - suffix.len(), s.len() as int) == suffix
}

pub proof fn lemma_split_nonempty(s: Seq<char>, sep: char)
    ensures
        split(s, sep).len() >= 1,
    decreases s.len(),
{
    if s.len() > 0 {
        lemma_split_nonempty(s.drop_last(), sep);
    }
}

proof fn trim_start_index(s: Seq<char>) -> (a: int)
    ensures
        0 <= a <= s.len(),
        trim_start(s) == s.skip(a),
        forall|k: int| 0 <= k < a ==> is_space(#[trigger] s[k]),
        a < s.len() ==> !is_space(s[a]),
    decreases s.len(),
{
    if s.len() > 0 && is_space(s[0]) {
        let t = s.drop_first();
        let a1 = trim_start_index(t);
        assert(t.skip(a1) =~= s.skip(a1 + 1));
        assert forall|k: int| 0 <= k < a1 + 1 implies is_space(#[trigger] s[k]) by {
            if k > 0 {
                assert(s[k] == t[k - 1]);
            }
        }
        if a1 + 1 < s.len() {
            assert(s[a1 + 1] == t[a1]);
        }
        a1 + 1
    } else {
        assert(s.skip(0) =~= s);
        0
    }
}

proof fn trim_end_index(s: Seq<char>) -> (b: int)
    ensures
        0 <= b <= s.len(),
        trim_end(s) == s.take(b),
        forall|k: int| b <= k < s.len() ==> is_space(#[trigger] s[k]),
        b > 0 ==> !is_space(s[b - 1]),
    decreases s.len(),
{
    if s.len() > 0 && is_space(s.last()) {
        let t = s.drop_last();
        let b1 = trim_end_index(t);
        assert(t.take(b1) =~= s.take(b1));
        assert forall|k: int| b1 <= k < s.len() implies is_space(#[trigger] s[k]) by {
            if k < s.len() - 1 {
                assert(s[k] == t[k]);
            }
        }
        if b1 > 0 {
            assert(s[b1 - 1] == t[b1 - 1]);
        }
        b1
    } else {
        assert(s.take(s.len() as int) =~= s);
        s.len() as int
    }
}

/// Trimming removes white space from both ends and nothing else: the result
/// is a run of `s` with only white space before and after it, and it
/// neither begins nor ends with white space.
pub proof fn lemma_trim_removes_only_outer_space(s: Seq<char>)
    ensures
        exists|a: int, b: int|
            0 <= a <= b <= s.len() && trim(s) == s.subrange(a, b) && (forall|k: int|
                0 <= k < a ==> is_space(#[trigger] s[k])) && (forall|k: int|
                b <= k < s.len() ==> is_space(#[trigger] s[k])),
        trim(s).len() > 0 ==> !is_space(trim(s)[0]) && !is_space(trim(s).last()),
{
    let a = trim_start_index(s);
    let t = s.skip(a);
    let b = trim_end_index(t);
    assert(t.take(b) =~= s.subrange(a, a + b));
    assert forall|k: int| a + b <= k < s.len() implies is_space(#[trigger] s[k]) by {
        assert(s[k] == t[k - a]);
    }
    if b > 0 {
        assert(trim(s)[0] == s[a]);
        assert(trim(s).last() == t[b - 1]);
    }
}

/// Removing trailing `c`s keeps a prefix of `s` that does not end with
/// `c`, and everything removed is `c`.
pub proof fn lemma_strip_trailing_rules(s: Seq<char>, c: char)
    ensures
        exists|b: int|
            0 <= b <= s.len() && strip_trailing(s, c) == s.take(b) && (forall|k: int|
                b <= k < s.len() ==> #[trigger] s[k] == c),
        strip_trailing(s, c).len() > 0 ==> strip_trailing(s, c).last() != c,
    decreases s.len(),
{
    if s.len() > 0 && s.last() == c {
        let t = s.drop_last();
        lemma_strip_trailing_rules(t, c);
        let b = choose|b: int|
            0 <= b <= t.len() && strip_trailing(t, c) == t.take(b) && (forall|k: int|
                b <= k < t.len() ==> #[trigger] t[k] == c);
        assert(t.take(b) =~= s.take(b));
        assert forall|k: int| b <= k < s.len() implies #[trigger] s[k] == c by {
            if k < s.len() - 1 {
                assert(s[k] == t[k]);
            }
        }
    } else {
        assert(s.take(s.len() as int) =~= s);
    }
}

/// Splitting on `sep` and joining with `sep` gives back the string.
pub proof fn lemma_join_split(s: Seq<char>, sep: char)
    ensures
        join(split(s, sep), sep) == s,
    decreases s.len(),
{
    if s.len() > 0 {
        let p = s.drop_last();
        lemma_join_split(p, sep);
        lemma_split_nonempty(p, sep);
        let r = split(p, sep);
        if s.last() == sep {
            assert(r.push(Seq::<char>::empty()).drop_last() =~= r);
            assert(join(r, sep).push(sep) + Seq::<char>::empty() =~= s);
        } else {
            let r2 = r.update(r.len() - 1, r.last().push(s.last()));
            assert(r2.drop_last() =~= r.drop_last());
            if r.len() == 1 {
                assert(s =~= r[0].push(s.last()));
            } else {
                assert(join(r, sep) == join(r.drop_last(), sep).push(sep) + r.last());
                assert(join(r2, sep) =~= join(r, sep).push(s.last()));
            }
        }
    } else {
        assert(split(s, sep) =~= seq![Seq::<char>::empty()]);
    }
}

/// No piece of a split contains the separator.
pub proof fn lemma_split_pieces_lack_sep(s: Seq<char>, sep: char)
    ensures
        forall|i: int| 0 <= i < split(s, sep).len() ==> !(#[trigger] split(s, sep)[i]).contains(sep),
    decreases s.len(),
{
    if s.len() > 0 {
        lemma_split_pieces_lack_sep(s.drop_last(), sep);
        lemma_split_nonempty(s.drop_last(), sep);
        let r = split(s.drop_last(), sep);
        if s.last() != sep {
            assert forall|i: int| 0 <= i < split(s, sep).len() implies !(#[trigger] split(
                s,
                sep,
            )[i]).contains(sep) by {
                if i == r.len() - 1 {
                    let piece = r.last().push(s.last());
                    if piece.contains(sep) {
                        let k = choose|k: int| 0 <= k < piece.len() && piece[k] == sep;
                        if k < r.last().len() {
                            assert(r.last()[k] == sep);
                        }
                    }
                }
            }
        } else {
            assert forall|i: int| 0 <= i < split(s, sep).len() implies !(#[trigger] split(
                s,
                sep,
            )[i]).contains(sep) by {
                if i < r.len() {
                    assert(split(s, sep)[i] == r[i]);
                }
            }
        }
    } else {
        assert forall|i: int| 0 <= i < split(s, sep).len() implies !(#[trigger] split(
            s,
            sep,
        )[i]).contains(sep) by {
            assert(split(s, sep)[i] =~= Seq::<char>::empty());
        }
    }
}

/// Copies of the strings of `v` from index `from` on.
pub fn copy_strings(v: &[String], from: usize) -> (r: Vec<String>)
    requires
        from <= v@.len(),
    ensures
        r.deep_view() == v.deep_view().subrange(from as int, v@.len() as int),
{
    let mut out: Vec<String> = Vec::new();
    let mut k: usize = from;
    while k < v.len()
        invariant
            from <= k <= v@.len(),
            out.deep_view() == v.deep_view().subrange(from as int, k as int),
        decreases v@.len() - k,
    {
        let ghost prev = out.deep_view();
        assert(v.deep_view()[k as int] == v@[k as int]@);
        assert(v.deep_view().subrange(from as int, k + 1) =~= prev.push(v@[k as int]@));
        out.push(v[k].clone());
        assert(out.deep_view() =~= prev.push(v@[k as int]@));
        k = k + 1;
    }
    out
}

/// Whether `c` is white space in the sense of `char::is_whitespace`.
pub fn char_is_space(c: char) -> (b: bool)
    ensures
        b == is_space(c),
{
    let u = c as u32;
    u == 0x20 || (0x09 <= u && u <= 0x0d) || u == 0x85 || u == 0xa0 || u == 0x1680 || (0x2000
        <= u && u <= 0x200a) || u == 0x2028 || u == 0x2029 || u == 0x202f || u == 0x205f || u
        == 0x3000
}

/// The characters of `s`, in order.
pub fn chars_of(s: &str) -> (v: Vec<char>)
    ensures
        v@ == s@,
{
    let n = s.unicode_len();
    let mut v: Vec<char> = Vec::new();
    let mut i: usize = 0;
    while i < n
        invariant
            n == s@.len(),
            i <= n,
            v@ == s@.take(i as int),
        decreases n - i,
    {
        let c = s.get_char(i);
        v.push(c);
        i = i + 1;
        assert(v@ =~= s@.take(i as int));
    }
    assert(s@.take(n as int) =~= s@);
    v
}

/// Whether two strings hold the same characters.
pub fn str_eq(a: &str, b: &str) -> (r: bool)
    ensures
        r == (a@ == b@),
{
    let x = String::from_str(a);
    let y = String::from_str(b);
    x == y
}

/// Whether `s` begins with the character `c`.
pub fn str_starts_with_char(s: &str, c: char) -> (r: bool)
    ensures
        r == starts_with_char(s@, c),
{
    let n = s.unicode_len();
    n > 0 && s.get_char(0) == c
}

/// Whether `s` ends with `suffix`.
pub fn str_ends_with(s: &str, suffix: &str) -> (r: bool)
    ensures
        r == ends_with(s@, suffix@),
{
    let a = chars_of(s);
    let b = chars_of(suffix);
    let n = a.len();
    let m = b.len();
    if m > n {
        return false;
    }
    let off = n - m;
    let mut i: usize = 0;
    while i < m
        invariant
            a@ == s@,
            b@ == suffix@,
            n == a.len(),
            m == b.len(),
            m <= n,
            off == n - m,
            i <= m,
            forall|k: int| 0 <= k < i ==> a@[off + k] == b@[k],
        decreases m - i,
    {
        if a[off + i] != b[i] {
            assert(s@.subrange(n - m, n as int)[i as int] != suffix@[i as int]);
            return false;
        }
        i = i + 1;
    }
    assert(s@.subrange(n - m, n as int) =~= suffix@);
    true
}

/// `s` without leading and trailing white space, as `str::trim` gives it.
pub fn trim_str(s: &str) -> (r: &str)
    ensures
        r@ == trim(s@),
{
    let cs = chars_of(s);
    let n = cs.len();
    let mut a: usize = 0;
    assert(s@.skip(0) =~= s@);
    while a < n && char_is_space(cs[a])
        invariant
            cs@ == s@,
            n == cs.len(),
            a <= n,
            trim_start(s@) == trim_start(s@.skip(a as int)),
        decreases n - a,
    {
        assert(s@.skip(a as int).drop_first() =~= s@.skip(a + 1));
        a = a + 1;
    }
    let ghost t = s@.skip(a as int);
    assert(trim_start(s@) == t) by {
        if a == n {
            assert(t.len() == 0);
        }
    }
    let mut b: usize = n;
    while b > a && char_is_space(cs[b - 1])
        invariant
            cs@ == s@,
            n == cs.len(),
            a <= b <= n,
            t == s@.skip(a as int),
            trim_end(t) == trim_end(s@.subrange(a as int, b as int)),
        decreases b - a,
    {
        assert(s@.subrange(a as int, b as int).drop_last() =~= s@.subrange(a as int, b - 1));
        b = b - 1;
    }
    assert(s@.skip(a as int) =~= s@.subrange(a as int, n as int));
    s.substring_char(a, b)
}

/// `s` without every trailing `c`, as `str::trim_end_matches` with a
/// character gives it.
pub fn strip_trailing_str(s: &str, c: char) -> (r: &str)
    ensures
        r@ == strip_trailing(s@, c),
{
    let cs = chars_of(s);
    let n = cs.len();
    let mut b: usize = n;
    assert(s@.take(n as int) =~= s@);
    while b > 0 && cs[b - 1] == c
        invariant
            cs@ == s@,
            n == cs.len(),
            b <= n,
            strip_trailing(s@, c) == strip_trailing(s@.take(b as int), c),
        decreases b,
    {
        assert(s@.take(b as int).drop_last() =~= s@.take(b - 1));
        b = b - 1;
    }
    assert(s@.take(b as int) =~= s@.subrange(0, b as int));
    s.substring_char(0, b)
}

/// The pieces of `s` between occurrences of `sep`, as `str::split` with a
/// character gives them.
pub fn split_str(s: &str, sep: char) -> (r: Vec<String>)
    ensures
        r.deep_view() == split(s@, sep),
{
    let cs = chars_of(s);
    let n = cs.len();
    let mut pieces: Vec<String> = Vec::new();
    let mut start: usize = 0;
    let mut i: usize = 0;
    assert(s@.take(0) =~= Seq::<char>::empty());
    assert(split(s@.take(0), sep) =~= pieces.deep_view().push(s@.subrange(0, 0)));
    while i < n
        invariant
            cs@ == s@,
            n == cs.len(),
            start <= i <= n,
            split(s@.take(i as int), sep) == pieces.deep_view().push(
                s@.subrange(start as int, i as int),
            ),
        decreases n - i,
    {
        let ghost prev = pieces.deep_view();
        assert(s@.take(i + 1).drop_last() =~= s@.take(i as int));
        assert(s@.take(i + 1).last() == s@[i as int]);
        if cs[i] == sep {
            let ghost r = split(s@.take(i as int), sep);
            assert(split(s@.take(i + 1), sep) == r.push(Seq::<char>::empty()));
            let piece = String::from_str(s.substring_char(start, i));
            pieces.push(piece);
            assert(pieces.deep_view() =~= prev.push(s@.subrange(start as int, i as int)));
            start = i + 1;
            assert(s@.subrange(start as int, i + 1) =~= Seq::<char>::empty());
            assert(split(s@.take(i + 1), sep) =~= pieces.deep_view().push(
                s@.subrange(start as int, i + 1),
            ));
        } else {
            let ghost r = split(s@.take(i as int), sep);
            assert(split(s@.take(i + 1), sep) == r.update(r.len() - 1, r.last().push(s@[i as int])));
            assert(s@.subrange(start as int, i + 1) =~= s@.subrange(start as int, i as int).push(
                s@[i as int],
            ));
            assert(split(s@.take(i + 1), sep) =~= pieces.deep_view().push(
                s@.subrange(start as int, i + 1),
            ));
        }
        i = i + 1;
    }
    assert(s@.take(n as int) =~= s@);
    let last = String::from_str(s.substring_char(start, n));
    let ghost prev = pieces.deep_view();
    pieces.push(last);
    assert(pieces.deep_view() =~= prev.push(s@.subrange(start as int, n as int)));
    pieces
}

} // verus!
