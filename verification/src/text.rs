//! Character classes, trimming, comparison and line splitting over the
//! `Seq<char>` view of `&str` / `String`.

use vstd::prelude::*;
use vstd::string::*;

verus! {

/// Whitespace characters stripped from the ends of raw tokens.
pub open spec fn is_space_char(c: char) -> bool {
    c == ' ' || c == '\t' || c == '\n' || c == '\r'
}

/// Decimal digits, the characters that open a version suffix.
pub open spec fn is_digit_char(c: char) -> bool {
    ('0' as u32) <= (c as u32) && (c as u32) <= ('9' as u32)
}

pub fn space_char(c: char) -> (r: bool)
    ensures
        r == is_space_char(c),
{
    c == ' ' || c == '\t' || c == '\n' || c == '\r'
}

pub fn digit_char(c: char) -> (r: bool)
    ensures
        r == is_digit_char(c),
{
    ('0' as u32) <= (c as u32) && (c as u32) <= ('9' as u32)
}

/// The sequence with leading whitespace removed.
pub open spec fn trim_front_spec(s: Seq<char>) -> Seq<char>
    decreases s.len(),
{
    if s.len() > 0 && is_space_char(s[0]) {
        trim_front_spec(s.drop_first())
    } else {
        s
    }
}

/// The sequence with trailing whitespace removed.
pub open spec fn trim_back_spec(s: Seq<char>) -> Seq<char>
    decreases s.len(),
{
    if s.len() > 0 && is_space_char(s.last()) {
        trim_back_spec(s.drop_last())
    } else {
        s
    }
}

/// The sequence with surrounding whitespace removed.
pub open spec fn trim_spec(s: Seq<char>) -> Seq<char> {
    trim_back_spec(trim_front_spec(s))
}

proof fn lemma_trim_front_skip(s: Seq<char>, i: int)
    requires
        0 <= i <= s.len(),
        forall|j: int| 0 <= j < i ==> is_space_char(s[j]),
    ensures
        trim_front_spec(s) == trim_front_spec(s.skip(i)),
    decreases i,
{
    if i > 0 {
        assert(s.skip(0) =~= s);
        lemma_trim_front_skip(s, i - 1);
        let t = s.skip(i - 1);
        assert(t[0] == s[i - 1]);
        assert(t.drop_first() =~= s.skip(i));
    } else {
        assert(s.skip(0) =~= s);
    }
}

proof fn lemma_trim_back_take(s: Seq<char>, i: int)
    requires
        0 <= i <= s.len(),
        forall|j: int| i <= j < s.len() ==> is_space_char(s[j]),
    ensures
        trim_back_spec(s) == trim_back_spec(s.take(i)),
    decreases s.len() - i,
{
    if i < s.len() {
        lemma_trim_back_take(s, i + 1);
        let t = s.take(i + 1);
        assert(t.last() == s[i]);
        assert(t.drop_last() =~= s.take(i));
        assert(s.take(s.len() as int) =~= s);
    } else {
        assert(s.take(s.len() as int) =~= s);
    }
}

/// `trim_spec` of a sequence with clean ends is the sequence itself.
pub proof fn lemma_trim_noop(s: Seq<char>)
    requires
        s.len() > 0,
        !is_space_char(s[0]),
        !is_space_char(s.last()),
    ensures
        trim_spec(s) == s,
{
}

/// Removes surrounding whitespace, the verified counterpart of `str::trim`
/// for the whitespace characters of `is_space_char`.
pub fn trim_str<'a>(s: &'a str) -> (r: &'a str)
    ensures
        r@ == trim_spec(s@),
{
    let n = s.unicode_len();
    let mut start: usize = 0;
    while start < n && space_char(s.get_char(start))
        invariant
            0 <= start <= n,
            n == s@.len(),
            forall|j: int| 0 <= j < start ==> is_space_char(s@[j]),
        decreases n - start,
    {
        start = start + 1;
    }
    proof {
        lemma_trim_front_skip(s@, start as int);
    }
    let ghost t = s@.skip(start as int);
    assert(trim_front_spec(s@) == t);
    let mut end: usize = n;
    while end > start && space_char(s.get_char(end - 1))
        invariant
            start <= end <= n,
            n == s@.len(),
            t == s@.skip(start as int),
            forall|j: int| end <= j < n ==> is_space_char(s@[j]),
        decreases end,
    {
        end = end - 1;
    }
    proof {
        assert(forall|j: int| end - start <= j < t.len() ==> is_space_char(t[j]));
        lemma_trim_back_take(t, end - start);
        assert(t.take(end - start) =~= s@.subrange(start as int, end as int));
    }
    s.substring_char(start, end)
}

/// Character equality up to ASCII case.
pub open spec fn eq_char_ci(a: char, b: char) -> bool {
    a == b || (is_upper_char(a) && (a as u32) + 32 == (b as u32)) || (is_upper_char(b) && (
    b as u32) + 32 == (a as u32))
}

pub open spec fn is_upper_char(c: char) -> bool {
    ('A' as u32) <= (c as u32) && (c as u32) <= ('Z' as u32)
}

pub fn char_ci(a: char, b: char) -> (r: bool)
    ensures
        r == eq_char_ci(a, b),
{
    a == b || (('A' as u32) <= (a as u32) && (a as u32) <= ('Z' as u32) && (a as u32) + 32 == (
    b as u32)) || (('A' as u32) <= (b as u32) && (b as u32) <= ('Z' as u32) && (b as u32) + 32 == (
    a as u32))
}

/// Sequence equality up to ASCII case.
pub open spec fn seq_eq_ci(a: Seq<char>, b: Seq<char>) -> bool {
    a.len() == b.len() && forall|i: int| 0 <= i < a.len() ==> eq_char_ci(a[i], b[i])
}

/// `p` is a prefix of `s` up to ASCII case.
pub open spec fn starts_with_ci(s: Seq<char>, p: Seq<char>) -> bool {
    p.len() <= s.len() && seq_eq_ci(s.take(p.len() as int), p)
}

/// `p` is a suffix of `s` up to ASCII case.
pub open spec fn ends_with_ci(s: Seq<char>, p: Seq<char>) -> bool {
    p.len() <= s.len() && seq_eq_ci(s.skip(s.len() - p.len()), p)
}

/// `p` occurs in `s` at position `i` up to ASCII case.
pub open spec fn matches_at_ci(s: Seq<char>, p: Seq<char>, i: int) -> bool {
    0 <= i && i + p.len() <= s.len() && seq_eq_ci(s.subrange(i, i + p.len()), p)
}

/// `p` occurs somewhere in `s` up to ASCII case.
pub open spec fn contains_ci(s: Seq<char>, p: Seq<char>) -> bool {
    exists|i: int| matches_at_ci(s, p, i)
}

/// Case-insensitive string equality.
pub fn str_eq_ci(a: &str, b: &str) -> (r: bool)
    ensures
        r == seq_eq_ci(a@, b@),
{
    let na = a.unicode_len();
    let nb = b.unicode_len();
    if na != nb {
        return false;
    }
    let mut i: usize = 0;
    while i < na
        invariant
            0 <= i <= na,
            na == a@.len(),
            na == b@.len(),
            forall|j: int| 0 <= j < i ==> eq_char_ci(a@[j], b@[j]),
        decreases na - i,
    {
        if !char_ci(a.get_char(i), b.get_char(i)) {
            return false;
        }
        i = i + 1;
    }
    true
}

/// Exact string equality.
pub fn str_eq(a: &str, b: &str) -> (r: bool)
    ensures
        r == (a@ == b@),
{
    let na = a.unicode_len();
    let nb = b.unicode_len();
    if na != nb {
        return false;
    }
    let mut i: usize = 0;
    while i < na
        invariant
            0 <= i <= na,
            na == a@.len(),
            na == b@.len(),
            forall|j: int| 0 <= j < i ==> a@[j] == b@[j],
        decreases na - i,
    {
        if a.get_char(i) != b.get_char(i) {
            assert(a@ != b@);
            return false;
        }
        i = i + 1;
    }
    assert(a@ =~= b@);
    true
}

/// Case-insensitive prefix test.
pub fn str_starts_with_ci(s: &str, p: &str) -> (r: bool)
    ensures
        r == starts_with_ci(s@, p@),
{
    let ns = s.unicode_len();
    let np = p.unicode_len();
    if np > ns {
        return false;
    }
    let mut i: usize = 0;
    while i < np
        invariant
            0 <= i <= np,
            np <= ns,
            ns == s@.len(),
            np == p@.len(),
            forall|j: int| 0 <= j < i ==> eq_char_ci(s@[j], p@[j]),
        decreases np - i,
    {
        if !char_ci(s.get_char(i), p.get_char(i)) {
            assert(s@.take(np as int)[i as int] == s@[i as int]);
            return false;
        }
        i = i + 1;
    }
    assert(forall|j: int| 0 <= j < np ==> s@.take(np as int)[j] == s@[j]);
    true
}

/// Exact prefix test.
pub fn str_starts_with(s: &str, p: &str) -> (r: bool)
    ensures
        r == (p@.len() <= s@.len() && s@.take(p@.len() as int) == p@),
{
    let ns = s.unicode_len();
    let np = p.unicode_len();
    if np > ns {
        return false;
    }
    let mut i: usize = 0;
    while i < np
        invariant
            0 <= i <= np,
            np <= ns,
            ns == s@.len(),
            np == p@.len(),
            forall|j: int| 0 <= j < i ==> s@[j] == p@[j],
        decreases np - i,
    {
        if s.get_char(i) != p.get_char(i) {
            assert(s@.take(np as int)[i as int] == s@[i as int]);
            return false;
        }
        i = i + 1;
    }
    assert(s@.take(np as int) =~= p@);
    true
}

/// Case-insensitive suffix test.
pub fn str_ends_with_ci(s: &str, p: &str) -> (r: bool)
    ensures
        r == ends_with_ci(s@, p@),
{
    let ns = s.unicode_len();
    let np = p.unicode_len();
    if np > ns {
        return false;
    }
    let off = ns - np;
    let mut i: usize = 0;
    while i < np
        invariant
            0 <= i <= np,
            np <= ns,
            ns == s@.len(),
            np == p@.len(),
            off == ns - np,
            forall|j: int| 0 <= j < i ==> eq_char_ci(s@[off + j], p@[j]),
        decreases np - i,
    {
        if !char_ci(s.get_char(off + i), p.get_char(i)) {
            assert(s@.skip(off as int)[i as int] == s@[off + i]);
            return false;
        }
        i = i + 1;
    }
    assert(forall|j: int| 0 <= j < np ==> s@.skip(off as int)[j] == s@[off + j]);
    true
}

/// Case-insensitive substring search.
pub fn str_contains_ci(s: &str, p: &str) -> (r: bool)
    ensures
        r == contains_ci(s@, p@),
{
    let ns = s.unicode_len();
    let np = p.unicode_len();
    if np > ns {
        assert(forall|i: int| !matches_at_ci(s@, p@, i));
        return false;
    }
    let mut start: usize = 0;
    while start <= ns - np
        invariant
            0 <= start <= ns - np + 1,
            np <= ns,
            ns == s@.len(),
            np == p@.len(),
            forall|i: int| 0 <= i < start ==> !matches_at_ci(s@, p@, i),
        decreases ns - np + 1 - start,
    {
        let mut i: usize = 0;
        let mut hit = true;
        while i < np
            invariant
                0 <= i <= np,
                0 <= start <= ns - np,
                ns == s@.len(),
                np == p@.len(),
                hit ==> forall|j: int| 0 <= j < i ==> eq_char_ci(s@[start + j], p@[j]),
            !hit ==> exists|j: int| 0 <= j < np && !eq_char_ci(s@[start + j], p@[j]),
            decreases np - i,
        {
            if !char_ci(s.get_char(start + i), p.get_char(i)) {
                assert(!eq_char_ci(s@[start + i], p@[i as int]));
                hit = false;
                i = np;
            } else {
                i = i + 1;
            }
        }
        proof {
            assert(forall|j: int| 0 <= j < np ==> #[trigger] s@.subrange(start as int, start + np)[
                j] == s@[start + j]);
        }
        if hit {
            assert(matches_at_ci(s@, p@, start as int));
            return true;
        }
        proof {
            if matches_at_ci(s@, p@, start as int) {
                assert(false);
            }
        }
        start = start + 1;
    }
    assert(forall|i: int| matches_at_ci(s@, p@, i) ==> 0 <= i < start);
    false
}

/// Strict lexicographic order on character sequences, by code point.
pub open spec fn lex_lt(a: Seq<char>, b: Seq<char>) -> bool
    decreases a.len(),
{
    if b.len() == 0 {
        false
    } else if a.len() == 0 {
        true
    } else if (a[0] as u32) < (b[0] as u32) {
        true
    } else if (a[0] as u32) == (b[0] as u32) {
        lex_lt(a.drop_first(), b.drop_first())
    } else {
        false
    }
}

/// Characters with the same code point are the same character.
pub proof fn lemma_char_injective(a: char, b: char)
    requires
        (a as u32) == (b as u32),
    ensures
        a == b,
{
    vstd::utf8::char_u32_cast(a, a as u32);
    vstd::utf8::char_u32_cast(b, b as u32);
}

/// Exactly one of `lex_lt(a, b)`, `lex_lt(b, a)` and `a == b` holds.
pub proof fn lemma_lex_trichotomy(a: Seq<char>, b: Seq<char>)
    ensures
        lex_lt(a, b) || lex_lt(b, a) || a == b,
        lex_lt(a, b) ==> !lex_lt(b, a) && a != b,
    decreases a.len(),
{
    if a.len() > 0 && b.len() > 0 {
        if (a[0] as u32) == (b[0] as u32) {
            lemma_char_injective(a[0], b[0]);
            lemma_lex_trichotomy(a.drop_first(), b.drop_first());
            if a.drop_first() == b.drop_first() && a[0] == b[0] {
                assert forall|i: int| 0 <= i < a.len() implies a[i] == b[i] by {
                    if i > 0 {
                        assert(a[i] == a.drop_first()[i - 1]);
                        assert(b[i] == b.drop_first()[i - 1]);
                    }
                }
                assert(a =~= b);
            }
        }
    } else if a.len() == 0 && b.len() == 0 {
        assert(a =~= b);
    }
}

/// Lexicographic order is transitive.
pub proof fn lemma_lex_trans(a: Seq<char>, b: Seq<char>, c: Seq<char>)
    requires
        lex_lt(a, b),
        lex_lt(b, c),
    ensures
        lex_lt(a, c),
    decreases a.len(),
{
    if a.len() > 0 && b.len() > 0 && c.len() > 0 {
        if (a[0] as u32) == (b[0] as u32) && (b[0] as u32) == (c[0] as u32) {
            lemma_lex_trans(a.drop_first(), b.drop_first(), c.drop_first());
        }
    }
}

proof fn lemma_lex_skip(a: Seq<char>, b: Seq<char>, i: int)
    requires
        0 <= i <= a.len(),
        i <= b.len(),
        forall|j: int| 0 <= j < i ==> a[j] == b[j],
    ensures
        lex_lt(a, b) == lex_lt(a.skip(i), b.skip(i)),
    decreases i,
{
    if i == 0 {
        assert(a.skip(0) =~= a);
        assert(b.skip(0) =~= b);
    } else {
        assert(a.len() > 0 && b.len() > 0);
        assert((a[0] as u32) == (b[0] as u32));
        assert(a.drop_first().skip(i - 1) =~= a.skip(i));
        assert(b.drop_first().skip(i - 1) =~= b.skip(i));
        lemma_lex_skip(a.drop_first(), b.drop_first(), i - 1);
    }
}

/// Lexicographic comparison of two strings.
pub fn str_lt(a: &str, b: &str) -> (r: bool)
    ensures
        r == lex_lt(a@, b@),
{
    let na = a.unicode_len();
    let nb = b.unicode_len();
    let min = if na < nb {
        na
    } else {
        nb
    };
    let mut i: usize = 0;
    while i < min
        invariant
            0 <= i <= min,
            na == a@.len(),
            nb == b@.len(),
            min == if na < nb {
                na
            } else {
                nb
            },
            forall|j: int| 0 <= j < i ==> a@[j] == b@[j],
        decreases min - i,
    {
        let ca = a.get_char(i);
        let cb = b.get_char(i);
        if (ca as u32) < (cb as u32) {
            proof {
                lemma_lex_skip(a@, b@, i as int);
            }
            return true;
        }
        if (ca as u32) > (cb as u32) {
            proof {
                lemma_lex_skip(a@, b@, i as int);
            }
            return false;
        }
        proof {
            lemma_char_injective(a@[i as int], b@[i as int]);
        }
        i = i + 1;
    }
    proof {
        lemma_lex_skip(a@, b@, min as int);
    }
    na < nb
}

/// A strictly increasing (hence duplicate-free) sequence of names.
pub open spec fn sorted_unique(s: Seq<Seq<char>>) -> bool {
    forall|i: int, j: int| 0 <= i < j < s.len() ==> lex_lt(s[i], s[j])
}

/// Inserts `s` into a sorted duplicate-free vector, keeping it sorted and
/// duplicate-free; inserting an element already present changes nothing.
pub fn insert_sorted(v: &mut Vec<String>, s: String)
    requires
        sorted_unique(old(v).deep_view()),
    ensures
        sorted_unique(final(v).deep_view()),
        forall|x: Seq<char>|
            final(v).deep_view().contains(x) <==> (old(v).deep_view().contains(x) || x == s@),
{
    let ghost dv = v.deep_view();
    let n = v.len();
    let mut idx: usize = 0;
    while idx < n && str_lt(v[idx].as_str(), s.as_str())
        invariant
            0 <= idx <= n,
            n == v.len(),
            dv == v.deep_view(),
            sorted_unique(dv),
            forall|j: int| 0 <= j < idx ==> lex_lt(dv[j], s@),
        decreases n - idx,
    {
        assert(dv[idx as int] == v.deep_view()[idx as int]);
        idx = idx + 1;
    }
    if idx < n && str_eq(v[idx].as_str(), s.as_str()) {
        proof {
            assert(dv.contains(dv[idx as int]));
            assert(forall|x: Seq<char>| dv.contains(x) ==> v.deep_view().contains(x));
        }
        return ;
    }
    proof {
        if idx < n {
            lemma_lex_trichotomy(dv[idx as int], s@);
        }
    }
    assert(idx < n ==> lex_lt(s@, dv[idx as int]));
    v.insert(idx, s);
    proof {
        let nv = v.deep_view();
        assert(nv =~= dv.insert(idx as int, s@));
        assert forall|i: int, j: int| 0 <= i < j < nv.len() implies lex_lt(nv[i], nv[j]) by {
            if j < idx {
                assert(nv[i] == dv[i] && nv[j] == dv[j]);
            } else if i > idx {
                assert(nv[i] == dv[i - 1] && nv[j] == dv[j - 1]);
            } else if i < idx && j == idx {
                assert(nv[i] == dv[i] && nv[j] == s@);
            } else if i == idx && j > idx {
                assert(nv[i] == s@ && nv[j] == dv[j - 1]);
                assert(lex_lt(s@, dv[idx as int]));
                if j - 1 > idx {
                    lemma_lex_trans(s@, dv[idx as int], dv[j - 1]);
                }
            } else if i < idx && j > idx {
                assert(nv[i] == dv[i] && nv[j] == dv[j - 1]);
            }
        }
        assert forall|x: Seq<char>| nv.contains(x) implies (dv.contains(x) || x == s@) by {
            let k = choose|k: int| 0 <= k < nv.len() && nv[k] == x;
            if k < idx {
                assert(dv[k] == x);
            } else if k > idx {
                assert(dv[k - 1] == x);
            }
        }
        assert forall|x: Seq<char>| dv.contains(x) implies nv.contains(x) by {
            let k = choose|k: int| 0 <= k < dv.len() && dv[k] == x;
            if k < idx {
                assert(nv[k] == x);
            } else {
                assert(nv[k + 1] == x);
            }
        }
        assert(nv.contains(s@)) by {
            assert(nv[idx as int] == s@);
        }
    }
}

/// Removes leading whitespace only.
pub fn trim_front_str<'a>(s: &'a str) -> (r: &'a str)
    ensures
        r@ == trim_front_spec(s@),
{
    let n = s.unicode_len();
    let mut start: usize = 0;
    while start < n && space_char(s.get_char(start))
        invariant
            0 <= start <= n,
            n == s@.len(),
            forall|j: int| 0 <= j < start ==> is_space_char(s@[j]),
        decreases n - start,
    {
        start = start + 1;
    }
    proof {
        lemma_trim_front_skip(s@, start as int);
        assert(s@.skip(start as int) =~= s@.subrange(start as int, n as int));
    }
    s.substring_char(start, n)
}

/// `p` is a suffix of `s` and shorter than `s`.
pub open spec fn strict_suffix(s: Seq<char>, p: Seq<char>) -> bool {
    p.len() < s.len() && s.skip(s.len() - p.len()) == p
}

/// Exact strict suffix test.
pub fn str_strict_suffix(s: &str, p: &str) -> (r: bool)
    ensures
        r == strict_suffix(s@, p@),
{
    let ns = s.unicode_len();
    let np = p.unicode_len();
    if np >= ns {
        return false;
    }
    let off = ns - np;
    let mut i: usize = 0;
    while i < np
        invariant
            0 <= i <= np,
            np < ns,
            ns == s@.len(),
            np == p@.len(),
            off == ns - np,
            forall|j: int| 0 <= j < i ==> s@[off + j] == p@[j],
        decreases np - i,
    {
        if s.get_char(off + i) != p.get_char(i) {
            assert(s@.skip(off as int)[i as int] == s@[off + i]);
            return false;
        }
        i = i + 1;
    }
    assert(s@.skip(off as int) =~= p@);
    true
}

/// The lines of `s`, split on `'\n'`; a final line without a terminating
/// newline counts, a terminating newline adds no empty line.
pub open spec fn split_lines_spec(s: Seq<char>) -> Seq<Seq<char>>
    decreases s.len(),
{
    if s.len() == 0 {
        Seq::empty()
    } else if s[0] == '\n' {
        seq![Seq::<char>::empty()] + split_lines_spec(s.drop_first())
    } else {
        prepend_first_line(s[0], split_lines_spec(s.drop_first()))
    }
}

pub open spec fn prepend_first_line(c: char, lines: Seq<Seq<char>>) -> Seq<Seq<char>> {
    if lines.len() == 0 {
        seq![seq![c]]
    } else {
        seq![seq![c] + lines[0]] + lines.drop_first()
    }
}

/// Splitting text that starts with a newline-free line followed by a newline
/// yields that line and then the split of the remainder.
pub proof fn lemma_split_first_line(line: Seq<char>, rest: Seq<char>)
    requires
        forall|j: int| 0 <= j < line.len() ==> line[j] != '\n',
    ensures
        split_lines_spec(line + seq!['\n'] + rest) == seq![line] + split_lines_spec(rest),
    decreases line.len(),
{
    let s = line + seq!['\n'] + rest;
    if line.len() == 0 {
        assert(s =~= seq!['\n'] + rest);
        assert(s[0] == '\n');
        assert(s.drop_first() =~= rest);
        assert(line =~= Seq::<char>::empty());
        assert(seq![line] =~= seq![Seq::<char>::empty()]);
    } else {
        assert(s[0] == line[0]);
        assert(s[0] != '\n');
        assert(s.drop_first() =~= line.drop_first() + seq!['\n'] + rest);
        lemma_split_first_line(line.drop_first(), rest);
        let tail_lines = seq![line.drop_first()] + split_lines_spec(rest);
        assert(split_lines_spec(s.drop_first()) == tail_lines);
        assert(tail_lines[0] == line.drop_first());
        assert(seq![s[0]] + tail_lines[0] =~= line);
        assert(tail_lines.drop_first() =~= split_lines_spec(rest));
        assert(prepend_first_line(s[0], tail_lines) =~= seq![line] + split_lines_spec(rest));
    }
}

/// Splitting a nonempty newline-free text yields that single line.
pub proof fn lemma_split_no_newline(line: Seq<char>)
    requires
        line.len() > 0,
        forall|j: int| 0 <= j < line.len() ==> line[j] != '\n',
    ensures
        split_lines_spec(line) == seq![line],
    decreases line.len(),
{
    if line.len() == 1 {
        assert(split_lines_spec(line.drop_first()) == Seq::<Seq<char>>::empty());
        assert(prepend_first_line(line[0], Seq::empty()) =~= seq![line]) by {
            assert(seq![line[0]] =~= line);
        }
    } else {
        lemma_split_no_newline(line.drop_first());
        let tail_lines = seq![line.drop_first()];
        assert(seq![line[0]] + tail_lines[0] =~= line);
        assert(prepend_first_line(line[0], tail_lines) =~= seq![line]);
    }
}

/// Splits a string into its lines.
pub fn split_lines(s: &str) -> (r: Vec<String>)
    ensures
        r.deep_view() == split_lines_spec(s@),
{
    let n = s.unicode_len();
    let mut out: Vec<String> = Vec::new();
    let mut pos: usize = 0;
    proof {
        assert(out.deep_view() =~= Seq::<Seq<char>>::empty());
        assert(s@.skip(0) =~= s@);
        assert(Seq::<Seq<char>>::empty() + split_lines_spec(s@) =~= split_lines_spec(s@));
    }
    while pos < n
        invariant
            0 <= pos <= n,
            n == s@.len(),
            split_lines_spec(s@) == out.deep_view() + split_lines_spec(s@.skip(pos as int)),
        decreases n - pos,
    {
        let mut k: usize = pos;
        while k < n && s.get_char(k) != '\n'
            invariant
                pos <= k <= n,
                n == s@.len(),
                forall|j: int| pos <= j < k ==> s@[j] != '\n',
            decreases n - k,
        {
            k = k + 1;
        }
        let line = String::from_str(s.substring_char(pos, k));
        proof {
            let rem = s@.skip(pos as int);
            let lineseq = s@.subrange(pos as int, k as int);
            assert(forall|j: int| 0 <= j < lineseq.len() ==> lineseq[j] == s@[pos + j]);
            if k < n {
                assert(s@[k as int] == '\n');
                assert(rem =~= lineseq + seq!['\n'] + s@.skip(k + 1));
                lemma_split_first_line(lineseq, s@.skip(k + 1));
            } else {
                assert(rem =~= lineseq);
                lemma_split_no_newline(lineseq);
            }
        }
        let ghost old_out = out.deep_view();
        out.push(line);
        proof {
            assert(out.deep_view() =~= old_out.push(line@));
            if k < n {
                assert(old_out.push(line@) + split_lines_spec(s@.skip(k + 1)) =~= old_out + (seq![
                    line@] + split_lines_spec(s@.skip(k + 1))));
            } else {
                assert(s@.skip(n as int) =~= Seq::<char>::empty());
                assert(old_out.push(line@) + split_lines_spec(s@.skip(n as int)) =~= old_out + seq![
                    line@]);
            }
        }
        if k < n {
            pos = k + 1;
        } else {
            pos = n;
        }
    }
    proof {
        assert(s@.skip(n as int) =~= Seq::<char>::empty());
        assert(out.deep_view() + split_lines_spec(s@.skip(n as int)) =~= out.deep_view());
    }
    out
}

} // verus!
