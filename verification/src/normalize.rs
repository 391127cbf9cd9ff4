//! The identifier normalizer: canonicalizes one raw token of package-manager
//! output (a NEVRA string, a versioned capability expression, or an absolute
//! file path) into a base package name.

use vstd::prelude::*;
use vstd::string::*;
use crate::text::{
    digit_char, is_digit_char, is_space_char, lemma_trim_noop, str_starts_with, str_strict_suffix,
    strict_suffix, trim_spec, trim_str,
};

verus! {

/// Index of the first occurrence of `c` in `s`, or `s.len()` if absent.
pub open spec fn first_index_of(s: Seq<char>, c: char) -> int
    decreases s.len(),
{
    if s.len() == 0 {
        0
    } else if s[0] == c {
        0
    } else {
        1 + first_index_of(s.drop_first(), c)
    }
}

/// Index of the first `-<digit>` boundary in `s`, or `s.len()` if absent.
pub open spec fn first_sep_index(s: Seq<char>) -> int
    decreases s.len(),
{
    if s.len() == 0 {
        0
    } else if s.len() >= 2 && s[0] == '-' && is_digit_char(s[1]) {
        0
    } else {
        1 + first_sep_index(s.drop_first())
    }
}

/// The suffix of `s` after its last `'/'`; empty if `s` ends with `'/'`.
pub open spec fn after_last_slash(s: Seq<char>) -> Seq<char>
    decreases s.len(),
{
    if s.len() == 0 {
        s
    } else if s.last() == '/' {
        Seq::empty()
    } else {
        after_last_slash(s.drop_last()).push(s.last())
    }
}

/// Length of a trailing `.<architecture>` qualifier of `s` (dot included),
/// for the common RPM architecture names; `0` if there is none or stripping
/// it would leave nothing.
pub open spec fn arch_suffix_len(s: Seq<char>) -> int {
    if strict_suffix(s, ".x86_64"@) {
        7
    } else if strict_suffix(s, ".noarch"@) {
        7
    } else if strict_suffix(s, ".aarch64"@) {
        8
    } else if strict_suffix(s, ".i686"@) {
        5
    } else if strict_suffix(s, ".i586"@) {
        5
    } else if strict_suffix(s, ".i386"@) {
        5
    } else if strict_suffix(s, ".armv7hl"@) {
        8
    } else if strict_suffix(s, ".ppc64le"@) {
        8
    } else if strict_suffix(s, ".s390x"@) {
        6
    } else if strict_suffix(s, ".riscv64"@) {
        8
    } else {
        0
    }
}

/// The canonical base name of one raw package-manager token:
/// after trimming, an absolute path keeps only its final component; a
/// `perl(...)` capability is preserved verbatim; any other parenthesized
/// qualifier is stripped from the first `'('`; otherwise the name ends at
/// the first `-<digit>` version boundary, or before a bare trailing
/// architecture qualifier.
pub open spec fn normalize_spec(raw: Seq<char>) -> Seq<char> {
    let t = trim_spec(raw);
    if t.len() > 0 && t[0] == '/' {
        after_last_slash(t)
    } else if "perl("@.len() <= t.len() && t.take("perl("@.len() as int) == "perl("@ {
        t
    } else if first_index_of(t, '(') < t.len() {
        t.take(first_index_of(t, '('))
    } else if first_sep_index(t) < t.len() {
        t.take(first_sep_index(t))
    } else if arch_suffix_len(t) > 0 {
        t.take(t.len() - arch_suffix_len(t))
    } else {
        t
    }
}

pub proof fn lemma_first_index_present(s: Seq<char>, c: char, i: int)
    requires
        0 <= i < s.len(),
        s[i] == c,
        forall|j: int| 0 <= j < i ==> s[j] != c,
    ensures
        first_index_of(s, c) == i,
    decreases i,
{
    if i > 0 {
        lemma_first_index_present(s.drop_first(), c, i - 1);
    }
}

pub proof fn lemma_first_index_absent(s: Seq<char>, c: char)
    requires
        forall|j: int| 0 <= j < s.len() ==> s[j] != c,
    ensures
        first_index_of(s, c) == s.len(),
    decreases s.len(),
{
    if s.len() > 0 {
        lemma_first_index_absent(s.drop_first(), c);
    }
}

pub proof fn lemma_first_sep_present(s: Seq<char>, i: int)
    requires
        0 <= i,
        i + 1 < s.len(),
        s[i] == '-',
        is_digit_char(s[i + 1]),
        forall|j: int| 0 <= j < i ==> !(#[trigger] s[j] == '-' && is_digit_char(s[j + 1])),
    ensures
        first_sep_index(s) == i,
    decreases i,
{
    if i > 0 {
        let d = s.drop_first();
        assert(forall|j: int| 0 <= j < i - 1 ==> #[trigger] d[j] == s[j + 1] && d[j + 1] == s[j + 2]);
        lemma_first_sep_present(d, i - 1);
    }
}

pub proof fn lemma_first_sep_absent(s: Seq<char>)
    requires
        forall|j: int| 0 <= j < s.len() - 1 ==> !(#[trigger] s[j] == '-' && is_digit_char(s[j + 1])),
    ensures
        first_sep_index(s) == s.len(),
    decreases s.len(),
{
    if s.len() > 0 {
        let d = s.drop_first();
        assert(forall|j: int| 0 <= j < d.len() - 1 ==> #[trigger] d[j] == s[j + 1] && d[j + 1] == s[j + 2]);
        lemma_first_sep_absent(d);
    }
}

pub proof fn lemma_after_last_slash(s: Seq<char>, i: int)
    requires
        0 <= i < s.len(),
        s[i] == '/',
        forall|j: int| i < j < s.len() ==> s[j] != '/',
    ensures
        after_last_slash(s) == s.skip(i + 1),
    decreases s.len(),
{
    if i == s.len() - 1 {
        assert(s.last() == '/');
        assert(s.skip(i + 1) =~= Seq::<char>::empty());
    } else {
        assert(s.last() != '/');
        let d = s.drop_last();
        lemma_after_last_slash(d, i);
        assert(d.skip(i + 1).push(s.last()) =~= s.skip(i + 1));
    }
}

/// Canonicalizes a raw token (full NEVRA string, capability expression, or
/// absolute file path) into its base package name.
pub fn extract_base_package_name(full_spec: &str) -> (r: String)
    ensures
        r@ == normalize_spec(full_spec@),
{
    let t = trim_str(full_spec);
    let n = t.unicode_len();
    if n > 0 && t.get_char(0) == '/' {
        let mut j: usize = n;
        while j > 0 && t.get_char(j - 1) != '/'
            invariant
                0 <= j <= n,
                n == t@.len(),
                forall|k: int| j <= k < n ==> t@[k] != '/',
            decreases j,
        {
            j = j - 1;
        }
        assert(j > 0);
        proof {
            lemma_after_last_slash(t@, j - 1);
            assert(t@.skip(j as int) =~= t@.subrange(j as int, n as int));
        }
        return String::from_str(t.substring_char(j, n));
    }
    if str_starts_with(t, "perl(") {
        return String::from_str(t);
    }
    let mut i: usize = 0;
    while i < n && t.get_char(i) != '('
        invariant
            0 <= i <= n,
            n == t@.len(),
            forall|j: int| 0 <= j < i ==> t@[j] != '(',
        decreases n - i,
    {
        i = i + 1;
    }
    if i < n {
        proof {
            lemma_first_index_present(t@, '(', i as int);
            assert(t@.subrange(0, i as int) =~= t@.take(i as int));
        }
        return String::from_str(t.substring_char(0, i));
    }
    proof {
        lemma_first_index_absent(t@, '(');
    }
    let mut i: usize = 0;
    let mut sep: usize = n;
    let mut found = false;
    while !found && n > 0 && i < n - 1
        invariant
            0 <= i <= n,
            n == t@.len(),
            !found ==> sep == n && forall|j: int| 0 <= j < i ==> !(#[trigger] t@[j] == '-' && is_digit_char(
                t@[j + 1])),
            found ==> 0 <= sep as int && sep + 1 < n && t@[sep as int] == '-' && is_digit_char(
                t@[sep + 1]) && forall|j: int|
                0 <= j < sep ==> !(#[trigger] t@[j] == '-' && is_digit_char(t@[j + 1])),
        decreases n - i + (if found {
            0int
        } else {
            1int
        }),
    {
        if t.get_char(i) == '-' && digit_char(t.get_char(i + 1)) {
            sep = i;
            found = true;
        } else {
            i = i + 1;
        }
    }
    if found {
        proof {
            lemma_first_sep_present(t@, sep as int);
            assert(t@.subrange(0, sep as int) =~= t@.take(sep as int));
        }
        return String::from_str(t.substring_char(0, sep));
    }
    proof {
        assert(forall|j: int| 0 <= j < n - 1 ==> !(#[trigger] t@[j] == '-' && is_digit_char(t@[j + 1])));
        lemma_first_sep_absent(t@);
    }
    let cut = if str_strict_suffix(t, ".x86_64") {
        7
    } else if str_strict_suffix(t, ".noarch") {
        7
    } else if str_strict_suffix(t, ".aarch64") {
        8
    } else if str_strict_suffix(t, ".i686") {
        5
    } else if str_strict_suffix(t, ".i586") {
        5
    } else if str_strict_suffix(t, ".i386") {
        5
    } else if str_strict_suffix(t, ".armv7hl") {
        8
    } else if str_strict_suffix(t, ".ppc64le") {
        8
    } else if str_strict_suffix(t, ".s390x") {
        6
    } else if str_strict_suffix(t, ".riscv64") {
        8
    } else {
        0
    };
    proof {
        reveal_strlit(".x86_64");
        reveal_strlit(".noarch");
        reveal_strlit(".aarch64");
        reveal_strlit(".i686");
        reveal_strlit(".i586");
        reveal_strlit(".i386");
        reveal_strlit(".armv7hl");
        reveal_strlit(".ppc64le");
        reveal_strlit(".s390x");
        reveal_strlit(".riscv64");
        assert(cut as int == arch_suffix_len(t@));
    }
    if cut > 0 {
        proof {
            assert(t@.subrange(0, n - cut) =~= t@.take(n - cut));
        }
        return String::from_str(t.substring_char(0, n - cut));
    }
    String::from_str(t)
}

/// A token of the shape `<name>-<digit...>` normalizes to exactly `<name>`,
/// provided the name holds no earlier `-<digit>` boundary, no parenthesis,
/// does not begin with a path separator or whitespace, and the suffix ends
/// cleanly.
pub proof fn lemma_version_suffix_stripped(name: Seq<char>, rest: Seq<char>)
    requires
        name.len() > 0,
        !is_space_char(name[0]),
        name[0] != '/',
        forall|j: int| 0 <= j < name.len() ==> name[j] != '(',
        forall|j: int| 0 <= j < name.len() - 1 ==> !(#[trigger] name[j] == '-' && is_digit_char(name[j + 1])),
        rest.len() > 0,
        is_digit_char(rest[0]),
        !is_space_char(rest.last()),
        forall|j: int| 0 <= j < rest.len() ==> rest[j] != '(',
    ensures
        normalize_spec(name + seq!['-'] + rest) == name,
{
    let s = name + seq!['-'] + rest;
    assert(s.len() == name.len() + 1 + rest.len());
    assert(s[0] == name[0]);
    assert(s.last() == rest.last());
    lemma_trim_noop(s);
    assert(trim_spec(s) == s);
    // no parenthesis anywhere, so neither the perl rule nor the strip rule fires
    assert forall|j: int| 0 <= j < s.len() implies s[j] != '(' by {
        if j < name.len() {
            assert(s[j] == name[j]);
        } else if j == name.len() {
            assert(s[j] == '-');
        } else {
            assert(s[j] == rest[j - name.len() - 1]);
        }
    }
    if "perl("@.len() <= s.len() && s.take("perl("@.len() as int) == "perl("@ {
        reveal_strlit("perl(");
        assert(s.take(5)[4] == s[4]);
        assert(false);
    }
    lemma_first_index_absent(s, '(');
    assert(s[name.len() as int] == '-');
    assert(s[name.len() as int + 1] == rest[0]);
    assert forall|j: int| 0 <= j < name.len() implies !(#[trigger] s[j] == '-' && is_digit_char(s[j + 1])) by {
        if j < name.len() - 1 {
            assert(s[j] == name[j] && s[j + 1] == name[j + 1]);
        } else {
            assert(s[j + 1] == '-');
            assert(!is_digit_char('-'));
        }
    }
    lemma_first_sep_present(s, name.len() as int);
    assert(s.take(name.len() as int) =~= name);
}

} // verus!
