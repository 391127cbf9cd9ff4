//! The computing halves of the two listing operations: turning the raw
//! installed-package listing into sorted identifiers, and crossing the
//! user-installed listing against the installed set to pick the fetch
//! candidates.

use vstd::prelude::*;
use vstd::string::*;
use crate::fetch::distinct_names;
use crate::normalize::{extract_base_package_name, normalize_spec};
use crate::parse::starts_with_seq;
use crate::pkg::DisplayablePackage;
use crate::text::{
    insert_sorted, sorted_unique, split_lines, split_lines_spec, str_eq, str_starts_with,
    trim_spec, trim_str,
};

verus! {

/// The base name one line of an installed-package listing contributes:
/// the line normalized, unless the line is blank or normalizes to nothing.
pub open spec fn installed_name_of_line(line: Seq<char>) -> Option<Seq<char>> {
    if trim_spec(line).len() == 0 {
        None
    } else {
        let d = normalize_spec(line);
        if d.len() > 0 {
            Some(d)
        } else {
            None
        }
    }
}

/// `n` is among the base names an installed-package listing yields.
pub open spec fn is_installed_name(text: Seq<char>, n: Seq<char>) -> bool {
    exists|i: int|
        0 <= i < split_lines_spec(text).len() && installed_name_of_line(
            #[trigger] split_lines_spec(text)[i],
        ) == Some(n)
}

/// The name one line of a plain name-per-line listing contributes: the
/// line trimmed, unless blank.
pub open spec fn plain_name_of_line(line: Seq<char>) -> Option<Seq<char>> {
    if trim_spec(line).len() == 0 {
        None
    } else {
        Some(trim_spec(line))
    }
}

/// `n` is among the names of a plain name-per-line listing.
pub open spec fn is_plain_name(text: Seq<char>, n: Seq<char>) -> bool {
    exists|i: int|
        0 <= i < split_lines_spec(text).len() && plain_name_of_line(
            #[trigger] split_lines_spec(text)[i],
        ) == Some(n)
}

/// The base name one line of the user-installed listing contributes:
/// blank lines and metadata-refresh notices count for nothing, every other
/// line is normalized.
pub open spec fn user_entry_of_line(line: Seq<char>) -> Option<Seq<char>> {
    let t = trim_spec(line);
    if t.len() == 0 || starts_with_seq(t, "Last metadata expiration check:"@) {
        None
    } else {
        let d = normalize_spec(line);
        if d.len() > 0 {
            Some(d)
        } else {
            None
        }
    }
}

/// `n` is among the base names the user-installed listing yields.
pub open spec fn is_user_entry(text: Seq<char>, n: Seq<char>) -> bool {
    exists|i: int|
        0 <= i < split_lines_spec(text).len() && user_entry_of_line(
            #[trigger] split_lines_spec(text)[i],
        ) == Some(n)
}

/// Turns the raw installed-package listing (one full spec per line) into
/// the sorted, duplicate-free identifiers of the installed packages.
pub fn installed_packages_from_listing(output: &str) -> (r: Vec<DisplayablePackage>)
    ensures
        sorted_unique(r.deep_view()),
        forall|n: Seq<char>| r.deep_view().contains(n) <==> is_installed_name(output@, n),
{
    let lines = split_lines(output);
    let ghost lseq = split_lines_spec(output@);
    let nl = lines.len();
    let mut names: Vec<String> = Vec::new();
    let mut i: usize = 0;
    while i < nl
        invariant
            0 <= i <= nl,
            nl == lines.len(),
            lines.deep_view() == lseq,
            sorted_unique(names.deep_view()),
            forall|n: Seq<char>|
                names.deep_view().contains(n) <==> exists|j: int|
                    0 <= j < i && installed_name_of_line(#[trigger] lseq[j]) == Some(n),
        decreases nl - i,
    {
        assert(lines[i as int].deep_view() == lseq[i as int]);
        let line = lines[i].as_str();
        let t = trim_str(line);
        let mut name: Option<String> = None;
        if !t.is_empty() {
            let d = extract_base_package_name(line);
            if !d.as_str().is_empty() {
                name = Some(d);
            }
        }
        let ghost prev = names.deep_view();
        match name {
            Some(d) => {
                let ghost dv = d@;
                assert(installed_name_of_line(lseq[i as int]) == Some(dv));
                insert_sorted(&mut names, d);
                proof {
                    assert forall|x: Seq<char>| names.deep_view().contains(x) implies exists|
                        j: int,
                    | 0 <= j < i + 1 && installed_name_of_line(#[trigger] lseq[j]) == Some(x) by {
                        if prev.contains(x) {
                            let j = choose|j: int|
                                0 <= j < i && installed_name_of_line(#[trigger] lseq[j]) == Some(
                                    x,
                                );
                            assert(0 <= j < i + 1 && installed_name_of_line(lseq[j]) == Some(x));
                        } else {
                            assert(installed_name_of_line(lseq[i as int]) == Some(x));
                        }
                    }
                    assert forall|x: Seq<char>|
                        exists|j: int|
                            0 <= j < i + 1 && installed_name_of_line(#[trigger] lseq[j]) == Some(
                                x,
                            ) implies names.deep_view().contains(x) by {
                        let j = choose|j: int|
                            0 <= j < i + 1 && installed_name_of_line(#[trigger] lseq[j]) == Some(
                                x,
                            );
                        if j < i {
                            assert(prev.contains(x));
                        } else {
                            assert(x == dv);
                        }
                    }
                }
            },
            None => {
                proof {
                    assert(installed_name_of_line(lseq[i as int]) is None);
                    assert forall|x: Seq<char>|
                        exists|j: int|
                            0 <= j < i + 1 && installed_name_of_line(#[trigger] lseq[j]) == Some(
                                x,
                            ) implies names.deep_view().contains(x) by {
                        let j = choose|j: int|
                            0 <= j < i + 1 && installed_name_of_line(#[trigger] lseq[j]) == Some(
                                x,
                            );
                        assert(j < i);
                        assert(prev.contains(x));
                    }
                }
            },
        }
        i = i + 1;
    }
    crate::pkg::to_displayable(&names)
}

fn contains_name(names: &Vec<String>, x: &str) -> (r: bool)
    ensures
        r == names.deep_view().contains(x@),
{
    let mut i: usize = 0;
    while i < names.len()
        invariant
            0 <= i <= names.len(),
            forall|j: int| 0 <= j < i ==> names.deep_view()[j] != x@,
        decreases names.len() - i,
    {
        assert(names.deep_view()[i as int] == names[i as int]@);
        if str_eq(names[i].as_str(), x) {
            return true;
        }
        i = i + 1;
    }
    false
}

/// Collects the trimmed nonempty names of a plain name-per-line listing,
/// in order, duplicates kept.
fn plain_names(output: &str) -> (r: Vec<String>)
    ensures
        forall|n: Seq<char>| r.deep_view().contains(n) <==> is_plain_name(output@, n),
{
    let lines = split_lines(output);
    let ghost lseq = split_lines_spec(output@);
    let nl = lines.len();
    let mut names: Vec<String> = Vec::new();
    let mut i: usize = 0;
    while i < nl
        invariant
            0 <= i <= nl,
            nl == lines.len(),
            lines.deep_view() == lseq,
            forall|n: Seq<char>|
                names.deep_view().contains(n) <==> exists|j: int|
                    0 <= j < i && plain_name_of_line(#[trigger] lseq[j]) == Some(n),
        decreases nl - i,
    {
        assert(lines[i as int].deep_view() == lseq[i as int]);
        let t = trim_str(lines[i].as_str());
        let ghost prev = names.deep_view();
        if !t.is_empty() {
            let d = String::from_str(t);
            assert(plain_name_of_line(lseq[i as int]) == Some(d@));
            names.push(d);
            proof {
                assert(names.deep_view() =~= prev.push(trim_spec(lseq[i as int])));
                assert forall|x: Seq<char>| names.deep_view().contains(x) implies exists|j: int|
                    0 <= j < i + 1 && plain_name_of_line(#[trigger] lseq[j]) == Some(x) by {
                    let y = choose|y: int|
                        0 <= y < names.deep_view().len() && names.deep_view()[y] == x;
                    if y < prev.len() {
                        assert(prev.contains(x));
                        let j = choose|j: int|
                            0 <= j < i && plain_name_of_line(#[trigger] lseq[j]) == Some(x);
                        assert(0 <= j < i + 1 && plain_name_of_line(lseq[j]) == Some(x));
                    } else {
                        assert(plain_name_of_line(lseq[i as int]) == Some(x));
                    }
                }
                assert forall|x: Seq<char>|
                    exists|j: int|
                        0 <= j < i + 1 && plain_name_of_line(#[trigger] lseq[j]) == Some(
                            x,
                        ) implies names.deep_view().contains(x) by {
                    let j = choose|j: int|
                        0 <= j < i + 1 && plain_name_of_line(#[trigger] lseq[j]) == Some(x);
                    if j < i {
                        assert(prev.contains(x));
                        let y = choose|y: int| 0 <= y < prev.len() && prev[y] == x;
                        assert(names.deep_view()[y] == x);
                    } else {
                        assert(names.deep_view()[prev.len() as int] == x);
                    }
                }
            }
        } else {
            proof {
                assert(plain_name_of_line(lseq[i as int]) is None);
                assert forall|x: Seq<char>|
                    exists|j: int|
                        0 <= j < i + 1 && plain_name_of_line(#[trigger] lseq[j]) == Some(
                            x,
                        ) implies names.deep_view().contains(x) by {
                    let j = choose|j: int|
                        0 <= j < i + 1 && plain_name_of_line(#[trigger] lseq[j]) == Some(x);
                    assert(j < i);
                }
            }
        }
        i = i + 1;
    }
    names
}

/// Crosses the user-installed listing against the installed-name listing:
/// the distinct base names that the user-installed listing yields and that
/// the installed set confirms, in order of first appearance.
pub fn filter_user_candidates(user_output: &str, installed_output: &str) -> (r: Vec<String>)
    ensures
        distinct_names(r.deep_view()),
        forall|n: Seq<char>|
            r.deep_view().contains(n) <==> (is_user_entry(user_output@, n) && is_plain_name(
                installed_output@,
                n,
            )),
{
    let installed = plain_names(installed_output);
    let lines = split_lines(user_output);
    let ghost lseq = split_lines_spec(user_output@);
    let nl = lines.len();
    let mut out: Vec<String> = Vec::new();
    let mut i: usize = 0;
    while i < nl
        invariant
            0 <= i <= nl,
            nl == lines.len(),
            lines.deep_view() == lseq,
            forall|n: Seq<char>|
                installed.deep_view().contains(n) <==> is_plain_name(installed_output@, n),
            distinct_names(out.deep_view()),
            forall|n: Seq<char>|
                out.deep_view().contains(n) <==> ((exists|j: int|
                    0 <= j < i && user_entry_of_line(#[trigger] lseq[j]) == Some(n))
                    && is_plain_name(installed_output@, n)),
        decreases nl - i,
    {
        assert(lines[i as int].deep_view() == lseq[i as int]);
        let line = lines[i].as_str();
        let t = trim_str(line);
        let mut entry: Option<String> = None;
        if !(t.is_empty() || str_starts_with(t, "Last metadata expiration check:")) {
            let d = extract_base_package_name(line);
            if !d.as_str().is_empty() {
                entry = Some(d);
            }
        }
        let ghost prev = out.deep_view();
        match entry {
            Some(d) => {
                let ghost dv = d@;
                assert(user_entry_of_line(lseq[i as int]) == Some(dv));
                if contains_name(&installed, d.as_str()) && !contains_name(&out, d.as_str()) {
                    out.push(d);
                    proof {
                        assert(out.deep_view() =~= prev.push(dv));
                        assert forall|p: int, q: int|
                            0 <= p < q < out.deep_view().len() implies out.deep_view()[p]
                            != out.deep_view()[q] by {
                            if q == out.deep_view().len() - 1 {
                                assert(out.deep_view()[p] == prev[p]);
                                assert(prev.contains(prev[p]));
                            }
                        }
                    }
                }
                proof {
                    assert forall|x: Seq<char>| out.deep_view().contains(x) implies ((exists|
                        j: int,
                    | 0 <= j < i + 1 && user_entry_of_line(#[trigger] lseq[j]) == Some(x))
                        && is_plain_name(installed_output@, x)) by {
                        if prev.contains(x) {
                            let j = choose|j: int|
                                0 <= j < i && user_entry_of_line(#[trigger] lseq[j]) == Some(x);
                            assert(0 <= j < i + 1 && user_entry_of_line(lseq[j]) == Some(x));
                        } else {
                            let y = choose|y: int|
                                0 <= y < out.deep_view().len() && out.deep_view()[y] == x;
                            assert(x == dv);
                            assert(user_entry_of_line(lseq[i as int]) == Some(x));
                        }
                    }
                    assert forall|x: Seq<char>|
                        ((exists|j: int|
                            0 <= j < i + 1 && user_entry_of_line(#[trigger] lseq[j]) == Some(x))
                            && is_plain_name(installed_output@, x)) implies out.deep_view(
                    ).contains(x) by {
                        let j = choose|j: int|
                            0 <= j < i + 1 && user_entry_of_line(#[trigger] lseq[j]) == Some(x);
                        if j < i {
                            assert(prev.contains(x));
                            let y = choose|y: int| 0 <= y < prev.len() && prev[y] == x;
                            assert(out.deep_view()[y] == x);
                        } else {
                            assert(x == dv);
                            if !prev.contains(x) {
                                assert(out.deep_view()[prev.len() as int] == x);
                            } else {
                                let y = choose|y: int| 0 <= y < prev.len() && prev[y] == x;
                                assert(out.deep_view()[y] == x);
                            }
                        }
                    }
                }
            },
            None => {
                proof {
                    assert(user_entry_of_line(lseq[i as int]) is None);
                    assert forall|x: Seq<char>|
                        ((exists|j: int|
                            0 <= j < i + 1 && user_entry_of_line(#[trigger] lseq[j]) == Some(x))
                            && is_plain_name(installed_output@, x)) implies out.deep_view(
                    ).contains(x) by {
                        let j = choose|j: int|
                            0 <= j < i + 1 && user_entry_of_line(#[trigger] lseq[j]) == Some(x);
                        assert(j < i);
                    }
                }
            },
        }
        i = i + 1;
    }
    out
}

} // verus!
