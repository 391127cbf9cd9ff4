//! The dependency-list parsers: one for the per-package requirement listing
//! (`rpm -qR` style, one requirement per line), one for the batched
//! dependency listing with `package:` header lines and indented `provider:`
//! lines.

use vstd::prelude::*;
use vstd::string::*;
use crate::normalize::{extract_base_package_name, normalize_spec};
use crate::pkg::DisplayablePackage;
use crate::text::{
    insert_sorted, is_space_char, seq_eq_ci, sorted_unique, split_lines, split_lines_spec, str_eq,
    str_eq_ci, str_starts_with, trim_front_spec, trim_front_str, trim_spec, trim_str,
};

verus! {

/// `p` is an exact prefix of `s`.
pub open spec fn starts_with_seq(s: Seq<char>, p: Seq<char>) -> bool {
    p.len() <= s.len() && s.take(p.len() as int) == p
}

/// The dependency contributed by one line of a requirement listing for
/// `owner`, if any: empty lines, metadata-refresh notices and the literal
/// `(none)` marker contribute nothing; otherwise the line normalizes to a
/// base name, which counts unless it is empty or the owner itself.
pub open spec fn single_dep_of_line(line: Seq<char>, owner: Seq<char>) -> Option<Seq<char>> {
    let t = trim_spec(line);
    if t.len() == 0 || starts_with_seq(t, "Last metadata expiration check:"@) || seq_eq_ci(
        t,
        "(none)"@,
    ) {
        None
    } else {
        let d = normalize_spec(line);
        if d.len() > 0 && d != owner {
            Some(d)
        } else {
            None
        }
    }
}

/// `d` is among the dependencies that a requirement listing `text` yields
/// for `owner`.
pub open spec fn is_single_dep(text: Seq<char>, owner: Seq<char>, d: Seq<char>) -> bool {
    exists|i: int|
        0 <= i < split_lines_spec(text).len() && single_dep_of_line(
            #[trigger] split_lines_spec(text)[i],
            owner,
        ) == Some(d)
}

/// A requirement listing never yields its own package as a dependency.
pub proof fn lemma_single_excludes_owner(text: Seq<char>, owner: Seq<char>)
    ensures
        !is_single_dep(text, owner, owner),
{
    if is_single_dep(text, owner, owner) {
        let i = choose|i: int|
            0 <= i < split_lines_spec(text).len() && single_dep_of_line(
                #[trigger] split_lines_spec(text)[i],
                owner,
            ) == Some(owner);
        assert(false);
    }
}

/// Parses the requirement listing of one package into its set of resolved
/// dependency base names, sorted and without duplicates, never including
/// the package itself.
pub fn parse_rpm_requires_output(output: &str, main_pkg_base_name_for_context: &str) -> (r: Vec<
    DisplayablePackage,
>)
    ensures
        sorted_unique(r.deep_view()),
        forall|d: Seq<char>|
            r.deep_view().contains(d) <==> is_single_dep(
                output@,
                main_pkg_base_name_for_context@,
                d,
            ),
{
    let ghost o = main_pkg_base_name_for_context@;
    let lines = split_lines(output);
    let ghost lseq = split_lines_spec(output@);
    let nl = lines.len();
    let mut names: Vec<String> = Vec::new();
    let mut i: usize = 0;
    while i < nl
        invariant
            0 <= i <= nl,
            nl == lines.len(),
            lines.deep_view() == lseq,
            o == main_pkg_base_name_for_context@,
            sorted_unique(names.deep_view()),
            forall|d: Seq<char>|
                names.deep_view().contains(d) <==> exists|j: int|
                    0 <= j < i && single_dep_of_line(#[trigger] lseq[j], o) == Some(d),
        decreases nl - i,
    {
        assert(lines[i as int].deep_view() == lseq[i as int]);
        let line = lines[i].as_str();
        let t = trim_str(line);
        let mut dep: Option<String> = None;
        if !(t.is_empty() || str_starts_with(t, "Last metadata expiration check:") || str_eq_ci(
            t,
            "(none)",
        )) {
            let d = extract_base_package_name(line);
            if !d.as_str().is_empty() && !str_eq(d.as_str(), main_pkg_base_name_for_context) {
                dep = Some(d);
            }
        }
        let ghost prev = names.deep_view();
        match dep {
            Some(d) => {
                let ghost dv = d@;
                assert(single_dep_of_line(lseq[i as int], o) == Some(dv));
                insert_sorted(&mut names, d);
                proof {
                    assert forall|x: Seq<char>| names.deep_view().contains(x) implies exists|
                        j: int,
                    |
                        0 <= j < i + 1 && single_dep_of_line(#[trigger] lseq[j], o) == Some(x) by {
                        if prev.contains(x) {
                            let j = choose|j: int|
                                0 <= j < i && single_dep_of_line(#[trigger] lseq[j], o) == Some(x);
                            assert(0 <= j < i + 1 && single_dep_of_line(lseq[j], o) == Some(x));
                        } else {
                            assert(x == dv);
                            assert(single_dep_of_line(lseq[i as int], o) == Some(x));
                        }
                    }
                    assert forall|x: Seq<char>|
                        exists|j: int|
                            0 <= j < i + 1 && single_dep_of_line(#[trigger] lseq[j], o) == Some(
                                x,
                            ) implies names.deep_view().contains(x) by {
                        let j = choose|j: int|
                            0 <= j < i + 1 && single_dep_of_line(#[trigger] lseq[j], o) == Some(x);
                        if j < i {
                            assert(prev.contains(x));
                        } else {
                            assert(x == dv);
                        }
                    }
                }
            },
            None => {
                proof {
                    assert(single_dep_of_line(lseq[i as int], o) is None);
                    assert forall|x: Seq<char>|
                        exists|j: int|
                            0 <= j < i + 1 && single_dep_of_line(#[trigger] lseq[j], o) == Some(
                                x,
                            ) implies names.deep_view().contains(x) by {
                        let j = choose|j: int|
                            0 <= j < i + 1 && single_dep_of_line(#[trigger] lseq[j], o) == Some(x);
                        assert(j < i);
                        assert(prev.contains(x));
                    }
                }
            },
        }
        i = i + 1;
    }
    crate::pkg::to_displayable(&names)
}

/// One entry of a batched dependency listing: a main package and its
/// resolved providers.
pub struct DeplistEntry {
    pub name: String,
    pub dependencies: Vec<DisplayablePackage>,
}

/// The mathematical model of one batched-listing entry.
pub struct DeplistEntryModel {
    pub name: Seq<char>,
    pub dependencies: Seq<Seq<char>>,
}

impl View for DeplistEntry {
    type V = DeplistEntryModel;

    open spec fn view(&self) -> DeplistEntryModel {
        DeplistEntryModel { name: self.name@, dependencies: self.dependencies.deep_view() }
    }
}

impl DeepView for DeplistEntry {
    type V = DeplistEntryModel;

    open spec fn deep_view(&self) -> DeplistEntryModel {
        self.view()
    }
}

/// The main package announced by a `package:` header line, if the line is
/// one: the line starts (unindented) with the marker and its payload
/// normalizes to a nonempty base name.
pub open spec fn header_payload(line: Seq<char>) -> Option<Seq<char>> {
    if starts_with_seq(line, "package:"@) {
        let d = normalize_spec(line.skip("package:"@.len() as int));
        if d.len() > 0 {
            Some(d)
        } else {
            None
        }
    } else {
        None
    }
}

/// The provider announced by an indented `provider:` line, if the line is
/// one.
pub open spec fn provider_payload(line: Seq<char>) -> Option<Seq<char>> {
    if line.len() > 0 && is_space_char(line[0]) && starts_with_seq(
        trim_front_spec(line),
        "provider:"@,
    ) {
        let d = normalize_spec(trim_front_spec(line).skip("provider:"@.len() as int));
        if d.len() > 0 {
            Some(d)
        } else {
            None
        }
    } else {
        None
    }
}

/// The state of the batched-listing parser: the package the current block
/// belongs to, and the mapping built so far.
pub struct MultiState {
    pub current: Option<Seq<char>>,
    pub entries: Map<Seq<char>, Set<Seq<char>>>,
}

/// One step of the batched-listing state machine: a header line opens a
/// block (creating its entry if new); a provider line inside a block adds
/// the provider to the block's set unless it names the block's own package;
/// every other line is skipped.
pub open spec fn multi_step(st: MultiState, line: Seq<char>) -> MultiState {
    match header_payload(line) {
        Some(name) => MultiState {
            current: Some(name),
            entries: if st.entries.dom().contains(name) {
                st.entries
            } else {
                st.entries.insert(name, Set::empty())
            },
        },
        None => match (provider_payload(line), st.current) {
            (Some(d), Some(cur)) => if d != cur {
                MultiState {
                    current: st.current,
                    entries: st.entries.insert(cur, st.entries[cur].insert(d)),
                }
            } else {
                st
            },
            _ => st,
        },
    }
}

/// The state machine run over a sequence of lines.
pub open spec fn multi_fold(lines: Seq<Seq<char>>) -> MultiState
    decreases lines.len(),
{
    if lines.len() == 0 {
        MultiState { current: None, entries: Map::empty() }
    } else {
        multi_step(multi_fold(lines.drop_last()), lines.last())
    }
}

/// The package-to-providers mapping a batched listing denotes.
pub open spec fn parse_multi_spec(text: Seq<char>) -> Map<Seq<char>, Set<Seq<char>>> {
    multi_fold(split_lines_spec(text)).entries
}

proof fn lemma_multi_fold_step(lines: Seq<Seq<char>>, i: int)
    requires
        0 <= i < lines.len(),
    ensures
        multi_fold(lines.take(i + 1)) == multi_step(multi_fold(lines.take(i)), lines[i]),
{
    assert(lines.take(i + 1).drop_last() =~= lines.take(i));
    assert(lines.take(i + 1).last() == lines[i]);
}

/// No entry of the mapping ever lists its own package as a provider.
pub proof fn lemma_multi_no_self(lines: Seq<Seq<char>>)
    ensures
        forall|k: Seq<char>|
            #[trigger] multi_fold(lines).entries.dom().contains(k) ==> !multi_fold(
                lines,
            ).entries[k].contains(k),
        multi_fold(lines).current matches Some(c) ==> multi_fold(lines).entries.dom().contains(c),
    decreases lines.len(),
{
    if lines.len() > 0 {
        lemma_multi_no_self(lines.drop_last());
        let st = multi_fold(lines.drop_last());
        let st2 = multi_fold(lines);
        let line = lines.last();
        match header_payload(line) {
            Some(name) => {
                assert forall|k: Seq<char>| #[trigger] st2.entries.dom().contains(k) implies
                    !st2.entries[k].contains(k) by {
                    if k == name {
                        if !st.entries.dom().contains(name) {
                            assert(st2.entries[k] =~= Set::<Seq<char>>::empty());
                        }
                    }
                }
            },
            None => {
                match (provider_payload(line), st.current) {
                    (Some(d), Some(cur)) => {
                        if d != cur {
                            assert(st.entries.dom().contains(cur));
                            assert forall|k: Seq<char>| #[trigger] st2.entries.dom().contains(
                                k,
                            ) implies !st2.entries[k].contains(k) by {
                                if k == cur {
                                    assert(st2.entries[k] == st.entries[cur].insert(d));
                                    assert(!st.entries[cur].contains(cur));
                                }
                            }
                        }
                    },
                    _ => {},
                }
            },
        }
    }
}

/// No package of a parsed batched listing lists itself as a provider.
pub proof fn lemma_parse_multi_no_self(text: Seq<char>)
    ensures
        forall|k: Seq<char>|
            #[trigger] parse_multi_spec(text).dom().contains(k) ==> !parse_multi_spec(
                text,
            )[k].contains(k),
{
    lemma_multi_no_self(split_lines_spec(text));
}

fn find_entry(names: &Vec<String>, x: &str) -> (r: Option<usize>)
    ensures
        match r {
            Some(i) => 0 <= i < names.len() && names.deep_view()[i as int] == x@,
            None => !names.deep_view().contains(x@),
        },
{
    let mut i: usize = 0;
    while i < names.len()
        invariant
            0 <= i <= names.len(),
            forall|j: int| 0 <= j < i ==> names.deep_view()[j] != x@,
        decreases names.len() - i,
    {
        if str_eq(names[i].as_str(), x) {
            assert(names.deep_view()[i as int] == names[i as int]@);
            return Some(i);
        }
        assert(names.deep_view()[i as int] == names[i as int]@);
        i = i + 1;
    }
    None
}

/// Parses a batched dependency listing (`package:` headers with indented
/// `provider:` lines) into one entry per announced package, in order of
/// first appearance, each with its providers sorted and without duplicates,
/// never listing the package itself.
pub fn parse_multi(text: &str) -> (r: Vec<DeplistEntry>)
    ensures
        forall|i: int, j: int|
            0 <= i < j < r.len() ==> r.deep_view()[i].name != r.deep_view()[j].name,
        forall|k: Seq<char>|
            #[trigger] parse_multi_spec(text@).dom().contains(k) <==> exists|i: int|
                0 <= i < r.len() && #[trigger] r.deep_view()[i].name == k,
        forall|i: int|
            0 <= i < r.len() ==> sorted_unique(#[trigger] r.deep_view()[i].dependencies),
        forall|i: int, d: Seq<char>|
            0 <= i < r.len() ==> ((#[trigger] r.deep_view()[i].dependencies.contains(d))
                <==> parse_multi_spec(text@)[r.deep_view()[i].name].contains(d)),
{
    let lines = split_lines(text);
    let ghost lseq = split_lines_spec(text@);
    let nl = lines.len();
    let mut names: Vec<String> = Vec::new();
    let mut deps: Vec<Vec<String>> = Vec::new();
    let mut cur: Option<usize> = None;
    let mut i: usize = 0;
    proof {
        assert(lseq.take(0) =~= Seq::<Seq<char>>::empty());
    }
    while i < nl
        invariant
            0 <= i <= nl,
            nl == lines.len(),
            lines.deep_view() == lseq,
            names.len() == deps.len(),
            forall|p: int, q: int|
                0 <= p < q < names.len() ==> names.deep_view()[p] != names.deep_view()[q],
            match (cur, multi_fold(lseq.take(i as int)).current) {
                (Some(ci), Some(n)) => ci < names.len() && names.deep_view()[ci as int] == n,
                (None, None) => true,
                _ => false,
            },
            forall|k: Seq<char>|
                #[trigger] multi_fold(lseq.take(i as int)).entries.dom().contains(k)
                    <==> names.deep_view().contains(k),
            forall|j: int|
                0 <= j < deps.len() ==> sorted_unique(#[trigger] deps.deep_view()[j]),
            forall|j: int, d: Seq<char>|
                0 <= j < deps.len() ==> ((#[trigger] deps.deep_view()[j].contains(d)) <==>
                multi_fold(lseq.take(i as int)).entries[names.deep_view()[j]].contains(d)),
        decreases nl - i,
    {
        let ghost st = multi_fold(lseq.take(i as int));
        proof {
            lemma_multi_fold_step(lseq, i as int);
        }
        assert(lines[i as int].deep_view() == lseq[i as int]);
        let line = lines[i].as_str();
        let ghost lv = lseq[i as int];
        let n_line = line.unicode_len();
        // classify the line
        let mut header: Option<String> = None;
        let mut provider: Option<String> = None;
        if str_starts_with(line, "package:") {
            proof {
                reveal_strlit("package:");
            }
            let payload = line.substring_char(8, n_line);
            assert(payload@ =~= lv.skip(8));
            let d = extract_base_package_name(payload);
            if !d.as_str().is_empty() {
                header = Some(d);
            }
            assert(match header {
                Some(ref h) => header_payload(lv) == Some(h@),
                None => header_payload(lv) is None,
            });
            proof {
                reveal_strlit("package:");
                assert(lv.take(8)[0] == lv[0]);
                assert(lv[0] == 'p');
                assert(!is_space_char('p'));
                assert(provider_payload(lv) is None);
            }
        } else {
            proof {
                reveal_strlit("package:");
                if starts_with_seq(lv, "package:"@) {
                    assert(false);
                }
                assert(header_payload(lv) is None);
            }
            if n_line > 0 && crate::text::space_char(line.get_char(0)) {
                let tf = trim_front_str(line);
                if str_starts_with(tf, "provider:") {
                    proof {
                        reveal_strlit("provider:");
                    }
                    let tf_len = tf.unicode_len();
                    assert(9 <= tf_len);
                    let payload = tf.substring_char(9, tf_len);
                    assert(payload@ =~= trim_front_spec(lv).skip(9));
                    let d = extract_base_package_name(payload);
                    if !d.as_str().is_empty() {
                        provider = Some(d);
                    }
                    assert(match provider {
                        Some(ref p) => provider_payload(lv) == Some(p@),
                        None => provider_payload(lv) is None,
                    });
                } else {
                    assert(provider_payload(lv) is None);
                }
            } else {
                assert(provider_payload(lv) is None);
            }
        }
        let ghost st2 = multi_fold(lseq.take(i + 1));
        assert(st2 == multi_step(st, lv));
        match header {
            Some(h) => {
                let ghost hv = h@;
                match find_entry(&names, h.as_str()) {
                    Some(ix) => {
                        cur = Some(ix);
                        proof {
                            assert(st2.entries == st.entries);
                            assert(st2.current == Some(hv));
                        }
                    },
                    None => {
                        let ghost old_names = names.deep_view();
                        let ghost old_deps = deps.deep_view();
                        names.push(h);
                        deps.push(Vec::new());
                        cur = Some(names.len() - 1);
                        proof {
                            assert(names.deep_view() =~= old_names.push(hv));
                            assert(deps.deep_view() =~~= old_deps.push(Seq::<Seq<char>>::empty()));
                            assert(st2.entries == st.entries.insert(hv, Set::empty()));
                            assert forall|k: Seq<char>|
                                #[trigger] st2.entries.dom().contains(k) implies names.deep_view(
                            ).contains(k) by {
                                if k == hv {
                                    assert(names.deep_view()[names.deep_view().len() - 1] == hv);
                                } else {
                                    assert(st.entries.dom().contains(k));
                                    let j = choose|j: int|
                                        0 <= j < old_names.len() && old_names[j] == k;
                                    assert(names.deep_view()[j] == k);
                                }
                            }
                            assert forall|k: Seq<char>| names.deep_view().contains(k) implies
                                st2.entries.dom().contains(k) by {
                                let j = choose|j: int|
                                    0 <= j < names.deep_view().len() && names.deep_view()[j] == k;
                                if j < old_names.len() {
                                    assert(old_names.contains(k));
                                }
                            }
                            assert forall|j: int, d: Seq<char>| 0 <= j < deps.len() implies ((
                            #[trigger] deps.deep_view()[j].contains(d))
                                <==> st2.entries[names.deep_view()[j]].contains(d)) by {
                                if j < old_deps.len() {
                                    assert(deps.deep_view()[j] == old_deps[j]);
                                    assert(names.deep_view()[j] == old_names[j]);
                                    assert(old_names.contains(old_names[j]));
                                    assert(st.entries.dom().contains(old_names[j]));
                                    assert(old_names[j] != hv);
                                } else {
                                    assert(deps.deep_view()[j] =~= Seq::<Seq<char>>::empty());
                                    assert(names.deep_view()[j] == hv);
                                    assert(st2.entries[hv] =~= Set::<Seq<char>>::empty());
                                }
                            }
                        }
                    },
                }
            },
            None => {
                match provider {
                    Some(p) => {
                        match cur {
                            Some(ci) => {
                                let ghost pv = p@;
                                let ghost cn = names.deep_view()[ci as int];
                                if !str_eq(p.as_str(), names[ci].as_str()) {
                                    assert(pv != cn);
                                    let ghost old_deps = deps.deep_view();
                                    let mut row = deps.remove(ci);
                                    proof {
                                        assert(row.deep_view() == old_deps[ci as int]);
                                        assert(sorted_unique(old_deps[ci as int]));
                                    }
                                    insert_sorted(&mut row, p);
                                    let ghost new_row = row.deep_view();
                                    deps.insert(ci, row);
                                    proof {
                                        assert(deps.deep_view() =~= old_deps.update(
                                            ci as int,
                                            new_row,
                                        ));
                                        assert(st2.entries == st.entries.insert(
                                            cn,
                                            st.entries[cn].insert(pv),
                                        ));
                                        assert(names.deep_view().contains(cn)) by {
                                            assert(names.deep_view()[ci as int] == cn);
                                        }
                                        assert(st.entries.dom().contains(cn));
                                        assert forall|j: int| 0 <= j < deps.len() implies
                                            sorted_unique(#[trigger] deps.deep_view()[j]) by {
                                            if j != ci {
                                                assert(deps.deep_view()[j] == old_deps[j]);
                                            } else {
                                                assert(deps.deep_view()[j] == new_row);
                                            }
                                        }
                                        assert forall|k: Seq<char>|
                                            #[trigger] st2.entries.dom().contains(k) implies
                                            names.deep_view().contains(k) by {
                                            if k != cn {
                                                assert(st.entries.dom().contains(k));
                                            }
                                        }
                                        assert forall|j: int, d: Seq<char>|
                                            0 <= j < deps.len() implies ((#[trigger] deps.deep_view(
                                        )[j].contains(d)) <==> st2.entries[names.deep_view(
                                        )[j]].contains(d)) by {
                                            if j != ci {
                                                assert(deps.deep_view()[j] == old_deps[j]);
                                                assert(names.deep_view()[j] != cn);
                                            } else {
                                                assert(deps.deep_view()[j] == new_row);
                                                assert(new_row.contains(d) <==> (old_deps[
                                                ci as int].contains(d) || d == pv));
                                            }
                                        }
                                    }
                                } else {
                                    assert(pv == cn);
                                    assert(st2 == st);
                                }
                            },
                            None => {
                                assert(st2 == st);
                            },
                        }
                    },
                    None => {
                        assert(st2 == st);
                    },
                }
            },
        }
        i = i + 1;
    }
    proof {
        assert(lseq.take(nl as int) =~= lseq);
    }
    // assemble the result entries in first-appearance order
    let mut r: Vec<DeplistEntry> = Vec::new();
    let mut k: usize = 0;
    while k < names.len()
        invariant
            0 <= k <= names.len(),
            names.len() == deps.len(),
            r.len() == k,
            forall|j: int|
                0 <= j < k ==> #[trigger] r.deep_view()[j].name == names.deep_view()[j]
                    && r.deep_view()[j].dependencies == deps.deep_view()[j],
        decreases names.len() - k,
    {
        let entry = DeplistEntry {
            name: names[k].clone(),
            dependencies: crate::pkg::to_displayable(&deps[k]),
        };
        let ghost old_rv = r.deep_view();
        proof {
            assert(entry@.name == names.deep_view()[k as int]);
            assert(deps@[k as int].deep_view() == deps.deep_view()[k as int]);
            assert(entry@.dependencies == deps.deep_view()[k as int]);
        }
        r.push(entry);
        proof {
            assert(r.deep_view() =~= old_rv.push(entry@));
        }
        k = k + 1;
    }
    proof {
        let rv = r.deep_view();
        let ghost m = parse_multi_spec(text@);
        assert forall|i2: int| 0 <= i2 < rv.len() implies sorted_unique(
            #[trigger] rv[i2].dependencies,
        ) by {
            assert(rv[i2].name == names.deep_view()[i2]);
            assert(rv[i2].dependencies == deps.deep_view()[i2]);
            assert(sorted_unique(deps.deep_view()[i2]));
        }
        assert forall|k2: Seq<char>| #[trigger] m.dom().contains(k2) implies exists|i2: int|
            0 <= i2 < rv.len() && #[trigger] rv[i2].name == k2 by {
            assert(names.deep_view().contains(k2));
            let j = choose|j: int|
                0 <= j < names.deep_view().len() && names.deep_view()[j] == k2;
            assert(rv[j].name == k2);
        }
        assert forall|i2: int| 0 <= i2 < rv.len() implies m.dom().contains(
            #[trigger] rv[i2].name,
        ) by {
            assert(names.deep_view().contains(names.deep_view()[i2]));
        }
    }
    r
}

} // verus!
