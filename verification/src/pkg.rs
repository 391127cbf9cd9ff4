//! The record types of the aggregation layer: canonical package identifiers,
//! categories, and one user-installed package's aggregated record.

use vstd::prelude::*;
use crate::text::{lex_lt, sorted_unique};

verus! {

/// A canonical package identifier.
pub struct DisplayablePackage {
    pub name: String,
}

impl View for DisplayablePackage {
    type V = Seq<char>;

    open spec fn view(&self) -> Seq<char> {
        self.name@
    }
}

impl DeepView for DisplayablePackage {
    type V = Seq<char>;

    open spec fn deep_view(&self) -> Seq<char> {
        self.name@
    }
}

impl Clone for DisplayablePackage {
    fn clone(&self) -> (r: Self)
        ensures
            r@ == self@,
    {
        DisplayablePackage { name: self.name.clone() }
    }
}

impl PartialEq for DisplayablePackage {
    fn eq(&self, other: &Self) -> (r: bool) {
        self.name == other.name
    }
}

impl vstd::std_specs::cmp::PartialEqSpecImpl for DisplayablePackage {
    open spec fn obeys_eq_spec() -> bool {
        true
    }

    open spec fn eq_spec(&self, other: &Self) -> bool {
        self.name@ == other.name@
    }
}

/// The closed set of functional categories a package is classified into.
#[derive(Clone, Copy, Debug, PartialEq, Eq, Hash, Structural)]
pub enum PackageCategory {
    Manual,
    DesktopEnvironment,
    System,
    Library,
    Development,
    Multimedia,
    Office,
    Games,
    Utility,
    Network,
    Security,
    OtherApplication,
    Unknown,
}

impl Default for PackageCategory {
    /// The fallback category.
    fn default() -> (r: Self)
        ensures
            r == PackageCategory::Unknown,
    {
        PackageCategory::Unknown
    }
}

/// The mathematical model of one aggregated package record.
pub struct PackageModel {
    pub name: Seq<char>,
    pub category: PackageCategory,
    pub dependencies: Seq<Seq<char>>,
}

/// A record is well formed when its dependency list is strictly sorted by
/// name (hence duplicate-free) and never lists the package itself.
pub open spec fn wf_package(m: PackageModel) -> bool {
    &&& sorted_unique(m.dependencies)
    &&& !m.dependencies.contains(m.name)
}

/// One user-installed package together with its category and its resolved
/// direct dependencies, sorted by name.
pub struct UserPackageWithDependencies {
    pub name: String,
    pub category: PackageCategory,
    pub dependencies: Vec<DisplayablePackage>,
}

impl View for UserPackageWithDependencies {
    type V = PackageModel;

    open spec fn view(&self) -> PackageModel {
        PackageModel {
            name: self.name@,
            category: self.category,
            dependencies: self.dependencies.deep_view(),
        }
    }
}

impl DeepView for UserPackageWithDependencies {
    type V = PackageModel;

    open spec fn deep_view(&self) -> PackageModel {
        self.view()
    }
}

impl Clone for UserPackageWithDependencies {
    fn clone(&self) -> (r: Self)
        ensures
            r@ == self@,
    {
        let mut deps: Vec<DisplayablePackage> = Vec::new();
        let mut i: usize = 0;
        while i < self.dependencies.len()
            invariant
                0 <= i <= self.dependencies.len(),
                deps.deep_view() =~= self.dependencies.deep_view().take(i as int),
            decreases self.dependencies.len() - i,
        {
            let ghost old_dv = deps.deep_view();
            deps.push(self.dependencies[i].clone());
            proof {
                assert(deps.deep_view() =~= old_dv.push(self.dependencies@[i as int].deep_view()));
                assert(deps.deep_view() =~= self.dependencies.deep_view().take(i + 1));
            }
            i = i + 1;
        }
        proof {
            assert(deps.deep_view() =~= self.dependencies.deep_view());
        }
        let r = UserPackageWithDependencies {
            name: self.name.clone(),
            category: self.category,
            dependencies: deps,
        };
        proof {
            assert(r@.dependencies =~= self@.dependencies);
        }
        r
    }
}

/// Wraps a list of names into identifier records, in order.
pub fn to_displayable(names: &Vec<String>) -> (r: Vec<DisplayablePackage>)
    ensures
        r.deep_view() == names.deep_view(),
{
    let mut r: Vec<DisplayablePackage> = Vec::new();
    let mut k: usize = 0;
    while k < names.len()
        invariant
            0 <= k <= names.len(),
            r.deep_view() =~= names.deep_view().take(k as int),
        decreases names.len() - k,
    {
        let ghost old_r = r.deep_view();
        r.push(DisplayablePackage { name: names[k].clone() });
        proof {
            assert(r.deep_view() =~= old_r.push(names.deep_view()[k as int]));
            assert(r.deep_view() =~= names.deep_view().take(k + 1));
        }
        k = k + 1;
    }
    proof {
        assert(r.deep_view() =~= names.deep_view());
    }
    r
}

/// The names of a sequence of records, in order.
pub open spec fn names_of(s: Seq<PackageModel>) -> Seq<Seq<char>> {
    Seq::new(s.len(), |i: int| s[i].name)
}

/// Inserts a record into a vector sorted strictly by package name, in front
/// of the first record that is not smaller.
pub fn insert_record_sorted(v: &mut Vec<UserPackageWithDependencies>, r: UserPackageWithDependencies)
    requires
        sorted_unique(names_of(old(v).deep_view())),
        !names_of(old(v).deep_view()).contains(r.name@),
    ensures
        sorted_unique(names_of(final(v).deep_view())),
        final(v).len() == old(v).len() + 1,
        forall|m: PackageModel|
            final(v).deep_view().contains(m) <==> (old(v).deep_view().contains(m) || m == r@),
{
    let ghost dv = v.deep_view();
    let ghost names = names_of(dv);
    let n = v.len();
    let mut idx: usize = 0;
    while idx < n && crate::text::str_lt(v[idx].name.as_str(), r.name.as_str())
        invariant
            0 <= idx <= n,
            n == v.len(),
            dv == v.deep_view(),
            names == names_of(dv),
            forall|j: int| 0 <= j < idx ==> lex_lt(names[j], r.name@),
        decreases n - idx,
    {
        assert(names[idx as int] == dv[idx as int].name);
        idx = idx + 1;
    }
    proof {
        if idx < n {
            assert(names[idx as int] == dv[idx as int].name);
            crate::text::lemma_lex_trichotomy(names[idx as int], r.name@);
            assert(names.contains(names[idx as int]));
            assert(lex_lt(r.name@, names[idx as int]));
        }
    }
    let ghost rm = r@;
    v.insert(idx, r);
    proof {
        let nv = v.deep_view();
        assert(nv =~= dv.insert(idx as int, rm));
        let nnames = names_of(nv);
        assert(nnames =~= names.insert(idx as int, rm.name));
        assert forall|i: int, j: int| 0 <= i < j < nnames.len() implies lex_lt(
            nnames[i],
            nnames[j],
        ) by {
            if j < idx {
            } else if i > idx {
            } else if i < idx && j == idx {
            } else if i == idx && j > idx {
                assert(nnames[j] == names[j - 1]);
                if j - 1 > idx {
                    assert(lex_lt(names[idx as int], names[j - 1]));
                    crate::text::lemma_lex_trans(rm.name, names[idx as int], names[j - 1]);
                }
            }
        }
        assert forall|m: PackageModel| nv.contains(m) implies (dv.contains(m) || m == rm) by {
            let k = choose|k: int| 0 <= k < nv.len() && nv[k] == m;
            if k < idx {
                assert(dv[k] == m);
            } else if k > idx {
                assert(dv[k - 1] == m);
            }
        }
        assert forall|m: PackageModel| dv.contains(m) implies nv.contains(m) by {
            let k = choose|k: int| 0 <= k < dv.len() && dv[k] == m;
            if k < idx {
                assert(nv[k] == m);
            } else {
                assert(nv[k + 1] == m);
            }
        }
        assert(nv.contains(rm)) by {
            assert(nv[idx as int] == rm);
        }
    }
}

} // verus!
