//! The fetch orchestrator, modelled as a step-wise plan.  The driver asks
//! the plan for work with `start` (refused once `concurrency_limit` queries
//! are in flight), runs the two external queries for the name it was
//! handed, and reports the raw outputs back with `complete`; the plan
//! parses, classifies and files the record.  `finish` hands out the
//! records, sorted by name, one per distinct candidate.

use vstd::prelude::*;
use vstd::string::*;
use crate::classify::{classify_group, classify_spec};
use crate::parse::{is_single_dep, parse_rpm_requires_output};
use crate::pkg::{
    insert_record_sorted, names_of, PackageCategory, PackageModel, UserPackageWithDependencies,
};
use crate::text::{sorted_unique, str_eq};

verus! {

/// No name occurs twice.
pub open spec fn distinct_names(s: Seq<Seq<char>>) -> bool {
    forall|i: int, j: int| 0 <= i < j < s.len() ==> s[i] != s[j]
}

/// What the record assembled for `name` must hold, given the raw output of
/// the dependency query and of the category query (`None` for a query that
/// failed): the category classifies the raw group answer, a failed category
/// query falls back to the unknown category, and the dependencies are
/// exactly what the requirement parser yields, sorted, a failed dependency
/// query yielding none.
pub open spec fn record_matches(
    m: PackageModel,
    name: Seq<char>,
    deps_output: Option<Seq<char>>,
    group_output: Option<Seq<char>>,
) -> bool {
    &&& m.name == name
    &&& m.category == (match group_output {
        Some(g) => classify_spec(g),
        None => PackageCategory::Unknown,
    })
    &&& sorted_unique(m.dependencies)
    &&& forall|d: Seq<char>|
        m.dependencies.contains(d) <==> (match deps_output {
            Some(t) => is_single_dep(t, name, d),
            None => false,
        })
}

/// The bounded-concurrency fetch plan.
pub struct FetchPlan {
    /// Candidate names not yet handed out.
    pub pending: Vec<String>,
    /// Names handed out whose queries have not been reported back.
    pub in_flight: Vec<String>,
    /// Assembled records, sorted by name.
    pub done: Vec<UserPackageWithDependencies>,
    /// The ceiling on simultaneously in-flight queries.
    pub limit: usize,
}

impl FetchPlan {
    /// The plan is charged with `n`: it is pending, in flight, or done.
    pub open spec fn charged(self, n: Seq<char>) -> bool {
        self.pending.deep_view().contains(n) || self.in_flight.deep_view().contains(n)
            || names_of(self.done.deep_view()).contains(n)
    }

    /// The plan's invariant: the ceiling is positive and never exceeded by
    /// the in-flight queries, no name is charged twice, and the finished
    /// records are sorted by name.
    pub open spec fn wf(self) -> bool {
        &&& self.limit >= 1
        &&& self.in_flight.len() <= self.limit
        &&& distinct_names(self.pending.deep_view())
        &&& distinct_names(self.in_flight.deep_view())
        &&& sorted_unique(names_of(self.done.deep_view()))
        &&& forall|n: Seq<char>|
            !(self.pending.deep_view().contains(n) && self.in_flight.deep_view().contains(n))
        &&& forall|n: Seq<char>|
            !(self.pending.deep_view().contains(n) && names_of(self.done.deep_view()).contains(n))
        &&& forall|n: Seq<char>|
            !(self.in_flight.deep_view().contains(n) && names_of(self.done.deep_view()).contains(
                n,
            ))
    }

    /// A well-formed plan never has more queries in flight than its
    /// ceiling; since `start` refuses work at the ceiling and keeps the
    /// plan well formed, no driver can exceed it.
    pub proof fn lemma_in_flight_bounded(self)
        requires
            self.wf(),
        ensures
            self.in_flight.len() <= self.limit,
    {
    }

    /// Charges a plan with the distinct names among `candidates`; nothing
    /// is in flight or done yet.
    pub fn new(candidates: Vec<String>, concurrency_limit: usize) -> (r: Self)
        requires
            concurrency_limit >= 1,
        ensures
            r.wf(),
            r.in_flight.len() == 0,
            r.done.len() == 0,
            r.limit == concurrency_limit,
            forall|n: Seq<char>|
                r.pending.deep_view().contains(n) <==> candidates.deep_view().contains(n),
    {
        let mut pending: Vec<String> = Vec::new();
        let mut i: usize = 0;
        while i < candidates.len()
            invariant
                0 <= i <= candidates.len(),
                distinct_names(pending.deep_view()),
                forall|n: Seq<char>|
                    pending.deep_view().contains(n) <==> candidates.deep_view().take(
                        i as int,
                    ).contains(n),
            decreases candidates.len() - i,
        {
            let ghost before = pending.deep_view();
            let ghost cv = candidates.deep_view();
            let mut seen = false;
            let mut k: usize = 0;
            while k < pending.len()
                invariant
                    0 <= k <= pending.len(),
                    before == pending.deep_view(),
                    cv == candidates.deep_view(),
                    i < candidates.len(),
                    seen ==> pending.deep_view().contains(cv[i as int]),
                    !seen ==> forall|j: int| 0 <= j < k ==> pending.deep_view()[j] != cv[i as int],
                decreases pending.len() - k,
            {
                if str_eq(pending[k].as_str(), candidates[i].as_str()) {
                    assert(pending.deep_view()[k as int] == cv[i as int]);
                    seen = true;
                    k = pending.len();
                } else {
                    assert(pending.deep_view()[k as int] != cv[i as int]);
                    k = k + 1;
                }
            }
            if !seen {
                pending.push(candidates[i].clone());
                proof {
                    assert(pending.deep_view() =~= before.push(cv[i as int]));
                    assert forall|p: int, q: int|
                        0 <= p < q < pending.deep_view().len() implies pending.deep_view()[p]
                        != pending.deep_view()[q] by {
                        if q == pending.deep_view().len() - 1 {
                            assert(pending.deep_view()[p] == before[p]);
                        }
                    }
                }
            }
            proof {
                assert forall|n: Seq<char>| pending.deep_view().contains(n) implies cv.take(
                    i + 1,
                ).contains(n) by {
                    if before.contains(n) {
                        let j = choose|j: int|
                            0 <= j < cv.take(i as int).len() && cv.take(i as int)[j] == n;
                        assert(cv.take(i + 1)[j] == n);
                    } else {
                        assert(n == cv[i as int]);
                        assert(cv.take(i + 1)[i as int] == n);
                    }
                }
                assert forall|n: Seq<char>| cv.take(i + 1).contains(n) implies pending.deep_view(
                ).contains(n) by {
                    let j = choose|j: int| 0 <= j < i + 1 && #[trigger] cv.take(i + 1)[j] == n;
                    if j < i {
                        assert(cv.take(i as int)[j] == n);
                        assert(before.contains(n));
                        if !seen {
                            let x = choose|x: int| 0 <= x < before.len() && before[x] == n;
                            assert(pending.deep_view()[x] == n);
                        }
                    } else {
                        assert(n == cv[i as int]);
                        if seen {
                            assert(before.contains(n));
                        } else {
                            assert(pending.deep_view()[pending.deep_view().len() - 1] == n);
                        }
                    }
                }
            }
            i = i + 1;
        }
        proof {
            assert(candidates.deep_view().take(candidates.len() as int) =~= candidates.deep_view());
        }
        let r = FetchPlan {
            pending,
            in_flight: Vec::new(),
            done: Vec::new(),
            limit: concurrency_limit,
        };
        proof {
            assert(r.in_flight.deep_view() =~= Seq::<Seq<char>>::empty());
            assert(r.done.deep_view() =~= Seq::<PackageModel>::empty());
            assert(names_of(r.done.deep_view()) =~= Seq::<Seq<char>>::empty());
        }
        r
    }

    /// Hands out the next candidate if one is pending and the ceiling
    /// admits another in-flight query; the name moves from pending to in
    /// flight.  With the ceiling reached, nothing is handed out: at no
    /// instant are more than `limit` queries in flight.
    pub fn start(&mut self) -> (r: Option<String>)
        requires
            old(self).wf(),
        ensures
            final(self).wf(),
            final(self).limit == old(self).limit,
            final(self).done == old(self).done,
            forall|n: Seq<char>| final(self).charged(n) <==> old(self).charged(n),
            final(self).pending.len() + final(self).in_flight.len() + final(self).done.len()
                == old(self).pending.len() + old(self).in_flight.len() + old(self).done.len(),
            match r {
                Some(n) => {
                    &&& old(self).pending.len() > 0
                    &&& old(self).in_flight.len() < old(self).limit
                    &&& n@ == old(self).pending.deep_view().last()
                    &&& final(self).pending.deep_view() == old(self).pending.deep_view().drop_last()
                    &&& final(self).in_flight.deep_view() == old(self).in_flight.deep_view().push(
                        n@,
                    )
                },
                None => {
                    &&& (old(self).pending.len() == 0 || old(self).in_flight.len() >= old(
                        self,
                    ).limit)
                    &&& *final(self) == *old(self)
                },
            },
    {
        if self.pending.len() == 0 || self.in_flight.len() >= self.limit {
            return None;
        }
        let ghost p0 = self.pending.deep_view();
        let ghost f0 = self.in_flight.deep_view();
        let name = self.pending.pop().unwrap();
        let out = name.clone();
        self.in_flight.push(name);
        proof {
            let nv = name@;
            assert(self.pending.deep_view() =~= p0.drop_last());
            assert(self.in_flight.deep_view() =~= f0.push(nv));
            assert(nv == p0.last());
            assert(p0.contains(nv)) by {
                assert(p0[p0.len() - 1] == nv);
            }
            assert(!f0.contains(nv));
            assert forall|i: int, j: int|
                0 <= i < j < self.in_flight.deep_view().len() implies self.in_flight.deep_view()[i]
                != self.in_flight.deep_view()[j] by {
                if j == f0.len() {
                    assert(self.in_flight.deep_view()[i] == f0[i]);
                    assert(f0.contains(f0[i]));
                }
            }
            assert forall|n: Seq<char>| !(self.pending.deep_view().contains(n)
                && self.in_flight.deep_view().contains(n)) by {
                if self.pending.deep_view().contains(n) {
                    let x = choose|x: int|
                        0 <= x < p0.drop_last().len() && p0.drop_last()[x] == n;
                    assert(p0[x] == n);
                    assert(n != nv);
                    if self.in_flight.deep_view().contains(n) {
                        let y = choose|y: int|
                            0 <= y < f0.len() + 1 && self.in_flight.deep_view()[y] == n;
                        assert(y < f0.len());
                        assert(f0[y] == n);
                        assert(f0.contains(n));
                        assert(false);
                    }
                }
            }
            assert forall|n: Seq<char>| !(self.pending.deep_view().contains(n) && names_of(
                self.done.deep_view(),
            ).contains(n)) by {
                if self.pending.deep_view().contains(n) {
                    let x = choose|x: int|
                        0 <= x < p0.drop_last().len() && p0.drop_last()[x] == n;
                    assert(p0[x] == n);
                    assert(p0.contains(n));
                }
            }
            assert forall|n: Seq<char>| !(self.in_flight.deep_view().contains(n) && names_of(
                self.done.deep_view(),
            ).contains(n)) by {
                if self.in_flight.deep_view().contains(n) {
                    let y = choose|y: int|
                        0 <= y < f0.len() + 1 && self.in_flight.deep_view()[y] == n;
                    if y < f0.len() {
                        assert(f0[y] == n);
                        assert(f0.contains(n));
                    } else {
                        assert(n == nv);
                        assert(p0.contains(nv));
                    }
                }
            }
            assert forall|n: Seq<char>| final(self).charged(n) implies old(self).charged(n) by {
                if self.pending.deep_view().contains(n) {
                    let x = choose|x: int|
                        0 <= x < p0.drop_last().len() && p0.drop_last()[x] == n;
                    assert(p0[x] == n);
                    assert(p0.contains(n));
                } else if self.in_flight.deep_view().contains(n) {
                    let y = choose|y: int|
                        0 <= y < f0.len() + 1 && self.in_flight.deep_view()[y] == n;
                    if y < f0.len() {
                        assert(f0[y] == n);
                        assert(f0.contains(n));
                    } else {
                        assert(n == nv);
                        assert(p0.contains(nv));
                    }
                }
            }
            assert forall|n: Seq<char>| old(self).charged(n) implies final(self).charged(n) by {
                if p0.contains(n) {
                    let x = choose|x: int| 0 <= x < p0.len() && p0[x] == n;
                    if x < p0.len() - 1 {
                        assert(p0.drop_last()[x] == n);
                        assert(self.pending.deep_view().contains(n));
                    } else {
                        assert(n == nv);
                        assert(self.in_flight.deep_view()[f0.len() as int] == nv);
                    }
                } else if f0.contains(n) {
                    let y = choose|y: int| 0 <= y < f0.len() && f0[y] == n;
                    assert(self.in_flight.deep_view()[y] == n);
                }
            }
        }
        Some(out)
    }

    /// Reports the two query outputs for an in-flight name back to the
    /// plan (`None` for a query that failed or exited nonzero): the name
    /// leaves the in-flight pool, and its assembled record joins the done
    /// records, in name order.
    pub fn complete(&mut self, name: &str, deps_output: Option<&str>, group_output: Option<&str>)
        requires
            old(self).wf(),
            old(self).in_flight.deep_view().contains(name@),
        ensures
            final(self).wf(),
            final(self).limit == old(self).limit,
            final(self).pending == old(self).pending,
            final(self).in_flight.len() == old(self).in_flight.len() - 1,
            final(self).done.len() == old(self).done.len() + 1,
            forall|n: Seq<char>| final(self).charged(n) <==> old(self).charged(n),
            forall|n: Seq<char>|
                final(self).in_flight.deep_view().contains(n) <==> (old(
                    self,
                ).in_flight.deep_view().contains(n) && n != name@),
            forall|m: PackageModel|
                old(self).done.deep_view().contains(m) ==> final(self).done.deep_view().contains(
                    m,
                ),
            forall|m: PackageModel|
                final(self).done.deep_view().contains(m) && !old(self).done.deep_view().contains(
                    m,
                ) ==> record_matches(
                    m,
                    name@,
                    match deps_output {
                        Some(t) => Some(t@),
                        None => None,
                    },
                    match group_output {
                        Some(g) => Some(g@),
                        None => None,
                    },
                ),
    {
        let ghost f0 = self.in_flight.deep_view();
        let ghost d0 = self.done.deep_view();
        // drop the name from the in-flight pool
        let mut ix: usize = 0;
        let mut found = false;
        let nf = self.in_flight.len();
        while !found && ix < nf
            invariant
                0 <= ix <= nf,
                nf == self.in_flight.len(),
                f0 == self.in_flight.deep_view(),
                f0.contains(name@),
                found ==> ix < nf && f0[ix as int] == name@,
                !found ==> forall|j: int| 0 <= j < ix ==> f0[j] != name@,
            decreases nf - ix + (if found {
                0int
            } else {
                1int
            }),
        {
            assert(f0[ix as int] == self.in_flight[ix as int]@);
            if str_eq(self.in_flight[ix].as_str(), name) {
                found = true;
            } else {
                ix = ix + 1;
            }
        }
        proof {
            if !found {
                let x = choose|x: int| 0 <= x < f0.len() && f0[x] == name@;
                assert(false);
            }
            assert(f0[ix as int] == name@);
        }
        self.in_flight.remove(ix);
        proof {
            assert(self.in_flight.deep_view() =~= f0.remove(ix as int));
        }
        // assemble the record
        let dependencies = match deps_output {
            Some(t) => parse_rpm_requires_output(t, name),
            None => Vec::new(),
        };
        let category = match group_output {
            Some(g) => classify_group(g),
            None => PackageCategory::Unknown,
        };
        let record = UserPackageWithDependencies {
            name: String::from_str(name),
            category,
            dependencies,
        };
        let ghost rm = record@;
        proof {
            assert(rm.dependencies =~= record.dependencies.deep_view());
            if deps_output is None {
                assert(record.dependencies.deep_view() =~= Seq::<Seq<char>>::empty());
            }
            assert(record_matches(
                rm,
                name@,
                match deps_output {
                    Some(t) => Some(t@),
                    None => None,
                },
                match group_output {
                    Some(g) => Some(g@),
                    None => None,
                },
            ));
            assert(!names_of(d0).contains(name@)) by {
                assert(f0.contains(name@));
            }
        }
        insert_record_sorted(&mut self.done, record);
        proof {
            let f1 = self.in_flight.deep_view();
            let d1 = self.done.deep_view();
            assert forall|n: Seq<char>| f1.contains(n) implies (f0.contains(n) && n != name@) by {
                let y = choose|y: int| 0 <= y < f1.len() && f1[y] == n;
                if y < ix {
                    assert(f0[y] == n);
                } else {
                    assert(f0[y + 1] == n);
                }
                assert(f0.contains(n));
                if n == name@ {
                    if y < ix {
                        assert(f0[y] != name@);
                    } else {
                        assert(distinct_names(f0));
                        assert(f0[ix as int] == name@);
                        assert(f0[y + 1] == name@);
                        assert(false);
                    }
                }
            }
            assert forall|n: Seq<char>| f0.contains(n) && n != name@ implies f1.contains(n) by {
                let y = choose|y: int| 0 <= y < f0.len() && f0[y] == n;
                assert(y != ix);
                if y < ix {
                    assert(f1[y] == n);
                } else {
                    assert(f1[y - 1] == n);
                }
            }
            assert forall|i: int, j: int| 0 <= i < j < f1.len() implies f1[i] != f1[j] by {
                assert(f1.contains(f1[i]));
                let oi: int = if i < ix { i } else { i + 1 };
                let oj: int = if j < ix { j } else { j + 1 };
                assert(f1[i] == f0[oi]);
                assert(f1[j] == f0[oj]);
            }
            assert forall|n: Seq<char>| names_of(d1).contains(n) implies (names_of(d0).contains(n)
                || n == name@) by {
                let y = choose|y: int| 0 <= y < d1.len() && names_of(d1)[y] == n;
                assert(d1.contains(d1[y]));
                if d1[y] == rm {
                    assert(n == name@);
                } else {
                    assert(d0.contains(d1[y]));
                    let x = choose|x: int| 0 <= x < d0.len() && d0[x] == d1[y];
                    assert(names_of(d0)[x] == n);
                }
            }
            assert forall|n: Seq<char>| names_of(d0).contains(n) || n == name@ implies names_of(
                d1,
            ).contains(n) by {
                if names_of(d0).contains(n) {
                    let x = choose|x: int| 0 <= x < d0.len() && names_of(d0)[x] == n;
                    assert(d0[x].name == n);
                    assert(d1.contains(d0[x]));
                    let y = choose|y: int| 0 <= y < d1.len() && d1[y] == d0[x];
                    assert(names_of(d1)[y] == n);
                } else {
                    assert(d1.contains(rm));
                    let y = choose|y: int| 0 <= y < d1.len() && d1[y] == rm;
                    assert(names_of(d1)[y] == name@);
                }
            }
            assert forall|m: PackageModel| d1.contains(m) && !d0.contains(m) implies m == rm by {
            }
            assert forall|n: Seq<char>| final(self).charged(n) implies old(self).charged(n) by {
                if f1.contains(n) {
                    assert(f0.contains(n));
                } else if names_of(d1).contains(n) {
                    if n == name@ {
                        assert(f0.contains(n));
                    }
                }
            }
            assert forall|n: Seq<char>| old(self).charged(n) implies final(self).charged(n) by {
                if f0.contains(n) {
                    if n == name@ {
                        assert(names_of(d1).contains(n));
                    } else {
                        assert(f1.contains(n));
                    }
                } else if names_of(d0).contains(n) {
                    assert(names_of(d1).contains(n));
                }
            }
        }
    }

    /// Hands out the finished records once every candidate has been
    /// handed out and reported back: one record per distinct candidate,
    /// sorted by name.
    pub fn finish(self) -> (r: Vec<UserPackageWithDependencies>)
        requires
            self.wf(),
            self.pending.len() == 0,
            self.in_flight.len() == 0,
        ensures
            r == self.done,
            sorted_unique(names_of(r.deep_view())),
            forall|n: Seq<char>| names_of(r.deep_view()).contains(n) <==> self.charged(n),
    {
        proof {
            assert forall|n: Seq<char>| self.charged(n) implies names_of(
                self.done.deep_view(),
            ).contains(n) by {
                if self.pending.deep_view().contains(n) {
                    let x = choose|x: int|
                        0 <= x < self.pending.deep_view().len() && self.pending.deep_view()[x]
                            == n;
                    assert(false);
                } else if self.in_flight.deep_view().contains(n) {
                    let x = choose|x: int|
                        0 <= x < self.in_flight.deep_view().len() && self.in_flight.deep_view()[x]
                            == n;
                    assert(false);
                }
            }
        }
        self.done
    }
}

} // verus!
