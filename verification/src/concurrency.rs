//! Concurrency groups: tests that run together as one scheduling unit.
use crate::env::contains_name;
use crate::schedule::{all_instances, is_plan_of, plan_together, tests_are_finite, within_cap};
use crate::test::{Test, TestView};
use crate::text::join_with;
use vstd::prelude::*;

verus! {

/// The name of a group that declares none.
pub fn default_name() -> (name: String)
    ensures
        name@ == "default_group"@,
{
    "default_group".to_owned()
}

/// A named set of tests, by name, that run together.
#[derive(Debug)]
pub struct ConcurrencyGroup {
    pub tests: Vec<String>,
    pub name: String,
}

/// The mathematical content of a [`ConcurrencyGroup`].
pub struct ConcurrencyGroupView {
    pub tests: Seq<Seq<char>>,
    pub name: Seq<char>,
}

impl DeepView for ConcurrencyGroup {
    type V = ConcurrencyGroupView;

    open spec fn deep_view(&self) -> ConcurrencyGroupView {
        ConcurrencyGroupView { tests: self.tests.deep_view(), name: self.name@ }
    }
}

impl View for ConcurrencyGroup {
    type V = ConcurrencyGroupView;

    open spec fn view(&self) -> ConcurrencyGroupView {
        self.deep_view()
    }
}

impl Clone for ConcurrencyGroup {
    fn clone(&self) -> (r: Self)
        ensures
            r@ == self@,
    {
        ConcurrencyGroup {
            tests: crate::input::clone_strings(&self.tests),
            name: self.name.clone(),
        }
    }
}

/// A test as a member of a group: under the group's name and its own.
pub open spec fn as_member(group: ConcurrencyGroupView, t: TestView) -> TestView {
    TestView { name: group.name + seq!['_'] + t.name, ..t }
}

/// The members of a group among `tests`: every test that the group names,
/// in the order of `tests`, each under its name as a member.
pub open spec fn members(group: ConcurrencyGroupView, tests: Seq<TestView>) -> Seq<TestView>
    decreases tests.len(),
{
    if tests.len() == 0 {
        Seq::empty()
    } else {
        members(group, tests.drop_last()) + if group.tests.contains(tests.last().name) {
            seq![as_member(group, tests.last())]
        } else {
            Seq::empty()
        }
    }
}

impl ConcurrencyGroup {
    /// The members of the group among `tests`.
    pub fn members(&self, tests: &Vec<Test>) -> (out: Vec<Test>)
        ensures
            out.deep_view() == members(self@, tests.deep_view()),
    {
        let mut out: Vec<Test> = Vec::new();
        let mut i: usize = 0;
        while i < tests.len()
            invariant
                i <= tests.len(),
                out.deep_view() == members(self@, tests.deep_view().take(i as int)),
            decreases tests.len() - i,
        {
            let ghost upto = tests.deep_view().take(i + 1);
            assert(upto.drop_last() =~= tests.deep_view().take(i as int));
            if contains_name(&self.tests, tests[i].name.as_str()) {
                let mut member = tests[i].clone();
                member.name = join_with(self.name.as_str(), '_', tests[i].name.as_str());
                out.push(member);
            }
            i += 1;
        }
        assert(tests.deep_view().take(i as int) =~= tests.deep_view());
        out
    }

    /// Adds the names of the group's tests to `tests`.
    pub fn record_test(&self, tests: &mut Vec<String>)
        ensures
            final(tests).deep_view() == old(tests).deep_view() + self@.tests,
    {
        let mut i: usize = 0;
        while i < self.tests.len()
            invariant
                i <= self.tests.len(),
                tests.deep_view() == old(tests).deep_view() + self@.tests.take(i as int),
            decreases self.tests.len() - i,
        {
            let ghost before = tests.deep_view();
            tests.push(self.tests[i].clone());
            assert(tests.deep_view() =~= before.push(self.tests[i as int]@));
            i += 1;
        }
    }

    /// The chunks in which the group runs. The units are the instances of
    /// its members, so that under a cap no more instances than the cap
    /// allows run at a time, and as many instances run as the members have
    /// together. A group that names none of `tests` has nothing to run.
    pub fn plan(&self, tests: &Vec<Test>, max_threads: Option<usize>) -> (chunks: Vec<Vec<Test>>)
        requires
            tests_are_finite(members(self@, tests.deep_view())),
            max_threads != Some(0usize),
        ensures
            is_plan_of(
                chunks.deep_view(),
                all_instances(members(self@, tests.deep_view())),
                max_threads,
            ),
            within_cap(chunks.deep_view(), max_threads),
            chunks.deep_view().flatten().len() == all_instances(
                members(self@, tests.deep_view()),
            ).len(),
    {
        plan_together(&self.members(tests), max_threads)
    }
}

} // verus!
