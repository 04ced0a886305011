//! The description of a whole run, its validation, and the plan of what is
//! to run.
use crate::cmd::CmdView;
use crate::concurrency::{members, ConcurrencyGroup, ConcurrencyGroupView};
use crate::env::{contains_name, wrap, wrap_in, Env, EnvView};
use crate::error::{test_error_text, TestError, TestErrorView};
use crate::input::ArgValueView;
use crate::shared::{resolve_groups, SharedInputs};
use crate::test::{Test, TestView};
use crate::text::{contains, is_substring, push_str_chars, string_of, to_chars};
use vstd::prelude::*;

verus! {

/// Why a configuration is refused before anything runs.
#[derive(Debug)]
pub enum ConfigError {
    /// More than one environment is global.
    MultipleGlobalEnvs,
    /// This test is listed by more than one environment.
    TestInSeveralEnvs(String),
    /// The references of a test's input groups cannot be resolved.
    Input(TestError),
}

/// The mathematical content of a [`ConfigError`].
pub enum ConfigErrorView {
    MultipleGlobalEnvs,
    TestInSeveralEnvs(Seq<char>),
    Input(TestErrorView),
}

impl View for ConfigError {
    type V = ConfigErrorView;

    open spec fn view(&self) -> ConfigErrorView {
        match self {
            ConfigError::MultipleGlobalEnvs => ConfigErrorView::MultipleGlobalEnvs,
            ConfigError::TestInSeveralEnvs(name) => ConfigErrorView::TestInSeveralEnvs(name@),
            ConfigError::Input(e) => ConfigErrorView::Input(e@),
        }
    }
}

/// The text by which a [`ConfigError`] is reported.
pub open spec fn config_error_text(e: ConfigErrorView) -> Seq<char> {
    match e {
        ConfigErrorView::MultipleGlobalEnvs => "Only one global env (with empty tests) is allowed"@,
        ConfigErrorView::TestInSeveralEnvs(name) => "Test '"@ + name
            + "' can only belong to one non-global env"@,
        ConfigErrorView::Input(e) => test_error_text(e),
    }
}

impl ConfigError {
    /// The text by which the error is reported.
    pub fn message(&self) -> (s: String)
        ensures
            s@ == config_error_text(self@),
    {
        match self {
            ConfigError::MultipleGlobalEnvs => {
                "Only one global env (with empty tests) is allowed".to_owned()
            },
            ConfigError::TestInSeveralEnvs(name) => {
                let mut v: Vec<char> = Vec::new();
                push_str_chars(&mut v, "Test '");
                push_str_chars(&mut v, name.as_str());
                push_str_chars(&mut v, "' can only belong to one non-global env");
                string_of(&v)
            },
            ConfigError::Input(e) => e.message(),
        }
    }
}

/// The description of a run: the tests, the groups that run together, the
/// environments, the shared input groups, whether tests run serially by
/// default, and the test to single out.
#[derive(Debug)]
pub struct Config {
    pub concurrences: Option<Vec<ConcurrencyGroup>>,
    pub envs: Vec<Env>,
    pub thread_env: Option<Env>,
    pub process_env: Option<Env>,
    pub shared_inputs: SharedInputs,
    pub tests: Vec<Test>,
    pub default_serial: bool,
    pub debug_test: Option<String>,
}

/// The mathematical content of a [`Config`].
pub struct ConfigView {
    pub concurrences: Option<Seq<ConcurrencyGroupView>>,
    pub envs: Seq<EnvView>,
    pub thread_env: Option<EnvView>,
    pub process_env: Option<EnvView>,
    pub shared_inputs: Seq<(Seq<char>, Seq<(Seq<char>, ArgValueView)>)>,
    pub tests: Seq<TestView>,
    pub default_serial: bool,
    pub debug_test: Option<Seq<char>>,
}

impl View for Config {
    type V = ConfigView;

    open spec fn view(&self) -> ConfigView {
        ConfigView {
            concurrences: self.concurrences.deep_view(),
            envs: self.envs.deep_view(),
            thread_env: self.thread_env.deep_view(),
            process_env: self.process_env.deep_view(),
            shared_inputs: self.shared_inputs@,
            tests: self.tests.deep_view(),
            default_serial: self.default_serial,
            debug_test: self.debug_test.deep_view(),
        }
    }
}

impl Default for Config {
    fn default() -> (c: Self)
        ensures
            c@.concurrences is None,
            c@.envs.len() == 0,
            c@.thread_env is None,
            c@.process_env is None,
            c@.shared_inputs.len() == 0,
            c@.tests.len() == 0,
            !c@.default_serial,
            c@.debug_test is None,
    {
        Config {
            concurrences: None,
            envs: Vec::new(),
            thread_env: None,
            process_env: None,
            shared_inputs: SharedInputs::new(),
            tests: Vec::new(),
            default_serial: false,
            debug_test: None,
        }
    }
}

/// How many of the environments are global.
pub open spec fn global_count(envs: Seq<EnvView>) -> nat
    decreases envs.len(),
{
    if envs.len() == 0 {
        0
    } else {
        global_count(envs.drop_last()) + if envs.last().tests.len() == 0 {
            1nat
        } else {
            0nat
        }
    }
}

/// How many of the environments list the test `name`.
pub open spec fn claim_count(envs: Seq<EnvView>, name: Seq<char>) -> nat
    decreases envs.len(),
{
    if envs.len() == 0 {
        0
    } else {
        claim_count(envs.drop_last(), name) + if envs.last().tests.contains(name) {
            1nat
        } else {
            0nat
        }
    }
}

/// The name of the first test that more than one environment lists.
pub open spec fn first_overclaimed(envs: Seq<EnvView>, tests: Seq<TestView>) -> Option<Seq<char>>
    decreases tests.len(),
{
    if tests.len() == 0 {
        None
    } else {
        match first_overclaimed(envs, tests.drop_last()) {
            Some(name) => Some(name),
            None => if claim_count(envs, tests.last().name) > 1 {
                Some(tests.last().name)
            } else {
                None
            },
        }
    }
}

/// What is wrong with the environments of a configuration, if anything: at
/// most one may be global, and each test may be listed by at most one.
pub open spec fn validation(envs: Seq<EnvView>, tests: Seq<TestView>) -> Option<ConfigErrorView> {
    if global_count(envs) > 1 {
        Some(ConfigErrorView::MultipleGlobalEnvs)
    } else {
        match first_overclaimed(envs, tests) {
            Some(name) => Some(ConfigErrorView::TestInSeveralEnvs(name)),
            None => None,
        }
    }
}

/// The commands of the test `name` inside every environment that lists it,
/// a later environment around an earlier one.
pub open spec fn apply_local(envs: Seq<EnvView>, name: Seq<char>, cmds: Seq<CmdView>) -> Seq<
    CmdView,
>
    decreases envs.len(),
{
    if envs.len() == 0 {
        cmds
    } else {
        let inner = apply_local(envs.drop_last(), name, cmds);
        if envs.last().tests.contains(name) {
            wrap(envs.last(), inner)
        } else {
            inner
        }
    }
}

/// The first global environment, if there is one.
pub open spec fn global_env(envs: Seq<EnvView>) -> Option<EnvView>
    decreases envs.len(),
{
    if envs.len() == 0 {
        None
    } else {
        match global_env(envs.drop_last()) {
            Some(e) => Some(e),
            None => if envs.last().tests.len() == 0 {
                Some(envs.last())
            } else {
                None
            },
        }
    }
}

/// A test with the environments spliced into its commands: the global
/// environment outermost, around the environments that list the test,
/// around the test's own commands.
pub open spec fn with_envs(envs: Seq<EnvView>, t: TestView) -> TestView {
    TestView { cmds: wrap_in(global_env(envs), apply_local(envs, t.name, t.cmds)), ..t }
}

/// Every test with the environments spliced in.
pub open spec fn apply_envs(envs: Seq<EnvView>, tests: Seq<TestView>) -> Seq<TestView> {
    Seq::new(tests.len(), |i: int| with_envs(envs, tests[i]))
}

impl Config {
    /// Checks the environments: at most one is global, and no test is
    /// listed by more than one.
    pub fn validate(&self) -> (r: Result<(), ConfigError>)
        ensures
            match validation(self@.envs, self@.tests) {
                None => r is Ok,
                Some(e) => r matches Err(err) && err@ == e,
            },
    {
        let mut globals: usize = 0;
        let mut i: usize = 0;
        while i < self.envs.len()
            invariant
                i <= self.envs.len(),
                globals <= i,
                globals == global_count(self@.envs.take(i as int)),
            decreases self.envs.len() - i,
        {
            let ghost upto = self@.envs.take(i + 1);
            assert(upto.drop_last() =~= self@.envs.take(i as int));
            if self.envs[i].is_global() {
                globals += 1;
            }
            i += 1;
        }
        assert(self@.envs.take(i as int) =~= self@.envs);
        if globals > 1 {
            return Err(ConfigError::MultipleGlobalEnvs);
        }
        let mut t: usize = 0;
        while t < self.tests.len()
            invariant
                t <= self.tests.len(),
                global_count(self@.envs) <= 1,
                first_overclaimed(self@.envs, self@.tests.take(t as int)) is None,
            decreases self.tests.len() - t,
        {
            let ghost upto = self@.tests.take(t + 1);
            assert(upto.drop_last() =~= self@.tests.take(t as int));
            let name = &self.tests[t].name;
            let mut claims: usize = 0;
            let mut e: usize = 0;
            while e < self.envs.len()
                invariant
                    e <= self.envs.len(),
                    claims <= e,
                    claims == claim_count(self@.envs.take(e as int), name@),
                decreases self.envs.len() - e,
            {
                let ghost envs_upto = self@.envs.take(e + 1);
                assert(envs_upto.drop_last() =~= self@.envs.take(e as int));
                if self.envs[e].claims(name.as_str()) {
                    claims += 1;
                }
                e += 1;
            }
            assert(self@.envs.take(e as int) =~= self@.envs);
            if claims > 1 {
                proof {
                    lemma_overclaimed_stays(self@.envs, self@.tests, t + 1);
                }
                return Err(ConfigError::TestInSeveralEnvs(name.clone()));
            }
            t += 1;
        }
        assert(self@.tests.take(t as int) =~= self@.tests);
        Ok(())
    }

    /// Puts the commands of `test` inside the environment `env`.
    pub fn set_env(test: &mut Test, env: &Env)
        ensures
            final(test)@ == (TestView { cmds: wrap(env@, old(test)@.cmds), ..old(test)@ }),
    {
        test.cmds = env.wrap(&test.cmds);
    }

    /// The tests with the environments spliced into their commands.
    pub fn apply_envs(&self) -> (out: Vec<Test>)
        ensures
            out.deep_view() == apply_envs(self@.envs, self@.tests),
    {
        let mut global: Option<usize> = None;
        let mut g: usize = 0;
        while g < self.envs.len()
            invariant
                g <= self.envs.len(),
                match global {
                    Some(i) => i < self.envs.len() && global_env(self@.envs.take(g as int))
                        == Some(self.envs[i as int]@),
                    None => global_env(self@.envs.take(g as int)) is None,
                },
            decreases self.envs.len() - g,
        {
            let ghost upto = self@.envs.take(g + 1);
            assert(upto.drop_last() =~= self@.envs.take(g as int));
            if global.is_none() && self.envs[g].is_global() {
                global = Some(g);
            }
            g += 1;
        }
        assert(self@.envs.take(g as int) =~= self@.envs);
        let mut out: Vec<Test> = Vec::new();
        let mut t: usize = 0;
        while t < self.tests.len()
            invariant
                t <= self.tests.len(),
                out.len() == t,
                match global {
                    Some(i) => i < self.envs.len() && global_env(self@.envs) == Some(
                        self.envs[i as int]@,
                    ),
                    None => global_env(self@.envs) is None,
                },
                forall|k: int|
                    0 <= k < t ==> (#[trigger] out[k])@ == with_envs(self@.envs, self.tests[k]@),
            decreases self.tests.len() - t,
        {
            let mut test = self.tests[t].clone();
            let mut e: usize = 0;
            while e < self.envs.len()
                invariant
                    e <= self.envs.len(),
                    t < self.tests.len(),
                    test@ == (TestView {
                        cmds: apply_local(
                            self@.envs.take(e as int),
                            self.tests[t as int]@.name,
                            self.tests[t as int]@.cmds,
                        ),
                        ..self.tests[t as int]@
                    }),
                decreases self.envs.len() - e,
            {
                let ghost envs_upto = self@.envs.take(e + 1);
                assert(envs_upto.drop_last() =~= self@.envs.take(e as int));
                if self.envs[e].claims(test.name.as_str()) {
                    Config::set_env(&mut test, &self.envs[e]);
                }
                e += 1;
            }
            assert(self@.envs.take(e as int) =~= self@.envs);
            match global {
                Some(i) => {
                    Config::set_env(&mut test, &self.envs[i]);
                },
                None => {},
            }
            out.push(test);
            t += 1;
        }
        out
    }
}

/// A test that is listed too often among the first `k` is the first such
/// test of all.
pub proof fn lemma_overclaimed_stays(envs: Seq<EnvView>, tests: Seq<TestView>, k: int)
    requires
        0 <= k <= tests.len(),
        first_overclaimed(envs, tests.take(k)) is Some,
    ensures
        first_overclaimed(envs, tests) == first_overclaimed(envs, tests.take(k)),
    decreases tests.len(),
{
    if k == tests.len() {
        assert(tests.take(k) =~= tests);
    } else {
        assert(tests.drop_last().take(k) =~= tests.take(k));
        lemma_overclaimed_stays(envs, tests.drop_last(), k);
    }
}

/// The members of one concurrency group, ready to run.
#[derive(Debug)]
pub struct GroupPlan {
    pub name: String,
    pub members: Vec<Test>,
}

/// The mathematical content of a [`GroupPlan`].
pub struct GroupPlanView {
    pub name: Seq<char>,
    pub members: Seq<TestView>,
}

impl DeepView for GroupPlan {
    type V = GroupPlanView;

    open spec fn deep_view(&self) -> GroupPlanView {
        GroupPlanView { name: self.name@, members: self.members.deep_view() }
    }
}

/// What is to run: the concurrency groups first, in order, then the tests
/// that run on their own, in order.
#[derive(Debug)]
pub struct Plan {
    pub groups: Vec<GroupPlan>,
    pub tests: Vec<Test>,
}

/// The mathematical content of a [`Plan`].
pub struct PlanView {
    pub groups: Seq<GroupPlanView>,
    pub tests: Seq<TestView>,
}

impl View for Plan {
    type V = PlanView;

    open spec fn view(&self) -> PlanView {
        PlanView { groups: self.groups.deep_view(), tests: self.tests.deep_view() }
    }
}

/// The tests with the references of their input groups resolved, or the
/// error of the first test that has one.
pub open spec fn resolve_tests(
    tests: Seq<TestView>,
    shared: Seq<(Seq<char>, Seq<(Seq<char>, ArgValueView)>)>,
) -> Result<Seq<TestView>, TestErrorView>
    decreases tests.len(),
{
    if tests.len() == 0 {
        Ok(Seq::empty())
    } else {
        match resolve_tests(tests.drop_last(), shared) {
            Err(e) => Err(e),
            Ok(head) => match resolve_groups(tests.last().inputs, shared) {
                Err(e) => Err(e),
                Ok(inputs) => Ok(head.push(TestView { inputs, ..tests.last() })),
            },
        }
    }
}

/// The names of the tests that the groups list, group after group.
pub open spec fn recorded(groups: Seq<ConcurrencyGroupView>) -> Seq<Seq<char>>
    decreases groups.len(),
{
    if groups.len() == 0 {
        Seq::empty()
    } else {
        recorded(groups.drop_last()) + groups.last().tests
    }
}

/// The tests whose name holds `word`, in order.
pub open spec fn singled_out(tests: Seq<TestView>, word: Seq<char>) -> Seq<TestView>
    decreases tests.len(),
{
    if tests.len() == 0 {
        Seq::empty()
    } else {
        singled_out(tests.drop_last(), word) + if is_substring(word, tests.last().name) {
            seq![tests.last()]
        } else {
            Seq::empty()
        }
    }
}

/// A test that runs on its own: serial where it does not say itself how it
/// runs, tests run serially by default, and it has one replica.
pub open spec fn mark_serial(t: TestView, default_serial: bool) -> TestView {
    if t.serial is None && default_serial && t.thread_num == 1 {
        TestView { serial: Some(true), ..t }
    } else {
        t
    }
}

/// The tests that no group has taken, in order, each marked as
/// [`mark_serial`] says.
pub open spec fn remaining(tests: Seq<TestView>, taken: Seq<Seq<char>>, default_serial: bool) -> Seq<
    TestView,
>
    decreases tests.len(),
{
    if tests.len() == 0 {
        Seq::empty()
    } else {
        remaining(tests.drop_last(), taken, default_serial) + if taken.contains(
            tests.last().name,
        ) {
            Seq::empty()
        } else {
            seq![mark_serial(tests.last(), default_serial)]
        }
    }
}

/// The plan of each group over the prepared tests.
pub open spec fn group_plans(groups: Seq<ConcurrencyGroupView>, tests: Seq<TestView>) -> Seq<
    GroupPlanView,
> {
    Seq::new(
        groups.len(),
        |i: int| GroupPlanView { name: groups[i].name, members: members(groups[i], tests) },
    )
}

/// The groups of a configuration, none where it declares none.
pub open spec fn declared_groups(c: ConfigView) -> Seq<ConcurrencyGroupView> {
    match c.concurrences {
        Some(groups) => groups,
        None => Seq::empty(),
    }
}

/// What a configuration asks to run. Nothing where it has no test. Else
/// its environments are checked and spliced into the tests, and the
/// references of the input groups are resolved; an error in either ends it.
/// Then, where a test is singled out, the tests whose name holds that word
/// run on their own and no group runs; otherwise every group gets its
/// members, and the tests that no group lists run on their own.
pub open spec fn plan_of(c: ConfigView) -> Result<PlanView, ConfigErrorView> {
    if c.tests.len() == 0 {
        Ok(PlanView { groups: Seq::empty(), tests: Seq::empty() })
    } else {
        match validation(c.envs, c.tests) {
            Some(e) => Err(e),
            None => match resolve_tests(apply_envs(c.envs, c.tests), c.shared_inputs) {
                Err(e) => Err(ConfigErrorView::Input(e)),
                Ok(tests) => match c.debug_test {
                    Some(word) => Ok(
                        PlanView { groups: Seq::empty(), tests: singled_out(tests, word) },
                    ),
                    None => Ok(
                        PlanView {
                            groups: group_plans(declared_groups(c), tests),
                            tests: remaining(
                                tests,
                                recorded(declared_groups(c)),
                                c.default_serial,
                            ),
                        },
                    ),
                },
            },
        }
    }
}

/// An error among the first `k` tests is the error of all.
pub proof fn lemma_resolve_error_stays(
    tests: Seq<TestView>,
    shared: Seq<(Seq<char>, Seq<(Seq<char>, ArgValueView)>)>,
    k: int,
)
    requires
        0 <= k <= tests.len(),
        resolve_tests(tests.take(k), shared) is Err,
    ensures
        resolve_tests(tests, shared) == resolve_tests(tests.take(k), shared),
    decreases tests.len(),
{
    if k == tests.len() {
        assert(tests.take(k) =~= tests);
    } else {
        assert(tests.drop_last().take(k) =~= tests.take(k));
        lemma_resolve_error_stays(tests.drop_last(), shared, k);
    }
}

impl Config {
    /// The tests with the environments spliced in and the references of
    /// their input groups resolved.
    pub fn prepared_tests(&self) -> (r: Result<Vec<Test>, TestError>)
        ensures
            match resolve_tests(apply_envs(self@.envs, self@.tests), self@.shared_inputs) {
                Ok(tests) => r matches Ok(got) && got.deep_view() == tests,
                Err(e) => r matches Err(err) && err@ == e,
            },
    {
        let tests = self.apply_envs();
        let ghost all = tests.deep_view();
        let mut out: Vec<Test> = Vec::new();
        let mut i: usize = 0;
        assert(out.deep_view() =~= Seq::<TestView>::empty());
        while i < tests.len()
            invariant
                i <= tests.len(),
                tests.deep_view() == all,
                all == apply_envs(self@.envs, self@.tests),
                resolve_tests(all.take(i as int), self@.shared_inputs) == Ok::<
                    Seq<TestView>,
                    TestErrorView,
                >(out.deep_view()),
            decreases tests.len() - i,
        {
            let ghost upto = all.take(i + 1);
            assert(upto.drop_last() =~= all.take(i as int));
            let ghost before = out.deep_view();
            let mut test = tests[i].clone();
            match test.resolve_refs(&self.shared_inputs) {
                Err(e) => {
                    proof {
                        lemma_resolve_error_stays(all, self@.shared_inputs, i + 1);
                    }
                    return Err(e);
                },
                Ok(()) => {
                    out.push(test);
                    assert(out.deep_view() =~= before.push(test@));
                },
            }
            i += 1;
        }
        assert(all.take(i as int) =~= all);
        Ok(out)
    }

    /// What the configuration asks to run, or why it is refused.
    pub fn plan(&self) -> (r: Result<Plan, ConfigError>)
        ensures
            match plan_of(self@) {
                Ok(plan) => r matches Ok(got) && got@ == plan,
                Err(e) => r matches Err(err) && err@ == e,
            },
    {
        if self.tests.len() == 0 {
            let plan = Plan { groups: Vec::new(), tests: Vec::new() };
            assert(plan.groups.deep_view() =~= Seq::<GroupPlanView>::empty());
            assert(plan.tests.deep_view() =~= Seq::<TestView>::empty());
            return Ok(plan);
        }
        match self.validate() {
            Err(e) => {
                return Err(e);
            },
            Ok(()) => {},
        }
        let tests = match self.prepared_tests() {
            Err(e) => {
                return Err(ConfigError::Input(e));
            },
            Ok(tests) => tests,
        };
        match &self.debug_test {
            Some(word) => {
                let groups: Vec<GroupPlan> = Vec::new();
                assert(groups.deep_view() =~= Seq::<GroupPlanView>::empty());
                Ok(Plan { groups, tests: single_out(&tests, word.as_str()) })
            },
            None => {
                let mut groups: Vec<GroupPlan> = Vec::new();
                let mut taken: Vec<String> = Vec::new();
                assert(taken.deep_view() =~= Seq::<Seq<char>>::empty());
                match &self.concurrences {
                    Some(declared) => {
                        let mut i: usize = 0;
                        while i < declared.len()
                            invariant
                                i <= declared.len(),
                                groups.len() == i,
                                forall|k: int|
                                    0 <= k < i ==> (#[trigger] groups[k]).deep_view() == (
                                    GroupPlanView {
                                        name: declared[k]@.name,
                                        members: members(declared[k]@, tests.deep_view()),
                                    }),
                                taken.deep_view() == recorded(declared.deep_view().take(i as int)),
                            decreases declared.len() - i,
                        {
                            let ghost upto = declared.deep_view().take(i + 1);
                            assert(upto.drop_last() =~= declared.deep_view().take(i as int));
                            groups.push(
                                GroupPlan {
                                    name: declared[i].name.clone(),
                                    members: declared[i].members(&tests),
                                },
                            );
                            declared[i].record_test(&mut taken);
                            i += 1;
                        }
                        assert(declared.deep_view().take(i as int) =~= declared.deep_view());
                        assert(groups.deep_view() =~= group_plans(
                            declared.deep_view(),
                            tests.deep_view(),
                        ));
                    },
                    None => {
                        assert(groups.deep_view() =~= group_plans(
                            Seq::empty(),
                            tests.deep_view(),
                        ));
                    },
                }
                Ok(Plan { groups, tests: leave_remaining(&tests, &taken, self.default_serial) })
            },
        }
    }
}

/// The tests whose name holds `word`, in order.
pub fn single_out(tests: &Vec<Test>, word: &str) -> (out: Vec<Test>)
    ensures
        out.deep_view() == singled_out(tests.deep_view(), word@),
{
    let pat = to_chars(word);
    let mut out: Vec<Test> = Vec::new();
    let mut i: usize = 0;
    while i < tests.len()
        invariant
            i <= tests.len(),
            pat@ == word@,
            out.deep_view() == singled_out(tests.deep_view().take(i as int), word@),
        decreases tests.len() - i,
    {
        let ghost upto = tests.deep_view().take(i + 1);
        assert(upto.drop_last() =~= tests.deep_view().take(i as int));
        if contains(&to_chars(tests[i].name.as_str()), &pat) {
            out.push(tests[i].clone());
        }
        i += 1;
    }
    assert(tests.deep_view().take(i as int) =~= tests.deep_view());
    out
}

/// The tests whose name is not among `taken`, in order, each marked serial
/// where it is to run serially by default.
pub fn leave_remaining(tests: &Vec<Test>, taken: &Vec<String>, default_serial: bool) -> (out: Vec<
    Test,
>)
    ensures
        out.deep_view() == remaining(tests.deep_view(), taken.deep_view(), default_serial),
{
    let mut out: Vec<Test> = Vec::new();
    let mut i: usize = 0;
    while i < tests.len()
        invariant
            i <= tests.len(),
            out.deep_view() == remaining(
                tests.deep_view().take(i as int),
                taken.deep_view(),
                default_serial,
            ),
        decreases tests.len() - i,
    {
        let ghost upto = tests.deep_view().take(i + 1);
        assert(upto.drop_last() =~= tests.deep_view().take(i as int));
        if !contains_name(taken, tests[i].name.as_str()) {
            let mut test = tests[i].clone();
            if test.serial.is_none() && default_serial && test.thread_num == 1 {
                test.serial = Some(true);
            }
            out.push(test);
        }
        i += 1;
    }
    assert(tests.deep_view().take(i as int) =~= tests.deep_view());
    out
}

/// The first environment that lists the test `name`, if there is one.
pub open spec fn local_env(envs: Seq<EnvView>, name: Seq<char>) -> Option<EnvView>
    decreases envs.len(),
{
    if envs.len() == 0 {
        None
    } else {
        match local_env(envs.drop_last(), name) {
            Some(e) => Some(e),
            None => if envs.last().tests.contains(name) {
                Some(envs.last())
            } else {
                None
            },
        }
    }
}

/// Where at most one environment lists a test, the test's commands get
/// that environment around them, or stay as they are where there is none.
pub proof fn lemma_one_local_env(envs: Seq<EnvView>, name: Seq<char>, cmds: Seq<CmdView>)
    requires
        claim_count(envs, name) <= 1,
    ensures
        apply_local(envs, name, cmds) == wrap_in(local_env(envs, name), cmds),
        local_env(envs, name) is None <==> claim_count(envs, name) == 0,
    decreases envs.len(),
{
    if envs.len() > 0 {
        lemma_one_local_env(envs.drop_last(), name, cmds);
    }
}

/// A test that is not the first to be listed too often is listed at most
/// once.
pub proof fn lemma_validated_claims(envs: Seq<EnvView>, tests: Seq<TestView>, i: int)
    requires
        first_overclaimed(envs, tests) is None,
        0 <= i < tests.len(),
    ensures
        claim_count(envs, tests[i].name) <= 1,
    decreases tests.len(),
{
    if i < tests.len() - 1 {
        assert(tests.drop_last()[i] == tests[i]);
        lemma_validated_claims(envs, tests.drop_last(), i);
    }
}

/// Environments nest, the global one outside the local one: in a
/// configuration that passes validation, the commands of every test are the
/// set-up of the global environment, the set-up of the environment that
/// lists the test, the test's own commands, that environment's tear-down,
/// and the global environment's tear-down, where there are such
/// environments.
pub proof fn lemma_environments_nest(envs: Seq<EnvView>, tests: Seq<TestView>, i: int)
    requires
        validation(envs, tests) is None,
        0 <= i < tests.len(),
    ensures
        apply_envs(envs, tests)[i].cmds == wrap_in(
            global_env(envs),
            wrap_in(local_env(envs, tests[i].name), tests[i].cmds),
        ),
{
    lemma_validated_claims(envs, tests, i);
    lemma_one_local_env(envs, tests[i].name, tests[i].cmds);
}

} // verus!
