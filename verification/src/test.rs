//! Tests: a template of commands with its input groups, the concrete
//! sub-tests it stands for, and the instances that are run.
use crate::cmd::{clone_cmds, substitute_cmd, Cmd, CmdView};
use crate::expand::{expand_all, finite_ranges};
use crate::input::{InputGroup, InputGroupView};
use crate::text::join_with;
use vstd::prelude::*;

verus! {

/// The value a test gets where its thread count is not given.
pub fn default_one() -> (n: i64)
    ensures
        n == 1,
{
    1
}

/// The value a flag gets where it is on unless switched off.
pub fn default_true() -> (b: bool)
    ensures
        b,
{
    true
}

/// The value a flag gets where it is off unless switched on.
pub fn default_false() -> (b: bool)
    ensures
        !b,
{
    false
}

/// A test as declared: commands to run in order, how many replicas to run,
/// whether a crash is what is expected, whether a failed expectation ends an
/// instance, the input groups that parameterize it, and whether its
/// instances run one after another.
#[derive(Debug)]
pub struct Test {
    pub name: String,
    pub cmds: Vec<Cmd>,
    pub thread_num: i64,
    pub should_panic: bool,
    pub break_if_fail: bool,
    pub inputs: Vec<InputGroup>,
    pub serial: Option<bool>,
}

/// The mathematical content of a [`Test`].
pub struct TestView {
    pub name: Seq<char>,
    pub cmds: Seq<CmdView>,
    pub thread_num: i64,
    pub should_panic: bool,
    pub break_if_fail: bool,
    pub inputs: Seq<InputGroupView>,
    pub serial: Option<bool>,
}

impl DeepView for Test {
    type V = TestView;

    open spec fn deep_view(&self) -> TestView {
        TestView {
            name: self.name@,
            cmds: self.cmds.deep_view(),
            thread_num: self.thread_num,
            should_panic: self.should_panic,
            break_if_fail: self.break_if_fail,
            inputs: self.inputs.deep_view(),
            serial: self.serial,
        }
    }
}

impl View for Test {
    type V = TestView;

    open spec fn view(&self) -> TestView {
        self.deep_view()
    }
}

/// A copy of a list of input groups, group for group.
pub fn clone_inputs(v: &Vec<InputGroup>) -> (r: Vec<InputGroup>)
    ensures
        r.deep_view() == v.deep_view(),
{
    let mut r: Vec<InputGroup> = Vec::new();
    let mut i: usize = 0;
    while i < v.len()
        invariant
            i <= v.len(),
            r.len() == i,
            forall|k: int| 0 <= k < i ==> r[k]@ == v[k]@,
        decreases v.len() - i,
    {
        r.push(v[i].clone());
        i += 1;
    }
    r
}

impl Clone for Test {
    fn clone(&self) -> (r: Self)
        ensures
            r@ == self@,
    {
        Test {
            name: self.name.clone(),
            cmds: clone_cmds(&self.cmds),
            thread_num: self.thread_num,
            should_panic: self.should_panic,
            break_if_fail: self.break_if_fail,
            inputs: clone_inputs(&self.inputs),
            serial: self.serial,
        }
    }
}

impl Default for Test {
    fn default() -> (t: Self)
        ensures
            t@.name.len() == 0,
            t@.cmds.len() == 0,
            t@.thread_num == 0,
            !t@.should_panic,
            !t@.break_if_fail,
            t@.inputs.len() == 0,
            t@.serial is None,
    {
        Test {
            name: String::new(),
            cmds: Vec::new(),
            thread_num: 0,
            should_panic: false,
            break_if_fail: false,
            inputs: Vec::new(),
            serial: None,
        }
    }
}

/// The full expansions of the groups of a list, one after the other.
pub open spec fn expand_inputs(inputs: Seq<InputGroupView>) -> Seq<InputGroupView>
    decreases inputs.len(),
{
    if inputs.len() == 0 {
        Seq::empty()
    } else {
        expand_inputs(inputs.drop_last()) + expand_all(inputs.last())
    }
}

/// The concrete sub-test that a template becomes under one expanded input
/// group: the group's name is added to the test's, the group's overrides of
/// the two flags apply, the group's bindings are substituted into every
/// command, and no input group is left.
pub open spec fn materialize(t: TestView, g: InputGroupView) -> TestView {
    TestView {
        name: t.name + seq!['_'] + g.name,
        cmds: Seq::new(t.cmds.len(), |i: int| substitute_cmd(t.cmds[i], g.args)),
        thread_num: t.thread_num,
        should_panic: match g.should_panic {
            Some(b) => b,
            None => t.should_panic,
        },
        break_if_fail: match g.break_if_fail {
            Some(b) => b,
            None => t.break_if_fail,
        },
        inputs: Seq::empty(),
        serial: t.serial,
    }
}

/// The concrete sub-tests of a template: the template itself where it has no
/// input group, else one sub-test for each group of the full expansion of
/// its input groups.
pub open spec fn sub_tests(t: TestView) -> Seq<TestView> {
    if t.inputs.len() == 0 {
        seq![t]
    } else {
        Seq::new(
            expand_inputs(t.inputs).len(),
            |i: int| materialize(t, expand_inputs(t.inputs)[i]),
        )
    }
}

/// Every range of every input group ends.
pub open spec fn inputs_are_finite(inputs: Seq<InputGroupView>) -> bool {
    forall|i: int| 0 <= i < inputs.len() ==> finite_ranges((#[trigger] inputs[i]).args)
}

/// Each element of `items` repeated `n` times, in order.
pub open spec fn repeat_each(items: Seq<TestView>, n: nat) -> Seq<TestView>
    decreases items.len(),
{
    if items.len() == 0 {
        Seq::empty()
    } else {
        repeat_each(items.drop_last(), n) + Seq::new(n, |k: int| items.last())
    }
}

/// The number of replicas that a thread count asks for: none where it is
/// not positive.
pub open spec fn replica_count(thread_num: i64) -> nat {
    if thread_num > 0 {
        thread_num as nat
    } else {
        0
    }
}

/// The instances of a test: its sub-tests, each as often as the thread count
/// says.
pub open spec fn instances(t: TestView) -> Seq<TestView> {
    repeat_each(sub_tests(t), replica_count(t.thread_num))
}

/// A test has as many instances as it has sub-tests, times its replicas.
pub proof fn lemma_instance_count(t: TestView)
    ensures
        instances(t).len() == sub_tests(t).len() * replica_count(t.thread_num),
        t.inputs.len() == 0 ==> instances(t).len() == replica_count(t.thread_num),
{
    lemma_repeat_each_len(sub_tests(t), replica_count(t.thread_num));
    if t.inputs.len() == 0 {
        assert(1 * replica_count(t.thread_num) == replica_count(t.thread_num));
    }
}

/// Repeating each of some items `n` times gives `n` times as many.
pub proof fn lemma_repeat_each_len(items: Seq<TestView>, n: nat)
    ensures
        repeat_each(items, n).len() == items.len() * n,
    decreases items.len(),
{
    if items.len() == 0 {
        assert(0 * n == 0);
    } else {
        lemma_repeat_each_len(items.drop_last(), n);
        assert((items.len() - 1) * n + n == items.len() * n) by (nonlinear_arith);
    }
}

impl Test {
    /// Appends a command.
    pub fn push_back(&mut self, cmd: Cmd)
        ensures
            final(self)@.cmds == old(self)@.cmds.push(cmd@),
            final(self)@ == (TestView { cmds: final(self)@.cmds, ..old(self)@ }),
    {
        self.cmds.push(cmd);
    }

    /// Puts a command in front of the others.
    pub fn push_front(&mut self, cmd: Cmd)
        ensures
            final(self)@.cmds == seq![cmd@] + old(self)@.cmds,
            final(self)@ == (TestView { cmds: final(self)@.cmds, ..old(self)@ }),
    {
        self.cmds.insert(0, cmd);
    }

    /// Whether every range of every input group ends.
    pub fn has_finite_inputs(&self) -> (r: bool)
        ensures
            r == inputs_are_finite(self@.inputs),
    {
        let mut i: usize = 0;
        while i < self.inputs.len()
            invariant
                i <= self.inputs.len(),
                forall|k: int|
                    0 <= k < i ==> finite_ranges((#[trigger] self.inputs.deep_view()[k]).args),
            decreases self.inputs.len() - i,
        {
            if !self.inputs[i].has_finite_ranges() {
                assert(self.inputs.deep_view()[i as int] == self.inputs[i as int]@);
                return false;
            }
            i += 1;
        }
        true
    }

    /// The sub-test that this template becomes under one expanded input
    /// group.
    pub fn materialized(&self, group: &InputGroup) -> (t: Test)
        ensures
            t@ == materialize(self@, group@),
    {
        let mut cmds: Vec<Cmd> = Vec::new();
        let mut i: usize = 0;
        while i < self.cmds.len()
            invariant
                i <= self.cmds.len(),
                cmds.len() == i,
                forall|k: int|
                    0 <= k < i ==> (#[trigger] cmds[k])@ == substitute_cmd(
                        self.cmds[k]@,
                        group@.args,
                    ),
            decreases self.cmds.len() - i,
        {
            cmds.push(self.cmds[i].substituted(&group.args));
            i += 1;
        }
        assert(cmds.deep_view() =~= materialize(self@, group@).cmds);
        let inputs: Vec<InputGroup> = Vec::new();
        assert(inputs.deep_view() =~= Seq::<InputGroupView>::empty());
        Test {
            name: join_with(self.name.as_str(), '_', group.name.as_str()),
            cmds,
            thread_num: self.thread_num,
            should_panic: match group.should_panic {
                Some(b) => b,
                None => self.should_panic,
            },
            break_if_fail: match group.break_if_fail {
                Some(b) => b,
                None => self.break_if_fail,
            },
            inputs,
            serial: self.serial,
        }
    }

    /// The concrete sub-tests of this template, in the order of its input
    /// groups and of their expansion.
    pub fn process_input_group(&self) -> (out: Vec<Test>)
        requires
            inputs_are_finite(self@.inputs),
        ensures
            out.deep_view() == sub_tests(self@),
    {
        let mut out: Vec<Test> = Vec::new();
        if self.inputs.len() == 0 {
            out.push(self.clone());
            return out;
        }
        let mut i: usize = 0;
        while i < self.inputs.len()
            invariant
                i <= self.inputs.len(),
                inputs_are_finite(self@.inputs),
                out.len() == expand_inputs(self@.inputs.take(i as int)).len(),
                forall|k: int|
                    0 <= k < out.len() ==> (#[trigger] out[k])@ == materialize(
                        self@,
                        expand_inputs(self@.inputs.take(i as int))[k],
                    ),
            decreases self.inputs.len() - i,
        {
            assert(self@.inputs[i as int] == self.inputs[i as int]@);
            let groups = self.inputs[i].expand_all();
            let ghost before = expand_inputs(self@.inputs.take(i as int));
            let ghost upto = self@.inputs.take(i + 1);
            assert(upto.drop_last() =~= self@.inputs.take(i as int));
            let mut j: usize = 0;
            while j < groups.len()
                invariant
                    j <= groups.len(),
                    out.len() == before.len() + j,
                    expand_inputs(upto) == before + groups.deep_view(),
                    forall|k: int|
                        0 <= k < out.len() ==> (#[trigger] out[k])@ == materialize(
                            self@,
                            expand_inputs(upto)[k],
                        ),
                decreases groups.len() - j,
            {
                let t = self.materialized(&groups[j]);
                out.push(t);
                j += 1;
            }
            i += 1;
        }
        assert(self@.inputs.take(i as int) =~= self@.inputs);
        out
    }

    /// The instances of this test: each sub-test as often as the thread
    /// count says, replicas of one sub-test side by side.
    pub fn instances(&self) -> (out: Vec<Test>)
        requires
            inputs_are_finite(self@.inputs),
        ensures
            out.deep_view() == instances(self@),
    {
        let subs = self.process_input_group();
        let mut out: Vec<Test> = Vec::new();
        let mut i: usize = 0;
        let ghost n = replica_count(self.thread_num);
        while i < subs.len()
            invariant
                i <= subs.len(),
                n == replica_count(self.thread_num),
                out.deep_view() == repeat_each(subs.deep_view().take(i as int), n),
            decreases subs.len() - i,
        {
            let ghost before = out.deep_view();
            let ghost upto = subs.deep_view().take(i + 1);
            assert(upto.drop_last() =~= subs.deep_view().take(i as int));
            let mut k: i64 = 0;
            while k < self.thread_num
                invariant
                    0 <= k,
                    k == 0 || k <= self.thread_num,
                    i < subs.len(),
                    out.len() == before.len() + k,
                    forall|x: int| 0 <= x < before.len() ==> out.deep_view()[x] == before[x],
                    forall|x: int|
                        before.len() <= x < out.len() ==> out.deep_view()[x] == subs[i as int]@,
                decreases self.thread_num - k,
            {
                let ghost sofar = out.deep_view();
                out.push(subs[i].clone());
                assert(out.deep_view() =~= sofar.push(subs[i as int]@));
                k += 1;
            }
            i += 1;
        }
        assert(subs.deep_view().take(i as int) =~= subs.deep_view());
        out
    }
}

} // verus!
