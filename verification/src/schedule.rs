//! Scheduling: how the instances of a test, or the members of a concurrency
//! group, are cut into chunks that run one after the other, and how their
//! outcomes are counted.
use crate::test::{instances, inputs_are_finite, Test, TestView};
use crate::text::{decimal, push_decimal_nat, push_str_chars, string_of};
use rand::seq::SliceRandom;
use vstd::prelude::*;

verus! {

/// How many units passed, out of how many that ran.
#[derive(Debug, Clone, Copy, PartialEq, Eq)]
pub struct TestResult {
    pub success: usize,
    pub total: usize,
}

/// How many of the outcomes are passes.
pub open spec fn passes(outcomes: Seq<bool>) -> nat
    decreases outcomes.len(),
{
    if outcomes.len() == 0 {
        0
    } else {
        passes(outcomes.drop_last()) + if outcomes.last() {
            1nat
        } else {
            0nat
        }
    }
}

/// The outcomes of the instances that ran, in order: an instance that
/// could not run on this platform has none.
pub open spec fn counted(outcomes: Seq<Option<bool>>) -> Seq<bool>
    decreases outcomes.len(),
{
    if outcomes.len() == 0 {
        Seq::empty()
    } else {
        counted(outcomes.drop_last()) + match outcomes.last() {
            Some(passed) => seq![passed],
            None => Seq::empty(),
        }
    }
}

/// The sum of the totals of the results.
pub open spec fn sum_total(results: Seq<TestResult>) -> nat
    decreases results.len(),
{
    if results.len() == 0 {
        0
    } else {
        sum_total(results.drop_last()) + results.last().total as nat
    }
}

/// The sum of the successes of the results.
pub open spec fn sum_success(results: Seq<TestResult>) -> nat
    decreases results.len(),
{
    if results.len() == 0 {
        0
    } else {
        sum_success(results.drop_last()) + results.last().success as nat
    }
}

/// Where every instance passes, as many passed as ran.
pub proof fn lemma_all_passed(outcomes: Seq<bool>)
    requires
        forall|i: int| 0 <= i < outcomes.len() ==> outcomes[i],
    ensures
        passes(outcomes) == outcomes.len(),
    decreases outcomes.len(),
{
    if outcomes.len() > 0 {
        lemma_all_passed(outcomes.drop_last());
    }
}

/// Where every unit reports as many passes as it ran, so does their sum,
/// and it ran as much as all of them together.
pub proof fn lemma_sum_of_passed(results: Seq<TestResult>)
    requires
        forall|i: int| 0 <= i < results.len() ==> (#[trigger] results[i]).success == results[i].total,
    ensures
        sum_success(results) == sum_total(results),
    decreases results.len(),
{
    if results.len() > 0 {
        assert forall|i: int| 0 <= i < results.drop_last().len() implies (
        #[trigger] results.drop_last()[i]).success == results.drop_last()[i].total by {
            assert(results.drop_last()[i] == results[i]);
        }
        lemma_sum_of_passed(results.drop_last());
        assert(results[results.len() - 1] == results.last());
    }
}

/// The sums over a part of the results are at most the sums over all.
pub proof fn lemma_sums_grow(results: Seq<TestResult>, k: int)
    requires
        0 <= k <= results.len(),
    ensures
        sum_total(results.take(k)) <= sum_total(results),
        sum_success(results.take(k)) <= sum_success(results),
    decreases results.len(),
{
    if k == results.len() {
        assert(results.take(k) =~= results);
    } else {
        assert(results.drop_last().take(k) =~= results.take(k));
        lemma_sums_grow(results.drop_last(), k);
    }
}

impl TestResult {
    /// Counts the outcomes of the instances that ran: one for each, and a
    /// success for each that passed.
    pub fn tally(outcomes: &Vec<bool>) -> (r: TestResult)
        ensures
            r.total == outcomes@.len(),
            r.success == passes(outcomes@),
            r.success <= r.total,
    {
        let mut success: usize = 0;
        let mut i: usize = 0;
        while i < outcomes.len()
            invariant
                i <= outcomes.len(),
                success <= i,
                success == passes(outcomes@.take(i as int)),
            decreases outcomes.len() - i,
        {
            let ghost upto = outcomes@.take(i + 1);
            assert(upto.drop_last() =~= outcomes@.take(i as int));
            if outcomes[i] {
                success += 1;
            }
            i += 1;
        }
        assert(outcomes@.take(i as int) =~= outcomes@);
        TestResult { success, total: outcomes.len() }
    }

    /// Counts the outcomes of the instances of a test. An instance that was
    /// skipped, because it could not run on this platform, counts neither as
    /// run nor as passed.
    pub fn tally_counted(outcomes: &Vec<Option<bool>>) -> (r: TestResult)
        ensures
            r.total == counted(outcomes@).len(),
            r.success == passes(counted(outcomes@)),
            r.success <= r.total,
    {
        let mut ran: Vec<bool> = Vec::new();
        let mut i: usize = 0;
        while i < outcomes.len()
            invariant
                i <= outcomes.len(),
                ran@ == counted(outcomes@.take(i as int)),
            decreases outcomes.len() - i,
        {
            let ghost upto = outcomes@.take(i + 1);
            assert(upto.drop_last() =~= outcomes@.take(i as int));
            if let Some(passed) = outcomes[i] {
                ran.push(passed);
            }
            i += 1;
        }
        assert(outcomes@.take(i as int) =~= outcomes@);
        TestResult::tally(&ran)
    }

    /// Adds up results, field by field.
    pub fn sum(results: &Vec<TestResult>) -> (r: TestResult)
        requires
            sum_total(results@) <= usize::MAX,
            sum_success(results@) <= usize::MAX,
        ensures
            r.total == sum_total(results@),
            r.success == sum_success(results@),
    {
        let mut r = TestResult { success: 0, total: 0 };
        let mut i: usize = 0;
        while i < results.len()
            invariant
                i <= results.len(),
                sum_total(results@) <= usize::MAX,
                sum_success(results@) <= usize::MAX,
                r.total == sum_total(results@.take(i as int)),
                r.success == sum_success(results@.take(i as int)),
            decreases results.len() - i,
        {
            let ghost upto = results@.take(i + 1);
            assert(upto.drop_last() =~= results@.take(i as int));
            proof {
                lemma_sums_grow(results@, i + 1);
            }
            r.total = r.total + results[i].total;
            r.success = r.success + results[i].success;
            i += 1;
        }
        assert(results@.take(i as int) =~= results@);
        r
    }

    /// Adds one result to another, where the sums fit.
    pub fn checked_add(&self, other: &TestResult) -> (r: Option<TestResult>)
        ensures
            match r {
                Some(sum) => sum.total == self.total + other.total && sum.success == self.success
                    + other.success,
                None => self.total + other.total > usize::MAX || self.success + other.success
                    > usize::MAX,
            },
    {
        match (self.total.checked_add(other.total), self.success.checked_add(other.success)) {
            (Some(total), Some(success)) => Some(TestResult { success, total }),
            _ => None,
        }
    }

    /// Whether everything that ran passed.
    pub fn all_passed(&self) -> (r: bool)
        ensures
            r == (self.success == self.total),
    {
        self.success == self.total
    }
}

/// The line that sums up a run: how many units ran, how many passed, how
/// many failed.
pub open spec fn summary_text(r: TestResult) -> Seq<char> {
    "Global Summary: Total tests: "@ + decimal(r.total as int) + ", Success: "@ + decimal(
        r.success as int,
    ) + ", Failure: "@ + decimal(r.total - r.success)
}

impl TestResult {
    /// The line that sums up a run.
    pub fn summary(&self) -> (s: String)
        requires
            self.success <= self.total,
        ensures
            s@ == summary_text(*self),
    {
        let mut v: Vec<char> = Vec::new();
        push_str_chars(&mut v, "Global Summary: Total tests: ");
        push_decimal_nat(&mut v, self.total as u64);
        push_str_chars(&mut v, ", Success: ");
        push_decimal_nat(&mut v, self.success as u64);
        push_str_chars(&mut v, ", Failure: ");
        push_decimal_nat(&mut v, (self.total - self.success) as u64);
        string_of(&v)
    }
}

/// `items` cut into consecutive chunks of `cap` elements; the last chunk
/// holds what is left and is never empty.
pub open spec fn chunked(items: Seq<TestView>, cap: int) -> Seq<Seq<TestView>>
    decreases items.len(),
    when cap > 0
{
    if items.len() == 0 {
        Seq::empty()
    } else if items.len() <= cap {
        seq![items]
    } else {
        seq![items.take(cap)] + chunked(items.skip(cap), cap)
    }
}

/// The chunks, one after the other, are the items that were cut.
pub proof fn lemma_chunked_flatten(items: Seq<TestView>, cap: int)
    requires
        cap > 0,
    ensures
        chunked(items, cap).flatten() == items,
    decreases items.len(),
{
    let chunks = chunked(items, cap);
    if items.len() == 0 {
        assert(chunks.flatten() =~= items);
    } else if items.len() <= cap {
        assert(chunks.drop_first() =~= Seq::<Seq<TestView>>::empty());
        assert(chunks.drop_first().flatten() =~= Seq::<TestView>::empty());
        assert(chunks.first() == items);
        assert(chunks.flatten() =~= items);
    } else {
        lemma_chunked_flatten(items.skip(cap), cap);
        assert(chunks.first() == items.take(cap));
        assert(chunks.drop_first() =~= chunked(items.skip(cap), cap));
        assert(items.take(cap) + items.skip(cap) =~= items);
    }
}

/// No chunk is empty and none holds more than `cap` items; all but the last
/// hold exactly `cap`.
pub proof fn lemma_chunk_sizes(items: Seq<TestView>, cap: int)
    requires
        cap > 0,
    ensures
        forall|i: int|
            0 <= i < chunked(items, cap).len() ==> 0 < (#[trigger] chunked(items, cap)[i]).len()
                <= cap,
        forall|i: int|
            0 <= i < chunked(items, cap).len() - 1 ==> (#[trigger] chunked(items, cap)[i]).len()
                == cap,
    decreases items.len(),
{
    if items.len() > cap {
        lemma_chunk_sizes(items.skip(cap), cap);
        let chunks = chunked(items, cap);
        let rest = chunked(items.skip(cap), cap);
        assert forall|i: int| 0 <= i < chunks.len() implies 0 < (#[trigger] chunks[i]).len()
            <= cap by {
            if i > 0 {
                assert(chunks[i] == rest[i - 1]);
            }
        }
        assert forall|i: int| 0 <= i < chunks.len() - 1 implies (#[trigger] chunks[i]).len()
            == cap by {
            if i > 0 {
                assert(chunks[i] == rest[i - 1]);
            }
        }
    }
}

/// Cuts `tests` into consecutive chunks of `cap` tests.
pub fn chunk_tests(tests: Vec<Test>, cap: usize) -> (out: Vec<Vec<Test>>)
    requires
        cap > 0,
    ensures
        out.deep_view() == chunked(tests.deep_view(), cap as int),
{
    let ghost all = tests.deep_view();
    let mut rest = tests;
    let mut out: Vec<Vec<Test>> = Vec::new();
    while rest.len() > cap
        invariant
            cap > 0,
            out.deep_view() + chunked(rest.deep_view(), cap as int) == chunked(all, cap as int),
        decreases rest.len(),
    {
        let ghost items = rest.deep_view();
        let tail = rest.split_off(cap);
        assert(rest.deep_view() =~= items.take(cap as int));
        assert(tail.deep_view() =~= items.skip(cap as int));
        out.push(rest);
        rest = tail;
    }
    if rest.len() > 0 {
        out.push(rest);
    }
    out
}

/// Puts the tests into a random order.
///
/// Trusted: wraps `SliceRandom::shuffle` of the crate `rand` with the
/// thread-local generator. The shuffle only swaps elements of the slice, so
/// what comes out holds the same tests as often as what went in; nothing is
/// claimed about their order.
#[verifier::external_body]
fn shuffle_tests(tests: &mut Vec<Test>)
    ensures
        final(tests).deep_view().to_multiset() == old(tests).deep_view().to_multiset(),
{
    tests.shuffle(&mut rand::thread_rng());
}

/// The chunks in which units of work run where at most `max_threads` may run
/// at a time: all in one chunk where there is no cap or the cap is not
/// exceeded, else chunks of the cap's size.
pub open spec fn is_plan_of(
    chunks: Seq<Seq<TestView>>,
    units: Seq<TestView>,
    max_threads: Option<usize>,
) -> bool {
    match max_threads {
        Some(cap) if units.len() > cap => exists|order: Seq<TestView>|
            order.to_multiset() == units.to_multiset() && chunks == #[trigger] chunked(
                order,
                cap as int,
            ),
        _ => chunks == if units.len() == 0 {
            Seq::<Seq<TestView>>::empty()
        } else {
            seq![units]
        },
    }
}

/// Cuts units of work into the chunks that run one after the other. Where a
/// cap on parallelism is given and there are more units than it allows, the
/// units are shuffled and cut into chunks of the cap's size; otherwise they
/// form one chunk, in their order.
pub fn plan_chunks(units: Vec<Test>, max_threads: Option<usize>) -> (chunks: Vec<Vec<Test>>)
    requires
        max_threads != Some(0usize),
    ensures
        is_plan_of(chunks.deep_view(), units.deep_view(), max_threads),
{
    let ghost before = units.deep_view();
    let mut units = units;
    match max_threads {
        Some(cap) => {
            if units.len() > cap {
                shuffle_tests(&mut units);
                let ghost order = units.deep_view();
                assert(order.len() == before.len()) by {
                    order.to_multiset_ensures();
                    before.to_multiset_ensures();
                }
                let chunks = chunk_tests(units, cap);
                return chunks;
            }
        },
        None => {},
    }
    let n = units.len();
    if n == 0 {
        let chunks: Vec<Vec<Test>> = Vec::new();
        assert(chunks.deep_view() =~= Seq::<Seq<TestView>>::empty());
        chunks
    } else {
        let mut chunks: Vec<Vec<Test>> = Vec::new();
        chunks.push(units);
        assert(chunks.deep_view() =~= seq![before]);
        chunks
    }
}

/// A plan under a cap never puts more units into a chunk than the cap
/// allows, so that no more than that many run at a time; and the chunks hold
/// exactly the units that were planned, each as often as it was given.
pub proof fn lemma_plan_respects_cap(
    chunks: Seq<Seq<TestView>>,
    units: Seq<TestView>,
    cap: usize,
)
    requires
        cap > 0,
        is_plan_of(chunks, units, Some(cap)),
    ensures
        forall|i: int| 0 <= i < chunks.len() ==> (#[trigger] chunks[i]).len() <= cap,
        chunks.flatten().to_multiset() == units.to_multiset(),
{
    if units.len() > cap {
        let order = choose|order: Seq<TestView>|
            order.to_multiset() == units.to_multiset() && chunks == #[trigger] chunked(
                order,
                cap as int,
            );
        lemma_chunk_sizes(order, cap as int);
        lemma_chunked_flatten(order, cap as int);
    } else if units.len() > 0 {
        assert(chunks.drop_first() =~= Seq::<Seq<TestView>>::empty());
        assert(chunks.drop_first().flatten() =~= Seq::<TestView>::empty());
        assert(chunks.flatten() =~= units);
    } else {
        assert(chunks.flatten() =~= units);
    }
}

/// Without a cap all units run in one chunk, in the order given.
pub proof fn lemma_plan_without_cap(chunks: Seq<Seq<TestView>>, units: Seq<TestView>)
    requires
        is_plan_of(chunks, units, None),
    ensures
        chunks.flatten() == units,
{
    if units.len() > 0 {
        assert(chunks.drop_first() =~= Seq::<Seq<TestView>>::empty());
        assert(chunks.drop_first().flatten() =~= Seq::<TestView>::empty());
    }
    assert(chunks.flatten() =~= units);
}

/// Whether no chunk holds more units than the cap allows, where there is a
/// cap.
pub open spec fn within_cap(chunks: Seq<Seq<TestView>>, max_threads: Option<usize>) -> bool {
    max_threads matches Some(cap) ==> forall|i: int|
        0 <= i < chunks.len() ==> (#[trigger] chunks[i]).len() <= cap
}

/// A plan holds exactly the units that were planned, each as often as it
/// was given, and under a cap no chunk of it holds more units than the cap
/// allows.
pub proof fn lemma_plan_holds_units(
    chunks: Seq<Seq<TestView>>,
    units: Seq<TestView>,
    max_threads: Option<usize>,
)
    requires
        max_threads != Some(0usize),
        is_plan_of(chunks, units, max_threads),
    ensures
        chunks.flatten().to_multiset() == units.to_multiset(),
        chunks.flatten().len() == units.len(),
        within_cap(chunks, max_threads),
{
    match max_threads {
        Some(cap) => {
            lemma_plan_respects_cap(chunks, units, cap);
        },
        None => {
            lemma_plan_without_cap(chunks, units);
        },
    }
    chunks.flatten().to_multiset_ensures();
    units.to_multiset_ensures();
}

/// The instances of the tests of a list, test after test.
pub open spec fn all_instances(tests: Seq<TestView>) -> Seq<TestView>
    decreases tests.len(),
{
    if tests.len() == 0 {
        Seq::empty()
    } else {
        all_instances(tests.drop_last()) + instances(tests.last())
    }
}

/// Whether every range of every input group of every test ends.
pub open spec fn tests_are_finite(tests: Seq<TestView>) -> bool {
    forall|i: int| 0 <= i < tests.len() ==> inputs_are_finite((#[trigger] tests[i]).inputs)
}

/// Whether every range of every input group of every test ends.
pub fn have_finite_inputs(tests: &Vec<Test>) -> (r: bool)
    ensures
        r == tests_are_finite(tests.deep_view()),
{
    let mut i: usize = 0;
    while i < tests.len()
        invariant
            i <= tests.len(),
            forall|k: int|
                0 <= k < i ==> inputs_are_finite((#[trigger] tests.deep_view()[k]).inputs),
        decreases tests.len() - i,
    {
        assert(tests.deep_view()[i as int] == tests[i as int]@);
        if !tests[i].has_finite_inputs() {
            return false;
        }
        i += 1;
    }
    true
}

/// The instances of the tests of a list, test after test.
pub fn instances_of(tests: &Vec<Test>) -> (out: Vec<Test>)
    requires
        tests_are_finite(tests.deep_view()),
    ensures
        out.deep_view() == all_instances(tests.deep_view()),
{
    let mut out: Vec<Test> = Vec::new();
    let mut i: usize = 0;
    assert(tests.deep_view().take(0) =~= Seq::<TestView>::empty());
    assert(out.deep_view() =~= Seq::<TestView>::empty());
    while i < tests.len()
        invariant
            i <= tests.len(),
            tests_are_finite(tests.deep_view()),
            out.deep_view() == all_instances(tests.deep_view().take(i as int)),
        decreases tests.len() - i,
    {
        let ghost upto = tests.deep_view().take(i + 1);
        assert(upto.drop_last() =~= tests.deep_view().take(i as int));
        assert(upto.last() == tests[i as int]@);
        assert(tests.deep_view()[i as int] == tests[i as int]@);
        let ghost before = out.deep_view();
        let mut more = tests[i].instances();
        let ghost added = more.deep_view();
        out.append(&mut more);
        assert(out.deep_view() =~= before + added);
        i += 1;
    }
    assert(tests.deep_view().take(i as int) =~= tests.deep_view());
    out
}

/// The chunks in which tests that run together run: all their instances
/// are the units, so that under a cap no more instances than the cap allows
/// are in a chunk, whichever test they belong to.
pub fn plan_together(tests: &Vec<Test>, max_threads: Option<usize>) -> (chunks: Vec<Vec<Test>>)
    requires
        tests_are_finite(tests.deep_view()),
        max_threads != Some(0usize),
    ensures
        is_plan_of(chunks.deep_view(), all_instances(tests.deep_view()), max_threads),
        within_cap(chunks.deep_view(), max_threads),
        chunks.deep_view().flatten().len() == all_instances(tests.deep_view()).len(),
{
    let chunks = plan_chunks(instances_of(tests), max_threads);
    proof {
        lemma_plan_holds_units(
            chunks.deep_view(),
            all_instances(tests.deep_view()),
            max_threads,
        );
    }
    chunks
}

/// How the instances of one test are to run: one after the other on the
/// calling thread, or chunk after chunk with the instances of a chunk side
/// by side.
#[derive(Debug)]
pub struct Schedule {
    pub serial: bool,
    pub chunks: Vec<Vec<Test>>,
}

impl Test {
    /// Whether the instances of this test run one after the other: only
    /// where the test says so itself.
    pub fn runs_serially(&self) -> (r: bool)
        ensures
            r == (self.serial == Some(true)),
    {
        match self.serial {
            Some(b) => b,
            None => false,
        }
    }

    /// The schedule of this test's instances. A serial test gets all its
    /// instances in one chunk, in order; any other is planned under the cap
    /// as [`plan_chunks`] says.
    pub fn schedule(&self, max_threads: Option<usize>) -> (s: Schedule)
        requires
            inputs_are_finite(self@.inputs),
            max_threads != Some(0usize),
        ensures
            s.serial == (self.serial == Some(true)),
            is_plan_of(
                s.chunks.deep_view(),
                instances(self@),
                if s.serial {
                    None
                } else {
                    max_threads
                },
            ),
            !s.serial ==> within_cap(s.chunks.deep_view(), max_threads),
            s.chunks.deep_view().flatten().len() == instances(self@).len(),
    {
        let units = self.instances();
        if self.runs_serially() {
            let chunks = plan_chunks(units, None);
            proof {
                lemma_plan_holds_units(chunks.deep_view(), instances(self@), None);
            }
            Schedule { serial: true, chunks }
        } else {
            let chunks = plan_chunks(units, max_threads);
            proof {
                lemma_plan_holds_units(chunks.deep_view(), instances(self@), max_threads);
            }
            Schedule { serial: false, chunks }
        }
    }
}

} // verus!
