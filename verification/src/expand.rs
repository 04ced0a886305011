//! Expansion of an input group into groups that bind every parameter to a
//! single text.
use crate::input::{ArgValue, ArgValueView, InputGroup, InputGroupView, RangeExpr};
use crate::input::{distinct_keys, lemma_position_unique};
use crate::text::{decimal, decimal_chars, push_str_chars, string_of};
use vstd::prelude::*;

verus! {

/// The step of a range: the declared one, or one.
pub open spec fn range_step(r: RangeExpr) -> int {
    match r.step {
        Some(s) => s as int,
        None => 1,
    }
}

/// Whether the progression of `r` ends: it is empty from the start, or it
/// climbs.
pub open spec fn range_is_finite(r: RangeExpr) -> bool {
    r.start > r.end || range_step(r) >= 1
}

/// The decimal spellings of `from`, `from + step`, ... as long as they do not
/// pass `end`.
pub open spec fn progression(from: int, end: int, step: int) -> Seq<Seq<char>>
    decreases
        (if from <= end {
            end - from + 1
        } else {
            0
        }),
    when step >= 1
{
    if from > end {
        Seq::empty()
    } else {
        seq![decimal(from)] + progression(from + step, end, step)
    }
}

/// The texts that a value stands for, in order.
pub open spec fn choices(v: ArgValueView) -> Seq<Seq<char>> {
    match v {
        ArgValueView::Single(s) => seq![s],
        ArgValueView::List(items) => items,
        ArgValueView::Range(r) => if r.start > r.end {
            Seq::empty()
        } else {
            progression(r.start as int, r.end as int, range_step(r))
        },
    }
}

/// Every binding is to a single text.
pub open spec fn all_single(m: Seq<(Seq<char>, ArgValueView)>) -> bool {
    forall|i: int| 0 <= i < m.len() ==> (#[trigger] m[i]).1 is Single
}

/// Every range among the bindings ends.
pub open spec fn finite_ranges(m: Seq<(Seq<char>, ArgValueView)>) -> bool {
    forall|i: int|
        0 <= i < m.len() ==> ((#[trigger] m[i]).1 matches ArgValueView::Range(r)
            ==> range_is_finite(r))
}

/// `i` is the first position of `m` that holds a list or a range.
pub open spec fn is_first_multi(m: Seq<(Seq<char>, ArgValueView)>, i: int) -> bool {
    &&& 0 <= i < m.len()
    &&& !(m[i].1 is Single)
    &&& forall|j: int| 0 <= j < i ==> (#[trigger] m[j]).1 is Single
}

/// The first position of `m` that holds a list or a range, where there is one.
pub open spec fn first_multi(m: Seq<(Seq<char>, ArgValueView)>) -> int {
    choose|i: int| is_first_multi(m, i)
}

/// How many bindings hold a list or a range.
pub open spec fn count_multi(m: Seq<(Seq<char>, ArgValueView)>) -> nat
    decreases m.len(),
{
    if m.len() == 0 {
        0
    } else {
        count_multi(m.drop_last()) + if m.last().1 is Single {
            0nat
        } else {
            1nat
        }
    }
}

/// The group that `g` becomes when its `i`-th parameter is fixed to `text`:
/// the parameter's name and the text are added to the group's name.
pub open spec fn fix_choice(g: InputGroupView, i: int, text: Seq<char>) -> InputGroupView {
    InputGroupView {
        name: g.name + seq!['_'] + g.args[i].0 + seq!['='] + text,
        args: g.args.update(i, (g.args[i].0, ArgValueView::Single(text))),
        should_panic: g.should_panic,
        break_if_fail: g.break_if_fail,
        refs: g.refs,
    }
}

/// One step of expansion: the first list or range of `g` is fanned out into
/// one group for each of its texts. A group without lists and ranges is
/// left as it is.
pub open spec fn expand_once(g: InputGroupView) -> Seq<InputGroupView> {
    if all_single(g.args) {
        seq![g]
    } else {
        let i = first_multi(g.args);
        let texts = choices(g.args[i].1);
        Seq::new(texts.len(), |j: int| fix_choice(g, i, texts[j]))
    }
}

/// One step of expansion on each group of a list, results in order.
pub open spec fn expand_each(groups: Seq<InputGroupView>) -> Seq<InputGroupView>
    decreases groups.len(),
{
    if groups.len() == 0 {
        Seq::empty()
    } else {
        expand_each(groups.drop_last()) + expand_once(groups.last())
    }
}

/// `n` steps of expansion on each group of a list.
pub open spec fn expand_passes(groups: Seq<InputGroupView>, n: nat) -> Seq<InputGroupView>
    decreases n,
{
    if n == 0 {
        groups
    } else {
        expand_passes(expand_each(groups), (n - 1) as nat)
    }
}

/// Full expansion: one step for each list or range that `g` holds.
pub open spec fn expand_all(g: InputGroupView) -> Seq<InputGroupView> {
    expand_passes(seq![g], count_multi(g.args))
}

/// The first list or range is where the scan finds it.
pub proof fn lemma_first_multi(m: Seq<(Seq<char>, ArgValueView)>, i: int)
    requires
        is_first_multi(m, i),
    ensures
        first_multi(m) == i,
        !all_single(m),
{
    let j = first_multi(m);
    assert(is_first_multi(m, j));
    if j < i {
        assert(m[j].1 is Single);
    } else if i < j {
        assert(m[i].1 is Single);
    }
}

/// A table with a list or a range has a first one.
pub proof fn lemma_has_first_multi(m: Seq<(Seq<char>, ArgValueView)>)
    requires
        !all_single(m),
    ensures
        is_first_multi(m, first_multi(m)),
    decreases m.len(),
{
    let k = choose|k: int| 0 <= k < m.len() && !((#[trigger] m[k]).1 is Single);
    if forall|j: int| 0 <= j < k ==> (#[trigger] m[j]).1 is Single {
        assert(is_first_multi(m, k));
    } else {
        let shorter = m.take(k);
        assert(forall|j: int| 0 <= j < k ==> shorter[j] == m[j]);
        lemma_has_first_multi(shorter);
        let f = first_multi(shorter);
        assert(is_first_multi(shorter, f));
        assert(shorter[f] == m[f]);
        assert forall|j: int| 0 <= j < f implies (#[trigger] m[j]).1 is Single by {
            assert(shorter[j].1 is Single);
        }
        assert(is_first_multi(m, f));
    }
}

/// Lists and ranges are counted as none exactly where every binding is single.
pub proof fn lemma_count_zero(m: Seq<(Seq<char>, ArgValueView)>)
    ensures
        count_multi(m) == 0 <==> all_single(m),
    decreases m.len(),
{
    if m.len() > 0 {
        lemma_count_zero(m.drop_last());
        if all_single(m) {
            assert forall|i: int| 0 <= i < m.drop_last().len() implies (
            #[trigger] m.drop_last()[i]).1 is Single by {
                assert(m[i].1 is Single);
            }
            assert(m[m.len() - 1].1 is Single);
        }
        if count_multi(m) == 0 {
            assert forall|i: int| 0 <= i < m.len() implies (#[trigger] m[i]).1 is Single by {
                if i < m.len() - 1 {
                    assert(m.drop_last()[i].1 is Single);
                }
            }
        }
    }
}

/// Fixing a list or a range to one text leaves one fewer to expand.
pub proof fn lemma_count_after_fix(m: Seq<(Seq<char>, ArgValueView)>, i: int, text: Seq<char>)
    requires
        0 <= i < m.len(),
        !(m[i].1 is Single),
    ensures
        count_multi(m.update(i, (m[i].0, ArgValueView::Single(text)))) + 1 == count_multi(m),
    decreases m.len(),
{
    let fixed = m.update(i, (m[i].0, ArgValueView::Single(text)));
    if i == m.len() - 1 {
        assert(fixed.drop_last() =~= m.drop_last());
    } else {
        lemma_count_after_fix(m.drop_last(), i, text);
        assert(fixed.drop_last() =~= m.drop_last().update(
            i,
            (m[i].0, ArgValueView::Single(text)),
        ));
    }
}

impl RangeExpr {
    /// Whether the progression ends.
    pub fn is_finite(&self) -> (r: bool)
        ensures
            r == range_is_finite(*self),
    {
        self.start > self.end || match self.step {
            Some(s) => s >= 1,
            None => true,
        }
    }

    /// The decimal spellings of the numbers of the progression, in order.
    pub fn values(&self) -> (out: Vec<String>)
        requires
            range_is_finite(*self),
        ensures
            out.deep_view() == choices(ArgValueView::Range(*self)),
    {
        let mut out: Vec<String> = Vec::new();
        if self.start > self.end {
            return out;
        }
        let step: i64 = match self.step {
            Some(s) => s as i64,
            None => 1,
        };
        let end: i64 = self.end as i64;
        let mut i: i64 = self.start as i64;
        let ghost all = progression(self.start as int, self.end as int, step as int);
        while i <= end
            invariant
                1 <= step <= i32::MAX,
                end == self.end,
                i32::MIN <= i <= end + step,
                out.deep_view() + progression(i as int, end as int, step as int) == all,
            decreases end - i + step,
        {
            let text = string_of(&decimal_chars(i));
            out.push(text);
            i += step;
        }
        out
    }
}

impl InputGroup {
    /// Whether every range among the parameters ends.
    pub fn has_finite_ranges(&self) -> (r: bool)
        ensures
            r == finite_ranges(self@.args),
    {
        let n = self.args.len();
        let mut i: usize = 0;
        while i < n
            invariant
                i <= n,
                n == self@.args.len(),
                forall|k: int|
                    0 <= k < i ==> ((#[trigger] self@.args[k]).1 matches ArgValueView::Range(r)
                        ==> range_is_finite(r)),
            decreases n - i,
        {
            match self.args.value_at(i) {
                ArgValue::Range(r) => {
                    if !r.is_finite() {
                        return false;
                    }
                },
                _ => {},
            }
            i += 1;
        }
        true
    }

    /// The groups that fix the `i`-th parameter to each of `texts` in turn.
    fn fan_out(&self, i: usize, texts: &Vec<String>) -> (out: Vec<InputGroup>)
        requires
            i < self@.args.len(),
        ensures
            out.deep_view() == Seq::new(
                texts.len() as nat,
                |j: int| fix_choice(self@, i as int, texts.deep_view()[j]),
            ),
    {
        let key = self.args.key_at(i);
        let mut out: Vec<InputGroup> = Vec::new();
        let mut j: usize = 0;
        while j < texts.len()
            invariant
                j <= texts.len(),
                i < self@.args.len(),
                distinct_keys(self@.args),
                key@ == self@.args[i as int].0,
                out.len() == j,
                forall|k: int|
                    0 <= k < j ==> (#[trigger] out[k])@ == fix_choice(
                        self@,
                        i as int,
                        texts.deep_view()[k],
                    ),
            decreases texts.len() - j,
        {
            let text = &texts[j];
            let mut name: Vec<char> = Vec::new();
            push_str_chars(&mut name, self.name.as_str());
            name.push('_');
            push_str_chars(&mut name, key.as_str());
            name.push('=');
            push_str_chars(&mut name, text.as_str());
            let mut args = self.args.clone();
            args.insert(key.clone(), ArgValue::Single(text.clone()));
            proof {
                lemma_position_unique(self@.args, i as int);
            }
            let group = InputGroup {
                name: string_of(&name),
                args,
                should_panic: self.should_panic,
                break_if_fail: self.break_if_fail,
                refs: crate::input::clone_strings(&self.refs),
            };
            assert(group@.name =~= fix_choice(self@, i as int, texts.deep_view()[j as int]).name);
            out.push(group);
            j += 1;
        }
        out
    }

    /// One step of expansion: fans out the first list or range among the
    /// parameters, or returns the group alone where there is none.
    pub fn expand(&self) -> (out: Vec<InputGroup>)
        requires
            finite_ranges(self@.args),
        ensures
            out.deep_view() == expand_once(self@),
    {
        let n = self.args.len();
        let mut i: usize = 0;
        while i < n
            invariant
                i <= n,
                n == self@.args.len(),
                finite_ranges(self@.args),
                forall|k: int| 0 <= k < i ==> (#[trigger] self@.args[k]).1 is Single,
            decreases n - i,
        {
            match self.args.value_at(i) {
                ArgValue::Single(_) => {},
                ArgValue::List(items) => {
                    proof {
                        lemma_first_multi(self@.args, i as int);
                    }
                    let out = self.fan_out(i, items);
                    return out;
                },
                ArgValue::Range(r) => {
                    proof {
                        lemma_first_multi(self@.args, i as int);
                    }
                    let texts = r.values();
                    let out = self.fan_out(i, &texts);
                    return out;
                },
            }
            i += 1;
        }
        let mut out: Vec<InputGroup> = Vec::new();
        out.push(self.clone());
        out
    }
}

/// Every group of the list has at most `n` lists and ranges, all of them
/// finite.
pub open spec fn bounded(groups: Seq<InputGroupView>, n: nat) -> bool {
    forall|i: int|
        0 <= i < groups.len() ==> count_multi((#[trigger] groups[i]).args) <= n && finite_ranges(
            groups[i].args,
        )
}

/// Each group that one step of expansion yields has one list or range fewer
/// than the group it came from, and no range that does not end.
pub proof fn lemma_expand_once_step(g: InputGroupView, j: int)
    requires
        !all_single(g.args),
        finite_ranges(g.args),
        0 <= j < expand_once(g).len(),
    ensures
        count_multi(expand_once(g)[j].args) + 1 == count_multi(g.args),
        finite_ranges(expand_once(g)[j].args),
{
    lemma_has_first_multi(g.args);
    let i = first_multi(g.args);
    let texts = choices(g.args[i].1);
    lemma_count_after_fix(g.args, i, texts[j]);
    let after = expand_once(g)[j].args;
    assert forall|k: int| 0 <= k < after.len() implies ((#[trigger] after[k]).1 matches ArgValueView::Range(
        r,
    ) ==> range_is_finite(r)) by {
        if k != i {
            assert(after[k] == g.args[k]);
        }
    }
}

/// One step of expansion lowers the bound on what is left to expand.
pub proof fn lemma_expand_each_bounded(groups: Seq<InputGroupView>, n: nat)
    requires
        bounded(groups, n),
    ensures
        bounded(expand_each(groups), if n > 0 {
            (n - 1) as nat
        } else {
            0
        }),
    decreases groups.len(),
{
    let m: nat = if n > 0 {
        (n - 1) as nat
    } else {
        0
    };
    if groups.len() > 0 {
        let head = groups.drop_last();
        let g = groups.last();
        assert forall|i: int| 0 <= i < head.len() implies count_multi((#[trigger] head[i]).args)
            <= n && finite_ranges(head[i].args) by {
            assert(head[i] == groups[i]);
        }
        lemma_expand_each_bounded(head, n);
        let out = expand_each(groups);
        let first = expand_each(head);
        assert(groups[groups.len() - 1] == g);
        assert forall|i: int| 0 <= i < out.len() implies count_multi((#[trigger] out[i]).args)
            <= m && finite_ranges(out[i].args) by {
            if i < first.len() {
                assert(out[i] == first[i]);
            } else {
                let j = i - first.len();
                assert(out[i] == expand_once(g)[j]);
                lemma_count_zero(g.args);
                if all_single(g.args) {
                    assert(expand_once(g)[j] == g);
                } else {
                    lemma_expand_once_step(g, j);
                }
            }
        }
    }
}

/// After as many steps as the bound says, no list or range is left.
pub proof fn lemma_passes_single(groups: Seq<InputGroupView>, n: nat)
    requires
        bounded(groups, n),
    ensures
        forall|i: int|
            0 <= i < expand_passes(groups, n).len() ==> all_single(
                (#[trigger] expand_passes(groups, n)[i]).args,
            ),
    decreases n,
{
    if n == 0 {
        assert forall|i: int| 0 <= i < groups.len() implies all_single(
            (#[trigger] groups[i]).args,
        ) by {
            lemma_count_zero(groups[i].args);
        }
    } else {
        lemma_expand_each_bounded(groups, n);
        lemma_passes_single(expand_each(groups), (n - 1) as nat);
    }
}

/// One step of expansion on each group of `groups`, results in order.
pub fn expand_groups(groups: &Vec<InputGroup>) -> (out: Vec<InputGroup>)
    requires
        forall|i: int| 0 <= i < groups.len() ==> finite_ranges((#[trigger] groups[i])@.args),
    ensures
        out.deep_view() == expand_each(groups.deep_view()),
{
    let mut out: Vec<InputGroup> = Vec::new();
    let mut i: usize = 0;
    assert(groups.deep_view().take(0) =~= Seq::<InputGroupView>::empty());
    while i < groups.len()
        invariant
            i <= groups.len(),
            forall|i: int| 0 <= i < groups.len() ==> finite_ranges((#[trigger] groups[i])@.args),
            out.deep_view() == expand_each(groups.deep_view().take(i as int)),
        decreases groups.len() - i,
    {
        let mut once = groups[i].expand();
        out.append(&mut once);
        let ghost upto = groups.deep_view().take(i + 1);
        assert(upto.drop_last() =~= groups.deep_view().take(i as int));
        i += 1;
    }
    assert(groups.deep_view().take(i as int) =~= groups.deep_view());
    out
}

impl InputGroup {
    /// How many parameters are bound to a list or a range.
    pub fn multi_count(&self) -> (n: usize)
        ensures
            n == count_multi(self@.args),
    {
        let len = self.args.len();
        let mut n: usize = 0;
        let mut i: usize = 0;
        while i < len
            invariant
                i <= len,
                len == self@.args.len(),
                n <= i,
                n == count_multi(self@.args.take(i as int)),
            decreases len - i,
        {
            let ghost upto = self@.args.take(i + 1);
            assert(upto.drop_last() =~= self@.args.take(i as int));
            match self.args.value_at(i) {
                ArgValue::Single(_) => {},
                _ => {
                    n += 1;
                },
            }
            i += 1;
        }
        assert(self@.args.take(i as int) =~= self@.args);
        n
    }

    /// Full expansion: the groups that bind every parameter to a single
    /// text, one for each combination of the texts that the lists and ranges
    /// of this group stand for.
    pub fn expand_all(&self) -> (out: Vec<InputGroup>)
        requires
            finite_ranges(self@.args),
        ensures
            out.deep_view() == expand_all(self@),
            forall|i: int| 0 <= i < out.len() ==> all_single((#[trigger] out[i])@.args),
    {
        let n = self.multi_count();
        let mut groups: Vec<InputGroup> = Vec::new();
        groups.push(self.clone());
        assert(groups.deep_view() =~= seq![self@]);
        let mut pass: usize = 0;
        while pass < n
            invariant
                pass <= n,
                n == count_multi(self@.args),
                bounded(groups.deep_view(), (n - pass) as nat),
                expand_passes(groups.deep_view(), (n - pass) as nat) == expand_all(self@),
            decreases n - pass,
        {
            proof {
                lemma_expand_each_bounded(groups.deep_view(), (n - pass) as nat);
                assert forall|i: int| 0 <= i < groups.len() implies finite_ranges(
                    (#[trigger] groups[i])@.args,
                ) by {
                    assert(groups.deep_view()[i] == groups[i]@);
                }
            }
            groups = expand_groups(&groups);
            pass += 1;
        }
        proof {
            lemma_passes_single(groups.deep_view(), 0);
            assert forall|i: int| 0 <= i < groups.len() implies all_single(
                (#[trigger] groups[i])@.args,
            ) by {
                assert(groups.deep_view()[i] == groups[i]@);
            }
        }
        groups
    }
}

/// The number of combinations of the texts that the values of a table stand
/// for: the product of their numbers.
pub open spec fn combinations(m: Seq<(Seq<char>, ArgValueView)>) -> nat
    decreases m.len(),
{
    if m.len() == 0 {
        1
    } else {
        combinations(m.drop_last()) * choices(m.last().1).len()
    }
}

/// The combinations of all groups of a list together.
pub open spec fn total_combinations(groups: Seq<InputGroupView>) -> nat
    decreases groups.len(),
{
    if groups.len() == 0 {
        0
    } else {
        total_combinations(groups.drop_last()) + combinations(groups.last().args)
    }
}

/// A table has as many combinations as it has with one value fixed to a
/// text, times the number of texts that the value stands for.
pub proof fn lemma_combinations_after_fix(m: Seq<(Seq<char>, ArgValueView)>, i: int, text: Seq<char>)
    requires
        0 <= i < m.len(),
    ensures
        combinations(m) == combinations(m.update(i, (m[i].0, ArgValueView::Single(text))))
            * choices(m[i].1).len(),
    decreases m.len(),
{
    let fixed = m.update(i, (m[i].0, ArgValueView::Single(text)));
    let head = combinations(m.drop_last());
    let last = choices(m.last().1).len();
    if i == m.len() - 1 {
        assert(fixed.drop_last() =~= m.drop_last());
        assert(choices(fixed.last().1).len() == 1);
        assert(combinations(fixed) == head * 1);
        assert(head * 1 * last == head * last) by (nonlinear_arith);
    } else {
        lemma_combinations_after_fix(m.drop_last(), i, text);
        let inner = combinations(m.drop_last().update(i, (m[i].0, ArgValueView::Single(text))));
        let here = choices(m[i].1).len();
        assert(fixed.drop_last() =~= m.drop_last().update(
            i,
            (m[i].0, ArgValueView::Single(text)),
        ));
        assert(fixed.last() == m.last());
        assert(m.drop_last()[i] == m[i]);
        assert(head == inner * here);
        assert(combinations(fixed) == inner * last);
        assert((inner * here) * last == (inner * last) * here) by (nonlinear_arith);
    }
}

/// A table of single texts has one combination.
pub proof fn lemma_combinations_of_single(m: Seq<(Seq<char>, ArgValueView)>)
    requires
        all_single(m),
    ensures
        combinations(m) == 1,
    decreases m.len(),
{
    if m.len() > 0 {
        assert forall|i: int| 0 <= i < m.drop_last().len() implies (
        #[trigger] m.drop_last()[i]).1 is Single by {
            assert(m[i].1 is Single);
        }
        lemma_combinations_of_single(m.drop_last());
        assert(m[m.len() - 1].1 is Single);
        assert(choices(m.last().1).len() == 1);
        assert(1 * 1 == 1);
    }
}

/// The combinations of two lists of groups add up.
pub proof fn lemma_total_concat(a: Seq<InputGroupView>, b: Seq<InputGroupView>)
    ensures
        total_combinations(a + b) == total_combinations(a) + total_combinations(b),
    decreases b.len(),
{
    if b.len() == 0 {
        assert(a + b =~= a);
    } else {
        lemma_total_concat(a, b.drop_last());
        assert((a + b).drop_last() =~= a + b.drop_last());
        assert((a + b).last() == b.last());
    }
}

/// Groups that have `c` combinations each have `c` times their number
/// together.
pub proof fn lemma_total_of_equals(groups: Seq<InputGroupView>, c: nat)
    requires
        forall|j: int| 0 <= j < groups.len() ==> combinations((#[trigger] groups[j]).args) == c,
    ensures
        total_combinations(groups) == groups.len() * c,
    decreases groups.len(),
{
    if groups.len() == 0 {
        assert(0 * c == 0);
    } else {
        let head = groups.drop_last();
        assert forall|j: int| 0 <= j < head.len() implies combinations((#[trigger] head[j]).args)
            == c by {
            assert(head[j] == groups[j]);
        }
        lemma_total_of_equals(head, c);
        assert(groups[groups.len() - 1] == groups.last());
        assert((groups.len() - 1) * c + c == groups.len() * c) by (nonlinear_arith);
    }
}

/// One step of expansion keeps the combinations of a group: the groups it
/// yields have together as many as the group had.
pub proof fn lemma_expand_once_keeps(g: InputGroupView)
    ensures
        total_combinations(expand_once(g)) == combinations(g.args),
{
    if all_single(g.args) {
        let one = seq![g];
        assert(one.drop_last() =~= Seq::<InputGroupView>::empty());
        assert(total_combinations(one.drop_last()) == 0);
        assert(one.last() == g);
    } else {
        lemma_has_first_multi(g.args);
        let i = first_multi(g.args);
        let texts = choices(g.args[i].1);
        let out = expand_once(g);
        let c = combinations(g.args.update(i, (g.args[i].0, ArgValueView::Single(Seq::empty()))));
        lemma_combinations_after_fix(g.args, i, Seq::empty());
        assert forall|j: int| 0 <= j < out.len() implies combinations((#[trigger] out[j]).args)
            == c by {
            lemma_combinations_after_fix(g.args, i, texts[j]);
            let cj = combinations(out[j].args);
            assert(cj * texts.len() == c * texts.len());
            assert(cj == c) by (nonlinear_arith)
                requires
                    cj * texts.len() == c * texts.len(),
                    texts.len() > 0,
            ;
        }
        lemma_total_of_equals(out, c);
        assert(out.len() * c == c * texts.len()) by (nonlinear_arith)
            requires
                out.len() == texts.len(),
        ;
    }
}

/// One step of expansion on each group of a list keeps the combinations of
/// the list.
pub proof fn lemma_expand_each_keeps(groups: Seq<InputGroupView>)
    ensures
        total_combinations(expand_each(groups)) == total_combinations(groups),
    decreases groups.len(),
{
    if groups.len() > 0 {
        lemma_expand_each_keeps(groups.drop_last());
        lemma_expand_once_keeps(groups.last());
        lemma_total_concat(expand_each(groups.drop_last()), expand_once(groups.last()));
    }
}

/// After as many steps as the bound says, there are as many groups as the
/// list had combinations.
pub proof fn lemma_passes_count(groups: Seq<InputGroupView>, n: nat)
    requires
        bounded(groups, n),
    ensures
        expand_passes(groups, n).len() == total_combinations(groups),
    decreases n,
{
    if n == 0 {
        assert forall|j: int| 0 <= j < groups.len() implies combinations(
            (#[trigger] groups[j]).args,
        ) == 1 by {
            lemma_count_zero(groups[j].args);
            lemma_combinations_of_single(groups[j].args);
        }
        lemma_total_of_equals(groups, 1);
        assert(groups.len() * 1 == groups.len()) by (nonlinear_arith);
    } else {
        lemma_expand_each_bounded(groups, n);
        lemma_expand_each_keeps(groups);
        lemma_passes_count(expand_each(groups), (n - 1) as nat);
    }
}

/// Full expansion yields one group for each combination of the texts that
/// the values of the group stand for: as many groups as the product of the
/// numbers of texts, whichever of the parameters are bound to lists and
/// ranges and in whatever order they stand.
pub proof fn lemma_expansion_count(g: InputGroupView)
    requires
        finite_ranges(g.args),
    ensures
        expand_all(g).len() == combinations(g.args),
{
    let one = seq![g];
    assert(one.drop_last() =~= Seq::<InputGroupView>::empty());
    assert(total_combinations(one.drop_last()) == 0);
    assert(one.last() == g);
    assert(total_combinations(one) == combinations(g.args));
    assert(bounded(one, count_multi(g.args)));
    lemma_passes_count(one, count_multi(g.args));
}

/// Expansion of a group whose parameters are all bound to single texts is the
/// identity: one step, and full expansion, give back exactly that group.
pub proof fn lemma_scalar_group_is_fixed(g: InputGroupView)
    requires
        all_single(g.args),
    ensures
        expand_once(g) == seq![g],
        expand_all(g) == seq![g],
{
    lemma_count_zero(g.args);
}

/// Where exactly one parameter of a group is bound to a list or a range,
/// full expansion yields one group for each text that it stands for, in
/// order: that parameter is bound to the text, every other binding is as it
/// was, and the group's name is extended by the parameter's name and the
/// text.
pub proof fn lemma_one_multi_valued_key(g: InputGroupView, i: int)
    requires
        0 <= i < g.args.len(),
        !(g.args[i].1 is Single),
        forall|k: int| 0 <= k < g.args.len() && k != i ==> (#[trigger] g.args[k]).1 is Single,
    ensures
        expand_all(g).len() == choices(g.args[i].1).len(),
        forall|j: int|
            0 <= j < choices(g.args[i].1).len() ==> #[trigger] expand_all(g)[j] == fix_choice(
                g,
                i,
                choices(g.args[i].1)[j],
            ),
{
    let fixed = g.args.update(i, (g.args[i].0, ArgValueView::Single(Seq::empty())));
    lemma_count_after_fix(g.args, i, Seq::empty());
    assert forall|k: int| 0 <= k < fixed.len() implies (#[trigger] fixed[k]).1 is Single by {
        if k != i {
            assert(fixed[k] == g.args[k]);
        }
    }
    lemma_count_zero(fixed);
    assert(count_multi(g.args) == 1);
    lemma_first_multi(g.args, i);
    let one = seq![g];
    assert(one.drop_last() =~= Seq::<InputGroupView>::empty());
    assert(expand_each(one.drop_last()) =~= Seq::<InputGroupView>::empty());
    assert(one.last() == g);
    assert(expand_each(one) =~= expand_once(g));
    assert(expand_passes(expand_each(one), 0) == expand_each(one));
    assert(expand_all(g) == expand_once(g));
}

/// A list of `n` texts under the only multi-valued parameter expands to `n`
/// groups, the `j`-th of which binds the parameter to the `j`-th text.
pub proof fn lemma_list_expansion(g: InputGroupView, i: int, items: Seq<Seq<char>>)
    requires
        0 <= i < g.args.len(),
        g.args[i].1 == ArgValueView::List(items),
        forall|k: int| 0 <= k < g.args.len() && k != i ==> (#[trigger] g.args[k]).1 is Single,
    ensures
        expand_all(g).len() == items.len(),
        forall|j: int|
            0 <= j < items.len() ==> (#[trigger] expand_all(g)[j]).args == g.args.update(
                i,
                (g.args[i].0, ArgValueView::Single(items[j])),
            ),
        forall|j: int|
            0 <= j < items.len() ==> (#[trigger] expand_all(g)[j]).name == g.name + seq!['_']
                + g.args[i].0 + seq!['='] + items[j],
{
    lemma_one_multi_valued_key(g, i);
}

/// A progression that starts at or below its end, with a step of at least
/// one, has `(end - from) / step + 1` members; its `k`-th member spells
/// `from + k * step`, every member lies between `from` and `end`, and the
/// first number that is left out lies beyond `end`.
pub proof fn lemma_progression(from: int, end: int, step: int)
    requires
        from <= end,
        step >= 1,
    ensures
        progression(from, end, step).len() == (end - from) / step + 1,
        forall|k: int|
            0 <= k < progression(from, end, step).len() ==> #[trigger] progression(
                from,
                end,
                step,
            )[k] == decimal(from + k * step) && from <= from + k * step <= end,
        from + ((end - from) / step + 1) * step > end,
    decreases end - from,
{
    let all = progression(from, end, step);
    if from + step > end {
        assert((end - from) / step == 0) by (nonlinear_arith)
            requires
                0 <= end - from < step,
        ;
        assert(((end - from) / step + 1) * step == step) by (nonlinear_arith)
            requires
                (end - from) / step == 0,
        ;
        assert(progression(from + step, end, step) =~= Seq::<Seq<char>>::empty());
        assert(all =~= seq![decimal(from)]);
        assert forall|k: int| 0 <= k < all.len() implies #[trigger] all[k] == decimal(
            from + k * step,
        ) && from <= from + k * step <= end by {
            assert(k * step == 0) by (nonlinear_arith)
                requires
                    k == 0,
            ;
        }
    } else {
        lemma_progression(from + step, end, step);
        let rest = progression(from + step, end, step);
        assert((end - from - step) / step + 1 == (end - from) / step) by (nonlinear_arith)
            requires
                step >= 1,
                end - from - step >= 0,
        ;
        assert(all =~= seq![decimal(from)] + rest);
        assert forall|k: int| 0 <= k < all.len() implies #[trigger] all[k] == decimal(
            from + k * step,
        ) && from <= from + k * step <= end by {
            if k == 0 {
                assert(k * step == 0) by (nonlinear_arith)
                    requires
                        k == 0,
                ;
            } else {
                assert(all[k] == rest[k - 1]);
                assert(from + step + (k - 1) * step == from + k * step) by (nonlinear_arith);
            }
        }
        assert(from + step + ((end - from - step) / step + 1) * step == from + ((end - from)
            / step + 1) * step) by (nonlinear_arith)
            requires
                (end - from - step) / step + 1 == (end - from) / step,
        ;
    }
}

/// One step of expansion on a group whose first list or range is a range
/// that starts at or below its end, with a step of at least one, yields
/// `(end - start) / step + 1` groups, whatever else the group holds and
/// however large the end is; the `k`-th fixes the range's parameter to the
/// decimal spelling of `start + k * step`, which lies between `start` and
/// `end`.
pub proof fn lemma_range_step(g: InputGroupView, i: int, r: RangeExpr)
    requires
        is_first_multi(g.args, i),
        g.args[i].1 == ArgValueView::Range(r),
        r.start <= r.end,
        range_step(r) >= 1,
    ensures
        expand_once(g).len() == (r.end - r.start) / range_step(r) + 1,
        forall|k: int|
            0 <= k < expand_once(g).len() ==> #[trigger] expand_once(g)[k] == fix_choice(
                g,
                i,
                decimal(r.start + k * range_step(r)),
            ) && r.start <= r.start + k * range_step(r) <= r.end,
{
    lemma_first_multi(g.args, i);
    lemma_progression(r.start as int, r.end as int, range_step(r));
    let texts = choices(g.args[i].1);
    assert forall|k: int| 0 <= k < expand_once(g).len() implies #[trigger] expand_once(g)[k]
        == fix_choice(g, i, decimal(r.start + k * range_step(r))) && r.start <= r.start + k
        * range_step(r) <= r.end by {
        assert(texts[k] == decimal(r.start + k * range_step(r)));
    }
}

/// A range under the only multi-valued parameter expands to
/// `(end - start) / step + 1` groups; the `k`-th binds the parameter to the
/// decimal spelling of `start + k * step`, which lies between `start` and
/// `end`.
pub proof fn lemma_range_expansion(g: InputGroupView, i: int, r: RangeExpr)
    requires
        0 <= i < g.args.len(),
        g.args[i].1 == ArgValueView::Range(r),
        forall|k: int| 0 <= k < g.args.len() && k != i ==> (#[trigger] g.args[k]).1 is Single,
        r.start <= r.end,
        range_step(r) >= 1,
    ensures
        expand_all(g).len() == (r.end - r.start) / range_step(r) + 1,
        forall|k: int|
            0 <= k < expand_all(g).len() ==> (#[trigger] expand_all(g)[k]).args == g.args.update(
                i,
                (g.args[i].0, ArgValueView::Single(decimal(r.start + k * range_step(r)))),
            ) && r.start <= r.start + k * range_step(r) <= r.end,
        r.start + expand_all(g).len() * range_step(r) > r.end,
{
    lemma_one_multi_valued_key(g, i);
    lemma_progression(r.start as int, r.end as int, range_step(r));
    let texts = choices(g.args[i].1);
    assert forall|k: int| 0 <= k < expand_all(g).len() implies (#[trigger] expand_all(
        g,
    )[k]).args == g.args.update(
        i,
        (g.args[i].0, ArgValueView::Single(decimal(r.start + k * range_step(r)))),
    ) && r.start <= r.start + k * range_step(r) <= r.end by {
        assert(texts[k] == decimal(r.start + k * range_step(r)));
    }
}

} // verus!
