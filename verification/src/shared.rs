//! Shared input groups and the resolution of references to them.
use crate::error::{TestError, TestErrorView};
use crate::input::{
    distinct_keys, has_key, position, ArgMap, ArgValue, ArgValueView, InputGroup, InputGroupView,
};
use crate::test::{Test, TestView};
use crate::text::{push_str_chars, same_text, string_of, to_chars};
use vstd::prelude::*;

verus! {

/// The named input groups that tests may refer to.
#[derive(Debug)]
pub struct SharedInputs {
    groups: Vec<(String, ArgMap)>,
}

impl View for SharedInputs {
    type V = Seq<(Seq<char>, Seq<(Seq<char>, ArgValueView)>)>;

    closed spec fn view(&self) -> Seq<(Seq<char>, Seq<(Seq<char>, ArgValueView)>)> {
        Seq::new(self.groups@.len(), |i: int| (self.groups@[i].0@, self.groups@[i].1@))
    }
}

/// The bindings of the first group of that name, if there is one.
pub open spec fn find_group(
    shared: Seq<(Seq<char>, Seq<(Seq<char>, ArgValueView)>)>,
    name: Seq<char>,
) -> Option<Seq<(Seq<char>, ArgValueView)>>
    decreases shared.len(),
{
    if shared.len() == 0 {
        None
    } else if shared[0].0 == name {
        Some(shared[0].1)
    } else {
        find_group(shared.skip(1), name)
    }
}

/// What `shared` is after a group is stored under `name`: a group that had
/// the name is replaced, else the new one goes to the end.
pub open spec fn store_group(
    shared: Seq<(Seq<char>, Seq<(Seq<char>, ArgValueView)>)>,
    name: Seq<char>,
    args: Seq<(Seq<char>, ArgValueView)>,
) -> Seq<(Seq<char>, Seq<(Seq<char>, ArgValueView)>)>
    decreases shared.len(),
{
    if shared.len() == 0 {
        seq![(name, args)]
    } else if shared[0].0 == name {
        seq![(name, args)] + shared.skip(1)
    } else {
        seq![shared[0]] + store_group(shared.skip(1), name, args)
    }
}

impl SharedInputs {
    /// No shared group at all.
    pub fn new() -> (s: SharedInputs)
        ensures
            s@.len() == 0,
    {
        SharedInputs { groups: Vec::new() }
    }

    /// The number of shared groups.
    pub fn len(&self) -> (n: usize)
        ensures
            n == self@.len(),
    {
        self.groups.len()
    }

    /// The bindings of the group `name`, if there is one.
    pub fn get(&self, name: &str) -> (r: Option<&ArgMap>)
        ensures
            r is Some == find_group(self@, name@) is Some,
            r matches Some(args) ==> Some(args@) == find_group(self@, name@),
    {
        let mut i: usize = 0;
        assert(self@.skip(0) =~= self@);
        while i < self.groups.len()
            invariant
                i <= self.groups.len(),
                find_group(self@, name@) == find_group(self@.skip(i as int), name@),
            decreases self.groups.len() - i,
        {
            assert(self@.skip(i as int).skip(1) =~= self@.skip(i + 1));
            if same_text(self.groups[i].0.as_str(), name) {
                return Some(&self.groups[i].1);
            }
            i += 1;
        }
        None
    }

    /// Stores a group under `name`, in place of a group that had the name.
    pub fn insert(&mut self, name: String, args: ArgMap)
        ensures
            final(self)@ == store_group(old(self)@, name@, args@),
    {
        let ghost before = self@;
        let mut i: usize = 0;
        assert(self@.skip(0) =~= self@);
        while i < self.groups.len()
            invariant
                i <= self.groups.len(),
                self@ == before,
                before == old(self)@,
                store_group(before, name@, args@) == before.take(i as int) + store_group(
                    before.skip(i as int),
                    name@,
                    args@,
                ),
            decreases self.groups.len() - i,
        {
            let ghost rest = before.skip(i as int);
            assert(rest.skip(1) =~= before.skip(i + 1));
            if same_text(self.groups[i].0.as_str(), name.as_str()) {
                self.groups.remove(i);
                self.groups.insert(i, (name, args));
                return ;
            }
            i += 1;
        }
        self.groups.push((name, args));
    }
}

/// What has been gathered from referenced groups: the bindings, in the order
/// in which they were met, and for each the name of the group it came from.
pub struct Gathered {
    pub vars: Seq<(Seq<char>, ArgValueView)>,
    pub owners: Seq<Seq<char>>,
}

/// The text that names a parameter defined by two referenced groups.
pub open spec fn duplicate_text(key: Seq<char>, first: Seq<char>, second: Seq<char>) -> Seq<
    char,
> {
    "Parameter '"@ + key + "' is duplicated in shared_inputs '"@ + first + "' and '"@ + second
        + "'"@
}

/// Adds the bindings of one referenced group to what was gathered. A
/// parameter that was gathered before is a conflict between the group that
/// defined it then and this one.
pub open spec fn gather_group(
    acc: Gathered,
    group: Seq<(Seq<char>, ArgValueView)>,
    owner: Seq<char>,
) -> Result<Gathered, TestErrorView>
    decreases group.len(),
{
    if group.len() == 0 {
        Ok(acc)
    } else if has_key(acc.vars, group[0].0) {
        Err(
            TestErrorView::DuplicateArg(
                duplicate_text(group[0].0, acc.owners[position(acc.vars, group[0].0)], owner),
            ),
        )
    } else {
        gather_group(
            Gathered { vars: acc.vars.push(group[0]), owners: acc.owners.push(owner) },
            group.skip(1),
            owner,
        )
    }
}

/// Gathers the bindings of the referenced groups, reference by reference.
/// The first reference to a group that does not exist, or the first
/// parameter that two references define, ends it with that error.
pub open spec fn gather(
    shared: Seq<(Seq<char>, Seq<(Seq<char>, ArgValueView)>)>,
    refs: Seq<Seq<char>>,
    acc: Gathered,
) -> Result<Gathered, TestErrorView>
    decreases refs.len(),
{
    if refs.len() == 0 {
        Ok(acc)
    } else {
        match find_group(shared, refs[0]) {
            None => Err(TestErrorView::SharedInputNotFound(refs[0])),
            Some(group) => match gather_group(acc, group, refs[0]) {
                Err(e) => Err(e),
                Ok(next) => gather(shared, refs.skip(1), next),
            },
        }
    }
}

/// The bindings of a group after those gathered from its references are
/// merged in: a parameter that the group binds itself keeps its binding.
pub open spec fn merge(
    args: Seq<(Seq<char>, ArgValueView)>,
    vars: Seq<(Seq<char>, ArgValueView)>,
) -> Seq<(Seq<char>, ArgValueView)>
    decreases vars.len(),
{
    if vars.len() == 0 {
        args
    } else if has_key(args, vars[0].0) {
        merge(args, vars.skip(1))
    } else {
        merge(args.push(vars[0]), vars.skip(1))
    }
}

/// Whether a value is a single text that names, behind the variable mark, a
/// parameter gathered from the references.
pub open spec fn names_gathered(v: ArgValueView, vars: Seq<(Seq<char>, ArgValueView)>) -> bool {
    v matches ArgValueView::Single(s) && s.len() > 0 && s[0] == '$' && has_key(vars, s.skip(1))
}

/// A value after resolution: one that names a gathered parameter becomes
/// that parameter's value, any other stays.
pub open spec fn resolve_value(
    v: ArgValueView,
    vars: Seq<(Seq<char>, ArgValueView)>,
) -> ArgValueView {
    match v {
        ArgValueView::Single(s) => if names_gathered(v, vars) {
            vars[position(vars, s.skip(1))].1
        } else {
            v
        },
        _ => v,
    }
}

/// The bindings of a group after resolution against what was gathered.
pub open spec fn resolve_args(
    args: Seq<(Seq<char>, ArgValueView)>,
    vars: Seq<(Seq<char>, ArgValueView)>,
) -> Seq<(Seq<char>, ArgValueView)> {
    let merged = merge(args, vars);
    Seq::new(merged.len(), |i: int| (merged[i].0, resolve_value(merged[i].1, vars)))
}

/// An input group after the resolution of its references, or the error that
/// ends the resolution.
pub open spec fn resolve_group(
    g: InputGroupView,
    shared: Seq<(Seq<char>, Seq<(Seq<char>, ArgValueView)>)>,
) -> Result<InputGroupView, TestErrorView> {
    match gather(shared, g.refs, Gathered { vars: Seq::empty(), owners: Seq::empty() }) {
        Err(e) => Err(e),
        Ok(acc) => Ok(
            InputGroupView {
                name: g.name,
                args: resolve_args(g.args, acc.vars),
                should_panic: g.should_panic,
                break_if_fail: g.break_if_fail,
                refs: g.refs,
            },
        ),
    }
}

/// The input groups of a test after resolution, or the error of the first
/// group that has one.
pub open spec fn resolve_groups(
    inputs: Seq<InputGroupView>,
    shared: Seq<(Seq<char>, Seq<(Seq<char>, ArgValueView)>)>,
) -> Result<Seq<InputGroupView>, TestErrorView>
    decreases inputs.len(),
{
    if inputs.len() == 0 {
        Ok(Seq::empty())
    } else {
        match resolve_groups(inputs.drop_last(), shared) {
            Err(e) => Err(e),
            Ok(head) => match resolve_group(inputs.last(), shared) {
                Err(e) => Err(e),
                Ok(g) => Ok(head.push(g)),
            },
        }
    }
}

/// The text that names a parameter defined by two referenced groups.
fn duplicate_message(key: &str, first: &str, second: &str) -> (s: String)
    ensures
        s@ == duplicate_text(key@, first@, second@),
{
    let mut v: Vec<char> = Vec::new();
    push_str_chars(&mut v, "Parameter '");
    push_str_chars(&mut v, key);
    push_str_chars(&mut v, "' is duplicated in shared_inputs '");
    push_str_chars(&mut v, first);
    push_str_chars(&mut v, "' and '");
    push_str_chars(&mut v, second);
    push_str_chars(&mut v, "'");
    string_of(&v)
}

/// Gathers the bindings of the referenced groups and, beside them, the names
/// of the groups they came from.
#[verifier::loop_isolation(false)]
fn gather_refs(refs: &Vec<String>, shared: &SharedInputs) -> (r: Result<
    (ArgMap, Vec<String>),
    TestError,
>)
    ensures
        match gather(
            shared@,
            refs.deep_view(),
            Gathered { vars: Seq::empty(), owners: Seq::empty() },
        ) {
            Ok(acc) => r matches Ok(got) && got.0@ == acc.vars && got.1.deep_view()
                == acc.owners,
            Err(e) => r matches Err(err) && err@ == e,
        },
{
    let mut vars = ArgMap::new();
    let mut owners: Vec<String> = Vec::new();
    let ghost start = Gathered { vars: Seq::empty(), owners: Seq::empty() };
    let ghost goal = gather(shared@, refs.deep_view(), start);
    let mut i: usize = 0;
    assert(refs.deep_view().skip(0) =~= refs.deep_view());
    assert(owners.deep_view() =~= Seq::<Seq<char>>::empty());
    while i < refs.len()
        invariant
            i <= refs.len(),
            owners.len() == vars@.len(),
            goal == gather(
                shared@,
                refs.deep_view().skip(i as int),
                Gathered { vars: vars@, owners: owners.deep_view() },
            ),
        decreases refs.len() - i,
    {
        let ghost rest = refs.deep_view().skip(i as int);
        assert(rest.skip(1) =~= refs.deep_view().skip(i + 1));
        let ref_name = &refs[i];
        match shared.get(ref_name.as_str()) {
            None => {
                return Err(TestError::SharedInputNotFound(ref_name.clone()));
            },
            Some(group) => {
                let ghost entry = Gathered { vars: vars@, owners: owners.deep_view() };
                let n = group.len();
                let mut j: usize = 0;
                assert(group@.skip(0) =~= group@);
                while j < n
                    invariant
                        j <= n,
                        n == group@.len(),
                        owners.len() == vars@.len(),
                        ref_name@ == rest[0],
                        gather_group(entry, group@, rest[0]) == gather_group(
                            Gathered { vars: vars@, owners: owners.deep_view() },
                            group@.skip(j as int),
                            rest[0],
                        ),
                    decreases n - j,
                {
                    let ghost left = group@.skip(j as int);
                    assert(left.skip(1) =~= group@.skip(j + 1));
                    let key = group.key_at(j);
                    match vars.find(key.as_str()) {
                        Some(p) => {
                            return Err(
                                TestError::DuplicateArg(
                                    duplicate_message(
                                        key.as_str(),
                                        owners[p].as_str(),
                                        ref_name.as_str(),
                                    ),
                                ),
                            );
                        },
                        None => {
                            let ghost before = owners.deep_view();
                            vars.insert(key.clone(), group.value_at(j).clone());
                            owners.push(ref_name.clone());
                            assert(owners.deep_view() =~= before.push(rest[0]));
                        },
                    }
                    j += 1;
                }
            },
        }
        i += 1;
    }
    Ok((vars, owners))
}

/// Merges gathered bindings into `args`, passing over every parameter that
/// `args` binds already.
fn merge_into(args: &mut ArgMap, vars: &ArgMap)
    ensures
        final(args)@ == merge(old(args)@, vars@),
{
    let n = vars.len();
    let mut i: usize = 0;
    assert(vars@.skip(0) =~= vars@);
    while i < n
        invariant
            i <= n,
            n == vars@.len(),
            merge(old(args)@, vars@) == merge(args@, vars@.skip(i as int)),
        decreases n - i,
    {
        let ghost rest = vars@.skip(i as int);
        assert(rest.skip(1) =~= vars@.skip(i + 1));
        let key = vars.key_at(i);
        if !args.contains_key(key.as_str()) {
            args.insert(key.clone(), vars.value_at(i).clone());
        }
        i += 1;
    }
}

/// Replaces every value of `args` that names a gathered parameter by that
/// parameter's value.
fn resolve_values(args: &mut ArgMap, vars: &ArgMap)
    ensures
        final(args)@ == Seq::new(
            old(args)@.len(),
            |i: int| (old(args)@[i].0, resolve_value(old(args)@[i].1, vars@)),
        ),
{
    let n = args.len();
    let mut i: usize = 0;
    while i < n
        invariant
            i <= n,
            n == old(args)@.len(),
            args@.len() == n,
            forall|k: int|
                0 <= k < i ==> #[trigger] args@[k] == (
                    old(args)@[k].0,
                    resolve_value(old(args)@[k].1, vars@),
                ),
            forall|k: int| i <= k < n ==> #[trigger] args@[k] == old(args)@[k],
        decreases n - i,
    {
        let mut replacement: Option<ArgValue> = None;
        match args.value_at(i) {
            ArgValue::Single(s) => {
                let chars = to_chars(s.as_str());
                if chars.len() > 0 && chars[0] == '$' {
                    let name = crate::text::from_chars(&chars, 1, chars.len());
                    match vars.find(name.as_str()) {
                        Some(p) => {
                            replacement = Some(vars.value_at(p).clone());
                        },
                        None => {},
                    }
                }
            },
            _ => {},
        }
        match replacement {
            Some(value) => {
                args.set_value(i, value);
            },
            None => {},
        }
        i += 1;
    }
}

impl InputGroup {
    /// The group after the resolution of its references against `shared`:
    /// the bindings of the referenced groups are merged in, without
    /// replacing a binding of the group's own, and every value that names a
    /// referenced parameter behind `$` becomes that parameter's value.
    /// Fails where a referenced group does not exist, and where two
    /// references define the same parameter.
    pub fn resolved(&self, shared: &SharedInputs) -> (r: Result<InputGroup, TestError>)
        ensures
            match resolve_group(self@, shared@) {
                Ok(g) => r matches Ok(got) && got@ == g,
                Err(e) => r matches Err(err) && err@ == e,
            },
    {
        match gather_refs(&self.refs, shared) {
            Err(e) => Err(e),
            Ok((vars, _)) => {
                let mut args = self.args.clone();
                merge_into(&mut args, &vars);
                resolve_values(&mut args, &vars);
                Ok(
                    InputGroup {
                        name: self.name.clone(),
                        args,
                        should_panic: self.should_panic,
                        break_if_fail: self.break_if_fail,
                        refs: crate::input::clone_strings(&self.refs),
                    },
                )
            },
        }
    }
}

impl Test {
    /// Resolves the references of every input group against `shared`. On an
    /// error, the first in the order of the input groups, the test is left as
    /// it was.
    pub fn resolve_refs(&mut self, shared: &SharedInputs) -> (r: Result<(), TestError>)
        ensures
            match resolve_groups(old(self)@.inputs, shared@) {
                Ok(inputs) => r is Ok && final(self)@ == (TestView { inputs, ..old(self)@ }),
                Err(e) => r matches Err(err) && err@ == e && final(self)@ == old(self)@,
            },
    {
        let mut inputs: Vec<InputGroup> = Vec::new();
        let mut i: usize = 0;
        assert(inputs.deep_view() =~= Seq::<InputGroupView>::empty());
        while i < self.inputs.len()
            invariant
                i <= self.inputs.len(),
                *self == *old(self),
                resolve_groups(self@.inputs.take(i as int), shared@) == Ok::<
                    Seq<InputGroupView>,
                    TestErrorView,
                >(inputs.deep_view()),
            decreases self.inputs.len() - i,
        {
            let ghost upto = self@.inputs.take(i + 1);
            assert(upto.drop_last() =~= self@.inputs.take(i as int));
            let ghost before = inputs.deep_view();
            match self.inputs[i].resolved(shared) {
                Err(e) => {
                    proof {
                        lemma_error_stays(self@.inputs, shared@, i + 1);
                    }
                    return Err(e);
                },
                Ok(g) => {
                    inputs.push(g);
                    assert(inputs.deep_view() =~= before.push(g@));
                },
            }
            i += 1;
        }
        assert(self@.inputs.take(i as int) =~= self@.inputs);
        self.inputs = inputs;
        Ok(())
    }
}

/// An error within the first `k` input groups is the error of the whole
/// list.
pub proof fn lemma_error_stays(
    inputs: Seq<InputGroupView>,
    shared: Seq<(Seq<char>, Seq<(Seq<char>, ArgValueView)>)>,
    k: int,
)
    requires
        0 <= k <= inputs.len(),
        resolve_groups(inputs.take(k), shared) is Err,
    ensures
        resolve_groups(inputs, shared) == resolve_groups(inputs.take(k), shared),
    decreases inputs.len(),
{
    if k == inputs.len() {
        assert(inputs.take(k) =~= inputs);
    } else {
        assert(inputs.drop_last().take(k) =~= inputs.take(k));
        lemma_error_stays(inputs.drop_last(), shared, k);
    }
}

/// Nothing gathered yet.
pub open spec fn nothing_gathered() -> Gathered {
    Gathered { vars: Seq::empty(), owners: Seq::empty() }
}

/// What is gathered from one group alone: its bindings, each owned by it.
pub open spec fn gathered_from(group: Seq<(Seq<char>, ArgValueView)>, owner: Seq<char>) -> Gathered {
    Gathered { vars: group, owners: Seq::new(group.len(), |i: int| owner) }
}

/// Gathering from a first group with distinct parameters succeeds and
/// yields that group's bindings.
pub proof fn lemma_gather_first(whole: Seq<(Seq<char>, ArgValueView)>, j: int, owner: Seq<char>)
    requires
        distinct_keys(whole),
        0 <= j <= whole.len(),
    ensures
        gather_group(gathered_from(whole.take(j), owner), whole.skip(j), owner) == Ok::<
            Gathered,
            TestErrorView,
        >(gathered_from(whole, owner)),
    decreases whole.len() - j,
{
    let acc = gathered_from(whole.take(j), owner);
    let group = whole.skip(j);
    if j == whole.len() {
        assert(whole.take(j) =~= whole);
    } else {
        assert(group[0] == whole[j]);
        if has_key(acc.vars, group[0].0) {
            let p = position(acc.vars, group[0].0);
            assert(whole[p].0 == whole[j].0);
        }
        let next = Gathered { vars: acc.vars.push(group[0]), owners: acc.owners.push(owner) };
        assert(next.vars =~= whole.take(j + 1));
        assert(next.owners =~= Seq::new((j + 1) as nat, |i: int| owner));
        assert(group.skip(1) =~= whole.skip(j + 1));
        lemma_gather_first(whole, j + 1, owner);
    }
}

/// Gathering from a second group that defines a parameter of the first one
/// fails, and the error names such a parameter and both groups, first then
/// second.
pub proof fn lemma_gather_second(
    acc: Gathered,
    base: Seq<(Seq<char>, ArgValueView)>,
    first: Seq<char>,
    whole: Seq<(Seq<char>, ArgValueView)>,
    j: int,
    owner: Seq<char>,
)
    requires
        distinct_keys(whole),
        0 <= j <= whole.len(),
        acc.vars == base + whole.take(j),
        acc.owners.len() == acc.vars.len(),
        forall|i: int| 0 <= i < base.len() ==> acc.owners[i] == first,
        distinct_keys(acc.vars),
        exists|m: int| j <= m < whole.len() && has_key(base, (#[trigger] whole[m]).0),
    ensures
        gather_group(acc, whole.skip(j), owner) matches Err(TestErrorView::DuplicateArg(text))
            && exists|key: Seq<char>|
            has_key(base, key) && has_key(whole, key) && text == #[trigger] duplicate_text(
                key,
                first,
                owner,
            ),
    decreases whole.len() - j,
{
    let group = whole.skip(j);
    let m = choose|m: int| j <= m < whole.len() && has_key(base, (#[trigger] whole[m]).0);
    assert(group[0] == whole[j]);
    let key = whole[j].0;
    if has_key(acc.vars, key) {
        let p = position(acc.vars, key);
        if p >= base.len() {
            assert(acc.vars[p] == whole[p - base.len()]);
            assert(whole[p - base.len()].0 != whole[j].0);
        }
        assert(base[p] == acc.vars[p]);
        assert(has_key(base, key));
        assert(has_key(whole, key));
        assert(gather_group(acc, group, owner) == Err::<Gathered, TestErrorView>(
            TestErrorView::DuplicateArg(duplicate_text(key, first, owner)),
        ));
    } else {
        if m == j {
            let q = position(base, key);
            assert(acc.vars[q] == base[q]);
            assert(has_key(acc.vars, key));
        }
        let next = Gathered { vars: acc.vars.push(group[0]), owners: acc.owners.push(owner) };
        assert(next.vars =~= base + whole.take(j + 1));
        assert(group.skip(1) =~= whole.skip(j + 1));
        crate::input::lemma_bind_distinct(acc.vars, key, whole[j].1);
        assert(whole[m].0 == whole[m].0);
        lemma_gather_second(next, base, first, whole, j + 1, owner);
    }
}

/// References to a group and then to another that defines a parameter of
/// the first are a conflict: gathering fails with a duplicate argument whose
/// text names a common parameter and both groups, first then second.
pub proof fn lemma_conflict_first_then_second(
    shared: Seq<(Seq<char>, Seq<(Seq<char>, ArgValueView)>)>,
    a: Seq<char>,
    b: Seq<char>,
    common: Seq<char>,
)
    requires
        find_group(shared, a) is Some,
        find_group(shared, b) is Some,
        distinct_keys(find_group(shared, a)->0),
        distinct_keys(find_group(shared, b)->0),
        has_key(find_group(shared, a)->0, common),
        has_key(find_group(shared, b)->0, common),
    ensures
        gather(shared, seq![a, b], nothing_gathered()) matches Err(
            TestErrorView::DuplicateArg(text),
        ) && exists|key: Seq<char>|
            has_key(find_group(shared, a)->0, key) && has_key(find_group(shared, b)->0, key)
                && text == #[trigger] duplicate_text(key, a, b),
{
    let first = find_group(shared, a)->0;
    let second = find_group(shared, b)->0;
    let refs = seq![a, b];
    assert(first.take(0) =~= Seq::<(Seq<char>, ArgValueView)>::empty());
    assert(first.skip(0) =~= first);
    assert(gathered_from(first.take(0), a).owners =~= Seq::<Seq<char>>::empty());
    lemma_gather_first(first, 0, a);
    let acc = gathered_from(first, a);
    assert(gather_group(nothing_gathered(), first, a) == Ok::<Gathered, TestErrorView>(acc));
    assert(refs.skip(1) =~= seq![b]);
    assert(seq![b].skip(1) =~= Seq::<Seq<char>>::empty());
    let m = position(second, common);
    assert(second[m].0 == common);
    assert(second.take(0) =~= Seq::<(Seq<char>, ArgValueView)>::empty());
    assert(second.skip(0) =~= second);
    assert(first + second.take(0) =~= first);
    lemma_gather_second(acc, first, a, second, 0, b);
    assert(gather(shared, seq![b], acc) == gather_group(acc, second, b));
    assert(gather(shared, refs, nothing_gathered()) == gather(shared, refs.skip(1), acc));
}

} // verus!
