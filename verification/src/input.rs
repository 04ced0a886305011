//! Input values and the ordered, duplicate-free table that binds parameter
//! names to them.
use crate::text::{decimal, push_decimal_nat, push_str_chars, same_text, string_of};
use vstd::prelude::*;

verus! {

/// An arithmetic progression of integers, `start`, `start + step`, ... up to
/// and including `end`. A missing step means one.
#[derive(Clone, Copy, Debug, PartialEq, Eq)]
pub struct RangeExpr {
    pub start: i32,
    pub end: i32,
    pub step: Option<i32>,
}

/// What a parameter is bound to: one text, an explicit list of texts, or a
/// numeric range.
#[derive(Debug, PartialEq)]
pub enum ArgValue {
    Single(String),
    List(Vec<String>),
    Range(RangeExpr),
}

/// The mathematical content of an [`ArgValue`].
pub enum ArgValueView {
    Single(Seq<char>),
    List(Seq<Seq<char>>),
    Range(RangeExpr),
}

impl DeepView for ArgValue {
    type V = ArgValueView;

    open spec fn deep_view(&self) -> ArgValueView {
        match self {
            ArgValue::Single(s) => ArgValueView::Single(s@),
            ArgValue::List(items) => ArgValueView::List(items.deep_view()),
            ArgValue::Range(r) => ArgValueView::Range(*r),
        }
    }
}

impl View for ArgValue {
    type V = ArgValueView;

    open spec fn view(&self) -> ArgValueView {
        self.deep_view()
    }
}

/// A copy of a list of strings, text for text.
pub fn clone_strings(v: &Vec<String>) -> (r: Vec<String>)
    ensures
        r.deep_view() == v.deep_view(),
{
    let mut r: Vec<String> = Vec::new();
    let mut i: usize = 0;
    while i < v.len()
        invariant
            i <= v.len(),
            r.len() == i,
            forall|k: int| 0 <= k < i ==> r[k]@ == v[k]@,
        decreases v.len() - i,
    {
        r.push(v[i].clone());
        i += 1;
    }
    r
}

impl Clone for ArgValue {
    fn clone(&self) -> (r: Self)
        ensures
            r@ == self@,
    {
        match self {
            ArgValue::Single(s) => ArgValue::Single(s.clone()),
            ArgValue::List(items) => ArgValue::List(clone_strings(items)),
            ArgValue::Range(r) => ArgValue::Range(*r),
        }
    }
}

/// Whether some binding of `m` has the key `key`.
pub open spec fn has_key(m: Seq<(Seq<char>, ArgValueView)>, key: Seq<char>) -> bool {
    exists|i: int| 0 <= i < m.len() && (#[trigger] m[i]).0 == key
}

/// The position of the binding of `key` in `m`, where there is one.
pub open spec fn position(m: Seq<(Seq<char>, ArgValueView)>, key: Seq<char>) -> int {
    choose|i: int| 0 <= i < m.len() && (#[trigger] m[i]).0 == key
}

/// What `key` is bound to in `m`, if anything.
pub open spec fn lookup(m: Seq<(Seq<char>, ArgValueView)>, key: Seq<char>) -> Option<
    ArgValueView,
> {
    if has_key(m, key) {
        Some(m[position(m, key)].1)
    } else {
        None
    }
}

/// No two bindings of `m` share a key.
pub open spec fn distinct_keys(m: Seq<(Seq<char>, ArgValueView)>) -> bool {
    forall|i: int, j: int| 0 <= i < j < m.len() ==> (#[trigger] m[i]).0 != (#[trigger] m[j]).0
}

/// `m` after binding `key` to `value`: an existing binding keeps its place
/// and gets the new value, a new one goes to the end.
pub open spec fn bind(m: Seq<(Seq<char>, ArgValueView)>, key: Seq<char>, value: ArgValueView) -> Seq<
    (Seq<char>, ArgValueView),
> {
    if has_key(m, key) {
        m.update(position(m, key), (key, value))
    } else {
        m.push((key, value))
    }
}

/// In a table with distinct keys, the position of a key is the one place
/// where it stands.
pub proof fn lemma_position_unique(m: Seq<(Seq<char>, ArgValueView)>, i: int)
    requires
        distinct_keys(m),
        0 <= i < m.len(),
    ensures
        has_key(m, m[i].0),
        position(m, m[i].0) == i,
{
    let j = position(m, m[i].0);
    assert(0 <= j < m.len() && m[j].0 == m[i].0);
    if j < i {
        assert(m[j].0 != m[i].0);
    } else if i < j {
        assert(m[i].0 != m[j].0);
    }
}

/// Binding keeps keys distinct.
pub proof fn lemma_bind_distinct(m: Seq<(Seq<char>, ArgValueView)>, key: Seq<char>, value: ArgValueView)
    requires
        distinct_keys(m),
    ensures
        distinct_keys(bind(m, key, value)),
{
    let r = bind(m, key, value);
    assert forall|i: int, j: int| 0 <= i < j < r.len() implies (#[trigger] r[i]).0 != (
    #[trigger] r[j]).0 by {
        if has_key(m, key) {
            let p = position(m, key);
            assert(m[p].0 == key);
            assert(r[i].0 == m[i].0);
            assert(r[j].0 == m[j].0);
        } else {
            if j == m.len() {
                assert(r[i] == m[i]);
                assert(m[i].0 != key);
            } else {
                assert(r[i] == m[i]);
                assert(r[j] == m[j]);
            }
        }
    }
}

/// An insertion-ordered table from parameter names to values in which every
/// name occurs at most once.
#[derive(Debug)]
pub struct ArgMap {
    entries: Vec<(String, ArgValue)>,
}

impl View for ArgMap {
    type V = Seq<(Seq<char>, ArgValueView)>;

    closed spec fn view(&self) -> Seq<(Seq<char>, ArgValueView)> {
        Seq::new(self.entries@.len(), |i: int| (self.entries@[i].0@, self.entries@[i].1@))
    }
}

impl DeepView for ArgMap {
    type V = Seq<(Seq<char>, ArgValueView)>;

    open spec fn deep_view(&self) -> Seq<(Seq<char>, ArgValueView)> {
        self.view()
    }
}

impl ArgMap {
    /// What every table satisfies: no name occurs twice.
    #[verifier::type_invariant]
    spec fn keys_are_distinct(self) -> bool {
        distinct_keys(self@)
    }

    /// The empty table.
    pub fn new() -> (m: ArgMap)
        ensures
            m@ == Seq::<(Seq<char>, ArgValueView)>::empty(),
    {
        ArgMap { entries: Vec::new() }
    }

    /// The number of bindings.
    pub fn len(&self) -> (n: usize)
        ensures
            n == self@.len(),
            distinct_keys(self@),
    {
        proof {
            use_type_invariant(self);
        }
        self.entries.len()
    }

    /// Whether the table has no binding.
    pub fn is_empty(&self) -> (r: bool)
        ensures
            r == (self@.len() == 0),
    {
        self.entries.len() == 0
    }

    /// The key of the `i`-th binding.
    pub fn key_at(&self, i: usize) -> (k: &String)
        requires
            i < self@.len(),
        ensures
            k@ == self@[i as int].0,
            distinct_keys(self@),
    {
        proof {
            use_type_invariant(self);
        }
        &self.entries[i].0
    }

    /// The value of the `i`-th binding.
    pub fn value_at(&self, i: usize) -> (v: &ArgValue)
        requires
            i < self@.len(),
        ensures
            v@ == self@[i as int].1,
            distinct_keys(self@),
    {
        proof {
            use_type_invariant(self);
        }
        &self.entries[i].1
    }

    /// The position at which `key` is bound, if it is.
    pub fn find(&self, key: &str) -> (r: Option<usize>)
        ensures
            distinct_keys(self@),
            r is Some == has_key(self@, key@),
            r matches Some(i) ==> i < self@.len() && i == position(self@, key@),
    {
        proof {
            use_type_invariant(self);
        }
        let mut i: usize = 0;
        while i < self.entries.len()
            invariant
                i <= self.entries.len(),
                distinct_keys(self@),
                forall|k: int| 0 <= k < i ==> (#[trigger] self@[k]).0 != key@,
            decreases self.entries.len() - i,
        {
            if same_text(self.entries[i].0.as_str(), key) {
                proof {
                    lemma_position_unique(self@, i as int);
                }
                return Some(i);
            }
            i += 1;
        }
        None
    }

    /// Whether `key` is bound.
    pub fn contains_key(&self, key: &str) -> (r: bool)
        ensures
            r == has_key(self@, key@),
    {
        self.find(key).is_some()
    }

    /// What `key` is bound to, if anything.
    pub fn get(&self, key: &str) -> (r: Option<&ArgValue>)
        ensures
            r is Some == has_key(self@, key@),
            r matches Some(v) ==> Some(v@) == lookup(self@, key@),
    {
        match self.find(key) {
            Some(i) => Some(&self.entries[i].1),
            None => None,
        }
    }

    /// Binds `key` to `value`. A key that was bound keeps its place and gives
    /// back its former value; a new key goes to the end.
    pub fn insert(&mut self, key: String, value: ArgValue) -> (former: Option<ArgValue>)
        ensures
            final(self)@ == bind(old(self)@, key@, value@),
            former is Some == has_key(old(self)@, key@),
            former matches Some(v) ==> Some(v@) == lookup(old(self)@, key@),
    {
        proof {
            use_type_invariant(&*self);
            lemma_bind_distinct(self@, key@, value@);
        }
        let found = self.find(key.as_str());
        let ghost before = self@;
        let mut entries: Vec<(String, ArgValue)> = Vec::new();
        core::mem::swap(&mut self.entries, &mut entries);
        let former = match found {
            Some(i) => {
                let (_, former) = entries.remove(i);
                entries.insert(i, (key, value));
                Some(former)
            },
            None => {
                entries.push((key, value));
                None
            },
        };
        assert(Seq::new(entries@.len(), |i: int| (entries@[i].0@, entries@[i].1@)) =~= bind(
            before,
            key@,
            value@,
        ));
        self.entries = entries;
        former
    }

    /// Gives the `i`-th binding a new value; its key stays.
    pub fn set_value(&mut self, i: usize, value: ArgValue)
        requires
            i < old(self)@.len(),
        ensures
            final(self)@ == old(self)@.update(i as int, (old(self)@[i as int].0, value@)),
    {
        proof {
            use_type_invariant(&*self);
        }
        let ghost before = self@;
        let mut entries: Vec<(String, ArgValue)> = Vec::new();
        core::mem::swap(&mut self.entries, &mut entries);
        let (key, _) = entries.remove(i);
        entries.insert(i, (key, value));
        let ghost after = before.update(i as int, (before[i as int].0, value@));
        assert(Seq::new(entries@.len(), |k: int| (entries@[k].0@, entries@[k].1@)) =~= after);
        assert(distinct_keys(after)) by {
            assert forall|a: int, b: int| 0 <= a < b < after.len() implies (#[trigger] after[a]).0
                != (#[trigger] after[b]).0 by {
                assert(after[a].0 == before[a].0 && after[b].0 == before[b].0);
            }
        }
        self.entries = entries;
    }
}

impl Clone for ArgMap {
    fn clone(&self) -> (r: Self)
        ensures
            r@ == self@,
    {
        proof {
            use_type_invariant(self);
        }
        let mut entries: Vec<(String, ArgValue)> = Vec::new();
        let mut i: usize = 0;
        while i < self.entries.len()
            invariant
                i <= self.entries.len(),
                entries.len() == i,
                forall|k: int|
                    0 <= k < i ==> (#[trigger] entries@[k]).0@ == self.entries@[k].0@
                        && entries@[k].1@ == self.entries@[k].1@,
            decreases self.entries.len() - i,
        {
            entries.push((self.entries[i].0.clone(), self.entries[i].1.clone()));
            i += 1;
        }
        assert(Seq::new(entries@.len(), |i: int| (entries@[i].0@, entries@[i].1@)) =~= self@);
        ArgMap { entries }
    }
}

/// One named parameterization of a test.
#[derive(Debug)]
pub struct InputGroup {
    pub name: String,
    pub args: ArgMap,
    pub should_panic: Option<bool>,
    pub break_if_fail: Option<bool>,
    pub refs: Vec<String>,
}

/// The mathematical content of an [`InputGroup`].
pub struct InputGroupView {
    pub name: Seq<char>,
    pub args: Seq<(Seq<char>, ArgValueView)>,
    pub should_panic: Option<bool>,
    pub break_if_fail: Option<bool>,
    pub refs: Seq<Seq<char>>,
}

impl DeepView for InputGroup {
    type V = InputGroupView;

    open spec fn deep_view(&self) -> InputGroupView {
        InputGroupView {
            name: self.name@,
            args: self.args@,
            should_panic: self.should_panic,
            break_if_fail: self.break_if_fail,
            refs: self.refs.deep_view(),
        }
    }
}

impl View for InputGroup {
    type V = InputGroupView;

    open spec fn view(&self) -> InputGroupView {
        self.deep_view()
    }
}

impl Clone for InputGroup {
    fn clone(&self) -> (r: Self)
        ensures
            r@ == self@,
    {
        InputGroup {
            name: self.name.clone(),
            args: self.args.clone(),
            should_panic: self.should_panic,
            break_if_fail: self.break_if_fail,
            refs: clone_strings(&self.refs),
        }
    }
}

impl Default for InputGroup {
    fn default() -> (g: Self)
        ensures
            g@.name.len() == 0,
            g@.args.len() == 0,
            g@.should_panic is None,
            g@.break_if_fail is None,
            g@.refs.len() == 0,
    {
        InputGroup {
            name: String::new(),
            args: ArgMap::new(),
            should_panic: None,
            break_if_fail: None,
            refs: Vec::new(),
        }
    }
}

/// The name given to the next input group that declares none: `default`
/// followed by the counter, which then moves on by one.
pub fn default_input_name(counter: &mut usize) -> (name: String)
    ensures
        name@ == "default"@ + decimal(*old(counter) as int),
        *final(counter) == if *old(counter) == usize::MAX {
            0
        } else {
            *old(counter) + 1
        },
{
    let mut v: Vec<char> = Vec::new();
    push_str_chars(&mut v, "default");
    push_decimal_nat(&mut v, *counter as u64);
    *counter = counter.wrapping_add(1);
    string_of(&v)
}

} // verus!
