//! Commands: one native call each, with the expectation its result is held
//! against, and the substitution of variables into them.
use crate::condition::{condition_holds, is_negated, Condition, ConditionView};
use crate::input::{clone_strings, ArgMap, ArgValue, ArgValueView};
use crate::commute::same_bindings;
use crate::input::{distinct_keys, has_key, lemma_position_unique, lookup, position};
use crate::text::{matches_at, push_str_chars, string_of, to_chars};
use vstd::prelude::*;

verus! {

/// A call of one registered native function: the function's name, the
/// expectation on its return value, the arguments as `key=value` texts, and
/// whether the call is timed.
#[derive(Debug)]
pub struct Cmd {
    pub opfunc: String,
    pub condition: Condition,
    pub args: Vec<String>,
    pub perf: bool,
}

/// The mathematical content of a [`Cmd`].
pub struct CmdView {
    pub opfunc: Seq<char>,
    pub condition: ConditionView,
    pub args: Seq<Seq<char>>,
    pub perf: bool,
}

impl DeepView for Cmd {
    type V = CmdView;

    open spec fn deep_view(&self) -> CmdView {
        CmdView {
            opfunc: self.opfunc@,
            condition: self.condition@,
            args: self.args.deep_view(),
            perf: self.perf,
        }
    }
}

impl View for Cmd {
    type V = CmdView;

    open spec fn view(&self) -> CmdView {
        self.deep_view()
    }
}

impl Clone for Cmd {
    fn clone(&self) -> (r: Self)
        ensures
            r@ == self@,
    {
        Cmd {
            opfunc: self.opfunc.clone(),
            condition: self.condition.clone(),
            args: clone_strings(&self.args),
            perf: self.perf,
        }
    }
}

/// A copy of a list of commands, command for command.
pub fn clone_cmds(v: &Vec<Cmd>) -> (r: Vec<Cmd>)
    ensures
        r.deep_view() == v.deep_view(),
{
    let mut r: Vec<Cmd> = Vec::new();
    let mut i: usize = 0;
    while i < v.len()
        invariant
            i <= v.len(),
            r.len() == i,
            forall|k: int| 0 <= k < i ==> r[k]@ == v[k]@,
        decreases v.len() - i,
    {
        r.push(v[i].clone());
        i += 1;
    }
    r
}

/// Whether the `i`-th binding of `vars` is to a single text and its name
/// stands at the front of `s`.
pub open spec fn is_candidate(vars: Seq<(Seq<char>, ArgValueView)>, i: int, s: Seq<char>) -> bool {
    0 <= i < vars.len() && vars[i].1 is Single && vars[i].0.is_prefix_of(s)
}

/// The binding to a single text whose name is the longest that stands at the
/// front of `s`, if any does; of two equally long names, which a table with
/// distinct names never has, the earlier.
pub open spec fn best_match(s: Seq<char>, vars: Seq<(Seq<char>, ArgValueView)>) -> Option<int>
    decreases vars.len(),
{
    if vars.len() == 0 {
        None
    } else {
        let prior = best_match(s, vars.drop_last());
        let i = vars.len() - 1;
        if is_candidate(vars, i, s) && (prior matches Some(p) ==> vars[p].0.len()
            < vars[i].0.len()) {
            Some(i)
        } else {
            prior
        }
    }
}

/// The text of a value that is a single text.
pub open spec fn single_text(v: ArgValueView) -> Seq<char> {
    match v {
        ArgValueView::Single(text) => text,
        _ => Seq::empty(),
    }
}

/// What substitution makes of `s` from position `pos` on, reading from left
/// to right. At a `$` that the longest bound name follows, the name's value
/// stands for both; at a `$!` that the longest bound name follows, `!` and
/// the name's value; the reading goes on behind the name. Any other
/// character is copied, a `$` that no bound name follows too.
pub open spec fn substitute_from(s: Seq<char>, pos: int, vars: Seq<(Seq<char>, ArgValueView)>) -> Seq<
    char,
>
    decreases
        (if 0 <= pos <= s.len() {
            s.len() - pos
        } else {
            0
        }),
{
    if pos < 0 || pos >= s.len() {
        Seq::empty()
    } else if s[pos] != '$' {
        seq![s[pos]] + substitute_from(s, pos + 1, vars)
    } else {
        match best_match(s.skip(pos + 1), vars) {
            Some(i) => single_text(vars[i].1) + substitute_from(
                s,
                pos + 1 + vars[i].0.len(),
                vars,
            ),
            None => if pos + 1 < s.len() && s[pos + 1] == '!' {
                match best_match(s.skip(pos + 2), vars) {
                    Some(i) => seq!['!'] + single_text(vars[i].1) + substitute_from(
                        s,
                        pos + 2 + vars[i].0.len(),
                        vars,
                    ),
                    None => seq!['$'] + substitute_from(s, pos + 1, vars),
                }
            } else {
                seq!['$'] + substitute_from(s, pos + 1, vars)
            },
        }
    }
}

/// `s` after substitution of the variables that `vars` binds to single
/// texts: every `$name` becomes the value of `name`, every `$!name` becomes
/// `!` and that value, where `name` is the longest bound name that follows.
/// What was put in is not read again; names that are not bound, and
/// bindings to lists and ranges, leave the text as it is written.
pub open spec fn substitute(s: Seq<char>, vars: Seq<(Seq<char>, ArgValueView)>) -> Seq<char> {
    substitute_from(s, 0, vars)
}

/// The best match is a binding whose name stands at the front of the text,
/// and no bound name that stands there is longer.
pub proof fn lemma_best_match(s: Seq<char>, vars: Seq<(Seq<char>, ArgValueView)>)
    ensures
        match best_match(s, vars) {
            Some(i) => is_candidate(vars, i, s) && forall|j: int| #[trigger]
                is_candidate(vars, j, s) ==> vars[j].0.len() <= vars[i].0.len(),
            None => forall|j: int| !#[trigger] is_candidate(vars, j, s),
        },
    decreases vars.len(),
{
    if vars.len() > 0 {
        let head = vars.drop_last();
        lemma_best_match(s, head);
        assert forall|j: int| 0 <= j < head.len() implies is_candidate(head, j, s)
            == #[trigger] is_candidate(vars, j, s) by {
            assert(head[j] == vars[j]);
        }
        match best_match(s, head) {
            Some(p) => {
                assert(is_candidate(head, p, s));
                assert(is_candidate(vars, p, s));
            },
            None => {},
        }
    }
}

/// A condition after substitution: an `Eq` whose text then begins with `!`
/// becomes a `Ne` of the rest.
pub open spec fn substitute_condition(
    c: ConditionView,
    vars: Seq<(Seq<char>, ArgValueView)>,
) -> ConditionView {
    match c {
        ConditionView::Eq(s) => {
            let text = substitute(s, vars);
            if is_negated(text) {
                ConditionView::Ne(text.skip(1))
            } else {
                ConditionView::Eq(text)
            }
        },
        ConditionView::Ne(s) => ConditionView::Ne(substitute(s, vars)),
    }
}

/// A command after substitution into its condition and each of its
/// arguments.
pub open spec fn substitute_cmd(c: CmdView, vars: Seq<(Seq<char>, ArgValueView)>) -> CmdView {
    CmdView {
        opfunc: c.opfunc,
        condition: substitute_condition(c.condition, vars),
        args: Seq::new(c.args.len(), |i: int| substitute(c.args[i], vars)),
        perf: c.perf,
    }
}

/// The binding whose name is the longest that stands in `s` at `at`, with
/// the length of that name.
fn best_at(s: &Vec<char>, at: usize, vars: &ArgMap) -> (r: Option<(usize, usize)>)
    requires
        at <= s.len(),
    ensures
        match r {
            Some((k, len)) => best_match(s@.skip(at as int), vars@) == Some(k as int) && k
                < vars@.len() && len == vars@[k as int].0.len() && at + len <= s.len()
                && vars@[k as int].1 is Single,
            None => best_match(s@.skip(at as int), vars@) is None,
        },
{
    let n = vars.len();
    let ghost text = s@.skip(at as int);
    let mut best: Option<(usize, usize)> = None;
    let mut k: usize = 0;
    while k < n
        invariant
            k <= n,
            n == vars@.len(),
            at <= s.len(),
            text == s@.skip(at as int),
            match best {
                Some((i, len)) => best_match(text, vars@.take(k as int)) == Some(i as int) && i
                    < k && len == vars@[i as int].0.len() && at + len <= s.len(),
                None => best_match(text, vars@.take(k as int)) is None,
            },
        decreases n - k,
    {
        let ghost upto = vars@.take(k + 1);
        let ghost head = vars@.take(k as int);
        assert(upto.drop_last() =~= head);
        assert(upto[k as int] == vars@[k as int]);
        proof {
            match best_match(text, head) {
                Some(p) => {
                    assert(head[p] == vars@[p]);
                    assert(upto[p] == vars@[p]);
                },
                None => {},
            }
        }
        match vars.value_at(k) {
            ArgValue::Single(_) => {
                let key = to_chars(vars.key_at(k).as_str());
                if matches_at(s, at, &key) {
                    let longer = match best {
                        Some((_, len)) => len < key.len(),
                        None => true,
                    };
                    if longer {
                        best = Some((k, key.len()));
                    }
                }
            },
            _ => {},
        }
        k += 1;
    }
    assert(vars@.take(k as int) =~= vars@);
    proof {
        lemma_best_match(text, vars@);
    }
    best
}

/// Appends the text of the `k`-th value of `vars` to `out`.
fn push_value(out: &mut Vec<char>, vars: &ArgMap, k: usize)
    requires
        k < vars@.len(),
    ensures
        final(out)@ == old(out)@ + single_text(vars@[k as int].1),
{
    match vars.value_at(k) {
        ArgValue::Single(text) => {
            push_str_chars(out, text.as_str());
        },
        _ => {
            assert(out@ + Seq::<char>::empty() =~= out@);
        },
    }
}

/// Substitution on characters.
pub fn substitute_chars(s: &Vec<char>, vars: &ArgMap) -> (r: Vec<char>)
    ensures
        r@ == substitute(s@, vars@),
{
    let n = s.len();
    let mut r: Vec<char> = Vec::new();
    let mut i: usize = 0;
    while i < n
        invariant
            i <= n,
            n == s.len(),
            substitute(s@, vars@) == r@ + substitute_from(s@, i as int, vars@),
        decreases n - i,
    {
        let ghost done = r@;
        let ghost rest = substitute_from(s@, i as int, vars@);
        if s[i] != '$' {
            r.push(s[i]);
            i += 1;
            assert(r@ + substitute_from(s@, i as int, vars@) =~= done + rest);
        } else {
            match best_at(s, i + 1, vars) {
                Some((k, len)) => {
                    assert(best_match(s@.skip(i + 1), vars@) == Some(k as int));
                    assert(rest == single_text(vars@[k as int].1) + substitute_from(
                        s@,
                        i + 1 + len,
                        vars@,
                    ));
                    push_value(&mut r, vars, k);
                    i += 1 + len;
                    assert(r@ + substitute_from(s@, i as int, vars@) =~= done + rest);
                },
                None => {
                    let mut negated: Option<(usize, usize)> = None;
                    if i + 1 < n && s[i + 1] == '!' {
                        negated = best_at(s, i + 2, vars);
                    }
                    match negated {
                        Some((k, len)) => {
                            assert(best_match(s@.skip(i + 2), vars@) == Some(k as int));
                            assert(rest == seq!['!'] + single_text(vars@[k as int].1)
                                + substitute_from(s@, i + 2 + len, vars@));
                            r.push('!');
                            push_value(&mut r, vars, k);
                            i += 2 + len;
                            assert(r@ + substitute_from(s@, i as int, vars@) =~= done + rest);
                        },
                        None => {
                            r.push('$');
                            i += 1;
                            assert(r@ + substitute_from(s@, i as int, vars@) =~= done + rest);
                        },
                    }
                },
            }
        }
    }
    assert(r@ + Seq::<char>::empty() =~= r@);
    r
}

/// Replaces in `s` every `$name` by the text that `vars` binds `name` to,
/// and every `$!name` by `!` and that text, in one reading from left to
/// right. Of several bound names that follow a `$`, the longest is meant;
/// what was put in is not read again; names that are not bound stay as they
/// are written. The order of the bindings in `vars` does not matter.
pub fn replace_vars(s: String, vars: &ArgMap) -> (r: String)
    ensures
        r@ == substitute(s@, vars@),
{
    let chars = substitute_chars(&to_chars(s.as_str()), vars);
    string_of(&chars)
}

impl Condition {
    /// The condition after substitution of the variables of `vars`.
    pub fn substituted(&self, vars: &ArgMap) -> (r: Condition)
        ensures
            r@ == substitute_condition(self@, vars@),
    {
        match self {
            Condition::Eq(s) => {
                let text = substitute_chars(&to_chars(s.as_str()), vars);
                if text.len() > 0 && text[0] == '!' {
                    let rest = crate::text::from_chars(&text, 1, text.len());
                    Condition::Ne(rest)
                } else {
                    Condition::Eq(string_of(&text))
                }
            },
            Condition::Ne(s) => Condition::Ne(replace_vars(s.clone(), vars)),
        }
    }
}

impl Cmd {
    /// The command after substitution of the variables of `vars` into its
    /// condition and its arguments.
    pub fn substituted(&self, vars: &ArgMap) -> (r: Cmd)
        ensures
            r@ == substitute_cmd(self@, vars@),
    {
        let mut args: Vec<String> = Vec::new();
        let mut i: usize = 0;
        while i < self.args.len()
            invariant
                i <= self.args.len(),
                args.len() == i,
                forall|k: int| 0 <= k < i ==> (#[trigger] args[k])@ == substitute(
                    self.args[k]@,
                    vars@,
                ),
            decreases self.args.len() - i,
        {
            args.push(replace_vars(self.args[i].clone(), vars));
            i += 1;
        }
        assert(args.deep_view() =~= substitute_cmd(self@, vars@).args);
        Cmd {
            opfunc: self.opfunc.clone(),
            condition: self.condition.substituted(vars),
            args,
            perf: self.perf,
        }
    }

    /// Holds the return value of the command's call against its condition.
    /// `None` where the condition's text spells no number.
    pub fn judge(&self, ret: i64) -> (r: Option<bool>)
        ensures
            r == condition_holds(self@.condition, ret),
    {
        self.condition.check(ret)
    }
}

/// How many variable marks `$` a text holds.
pub open spec fn markers(s: Seq<char>) -> nat
    decreases s.len(),
{
    if s.len() == 0 {
        0
    } else {
        markers(s.skip(1)) + if s[0] == '$' {
            1nat
        } else {
            0nat
        }
    }
}

/// No value that `vars` binds to a single text holds a variable mark.
pub open spec fn values_without_markers(vars: Seq<(Seq<char>, ArgValueView)>) -> bool {
    forall|i: int|
        0 <= i < vars.len() ==> ((#[trigger] vars[i]).1 matches ArgValueView::Single(v)
            ==> markers(v) == 0)
}

/// The marks of a text are those of its parts.
pub proof fn lemma_markers_concat(a: Seq<char>, b: Seq<char>)
    ensures
        markers(a + b) == markers(a) + markers(b),
    decreases a.len(),
{
    if a.len() == 0 {
        assert(a + b =~= b);
    } else {
        lemma_markers_concat(a.skip(1), b);
        assert((a + b).skip(1) =~= a.skip(1) + b);
    }
}

/// Dropping the front of a text adds no mark.
pub proof fn lemma_markers_skip(s: Seq<char>, k: int)
    requires
        0 <= k <= s.len(),
    ensures
        markers(s.skip(k)) <= markers(s),
{
    lemma_markers_concat(s.take(k), s.skip(k));
    assert(s.take(k) + s.skip(k) =~= s);
}

/// A text without marks has none at any position.
pub proof fn lemma_no_markers(s: Seq<char>, i: int)
    requires
        markers(s) == 0,
        0 <= i < s.len(),
    ensures
        s[i] != '$',
    decreases i,
{
    if i > 0 {
        lemma_no_markers(s.skip(1), i - 1);
    }
}

/// The marks of a text from a position on are that position's mark and the
/// marks behind it.
pub proof fn lemma_markers_step(s: Seq<char>, pos: int)
    requires
        0 <= pos < s.len(),
    ensures
        markers(s.skip(pos)) == markers(s.skip(pos + 1)) + if s[pos] == '$' {
            1nat
        } else {
            0nat
        },
{
    assert(s.skip(pos).skip(1) =~= s.skip(pos + 1));
}

/// One character holds one mark if it is the mark, else none.
pub proof fn lemma_markers_one(c: char)
    ensures
        markers(seq![c]) == if c == '$' {
            1nat
        } else {
            0nat
        },
{
    let one = seq![c];
    assert(one.skip(1).len() == 0);
    assert(markers(one.skip(1)) == 0);
}

/// From a position behind which the text holds no variable mark,
/// substitution copies the text.
pub proof fn lemma_from_without_markers(
    s: Seq<char>,
    pos: int,
    vars: Seq<(Seq<char>, ArgValueView)>,
)
    requires
        0 <= pos <= s.len(),
        markers(s.skip(pos)) == 0,
    ensures
        substitute_from(s, pos, vars) == s.skip(pos),
    decreases s.len() - pos,
{
    if pos < s.len() {
        lemma_markers_step(s, pos);
        lemma_from_without_markers(s, pos + 1, vars);
        assert(seq![s[pos]] + s.skip(pos + 1) =~= s.skip(pos));
    } else {
        assert(s.skip(pos) =~= Seq::<char>::empty());
    }
}

/// Substitution leaves a text without variable marks as it is. In
/// particular it does nothing to its own result where that holds no mark
/// any more.
pub proof fn lemma_substitute_without_markers(s: Seq<char>, vars: Seq<(Seq<char>, ArgValueView)>)
    requires
        markers(s) == 0,
    ensures
        substitute(s, vars) == s,
{
    assert(s.skip(0) =~= s);
    lemma_from_without_markers(s, 0, vars);
}

/// Substitution is idempotent on every text that it resolves completely:
/// where the result holds no variable mark, substituting again with the
/// same bindings changes nothing.
pub proof fn lemma_substitute_idempotent(s: Seq<char>, vars: Seq<(Seq<char>, ArgValueView)>)
    requires
        markers(substitute(s, vars)) == 0,
    ensures
        substitute(substitute(s, vars), vars) == substitute(s, vars),
{
    lemma_substitute_without_markers(substitute(s, vars), vars);
}

/// Whether no variable mark of the text is followed, directly or behind a
/// `!`, by a bound name.
pub open spec fn none_bound(s: Seq<char>, vars: Seq<(Seq<char>, ArgValueView)>) -> bool {
    forall|p: int|
        0 <= p < s.len() && s[p] == '$' ==> best_match(#[trigger] s.skip(p + 1), vars) is None
            && (p + 1 < s.len() && s[p + 1] == '!' ==> best_match(s.skip(p + 2), vars) is None)
}

/// From any position on, substitution copies a text none of whose marks a
/// bound name follows.
pub proof fn lemma_from_unbound(s: Seq<char>, pos: int, vars: Seq<(Seq<char>, ArgValueView)>)
    requires
        0 <= pos <= s.len(),
        none_bound(s, vars),
    ensures
        substitute_from(s, pos, vars) == s.skip(pos),
    decreases s.len() - pos,
{
    if pos < s.len() {
        lemma_from_unbound(s, pos + 1, vars);
        if s[pos] == '$' {
            assert(best_match(s.skip(pos + 1), vars) is None);
        }
        assert(seq![s[pos]] + s.skip(pos + 1) =~= s.skip(pos));
    } else {
        assert(s.skip(pos) =~= Seq::<char>::empty());
    }
}

/// Names that are not bound are left as they are written: substitution
/// changes nothing in a text none of whose marks a bound name follows.
pub proof fn lemma_unbound_names_stay(s: Seq<char>, vars: Seq<(Seq<char>, ArgValueView)>)
    requires
        none_bound(s, vars),
    ensures
        substitute(s, vars) == s,
{
    assert(s.skip(0) =~= s);
    lemma_from_unbound(s, 0, vars);
}

/// Whether every variable mark that substitution meets from `pos` on is
/// followed, directly or behind a `!`, by a bound name.
pub open spec fn all_bound_from(s: Seq<char>, pos: int, vars: Seq<(Seq<char>, ArgValueView)>) -> bool
    decreases
        (if 0 <= pos <= s.len() {
            s.len() - pos
        } else {
            0
        }),
{
    if pos < 0 || pos >= s.len() {
        true
    } else if s[pos] != '$' {
        all_bound_from(s, pos + 1, vars)
    } else {
        match best_match(s.skip(pos + 1), vars) {
            Some(i) => all_bound_from(s, pos + 1 + vars[i].0.len(), vars),
            None => pos + 1 < s.len() && s[pos + 1] == '!' && (match best_match(
                s.skip(pos + 2),
                vars,
            ) {
                Some(i) => all_bound_from(s, pos + 2 + vars[i].0.len(), vars),
                None => false,
            }),
        }
    }
}

/// What substitution does to the variable marks from a position on, where
/// no bound text holds one: it adds none, and it leaves none where every
/// mark it meets is followed by a bound name.
pub proof fn lemma_from_markers(s: Seq<char>, pos: int, vars: Seq<(Seq<char>, ArgValueView)>)
    requires
        0 <= pos <= s.len(),
        values_without_markers(vars),
    ensures
        markers(substitute_from(s, pos, vars)) <= markers(s.skip(pos)),
        all_bound_from(s, pos, vars) ==> markers(substitute_from(s, pos, vars)) == 0,
    decreases s.len() - pos,
{
    if pos < s.len() {
        lemma_markers_step(s, pos);
        if s[pos] != '$' {
            lemma_from_markers(s, pos + 1, vars);
            lemma_markers_one(s[pos]);
            lemma_markers_concat(seq![s[pos]], substitute_from(s, pos + 1, vars));
        } else {
            lemma_best_match(s.skip(pos + 1), vars);
            match best_match(s.skip(pos + 1), vars) {
                Some(i) => {
                    let next = pos + 1 + vars[i].0.len();
                    lemma_from_markers(s, next, vars);
                    lemma_markers_concat(single_text(vars[i].1), substitute_from(s, next, vars));
                    lemma_markers_skip(s.skip(pos + 1), vars[i].0.len() as int);
                    assert(s.skip(pos + 1).skip(vars[i].0.len() as int) =~= s.skip(next));
                },
                None => {
                    if pos + 1 < s.len() && s[pos + 1] == '!' {
                        lemma_best_match(s.skip(pos + 2), vars);
                        lemma_markers_step(s, pos + 1);
                        match best_match(s.skip(pos + 2), vars) {
                            Some(i) => {
                                let next = pos + 2 + vars[i].0.len();
                                lemma_from_markers(s, next, vars);
                                lemma_markers_one('!');
                                lemma_markers_concat(seq!['!'], single_text(vars[i].1));
                                lemma_markers_concat(
                                    seq!['!'] + single_text(vars[i].1),
                                    substitute_from(s, next, vars),
                                );
                                lemma_markers_skip(s.skip(pos + 2), vars[i].0.len() as int);
                                assert(s.skip(pos + 2).skip(vars[i].0.len() as int) =~= s.skip(
                                    next,
                                ));
                            },
                            None => {
                                lemma_from_markers(s, pos + 1, vars);
                                lemma_markers_one('$');
                                lemma_markers_concat(
                                    seq!['$'],
                                    substitute_from(s, pos + 1, vars),
                                );
                            },
                        }
                    } else {
                        lemma_from_markers(s, pos + 1, vars);
                        lemma_markers_one('$');
                        lemma_markers_concat(seq!['$'], substitute_from(s, pos + 1, vars));
                    }
                },
            }
        }
    } else {
        assert(s.skip(pos) =~= Seq::<char>::empty());
    }
}

/// Substitution introduces no variable mark: where no bound text holds one,
/// the result holds at most as many as the text that went in.
pub proof fn lemma_substitute_adds_no_markers(s: Seq<char>, vars: Seq<(Seq<char>, ArgValueView)>)
    requires
        values_without_markers(vars),
    ensures
        markers(substitute(s, vars)) <= markers(s),
{
    assert(s.skip(0) =~= s);
    lemma_from_markers(s, 0, vars);
}

/// Substitution resolves a text completely where it can: where no bound
/// text holds a variable mark and every mark of the text is followed,
/// directly or behind a `!`, by a bound name, the result holds no mark. A
/// second substitution then changes nothing.
pub proof fn lemma_substitute_resolves(s: Seq<char>, vars: Seq<(Seq<char>, ArgValueView)>)
    requires
        values_without_markers(vars),
        all_bound_from(s, 0, vars),
    ensures
        markers(substitute(s, vars)) == 0,
        substitute(substitute(s, vars), vars) == substitute(s, vars),
{
    lemma_from_markers(s, 0, vars);
    lemma_substitute_idempotent(s, vars);
}

/// Two tables with distinct names that bind the same names to the same
/// values have the same best match on every text: a name of the same length
/// with the same value, or none.
pub proof fn lemma_best_match_alike(
    s: Seq<char>,
    a: Seq<(Seq<char>, ArgValueView)>,
    b: Seq<(Seq<char>, ArgValueView)>,
)
    requires
        distinct_keys(a),
        distinct_keys(b),
        same_bindings(a, b),
    ensures
        best_match(s, a) is Some == best_match(s, b) is Some,
        best_match(s, a) matches Some(i) ==> a[i].0 == b[best_match(s, b)->0].0 && a[i].1
            == b[best_match(s, b)->0].1,
{
    lemma_best_match(s, a);
    lemma_best_match(s, b);
    if let Some(i) = best_match(s, a) {
        lemma_carried_over(s, a, b, i);
    }
    if let Some(j) = best_match(s, b) {
        assert forall|key: Seq<char>| #[trigger] lookup(b, key) == lookup(a, key) by {
            assert(lookup(a, key) == lookup(b, key));
        }
        lemma_carried_over(s, b, a, j);
    }
    if let Some(i) = best_match(s, a) {
        let j = best_match(s, b)->0;
        assert(a[i].0.len() == b[j].0.len());
        assert(a[i].0 =~= b[j].0);
        lemma_position_unique(a, i);
        lemma_position_unique(b, j);
        assert(lookup(a, a[i].0) == lookup(b, a[i].0));
    }
}

/// A candidate of one table is, by name and value, a candidate of every
/// table with the same bindings.
pub proof fn lemma_carried_over(
    s: Seq<char>,
    a: Seq<(Seq<char>, ArgValueView)>,
    b: Seq<(Seq<char>, ArgValueView)>,
    i: int,
)
    requires
        distinct_keys(a),
        same_bindings(a, b),
        is_candidate(a, i, s),
    ensures
        has_key(b, a[i].0),
        is_candidate(b, position(b, a[i].0), s),
        b[position(b, a[i].0)].0 == a[i].0,
{
    lemma_position_unique(a, i);
    assert(lookup(a, a[i].0) == lookup(b, a[i].0));
    let p = position(b, a[i].0);
    assert(b[p].0 == a[i].0);
}

/// Substitution from a position on gives the same for two tables with
/// distinct names and the same bindings.
pub proof fn lemma_from_same_bindings(
    s: Seq<char>,
    pos: int,
    a: Seq<(Seq<char>, ArgValueView)>,
    b: Seq<(Seq<char>, ArgValueView)>,
)
    requires
        distinct_keys(a),
        distinct_keys(b),
        same_bindings(a, b),
    ensures
        substitute_from(s, pos, a) == substitute_from(s, pos, b),
    decreases
        (if 0 <= pos <= s.len() {
            s.len() - pos
        } else {
            0
        }),
{
    if 0 <= pos < s.len() {
        if s[pos] != '$' {
            lemma_from_same_bindings(s, pos + 1, a, b);
        } else {
            lemma_best_match_alike(s.skip(pos + 1), a, b);
            match best_match(s.skip(pos + 1), a) {
                Some(i) => {
                    lemma_from_same_bindings(s, pos + 1 + a[i].0.len(), a, b);
                },
                None => {
                    lemma_from_same_bindings(s, pos + 1, a, b);
                    if pos + 1 < s.len() && s[pos + 1] == '!' {
                        lemma_best_match_alike(s.skip(pos + 2), a, b);
                        if let Some(i) = best_match(s.skip(pos + 2), a) {
                            lemma_from_same_bindings(s, pos + 2 + a[i].0.len(), a, b);
                        }
                    }
                },
            }
        }
    }
}

/// The result of substitution depends on the text and on which name is
/// bound to which value, and on nothing else: two tables with distinct
/// names that bind the same names to the same values give the same result,
/// whatever the order of their bindings.
pub proof fn lemma_substitute_same_bindings(
    s: Seq<char>,
    a: Seq<(Seq<char>, ArgValueView)>,
    b: Seq<(Seq<char>, ArgValueView)>,
)
    requires
        distinct_keys(a),
        distinct_keys(b),
        same_bindings(a, b),
    ensures
        substitute(s, a) == substitute(s, b),
{
    lemma_from_same_bindings(s, 0, a, b);
}

/// Substitution from a position on is substitution of what stands from
/// that position on.
pub proof fn lemma_from_is_skip(
    s: Seq<char>,
    k: int,
    j: int,
    vars: Seq<(Seq<char>, ArgValueView)>,
)
    requires
        0 <= k <= s.len(),
        0 <= j,
    ensures
        substitute_from(s, k + j, vars) == substitute_from(s.skip(k), j, vars),
    decreases
        (if k + j <= s.len() {
            s.len() - k - j
        } else {
            0
        }),
{
    let t = s.skip(k);
    if k + j < s.len() {
        assert(t[j] == s[k + j]);
        assert(t.skip(j + 1) =~= s.skip(k + j + 1));
        lemma_from_is_skip(s, k, j + 1, vars);
        if s[k + j] == '$' {
            match best_match(s.skip(k + j + 1), vars) {
                Some(i) => {
                    lemma_from_is_skip(s, k, j + 1 + vars[i].0.len(), vars);
                },
                None => {
                    if k + j + 1 < s.len() && s[k + j + 1] == '!' {
                        assert(t[j + 1] == s[k + j + 1]);
                        assert(t.skip(j + 2) =~= s.skip(k + j + 2));
                        if let Some(i) = best_match(s.skip(k + j + 2), vars) {
                            lemma_from_is_skip(s, k, j + 2 + vars[i].0.len(), vars);
                        }
                    }
                },
            }
        }
    }
}

/// Substitution copies a front that holds no variable mark and goes on
/// behind it.
pub proof fn lemma_substitute_behind(
    front: Seq<char>,
    rest: Seq<char>,
    vars: Seq<(Seq<char>, ArgValueView)>,
)
    requires
        markers(front) == 0,
    ensures
        substitute(front + rest, vars) == front + substitute(rest, vars),
    decreases front.len(),
{
    let whole = front + rest;
    if front.len() == 0 {
        assert(whole =~= rest);
        assert(front + substitute(rest, vars) =~= substitute(rest, vars));
    } else {
        lemma_no_markers(front, 0);
        assert(whole[0] == front[0]);
        lemma_from_is_skip(whole, 1, 0, vars);
        assert(whole.skip(1) =~= front.skip(1) + rest);
        lemma_substitute_behind(front.skip(1), rest, vars);
        assert(seq![front[0]] + (front.skip(1) + substitute(rest, vars)) =~= front + substitute(
            rest,
            vars,
        ));
    }
}

/// How many characters from position `q` on are name characters, up to the
/// first that is not.
pub open spec fn name_run(s: Seq<char>, q: int, is_name: spec_fn(char) -> bool) -> int
    decreases
        (if 0 <= q <= s.len() {
            s.len() - q
        } else {
            0
        }),
{
    if 0 <= q < s.len() && is_name(s[q]) {
        1 + name_run(s, q + 1, is_name)
    } else {
        0
    }
}

/// Whether the name of every binding to a single text is made of name
/// characters and is not empty.
pub open spec fn names_are_words(
    vars: Seq<(Seq<char>, ArgValueView)>,
    is_name: spec_fn(char) -> bool,
) -> bool {
    forall|i: int|
        0 <= i < vars.len() && (#[trigger] vars[i]).1 is Single ==> vars[i].0.len() > 0
            && forall|k: int| 0 <= k < vars[i].0.len() ==> is_name(#[trigger] vars[i].0[k])
}

/// Where the name behind the mark at `p` begins: behind the mark, or behind
/// the `!` that follows it.
pub open spec fn name_start(s: Seq<char>, p: int) -> int {
    if p + 1 < s.len() && s[p + 1] == '!' {
        p + 2
    } else {
        p + 1
    }
}

/// Whether every variable mark of the text, with the `!` and the name
/// characters behind it, is followed by the end of the text or by a
/// character other than a variable mark.
pub open spec fn delimited(s: Seq<char>, is_name: spec_fn(char) -> bool) -> bool {
    forall|p: int|
        0 <= p < s.len() && #[trigger] s[p] == '$' ==> {
            let e = name_start(s, p) + name_run(s, name_start(s, p), is_name);
            e >= s.len() || s[e] != '$'
        }
}

/// The name characters from a position on are name characters, and what
/// follows them is none.
pub proof fn lemma_name_run(s: Seq<char>, q: int, is_name: spec_fn(char) -> bool)
    requires
        0 <= q <= s.len(),
    ensures
        0 <= name_run(s, q, is_name) <= s.len() - q,
        forall|k: int| q <= k < q + name_run(s, q, is_name) ==> is_name(#[trigger] s[k]),
        q + name_run(s, q, is_name) < s.len() ==> !is_name(s[q + name_run(s, q, is_name)]),
    decreases s.len() - q,
{
    if q < s.len() && is_name(s[q]) {
        lemma_name_run(s, q + 1, is_name);
    }
}

/// Substitution copies a stretch that holds no variable mark.
pub proof fn lemma_from_copies(s: Seq<char>, q: int, n: int, vars: Seq<(Seq<char>, ArgValueView)>)
    requires
        0 <= q,
        0 <= n,
        q + n <= s.len(),
        forall|k: int| q <= k < q + n ==> s[k] != '$',
    ensures
        substitute_from(s, q, vars) == s.subrange(q, q + n) + substitute_from(s, q + n, vars),
    decreases n,
{
    if n == 0 {
        assert(s.subrange(q, q) + substitute_from(s, q, vars) =~= substitute_from(s, q, vars));
    } else {
        lemma_from_copies(s, q + 1, n - 1, vars);
        assert(seq![s[q]] + s.subrange(q + 1, q + n) =~= s.subrange(q, q + n));
        assert(seq![s[q]] + (s.subrange(q + 1, q + n) + substitute_from(s, q + n, vars))
            =~= s.subrange(q, q + n) + substitute_from(s, q + n, vars));
    }
}

/// Behind a stretch of name characters that ends at the end of the text or
/// at a character that is neither a name character nor a variable mark, a
/// name that stands at the front of the result stood at the front of the
/// text: there, substitution makes no name appear that was not written.
pub proof fn lemma_no_new_match(
    s: Seq<char>,
    q: int,
    vars: Seq<(Seq<char>, ArgValueView)>,
    is_name: spec_fn(char) -> bool,
)
    requires
        0 <= q <= s.len(),
        !is_name('$'),
        names_are_words(vars, is_name),
        q + name_run(s, q, is_name) >= s.len() || s[q + name_run(s, q, is_name)] != '$',
        best_match(s.skip(q), vars) is None,
    ensures
        best_match(substitute_from(s, q, vars), vars) is None,
{
    let n = name_run(s, q, is_name);
    let r = substitute_from(s, q, vars);
    lemma_name_run(s, q, is_name);
    lemma_from_copies(s, q, n, vars);
    lemma_best_match(s.skip(q), vars);
    lemma_best_match(r, vars);
    if let Some(i) = best_match(r, vars) {
        let key = vars[i].0;
        assert(is_candidate(vars, i, r));
        if key.len() > n {
            if q + n < s.len() {
                lemma_from_copies(s, q + n, 1, vars);
                assert(r[n] == s[q + n]);
                assert(key[n] == r.subrange(0, key.len() as int)[n]);
                assert(is_name(key[n]));
            } else {
                assert(substitute_from(s, q + n, vars) =~= Seq::<char>::empty());
            }
        } else {
            assert(key =~= s.skip(q).subrange(0, key.len() as int)) by {
                assert forall|k: int| 0 <= k < key.len() implies key[k] == s.skip(q)[k] by {
                    assert(key[k] == r.subrange(0, key.len() as int)[k]);
                    assert(r[k] == s.subrange(q, q + n)[k]);
                }
            }
            assert(is_candidate(vars, i, s.skip(q)));
        }
    }
}

/// The result of substitution from a position on is left as it is by a
/// second substitution, under the conditions of
/// [`lemma_substitute_settles`].
pub proof fn lemma_from_settles(
    s: Seq<char>,
    pos: int,
    vars: Seq<(Seq<char>, ArgValueView)>,
    is_name: spec_fn(char) -> bool,
)
    requires
        0 <= pos <= s.len(),
        !is_name('$'),
        !is_name('!'),
        values_without_markers(vars),
        names_are_words(vars, is_name),
        delimited(s, is_name),
    ensures
        substitute(substitute_from(s, pos, vars), vars) == substitute_from(s, pos, vars),
    decreases s.len() - pos,
{
    let r = substitute_from(s, pos, vars);
    if pos >= s.len() {
    } else if s[pos] != '$' {
        lemma_from_settles(s, pos + 1, vars, is_name);
        lemma_markers_one(s[pos]);
        lemma_substitute_behind(seq![s[pos]], substitute_from(s, pos + 1, vars), vars);
    } else {
        lemma_best_match(s.skip(pos + 1), vars);
        match best_match(s.skip(pos + 1), vars) {
            Some(i) => {
                let next = pos + 1 + vars[i].0.len();
                lemma_from_settles(s, next, vars, is_name);
                lemma_substitute_behind(single_text(vars[i].1), substitute_from(s, next, vars), vars);
            },
            None => {
                let negated = pos + 1 < s.len() && s[pos + 1] == '!';
                if negated {
                    lemma_best_match(s.skip(pos + 2), vars);
                }
                if negated && best_match(s.skip(pos + 2), vars) is Some {
                    let i = best_match(s.skip(pos + 2), vars)->0;
                    let next = pos + 2 + vars[i].0.len();
                    let put = seq!['!'] + single_text(vars[i].1);
                    lemma_from_settles(s, next, vars, is_name);
                    lemma_markers_one('!');
                    lemma_markers_concat(seq!['!'], single_text(vars[i].1));
                    lemma_substitute_behind(put, substitute_from(s, next, vars), vars);
                } else {
                    let y = substitute_from(s, pos + 1, vars);
                    lemma_from_settles(s, pos + 1, vars, is_name);
                    assert(r == seq!['$'] + y);
                    assert(r.skip(1) =~= y);
                    assert(s[pos] == '$');
                    if negated {
                        let z = substitute_from(s, pos + 2, vars);
                        assert(y == seq!['!'] + z);
                        lemma_best_match(y, vars);
                        if let Some(i) = best_match(y, vars) {
                            assert(vars[i].0[0] == y.subrange(0, vars[i].0.len() as int)[0]);
                            assert(is_name(vars[i].0[0]));
                        }
                        lemma_no_new_match(s, pos + 2, vars, is_name);
                        assert(r.skip(2) =~= z);
                        assert(r[1] == '!');
                    } else {
                        lemma_no_new_match(s, pos + 1, vars, is_name);
                        if y.len() > 0 && y[0] == '!' {
                            lemma_name_run(s, pos + 1, is_name);
                            if pos + 1 < s.len() {
                                lemma_from_copies(s, pos + 1, 1, vars);
                                if s[pos + 1] != '$' {
                                    assert(y[0] == s[pos + 1]);
                                } else {
                                    assert(name_run(s, pos + 1, is_name) == 0);
                                }
                            }
                        }
                    }
                    lemma_from_is_skip(r, 1, 0, vars);
                    assert(substitute_from(r, 1, vars) == substitute(y, vars));
                    assert(substitute(r, vars) == seq!['$'] + substitute_from(r, 1, vars));
                }
            },
        }
    }
}

/// Substitution settles what it leaves: where no bound text holds a
/// variable mark, every bound name is a word of name characters, and every
/// variable mark of the text, with the `!` and the name characters behind
/// it, is followed by the end of the text or by a character other than a
/// variable mark, a second substitution with the same bindings changes
/// nothing, also where the result still holds names that are not bound.
pub proof fn lemma_substitute_settles(
    s: Seq<char>,
    vars: Seq<(Seq<char>, ArgValueView)>,
    is_name: spec_fn(char) -> bool,
)
    requires
        !is_name('$'),
        !is_name('!'),
        values_without_markers(vars),
        names_are_words(vars, is_name),
        delimited(s, is_name),
    ensures
        substitute(substitute(s, vars), vars) == substitute(s, vars),
{
    lemma_from_settles(s, 0, vars, is_name);
}

} // verus!
