//! The order of references does not matter: what two references give
//! together depends on the groups they name, not on which is named first.
use crate::error::TestErrorView;
use crate::input::{
    distinct_keys, has_key, lemma_position_unique, lookup, position, ArgValueView, InputGroupView,
};
use crate::shared::{
    duplicate_text, find_group, gather, gather_group, gathered_from, lemma_conflict_first_then_second,
    lemma_gather_first, merge, nothing_gathered, resolve_args, resolve_group, resolve_value,
    Gathered,
};
use vstd::prelude::*;

verus! {

/// No parameter is bound by both tables.
pub open spec fn disjoint_keys(
    a: Seq<(Seq<char>, ArgValueView)>,
    b: Seq<(Seq<char>, ArgValueView)>,
) -> bool {
    forall|i: int, j: int|
        0 <= i < a.len() && 0 <= j < b.len() ==> (#[trigger] a[i]).0 != (#[trigger] b[j]).0
}

/// Both tables bind the same parameters to the same values.
pub open spec fn same_bindings(
    a: Seq<(Seq<char>, ArgValueView)>,
    b: Seq<(Seq<char>, ArgValueView)>,
) -> bool {
    forall|key: Seq<char>| #[trigger] lookup(a, key) == lookup(b, key)
}

/// In a table with distinct keys, a parameter is bound to a value exactly
/// where that binding stands in the table.
pub proof fn lemma_lookup_is_membership(
    m: Seq<(Seq<char>, ArgValueView)>,
    key: Seq<char>,
    value: ArgValueView,
)
    requires
        distinct_keys(m),
    ensures
        lookup(m, key) == Some(value) <==> m.contains((key, value)),
        lookup(m, key) is None <==> !has_key(m, key),
{
    if m.contains((key, value)) {
        let i = choose|i: int| 0 <= i < m.len() && m[i] == (key, value);
        lemma_position_unique(m, i);
    }
    if lookup(m, key) == Some(value) {
        let p = position(m, key);
        assert(m[p] == (key, value));
    }
}

/// Two tables with distinct keys that hold the same bindings bind the same
/// parameters to the same values.
pub proof fn lemma_same_members(
    a: Seq<(Seq<char>, ArgValueView)>,
    b: Seq<(Seq<char>, ArgValueView)>,
)
    requires
        distinct_keys(a),
        distinct_keys(b),
        forall|x: (Seq<char>, ArgValueView)| a.contains(x) <==> b.contains(x),
    ensures
        same_bindings(a, b),
{
    assert forall|key: Seq<char>| #[trigger] lookup(a, key) == lookup(b, key) by {
        match lookup(a, key) {
            Some(v) => {
                lemma_lookup_is_membership(a, key, v);
                lemma_lookup_is_membership(b, key, v);
            },
            None => {
                match lookup(b, key) {
                    Some(w) => {
                        lemma_lookup_is_membership(b, key, w);
                        lemma_lookup_is_membership(a, key, w);
                    },
                    None => {},
                }
            },
        }
    }
}

/// Two tables with distinct keys and no common key make, one after the
/// other, a table with distinct keys.
pub proof fn lemma_concat_distinct(
    a: Seq<(Seq<char>, ArgValueView)>,
    b: Seq<(Seq<char>, ArgValueView)>,
)
    requires
        distinct_keys(a),
        distinct_keys(b),
        disjoint_keys(a, b),
    ensures
        distinct_keys(a + b),
{
    let m = a + b;
    assert forall|i: int, j: int| 0 <= i < j < m.len() implies (#[trigger] m[i]).0 != (
    #[trigger] m[j]).0 by {
        if j < a.len() {
            assert(m[i] == a[i] && m[j] == a[j]);
        } else if i >= a.len() {
            assert(m[i] == b[i - a.len()] && m[j] == b[j - a.len()]);
        } else {
            assert(m[i] == a[i] && m[j] == b[j - a.len()]);
        }
    }
}

/// Gathering from a further group that shares no parameter with what was
/// gathered succeeds and adds that group's bindings.
pub proof fn lemma_gather_disjoint(
    acc: Gathered,
    base: Seq<(Seq<char>, ArgValueView)>,
    whole: Seq<(Seq<char>, ArgValueView)>,
    j: int,
    owner: Seq<char>,
)
    requires
        distinct_keys(base),
        distinct_keys(whole),
        disjoint_keys(base, whole),
        0 <= j <= whole.len(),
        acc.vars == base + whole.take(j),
    ensures
        gather_group(acc, whole.skip(j), owner) matches Ok(got) && got.vars == base + whole,
    decreases whole.len() - j,
{
    let group = whole.skip(j);
    if j == whole.len() {
        assert(whole.take(j) =~= whole);
    } else {
        assert(group[0] == whole[j]);
        if has_key(acc.vars, whole[j].0) {
            let p = position(acc.vars, whole[j].0);
            if p < base.len() {
                assert(acc.vars[p] == base[p]);
                assert(base[p].0 != whole[j].0);
            } else {
                assert(acc.vars[p] == whole[p - base.len()]);
                assert(whole[p - base.len()].0 != whole[j].0);
            }
        }
        let next = Gathered { vars: acc.vars.push(group[0]), owners: acc.owners.push(owner) };
        assert(next.vars =~= base + whole.take(j + 1));
        assert(group.skip(1) =~= whole.skip(j + 1));
        lemma_gather_disjoint(next, base, whole, j + 1, owner);
    }
}

/// References to two groups that share no parameter gather the bindings of
/// the first, then those of the second.
pub proof fn lemma_gather_two(
    shared: Seq<(Seq<char>, Seq<(Seq<char>, ArgValueView)>)>,
    a: Seq<char>,
    b: Seq<char>,
)
    requires
        find_group(shared, a) is Some,
        find_group(shared, b) is Some,
        distinct_keys(find_group(shared, a)->0),
        distinct_keys(find_group(shared, b)->0),
        disjoint_keys(find_group(shared, a)->0, find_group(shared, b)->0),
    ensures
        gather(shared, seq![a, b], nothing_gathered()) matches Ok(got) && got.vars == find_group(
            shared,
            a,
        )->0 + find_group(shared, b)->0,
{
    let first = find_group(shared, a)->0;
    let second = find_group(shared, b)->0;
    let refs = seq![a, b];
    assert(first.take(0) =~= Seq::<(Seq<char>, ArgValueView)>::empty());
    assert(first.skip(0) =~= first);
    assert(gathered_from(first.take(0), a).owners =~= Seq::<Seq<char>>::empty());
    lemma_gather_first(first, 0, a);
    let acc = gathered_from(first, a);
    assert(refs.skip(1) =~= seq![b]);
    assert(seq![b].skip(1) =~= Seq::<Seq<char>>::empty());
    assert(second.take(0) =~= Seq::<(Seq<char>, ArgValueView)>::empty());
    assert(second.skip(0) =~= second);
    assert(first + second.take(0) =~= first);
    lemma_gather_disjoint(acc, first, second, 0, b);
    let got = gather_group(acc, second, b)->Ok_0;
    assert(gather(shared, seq![b].skip(1), got) == Ok::<Gathered, TestErrorView>(got));
    assert(gather(shared, seq![b], acc) == Ok::<Gathered, TestErrorView>(got));
    assert(gather(shared, refs, nothing_gathered()) == gather(shared, refs.skip(1), acc));
}

/// What merging does, binding by binding: the table's own bindings stay,
/// and a gathered binding comes in where the table does not bind its
/// parameter.
pub proof fn lemma_merge_members(
    args: Seq<(Seq<char>, ArgValueView)>,
    vars: Seq<(Seq<char>, ArgValueView)>,
)
    requires
        distinct_keys(args),
        distinct_keys(vars),
    ensures
        distinct_keys(merge(args, vars)),
        forall|x: (Seq<char>, ArgValueView)|
            #[trigger] merge(args, vars).contains(x) <==> args.contains(x) || (!has_key(
                args,
                x.0,
            ) && vars.contains(x)),
    decreases vars.len(),
{
    if vars.len() > 0 {
        let rest = vars.skip(1);
        assert forall|i: int, j: int| 0 <= i < j < rest.len() implies (#[trigger] rest[i]).0 != (
        #[trigger] rest[j]).0 by {
            assert(rest[i] == vars[i + 1] && rest[j] == vars[j + 1]);
        }
        let next = if has_key(args, vars[0].0) {
            args
        } else {
            args.push(vars[0])
        };
        if !has_key(args, vars[0].0) {
            crate::input::lemma_bind_distinct(args, vars[0].0, vars[0].1);
        }
        lemma_merge_members(next, rest);
        assert forall|x: (Seq<char>, ArgValueView)| #[trigger]
            merge(args, vars).contains(x) <==> args.contains(x) || (!has_key(args, x.0)
                && vars.contains(x)) by {
            if vars.contains(x) {
                let i = choose|i: int| 0 <= i < vars.len() && vars[i] == x;
                if i > 0 {
                    assert(rest[i - 1] == x);
                    assert(vars[0].0 != vars[i].0);
                }
            }
            if rest.contains(x) {
                let i = choose|i: int| 0 <= i < rest.len() && rest[i] == x;
                assert(vars[i + 1] == x);
                assert(vars[0].0 != vars[i + 1].0);
            }
            if args.contains(x) {
                let i = choose|i: int| 0 <= i < args.len() && args[i] == x;
                assert(next[i] == x);
                assert(has_key(args, x.0));
            }
            if next.contains(x) && !args.contains(x) {
                let i = choose|i: int| 0 <= i < next.len() && next[i] == x;
                assert(x == vars[0]);
            }
            if has_key(next, x.0) && !has_key(args, x.0) {
                let p = position(next, x.0);
                assert(next[p].0 == x.0);
                assert(x.0 == vars[0].0);
            }
            if has_key(args, x.0) {
                let p = position(args, x.0);
                assert(next[p] == args[p]);
                assert(has_key(next, x.0));
            }
            if !has_key(args, vars[0].0) {
                assert(next[args.len() as int] == vars[0]);
            }
        }
    }
}

/// A value resolves alike against two tables that bind the same parameters
/// to the same values.
pub proof fn lemma_resolve_value_alike(
    v: ArgValueView,
    a: Seq<(Seq<char>, ArgValueView)>,
    b: Seq<(Seq<char>, ArgValueView)>,
)
    requires
        same_bindings(a, b),
    ensures
        resolve_value(v, a) == resolve_value(v, b),
{
    match v {
        ArgValueView::Single(s) => {
            if s.len() > 0 {
                let key = s.skip(1);
                assert(lookup(a, key) == lookup(b, key));
            }
        },
        _ => {},
    }
}

/// The resolved bindings of a group are the same, parameter by parameter,
/// whether what was gathered came in one order or another.
pub proof fn lemma_resolve_args_alike(
    args: Seq<(Seq<char>, ArgValueView)>,
    a: Seq<(Seq<char>, ArgValueView)>,
    b: Seq<(Seq<char>, ArgValueView)>,
)
    requires
        distinct_keys(args),
        distinct_keys(a),
        distinct_keys(b),
        forall|x: (Seq<char>, ArgValueView)| a.contains(x) <==> b.contains(x),
    ensures
        distinct_keys(resolve_args(args, a)),
        distinct_keys(resolve_args(args, b)),
        same_bindings(resolve_args(args, a), resolve_args(args, b)),
{
    lemma_same_members(a, b);
    lemma_merge_members(args, a);
    lemma_merge_members(args, b);
    let ma = merge(args, a);
    let mb = merge(args, b);
    let ra = resolve_args(args, a);
    let rb = resolve_args(args, b);
    assert forall|i: int, j: int| 0 <= i < j < ra.len() implies (#[trigger] ra[i]).0 != (
    #[trigger] ra[j]).0 by {
        assert(ra[i].0 == ma[i].0 && ra[j].0 == ma[j].0);
    }
    assert forall|i: int, j: int| 0 <= i < j < rb.len() implies (#[trigger] rb[i]).0 != (
    #[trigger] rb[j]).0 by {
        assert(rb[i].0 == mb[i].0 && rb[j].0 == mb[j].0);
    }
    assert forall|x: (Seq<char>, ArgValueView)| ra.contains(x) implies rb.contains(x) by {
        let i = choose|i: int| 0 <= i < ra.len() && ra[i] == x;
        assert(ma.contains(ma[i]));
        assert(mb.contains(ma[i])) by {
            if has_key(a, ma[i].0) != has_key(b, ma[i].0) {
                assert(lookup(a, ma[i].0) == lookup(b, ma[i].0));
            }
        }
        let j = choose|j: int| 0 <= j < mb.len() && mb[j] == ma[i];
        lemma_resolve_value_alike(ma[i].1, a, b);
        assert(rb[j] == x);
    }
    assert forall|x: (Seq<char>, ArgValueView)| rb.contains(x) implies ra.contains(x) by {
        let i = choose|i: int| 0 <= i < rb.len() && rb[i] == x;
        assert(mb.contains(mb[i]));
        assert(ma.contains(mb[i])) by {
            if has_key(a, mb[i].0) != has_key(b, mb[i].0) {
                assert(lookup(a, mb[i].0) == lookup(b, mb[i].0));
            }
        }
        let j = choose|j: int| 0 <= j < ma.len() && ma[j] == mb[i];
        lemma_resolve_value_alike(mb[i].1, a, b);
        assert(ra[j] == x);
    }
    lemma_same_members(ra, rb);
}

/// Reference resolution is commutative: where two referenced groups share
/// no parameter, a group that refers to them resolves, and binds every
/// parameter to the same value, whichever of the two it names first.
pub proof fn lemma_resolution_commutes(
    first: InputGroupView,
    second: InputGroupView,
    shared: Seq<(Seq<char>, Seq<(Seq<char>, ArgValueView)>)>,
    a: Seq<char>,
    b: Seq<char>,
)
    requires
        first.refs == seq![a, b],
        second.refs == seq![b, a],
        first.args == second.args,
        distinct_keys(first.args),
        find_group(shared, a) is Some,
        find_group(shared, b) is Some,
        distinct_keys(find_group(shared, a)->0),
        distinct_keys(find_group(shared, b)->0),
        disjoint_keys(find_group(shared, a)->0, find_group(shared, b)->0),
    ensures
        resolve_group(first, shared) is Ok,
        resolve_group(second, shared) is Ok,
        same_bindings(
            resolve_group(first, shared)->Ok_0.args,
            resolve_group(second, shared)->Ok_0.args,
        ),
{
    let ga = find_group(shared, a)->0;
    let gb = find_group(shared, b)->0;
    assert(disjoint_keys(gb, ga));
    lemma_gather_two(shared, a, b);
    lemma_gather_two(shared, b, a);
    lemma_concat_distinct(ga, gb);
    lemma_concat_distinct(gb, ga);
    let ab = ga + gb;
    let ba = gb + ga;
    assert forall|x: (Seq<char>, ArgValueView)| ab.contains(x) <==> ba.contains(x) by {
        if ab.contains(x) {
            let i = choose|i: int| 0 <= i < ab.len() && ab[i] == x;
            if i < ga.len() {
                assert(ba[gb.len() + i] == x);
            } else {
                assert(ba[i - ga.len()] == x);
            }
        }
        if ba.contains(x) {
            let i = choose|i: int| 0 <= i < ba.len() && ba[i] == x;
            if i < gb.len() {
                assert(ab[ga.len() + i] == x);
            } else {
                assert(ab[i - gb.len()] == x);
            }
        }
    }
    lemma_resolve_args_alike(first.args, ab, ba);
}

/// Reference resolution detects conflicts: where two referenced groups
/// define a common parameter, a group that refers to them does not resolve,
/// whichever of the two it names first, and the error names a common
/// parameter and both groups in the order of the references.
pub proof fn lemma_resolution_detects_conflict(
    first: InputGroupView,
    second: InputGroupView,
    shared: Seq<(Seq<char>, Seq<(Seq<char>, ArgValueView)>)>,
    a: Seq<char>,
    b: Seq<char>,
    common: Seq<char>,
)
    requires
        first.refs == seq![a, b],
        second.refs == seq![b, a],
        find_group(shared, a) is Some,
        find_group(shared, b) is Some,
        distinct_keys(find_group(shared, a)->0),
        distinct_keys(find_group(shared, b)->0),
        has_key(find_group(shared, a)->0, common),
        has_key(find_group(shared, b)->0, common),
    ensures
        resolve_group(first, shared) matches Err(TestErrorView::DuplicateArg(text))
            && exists|key: Seq<char>|
            has_key(find_group(shared, a)->0, key) && has_key(find_group(shared, b)->0, key)
                && text == #[trigger] duplicate_text(key, a, b),
        resolve_group(second, shared) matches Err(TestErrorView::DuplicateArg(text))
            && exists|key: Seq<char>|
            has_key(find_group(shared, a)->0, key) && has_key(find_group(shared, b)->0, key)
                && text == #[trigger] duplicate_text(key, b, a),
{
    lemma_conflict_first_then_second(shared, a, b, common);
    lemma_conflict_first_then_second(shared, b, a, common);
}

} // verus!
