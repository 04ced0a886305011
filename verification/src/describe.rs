//! The text form of a test, for logs and messages.
use crate::cmd::{Cmd, CmdView};
use crate::condition::{Condition, ConditionView};
use crate::input::{ArgMap, ArgValue, ArgValueView, InputGroupView};
use crate::test::{Test, TestView};
use crate::text::{decimal, decimal_chars, extend_chars, push_str_chars, string_of};
use vstd::prelude::*;

verus! {

/// A truth value in words.
pub open spec fn bool_text(b: bool) -> Seq<char> {
    if b {
        "true"@
    } else {
        "false"@
    }
}

/// A text between double quotes.
pub open spec fn quoted(s: Seq<char>) -> Seq<char> {
    seq!['"'] + s + seq!['"']
}

/// Each of the parts, in order, with the separator in front of it.
pub open spec fn each_behind(parts: Seq<Seq<char>>, sep: Seq<char>) -> Seq<char>
    decreases parts.len(),
{
    if parts.len() == 0 {
        Seq::empty()
    } else {
        each_behind(parts.drop_last(), sep) + sep + parts.last()
    }
}

/// The parts, in order, with the separator between them.
pub open spec fn joined(parts: Seq<Seq<char>>, sep: Seq<char>) -> Seq<char> {
    if parts.len() == 0 {
        Seq::empty()
    } else {
        parts[0] + each_behind(parts.skip(1), sep)
    }
}

/// The texts as they are shown: each in quotes where asked, else as it is.
pub open spec fn shown(items: Seq<Seq<char>>, in_quotes: bool) -> Seq<Seq<char>> {
    Seq::new(
        items.len(),
        |i: int|
            if in_quotes {
                quoted(items[i])
            } else {
                items[i]
            },
    )
}

/// The text form of a value: a single text in quotes, a list of quoted
/// texts in brackets, a range as `start..=end`, with its step where it has
/// one.
pub open spec fn value_text(v: ArgValueView) -> Seq<char> {
    match v {
        ArgValueView::Single(s) => quoted(s),
        ArgValueView::List(items) => "["@ + joined(shown(items, true), ", "@) + "]"@,
        ArgValueView::Range(r) => decimal(r.start as int) + "..="@ + decimal(r.end as int)
            + match r.step {
            Some(step) => " step "@ + decimal(step as int),
            None => Seq::empty(),
        },
    }
}

/// The text form of the bindings of a table: `{name: value, ...}`.
pub open spec fn args_text(m: Seq<(Seq<char>, ArgValueView)>) -> Seq<char> {
    "{"@ + joined(Seq::new(m.len(), |i: int| m[i].0 + ": "@ + value_text(m[i].1)), ", "@)
        + "}"@
}

/// The text form of a command: `name(arguments) == text` or
/// `name(arguments) != text`, and a note where the call is timed.
pub open spec fn cmd_text(c: CmdView) -> Seq<char> {
    c.opfunc + "("@ + joined(shown(c.args, false), ", "@) + ")"@ + match c.condition {
        ConditionView::Eq(s) => " == "@ + s,
        ConditionView::Ne(s) => " != "@ + s,
    } + if c.perf {
        " (timed)"@
    } else {
        Seq::empty()
    }
}

/// One line for each input group: its name and its bindings.
pub open spec fn input_lines(inputs: Seq<InputGroupView>) -> Seq<char>
    decreases inputs.len(),
{
    if inputs.len() == 0 {
        Seq::empty()
    } else {
        input_lines(inputs.drop_last()) + "  - "@ + inputs.last().name + ": "@ + args_text(
            inputs.last().args,
        ) + "\n"@
    }
}

/// One line for each command.
pub open spec fn cmd_lines(cmds: Seq<CmdView>) -> Seq<char>
    decreases cmds.len(),
{
    if cmds.len() == 0 {
        Seq::empty()
    } else {
        cmd_lines(cmds.drop_last()) + "  - "@ + cmd_text(cmds.last()) + "\n"@
    }
}

/// The text form of a test: its name, its number of threads and its two
/// flags, one to a line; its input groups, where it has any; and its
/// commands.
pub open spec fn test_text(t: TestView) -> Seq<char> {
    "Test: "@ + t.name + "\n"@ + "Threads: "@ + decimal(t.thread_num as int) + "\n"@
        + "Should Panic: "@ + bool_text(t.should_panic) + "\n"@ + "Break if Fail: "@ + bool_text(
        t.break_if_fail,
    ) + "\n"@ + if t.inputs.len() > 0 {
        "Input Groups:\n"@ + input_lines(t.inputs)
    } else {
        Seq::empty()
    } + "Commands:\n"@ + cmd_lines(t.cmds)
}

/// Appends a number in decimal.
fn push_number(out: &mut Vec<char>, n: i64)
    ensures
        final(out)@ == old(out)@ + decimal(n as int),
{
    let digits = decimal_chars(n);
    extend_chars(out, &digits, 0);
    assert(digits@.skip(0) =~= digits@);
}

/// Appends a truth value in words.
fn push_bool(out: &mut Vec<char>, b: bool)
    ensures
        final(out)@ == old(out)@ + bool_text(b),
{
    if b {
        push_str_chars(out, "true");
    } else {
        push_str_chars(out, "false");
    }
}

/// Appends a text between double quotes.
fn push_quoted(out: &mut Vec<char>, s: &str)
    ensures
        final(out)@ == old(out)@ + quoted(s@),
{
    out.push('"');
    push_str_chars(out, s);
    out.push('"');
    assert(out@ =~= old(out)@ + quoted(s@));
}

/// Appends texts with `, ` between them, each in quotes where asked.
fn push_texts(out: &mut Vec<char>, items: &Vec<String>, in_quotes: bool)
    ensures
        final(out)@ == old(out)@ + joined(shown(items.deep_view(), in_quotes), ", "@),
{
    let ghost parts = shown(items.deep_view(), in_quotes);
    if items.len() == 0 {
        assert(out@ + Seq::<char>::empty() =~= out@);
        return ;
    }
    if in_quotes {
        push_quoted(out, items[0].as_str());
    } else {
        push_str_chars(out, items[0].as_str());
    }
    let mut i: usize = 1;
    assert(parts.skip(1).take(0) =~= Seq::<Seq<char>>::empty());
    assert(out@ =~= old(out)@ + parts[0] + each_behind(parts.skip(1).take(0), ", "@));
    while i < items.len()
        invariant
            1 <= i <= items.len(),
            parts.len() == items.len(),
            forall|k: int|
                0 <= k < parts.len() ==> #[trigger] parts[k] == if in_quotes {
                    quoted(items.deep_view()[k])
                } else {
                    items.deep_view()[k]
                },
            out@ == old(out)@ + parts[0] + each_behind(parts.skip(1).take(i - 1), ", "@),
        decreases items.len() - i,
    {
        let ghost before = out@;
        let ghost upto = parts.skip(1).take(i as int);
        assert(upto.drop_last() =~= parts.skip(1).take(i - 1));
        assert(upto.last() == parts[i as int]);
        push_str_chars(out, ", ");
        if in_quotes {
            push_quoted(out, items[i].as_str());
        } else {
            push_str_chars(out, items[i].as_str());
        }
        assert(out@ =~= before + ", "@ + parts[i as int]);
        assert(out@ =~= old(out)@ + parts[0] + each_behind(upto, ", "@));
        i += 1;
    }
    assert(parts.skip(1).take(i - 1) =~= parts.skip(1));
}

/// Appends the text form of a value.
fn push_value_text(out: &mut Vec<char>, v: &ArgValue)
    ensures
        final(out)@ == old(out)@ + value_text(v@),
{
    match v {
        ArgValue::Single(s) => {
            push_quoted(out, s.as_str());
        },
        ArgValue::List(items) => {
            push_str_chars(out, "[");
            push_texts(out, items, true);
            push_str_chars(out, "]");
            assert(out@ =~= old(out)@ + value_text(v@));
        },
        ArgValue::Range(r) => {
            push_number(out, r.start as i64);
            push_str_chars(out, "..=");
            push_number(out, r.end as i64);
            let ghost bounds = decimal(r.start as int) + "..="@ + decimal(r.end as int);
            assert(out@ =~= old(out)@ + bounds);
            match r.step {
                Some(step) => {
                    push_str_chars(out, " step ");
                    push_number(out, step as i64);
                    assert(out@ =~= old(out)@ + (bounds + (" step "@ + decimal(step as int))));
                },
                None => {
                    assert(out@ =~= old(out)@ + (bounds + Seq::<char>::empty()));
                },
            }
        },
    }
}

/// Appends the text form of the bindings of a table.
fn push_args_text(out: &mut Vec<char>, m: &ArgMap)
    ensures
        final(out)@ == old(out)@ + args_text(m@),
{
    let n = m.len();
    let ghost parts = Seq::new(m@.len(), |i: int| m@[i].0 + ": "@ + value_text(m@[i].1));
    push_str_chars(out, "{");
    if n > 0 {
        let ghost start = out@;
        push_str_chars(out, m.key_at(0).as_str());
        push_str_chars(out, ": ");
        push_value_text(out, m.value_at(0));
        let mut i: usize = 1;
        assert(parts.skip(1).take(0) =~= Seq::<Seq<char>>::empty());
        assert(out@ =~= start + parts[0] + each_behind(parts.skip(1).take(0), ", "@));
        while i < n
            invariant
                1 <= i <= n,
                n == m@.len(),
                parts == Seq::new(m@.len(), |i: int| m@[i].0 + ": "@ + value_text(m@[i].1)),
                out@ == start + parts[0] + each_behind(parts.skip(1).take(i - 1), ", "@),
            decreases n - i,
        {
            let ghost before = out@;
            let ghost upto = parts.skip(1).take(i as int);
            assert(upto.drop_last() =~= parts.skip(1).take(i - 1));
            assert(upto.last() == parts[i as int]);
            push_str_chars(out, ", ");
            push_str_chars(out, m.key_at(i).as_str());
            push_str_chars(out, ": ");
            push_value_text(out, m.value_at(i));
            assert(out@ =~= before + ", "@ + parts[i as int]);
            assert(out@ =~= start + parts[0] + each_behind(upto, ", "@));
            i += 1;
        }
        assert(parts.skip(1).take(i - 1) =~= parts.skip(1));
    } else {
        assert(out@ + Seq::<char>::empty() =~= out@);
    }
    let ghost inner = out@;
    push_str_chars(out, "}");
    assert(out@ =~= old(out)@ + args_text(m@));
}

/// Appends the text form of a command.
fn push_cmd_text(out: &mut Vec<char>, c: &Cmd)
    ensures
        final(out)@ == old(out)@ + cmd_text(c@),
{
    push_str_chars(out, c.opfunc.as_str());
    push_str_chars(out, "(");
    push_texts(out, &c.args, false);
    push_str_chars(out, ")");
    let ghost call = c@.opfunc + "("@ + joined(shown(c@.args, false), ", "@) + ")"@;
    assert(out@ =~= old(out)@ + call);
    let ghost expected = match c@.condition {
        ConditionView::Eq(s) => " == "@ + s,
        ConditionView::Ne(s) => " != "@ + s,
    };
    match &c.condition {
        Condition::Eq(s) => {
            push_str_chars(out, " == ");
            push_str_chars(out, s.as_str());
        },
        Condition::Ne(s) => {
            push_str_chars(out, " != ");
            push_str_chars(out, s.as_str());
        },
    }
    assert(out@ =~= old(out)@ + (call + expected));
    if c.perf {
        push_str_chars(out, " (timed)");
        assert(out@ =~= old(out)@ + (call + expected + " (timed)"@));
    } else {
        assert(out@ =~= old(out)@ + (call + expected + Seq::<char>::empty()));
    }
}

impl Cmd {
    /// The text form of the command.
    pub fn describe(&self) -> (s: String)
        ensures
            s@ == cmd_text(self@),
    {
        let mut out: Vec<char> = Vec::new();
        push_cmd_text(&mut out, self);
        assert(out@ =~= cmd_text(self@));
        string_of(&out)
    }
}

impl Test {
    /// The text form of the test.
    pub fn describe(&self) -> (s: String)
        ensures
            s@ == test_text(self@),
    {
        let mut out: Vec<char> = Vec::new();
        push_str_chars(&mut out, "Test: ");
        push_str_chars(&mut out, self.name.as_str());
        push_str_chars(&mut out, "\n");
        push_str_chars(&mut out, "Threads: ");
        push_number(&mut out, self.thread_num);
        push_str_chars(&mut out, "\n");
        push_str_chars(&mut out, "Should Panic: ");
        push_bool(&mut out, self.should_panic);
        push_str_chars(&mut out, "\n");
        push_str_chars(&mut out, "Break if Fail: ");
        push_bool(&mut out, self.break_if_fail);
        push_str_chars(&mut out, "\n");
        let ghost head = out@;
        if self.inputs.len() > 0 {
            push_str_chars(&mut out, "Input Groups:\n");
            let ghost start = out@;
            let mut i: usize = 0;
            assert(self@.inputs.take(0) =~= Seq::<InputGroupView>::empty());
            assert(out@ =~= start + input_lines(self@.inputs.take(0)));
            while i < self.inputs.len()
                invariant
                    i <= self.inputs.len(),
                    out@ == start + input_lines(self@.inputs.take(i as int)),
                decreases self.inputs.len() - i,
            {
                let ghost before = out@;
                let ghost upto = self@.inputs.take(i + 1);
                assert(upto.drop_last() =~= self@.inputs.take(i as int));
                assert(upto.last() == self.inputs[i as int]@);
                push_str_chars(&mut out, "  - ");
                push_str_chars(&mut out, self.inputs[i].name.as_str());
                push_str_chars(&mut out, ": ");
                push_args_text(&mut out, &self.inputs[i].args);
                push_str_chars(&mut out, "\n");
                assert(out@ =~= start + input_lines(upto));
                i += 1;
            }
            assert(self@.inputs.take(i as int) =~= self@.inputs);
        }
        let ghost middle = out@;
        push_str_chars(&mut out, "Commands:\n");
        let ghost start = out@;
        let mut k: usize = 0;
        assert(self@.cmds.take(0) =~= Seq::<CmdView>::empty());
        assert(out@ =~= start + cmd_lines(self@.cmds.take(0)));
        while k < self.cmds.len()
            invariant
                k <= self.cmds.len(),
                out@ == start + cmd_lines(self@.cmds.take(k as int)),
            decreases self.cmds.len() - k,
        {
            let ghost upto = self@.cmds.take(k + 1);
            assert(upto.drop_last() =~= self@.cmds.take(k as int));
            assert(upto.last() == self.cmds[k as int]@);
            push_str_chars(&mut out, "  - ");
            push_cmd_text(&mut out, &self.cmds[k]);
            push_str_chars(&mut out, "\n");
            assert(out@ =~= start + cmd_lines(upto));
            k += 1;
        }
        assert(self@.cmds.take(k as int) =~= self@.cmds);
        assert(head =~= "Test: "@ + self@.name + "\n"@ + "Threads: "@ + decimal(
            self@.thread_num as int,
        ) + "\n"@ + "Should Panic: "@ + bool_text(self@.should_panic) + "\n"@ + "Break if Fail: "@
            + bool_text(self@.break_if_fail) + "\n"@);
        assert(middle =~= head + if self@.inputs.len() > 0 {
            "Input Groups:\n"@ + input_lines(self@.inputs)
        } else {
            Seq::empty()
        });
        assert(out@ =~= test_text(self@));
        string_of(&out)
    }
}

} // verus!
