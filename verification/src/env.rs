//! Environments: commands that set up before, and tear down after, the
//! commands of the tests they apply to.
use crate::cmd::{clone_cmds, Cmd, CmdView};
use crate::input::clone_strings;
use crate::text::same_text;
use vstd::prelude::*;

verus! {

/// A named pair of command lists, one to run before and one to run after.
/// An environment that lists no test is global; any other applies to the
/// tests it lists.
#[derive(Debug)]
pub struct Env {
    pub name: String,
    pub init: Vec<Cmd>,
    pub exit: Vec<Cmd>,
    pub tests: Vec<String>,
}

/// The mathematical content of an [`Env`].
pub struct EnvView {
    pub name: Seq<char>,
    pub init: Seq<CmdView>,
    pub exit: Seq<CmdView>,
    pub tests: Seq<Seq<char>>,
}

impl DeepView for Env {
    type V = EnvView;

    open spec fn deep_view(&self) -> EnvView {
        EnvView {
            name: self.name@,
            init: self.init.deep_view(),
            exit: self.exit.deep_view(),
            tests: self.tests.deep_view(),
        }
    }
}

impl View for Env {
    type V = EnvView;

    open spec fn view(&self) -> EnvView {
        self.deep_view()
    }
}

impl Clone for Env {
    fn clone(&self) -> (r: Self)
        ensures
            r@ == self@,
    {
        Env {
            name: self.name.clone(),
            init: clone_cmds(&self.init),
            exit: clone_cmds(&self.exit),
            tests: clone_strings(&self.tests),
        }
    }
}

/// Commands inside an environment: its set-up first, its tear-down last.
pub open spec fn wrap(env: EnvView, cmds: Seq<CmdView>) -> Seq<CmdView> {
    env.init + cmds + env.exit
}

/// Commands inside an environment that may be missing.
pub open spec fn wrap_in(env: Option<EnvView>, cmds: Seq<CmdView>) -> Seq<CmdView> {
    match env {
        Some(e) => wrap(e, cmds),
        None => cmds,
    }
}

/// The set-up commands of an environment that may be missing.
pub open spec fn init_of(env: Option<EnvView>) -> Seq<CmdView> {
    match env {
        Some(e) => e.init,
        None => Seq::empty(),
    }
}

/// The tear-down commands of an environment that may be missing.
pub open spec fn exit_of(env: Option<EnvView>) -> Seq<CmdView> {
    match env {
        Some(e) => e.exit,
        None => Seq::empty(),
    }
}

/// The scopes nest, the process outside the thread: what runs before
/// anything else is the set-up of the process environment, then that of the
/// thread environment; what runs after everything else is the tear-down of
/// the thread environment, then that of the process environment.
pub proof fn lemma_scopes_nest(
    process_env: Option<EnvView>,
    thread_env: Option<EnvView>,
    cmds: Seq<CmdView>,
)
    ensures
        wrap_in(process_env, wrap_in(thread_env, cmds)) == (init_of(process_env) + init_of(
            thread_env,
        )) + cmds + (exit_of(thread_env) + exit_of(process_env)),
{
    assert(wrap_in(process_env, wrap_in(thread_env, cmds)) =~= (init_of(process_env) + init_of(
        thread_env,
    )) + cmds + (exit_of(thread_env) + exit_of(process_env)));
}

/// Whether `name` is among `names`.
pub fn contains_name(names: &Vec<String>, name: &str) -> (r: bool)
    ensures
        r == names.deep_view().contains(name@),
{
    let mut i: usize = 0;
    while i < names.len()
        invariant
            i <= names.len(),
            forall|k: int| 0 <= k < i ==> names.deep_view()[k] != name@,
        decreases names.len() - i,
    {
        assert(names.deep_view()[i as int] == names[i as int]@);
        if same_text(names[i].as_str(), name) {
            return true;
        }
        i += 1;
    }
    false
}

impl Env {
    /// Whether the environment is global: it lists no test.
    pub fn is_global(&self) -> (r: bool)
        ensures
            r == (self@.tests.len() == 0),
    {
        self.tests.len() == 0
    }

    /// Whether the environment lists the test `name`.
    pub fn claims(&self, name: &str) -> (r: bool)
        ensures
            r == self@.tests.contains(name@),
    {
        contains_name(&self.tests, name)
    }

    /// The commands `cmds` inside this environment.
    pub fn wrap(&self, cmds: &Vec<Cmd>) -> (r: Vec<Cmd>)
        ensures
            r.deep_view() == wrap(self@, cmds.deep_view()),
    {
        let mut r = clone_cmds(&self.init);
        let mut body = clone_cmds(cmds);
        let mut exit = clone_cmds(&self.exit);
        r.append(&mut body);
        r.append(&mut exit);
        r
    }
}

/// What every test of a run shares and only reads: the environment of each
/// worker thread, the environment of the process, and the cap on how many
/// units may run at a time.
#[derive(Debug)]
pub struct ResourceEnv {
    pub thread_env: Option<Env>,
    pub process_env: Option<Env>,
    pub max_threads: Option<usize>,
}

impl ResourceEnv {
    /// The resource environment of a run.
    pub fn init(thread_env: Option<Env>, process_env: Option<Env>, max_threads: Option<usize>) -> (r:
        ResourceEnv)
        ensures
            r.thread_env == thread_env,
            r.process_env == process_env,
            r.max_threads == max_threads,
    {
        ResourceEnv { thread_env, process_env, max_threads }
    }

    /// The commands that set a run up, before any test: those of the
    /// process environment, then those of the thread environment.
    pub fn startup(&self) -> (r: Vec<Cmd>)
        ensures
            r.deep_view() == init_of(self.process_env.deep_view()) + init_of(
                self.thread_env.deep_view(),
            ),
    {
        let mut r: Vec<Cmd> = Vec::new();
        match &self.process_env {
            Some(env) => {
                let mut part = clone_cmds(&env.init);
                r.append(&mut part);
            },
            None => {},
        }
        match &self.thread_env {
            Some(env) => {
                let mut part = clone_cmds(&env.init);
                r.append(&mut part);
            },
            None => {},
        }
        r
    }

    /// The commands that tear a run down, after every test: those of the
    /// thread environment, then those of the process environment.
    pub fn shutdown(&self) -> (r: Vec<Cmd>)
        ensures
            r.deep_view() == exit_of(self.thread_env.deep_view()) + exit_of(
                self.process_env.deep_view(),
            ),
    {
        let mut r: Vec<Cmd> = Vec::new();
        match &self.thread_env {
            Some(env) => {
                let mut part = clone_cmds(&env.exit);
                r.append(&mut part);
            },
            None => {},
        }
        match &self.process_env {
            Some(env) => {
                let mut part = clone_cmds(&env.exit);
                r.append(&mut part);
            },
            None => {},
        }
        r
    }

    /// The commands of one instance as a thread runs them: on a worker
    /// thread inside the thread environment, on the main thread as they are.
    pub fn instance_commands(&self, cmds: &Vec<Cmd>, on_worker: bool) -> (r: Vec<Cmd>)
        ensures
            r.deep_view() == if on_worker {
                wrap_in(self.thread_env.deep_view(), cmds.deep_view())
            } else {
                cmds.deep_view()
            },
    {
        if on_worker {
            match &self.thread_env {
                Some(env) => env.wrap(cmds),
                None => clone_cmds(cmds),
            }
        } else {
            clone_cmds(cmds)
        }
    }
}

} // verus!
