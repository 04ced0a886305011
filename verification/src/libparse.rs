//! The registry of native functions, and how a command's arguments become
//! the positional parameters of a call.
use crate::condition::{parse_number, read_number};
use crate::error::{LibError, LibErrorView};
use crate::text::{from_chars, matches_at, same_text, to_chars};
use vstd::prelude::*;

verus! {

/// One positional parameter of a native call: a number, or a text that the
/// call receives as a pointer to its bytes.
#[derive(Debug, PartialEq)]
pub enum Param {
    Int(i64),
    Text(String),
}

/// The mathematical content of a [`Param`].
pub enum ParamView {
    Int(i64),
    Text(Seq<char>),
}

impl DeepView for Param {
    type V = ParamView;

    open spec fn deep_view(&self) -> ParamView {
        match self {
            Param::Int(n) => ParamView::Int(*n),
            Param::Text(s) => ParamView::Text(s@),
        }
    }
}

impl View for Param {
    type V = ParamView;

    open spec fn view(&self) -> ParamView {
        self.deep_view()
    }
}

/// Whether a text is written between single quotes.
pub open spec fn is_quoted(text: Seq<char>) -> bool {
    text.len() >= 2 && text[0] == '\'' && text.last() == '\''
}

/// What a written value passes to the call: the number it spells, else the
/// text between its quotes where that holds no NUL character.
pub open spec fn param_of(text: Seq<char>) -> Option<ParamView> {
    match parse_number(text) {
        Some(n) => Some(ParamView::Int(n)),
        None => if is_quoted(text) && !text.subrange(1, text.len() - 1).contains('\0') {
            Some(ParamView::Text(text.subrange(1, text.len() - 1)))
        } else {
            None
        },
    }
}

/// Whether a written value is neither a number nor quoted, so that the
/// search for the parameter goes on behind it.
pub open spec fn is_passed_over(text: Seq<char>) -> bool {
    parse_number(text) is None && !is_quoted(text)
}

/// The parameter that the arguments give for the formal name `key`: that of
/// the first argument `key=value` whose value is a number or quoted.
/// Nothing where there is no such argument, or where the quoted text holds a
/// NUL character.
pub open spec fn bind_key(key: Seq<char>, args: Seq<Seq<char>>) -> Option<ParamView>
    decreases args.len(),
{
    if args.len() == 0 {
        None
    } else if (key + seq!['=']).is_prefix_of(args[0]) && !is_passed_over(
        args[0].skip(key.len() as int + 1),
    ) {
        param_of(args[0].skip(key.len() as int + 1))
    } else {
        bind_key(key, args.skip(1))
    }
}

/// The parameters for the formal names, in the order of the names, or the
/// first name for which the arguments give none.
pub open spec fn bind_all(paras: Seq<Seq<char>>, args: Seq<Seq<char>>) -> Result<
    Seq<ParamView>,
    LibErrorView,
>
    decreases paras.len(),
{
    if paras.len() == 0 {
        Ok(Seq::empty())
    } else {
        match bind_all(paras.drop_last(), args) {
            Err(e) => Err(e),
            Ok(head) => match bind_key(paras.last(), args) {
                None => Err(LibErrorView::ParamError(paras.last())),
                Some(p) => Ok(head.push(p)),
            },
        }
    }
}

/// The positional parameters of a call of a function with the formal names
/// `paras`, given the arguments `args`: a size error where their numbers
/// differ, else what [`bind_all`] says.
pub open spec fn parse_params(paras: Seq<Seq<char>>, args: Seq<Seq<char>>) -> Result<
    Seq<ParamView>,
    LibErrorView,
> {
    if args.len() != paras.len() {
        Err(LibErrorView::SizeError(paras.len() as usize, args.len() as usize))
    } else {
        bind_all(paras, args)
    }
}

/// An error for a name is an error for every list of names that begins with
/// it.
pub proof fn lemma_bind_error_stays(paras: Seq<Seq<char>>, args: Seq<Seq<char>>, k: int)
    requires
        0 <= k <= paras.len(),
        bind_all(paras.take(k), args) is Err,
    ensures
        bind_all(paras, args) == bind_all(paras.take(k), args),
    decreases paras.len(),
{
    if k == paras.len() {
        assert(paras.take(k) =~= paras);
    } else {
        assert(paras.drop_last().take(k) =~= paras.take(k));
        lemma_bind_error_stays(paras.drop_last(), args, k);
    }
}

/// What was made of a written value.
enum Reading {
    /// It passes this parameter to the call.
    Passes(Param),
    /// It is quoted but cannot be passed.
    Refused,
    /// It is neither a number nor quoted.
    PassedOver,
}

/// Reads a written value.
#[verifier::loop_isolation(false)]
fn read_param(text: &Vec<char>, from: usize) -> (r: Reading)
    requires
        from <= text.len(),
    ensures
        match r {
            Reading::Passes(p) => param_of(text@.skip(from as int)) == Some(p@),
            Reading::Refused => param_of(text@.skip(from as int)) is None && !is_passed_over(
                text@.skip(from as int),
            ),
            Reading::PassedOver => is_passed_over(text@.skip(from as int)),
        },
{
    let ghost value = text@.skip(from as int);
    match read_number(text, from) {
        Some(n) => Reading::Passes(Param::Int(n)),
        None => {
            let n = text.len();
            if n - from >= 2 && text[from] == '\'' && text[n - 1] == '\'' {
                let ghost inner = value.subrange(1, value.len() - 1);
                let mut i: usize = from + 1;
                while i < n - 1
                    invariant
                        from + 1 <= i <= n - 1,
                        n == text.len(),
                        inner == text@.subrange(from + 1, n - 1),
                        forall|k: int| 0 <= k < i - from - 1 ==> inner[k] != '\0',
                    decreases n - i,
                {
                    if text[i] == '\0' {
                        assert(inner[i - from - 1] == '\0');
                        return Reading::Refused;
                    }
                    i += 1;
                }
                Reading::Passes(Param::Text(from_chars(text, from + 1, n - 1)))
            } else {
                Reading::PassedOver
            }
        },
    }
}

/// The parameter that the arguments give for the formal name `key`.
fn bind_param(key: &str, args: &Vec<String>) -> (r: Option<Param>)
    ensures
        r.deep_view() == bind_key(key@, args.deep_view()),
{
    let mut prefix = to_chars(key);
    prefix.push('=');
    let mut i: usize = 0;
    assert(args.deep_view().skip(0) =~= args.deep_view());
    while i < args.len()
        invariant
            i <= args.len(),
            prefix@ == key@ + seq!['='],
            bind_key(key@, args.deep_view()) == bind_key(key@, args.deep_view().skip(i as int)),
        decreases args.len() - i,
    {
        let ghost rest = args.deep_view().skip(i as int);
        assert(rest.skip(1) =~= args.deep_view().skip(i + 1));
        let arg = to_chars(args[i].as_str());
        if matches_at(&arg, 0, &prefix) {
            match read_param(&arg, prefix.len()) {
                Reading::Passes(p) => {
                    return Some(p);
                },
                Reading::Refused => {
                    return None;
                },
                Reading::PassedOver => {},
            }
        }
        i += 1;
    }
    None
}

/// A native function as the registry knows it: the names of its formal
/// parameters, in the order in which the function takes them.
#[derive(Debug)]
pub struct FnAttr {
    pub paras: Vec<String>,
}

impl View for FnAttr {
    type V = Seq<Seq<char>>;

    open spec fn view(&self) -> Seq<Seq<char>> {
        self.paras.deep_view()
    }
}

impl FnAttr {
    /// A function with the given formal parameters.
    pub fn new(paras: Vec<String>) -> (f: FnAttr)
        ensures
            f@ == paras.deep_view(),
    {
        FnAttr { paras }
    }

    /// The positional parameters of a call with the arguments
    /// `config_params`, each written `key=value`: for each formal parameter,
    /// in the order of the formal parameters, the value of the first
    /// argument that names it and holds a number or a quoted text. Fails
    /// with a size error where the arguments are not as many as the formal
    /// parameters, and with a parameter error that names the first formal
    /// parameter for which no argument gives a value.
    #[verifier::loop_isolation(false)]
    pub fn parse_params(&self, config_params: &Vec<String>) -> (r: Result<Vec<Param>, LibError>)
        ensures
            match parse_params(self@, config_params.deep_view()) {
                Ok(params) => r matches Ok(got) && got.deep_view() == params,
                Err(e) => r matches Err(err) && err@ == e,
            },
    {
        if config_params.len() != self.paras.len() {
            return Err(LibError::SizeError(self.paras.len(), config_params.len()));
        }
        let mut params: Vec<Param> = Vec::new();
        let mut i: usize = 0;
        assert(params.deep_view() =~= Seq::<ParamView>::empty());
        while i < self.paras.len()
            invariant
                i <= self.paras.len(),
                bind_all(self@.take(i as int), config_params.deep_view()) == Ok::<
                    Seq<ParamView>,
                    LibErrorView,
                >(params.deep_view()),
            decreases self.paras.len() - i,
        {
            let ghost upto = self@.take(i + 1);
            assert(upto.drop_last() =~= self@.take(i as int));
            let ghost before = params.deep_view();
            match bind_param(self.paras[i].as_str(), config_params) {
                Some(p) => {
                    params.push(p);
                    assert(params.deep_view() =~= before.push(p@));
                },
                None => {
                    proof {
                        lemma_bind_error_stays(self@, config_params.deep_view(), i + 1);
                    }
                    return Err(LibError::ParamError(self.paras[i].clone()));
                },
            }
            i += 1;
        }
        assert(self@.take(i as int) =~= self@);
        Ok(params)
    }
}

/// The slot of the first function of that name, if there is one.
pub open spec fn find_func(funcs: Seq<(Seq<char>, Seq<Seq<char>>)>, name: Seq<char>) -> Option<
    int,
>
    decreases funcs.len(),
{
    if funcs.len() == 0 {
        None
    } else if funcs.last().0 == name && find_func(funcs.drop_last(), name) is None {
        Some(funcs.len() - 1)
    } else {
        find_func(funcs.drop_last(), name)
    }
}

/// `params` filled up with zeros to `width` parameters.
pub open spec fn padded(params: Seq<ParamView>, width: int) -> Seq<ParamView> {
    params + Seq::new((width - params.len()) as nat, |i: int| ParamView::Int(0))
}

/// The parameters of a call under the cap on their number: as they are
/// where there is no cap, filled up with zeros to the cap where they are
/// at most as many, and a size error where they are more.
pub open spec fn fitted(params: Seq<ParamView>, width: Option<usize>) -> Result<
    Seq<ParamView>,
    LibErrorView,
> {
    match width {
        None => Ok(params),
        Some(w) => if params.len() > w {
            Err(LibErrorView::SizeError(w, params.len() as usize))
        } else {
            Ok(padded(params, w as int))
        },
    }
}

/// A call that is ready to be made: the slot of the function in the
/// registry, and its positional parameters.
#[derive(Debug)]
pub struct NativeCall {
    pub slot: usize,
    pub params: Vec<Param>,
}

/// The registry of native functions. Each function has a slot, its position
/// in the order of registration, and is found by its name.
#[derive(Debug)]
pub struct LibParse {
    funcs: Vec<(String, FnAttr)>,
    width: Option<usize>,
}

/// The mathematical content of a [`LibParse`]: the functions by slot, each
/// with its name and the names of its formal parameters, and the cap on the
/// number of parameters of a call, to which the parameters of every call are
/// filled up, if there is one.
pub struct LibParseView {
    pub funcs: Seq<(Seq<char>, Seq<Seq<char>>)>,
    pub width: Option<usize>,
}

impl View for LibParse {
    type V = LibParseView;

    closed spec fn view(&self) -> LibParseView {
        LibParseView {
            funcs: Seq::new(self.funcs@.len(), |i: int| (self.funcs@[i].0@, self.funcs@[i].1@)),
            width: self.width,
        }
    }
}

impl LibParse {
    /// An empty registry whose calls take exactly `width` parameters, where
    /// a width is given.
    pub fn new(width: Option<usize>) -> (r: LibParse)
        ensures
            r@.funcs.len() == 0,
            r@.width == width,
    {
        LibParse { funcs: Vec::new(), width }
    }

    /// The number of slots.
    pub fn len(&self) -> (n: usize)
        ensures
            n == self@.funcs.len(),
    {
        self.funcs.len()
    }

    /// The cap on the number of parameters of a call.
    pub fn width(&self) -> (w: Option<usize>)
        ensures
            w == self@.width,
    {
        self.width
    }

    /// The slot of the function `name`, if it is registered.
    pub fn slot_of(&self, name: &str) -> (r: Option<usize>)
        ensures
            r matches Some(i) ==> find_func(self@.funcs, name@) == Some(i as int) && i < self@.funcs.len()
                && self@.funcs[i as int].0 == name@,
            r is None ==> find_func(self@.funcs, name@) is None,
    {
        let mut i: usize = 0;
        while i < self.funcs.len()
            invariant
                i <= self.funcs.len(),
                find_func(self@.funcs.take(i as int), name@) is None,
            decreases self.funcs.len() - i,
        {
            let ghost upto = self@.funcs.take(i + 1);
            assert(upto.drop_last() =~= self@.funcs.take(i as int));
            if same_text(self.funcs[i].0.as_str(), name) {
                proof {
                    lemma_found_stays(self@.funcs, name@, i + 1);
                }
                return Some(i);
            }
            i += 1;
        }
        assert(self@.funcs.take(i as int) =~= self@.funcs);
        None
    }

    /// Registers a function under `name` and returns its slot. A function
    /// that was registered under the name keeps its slot and gets the new
    /// formal parameters; a new name gets the next free slot.
    pub fn register(&mut self, name: String, paras: Vec<String>) -> (slot: usize)
        ensures
            final(self)@.width == old(self)@.width,
            match find_func(old(self)@.funcs, name@) {
                Some(i) => slot == i && final(self)@.funcs == old(self)@.funcs.update(
                    i,
                    (name@, paras.deep_view()),
                ),
                None => slot == old(self)@.funcs.len() && final(self)@.funcs == old(self)@.funcs.push(
                    (name@, paras.deep_view()),
                ),
            },
    {
        match self.slot_of(name.as_str()) {
            Some(i) => {
                self.funcs.remove(i);
                self.funcs.insert(i, (name, FnAttr::new(paras)));
                i
            },
            None => {
                let slot = self.funcs.len();
                self.funcs.push((name, FnAttr::new(paras)));
                slot
            },
        }
    }

    /// The function registered under `name`.
    pub fn get_func(&self, name: &str) -> (r: Result<&FnAttr, LibError>)
        ensures
            match find_func(self@.funcs, name@) {
                Some(i) => r matches Ok(f) && f@ == self@.funcs[i].1,
                None => r matches Err(e) && e@ == LibErrorView::FuncNotFound(name@),
            },
    {
        match self.slot_of(name) {
            Some(i) => Ok(&self.funcs[i].1),
            None => Err(LibError::FuncNotFound(name.to_owned())),
        }
    }

    /// Prepares the call of the function `fn_name` with the arguments
    /// `config_params`: finds the function, turns the arguments into
    /// its positional parameters and fills them up to the registry's width.
    /// Fails where the function is not registered, where the arguments do
    /// not fit its formal parameters, and where the parameters are more than
    /// the registry's width allows.
    pub fn resolve(&self, fn_name: &str, config_params: &Vec<String>) -> (r: Result<
        NativeCall,
        LibError,
    >)
        ensures
            match find_func(self@.funcs, fn_name@) {
                None => r matches Err(e) && e@ == LibErrorView::FuncNotFound(fn_name@),
                Some(i) => match parse_params(self@.funcs[i].1, config_params.deep_view()) {
                    Err(e) => r matches Err(err) && err@ == e,
                    Ok(params) => match fitted(params, self@.width) {
                        Err(e) => r matches Err(err) && err@ == e,
                        Ok(fit) => r matches Ok(call) && call.slot == i
                            && call.params.deep_view() == fit,
                    },
                },
            },
    {
        match self.slot_of(fn_name) {
            None => Err(LibError::FuncNotFound(fn_name.to_owned())),
            Some(slot) => match self.funcs[slot].1.parse_params(config_params) {
                Err(e) => Err(e),
                Ok(params) => match fit_params(params, self.width) {
                    Err(e) => Err(e),
                    Ok(params) => Ok(NativeCall { slot, params }),
                },
            },
        }
    }
}

/// Fits the parameters of a call under the cap on their number.
pub fn fit_params(params: Vec<Param>, width: Option<usize>) -> (r: Result<Vec<Param>, LibError>)
    ensures
        match fitted(params.deep_view(), width) {
            Ok(fit) => r matches Ok(got) && got.deep_view() == fit,
            Err(e) => r matches Err(err) && err@ == e,
        },
{
    let ghost given = params.deep_view();
    let mut r = params;
    match width {
        Some(w) => {
            if r.len() > w {
                return Err(LibError::SizeError(w, r.len()));
            }
            while r.len() < w
                invariant
                    given.len() <= r.len() <= w,
                    r.deep_view() == padded(given, r.len() as int),
                decreases w - r.len(),
            {
                let ghost before = r.deep_view();
                r.push(Param::Int(0));
                assert(r.deep_view() =~= before.push(ParamView::Int(0)));
            }
            Ok(r)
        },
        None => Ok(r),
    }
}

/// A function found among the first `k` keeps its slot among all.
pub proof fn lemma_found_stays(funcs: Seq<(Seq<char>, Seq<Seq<char>>)>, name: Seq<char>, k: int)
    requires
        0 <= k <= funcs.len(),
        find_func(funcs.take(k), name) is Some,
    ensures
        find_func(funcs, name) == find_func(funcs.take(k), name),
    decreases funcs.len(),
{
    if k == funcs.len() {
        assert(funcs.take(k) =~= funcs);
    } else {
        assert(funcs.drop_last().take(k) =~= funcs.take(k));
        lemma_found_stays(funcs.drop_last(), name, k);
    }
}

} // verus!
