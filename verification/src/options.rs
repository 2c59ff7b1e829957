//! A single declared option: its kind (boolean switch or value-taking),
//! its alias strings, and its mutable state (a flag, or the accumulated
//! values), together with the constructors and the fancy-alias expansion.

use vstd::prelude::*;
use vstd::string::StrSliceExecFns;
use vstd::string::StringExecFns;

use crate::text::join_spaces;
use crate::text::join_spaces_spec;
use crate::text::lemma_split_tokens;
use crate::text::split_spaces;
use crate::text::split_spaces_spec;

verus! {

/// The kind of an option, fixed at construction.
#[derive(Clone, Copy, Debug, PartialEq, Eq, Structural)]
pub enum OptKind {
    /// A flag with no value: set or unset.
    Boolean,
    /// A value-accumulating option: each occurrence appends one value.
    Str,
}

/// True exactly for the value-taking kind.
pub fn is_str_option(kind: OptKind) -> (r: bool)
    ensures
        r == (kind is Str),
{
    kind == OptKind::Str
}

/// The errors this library reports. All mark a misuse by the caller and
/// are returned as values rather than aborting the process.
#[derive(Debug, Clone, PartialEq, Eq)]
pub enum RoptError {
    /// A value-taking option's alias was the final token, with no value after it.
    /// Carries that alias token.
    MissingArgument(String),
    /// A value operation was applied to a boolean option.
    TypeMismatch,
    /// A value was read from an option that is not set.
    NotSet,
    /// An alias specification held no alias after splitting.
    InvalidSpec,
}

/// The mathematical value of a `RoptError`.
pub enum ErrModel {
    MissingArgument(Seq<char>),
    TypeMismatch,
    NotSet,
    InvalidSpec,
}

impl View for RoptError {
    type V = ErrModel;

    open spec fn view(&self) -> ErrModel {
        match self {
            RoptError::MissingArgument(t) => ErrModel::MissingArgument(t@),
            RoptError::TypeMismatch => ErrModel::TypeMismatch,
            RoptError::NotSet => ErrModel::NotSet,
            RoptError::InvalidSpec => ErrModel::InvalidSpec,
        }
    }
}

/// The mathematical value of an option: its kind, its aliases, and its
/// state. A boolean option's state is `flag`; a value-taking option's
/// state is `values`. The field of the other kind stays at its zero value.
pub struct OptModel {
    pub kind: OptKind,
    pub aliases: Seq<Seq<char>>,
    pub flag: bool,
    pub values: Seq<Seq<char>>,
}

impl OptModel {
    /// Validity: at least one alias, every alias non-empty, and the state
    /// field of the other kind at its zero value.
    pub open spec fn wf(self) -> bool {
        &&& self.aliases.len() >= 1
        &&& forall|i: int| 0 <= i < self.aliases.len() ==> #[trigger] self.aliases[i].len() >= 1
        &&& self.kind is Boolean ==> self.values.len() == 0
        &&& self.kind is Str ==> self.flag == false
    }

    /// An option is set when its flag is true (boolean kind) or it has
    /// accumulated at least one value (value-taking kind).
    pub open spec fn is_set(self) -> bool {
        if self.kind is Boolean {
            self.flag
        } else {
            self.values.len() > 0
        }
    }

    /// The option after its flag is raised.
    pub open spec fn with_set(self) -> OptModel {
        OptModel { flag: true, ..self }
    }

    /// The option after `v` is appended to its values.
    pub open spec fn with_add(self, v: Seq<char>) -> OptModel {
        OptModel { values: self.values.push(v), ..self }
    }

    /// The option with its state returned to the zero value of its kind.
    pub open spec fn with_reset(self) -> OptModel {
        OptModel { flag: false, values: Seq::empty(), ..self }
    }
}

/// The first alias of minimal character length: a later alias replaces the
/// best seen so far only when it is strictly shorter.
pub open spec fn shortest_of(aliases: Seq<Seq<char>>) -> Seq<char>
    recommends
        aliases.len() >= 1,
    decreases aliases.len(),
{
    if aliases.len() <= 1 {
        aliases[0]
    } else {
        let pre = shortest_of(aliases.drop_last());
        if aliases.last().len() < pre.len() {
            aliases.last()
        } else {
            pre
        }
    }
}

/// A declared option. The kind is fixed by the variant; `set` applies only
/// to the boolean variant, so there is no dead flag on value-taking options.
#[derive(Debug)]
pub enum Opt {
    Boolean { aliases: Vec<String>, flag: bool },
    Str { aliases: Vec<String>, values: Vec<String> },
}

impl View for Opt {
    type V = OptModel;

    open spec fn view(&self) -> OptModel {
        match self {
            Opt::Boolean { aliases, flag } => OptModel {
                kind: OptKind::Boolean,
                aliases: aliases.deep_view(),
                flag: *flag,
                values: Seq::empty(),
            },
            Opt::Str { aliases, values } => OptModel {
                kind: OptKind::Str,
                aliases: aliases.deep_view(),
                flag: false,
                values: values.deep_view(),
            },
        }
    }
}

impl DeepView for Opt {
    type V = OptModel;

    open spec fn deep_view(&self) -> OptModel {
        self.view()
    }
}

impl Opt {
    /// The kind this option was declared with.
    pub fn kind(&self) -> (k: OptKind)
        ensures
            k == self@.kind,
    {
        match self {
            Opt::Boolean { .. } => OptKind::Boolean,
            Opt::Str { .. } => OptKind::Str,
        }
    }

    /// The aliases this option was declared with, in declaration order.
    pub fn flags(&self) -> (r: &Vec<String>)
        ensures
            r.deep_view() == self@.aliases,
    {
        match self {
            Opt::Boolean { aliases, .. } => aliases,
            Opt::Str { aliases, .. } => aliases,
        }
    }

    /// Raises the flag of a boolean option.
    pub fn set(&mut self)
        requires
            old(self)@.kind is Boolean,
        ensures
            final(self)@ == old(self)@.with_set(),
    {
        match self {
            Opt::Boolean { flag, .. } => {
                *flag = true;
            },
            // the precondition admits the boolean variant only
            Opt::Str { .. } => {},
        }
    }

    /// Appends `v` to a value-taking option's values.
    pub fn add_value(&mut self, v: &str)
        requires
            old(self)@.kind is Str,
        ensures
            final(self)@ == old(self)@.with_add(v@),
    {
        match self {
            Opt::Str { values, .. } => {
                let ghost before = values.deep_view();
                values.push(v.to_owned());
                proof {
                    assert(values.deep_view() =~= before.push(v@));
                }
            },
            // the precondition admits the value-taking variant only
            Opt::Boolean { .. } => {},
        }
    }

    /// Appends `v` to the accumulated values; a boolean option rejects the
    /// value with `TypeMismatch` and is left unchanged.
    pub fn add(&mut self, v: &str) -> (r: Result<(), RoptError>)
        ensures
            r is Ok <==> old(self)@.kind is Str,
            match r {
                Ok(()) => final(self)@ == old(self)@.with_add(v@),
                Err(e) => e@ is TypeMismatch && *final(self) == *old(self),
            },
    {
        match self {
            Opt::Str { .. } => {
                self.add_value(v);
                Ok(())
            },
            Opt::Boolean { .. } => Err(RoptError::TypeMismatch),
        }
    }

    /// True iff the option is set: flag raised, or at least one value held.
    pub fn is_set(&self) -> (r: bool)
        ensures
            r == self@.is_set(),
    {
        match self {
            Opt::Boolean { flag, .. } => *flag,
            Opt::Str { values, .. } => values.len() > 0,
        }
    }

    /// Returns the state to the zero value of the option's kind.
    pub fn reset(&mut self)
        ensures
            final(self)@ == old(self)@.with_reset(),
    {
        match self {
            Opt::Boolean { flag, .. } => {
                *flag = false;
            },
            Opt::Str { values, .. } => {
                values.clear();
                proof {
                    assert(values.deep_view() =~= Seq::<Seq<char>>::empty());
                }
            },
        }
    }

    /// The accumulated values of a value-taking option, in insertion order;
    /// a boolean option has none and reports `TypeMismatch`.
    pub fn values(&self) -> (r: Result<&Vec<String>, RoptError>)
        ensures
            r is Ok <==> self@.kind is Str,
            match r {
                Ok(v) => v.deep_view() == self@.values,
                Err(e) => e@ is TypeMismatch,
            },
    {
        match self {
            Opt::Str { values, .. } => Ok(values),
            Opt::Boolean { .. } => Err(RoptError::TypeMismatch),
        }
    }

    /// The alias with the minimum character length; ties keep the alias
    /// declared first.
    pub fn shortest_flag(&self) -> (r: String)
        requires
            self@.aliases.len() >= 1,
        ensures
            r@ == shortest_of(self@.aliases),
    {
        let fl = self.flags();
        let ghost dv = fl.deep_view();
        let mut bi: usize = 0;
        let mut bl: usize = fl[0].as_str().unicode_len();
        let mut i: usize = 1;
        proof {
            assert(dv.take(1) =~= seq![dv[0]]);
        }
        while i < fl.len()
            invariant
                dv == fl.deep_view(),
                dv == self@.aliases,
                1 <= i <= dv.len(),
                bi < i,
                bl == dv[bi as int].len(),
                dv[bi as int] == shortest_of(dv.take(i as int)),
            decreases dv.len() - i,
        {
            let l = fl[i].as_str().unicode_len();
            proof {
                assert(dv.take(i as int + 1).drop_last() =~= dv.take(i as int));
                assert(dv.take(i as int + 1).last() == dv[i as int]);
            }
            if l < bl {
                bi = i;
                bl = l;
            }
            i += 1;
        }
        proof {
            assert(dv.take(dv.len() as int) =~= dv);
        }
        fl[bi].clone()
    }
}

/// The model of a freshly constructed option of kind `kind` with the
/// given aliases: zero state.
pub open spec fn fresh_opt(kind: OptKind, aliases: Seq<Seq<char>>) -> OptModel {
    OptModel { kind, aliases, flag: false, values: Seq::empty() }
}

/// Builds an option of kind `kind` from an already split alias list.
fn option_from_aliases(aliases: Vec<String>, kind: OptKind) -> (r: Opt)
    ensures
        r@ == fresh_opt(kind, aliases.deep_view()),
{
    match kind {
        OptKind::Boolean => {
            let o = Opt::Boolean { aliases, flag: false };
            proof {
                assert(o@.values =~= Seq::<Seq<char>>::empty());
            }
            o
        },
        OptKind::Str => {
            let o = Opt::Str { aliases, values: Vec::new() };
            proof {
                assert(o@.values =~= Seq::<Seq<char>>::empty());
            }
            o
        },
    }
}

/// Splits the space-delimited alias specification `flags` and constructs
/// an option of kind `kind` with zero state. A specification with no
/// aliases after splitting is rejected with `InvalidSpec`.
pub fn new_option(flags: &str, kind: OptKind) -> (r: Result<Opt, RoptError>)
    ensures
        r is Ok <==> split_spaces_spec(flags@).len() >= 1,
        match r {
            Ok(o) => o@ == fresh_opt(kind, split_spaces_spec(flags@)) && o@.wf(),
            Err(e) => e@ is InvalidSpec,
        },
{
    let aliases = split_spaces(flags);
    if aliases.len() == 0 {
        proof {
            assert(split_spaces_spec(flags@).len() == 0);
        }
        Err(RoptError::InvalidSpec)
    } else {
        proof {
            lemma_split_tokens(flags@);
        }
        Ok(option_from_aliases(aliases, kind))
    }
}

/// A boolean option from a space-delimited alias specification.
pub fn new_bool_option(flags: &str) -> (r: Result<Opt, RoptError>)
    ensures
        r is Ok <==> split_spaces_spec(flags@).len() >= 1,
        match r {
            Ok(o) => o@ == fresh_opt(OptKind::Boolean, split_spaces_spec(flags@)) && o@.wf(),
            Err(e) => e@ is InvalidSpec,
        },
{
    new_option(flags, OptKind::Boolean)
}

/// A value-taking option from a space-delimited alias specification.
pub fn new_str_option(flags: &str) -> (r: Result<Opt, RoptError>)
    ensures
        r is Ok <==> split_spaces_spec(flags@).len() >= 1,
        match r {
            Ok(o) => o@ == fresh_opt(OptKind::Str, split_spaces_spec(flags@)) && o@.wf(),
            Err(e) => e@ is InvalidSpec,
        },
{
    new_option(flags, OptKind::Str)
}

/// The derived alias spellings of one raw alias token:
/// `--long` becomes `-long -long= --long= --long`, `-x` becomes `-x= -x`,
/// and anything else stays as it is.
pub open spec fn fancy_one(t: Seq<char>) -> Seq<Seq<char>> {
    if t.len() >= 2 && t[0] == '-' && t[1] == '-' {
        seq![t.drop_first(), t.drop_first().push('='), t.push('='), t]
    } else if t.len() >= 1 && t[0] == '-' {
        seq![t.push('='), t]
    } else {
        seq![t]
    }
}

/// The fancy expansion of a whole token list, in order.
pub open spec fn fancy_of(ts: Seq<Seq<char>>) -> Seq<Seq<char>>
    decreases ts.len(),
{
    if ts.len() == 0 {
        Seq::empty()
    } else {
        fancy_of(ts.drop_last()) + fancy_one(ts.last())
    }
}

/// Fancy expansion keeps every token non-empty.
pub proof fn lemma_fancy_nonempty(ts: Seq<Seq<char>>)
    requires
        forall|i: int| 0 <= i < ts.len() ==> #[trigger] ts[i].len() >= 1,
    ensures
        forall|i: int| 0 <= i < fancy_of(ts).len() ==> #[trigger] fancy_of(ts)[i].len() >= 1,
    decreases ts.len(),
{
    if ts.len() > 0 {
        lemma_fancy_nonempty(ts.drop_last());
        assert(ts.last() == ts[ts.len() - 1]);
        let pre = fancy_of(ts.drop_last());
        let one = fancy_one(ts.last());
        assert(forall|i: int| 0 <= i < one.len() ==> #[trigger] one[i].len() >= 1);
        assert forall|i: int| 0 <= i < fancy_of(ts).len()
            implies #[trigger] fancy_of(ts)[i].len() >= 1 by {
            if i < pre.len() {
                assert(fancy_of(ts)[i] == pre[i]);
            } else {
                assert(fancy_of(ts)[i] == one[i - pre.len()]);
            }
        }
    }
}

/// The fancy expansion of the raw token `t`, pushed onto `out`.
fn fancy_push(out: &mut Vec<String>, t: &String)
    ensures
        final(out).deep_view() == old(out).deep_view() + fancy_one(t@),
{
    let ghost before = out.deep_view();
    let n = t.as_str().unicode_len();
    proof {
        reveal_strlit("=");
        reveal_strlit("-");
    }
    if n >= 2 && t.as_str().get_char(0) == '-' && t.as_str().get_char(1) == '-' {
        let single = String::from_str(t.as_str().substring_char(1, n));
        proof {
            assert(single@ =~= t@.drop_first());
        }
        let single_eq = single.clone().concat("=");
        let orig_eq = t.clone().concat("=");
        proof {
            assert(single_eq@ =~= t@.drop_first().push('='));
            assert(orig_eq@ =~= t@.push('='));
        }
        out.push(single);
        out.push(single_eq);
        out.push(orig_eq);
        out.push(t.clone());
        proof {
            assert(out.deep_view() =~= before + fancy_one(t@));
        }
    } else if n >= 1 && t.as_str().get_char(0) == '-' {
        let orig_eq = t.clone().concat("=");
        proof {
            assert(orig_eq@ =~= t@.push('='));
        }
        out.push(orig_eq);
        out.push(t.clone());
        proof {
            assert(out.deep_view() =~= before + fancy_one(t@));
        }
    } else {
        out.push(t.clone());
        proof {
            assert(out.deep_view() =~= before + fancy_one(t@));
        }
    }
}

/// The fancy expansion of an already split token list.
fn fancy_expand(toks: &Vec<String>) -> (r: Vec<String>)
    ensures
        r.deep_view() == fancy_of(toks.deep_view()),
{
    let ghost dv = toks.deep_view();
    let mut r: Vec<String> = Vec::new();
    let mut i: usize = 0;
    proof {
        assert(fancy_of(dv.take(0)) =~= Seq::<Seq<char>>::empty());
        assert(r.deep_view() =~= Seq::<Seq<char>>::empty());
    }
    while i < toks.len()
        invariant
            dv == toks.deep_view(),
            i <= dv.len(),
            r.deep_view() == fancy_of(dv.take(i as int)),
        decreases dv.len() - i,
    {
        proof {
            assert(dv.take(i as int + 1).drop_last() =~= dv.take(i as int));
            assert(dv.take(i as int + 1).last() == dv[i as int]);
        }
        fancy_push(&mut r, &toks[i]);
        i += 1;
    }
    proof {
        assert(dv.take(dv.len() as int) =~= dv);
    }
    r
}

/// Expands a space-delimited alias specification into its fancy spellings,
/// joined back with single spaces: `-f --file` becomes
/// `-f= -f -file -file= --file= --file`.
pub fn fancy_options(s: &str) -> (r: String)
    ensures
        r@ == join_spaces_spec(fancy_of(split_spaces_spec(s@))),
{
    let toks = split_spaces(s);
    let expanded = fancy_expand(&toks);
    join_spaces(&expanded)
}

/// A value-taking option whose alias specification is first run through
/// the fancy expansion, so that `=`-suffixed and single-dash spellings are
/// registered as ordinary aliases.
pub fn new_str_option_fancy(flags: &str) -> (r: Result<Opt, RoptError>)
    ensures
        r is Ok <==> split_spaces_spec(flags@).len() >= 1,
        match r {
            Ok(o) => o@ == fresh_opt(OptKind::Str, fancy_of(split_spaces_spec(flags@)))
                && o@.wf(),
            Err(e) => e@ is InvalidSpec,
        },
{
    let toks = split_spaces(flags);
    if toks.len() == 0 {
        return Err(RoptError::InvalidSpec);
    }
    let expanded = fancy_expand(&toks);
    proof {
        lemma_split_tokens(flags@);
        lemma_fancy_nonempty(toks.deep_view());
        assert(fancy_of(toks.deep_view()).len() >= 1) by {
            assert(fancy_of(toks.deep_view().drop_last()) + fancy_one(toks.deep_view().last())
                == fancy_of(toks.deep_view()));
            assert(fancy_one(toks.deep_view().last()).len() >= 1);
        }
    }
    Ok(option_from_aliases(expanded, OptKind::Str))
}

} // verus!
