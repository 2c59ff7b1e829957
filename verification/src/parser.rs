//! The option registry and the parsing algorithm: alias-to-option
//! resolution, value and boolean juxtaposition, ordered value
//! accumulation, queries, and reset.
//!
//! The registry maps every declared alias string to one shared option.
//! Options live in an arena (`opts`); the registry is the pair of the
//! parallel vectors `names` and `index`: `names[k]` resolves to
//! `opts[index[k]]`. Registering an alias that is already present
//! overwrites that alias's entry only; the old option stays reachable
//! through its other aliases.

use vstd::prelude::*;
use vstd::string::StrSliceExecFns;
use vstd::string::StringExecFns;

use crate::options::fancy_of;
use crate::options::fresh_opt;
use crate::options::new_bool_option;
use crate::options::new_str_option;
use crate::options::new_str_option_fancy;
use crate::options::shortest_of;
use crate::options::ErrModel;
use crate::options::Opt;
use crate::options::OptKind;
use crate::options::OptModel;
use crate::options::RoptError;
use crate::text::split_spaces_spec;
use crate::text::str_eq;
use crate::text::str_is_prefix;

verus! {

/// The synthetic aliases of a clustered boolean token: one dash-prefixed
/// alias per character after the leading dash.
pub open spec fn juxta_split_spec(s: Seq<char>) -> Seq<Seq<char>>
    recommends
        s.len() >= 1,
{
    Seq::new((s.len() - 1) as nat, |i: int| seq!['-', s[i + 1]])
}

/// Splits a clustered token into one synthetic alias per character after
/// the first: `-abc` becomes `-a -b -c`.
pub fn juxta_split(s: &str) -> (r: Vec<String>)
    requires
        s@.len() >= 1,
    ensures
        r.deep_view() == juxta_split_spec(s@),
{
    let n = s.unicode_len();
    let mut r: Vec<String> = Vec::new();
    let mut i: usize = 1;
    while i < n
        invariant
            n == s@.len(),
            1 <= i <= n,
            r.deep_view() =~= juxta_split_spec(s@).take(i - 1),
        decreases n - i,
    {
        let ghost before = r.deep_view();
        let combo = String::from_str("-").concat(s.substring_char(i, i + 1));
        proof {
            reveal_strlit("-");
            assert(s@.subrange(i as int, i as int + 1) =~= seq![s@[i as int]]);
            assert(combo@ =~= seq!['-', s@[i as int]]);
        }
        r.push(combo);
        proof {
            assert(r.deep_view() =~= before.push(seq!['-', s@[i as int]]));
            assert(r.deep_view() =~= juxta_split_spec(s@).take(i as int));
        }
        i += 1;
    }
    proof {
        assert(juxta_split_spec(s@).take(n - 1) =~= juxta_split_spec(s@));
    }
    r
}

/// The mathematical value of a parser: the option arena and the registry
/// as parallel sequences of alias strings and arena indices.
pub struct ParserModel {
    pub opts: Seq<OptModel>,
    pub names: Seq<Seq<char>>,
    pub index: Seq<int>,
}

impl ParserModel {
    /// Validity: the registry's two columns have equal length, every
    /// entry points into the arena, alias strings are distinct and
    /// non-empty, and every option is itself valid.
    pub open spec fn wf(self) -> bool {
        &&& self.names.len() == self.index.len()
        &&& forall|k: int| 0 <= k < self.index.len() ==> 0 <= #[trigger] self.index[k] < self.opts.len()
        &&& forall|k: int, l: int| 0 <= k < l < self.names.len() ==> self.names[k] != self.names[l]
        &&& forall|k: int| 0 <= k < self.names.len() ==> #[trigger] self.names[k].len() >= 1
        &&& forall|j: int| 0 <= j < self.opts.len() ==> (#[trigger] self.opts[j]).wf()
    }

    /// True when `a` is a registered alias.
    pub open spec fn contains_alias(self, a: Seq<char>) -> bool {
        exists|k: int| 0 <= k < self.names.len() && self.names[k] == a
    }

    /// The registry row holding alias `a` (unique when the model is valid).
    pub open spec fn slot_of(self, a: Seq<char>) -> int {
        choose|k: int| 0 <= k < self.names.len() && self.names[k] == a
    }

    /// The arena index that alias `a` resolves to.
    pub open spec fn target(self, a: Seq<char>) -> int {
        self.index[self.slot_of(a)]
    }

    /// The option that alias `a` resolves to.
    pub open spec fn opt_at(self, a: Seq<char>) -> OptModel {
        self.opts[self.target(a)]
    }

    /// True when `a` is registered and its option is set.
    pub open spec fn is_set_alias(self, a: Seq<char>) -> bool {
        self.contains_alias(a) && self.opt_at(a).is_set()
    }

    /// True when arena slot `j` is reachable from some registry entry.
    pub open spec fn reachable(self, j: int) -> bool {
        exists|k: int| 0 <= k < self.index.len() && self.index[k] == j
    }

    /// The same registry over a new arena.
    pub open spec fn with_opts(self, opts: Seq<OptModel>) -> ParserModel {
        ParserModel { opts, names: self.names, index: self.index }
    }

    /// The best value-juxtaposition match among registry rows `i` and
    /// later, given the best row seen so far (`best`, or -1 for none): a
    /// row wins when its alias is a prefix of `t`, resolves to a
    /// value-taking option, and is strictly longer than the best so far.
    /// Ties therefore keep the earliest registered alias.
    pub open spec fn best_prefix_from(self, t: Seq<char>, i: int, best: int) -> int
        recommends
            0 <= i <= self.names.len(),
        decreases self.names.len() - i,
    {
        if i < 0 || i >= self.names.len() {
            best
        } else {
            let better = self.names[i].is_prefix_of(t)
                && self.opts[self.index[i]].kind is Str
                && (best < 0 || self.names[i].len() > self.names[best].len());
            self.best_prefix_from(t, i + 1, if better { i } else { best })
        }
    }

    /// The registry row of the longest value-option alias that is a
    /// prefix of `t`, or -1 when there is none.
    pub open spec fn best_prefix(self, t: Seq<char>) -> int {
        self.best_prefix_from(t, 0, -1)
    }

    /// True when `t` can be consumed as an alias juxtaposed with a value.
    pub open spec fn juxta_value_applies(self, t: Seq<char>) -> bool {
        self.best_prefix(t) >= 0
    }

    /// The arena after the value juxtaposed in `t` is appended to the
    /// best-matching option: the suffix of `t` after the matched alias.
    pub open spec fn apply_value_juxta(self, t: Seq<char>) -> Seq<OptModel>
        recommends
            self.juxta_value_applies(t),
    {
        let b = self.best_prefix(t);
        let oi = self.index[b];
        self.opts.update(oi, self.opts[oi].with_add(t.skip(self.names[b].len() as int)))
    }

    /// True when `a` is registered and resolves to a boolean option.
    pub open spec fn resolves_bool(self, a: Seq<char>) -> bool {
        self.contains_alias(a) && self.opt_at(a).kind is Boolean
    }

    /// True when `t` can be consumed as clustered boolean flags: a single
    /// leading dash, more than two characters, and every synthetic alias
    /// resolving to a boolean option.
    pub open spec fn juxta_bool_applies(self, t: Seq<char>) -> bool {
        &&& t.len() > 2
        &&& t[0] == '-'
        &&& forall|i: int| 0 <= i < juxta_split_spec(t).len()
                ==> self.resolves_bool(#[trigger] juxta_split_spec(t)[i])
    }

    /// The arena after the options of the aliases `als` are set, in order.
    pub open spec fn set_seq(self, als: Seq<Seq<char>>) -> Seq<OptModel>
        decreases als.len(),
    {
        if als.len() == 0 {
            self.opts
        } else {
            self.with_opts(
                self.opts.update(self.target(als[0]), self.opt_at(als[0]).with_set()),
            ).set_seq(als.drop_first())
        }
    }
}

/// Pushing onto a sequence adds exactly one member to what it contains.
pub proof fn lemma_push_contains<T>(s: Seq<T>, y: T, x: T)
    ensures
        s.push(y).contains(x) <==> (s.contains(x) || x == y),
{
    if s.contains(x) {
        let w = choose|w: int| #![trigger s[w]] 0 <= w < s.len() && s[w] == x;
        assert(s.push(y)[w] == x);
    }
    assert(s.push(y)[s.len() as int] == y);
    if s.push(y).contains(x) {
        let w = choose|w: int| #![trigger s.push(y)[w]]
            0 <= w < s.push(y).len() && s.push(y)[w] == x;
        if w < s.len() {
            assert(s[w] == x);
        }
    }
}

/// In a valid model, an alias's registry row is unique: knowing one row
/// that holds `a` pins `slot_of` and `target`.
pub proof fn lemma_slot_unique(m: ParserModel, a: Seq<char>, k: int)
    requires
        m.wf(),
        0 <= k < m.names.len(),
        m.names[k] == a,
    ensures
        m.contains_alias(a),
        m.slot_of(a) == k,
        m.target(a) == m.index[k],
{
    assert(m.contains_alias(a));
    let i = m.slot_of(a);
    assert(0 <= i < m.names.len() && m.names[i] == a);
    if i < k {
        assert(m.names[i] != m.names[k]);
    }
    if k < i {
        assert(m.names[k] != m.names[i]);
    }
}

/// One parsing step consumes one or two tokens and yields the new arena,
/// with either the leftovers of the remaining input or a fatal error.
/// Token classification, in order: exact alias match (boolean sets the
/// flag; value-taking consumes the next token, failing with
/// `MissingArgument` when there is none), value juxtaposition, boolean
/// clustering, and otherwise a leftover positional argument.
pub open spec fn spec_parse(m: ParserModel, argv: Seq<Seq<char>>) -> (Seq<OptModel>, Result<
    Seq<Seq<char>>,
    ErrModel,
>)
    decreases argv.len(),
{
    if argv.len() == 0 {
        (m.opts, Ok(Seq::empty()))
    } else {
        let t = argv[0];
        if m.contains_alias(t) {
            if m.opt_at(t).kind is Boolean {
                spec_parse(
                    m.with_opts(m.opts.update(m.target(t), m.opt_at(t).with_set())),
                    argv.drop_first(),
                )
            } else if argv.len() == 1 {
                (m.opts, Err(ErrModel::MissingArgument(t)))
            } else {
                spec_parse(
                    m.with_opts(m.opts.update(m.target(t), m.opt_at(t).with_add(argv[1]))),
                    argv.skip(2),
                )
            }
        } else if m.juxta_value_applies(t) {
            spec_parse(m.with_opts(m.apply_value_juxta(t)), argv.drop_first())
        } else if m.juxta_bool_applies(t) {
            spec_parse(m.with_opts(m.set_seq(juxta_split_spec(t))), argv.drop_first())
        } else {
            let rec = spec_parse(m, argv.drop_first());
            (
                rec.0,
                match rec.1 {
                    Ok(l) => Ok(seq![t] + l),
                    Err(e) => Err(e),
                },
            )
        }
    }
}

/// The arena after every option reachable from the registry is reset;
/// unreachable arena slots (left behind by alias overwrites) are not
/// observable and stay as they are.
pub open spec fn reset_all(m: ParserModel) -> ParserModel {
    m.with_opts(
        Seq::new(
            m.opts.len(),
            |j: int|
                if m.reachable(j) {
                    m.opts[j].with_reset()
                } else {
                    m.opts[j]
                },
        ),
    )
}

/// The option registry and parser.
pub struct Parser {
    opts: Vec<Opt>,
    names: Vec<String>,
    index: Vec<usize>,
}

impl View for Parser {
    type V = ParserModel;

    closed spec fn view(&self) -> ParserModel {
        ParserModel {
            opts: self.opts.deep_view(),
            names: self.names.deep_view(),
            index: Seq::new(self.index@.len(), |k: int| self.index@[k] as int),
        }
    }
}

/// A parser with an empty registry.
pub fn new_parser() -> (p: Parser)
    ensures
        p.wf(),
        p@.opts == Seq::<OptModel>::empty(),
        p@.names == Seq::<Seq<char>>::empty(),
        p@.index == Seq::<int>::empty(),
{
    let p = Parser { opts: Vec::new(), names: Vec::new(), index: Vec::new() };
    proof {
        assert(p@.opts =~= Seq::<OptModel>::empty());
        assert(p@.names =~= Seq::<Seq<char>>::empty());
        assert(p@.index =~= Seq::<int>::empty());
    }
    p
}

impl Parser {
    /// Validity of the registry (see `ParserModel::wf`).
    pub open spec fn wf(&self) -> bool {
        self@.wf()
    }

    /// The registry row holding alias `s`, or `None` when `s` is not
    /// registered.
    fn find_slot(&self, s: &str) -> (r: Option<usize>)
        requires
            self.wf(),
        ensures
            match r {
                Some(k) => k < self@.names.len() && self@.names[k as int] == s@
                    && self@.contains_alias(s@) && self@.target(s@) == self@.index[k as int],
                None => !self@.contains_alias(s@),
            },
    {
        let mut k: usize = 0;
        while k < self.names.len()
            invariant
                self.wf(),
                k <= self@.names.len(),
                self@.names.len() == self.names@.len(),
                forall|m: int| 0 <= m < k ==> self@.names[m] != s@,
            decreases self@.names.len() - k,
        {
            if str_eq(self.names[k].as_str(), s) {
                proof {
                    lemma_slot_unique(self@, s@, k as int);
                }
                return Some(k);
            }
            k += 1;
        }
        proof {
            assert(!self@.contains_alias(s@)) by {
                if self@.contains_alias(s@) {
                    let w = choose|m: int| 0 <= m < self@.names.len() && self@.names[m] == s@;
                    assert(self@.names[w] != s@);
                }
            }
        }
        None
    }

    /// Maps alias `name` to arena slot `j`, overwriting the row of an
    /// already registered alias and appending a new row otherwise.
    fn insert_alias(&mut self, name: String, j: usize)
        requires
            old(self).wf(),
            (j as int) < old(self)@.opts.len(),
            name@.len() >= 1,
        ensures
            final(self).wf(),
            final(self)@.opts == old(self)@.opts,
            forall|a: Seq<char>| #[trigger] final(self)@.contains_alias(a)
                <==> (old(self)@.contains_alias(a) || a == name@),
            final(self)@.target(name@) == j as int,
            forall|a: Seq<char>| a != name@ && #[trigger] old(self)@.contains_alias(a)
                ==> final(self)@.target(a) == old(self)@.target(a),
    {
        let ghost m0 = self@;
        let mut k: usize = 0;
        while k < self.names.len()
            invariant
                self.wf(),
                self@ == m0,
                m0 == old(self)@,
                m0.wf(),
                (j as int) < m0.opts.len(),
                name@.len() >= 1,
                k <= self@.names.len(),
                self@.names.len() == self.names@.len(),
                forall|m: int| 0 <= m < k ==> self@.names[m] != name@,
            decreases self@.names.len() - k,
        {
            if str_eq(self.names[k].as_str(), name.as_str()) {
                self.index[k] = j;
                proof {
                    assert(self@.names =~= m0.names);
                    assert(self@.index =~= m0.index.update(k as int, j as int));
                    assert(self@.opts =~= m0.opts);
                    assert(self.wf()) by {
                        assert forall|kk: int| 0 <= kk < self@.index.len()
                            implies 0 <= #[trigger] self@.index[kk] < self@.opts.len() by {
                            if kk != k as int {
                                assert(self@.index[kk] == m0.index[kk]);
                            }
                        }
                    }
                    lemma_slot_unique(m0, name@, k as int);
                    lemma_slot_unique(self@, name@, k as int);
                    assert forall|a: Seq<char>| a != name@ && #[trigger] m0.contains_alias(a)
                        implies self@.target(a) == m0.target(a) by {
                        let w = m0.slot_of(a);
                        assert(0 <= w < m0.names.len() && m0.names[w] == a);
                        lemma_slot_unique(m0, a, w);
                        lemma_slot_unique(self@, a, w);
                        assert(w != k);
                    }
                    assert forall|a: Seq<char>| #[trigger] self@.contains_alias(a)
                        implies (m0.contains_alias(a) || a == name@) by {
                        let w = self@.slot_of(a);
                        assert(0 <= w < self@.names.len() && self@.names[w] == a);
                    }
                }
                return;
            }
            k += 1;
        }
        let ghost n0 = self@.names.len() as int;
        self.names.push(name);
        self.index.push(j);
        proof {
            assert(self@.names =~= m0.names.push(name@));
            assert(self@.index =~= m0.index.push(j as int));
            assert(self@.opts =~= m0.opts);
            assert(self.wf()) by {
                assert forall|p: int, q: int| 0 <= p < q < self@.names.len()
                    implies self@.names[p] != self@.names[q] by {
                    if q == n0 {
                        assert(self@.names[p] == m0.names[p]);
                        assert(m0.names[p] != name@);
                    }
                }
            }
            lemma_slot_unique(self@, name@, n0);
            assert forall|a: Seq<char>| #[trigger] self@.contains_alias(a)
                implies (m0.contains_alias(a) || a == name@) by {
                let w = self@.slot_of(a);
                assert(0 <= w < self@.names.len() && self@.names[w] == a);
                if w < n0 {
                    assert(m0.names[w] == a);
                }
            }
            assert forall|a: Seq<char>| m0.contains_alias(a)
                implies #[trigger] self@.contains_alias(a) by {
                let w = m0.slot_of(a);
                assert(0 <= w < m0.names.len() && m0.names[w] == a);
                assert(self@.names[w] == a);
            }
            assert forall|a: Seq<char>| a != name@ && #[trigger] m0.contains_alias(a)
                implies self@.target(a) == m0.target(a) by {
                let w = m0.slot_of(a);
                assert(0 <= w < m0.names.len() && m0.names[w] == a);
                lemma_slot_unique(m0, a, w);
                assert(self@.names[w] == a);
                lemma_slot_unique(self@, a, w);
            }
        }
    }

    /// Pushes `o` into the arena and registers every one of its aliases.
    fn register(&mut self, o: Opt)
        requires
            old(self).wf(),
            o@.wf(),
        ensures
            final(self).wf(),
            final(self)@.opts == old(self)@.opts.push(o@),
            forall|a: Seq<char>| #[trigger] final(self)@.contains_alias(a)
                <==> (old(self)@.contains_alias(a) || o@.aliases.contains(a)),
            forall|a: Seq<char>| #[trigger] o@.aliases.contains(a)
                ==> final(self)@.target(a) == old(self)@.opts.len()
                    && final(self)@.opt_at(a) == o@,
            forall|a: Seq<char>| old(self)@.contains_alias(a) && !o@.aliases.contains(a)
                ==> #[trigger] final(self)@.target(a) == old(self)@.target(a)
                    && final(self)@.opt_at(a) == old(self)@.opt_at(a),
    {
        let ghost m0 = self@;
        let ghost als = o@.aliases;
        let j = self.opts.len();
        let keys = clone_string_vec(o.flags());
        self.opts.push(o);
        let ghost m1 = self@;
        proof {
            assert(m1.opts =~= m0.opts.push(o@));
            assert(m1.names =~= m0.names);
            assert(m1.index =~= m0.index);
            assert(als.take(0) =~= Seq::<Seq<char>>::empty());
        }
        let mut i: usize = 0;
        while i < keys.len()
            invariant
                self.wf(),
                keys.deep_view() == als,
                als.len() == keys@.len(),
                i <= als.len(),
                (j as int) == m0.opts.len(),
                self@.opts == m0.opts.push(o@),
                forall|x: int| 0 <= x < als.len() ==> #[trigger] als[x].len() >= 1,
                forall|a: Seq<char>| #[trigger] self@.contains_alias(a)
                    <==> (m0.contains_alias(a) || als.take(i as int).contains(a)),
                forall|a: Seq<char>| #[trigger] als.take(i as int).contains(a)
                    ==> self@.target(a) == j as int,
                forall|a: Seq<char>| m0.contains_alias(a) && !als.take(i as int).contains(a)
                    ==> #[trigger] self@.target(a) == m0.target(a),
            decreases als.len() - i,
        {
            let ghost pre = self@;
            let nm = keys[i].clone();
            proof {
                assert(keys.deep_view()[i as int] == als[i as int]);
                assert(nm@ == als[i as int]);
                assert(als[i as int].len() >= 1);
            }
            self.insert_alias(nm, j);
            proof {
                assert forall|a: Seq<char>| #[trigger] als.take(i as int + 1).contains(a)
                    implies (als.take(i as int).contains(a) || a == als[i as int]) by {
                    let w = choose|w: int|
                        #![trigger als.take(i as int + 1)[w]]
                        0 <= w < als.take(i as int + 1).len() && als.take(i as int + 1)[w] == a;
                    if w < i as int {
                        assert(als.take(i as int)[w] == a);
                    }
                }
                assert forall|a: Seq<char>| als.take(i as int).contains(a)
                    implies #[trigger] als.take(i as int + 1).contains(a) by {
                    let w = choose|w: int|
                        #![trigger als.take(i as int)[w]]
                        0 <= w < als.take(i as int).len() && als.take(i as int)[w] == a;
                    assert(als.take(i as int + 1)[w] == a);
                }
                assert(als.take(i as int + 1)[i as int] == als[i as int]);
                assert(als.take(i as int + 1).contains(als[i as int]));
                assert forall|a: Seq<char>| #[trigger] als.take(i as int + 1).contains(a)
                    implies self@.target(a) == j as int by {
                    if a == als[i as int] {
                        assert(self@.target(a) == j as int);
                    } else {
                        assert(als.take(i as int).contains(a));
                        assert(pre.contains_alias(a));
                        assert(pre.target(a) == j as int);
                        assert(self@.target(a) == pre.target(a));
                    }
                }
                assert forall|a: Seq<char>| m0.contains_alias(a)
                    && !als.take(i as int + 1).contains(a)
                    implies #[trigger] self@.target(a) == m0.target(a) by {
                    assert(!als.take(i as int).contains(a));
                    assert(a != als[i as int]);
                    assert(pre.target(a) == m0.target(a));
                    assert(pre.contains_alias(a));
                    assert(self@.target(a) == pre.target(a));
                }
                assert forall|a: Seq<char>| #[trigger] self@.contains_alias(a)
                    implies (m0.contains_alias(a) || als.take(i as int + 1).contains(a)) by {
                    assert(pre.contains_alias(a) || a == als[i as int]);
                }
            }
            i += 1;
        }
        proof {
            assert(als.take(als.len() as int) =~= als);
            assert forall|a: Seq<char>| #[trigger] als.contains(a)
                implies self@.target(a) == m0.opts.len() && self@.opt_at(a) == o@ by {
                assert(self@.target(a) == j as int);
                assert(self@.opts[j as int] == o@);
            }
            assert forall|a: Seq<char>| m0.contains_alias(a) && !als.contains(a)
                implies #[trigger] self@.target(a) == m0.target(a)
                    && self@.opt_at(a) == m0.opt_at(a) by {
                assert(0 <= m0.target(a) < m0.opts.len()) by {
                    let w = m0.slot_of(a);
                    assert(0 <= w < m0.names.len() && m0.names[w] == a);
                }
                assert(self@.opts[m0.target(a)] == m0.opts[m0.target(a)]);
            }
        }
    }

    /// Registers a boolean option built from the space-delimited alias
    /// specification `s`; rejects an empty specification with
    /// `InvalidSpec` and leaves the registry unchanged then.
    pub fn add_bool(&mut self, s: &str) -> (r: Result<(), RoptError>)
        requires
            old(self).wf(),
        ensures
            final(self).wf(),
            r is Ok <==> split_spaces_spec(s@).len() >= 1,
            match r {
                Ok(()) => registered(old(self)@, final(self)@, fresh_opt(OptKind::Boolean,
                    split_spaces_spec(s@))),
                Err(e) => e@ is InvalidSpec && *final(self) == *old(self),
            },
    {
        match new_bool_option(s) {
            Ok(o) => {
                self.register(o);
                Ok(())
            },
            Err(e) => Err(e),
        }
    }

    /// Registers a value-taking option built from the space-delimited
    /// alias specification `s`; rejects an empty specification with
    /// `InvalidSpec` and leaves the registry unchanged then.
    pub fn add_str(&mut self, s: &str) -> (r: Result<(), RoptError>)
        requires
            old(self).wf(),
        ensures
            final(self).wf(),
            r is Ok <==> split_spaces_spec(s@).len() >= 1,
            match r {
                Ok(()) => registered(old(self)@, final(self)@, fresh_opt(OptKind::Str,
                    split_spaces_spec(s@))),
                Err(e) => e@ is InvalidSpec && *final(self) == *old(self),
            },
    {
        match new_str_option(s) {
            Ok(o) => {
                self.register(o);
                Ok(())
            },
            Err(e) => Err(e),
        }
    }

    /// Registers a value-taking option whose aliases are the fancy
    /// expansion of `s` (see `fancy_options`), so that `-x=` and
    /// single-dash spellings of `--long` aliases are ordinary aliases.
    pub fn add_str_fancy(&mut self, s: &str) -> (r: Result<(), RoptError>)
        requires
            old(self).wf(),
        ensures
            final(self).wf(),
            r is Ok <==> split_spaces_spec(s@).len() >= 1,
            match r {
                Ok(()) => registered(old(self)@, final(self)@, fresh_opt(OptKind::Str,
                    fancy_of(split_spaces_spec(s@)))),
                Err(e) => e@ is InvalidSpec && *final(self) == *old(self),
            },
    {
        match new_str_option_fancy(s) {
            Ok(o) => {
                self.register(o);
                Ok(())
            },
            Err(e) => Err(e),
        }
    }

    /// Attempts value juxtaposition on `t` (`-I/inc` for alias `-I`): the
    /// longest registered value-option alias that is a prefix of `t`
    /// consumes the rest of the token as its value. Among equally long
    /// prefixes the earliest registered alias wins.
    fn juxta_str(&mut self, t: &str) -> (r: bool)
        requires
            old(self).wf(),
        ensures
            final(self).wf(),
            final(self)@.names == old(self)@.names,
            final(self)@.index == old(self)@.index,
            r == old(self)@.juxta_value_applies(t@),
            final(self)@.opts == (if old(self)@.juxta_value_applies(t@) {
                old(self)@.apply_value_juxta(t@)
            } else {
                old(self)@.opts
            }),
    {
        let ghost m = self@;
        let mut found = false;
        let mut best: usize = 0;
        let mut best_len: usize = 0;
        let mut k: usize = 0;
        while k < self.names.len()
            invariant
                self.wf(),
                self@ == m,
                m == old(self)@,
                k <= m.names.len(),
                m.names.len() == self.names@.len(),
                found ==> (best as int) < k as int && m.names[best as int].is_prefix_of(t@)
                    && m.opts[m.index[best as int]].kind is Str
                    && best_len == m.names[best as int].len(),
                m.best_prefix(t@) == m.best_prefix_from(t@, k as int,
                    if found { best as int } else { -1 }),
            decreases m.names.len() - k,
        {
            let pref = str_is_prefix(self.names[k].as_str(), t);
            let nk = self.names[k].as_str().unicode_len();
            let oi = self.index[k];
            let strv = self.opts[oi].kind() == OptKind::Str;
            let better = pref && strv && (!found || nk > best_len);
            if better {
                found = true;
                best = k;
                best_len = nk;
            }
            k += 1;
        }
        if found {
            proof {
                assert(m.best_prefix(t@) == best as int);
                assert(m.juxta_value_applies(t@));
                assert(m.names[best as int].len() <= t@.len());
            }
            let n = t.unicode_len();
            let oi = self.index[best];
            let ghost pre = self@;
            let suffix = t.substring_char(best_len, n);
            self.opts[oi].add_value(suffix);
            proof {
                assert(t@.subrange(best_len as int, n as int)
                    =~= t@.skip(m.names[best as int].len() as int));
                assert(self@.opts =~= m.apply_value_juxta(t@));
                assert(self@.names =~= m.names);
                assert(self@.index =~= m.index);
                assert(self.wf()) by {
                    assert forall|j2: int| 0 <= j2 < self@.opts.len()
                        implies (#[trigger] self@.opts[j2]).wf() by {
                        if j2 != oi as int {
                            assert(self@.opts[j2] == m.opts[j2]);
                        }
                    }
                }
            }
            true
        } else {
            proof {
                assert(m.best_prefix(t@) == -1);
            }
            false
        }
    }

    /// Attempts boolean clustering on `t` (`-hv` for `-h` and `-v`): when
    /// the token has a single leading dash, more than two characters, and
    /// every synthetic per-character alias resolves to a boolean option,
    /// all those options are set. Otherwise none of them is touched.
    fn juxta_bool(&mut self, t: &str) -> (r: bool)
        requires
            old(self).wf(),
        ensures
            final(self).wf(),
            final(self)@.names == old(self)@.names,
            final(self)@.index == old(self)@.index,
            r == old(self)@.juxta_bool_applies(t@),
            final(self)@.opts == (if old(self)@.juxta_bool_applies(t@) {
                old(self)@.set_seq(juxta_split_spec(t@))
            } else {
                old(self)@.opts
            }),
    {
        let ghost m = self@;
        let n = t.unicode_len();
        if n <= 2 {
            return false;
        }
        let first = t.get_char(0);
        proof {
            reveal_strlit("-");
        }
        if first != '-' {
            return false;
        }
        let parts = juxta_split(t);
        let ghost pd = juxta_split_spec(t@);
        let mut k: usize = 0;
        while k < parts.len()
            invariant
                self.wf(),
                self@ == m,
                m == old(self)@,
                parts.deep_view() == pd,
                pd.len() == parts@.len(),
                k <= pd.len(),
                t@.len() > 2,
                t@[0] == '-',
                pd == juxta_split_spec(t@),
                forall|i2: int| 0 <= i2 < k ==> m.resolves_bool(#[trigger] pd[i2]),
            decreases pd.len() - k,
        {
            proof {
                assert(parts@[k as int]@ == pd[k as int]);
            }
            match self.find_slot(parts[k].as_str()) {
                None => {
                    proof {
                        assert(!m.resolves_bool(pd[k as int]));
                        assert(!m.juxta_bool_applies(t@));
                    }
                    return false;
                },
                Some(slot) => {
                    let oi = self.index[slot];
                    if self.opts[oi].kind() == OptKind::Str {
                        proof {
                            assert(m.opt_at(pd[k as int]).kind is Str);
                            assert(!m.resolves_bool(pd[k as int]));
                            assert(!m.juxta_bool_applies(t@));
                        }
                        return false;
                    }
                    proof {
                        assert(m.opt_at(pd[k as int]).kind is Boolean);
                        assert(m.resolves_bool(pd[k as int]));
                    }
                },
            }
            k += 1;
        }
        proof {
            assert(m.juxta_bool_applies(t@));
            assert(pd.skip(0) =~= pd);
        }
        let mut k: usize = 0;
        while k < parts.len()
            invariant
                self.wf(),
                m == old(self)@,
                m.wf(),
                self@.names == m.names,
                self@.index == m.index,
                self@.opts.len() == m.opts.len(),
                parts.deep_view() == pd,
                pd.len() == parts@.len(),
                k <= pd.len(),
                pd == juxta_split_spec(t@),
                m.juxta_bool_applies(t@),
                forall|i2: int| 0 <= i2 < pd.len() ==> m.resolves_bool(#[trigger] pd[i2]),
                forall|j2: int| 0 <= j2 < m.opts.len()
                    ==> (#[trigger] self@.opts[j2]).kind == m.opts[j2].kind,
                m.set_seq(pd) == self@.set_seq(pd.skip(k as int)),
            decreases pd.len() - k,
        {
            let ghost pre = self@;
            proof {
                assert(parts@[k as int]@ == pd[k as int]);
                assert(m.resolves_bool(pd[k as int]));
            }
            match self.find_slot(parts[k].as_str()) {
                Some(slot) => {
                    let oi = self.index[slot];
                    proof {
                        lemma_slot_unique(pre, pd[k as int], slot as int);
                        lemma_slot_unique(m, pd[k as int], slot as int);
                        assert(m.target(pd[k as int]) == m.index[slot as int]);
                        assert(pre.opts[oi as int].kind == m.opts[oi as int].kind);
                        assert(pre.opts[oi as int].kind is Boolean);
                    }
                    self.opts[oi].set();
                    proof {
                        assert(self@.opts =~= pre.opts.update(oi as int,
                            pre.opts[oi as int].with_set()));
                        assert(self@.names =~= pre.names);
                        assert(self@.index =~= pre.index);
                        assert(pd.skip(k as int).drop_first() =~= pd.skip(k as int + 1));
                        assert(pd.skip(k as int)[0] == pd[k as int]);
                        assert(pre.with_opts(pre.opts.update(pre.target(pd[k as int]),
                            pre.opt_at(pd[k as int]).with_set())) == self@);
                        assert(self.wf()) by {
                            assert forall|j2: int| 0 <= j2 < self@.opts.len()
                                implies (#[trigger] self@.opts[j2]).wf() by {
                                if j2 != oi as int {
                                    assert(self@.opts[j2] == pre.opts[j2]);
                                }
                            }
                        }
                    }
                },
                None => {
                    proof {
                        let w = m.slot_of(pd[k as int]);
                        assert(0 <= w < m.names.len() && m.names[w] == pd[k as int]);
                        assert(pre.names[w] == pd[k as int]);
                        assert(pre.contains_alias(pd[k as int]));
                        assert(false);
                    }
                    return false;
                },
            }
            k += 1;
        }
        proof {
            assert(pd.skip(pd.len() as int) =~= Seq::<Seq<char>>::empty());
        }
        true
    }

    /// Parses `argv` left to right. Each token is classified in order:
    /// an exact alias match (a boolean option is set; a value-taking
    /// option consumes the next token as its value, and fails fatally
    /// with `MissingArgument` naming the alias when no next token
    /// exists), then value juxtaposition, then boolean clustering, and
    /// otherwise the token is a leftover positional argument. Returns
    /// the leftovers in their original relative order.
    pub fn parse(&mut self, argv: &Vec<String>) -> (r: Result<Vec<String>, RoptError>)
        requires
            old(self).wf(),
            argv@.len() >= 1,
        ensures
            final(self).wf(),
            final(self)@.names == old(self)@.names,
            final(self)@.index == old(self)@.index,
            final(self)@.opts == spec_parse(old(self)@, argv.deep_view()).0,
            (match (r, spec_parse(old(self)@, argv.deep_view()).1) {
                (Ok(rest), Ok(l)) => rest.deep_view() == l,
                (Err(e), Err(em)) => e@ == em,
                _ => false,
            }),
    {
        let ghost m0 = self@;
        let ghost av = argv.deep_view();
        let ghost g = spec_parse(m0, av);
        let mut rest: Vec<String> = Vec::new();
        let mut i: usize = 0;
        proof {
            assert(av.skip(0) =~= av);
            assert(rest.deep_view() =~= Seq::<Seq<char>>::empty());
            if g.1 is Ok {
                assert(rest.deep_view() + g.1->Ok_0 =~= g.1->Ok_0);
            }
        }
        while i < argv.len()
            invariant
                self.wf(),
                m0 == old(self)@,
                m0.wf(),
                av == argv.deep_view(),
                av.len() == argv@.len(),
                g == spec_parse(m0, av),
                i <= av.len(),
                self@.names == m0.names,
                self@.index == m0.index,
                spec_parse(self@, av.skip(i as int)).0 == g.0,
                (match (g.1, spec_parse(self@, av.skip(i as int)).1) {
                    (Ok(gl), Ok(l)) => gl == rest.deep_view() + l,
                    (Err(e1), Err(e2)) => e1 == e2,
                    _ => false,
                }),
            decreases av.len() - i,
        {
            let ghost pre = self@;
            let ghost suf = av.skip(i as int);
            proof {
                assert(suf[0] == av[i as int]);
                assert(suf.drop_first() =~= av.skip(i as int + 1));
                assert(av[i as int] == argv@[i as int]@);
            }
            let tok = &argv[i];
            match self.find_slot(tok.as_str()) {
                Some(slot) => {
                    let oi = self.index[slot];
                    proof {
                        lemma_slot_unique(pre, tok@, slot as int);
                    }
                    if self.opts[oi].kind() == OptKind::Boolean {
                        self.opts[oi].set();
                        proof {
                            assert(self@.opts =~= pre.opts.update(oi as int,
                                pre.opts[oi as int].with_set()));
                            assert(self@.names =~= pre.names);
                            assert(self@.index =~= pre.index);
                            assert(pre.with_opts(pre.opts.update(pre.target(tok@),
                                pre.opt_at(tok@).with_set())) == self@);
                            assert(spec_parse(pre, suf) == spec_parse(self@, av.skip(
                                i as int + 1)));
                            assert(self.wf()) by {
                                assert forall|j2: int| 0 <= j2 < self@.opts.len()
                                    implies (#[trigger] self@.opts[j2]).wf() by {
                                    if j2 != oi as int {
                                        assert(self@.opts[j2] == pre.opts[j2]);
                                    }
                                }
                            }
                        }
                        i += 1;
                    } else {
                        if i + 1 >= argv.len() {
                            proof {
                                assert(suf.len() == 1);
                                assert(spec_parse(pre, suf) == (pre.opts,
                                    Err::<Seq<Seq<char>>, ErrModel>(ErrModel::MissingArgument(
                                    suf[0]))));
                            }
                            return Err(RoptError::MissingArgument(tok.clone()));
                        }
                        self.opts[oi].add_value(argv[i + 1].as_str());
                        proof {
                            assert(suf[1] == av[i as int + 1]);
                            assert(av[i as int + 1] == argv@[i as int + 1]@);
                            assert(suf.skip(2) =~= av.skip(i as int + 2));
                            assert(self@.opts =~= pre.opts.update(oi as int,
                                pre.opts[oi as int].with_add(av[i as int + 1])));
                            assert(self@.names =~= pre.names);
                            assert(self@.index =~= pre.index);
                            assert(pre.with_opts(pre.opts.update(pre.target(tok@),
                                pre.opt_at(tok@).with_add(suf[1]))) == self@);
                            assert(spec_parse(pre, suf) == spec_parse(self@, av.skip(
                                i as int + 2)));
                            assert(self.wf()) by {
                                assert forall|j2: int| 0 <= j2 < self@.opts.len()
                                    implies (#[trigger] self@.opts[j2]).wf() by {
                                    if j2 != oi as int {
                                        assert(self@.opts[j2] == pre.opts[j2]);
                                    }
                                }
                            }
                        }
                        i += 2;
                    }
                },
                None => {
                    if self.juxta_str(tok.as_str()) {
                        proof {
                            assert(self@ == pre.with_opts(pre.apply_value_juxta(tok@)));
                            assert(spec_parse(pre, suf) == spec_parse(self@, av.skip(
                                i as int + 1)));
                        }
                        i += 1;
                    } else if self.juxta_bool(tok.as_str()) {
                        proof {
                            assert(self@ == pre.with_opts(pre.set_seq(juxta_split_spec(tok@))));
                            assert(spec_parse(pre, suf) == spec_parse(self@, av.skip(
                                i as int + 1)));
                        }
                        i += 1;
                    } else {
                        let ghost before = rest.deep_view();
                        rest.push(tok.clone());
                        proof {
                            assert(rest.deep_view() =~= before.push(av[i as int]));
                            let rec = spec_parse(pre, av.skip(i as int + 1));
                            assert(spec_parse(pre, suf).0 == rec.0);
                            if rec.1 is Ok {
                                assert(spec_parse(pre, suf).1 == Ok::<Seq<Seq<char>>, ErrModel>(
                                    seq![av[i as int]] + rec.1->Ok_0));
                                assert(before + (seq![av[i as int]] + rec.1->Ok_0)
                                    =~= rest.deep_view() + rec.1->Ok_0);
                            }
                        }
                        i += 1;
                    }
                },
            }
        }
        proof {
            assert(av.skip(av.len() as int) =~= Seq::<Seq<char>>::empty());
            if g.1 is Ok {
                assert(rest.deep_view() + Seq::<Seq<char>>::empty() =~= rest.deep_view());
            }
        }
        Ok(rest)
    }

    /// True when `s` is a registered alias whose option is set; an
    /// unregistered alias reports false.
    pub fn is_set(&self, s: &str) -> (r: bool)
        requires
            self.wf(),
        ensures
            r == self@.is_set_alias(s@),
    {
        match self.find_slot(s) {
            Some(k) => {
                let oi = self.index[k];
                self.opts[oi].is_set()
            },
            None => false,
        }
    }

    /// The first accumulated value of the value-taking option that `s`
    /// resolves to. An unregistered alias or an unset option reports
    /// `NotSet`; a set boolean option reports `TypeMismatch`.
    pub fn get(&self, s: &str) -> (r: Result<String, RoptError>)
        requires
            self.wf(),
        ensures
            r is Ok <==> (self@.is_set_alias(s@) && self@.opt_at(s@).kind is Str),
            match r {
                Ok(v) => v@ == self@.opt_at(s@).values[0],
                Err(e) => match e@ {
                    ErrModel::NotSet => !self@.is_set_alias(s@),
                    ErrModel::TypeMismatch => self@.is_set_alias(s@)
                        && self@.opt_at(s@).kind is Boolean,
                    _ => false,
                },
            },
    {
        match self.find_slot(s) {
            Some(k) => {
                let oi = self.index[k];
                if !self.opts[oi].is_set() {
                    return Err(RoptError::NotSet);
                }
                match &self.opts[oi] {
                    Opt::Str { values, .. } => Ok(values[0].clone()),
                    Opt::Boolean { .. } => Err(RoptError::TypeMismatch),
                }
            },
            None => Err(RoptError::NotSet),
        }
    }

    /// All accumulated values of the value-taking option that `s`
    /// resolves to, in insertion order; errors as `get`.
    pub fn get_many(&self, s: &str) -> (r: Result<Vec<String>, RoptError>)
        requires
            self.wf(),
        ensures
            r is Ok <==> (self@.is_set_alias(s@) && self@.opt_at(s@).kind is Str),
            match r {
                Ok(v) => v.deep_view() == self@.opt_at(s@).values,
                Err(e) => match e@ {
                    ErrModel::NotSet => !self@.is_set_alias(s@),
                    ErrModel::TypeMismatch => self@.is_set_alias(s@)
                        && self@.opt_at(s@).kind is Boolean,
                    _ => false,
                },
            },
    {
        match self.find_slot(s) {
            Some(k) => {
                let oi = self.index[k];
                if !self.opts[oi].is_set() {
                    return Err(RoptError::NotSet);
                }
                match &self.opts[oi] {
                    Opt::Str { values, .. } => Ok(clone_string_vec(values)),
                    Opt::Boolean { .. } => Err(RoptError::TypeMismatch),
                }
            },
            None => Err(RoptError::NotSet),
        }
    }

    /// True when arena slot `j` is reachable from the registry.
    fn is_reachable(&self, j: usize) -> (r: bool)
        requires
            self.wf(),
        ensures
            r == self@.reachable(j as int),
    {
        let mut k: usize = 0;
        while k < self.index.len()
            invariant
                self.wf(),
                k <= self@.index.len(),
                self@.index.len() == self.index@.len(),
                forall|m: int| 0 <= m < k ==> self@.index[m] != j as int,
            decreases self@.index.len() - k,
        {
            if self.index[k] == j {
                assert(self@.index[k as int] == j as int);
                return true;
            }
            k += 1;
        }
        proof {
            assert(!self@.reachable(j as int)) by {
                if self@.reachable(j as int) {
                    let w = choose|m: int|
                        0 <= m < self@.index.len() && self@.index[m] == j as int;
                    assert(self@.index[w] != j as int);
                }
            }
        }
        false
    }

    /// Resets every option reachable from the registry: flags lowered,
    /// accumulated values cleared, registry entries kept.
    pub fn reset(&mut self)
        requires
            old(self).wf(),
        ensures
            final(self).wf(),
            final(self)@ == reset_all(old(self)@),
    {
        let ghost m0 = self@;
        let mut j: usize = 0;
        while j < self.opts.len()
            invariant
                self.wf(),
                self@.names == m0.names,
                self@.index == m0.index,
                self@.opts.len() == m0.opts.len(),
                j <= m0.opts.len(),
                self@.opts.len() == self.opts@.len(),
                forall|u: int| 0 <= u < j ==> #[trigger] self@.opts[u] == (if m0.reachable(u) {
                    m0.opts[u].with_reset()
                } else {
                    m0.opts[u]
                }),
                forall|u: int| j <= u < m0.opts.len() ==> #[trigger] self@.opts[u] == m0.opts[u],
            decreases m0.opts.len() - j,
        {
            let ghost pre = self@;
            if self.is_reachable(j) {
                self.opts[j].reset();
                proof {
                    assert(self@.opts =~= pre.opts.update(j as int, pre.opts[j as int].with_reset()));
                    assert(self@.names =~= pre.names);
                    assert(self@.index =~= pre.index);
                }
            }
            proof {
                assert(m0.reachable(j as int) == self@.reachable(j as int));
            }
            j += 1;
        }
        proof {
            assert(self@.opts =~= reset_all(m0).opts);
            assert(self@ == reset_all(m0));
        }
    }

    /// The set of shortest aliases of the currently set options, one
    /// entry per distinct shortest alias, with no stated order.
    pub fn short_set_options(&self) -> (r: Vec<String>)
        requires
            self.wf(),
        ensures
            forall|x: Seq<char>| #[trigger] r.deep_view().contains(x) <==> (exists|u: int|
                0 <= u < self@.opts.len() && #[trigger] self@.reachable(u)
                    && self@.opts[u].is_set() && shortest_of(self@.opts[u].aliases) == x),
            forall|p: int, q: int| 0 <= p < q < r.deep_view().len()
                ==> r.deep_view()[p] != r.deep_view()[q],
    {
        let mut r: Vec<String> = Vec::new();
        let mut j: usize = 0;
        proof {
            assert(r.deep_view() =~= Seq::<Seq<char>>::empty());
        }
        while j < self.opts.len()
            invariant
                self.wf(),
                j <= self@.opts.len(),
                self@.opts.len() == self.opts@.len(),
                forall|x: Seq<char>| #[trigger] r.deep_view().contains(x) <==> (exists|u: int|
                    0 <= u < j && #[trigger] self@.reachable(u) && self@.opts[u].is_set()
                        && shortest_of(self@.opts[u].aliases) == x),
                forall|p: int, q: int| 0 <= p < q < r.deep_view().len()
                    ==> r.deep_view()[p] != r.deep_view()[q],
            decreases self@.opts.len() - j,
        {
            let ghost before = r.deep_view();
            let ghost sj = shortest_of(self@.opts[j as int].aliases);
            let reach = self.is_reachable(j);
            let active = reach && self.opts[j].is_set();
            if active {
                proof {
                    assert(self@.opts[j as int].wf());
                }
                let sa = self.opts[j].shortest_flag();
                let dup = contains_str(&r, sa.as_str());
                if !dup {
                    r.push(sa);
                    proof {
                        assert(r.deep_view() =~= before.push(sj));
                        assert forall|p: int, q: int| 0 <= p < q < r.deep_view().len()
                            implies r.deep_view()[p] != r.deep_view()[q] by {
                            if q == before.len() as int {
                                assert(r.deep_view()[p] == before[p]);
                                if before[p] == sj {
                                    assert(before.contains(sj));
                                }
                            } else {
                                assert(r.deep_view()[p] == before[p]);
                                assert(r.deep_view()[q] == before[q]);
                            }
                        }
                    }
                }
            }
            proof {
                assert(active ==> r.deep_view().contains(sj)) by {
                    if r.deep_view() != before {
                        lemma_push_contains(before, sj, sj);
                    }
                }
                assert forall|x: Seq<char>| #[trigger] r.deep_view().contains(x)
                    implies (exists|u: int|
                    0 <= u < j + 1 && #[trigger] self@.reachable(u) && self@.opts[u].is_set()
                        && shortest_of(self@.opts[u].aliases) == x) by {
                    if r.deep_view() != before {
                        lemma_push_contains(before, sj, x);
                    }
                    if before.contains(x) {
                        let u = choose|u: int|
                            0 <= u < j && #[trigger] self@.reachable(u) && self@.opts[u].is_set()
                                && shortest_of(self@.opts[u].aliases) == x;
                        assert(0 <= u < j + 1 && self@.reachable(u) && self@.opts[u].is_set()
                            && shortest_of(self@.opts[u].aliases) == x);
                    } else {
                        assert(x == sj);
                        assert(self@.reachable(j as int) && self@.opts[j as int].is_set()
                            && shortest_of(self@.opts[j as int].aliases) == x);
                    }
                }
                assert forall|x: Seq<char>| (exists|u: int|
                    0 <= u < j + 1 && #[trigger] self@.reachable(u) && self@.opts[u].is_set()
                        && shortest_of(self@.opts[u].aliases) == x)
                    implies #[trigger] r.deep_view().contains(x) by {
                    let u = choose|u: int|
                        0 <= u < j + 1 && #[trigger] self@.reachable(u) && self@.opts[u].is_set()
                            && shortest_of(self@.opts[u].aliases) == x;
                    if u < j {
                        assert(before.contains(x));
                        if r.deep_view() != before {
                            lemma_push_contains(before, sj, x);
                        }
                    } else {
                        assert(x == sj);
                    }
                }
            }
            j += 1;
        }
        r
    }
}

/// What a successful registration leaves behind: the new option appended
/// to the arena, every one of its aliases resolving to it, and every
/// other registered alias resolving as before.
pub open spec fn registered(m0: ParserModel, m1: ParserModel, o: OptModel) -> bool {
    &&& m1.opts == m0.opts.push(o)
    &&& forall|a: Seq<char>| #[trigger] m1.contains_alias(a)
            <==> (m0.contains_alias(a) || o.aliases.contains(a))
    &&& forall|a: Seq<char>| #[trigger] o.aliases.contains(a)
            ==> m1.target(a) == m0.opts.len() && m1.opt_at(a) == o
    &&& forall|a: Seq<char>| m0.contains_alias(a) && !o.aliases.contains(a)
            ==> #[trigger] m1.target(a) == m0.target(a) && m1.opt_at(a) == m0.opt_at(a)
}

/// An element-by-element copy of a vector of strings.
fn clone_string_vec(v: &Vec<String>) -> (r: Vec<String>)
    ensures
        r.deep_view() == v.deep_view(),
        r@.len() == v@.len(),
{
    let mut r: Vec<String> = Vec::new();
    let mut i: usize = 0;
    while i < v.len()
        invariant
            i <= v@.len(),
            r.deep_view() =~= v.deep_view().take(i as int),
            r@.len() == i,
        decreases v@.len() - i,
    {
        let ghost before = r.deep_view();
        r.push(v[i].clone());
        proof {
            assert(r.deep_view() =~= before.push(v.deep_view()[i as int]));
            assert(r.deep_view() =~= v.deep_view().take(i as int + 1));
        }
        i += 1;
    }
    proof {
        assert(v.deep_view().take(v@.len() as int) =~= v.deep_view());
    }
    r
}

/// True when some element of `v` holds the characters `s`.
fn contains_str(v: &Vec<String>, s: &str) -> (r: bool)
    ensures
        r == v.deep_view().contains(s@),
{
    let mut k: usize = 0;
    while k < v.len()
        invariant
            k <= v@.len(),
            forall|m: int| 0 <= m < k ==> v.deep_view()[m] != s@,
        decreases v@.len() - k,
    {
        if str_eq(v[k].as_str(), s) {
            proof {
                assert(v.deep_view()[k as int] == s@);
            }
            return true;
        }
        k += 1;
    }
    proof {
        assert(!v.deep_view().contains(s@)) by {
            if v.deep_view().contains(s@) {
                let w = choose|m: int|
                    0 <= m < v.deep_view().len() && v.deep_view()[m] == s@;
                assert(v.deep_view()[w] != s@);
            }
        }
    }
    false
}

} // verus!
