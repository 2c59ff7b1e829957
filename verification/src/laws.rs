//! The library's general guarantees, stated once over the models that
//! the public contracts speak of, and proved by Verus.

use vstd::prelude::*;

use crate::options::OptModel;
use crate::parser::lemma_slot_unique;
use crate::parser::reset_all;
use crate::parser::ParserModel;

verus! {

/// Accumulation order: appending `v1` and then `v2` to a value-taking
/// option extends its values with exactly `[v1, v2]` at the end, in that
/// order, and leaves the option set. In particular, on a previously
/// empty option the first value read back is `v1` and the full list is
/// `[v1, v2]`.
pub proof fn lemma_accumulation_order(o: OptModel, v1: Seq<char>, v2: Seq<char>)
    requires
        o.kind is Str,
    ensures
        o.with_add(v1).with_add(v2).values == o.values + seq![v1, v2],
        o.values.len() == 0 ==> o.with_add(v1).with_add(v2).values == seq![v1, v2],
        o.with_add(v1).with_add(v2).is_set(),
{
    assert(o.values.push(v1).push(v2) =~= o.values + seq![v1, v2]);
    if o.values.len() == 0 {
        assert(o.values.push(v1).push(v2) =~= seq![v1, v2]);
    }
}

/// Alias equivalence: two registered aliases that resolve to the same
/// arena slot resolve to the very same option, so `is_set`, `get` and
/// `get_many` answer identically through either alias. Registration
/// guarantees the premise for all aliases of one registered option.
pub proof fn lemma_alias_equivalence(m: ParserModel, a: Seq<char>, b: Seq<char>)
    requires
        m.wf(),
        m.contains_alias(a),
        m.contains_alias(b),
        m.target(a) == m.target(b),
    ensures
        m.opt_at(a) == m.opt_at(b),
        m.is_set_alias(a) == m.is_set_alias(b),
{
}

/// Reset idempotence: after any sequence of registrations and parses,
/// reset keeps the registry, makes every registered alias unset, and a
/// second reset changes nothing further.
pub proof fn lemma_reset(m: ParserModel)
    requires
        m.wf(),
    ensures
        reset_all(m).wf(),
        reset_all(m).names == m.names,
        reset_all(m).index == m.index,
        forall|a: Seq<char>| #[trigger] reset_all(m).contains_alias(a) <==> m.contains_alias(a),
        forall|a: Seq<char>| #[trigger] m.contains_alias(a) ==> !reset_all(m).is_set_alias(a),
        reset_all(reset_all(m)) == reset_all(m),
{
    let r = reset_all(m);
    assert forall|j: int| 0 <= j < r.opts.len() implies (#[trigger] r.opts[j]).wf() by {
        assert(m.opts[j].wf());
    }
    assert forall|a: Seq<char>| #[trigger] m.contains_alias(a)
        implies !r.is_set_alias(a) by {
        let w = m.slot_of(a);
        assert(0 <= w < m.names.len() && m.names[w] == a);
        lemma_slot_unique(r, a, w);
        assert(m.reachable(r.index[w]));
        assert(r.opt_at(a) == m.opts[r.index[w]].with_reset());
        assert(!r.opt_at(a).is_set());
    }
    assert(reset_all(r).opts =~= r.opts) by {
        assert forall|j: int| 0 <= j < r.opts.len()
            implies #[trigger] reset_all(r).opts[j] == r.opts[j] by {
            assert(r.reachable(j) == m.reachable(j));
        }
    }
    assert(reset_all(r) == r);
}

} // verus!
