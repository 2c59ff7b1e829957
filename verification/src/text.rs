//! String helpers shared by option construction and parsing:
//! splitting an alias specification on spaces, joining tokens back
//! with spaces, and character-level comparison of strings.

use vstd::prelude::*;
use vstd::string::StrSliceExecFns;
use vstd::string::StringExecFns;

verus! {

/// Tokens of `s` split on the space character, with empty pieces dropped;
/// `cur` is the partial token accumulated so far.
pub open spec fn split_rec(s: Seq<char>, cur: Seq<char>) -> Seq<Seq<char>>
    decreases s.len(),
{
    if s.len() == 0 {
        if cur.len() == 0 {
            Seq::empty()
        } else {
            seq![cur]
        }
    } else if s[0] == ' ' {
        if cur.len() == 0 {
            split_rec(s.drop_first(), Seq::empty())
        } else {
            seq![cur] + split_rec(s.drop_first(), Seq::empty())
        }
    } else {
        split_rec(s.drop_first(), cur.push(s[0]))
    }
}

/// The non-empty tokens of `s`, split on single spaces, in order.
pub open spec fn split_spaces_spec(s: Seq<char>) -> Seq<Seq<char>> {
    split_rec(s, Seq::empty())
}

/// Every token produced by splitting is non-empty and contains no space.
pub proof fn lemma_split_rec_tokens(s: Seq<char>, cur: Seq<char>)
    requires
        forall|j: int| 0 <= j < cur.len() ==> cur[j] != ' ',
    ensures
        forall|i: int| 0 <= i < split_rec(s, cur).len()
            ==> #[trigger] split_rec(s, cur)[i].len() >= 1,
        forall|i: int, j: int| 0 <= i < split_rec(s, cur).len()
            && 0 <= j < split_rec(s, cur)[i].len() ==> #[trigger] split_rec(s, cur)[i][j] != ' ',
    decreases s.len(),
{
    let out = split_rec(s, cur);
    if s.len() == 0 {
        if cur.len() > 0 {
            assert(out =~= seq![cur]);
        }
    } else if s[0] == ' ' {
        lemma_split_rec_tokens(s.drop_first(), Seq::<char>::empty());
        let rest = split_rec(s.drop_first(), Seq::<char>::empty());
        if cur.len() > 0 {
            assert(out =~= seq![cur] + rest);
            assert forall|i: int| 0 <= i < out.len() implies #[trigger] out[i].len() >= 1 by {
                if i == 0 {
                    assert(out[i] == cur);
                } else {
                    assert(out[i] == rest[i - 1]);
                }
            }
            assert forall|i: int, j: int| 0 <= i < out.len() && 0 <= j < out[i].len()
                implies #[trigger] out[i][j] != ' ' by {
                if i == 0 {
                    assert(out[i] == cur);
                } else {
                    assert(out[i] == rest[i - 1]);
                }
            }
        } else {
            assert(out =~= rest);
        }
    } else {
        let pushed = cur.push(s[0]);
        assert forall|j: int| 0 <= j < pushed.len() implies pushed[j] != ' ' by {
            if j < cur.len() {
                assert(pushed[j] == cur[j]);
            } else {
                assert(pushed[j] == s[0]);
            }
        }
        lemma_split_rec_tokens(s.drop_first(), pushed);
        assert(out =~= split_rec(s.drop_first(), pushed));
    }
}

/// Every token of `split_spaces_spec` is non-empty and free of spaces.
pub proof fn lemma_split_tokens(s: Seq<char>)
    ensures
        forall|i: int| #![trigger split_spaces_spec(s)[i]]
            0 <= i < split_spaces_spec(s).len() ==> {
                &&& split_spaces_spec(s)[i].len() >= 1
                &&& forall|j: int| 0 <= j < split_spaces_spec(s)[i].len()
                        ==> #[trigger] split_spaces_spec(s)[i][j] != ' '
            },
{
    lemma_split_rec_tokens(s, Seq::<char>::empty());
}

/// Splits `s` on single spaces into its non-empty tokens, in order.
pub fn split_spaces(s: &str) -> (r: Vec<String>)
    ensures
        r.deep_view() == split_spaces_spec(s@),
{
    let n = s.unicode_len();
    let mut r: Vec<String> = Vec::new();
    let mut cur = String::new();
    let mut i: usize = 0;
    proof {
        assert(s@.skip(0) =~= s@);
    }
    while i < n
        invariant
            n == s@.len(),
            i <= n,
            split_spaces_spec(s@) == r.deep_view() + split_rec(s@.skip(i as int), cur@),
        decreases n - i,
    {
        proof {
            assert(s@.skip(i as int).drop_first() =~= s@.skip(i as int + 1));
            assert(s@.skip(i as int)[0] == s@[i as int]);
        }
        let c = s.get_char(i);
        if c == ' ' {
            if !cur.as_str().is_empty() {
                let ghost old_r = r.deep_view();
                let ghost tok = cur@;
                r.push(cur);
                cur = String::new();
                proof {
                    assert(r.deep_view() =~= old_r.push(tok));
                    assert(old_r + (seq![tok] + split_rec(s@.skip(i as int + 1), Seq::empty()))
                        =~= r.deep_view() + split_rec(s@.skip(i as int + 1), Seq::empty()));
                }
            } else {
                proof {
                    assert(cur@ =~= Seq::<char>::empty());
                }
            }
        } else {
            let ghost old_cur = cur@;
            cur.append(s.substring_char(i, i + 1));
            proof {
                assert(s@.subrange(i as int, i as int + 1) =~= seq![s@[i as int]]);
                assert(cur@ =~= old_cur.push(s@[i as int]));
            }
        }
        i += 1;
    }
    proof {
        assert(s@.skip(n as int) =~= Seq::<char>::empty());
    }
    if !cur.as_str().is_empty() {
        let ghost old_r = r.deep_view();
        let ghost tok = cur@;
        r.push(cur);
        proof {
            assert(r.deep_view() =~= old_r.push(tok));
            assert(old_r + seq![tok] =~= r.deep_view());
        }
    } else {
        proof {
            assert(r.deep_view() + Seq::<Seq<char>>::empty() =~= r.deep_view());
        }
    }
    r
}

/// The tokens `ts` joined with a single space between consecutive tokens.
pub open spec fn join_spaces_spec(ts: Seq<Seq<char>>) -> Seq<char>
    decreases ts.len(),
{
    if ts.len() == 0 {
        Seq::empty()
    } else if ts.len() == 1 {
        ts[0]
    } else {
        join_spaces_spec(ts.drop_last()) + seq![' '] + ts.last()
    }
}

/// Joins the tokens of `v` with single spaces.
pub fn join_spaces(v: &Vec<String>) -> (r: String)
    ensures
        r@ == join_spaces_spec(v.deep_view()),
{
    let ghost dv = v.deep_view();
    let mut r = String::new();
    let mut i: usize = 0;
    proof {
        reveal_strlit(" ");
        assert(dv.take(0) =~= Seq::<Seq<char>>::empty());
    }
    while i < v.len()
        invariant
            dv == v.deep_view(),
            i <= v@.len(),
            r@ == join_spaces_spec(dv.take(i as int)),
        decreases v@.len() - i,
    {
        proof {
            reveal_strlit(" ");
            assert(" "@ =~= seq![' ']);
        }
        if i > 0 {
            r.append(" ");
        }
        r.append(v[i].as_str());
        proof {
            assert(dv.take(i as int + 1).drop_last() =~= dv.take(i as int));
            assert(dv.take(i as int + 1).last() == dv[i as int]);
        }
        i += 1;
    }
    proof {
        assert(dv.take(v@.len() as int) =~= dv);
    }
    r
}

/// True exactly when `p`'s characters are an initial segment of `s`'s.
pub fn str_is_prefix(p: &str, s: &str) -> (r: bool)
    ensures
        r == p@.is_prefix_of(s@),
{
    let pn = p.unicode_len();
    let sn = s.unicode_len();
    if pn > sn {
        return false;
    }
    let mut i: usize = 0;
    while i < pn
        invariant
            pn == p@.len(),
            sn == s@.len(),
            pn <= sn,
            i <= pn,
            forall|j: int| 0 <= j < i ==> p@[j] == s@[j],
        decreases pn - i,
    {
        if p.get_char(i) != s.get_char(i) {
            proof {
                assert(!p@.is_prefix_of(s@)) by {
                    if p@.is_prefix_of(s@) {
                        assert(p@[i as int] == s@.subrange(0, p@.len() as int)[i as int]);
                    }
                }
            }
            return false;
        }
        i += 1;
    }
    proof {
        assert(p@ =~= s@.subrange(0, p@.len() as int));
    }
    true
}

/// True exactly when `a` and `b` hold the same characters.
pub fn str_eq(a: &str, b: &str) -> (r: bool)
    ensures
        r == (a@ == b@),
{
    let an = a.unicode_len();
    let bn = b.unicode_len();
    if an != bn {
        return false;
    }
    let mut i: usize = 0;
    while i < an
        invariant
            an == a@.len(),
            bn == b@.len(),
            an == bn,
            i <= an,
            forall|j: int| 0 <= j < i ==> a@[j] == b@[j],
        decreases an - i,
    {
        if a.get_char(i) != b.get_char(i) {
            return false;
        }
        i += 1;
    }
    proof {
        assert(a@ =~= b@);
    }
    true
}

} // verus!
