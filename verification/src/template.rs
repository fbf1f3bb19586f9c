//! Placeholder substitution: a token is the literal `$` + key + `$`, and one
//! substitution pass replaces every occurrence of the token, left to right,
//! without rescanning the inserted replacement text.

use vstd::prelude::*;
use vstd::string::*;

verus! {

broadcast use vstd::seq_lib::group_seq_properties;

/// The placeholder token for a replacement key.
pub open spec fn spec_token(key: Seq<char>) -> Seq<char> {
    seq!['$'] + key + seq!['$']
}

/// Whether `t` occurs in `s` as a contiguous substring.
pub open spec fn spec_contains(s: Seq<char>, t: Seq<char>) -> bool {
    exists|i: int| 0 <= i && i + t.len() <= s.len() && #[trigger] s.subrange(i, i + t.len()) == t
}

/// `s` with every occurrence of `t` replaced by `v`, scanning left to right
/// and never rescanning the inserted text.
pub open spec fn spec_replace(s: Seq<char>, t: Seq<char>, v: Seq<char>) -> Seq<char>
    decreases s.len(),
    when t.len() >= 1
{
    if s.len() < t.len() {
        s
    } else if s.take(t.len() as int) == t {
        v + spec_replace(s.skip(t.len() as int), t, v)
    } else {
        seq![s[0]] + spec_replace(s.skip(1), t, v)
    }
}

/// One pass over the whole replacement set: each entry applied in order.
pub open spec fn fold_replace(base: Seq<char>, rents: Seq<(Seq<char>, Seq<char>)>) -> Seq<char>
    decreases rents.len(),
{
    if rents.len() == 0 {
        base
    } else {
        fold_replace(spec_replace(base, spec_token(rents[0].0), rents[0].1), rents.skip(1))
    }
}

/// Replacing a token that does not occur leaves the text unchanged.
pub proof fn lemma_replace_absent(s: Seq<char>, t: Seq<char>, v: Seq<char>)
    requires
        t.len() >= 1,
        !spec_contains(s, t),
    ensures
        spec_replace(s, t, v) == s,
    decreases s.len(),
{
    if s.len() < t.len() {
    } else if s.take(t.len() as int) == t {
        assert(s.subrange(0, 0 + t.len() as int) =~= s.take(t.len() as int));
        assert(spec_contains(s, t));
    } else {
        assert(!spec_contains(s.skip(1), t)) by {
            if spec_contains(s.skip(1), t) {
                let i = choose|i: int|
                    0 <= i && i + t.len() <= s.skip(1).len() && #[trigger] s.skip(1).subrange(
                        i,
                        i + t.len(),
                    ) == t;
                assert(s.subrange(i + 1, i + 1 + t.len()) =~= s.skip(1).subrange(
                    i,
                    i + t.len(),
                ));
                assert(spec_contains(s, t));
            }
        }
        lemma_replace_absent(s.skip(1), t, v);
        assert(seq![s[0]] + s.skip(1) =~= s);
    }
}

/// Text in which no replacement key's token occurs is untouched by a whole
/// substitution pass.
pub proof fn lemma_fold_replace_all_absent(base: Seq<char>, rents: Seq<(Seq<char>, Seq<char>)>)
    requires
        forall|i: int| 0 <= i < rents.len() ==> !spec_contains(
            base,
            spec_token((#[trigger] rents[i]).0),
        ),
    ensures
        fold_replace(base, rents) == base,
    decreases rents.len(),
{
    if rents.len() > 0 {
        assert(!spec_contains(base, spec_token(rents[0].0)));
        lemma_replace_absent(base, spec_token(rents[0].0), rents[0].1);
        assert forall|i: int| 0 <= i < rents.skip(1).len() implies !spec_contains(
            base,
            spec_token((#[trigger] rents.skip(1)[i]).0),
        ) by {
            assert(rents.skip(1)[i] == rents[i + 1]);
        }
        lemma_fold_replace_all_absent(base, rents.skip(1));
    }
}

/// Text containing no `$` is untouched by a whole substitution pass.
pub proof fn lemma_fold_replace_no_dollar(base: Seq<char>, rents: Seq<(Seq<char>, Seq<char>)>)
    requires
        !base.contains('$'),
    ensures
        fold_replace(base, rents) == base,
    decreases rents.len(),
{
    if rents.len() > 0 {
        let t = spec_token(rents[0].0);
        assert(t.len() >= 1);
        assert(!spec_contains(base, t)) by {
            if spec_contains(base, t) {
                let i = choose|i: int|
                    0 <= i && i + t.len() <= base.len() && #[trigger] base.subrange(i, i + t.len()) == t;
                assert(base.subrange(i, i + t.len())[0] == base[i]);
                assert(t[0] == '$');
                assert(base[i] == '$');
                assert(base.contains('$'));
            }
        }
        lemma_replace_absent(base, t, rents[0].1);
        lemma_fold_replace_no_dollar(base, rents.skip(1));
    }
}

/// Whether `t` occurs in `s` starting at position `i`.
fn matches_at(s: &str, t: &str, i: usize, n: usize, tl: usize) -> (r: bool)
    requires
        n == s@.len(),
        tl == t@.len(),
        i + tl <= n,
    ensures
        r == (s@.subrange(i as int, i + tl) == t@),
{
    let mut j: usize = 0;
    while j < tl
        invariant
            n == s@.len(),
            tl == t@.len(),
            i + tl <= n,
            j <= tl,
            forall|q: int| 0 <= q < j ==> s@[i + q] == t@[q],
        decreases tl - j,
    {
        let cs = s.get_char(i + j);
        let ct = t.get_char(j);
        if cs != ct {
            proof {
                assert(s@.subrange(i as int, i + tl)[j as int] == s@[i + j]);
            }
            return false;
        }
        j = j + 1;
    }
    proof {
        assert(s@.subrange(i as int, i + tl) =~= t@);
    }
    true
}

/// Replaces every occurrence of `t` in `s` by `v`, in one left-to-right pass.
pub fn replace_all(s: &str, t: &str, v: &str) -> (r: String)
    requires
        t@.len() >= 1,
    ensures
        r@ == spec_replace(s@, t@, v@),
{
    let n = s.unicode_len();
    let tl = t.unicode_len();
    let mut r = String::new();
    let mut i: usize = 0;
    proof {
        assert(s@.skip(0) =~= s@);
    }
    while i < n
        invariant
            n == s@.len(),
            tl == t@.len(),
            tl >= 1,
            i <= n,
            spec_replace(s@, t@, v@) == r@ + spec_replace(s@.skip(i as int), t@, v@),
        decreases n - i,
    {
        let ghost rem = s@.skip(i as int);
        if tl <= n - i && matches_at(s, t, i, n, tl) {
            proof {
                assert(rem.take(tl as int) =~= s@.subrange(i as int, i + tl));
                assert(rem.skip(tl as int) =~= s@.skip(i + tl));
                assert(spec_replace(rem, t@, v@) == v@ + spec_replace(s@.skip(i + tl), t@, v@));
                assert((r@ + v@) + spec_replace(s@.skip(i + tl), t@, v@) =~= r@ + (v@
                    + spec_replace(s@.skip(i + tl), t@, v@)));
            }
            r.append(v);
            i = i + tl;
        } else {
            proof {
                assert(rem.len() == n - i);
                if tl <= n - i {
                    assert(rem.take(tl as int) =~= s@.subrange(i as int, i + tl));
                    assert(rem.take(tl as int) != t@);
                }
                assert(rem.skip(1) =~= s@.skip(i + 1));
                assert(rem[0] == s@[i as int]);
                if rem.len() < tl {
                    assert(spec_replace(rem, t@, v@) == rem);
                    assert(rem =~= seq![s@[i as int]] + s@.skip(i + 1));
                    assert(spec_replace(s@.skip(i + 1), t@, v@) == s@.skip(i + 1)) by {
                        assert(s@.skip(i + 1).len() < tl);
                    }
                } else {
                    assert(spec_replace(rem, t@, v@) == seq![rem[0]] + spec_replace(
                        rem.skip(1),
                        t@,
                        v@,
                    ));
                }
                assert(s@.subrange(i as int, i + 1) =~= seq![s@[i as int]]);
                assert((r@ + seq![s@[i as int]]) + spec_replace(s@.skip(i + 1), t@, v@) =~= r@
                    + (seq![s@[i as int]] + spec_replace(s@.skip(i + 1), t@, v@)));
            }
            let piece = s.substring_char(i, i + 1);
            r.append(piece);
            i = i + 1;
        }
    }
    proof {
        assert(s@.skip(n as int).len() == 0);
        assert(spec_replace(s@.skip(n as int), t@, v@) == s@.skip(n as int));
        assert(r@ + s@.skip(n as int) =~= r@);
    }
    r
}

/// Builds the literal token string `$` + key + `$`.
pub fn token_of(key: &str) -> (r: String)
    ensures
        r@ == spec_token(key@),
        r@.len() >= 2,
{
    let mut r = String::from_str("$");
    proof {
        reveal_strlit("$");
    }
    r.append(key);
    r.append("$");
    proof {
        assert(r@ =~= spec_token(key@));
    }
    r
}

} // verus!
