//! Relative paths as sequences of name segments.
//!
//! A relative path inside a vault is written with a single forward-slash
//! separator regardless of host OS. This module splits such a path into
//! its segments, joins segments back, and states when a segment is a
//! usable entry name.
use crate::text::lex_le;
use vstd::prelude::*;

verus! {

/// A usable entry name: non-empty and free of the separator.
pub open spec fn seg_ok(s: Seq<char>) -> bool {
    s.len() > 0 && (forall|i: int| 0 <= i < s.len() ==> s[i] != '/')
}

/// The views of a sequence of segment strings.
pub open spec fn segs_views(v: Seq<String>) -> Seq<Seq<char>> {
    v.map_values(|s: String| s@)
}

/// Every segment of the path is a usable entry name.
pub open spec fn path_ok(p: Seq<Seq<char>>) -> bool {
    forall|i: int| 0 <= i < p.len() ==> seg_ok(#[trigger] p[i])
}

/// The single-slash text form of a segment sequence.
pub open spec fn joined(segs: Seq<Seq<char>>) -> Seq<char>
    decreases segs.len(),
{
    if segs.len() == 0 {
        Seq::empty()
    } else if segs.len() == 1 {
        segs[0]
    } else {
        joined(segs.drop_last()) + seq!['/'] + segs.last()
    }
}

/// Unfolding `joined` one segment at a time, from the right.
pub proof fn lemma_joined_push(segs: Seq<Seq<char>>, x: Seq<char>)
    ensures
        joined(segs.push(x)) == if segs.len() == 0 {
            x
        } else {
            joined(segs) + seq!['/'] + x
        },
{
    assert(segs.push(x).drop_last() =~= segs);
    assert(segs.push(x).last() == x);
    if segs.len() == 0 {
        assert(joined(segs.push(x)) == segs.push(x)[0]);
    }
}

/// A path of usable names has non-empty text form.
pub proof fn lemma_joined_nonempty(segs: Seq<Seq<char>>)
    requires
        path_ok(segs),
        segs.len() > 0,
    ensures
        joined(segs).len() > 0,
    decreases segs.len(),
{
    if segs.len() > 1 {
        lemma_joined_nonempty(segs.drop_last());
    }
}

/// The text immediately left of a pushed segment, one segment deeper.
pub open spec fn child_rel(rel: Seq<char>, name: Seq<char>) -> Seq<char> {
    if rel.len() == 0 {
        name
    } else {
        rel + seq!['/'] + name
    }
}

/// Builds the slash-joined relative path of a child entry.
pub fn make_child_rel(rel: &str, name: &str) -> (r: String)
    ensures
        r@ == child_rel(rel@, name@),
{
    proof {
        reveal_strlit("/");
    }
    if rel.unicode_len() == 0 {
        let r = name.to_owned();
        proof {
            assert(r@ =~= child_rel(rel@, name@));
        }
        r
    } else {
        let r = crate::text::concat3(rel, "/", name);
        proof {
            assert(r@ =~= child_rel(rel@, name@));
        }
        r
    }
}

/// Splits a relative path on every separator. The result always has at
/// least one segment; segments are free of the separator but may be empty
/// (an empty input, a doubled or leading separator). Joining the segments
/// gives the input back, which determines the split uniquely.
pub fn split_path(s: &str) -> (r: Vec<String>)
    ensures
        r@.len() >= 1,
        joined(segs_views(r@)) == s@,
        forall|k: int|
            0 <= k < r@.len() ==> (forall|j: int|
                0 <= j < (#[trigger] r@[k])@.len() ==> r@[k]@[j] != '/'),
        segs_views(r@) == split_of(s@),
{
    proof {
        reveal_strlit("/");
    }
    let n = s.unicode_len();
    let mut out: Vec<String> = Vec::new();
    let mut start: usize = 0;
    let mut i: usize = 0;
    while i < n
        invariant
            start <= i <= n,
            n == s@.len(),
            out@.len() == 0 ==> start == 0,
            out@.len() > 0 ==> start >= 1 && joined(segs_views(out@)) == s@.subrange(
                0,
                start - 1,
            ) && s@[start - 1] == '/',
            forall|j: int| start <= j < i ==> s@[j] != '/',
            forall|k: int|
                0 <= k < out@.len() ==> (forall|j: int|
                    0 <= j < (#[trigger] out@[k])@.len() ==> out@[k]@[j] != '/'),
        decreases n - i,
    {
        if s.get_char(i) == '/' {
            let piece = s.substring_char(start, i).to_owned();
            proof {
                lemma_joined_push(segs_views(out@), piece@);
                assert(segs_views(out@.push(piece)) =~= segs_views(out@).push(piece@));
                if out@.len() == 0 {
                    assert(piece@ =~= s@.subrange(0, i as int));
                } else {
                    assert(joined(segs_views(out@)) + seq!['/'] + piece@ =~= s@.subrange(
                        0,
                        i as int,
                    ));
                }
            }
            out.push(piece);
            start = i + 1;
        }
        i = i + 1;
    }
    let piece = s.substring_char(start, n).to_owned();
    proof {
        lemma_joined_push(segs_views(out@), piece@);
        assert(segs_views(out@.push(piece)) =~= segs_views(out@).push(piece@));
        if out@.len() == 0 {
            assert(piece@ =~= s@);
        } else {
            assert(joined(segs_views(out@)) + seq!['/'] + piece@ =~= s@);
        }
    }
    out.push(piece);
    proof {
        assert forall|k: int|
            0 <= k < segs_views(out@).len() implies (forall|j: int|
                0 <= j < (#[trigger] segs_views(out@)[k]).len() ==> segs_views(out@)[k][j]
                    != '/') by {
            assert(segs_views(out@)[k] == out@[k]@);
        }
        lemma_split_of(s@, segs_views(out@));
    }
    out
}

/// Joins segments with the single-slash separator.
#[verifier::loop_isolation(false)]
pub fn join_path(v: &Vec<String>) -> (r: String)
    ensures
        r@ == joined(segs_views(v@)),
{
    proof {
        reveal_strlit("/");
    }
    let mut out = String::new();
    let mut k: usize = 0;
    while k < v.len()
        invariant
            k <= v@.len(),
            out@ == joined(segs_views(v@).subrange(0, k as int)),
        decreases v@.len() - k,
    {
        proof {
            lemma_joined_push(segs_views(v@).subrange(0, k as int), v@[k as int]@);
            assert(segs_views(v@).subrange(0, k as int).push(v@[k as int]@) =~= segs_views(
                v@,
            ).subrange(0, k + 1 as int));
        }
        if k > 0 {
            out.append("/");
        }
        out.append(v[k].as_str());
        k = k + 1;
    }
    proof {
        assert(segs_views(v@).subrange(0, v@.len() as int) =~= segs_views(v@));
    }
    out
}

/// Whether every segment is a usable entry name.
#[verifier::loop_isolation(false)]
pub fn segments_ok(v: &Vec<String>) -> (r: bool)
    ensures
        r == path_ok(segs_views(v@)),
{
    let mut k: usize = 0;
    while k < v.len()
        invariant
            k <= v@.len(),
            forall|i: int| 0 <= i < k ==> seg_ok(#[trigger] segs_views(v@)[i]),
        decreases v@.len() - k,
    {
        proof {
            assert(segs_views(v@)[k as int] == v@[k as int]@);
        }
        if v[k].as_str().unicode_len() == 0 {
            return false;
        }
        match crate::text::find_char(v[k].as_str(), '/') {
            Option::Some(_) => {
                return false;
            },
            Option::None => {},
        }
        k = k + 1;
    }
    true
}


/// `segs` is a decomposition of `s` into separator-free pieces joined by
/// the separator. Exactly one such decomposition exists for every `s`.
pub open spec fn splits(s: Seq<char>, segs: Seq<Seq<char>>) -> bool {
    &&& segs.len() >= 1
    &&& (forall|k: int|
        0 <= k < segs.len() ==> (forall|j: int|
            0 <= j < (#[trigger] segs[k]).len() ==> segs[k][j] != '/'))
    &&& joined(segs) == s
}

/// The decomposition of `s` at its separators.
pub open spec fn split_of(s: Seq<char>) -> Seq<Seq<char>> {
    choose|segs: Seq<Seq<char>>| splits(s, segs)
}

/// The decomposition is unique.
pub proof fn lemma_splits_unique(s: Seq<char>, a: Seq<Seq<char>>, b: Seq<Seq<char>>)
    requires
        splits(s, a),
        splits(s, b),
    ensures
        a == b,
    decreases a.len(),
{
    if a.len() == 1 && b.len() == 1 {
        assert(a[0] == s && b[0] == s);
        assert(a =~= b);
    } else if a.len() == 1 {
        let jb = joined(b.drop_last());
        assert(joined(b) == jb + seq!['/'] + b.last());
        assert(s[jb.len() as int] == '/');
        assert(a[0][jb.len() as int] == '/');
        assert(false);
    } else if b.len() == 1 {
        let ja = joined(a.drop_last());
        assert(joined(a) == ja + seq!['/'] + a.last());
        assert(s[ja.len() as int] == '/');
        assert(b[0][ja.len() as int] == '/');
        assert(false);
    } else {
        let ja = joined(a.drop_last());
        let jb = joined(b.drop_last());
        assert(joined(a) == ja + seq!['/'] + a.last());
        assert(joined(b) == jb + seq!['/'] + b.last());
        let la = a.last().len() as int;
        let lb = b.last().len() as int;
        assert(s.len() == ja.len() + 1 + la);
        assert(s.len() == jb.len() + 1 + lb);
        if la < lb {
            let pos = s.len() - 1 - la;
            assert(s[pos] == '/');
            assert(b.last()[pos - (s.len() - lb)] == s[pos]);
            assert(false);
        }
        if lb < la {
            let pos = s.len() - 1 - lb;
            assert(s[pos] == '/');
            assert(a.last()[pos - (s.len() - la)] == s[pos]);
            assert(false);
        }
        assert forall|j: int| 0 <= j < la implies a.last()[j] == b.last()[j] by {
            assert(a.last()[j] == s[s.len() - la + j]);
            assert(b.last()[j] == s[s.len() - lb + j]);
        }
        assert(a.last() =~= b.last());
        assert forall|j: int| 0 <= j < ja.len() implies ja[j] == jb[j] by {
            assert(ja[j] == s[j] && jb[j] == s[j]);
        }
        assert(ja =~= jb);
        assert forall|k: int|
            0 <= k < a.drop_last().len() implies (forall|j: int|
                0 <= j < (#[trigger] a.drop_last()[k]).len() ==> a.drop_last()[k][j] != '/') by {
            assert(a.drop_last()[k] == a[k]);
        }
        assert forall|k: int|
            0 <= k < b.drop_last().len() implies (forall|j: int|
                0 <= j < (#[trigger] b.drop_last()[k]).len() ==> b.drop_last()[k][j] != '/') by {
            assert(b.drop_last()[k] == b[k]);
        }
        lemma_splits_unique(ja, a.drop_last(), b.drop_last());
        assert(a.len() == b.len());
        assert forall|k: int| 0 <= k < a.len() implies a[k] == b[k] by {
            if k < a.len() - 1 {
                assert(a[k] == a.drop_last()[k]);
                assert(b[k] == b.drop_last()[k]);
            } else {
                assert(a[k] == a.last() && b[k] == b.last());
            }
        }
        assert(a =~= b);
    }
}

/// Any witness decomposition is the decomposition.
pub proof fn lemma_split_of(s: Seq<char>, segs: Seq<Seq<char>>)
    requires
        splits(s, segs),
    ensures
        split_of(s) == segs,
{
    assert(splits(s, split_of(s)));
    lemma_splits_unique(s, split_of(s), segs);
}


/// Unfolding `joined` one segment at a time, from the left.
pub proof fn lemma_joined_cons(p: Seq<Seq<char>>)
    requires
        p.len() >= 2,
    ensures
        joined(p) == p[0] + seq!['/'] + joined(p.drop_first()),
    decreases p.len(),
{
    if p.len() == 2 {
        assert(p.drop_last() =~= seq![p[0]]);
        assert(p.drop_first() =~= seq![p[1]]);
        assert(joined(p.drop_last()) == p[0]);
        assert(joined(p.drop_first()) == p[1]);
    } else {
        lemma_joined_cons(p.drop_last());
        assert(p.drop_last()[0] == p[0]);
        assert(p.drop_last().drop_first() =~= p.drop_first().drop_last());
        assert(p.drop_first().last() == p.last());
        assert(p.drop_first().len() >= 2);
        assert(joined(p) == joined(p.drop_last()) + seq!['/'] + p.last());
        assert(joined(p.drop_last()) == p[0] + seq!['/'] + joined(p.drop_first().drop_last()));
        assert(joined(p.drop_first()) == joined(p.drop_first().drop_last()) + seq!['/']
            + p.drop_first().last());
        assert((p[0] + seq!['/'] + joined(p.drop_first().drop_last())) + seq!['/'] + p.last()
            =~= p[0] + seq!['/'] + (joined(p.drop_first().drop_last()) + seq!['/'] + p.last()));
    }
}


/// Every text has a decomposition, so `split_of` is total: it really is
/// the decomposition of `s`.
pub proof fn lemma_split_exists(s: Seq<char>)
    ensures
        splits(s, split_of(s)),
    decreases s.len(),
{
    if forall|j: int| 0 <= j < s.len() ==> s[j] != '/' {
        let w = seq![s];
        assert(joined(w) == s);
        assert forall|k: int|
            0 <= k < w.len() implies (forall|j: int|
                0 <= j < (#[trigger] w[k]).len() ==> w[k][j] != '/') by {
            assert(w[k] == s);
        }
        assert(splits(s, w));
    } else {
        lemma_split_exists(s.drop_last());
        let prev = split_of(s.drop_last());
        if s.last() == '/' {
            let w = prev.push(Seq::<char>::empty());
            lemma_joined_push(prev, Seq::<char>::empty());
            assert(joined(prev) + seq!['/'] + Seq::<char>::empty() =~= s.drop_last() + seq!['/']);
            assert(s.drop_last() + seq!['/'] =~= s);
            assert forall|k: int|
                0 <= k < w.len() implies (forall|j: int|
                    0 <= j < (#[trigger] w[k]).len() ==> w[k][j] != '/') by {
                if k < prev.len() {
                    assert(w[k] == prev[k]);
                }
            }
            assert(splits(s, w));
        } else {
            let c = s.last();
            let nl = prev.last().push(c);
            let w = prev.update(prev.len() - 1, nl);
            assert forall|k: int|
                0 <= k < w.len() implies (forall|j: int|
                    0 <= j < (#[trigger] w[k]).len() ==> w[k][j] != '/') by {
                if k < prev.len() - 1 {
                    assert(w[k] == prev[k]);
                } else {
                    assert(w[k] == nl);
                    assert(forall|j: int| 0 <= j < nl.len() - 1 ==> nl[j] == prev.last()[j]);
                    assert(nl[nl.len() - 1] == c);
                }
            }
            if prev.len() == 1 {
                assert(joined(prev) == prev[0]);
                assert(w.len() == 1);
                assert(joined(w) == w[0]);
                assert(w[0] =~= s.drop_last().push(c));
                assert(s.drop_last().push(c) =~= s);
            } else {
                assert(w.drop_last() =~= prev.drop_last());
                assert(w.last() == nl);
                assert(joined(w) == joined(prev.drop_last()) + seq!['/'] + nl);
                assert(joined(prev) == joined(prev.drop_last()) + seq!['/'] + prev.last());
                assert(joined(prev.drop_last()) + seq!['/'] + nl =~= (joined(prev.drop_last())
                    + seq!['/'] + prev.last()).push(c));
                assert(s.drop_last().push(c) =~= s);
            }
            assert(splits(s, w));
        }
    }
}

/// Joining the decomposition gives the text back.
pub proof fn lemma_joined_split(s: Seq<char>)
    ensures
        joined(split_of(s)) == s,
{
    lemma_split_exists(s);
}

} // verus!
