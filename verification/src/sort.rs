//! A stable sort of (local, position) pairs by local.

use vstd::prelude::*;

verus! {

/// `s` with `x` placed after every element whose local is at most `x`'s, keeping the
/// order of the others.
pub open spec fn insert_by_local(s: Seq<(u16, usize)>, x: (u16, usize)) -> Seq<(u16, usize)>
    decreases s.len(),
{
    if s.len() == 0 {
        seq![x]
    } else if s.last().0 <= x.0 {
        s.push(x)
    } else {
        insert_by_local(s.drop_last(), x).push(s.last())
    }
}

/// `s` stably sorted by local: elements with equal locals keep their order.
pub open spec fn sort_by_local_spec(s: Seq<(u16, usize)>) -> Seq<(u16, usize)>
    decreases s.len(),
{
    if s.len() == 0 {
        Seq::empty()
    } else {
        insert_by_local(sort_by_local_spec(s.drop_last()), s.last())
    }
}

/// The locals of `s` never decrease.
pub open spec fn ascending(s: Seq<(u16, usize)>) -> bool {
    forall|i: int, j: int| 0 <= i <= j < s.len() ==> s[i].0 <= s[j].0
}

proof fn lemma_insert_at(s: Seq<(u16, usize)>, x: (u16, usize), p: int)
    requires
        0 <= p <= s.len(),
        p == 0 || s[p - 1].0 <= x.0,
        forall|k: int| p <= k < s.len() ==> s[k].0 > x.0,
    ensures
        insert_by_local(s, x) == s.insert(p, x),
    decreases s.len(),
{
    if s.len() == 0 {
        assert(s.insert(p, x) =~= seq![x]);
    } else if s.last().0 <= x.0 {
        assert(p == s.len());
        assert(s.insert(p, x) =~= s.push(x));
    } else {
        lemma_insert_at(s.drop_last(), x, p);
        assert(s.drop_last().insert(p, x).push(s.last()) =~= s.insert(p, x));
    }
}

/// Inserting keeps the elements, adds `x`, and keeps the locals ascending.
pub proof fn lemma_insert_by_local(s: Seq<(u16, usize)>, x: (u16, usize))
    requires
        ascending(s),
    ensures
        insert_by_local(s, x).len() == s.len() + 1,
        ascending(insert_by_local(s, x)),
        forall|e: (u16, usize)| #[trigger] insert_by_local(s, x).contains(e) <==> (s.contains(e) || e == x),
    decreases s.len(),
{
    let r = insert_by_local(s, x);
    if s.len() == 0 {
        assert(r[0] == x);
    } else if s.last().0 <= x.0 {
        assert forall|e: (u16, usize)| r.contains(e) <==> (s.contains(e) || e == x) by {
            if r.contains(e) {
                let k = choose|k: int| 0 <= k < r.len() && r[k] == e;
                if k < s.len() {
                    assert(s[k] == e);
                }
            }
            if s.contains(e) {
                let k = choose|k: int| 0 <= k < s.len() && s[k] == e;
                assert(r[k] == e);
            }
            if e == x {
                assert(r[s.len() as int] == e);
            }
        }
    } else {
        let s0 = s.drop_last();
        assert(ascending(s0));
        lemma_insert_by_local(s0, x);
        let r0 = insert_by_local(s0, x);
        assert(r == r0.push(s.last()));
        assert forall|i: int, j: int| 0 <= i <= j < r.len() implies r[i].0 <= r[j].0 by {
            if j == r.len() - 1 && i < j {
                let e = r0[i];
                assert(r0.contains(e));
                if e == x {
                } else {
                    assert(s0.contains(e));
                    let k = choose|k: int| 0 <= k < s0.len() && s0[k] == e;
                    assert(s[k] == e);
                }
            }
        }
        assert forall|e: (u16, usize)| r.contains(e) <==> (s.contains(e) || e == x) by {
            if r.contains(e) {
                let k = choose|k: int| 0 <= k < r.len() && r[k] == e;
                if k < r0.len() {
                    assert(r0.contains(e));
                    if s0.contains(e) {
                        let m = choose|m: int| 0 <= m < s0.len() && s0[m] == e;
                        assert(s[m] == e);
                    }
                } else {
                    assert(s[s.len() - 1] == e);
                }
            }
            if s.contains(e) {
                let k = choose|k: int| 0 <= k < s.len() && s[k] == e;
                if k < s0.len() {
                    assert(s0[k] == e);
                    assert(s0.contains(e));
                    assert(r0.contains(e));
                    let m = choose|m: int| 0 <= m < r0.len() && r0[m] == e;
                    assert(r[m] == e);
                } else {
                    assert(r[r.len() - 1] == e);
                }
            }
            if e == x {
                assert(r0.contains(e));
                let m = choose|m: int| 0 <= m < r0.len() && r0[m] == e;
                assert(r[m] == e);
            }
        }
    }
}

/// The sort keeps the length and the elements, and its locals ascend.
pub proof fn lemma_sort_by_local(s: Seq<(u16, usize)>)
    ensures
        sort_by_local_spec(s).len() == s.len(),
        ascending(sort_by_local_spec(s)),
        forall|e: (u16, usize)| #[trigger] sort_by_local_spec(s).contains(e) <==> s.contains(e),
    decreases s.len(),
{
    if s.len() > 0 {
        let s0 = s.drop_last();
        lemma_sort_by_local(s0);
        lemma_insert_by_local(sort_by_local_spec(s0), s.last());
        assert forall|e: (u16, usize)| #[trigger] sort_by_local_spec(s).contains(e) <==> s.contains(e) by {
            if s.contains(e) {
                let k = choose|k: int| 0 <= k < s.len() && s[k] == e;
                if k < s0.len() {
                    assert(s0[k] == e);
                }
            }
            if s0.contains(e) {
                let k = choose|k: int| 0 <= k < s0.len() && s0[k] == e;
                assert(s[k] == e);
            }
        }
    } else {
        assert(sort_by_local_spec(s) =~= Seq::<(u16, usize)>::empty());
    }
}

/// `a` comes before `b` by local, then by position.
pub open spec fn lex_lt(a: (u16, usize), b: (u16, usize)) -> bool {
    a.0 < b.0 || (a.0 == b.0 && a.1 < b.1)
}

/// The pairs of `s` strictly ascend by local, then by position.
pub open spec fn strictly_lex(s: Seq<(u16, usize)>) -> bool {
    forall|i: int, j: int| 0 <= i < j < s.len() ==> lex_lt(s[i], s[j])
}

proof fn lemma_insert_lex(t: Seq<(u16, usize)>, x: (u16, usize))
    requires
        strictly_lex(t),
        forall|k: int| 0 <= k < t.len() ==> t[k].1 < x.1,
    ensures
        strictly_lex(insert_by_local(t, x)),
    decreases t.len(),
{
    let r = insert_by_local(t, x);
    assert(ascending(t)) by {
        assert forall|i: int, j: int| 0 <= i <= j < t.len() implies t[i].0 <= t[j].0 by {
            if i < j {
                assert(lex_lt(t[i], t[j]));
            }
        }
    }
    if t.len() == 0 {
    } else if t.last().0 <= x.0 {
        assert forall|i: int, j: int| 0 <= i < j < r.len() implies lex_lt(r[i], r[j]) by {
            if j == t.len() {
                assert(t[i].0 <= t.last().0);
            }
        }
    } else {
        let t0 = t.drop_last();
        lemma_insert_lex(t0, x);
        lemma_insert_by_local(t0, x);
        let r0 = insert_by_local(t0, x);
        assert forall|i: int, j: int| 0 <= i < j < r.len() implies lex_lt(r[i], r[j]) by {
            if j == r.len() - 1 {
                let e = r0[i];
                assert(r0.contains(e));
                if e != x {
                    assert(t0.contains(e));
                    let k = choose|k: int| 0 <= k < t0.len() && t0[k] == e;
                    assert(t[k] == e);
                }
            }
        }
    }
}

/// Where positions ascend along `s`, its stable sort ascends by local, then by position.
pub proof fn lemma_sort_lex(s: Seq<(u16, usize)>)
    requires
        forall|a: int, b: int| 0 <= a < b < s.len() ==> s[a].1 < s[b].1,
    ensures
        strictly_lex(sort_by_local_spec(s)),
    decreases s.len(),
{
    if s.len() > 0 {
        let s0 = s.drop_last();
        lemma_sort_lex(s0);
        lemma_sort_by_local(s0);
        let o0 = sort_by_local_spec(s0);
        assert forall|k: int| 0 <= k < o0.len() implies o0[k].1 < s.last().1 by {
            assert(o0.contains(o0[k]));
            let a = choose|a: int| 0 <= a < s0.len() && s0[a] == o0[k];
            assert(s[a] == o0[k]);
        }
        lemma_insert_lex(o0, s.last());
    }
}

/// Two sequences that strictly ascend by local, then by position, and hold the same
/// pairs, are equal.
pub proof fn lemma_lex_same(a: Seq<(u16, usize)>, b: Seq<(u16, usize)>)
    requires
        a.len() == b.len(),
        strictly_lex(a),
        strictly_lex(b),
        forall|e: (u16, usize)| #[trigger] a.contains(e) <==> b.contains(e),
    ensures
        a == b,
    decreases a.len(),
{
    if a.len() > 0 {
        assert(a.contains(a[0]));
        assert(b.contains(a[0]));
        assert(b.contains(b[0]));
        assert(a.contains(b[0]));
        let j = choose|j: int| 0 <= j < b.len() && b[j] == a[0];
        let i = choose|i: int| 0 <= i < a.len() && a[i] == b[0];
        if i > 0 {
            assert(lex_lt(a[0], a[i]));
            if j > 0 {
                assert(lex_lt(b[0], b[j]));
            }
        } else if j > 0 {
            assert(lex_lt(b[0], b[j]));
        }
        assert(a[0] == b[0]);
        let a1 = a.drop_first();
        let b1 = b.drop_first();
        assert forall|e: (u16, usize)| #[trigger] a1.contains(e) <==> b1.contains(e) by {
            if a1.contains(e) {
                let k = choose|k: int| 0 <= k < a1.len() && a1[k] == e;
                assert(a[k + 1] == e);
                assert(a.contains(e));
                assert(b.contains(e));
                let m = choose|m: int| 0 <= m < b.len() && b[m] == e;
                assert(lex_lt(a[0], a[k + 1]));
                assert(m != 0);
                assert(b1[m - 1] == e);
            }
            if b1.contains(e) {
                let k = choose|k: int| 0 <= k < b1.len() && b1[k] == e;
                assert(b[k + 1] == e);
                assert(b.contains(e));
                assert(a.contains(e));
                let m = choose|m: int| 0 <= m < a.len() && a[m] == e;
                assert(lex_lt(b[0], b[k + 1]));
                assert(m != 0);
                assert(a1[m - 1] == e);
            }
        }
        lemma_lex_same(a1, b1);
        assert(a =~= b) by {
            assert forall|k: int| 0 <= k < a.len() implies a[k] == b[k] by {
                if k > 0 {
                    assert(a1[k - 1] == a[k]);
                    assert(b1[k - 1] == b[k]);
                }
            }
        }
    } else {
        assert(a =~= b);
    }
}

fn insert_sorted(out: &mut Vec<(u16, usize)>, x: (u16, usize))
    ensures
        final(out)@ == insert_by_local(old(out)@, x),
{
    let mut p = out.len();
    while p > 0 && out[p - 1].0 > x.0
        invariant
            0 <= p <= out.len(),
            forall|k: int| p <= k < out.len() ==> out@[k].0 > x.0,
        decreases p,
    {
        p = p - 1;
    }
    proof {
        lemma_insert_at(out@, x, p as int);
    }
    out.insert(p, x);
}

/// `v` stably sorted by local.
pub fn sort_by_local(v: &Vec<(u16, usize)>) -> (r: Vec<(u16, usize)>)
    ensures
        r@ == sort_by_local_spec(v@),
{
    let mut out: Vec<(u16, usize)> = Vec::new();
    let mut i: usize = 0;
    assert(v@.take(0) =~= Seq::<(u16, usize)>::empty());
    while i < v.len()
        invariant
            0 <= i <= v.len(),
            out@ == sort_by_local_spec(v@.take(i as int)),
        decreases v.len() - i,
    {
        assert(v@.take(i + 1).drop_last() =~= v@.take(i as int));
        insert_sorted(&mut out, v[i]);
        i = i + 1;
    }
    assert(v@.take(v.len() as int) =~= v@);
    out
}

} // verus!
