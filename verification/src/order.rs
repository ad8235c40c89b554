//! Ascending byte-wise lexicographic order on file names, and a sort that
//! arranges a list of names under it.
use vstd::prelude::*;

verus! {

broadcast use vstd::seq_lib::group_to_multiset_ensures, vstd::multiset::group_multiset_axioms;

/// `a` comes no later than `b` in ascending byte-wise lexicographic order.
pub open spec fn lex_le(a: Seq<u8>, b: Seq<u8>) -> bool
    decreases a.len(),
{
    if a.len() == 0 {
        true
    } else if b.len() == 0 {
        false
    } else if a[0] < b[0] {
        true
    } else if a[0] > b[0] {
        false
    } else {
        lex_le(a.drop_first(), b.drop_first())
    }
}

/// The order as a relation value, for vstd's sortedness predicates.
pub open spec fn lex_leq() -> spec_fn(Seq<u8>, Seq<u8>) -> bool {
    |a: Seq<u8>, b: Seq<u8>| lex_le(a, b)
}

pub proof fn lemma_lex_refl(a: Seq<u8>)
    ensures
        lex_le(a, a),
    decreases a.len(),
{
    if a.len() > 0 {
        lemma_lex_refl(a.drop_first());
    }
}

pub proof fn lemma_lex_antisym(a: Seq<u8>, b: Seq<u8>)
    requires
        lex_le(a, b),
        lex_le(b, a),
    ensures
        a == b,
    decreases a.len(),
{
    if a.len() == 0 {
        assert(b.len() == 0);
        assert(a =~= b);
    } else {
        assert(b.len() > 0);
        assert(a[0] == b[0]);
        lemma_lex_antisym(a.drop_first(), b.drop_first());
        assert(a.drop_first() == b.drop_first());
        assert(a.len() == a.drop_first().len() + 1);
        assert(b.len() == b.drop_first().len() + 1);
        assert forall|i: int| 0 <= i < a.len() implies a[i] == b[i] by {
            if i >= 1 {
                assert(a[i] == a.drop_first()[i - 1]);
                assert(b[i] == b.drop_first()[i - 1]);
            }
        }
        assert(a =~= b);
    }
}

pub proof fn lemma_lex_trans(a: Seq<u8>, b: Seq<u8>, c: Seq<u8>)
    requires
        lex_le(a, b),
        lex_le(b, c),
    ensures
        lex_le(a, c),
    decreases a.len(),
{
    if a.len() > 0 {
        assert(b.len() > 0);
        assert(c.len() > 0);
        if a[0] == b[0] && b[0] == c[0] {
            lemma_lex_trans(a.drop_first(), b.drop_first(), c.drop_first());
        }
    }
}

pub proof fn lemma_lex_connected(a: Seq<u8>, b: Seq<u8>)
    ensures
        lex_le(a, b) || lex_le(b, a),
    decreases a.len(),
{
    if a.len() > 0 && b.len() > 0 && a[0] == b[0] {
        lemma_lex_connected(a.drop_first(), b.drop_first());
    }
}

/// The order is a total ordering in the sense of vstd's relations.
pub proof fn lemma_lex_total_ordering()
    ensures
        vstd::relations::total_ordering(lex_leq()),
{
    let leq = lex_leq();
    assert forall|a: Seq<u8>| #[trigger] leq(a, a) by {
        lemma_lex_refl(a);
    }
    assert forall|a: Seq<u8>, b: Seq<u8>| #[trigger] leq(a, b) && #[trigger] leq(b, a) implies a
        == b by {
        lemma_lex_antisym(a, b);
    }
    assert forall|a: Seq<u8>, b: Seq<u8>, c: Seq<u8>|
        #[trigger] leq(a, b) && #[trigger] leq(b, c) implies leq(a, c) by {
        lemma_lex_trans(a, b, c);
    }
    assert forall|a: Seq<u8>, b: Seq<u8>| #[trigger] leq(a, b) || #[trigger] leq(b, a) by {
        lemma_lex_connected(a, b);
    }
}

/// Decides the lexicographic order on two byte vectors.
pub fn lex_le_bytes(a: &Vec<u8>, b: &Vec<u8>) -> (r: bool)
    ensures
        r == lex_le(a@, b@),
{
    let mut i: usize = 0;
    proof {
        assert(a@.skip(0) =~= a@);
        assert(b@.skip(0) =~= b@);
    }
    while i < a.len() && i < b.len()
        invariant
            i <= a.len(),
            i <= b.len(),
            lex_le(a@, b@) == lex_le(a@.skip(i as int), b@.skip(i as int)),
        decreases a.len() - i,
    {
        proof {
            assert(a@.skip(i as int)[0] == a@[i as int]);
            assert(b@.skip(i as int)[0] == b@[i as int]);
        }
        if a[i] < b[i] {
            return true;
        }
        if a[i] > b[i] {
            return false;
        }
        proof {
            assert(a@.skip(i as int).drop_first() =~= a@.skip(i + 1));
            assert(b@.skip(i as int).drop_first() =~= b@.skip(i + 1));
        }
        i = i + 1;
    }
    proof {
        if i == a.len() {
            assert(a@.skip(i as int).len() == 0);
        } else {
            assert(b@.skip(i as int).len() == 0);
            assert(a@.skip(i as int).len() > 0);
        }
    }
    i == a.len()
}

/// The views of the byte vectors in `s`, in order.
pub open spec fn views(s: Seq<Vec<u8>>) -> Seq<Seq<u8>> {
    s.map_values(|v: Vec<u8>| v@)
}

/// Every earlier name comes no later than every later one.
pub open spec fn name_sorted(s: Seq<Seq<u8>>) -> bool {
    forall|i: int, j: int| 0 <= i < j < s.len() ==> lex_le(s[i], s[j])
}

/// The two sortedness phrasings agree.
pub proof fn lemma_name_sorted_is_sorted_by(s: Seq<Seq<u8>>)
    ensures
        name_sorted(s) <==> vstd::relations::sorted_by(s, lex_leq()),
{
    let leq = lex_leq();
    if name_sorted(s) {
        assert forall|i: int, j: int| 0 <= i < j < s.len() implies #[trigger] leq(s[i], s[j]) by {
            assert(lex_le(s[i], s[j]));
        }
    }
    if vstd::relations::sorted_by(s, leq) {
        assert forall|i: int, j: int| 0 <= i < j < s.len() implies #[trigger] lex_le(
            s[i],
            s[j],
        ) by {
            assert(leq(s[i], s[j]));
        }
    }
}

fn insert_sorted(out: &mut Vec<Vec<u8>>, x: Vec<u8>)
    requires
        name_sorted(views(old(out)@)),
    ensures
        name_sorted(views(final(out)@)),
        views(final(out)@).to_multiset() == views(old(out)@).to_multiset().insert(x@),
{
    let ghost v = views(out@);
    let mut j: usize = 0;
    while j < out.len() && lex_le_bytes(&out[j], &x)
        invariant
            j <= out.len(),
            views(out@) == v,
            forall|k: int| 0 <= k < j ==> lex_le(v[k], x@),
        decreases out.len() - j,
    {
        proof {
            assert(v[j as int] == out@[j as int]@);
        }
        j = j + 1;
    }
    proof {
        if (j as int) < v.len() {
            assert(!lex_le(v[j as int], x@));
            lemma_lex_connected(v[j as int], x@);
            assert(lex_le(x@, v[j as int]));
        }
    }
    out.insert(j, x);
    proof {
        let w = views(out@);
        assert(w =~= v.insert(j as int, x@)) by {
            assert(out@ == out@.subrange(0, out@.len() as int));
        }
        assert forall|p: int, q: int| 0 <= p < q < w.len() implies lex_le(w[p], w[q]) by {
            let n = v.len();
            if q < j {
                assert(lex_le(v[p], v[q]));
            } else if p < j && q == j {
                assert(lex_le(v[p], x@));
            } else if p < j && q > j {
                assert(w[q] == v[q - 1]);
                assert(lex_le(v[p], v[q - 1]));
            } else if p == j {
                assert(w[p] == x@);
                assert(w[q] == v[q - 1]);
                assert(lex_le(x@, v[j as int]));
                if q - 1 > j {
                    assert(lex_le(v[j as int], v[q - 1]));
                    lemma_lex_trans(x@, v[j as int], v[q - 1]);
                }
            } else {
                assert(w[p] == v[p - 1]);
                assert(w[q] == v[q - 1]);
                assert(lex_le(v[p - 1], v[q - 1]));
            }
        }
        assert(w.to_multiset() == v.to_multiset().insert(x@));
    }
}

/// Sorts the names ascending; the result holds exactly the input's names.
pub fn sort_names(names: Vec<Vec<u8>>) -> (r: Vec<Vec<u8>>)
    ensures
        name_sorted(views(r@)),
        views(r@).to_multiset() == views(names@).to_multiset(),
{
    let ghost all = views(names@);
    let mut rest = names;
    let mut out: Vec<Vec<u8>> = Vec::new();
    proof {
        assert(views(out@) =~= Seq::<Seq<u8>>::empty());
        assert(views(out@).to_multiset().add(views(rest@).to_multiset()) =~= all.to_multiset());
    }
    while rest.len() > 0
        invariant
            name_sorted(views(out@)),
            views(out@).to_multiset().add(views(rest@).to_multiset()) == all.to_multiset(),
        decreases rest.len(),
    {
        let ghost vr = views(rest@);
        let x = rest.pop().unwrap();
        proof {
            assert(views(rest@) =~= vr.remove(vr.len() - 1));
            assert(vr[vr.len() - 1] == x@);
            assert(views(rest@).to_multiset() == vr.to_multiset().remove(x@));
            assert(vr.to_multiset().count(x@) > 0);
        }
        let ghost vo = views(out@);
        insert_sorted(&mut out, x);
        proof {
            assert(views(out@).to_multiset() == vo.to_multiset().insert(x@));
            assert(views(out@).to_multiset().add(views(rest@).to_multiset()) =~= all.to_multiset());
        }
    }
    out
}

} // verus!
