//! Byte-lexicographic order on byte strings, the order of paths in the
//! index and of names in trees.

use vstd::prelude::*;

verus! {

/// `a` sorts strictly before `b`, comparing bytes from the left; a proper
/// prefix sorts first.
#[verifier::opaque]
pub open spec fn lex_lt(a: Seq<u8>, b: Seq<u8>) -> bool
    decreases a.len(),
{
    if a.len() == 0 {
        b.len() > 0
    } else if b.len() == 0 {
        false
    } else if a[0] != b[0] {
        a[0] < b[0]
    } else {
        lex_lt(a.drop_first(), b.drop_first())
    }
}

pub proof fn lemma_lex_irreflexive(a: Seq<u8>)
    ensures
        !lex_lt(a, a),
    decreases a.len(),
{
    reveal(lex_lt);    if a.len() > 0 {
        lemma_lex_irreflexive(a.drop_first());
    }
}

pub proof fn lemma_lex_asymmetric(a: Seq<u8>, b: Seq<u8>)
    ensures
        !(lex_lt(a, b) && lex_lt(b, a)),
    decreases a.len(),
{
    reveal(lex_lt);    if a.len() > 0 && b.len() > 0 && a[0] == b[0] {
        lemma_lex_asymmetric(a.drop_first(), b.drop_first());
    }
}

pub proof fn lemma_lex_transitive(a: Seq<u8>, b: Seq<u8>, c: Seq<u8>)
    requires
        lex_lt(a, b),
        lex_lt(b, c),
    ensures
        lex_lt(a, c),
    decreases a.len(),
{
    reveal(lex_lt);    if a.len() > 0 && b.len() > 0 && c.len() > 0 && a[0] == b[0] && b[0] == c[0] {
        lemma_lex_transitive(a.drop_first(), b.drop_first(), c.drop_first());
    }
}

pub proof fn lemma_lex_total(a: Seq<u8>, b: Seq<u8>)
    requires
        a != b,
    ensures
        lex_lt(a, b) || lex_lt(b, a),
    decreases a.len(),
{
    reveal(lex_lt);    if a.len() > 0 && b.len() > 0 && a[0] == b[0] {
        if a.drop_first() == b.drop_first() {
            assert(a =~= seq![a[0]] + a.drop_first());
            assert(b =~= seq![b[0]] + b.drop_first());
        }
        lemma_lex_total(a.drop_first(), b.drop_first());
    } else if a.len() == 0 && b.len() == 0 {
        assert(a =~= b);
    }
}

/// `x` inserted into `s` before the first element whose key sorts after
/// its own (after every element with an equal key).
pub open spec fn key_insert<T>(s: Seq<(Seq<u8>, T)>, x: (Seq<u8>, T)) -> Seq<(Seq<u8>, T)>
    decreases s.len(),
{
    if s.len() == 0 {
        seq![x]
    } else if lex_lt(x.0, s[0].0) {
        seq![x] + s
    } else {
        seq![s[0]] + key_insert(s.drop_first(), x)
    }
}

/// `s` sorted by key, stably: insertion of each element in turn.
pub open spec fn key_sort<T>(s: Seq<(Seq<u8>, T)>) -> Seq<(Seq<u8>, T)>
    decreases s.len(),
{
    if s.len() == 0 {
        s
    } else {
        key_insert(key_sort(s.drop_last()), s.last())
    }
}

/// Keys in non-decreasing order.
pub open spec fn key_sorted<T>(s: Seq<(Seq<u8>, T)>) -> bool {
    forall|i: int, j: int| 0 <= i < j < s.len() ==> !lex_lt((#[trigger] s[j]).0, (#[trigger] s[i]).0)
}

/// Where `key_insert` puts `x`: the first element whose key sorts after
/// its own.
pub open spec fn insert_pos<T>(s: Seq<(Seq<u8>, T)>, x: (Seq<u8>, T), i: int) -> int
    decreases s.len() - i,
{
    if i < 0 || i >= s.len() {
        s.len() as int
    } else if lex_lt(x.0, s[i].0) {
        i
    } else {
        insert_pos(s, x, i + 1)
    }
}

proof fn lemma_insert_pos<T>(s: Seq<(Seq<u8>, T)>, x: (Seq<u8>, T), i: int)
    requires
        0 <= i <= s.len(),
    ensures
        i <= insert_pos(s, x, i) <= s.len(),
        forall|k: int| i <= k < insert_pos(s, x, i) ==> !lex_lt(x.0, (#[trigger] s[k]).0),
        insert_pos(s, x, i) < s.len() ==> lex_lt(x.0, s[insert_pos(s, x, i)].0),
    decreases s.len() - i,
{
    if i < s.len() && !lex_lt(x.0, s[i].0) {
        lemma_insert_pos(s, x, i + 1);
    }
}

/// `key_insert` puts `x` at the first position whose key sorts after it.
pub proof fn lemma_key_insert_at<T>(s: Seq<(Seq<u8>, T)>, x: (Seq<u8>, T), p: int)
    requires
        0 <= p <= s.len(),
        forall|k: int| 0 <= k < p ==> !lex_lt(x.0, (#[trigger] s[k]).0),
        p < s.len() ==> lex_lt(x.0, s[p].0),
    ensures
        key_insert(s, x) == s.take(p).push(x) + s.skip(p),
    decreases p,
{
    if p == 0 {
        if s.len() == 0 {
            assert(key_insert(s, x) =~= s.take(p).push(x) + s.skip(p));
        } else {
            assert(key_insert(s, x) =~= s.take(p).push(x) + s.skip(p));
        }
    } else {
        let r = s.drop_first();
        assert forall|k: int| 0 <= k < p - 1 implies !lex_lt(x.0, (#[trigger] r[k]).0) by {
            assert(r[k] == s[k + 1]);
        }
        if p - 1 < r.len() {
            assert(r[p - 1] == s[p]);
        }
        lemma_key_insert_at(r, x, p - 1);
        assert(!lex_lt(x.0, s[0].0));
        assert(key_insert(s, x) =~= s.take(p).push(x) + s.skip(p));
    }
}

/// Sorting orders the keys and keeps the elements, each as often.
pub proof fn lemma_key_sort_sorted<T>(s: Seq<(Seq<u8>, T)>)
    ensures
        key_sorted(key_sort(s)),
        key_sort(s).len() == s.len(),
        key_sort(s).to_multiset() == s.to_multiset(),
    decreases s.len(),
{
    broadcast use vstd::seq_lib::group_to_multiset_ensures;

    if s.len() > 0 {
        let t = key_sort(s.drop_last());
        let x = s.last();
        lemma_key_sort_sorted(s.drop_last());
        lemma_insert_pos(t, x, 0);
        let p = insert_pos(t, x, 0);
        lemma_key_insert_at(t, x, p);
        let n = t.take(p).push(x) + t.skip(p);
        assert forall|a: int, b: int| 0 <= a < b < n.len() implies !lex_lt(
            (#[trigger] n[b]).0,
            (#[trigger] n[a]).0,
        ) by {
            if b < p {
                assert(n[a] == t[a] && n[b] == t[b]);
            } else if b == p {
                assert(n[a] == t[a] && n[b] == x);
            } else if a < p {
                assert(n[a] == t[a] && n[b] == t[b - 1]);
            } else if a == p {
                assert(n[a] == x && n[b] == t[b - 1]);
                if lex_lt(t[b - 1].0, x.0) {
                    lemma_lex_transitive(t[b - 1].0, x.0, t[p].0);
                    lemma_lex_irreflexive(t[p].0);
                }
            } else {
                assert(n[a] == t[a - 1] && n[b] == t[b - 1]);
            }
        }
        assert(n.remove(p) =~= t);
        assert(n[p] == x);
        assert(n.contains(x));
        assert(n.to_multiset() =~= t.to_multiset().insert(x));
        assert(s =~= s.drop_last().push(x));
    }
}

/// A list whose keys already increase strictly is its own sort.
pub proof fn lemma_key_sort_identity<T>(s: Seq<(Seq<u8>, T)>)
    requires
        forall|i: int, j: int| 0 <= i < j < s.len() ==> lex_lt((#[trigger] s[i]).0, (#[trigger] s[j]).0),
    ensures
        key_sort(s) == s,
    decreases s.len(),
{
    if s.len() > 0 {
        let t = s.drop_last();
        lemma_key_sort_identity(t);
        assert forall|k: int| 0 <= k < t.len() implies !lex_lt(s.last().0, (#[trigger] t[k]).0) by {
            assert(lex_lt(s[k].0, s[s.len() - 1].0));
            lemma_lex_asymmetric(s[k].0, s.last().0);
        }
        lemma_key_insert_at(t, s.last(), t.len() as int);
        assert(t.take(t.len() as int).push(s.last()) + t.skip(t.len() as int) =~= s);
    }
}

/// Compare two byte strings: -1, 0 or 1 as `a` sorts before, equal to, or
/// after `b`.
pub fn compare_bytes(a: &[u8], b: &[u8]) -> (r: i8)
    ensures
        r == 0 <==> a@ == b@,
        r < 0 <==> lex_lt(a@, b@),
        r > 0 <==> lex_lt(b@, a@),
{
    reveal(lex_lt);    let mut i: usize = 0;
    assert(a@.skip(0) =~= a@);
    assert(b@.skip(0) =~= b@);
    while i < a.len() && i < b.len()
        invariant
            i <= a@.len(),
            i <= b@.len(),
            a@.take(i as int) == b@.take(i as int),
            lex_lt(a@, b@) == lex_lt(a@.skip(i as int), b@.skip(i as int)),
            lex_lt(b@, a@) == lex_lt(b@.skip(i as int), a@.skip(i as int)),
        decreases a@.len() - i,
    {
        proof {
            reveal(lex_lt);
        }
        let x = a[i];
        let y = b[i];
        if x < y {
            proof {
                lemma_lex_asymmetric(a@, b@);
                assert(a@[i as int] != b@[i as int]);
            }
            return -1;
        }
        if x > y {
            proof {
                lemma_lex_asymmetric(a@, b@);
                assert(a@[i as int] != b@[i as int]);
            }
            return 1;
        }
        assert(a@.skip(i as int).drop_first() =~= a@.skip(i + 1));
        assert(b@.skip(i as int).drop_first() =~= b@.skip(i + 1));
        assert(a@.take(i + 1) =~= a@.take(i as int).push(a@[i as int]));
        assert(b@.take(i + 1) =~= b@.take(i as int).push(b@[i as int]));
        i = i + 1;
    }
    proof {
        lemma_lex_irreflexive(a@);
        lemma_lex_asymmetric(a@, b@);
    }
    if a.len() == b.len() {
        assert(a@ =~= a@.take(i as int));
        assert(b@ =~= b@.take(i as int));
        0
    } else if a.len() < b.len() {
        assert(a@ != b@);
        -1
    } else {
        assert(a@ != b@);
        1
    }
}

} // verus!
