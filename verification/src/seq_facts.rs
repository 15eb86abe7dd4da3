use vstd::prelude::*;

verus! {

/// Membership in a sequence survives a push, and the pushed element joins.
pub proof fn lemma_push_contains<A>(s: Seq<A>, a: A, x: A)
    ensures
        s.push(a).contains(x) <==> s.contains(x) || x == a,
{
    if s.contains(x) {
        let k = choose|k: int| 0 <= k < s.len() && s[k] == x;
        assert(s.push(a)[k] == x);
    }
    assert(s.push(a)[s.len() as int] == a);
    if s.push(a).contains(x) {
        let k = choose|k: int| 0 <= k < s.push(a).len() && s.push(a)[k] == x;
        if k < s.len() {
            assert(s[k] == x);
        }
    }
}

/// Whatever a sequence with one element removed holds, the sequence held.
pub proof fn lemma_remove_contains<A>(s: Seq<A>, j: int, x: A)
    requires
        0 <= j < s.len(),
        s.remove(j).contains(x),
    ensures
        s.contains(x),
{
    s.remove_ensures(j);
    let t = s.remove(j);
    let k = choose|k: int| 0 <= k < t.len() && t[k] == x;
    if k < j {
        assert(s[k] == x);
    } else {
        assert(s[k + 1] == x);
    }
}

/// Removing an element from a duplicate-free sequence keeps it
/// duplicate-free, and the removed element is gone for good.
pub proof fn lemma_remove_no_duplicates<A>(s: Seq<A>, j: int)
    requires
        0 <= j < s.len(),
        s.no_duplicates(),
    ensures
        s.remove(j).no_duplicates(),
        !s.remove(j).contains(s[j]),
{
    s.remove_ensures(j);
    let t = s.remove(j);
    assert forall|p: int, q: int| 0 <= p < t.len() && 0 <= q < t.len() && p != q implies t[p]
        != t[q] by {
        let sp = if p < j {
            p
        } else {
            p + 1
        };
        let sq = if q < j {
            q
        } else {
            q + 1
        };
        assert(t[p] == s[sp] && t[q] == s[sq]);
    }
    if t.contains(s[j]) {
        let k = choose|k: int| 0 <= k < t.len() && t[k] == s[j];
        if k < j {
            assert(s[k] == s[j]);
        } else {
            assert(s[k + 1] == s[j]);
        }
    }
}

/// Taking an element out of a sequence and putting another back in its
/// place is a plain update.
pub proof fn lemma_remove_insert_is_update<A>(s: Seq<A>, i: int, a: A)
    requires
        0 <= i < s.len(),
    ensures
        s.remove(i).insert(i, a) =~= s.update(i, a),
{
    s.remove_ensures(i);
    s.remove(i).insert_ensures(i, a);
}

/// Every sequence is a prefix of itself.
pub proof fn lemma_prefix_refl<A>(a: Seq<A>)
    ensures
        a.is_prefix_of(a),
{
    assert(a.subrange(0, a.len() as int) =~= a);
}

/// Being a prefix is preserved when the longer sequence grows.
pub proof fn lemma_prefix_push<A>(a: Seq<A>, b: Seq<A>, x: A)
    requires
        a.is_prefix_of(b),
    ensures
        a.is_prefix_of(b.push(x)),
{
    assert(b.push(x).subrange(0, a.len() as int) =~= b.subrange(0, a.len() as int));
}

/// Prefixes chain.
pub proof fn lemma_prefix_trans<A>(a: Seq<A>, b: Seq<A>, c: Seq<A>)
    requires
        a.is_prefix_of(b),
        b.is_prefix_of(c),
    ensures
        a.is_prefix_of(c),
{
    assert(a =~= c.subrange(0, a.len() as int));
}

} // verus!
