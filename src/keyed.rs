//! Sequences of entries kept in key order: the model of the index's three
//! collections, and the generic vector operations on them.

use vstd::prelude::*;

use crate::entity::{dir_name, Entry, Keyed};

verus! {

/// The entries of a vector of entities.
pub open spec fn entries<T: View<V = Entry>>(v: Seq<T>) -> Seq<Entry> {
    v.map_values(|x: T| x@)
}

/// Keys strictly increase along `s`: it is sorted and holds each key once.
pub open spec fn sorted(s: Seq<Entry>) -> bool {
    forall|i: int, j: int| 0 <= i < j < s.len() ==> #[trigger] s[i].key < #[trigger] s[j].key
}

/// Some entry of `s` has the key `k`.
pub open spec fn has_key(s: Seq<Entry>, k: nat) -> bool {
    exists|i: int| 0 <= i < s.len() && #[trigger] s[i].key == k
}

/// No two entries of `s` share a key.
pub open spec fn unique_keys(s: Seq<Entry>) -> bool {
    forall|i: int, j: int|
        0 <= i < s.len() && 0 <= j < s.len() && i != j ==> #[trigger] s[i].key != #[trigger] s[j].key
}

/// How many entries open `s` with a key below `k`: where `k` goes in a sorted `s`.
pub open spec fn rank(s: Seq<Entry>, k: nat) -> nat
    decreases s.len(),
{
    if s.len() > 0 && s[0].key < k {
        1 + rank(s.drop_first(), k)
    } else {
        0
    }
}

/// `s` with `e` put in its place by key.
pub open spec fn insert_sorted(s: Seq<Entry>, e: Entry) -> Seq<Entry> {
    s.insert(rank(s, e.key) as int, e)
}

/// The entries of `s` put in key order, one at a time.
pub open spec fn sort_entries(s: Seq<Entry>) -> Seq<Entry>
    decreases s.len(),
{
    if s.len() == 0 {
        s
    } else {
        insert_sorted(sort_entries(s.drop_last()), s.last())
    }
}

/// Keeps the entries whose key, divided by `d`, is not `k`.
pub open spec fn outside(d: nat, k: nat) -> spec_fn(Entry) -> bool {
    |e: Entry| e.key / d != k
}

/// In a sorted `s`, the entries before `rank(s, k)` are below `k` and the one at
/// it is not.
pub proof fn lemma_rank(s: Seq<Entry>, k: nat)
    requires
        sorted(s),
    ensures
        rank(s, k) <= s.len(),
        forall|j: int| 0 <= j < rank(s, k) ==> #[trigger] s[j].key < k,
        rank(s, k) < s.len() ==> s[rank(s, k) as int].key >= k,
    decreases s.len(),
{
    if s.len() > 0 && s[0].key < k {
        let t = s.drop_first();
        assert(sorted(t)) by {
            assert forall|i: int, j: int| 0 <= i < j < t.len() implies t[i].key < t[j].key by {
                assert(t[i] == s[i + 1] && t[j] == s[j + 1]);
            }
        }
        lemma_rank(t, k);
        assert forall|j: int| 0 <= j < rank(s, k) implies #[trigger] s[j].key < k by {
            if j > 0 {
                assert(s[j] == t[j - 1]);
            }
        }
    }
}

/// Putting `e` in its place keeps `s` sorted, where `s` lacks its key.
pub proof fn lemma_insert_sorted(s: Seq<Entry>, e: Entry)
    requires
        sorted(s),
        !has_key(s, e.key),
    ensures
        sorted(insert_sorted(s, e)),
        insert_sorted(s, e).len() == s.len() + 1,
        forall|k: nat| has_key(insert_sorted(s, e), k) <==> (has_key(s, k) || k == e.key),
        forall|x: Entry| insert_sorted(s, e).contains(x) <==> (s.contains(x) || x == e),
{
    lemma_rank(s, e.key);
    let p = rank(s, e.key) as int;
    let t = insert_sorted(s, e);
    s.insert_ensures(p, e);
    if p < s.len() {
        assert(s[p].key != e.key);
    }
    assert forall|i: int, j: int| 0 <= i < j < t.len() implies #[trigger] t[i].key
        < #[trigger] t[j].key by {
        if j < p {
        } else if j == p {
        } else if i < p {
            assert(s[i].key < e.key);
        } else if i == p {
            assert(t[j] == s[j - 1]);
        } else {
            assert(t[i] == s[i - 1] && t[j] == s[j - 1]);
        }
    }
    assert forall|k: nat| has_key(t, k) <==> (has_key(s, k) || k == e.key) by {
        if has_key(t, k) {
            let i = choose|i: int| 0 <= i < t.len() && #[trigger] t[i].key == k;
            if i < p {
                assert(s[i].key == k);
            } else if i > p {
                assert(s[i - 1].key == k);
            }
        }
        if has_key(s, k) {
            let i = choose|i: int| 0 <= i < s.len() && #[trigger] s[i].key == k;
            if i < p {
                assert(t[i].key == k);
            } else {
                assert(t[i + 1].key == k);
            }
        }
        if k == e.key {
            assert(t[p].key == k);
        }
    }
    assert forall|x: Entry| t.contains(x) <==> (s.contains(x) || x == e) by {
        if t.contains(x) {
            let i = choose|i: int| 0 <= i < t.len() && t[i] == x;
            if i < p {
                assert(s[i] == x);
            } else if i > p {
                assert(s[i - 1] == x);
            }
        }
        if s.contains(x) {
            let i = choose|i: int| 0 <= i < s.len() && s[i] == x;
            if i < p {
                assert(t[i] == x);
            } else {
                assert(t[i + 1] == x);
            }
        }
        if x == e {
            assert(t[p] == x);
        }
    }
}

/// The index of the entry with key `k` in `v`, if there is one.
pub fn find_key<T: Keyed>(v: &Vec<T>, k: u32) -> (r: Option<usize>)
    ensures
        match r {
            Some(i) => i < v@.len() && entries(v@)[i as int].key == k,
            None => !has_key(entries(v@), k as nat),
        },
{
    let mut i: usize = 0;
    while i < v.len()
        invariant
            i <= v@.len(),
            forall|j: int| 0 <= j < i ==> entries(v@)[j].key != k,
        decreases v@.len() - i,
    {
        if v[i].key_of() == k {
            return Some(i);
        }
        i += 1;
    }
    None
}

/// Puts a copy of `x` in its place by key in the sorted `v`, which lacks its key.
pub fn insert_by_key<T: Keyed>(v: &mut Vec<T>, x: &T)
    requires
        sorted(entries(old(v)@)),
        !has_key(entries(old(v)@), x@.key),
    ensures
        entries(final(v)@) == insert_sorted(entries(old(v)@), x@),
{
    let ghost s = entries(v@);
    let k = x.key_of();
    proof {
        lemma_rank(s, k as nat);
    }
    let mut i: usize = 0;
    while i < v.len() && v[i].key_of() < k
        invariant
            i <= v@.len(),
            v@ == old(v)@,
            s == entries(v@),
            forall|j: int| 0 <= j < i ==> s[j].key < k,
        decreases v@.len() - i,
    {
        assert(s[i as int] == v@[i as int]@);
        i += 1;
    }
    proof {
        let r = rank(s, k as nat) as int;
        if r < i {
            assert(s[r].key < k);
        }
        if i < r {
            assert(s[i as int].key < k);
        }
        assert(i == r);
    }
    v.insert(i, x.duplicate());
    proof {
        assert(entries(v@) =~= insert_sorted(s, x@));
    }
}

/// Filtering one entry more adds it, where it meets the predicate.
pub proof fn lemma_filter_step(s: Seq<Entry>, p: spec_fn(Entry) -> bool, i: int)
    requires
        0 <= i < s.len(),
    ensures
        s.subrange(0, i + 1).filter(p) == if p(s[i]) {
            s.subrange(0, i).filter(p).push(s[i])
        } else {
            s.subrange(0, i).filter(p)
        },
{
    reveal(Seq::filter);
    assert(s.subrange(0, i + 1).drop_last() =~= s.subrange(0, i));
}

/// What a filter keeps comes from the sequence and meets the predicate.
pub proof fn lemma_filter_members(s: Seq<Entry>, p: spec_fn(Entry) -> bool)
    ensures
        forall|j: int|
            0 <= j < s.filter(p).len() ==> s.contains(#[trigger] s.filter(p)[j]) && p(
                s.filter(p)[j],
            ),
    decreases s.len(),
{
    reveal(Seq::filter);
    if s.len() > 0 {
        let t = s.drop_last();
        lemma_filter_members(t, p);
        let f = s.filter(p);
        assert forall|j: int| 0 <= j < f.len() implies s.contains(#[trigger] f[j]) && p(f[j]) by {
            if j < t.filter(p).len() {
                let x = t.filter(p)[j];
                assert(f[j] == x);
                let m = choose|m: int| 0 <= m < t.len() && t[m] == x;
                assert(s[m] == x);
            } else {
                assert(f[j] == s.last());
                assert(s[s.len() - 1] == f[j]);
            }
        }
    }
}

/// A filter keeps an entry of the sequence that meets the predicate.
pub proof fn lemma_filter_keeps(s: Seq<Entry>, p: spec_fn(Entry) -> bool, i: int)
    requires
        0 <= i < s.len(),
        p(s[i]),
    ensures
        s.filter(p).contains(s[i]),
{
    broadcast use Seq::lemma_filter_contains;

}

/// A filter of a sorted sequence is sorted.
pub proof fn lemma_filter_sorted(s: Seq<Entry>, p: spec_fn(Entry) -> bool)
    requires
        sorted(s),
    ensures
        sorted(s.filter(p)),
    decreases s.len(),
{
    reveal(Seq::filter);
    if s.len() > 0 {
        let t = s.drop_last();
        assert(sorted(t));
        lemma_filter_sorted(t, p);
        lemma_filter_members(t, p);
        let f = t.filter(p);
        assert forall|j: int| 0 <= j < f.len() implies #[trigger] f[j].key < s.last().key by {
            let m = choose|m: int| 0 <= m < t.len() && t[m] == f[j];
            assert(s[m] == f[j]);
        }
    }
}

/// Copies the entities of `v` whose key, divided by `d`, is not `k`.
pub fn retain_outside<T: Keyed>(v: &Vec<T>, d: u32, k: u32) -> (r: Vec<T>)
    requires
        d > 0,
    ensures
        entries(r@) == entries(v@).filter(outside(d as nat, k as nat)),
{
    let ghost s = entries(v@);
    let ghost p = outside(d as nat, k as nat);
    let mut r: Vec<T> = Vec::new();
    let mut i: usize = 0;
    while i < v.len()
        invariant
            i <= v@.len(),
            s == entries(v@),
            p == outside(d as nat, k as nat),
            d > 0,
            entries(r@) == s.subrange(0, i as int).filter(p),
        decreases v@.len() - i,
    {
        proof {
            lemma_filter_step(s, p, i as int);
        }
        assert(s[i as int] == v@[i as int]@);
        if v[i].key_of() / d != k {
            let x = v[i].duplicate();
            r.push(x);
            proof {
                assert(entries(r@) =~= s.subrange(0, i as int).filter(p).push(s[i as int]));
            }
        }
        i += 1;
    }
    proof {
        assert(s.subrange(0, s.len() as int) =~= s);
    }
    r
}

/// Every entry of `children` has a parent in `parents`: an entry whose key is its
/// own divided by `d`.
pub open spec fn parented(children: Seq<Entry>, parents: Seq<Entry>, d: nat) -> bool {
    forall|i: int| 0 <= i < children.len() ==> has_key(parents, #[trigger] children[i].key / d)
}

/// Whether every entity of `children` has a parent in `parents`.
pub fn all_parented<T: Keyed, P: Keyed>(children: &Vec<T>, parents: &Vec<P>, d: u32) -> (r: bool)
    requires
        d > 0,
    ensures
        r == parented(entries(children@), entries(parents@), d as nat),
{
    let mut i: usize = 0;
    while i < children.len()
        invariant
            i <= children@.len(),
            d > 0,
            forall|j: int|
                0 <= j < i ==> has_key(entries(parents@), #[trigger] entries(children@)[j].key / d as nat),
        decreases children@.len() - i,
    {
        assert(entries(children@)[i as int] == children@[i as int]@);
        if find_key(parents, children[i].key_of() / d).is_none() {
            return false;
        }
        i += 1;
    }
    true
}

/// Copies the entities of `v` into key order, unless two of them share a key.
pub fn sort_unique<T: Keyed>(v: &Vec<T>) -> (r: Option<Vec<T>>)
    ensures
        r is Some <==> unique_keys(entries(v@)),
        r is Some ==> {
            let t = entries(r->Some_0@);
            &&& t == sort_entries(entries(v@))
            &&& sorted(t)
            &&& forall|k: nat| has_key(t, k) <==> has_key(entries(v@), k)
            &&& forall|x: Entry| t.contains(x) <==> entries(v@).contains(x)
        },
{
    let ghost s = entries(v@);
    let mut acc: Vec<T> = Vec::new();
    let mut i: usize = 0;
    proof {
        assert(entries(acc@) =~= Seq::<Entry>::empty());
        assert(s.subrange(0, 0) =~= Seq::<Entry>::empty());
    }
    while i < v.len()
        invariant
            i <= v@.len(),
            s == entries(v@),
            entries(acc@) == sort_entries(s.subrange(0, i as int)),
            sorted(entries(acc@)),
            unique_keys(s.subrange(0, i as int)),
            forall|k: nat| has_key(entries(acc@), k) <==> has_key(s.subrange(0, i as int), k),
            forall|x: Entry| entries(acc@).contains(x) <==> s.subrange(0, i as int).contains(x),
        decreases v@.len() - i,
    {
        let ghost pre = s.subrange(0, i as int);
        let ghost next = s.subrange(0, i as int + 1);
        assert(s[i as int] == v@[i as int]@);
        assert(next.drop_last() =~= pre);
        assert(next.last() == s[i as int]);
        let found = find_key(&acc, v[i].key_of());
        if found.is_some() {
            proof {
                let t = entries(acc@);
                let idx = found->Some_0 as int;
                assert(t[idx].key == s[i as int].key);
                assert(has_key(t, s[i as int].key));
                assert(has_key(pre, s[i as int].key));
                let j = choose|j: int| 0 <= j < pre.len() && #[trigger] pre[j].key == s[i as int].key;
                assert(s[j] == pre[j]);
                assert(s[j].key == s[i as int].key);
            }
            return None;
        }
        proof {
            lemma_insert_sorted(entries(acc@), s[i as int]);
            assert forall|a: int, b: int|
                0 <= a < next.len() && 0 <= b < next.len() && a != b implies #[trigger] next[a].key
                != #[trigger] next[b].key by {
                if a < i && b < i {
                    assert(next[a] == pre[a] && next[b] == pre[b]);
                } else if a < i {
                    assert(next[a] == pre[a]);
                    assert(has_key(pre, next[a].key));
                } else if b < i {
                    assert(next[b] == pre[b]);
                    assert(has_key(pre, next[b].key));
                }
            }
            assert forall|k: nat| has_key(next, k) <==> (has_key(pre, k) || k == s[i as int].key) by {
                if has_key(next, k) {
                    let j = choose|j: int| 0 <= j < next.len() && #[trigger] next[j].key == k;
                    if j < i {
                        assert(pre[j] == next[j]);
                    }
                }
                if has_key(pre, k) {
                    let j = choose|j: int| 0 <= j < pre.len() && #[trigger] pre[j].key == k;
                    assert(next[j] == pre[j]);
                }
                if k == s[i as int].key {
                    assert(next[i as int].key == k);
                }
            }
            assert forall|x: Entry| next.contains(x) <==> (pre.contains(x) || x == s[i as int]) by {
                if next.contains(x) {
                    let j = choose|j: int| 0 <= j < next.len() && next[j] == x;
                    if j < i {
                        assert(pre[j] == x);
                    }
                }
                if pre.contains(x) {
                    let j = choose|j: int| 0 <= j < pre.len() && pre[j] == x;
                    assert(next[j] == x);
                }
                if x == s[i as int] {
                    assert(next[i as int] == x);
                }
            }
        }
        let ghost before = entries(acc@);
        insert_by_key(&mut acc, &v[i]);
        proof {
            let t = entries(acc@);
            assert(t == insert_sorted(before, s[i as int]));
            assert forall|x: Entry| t.contains(x) <==> next.contains(x) by {
                assert(t.contains(x) <==> (before.contains(x) || x == s[i as int]));
            }
            assert forall|k: nat| has_key(t, k) <==> has_key(next, k) by {
                assert(has_key(t, k) <==> (has_key(before, k) || k == s[i as int].key));
            }
        }
        i += 1;
    }
    proof {
        assert(s.subrange(0, s.len() as int) =~= s);
    }
    Some(acc)
}

/// `s` and `t` hold the same keys in the same order.
pub open spec fn same_keys(s: Seq<Entry>, t: Seq<Entry>) -> bool {
    s.len() == t.len() && forall|i: int| 0 <= i < s.len() ==> #[trigger] s[i].key == t[i].key
}

/// Whether `a` and `b` hold the same keys in the same order.
pub fn keys_match<T: Keyed>(a: &Vec<T>, b: &Vec<T>) -> (r: bool)
    ensures
        r == same_keys(entries(a@), entries(b@)),
{
    if a.len() != b.len() {
        return false;
    }
    let mut i: usize = 0;
    while i < a.len()
        invariant
            i <= a@.len(),
            a@.len() == b@.len(),
            forall|j: int| 0 <= j < i ==> #[trigger] entries(a@)[j].key == entries(b@)[j].key,
        decreases a@.len() - i,
    {
        assert(entries(a@)[i as int] == a@[i as int]@ && entries(b@)[i as int] == b@[i as int]@);
        if a[i].key_of() != b[i].key_of() {
            return false;
        }
        i += 1;
    }
    true
}

/// The entries of `s` written one per line, as `<code> <title>`.
pub open spec fn lines_text(s: Seq<Entry>) -> Seq<char>
    decreases s.len(),
{
    if s.len() == 0 {
        Seq::empty()
    } else {
        lines_text(s.drop_last()) + dir_name(s.last()) + seq!['\n']
    }
}

/// Appends the entities of `v` to `out`, one per line.
pub fn write_lines<T: Keyed>(out: &mut String, v: &Vec<T>)
    ensures
        final(out)@ == old(out)@ + lines_text(entries(v@)),
        forall|i: int| 0 <= i < v@.len() ==> T::reads_back(#[trigger] entries(v@)[i]),
{
    let ghost start = out@;
    let ghost s = entries(v@);
    let mut i: usize = 0;
    proof {
        assert(s.subrange(0, 0) =~= Seq::<Entry>::empty());
        assert(out@ =~= start + lines_text(s.subrange(0, 0)));
    }
    while i < v.len()
        invariant
            i <= v@.len(),
            s == entries(v@),
            out@ == start + lines_text(s.subrange(0, i as int)),
            forall|j: int| 0 <= j < i ==> T::reads_back(#[trigger] s[j]),
        decreases v@.len() - i,
    {
        let line = v[i].dir_name();
        assert(s[i as int] == v@[i as int]@);
        out.append(line.as_str());
        out.append("\n");
        proof {
            reveal_strlit("\n");
            let next = s.subrange(0, i as int + 1);
            assert(next.drop_last() =~= s.subrange(0, i as int));
            assert(next.last() == v@[i as int]@);
            assert(out@ =~= start + lines_text(next));
        }
        i += 1;
    }
    proof {
        assert(s.subrange(0, s.len() as int) =~= s);
    }
}

} // verus!
