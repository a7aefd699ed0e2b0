use vstd::prelude::*;

verus! {

broadcast use vstd::seq_lib::group_to_multiset_ensures;

/// Makes an entity load the chunks around it: those within `radius`, keeping them until
/// they are more than `radius + tolerence` away.
#[derive(Clone, Copy, Debug, PartialEq, Eq, Structural)]
pub struct ChunkLoadingComponent {
    pub radius: i32,
    pub tolerence: i32,
}

impl ChunkLoadingComponent {
    /// A loader of the given positive radius, with the default tolerance of two chunks.
    pub fn new(radius: i32) -> (r: Self)
        requires
            radius > 0,
        ensures
            r.radius == radius,
            r.tolerence == 2,
    {
        ChunkLoadingComponent { radius, tolerence: 2 }
    }
}

/// The key that `f` gives `x`.
pub open spec fn key_of<T, F: Fn(&T) -> i64>(f: F, x: &T) -> i64 {
    choose|k: i64| f.ensures((x,), k)
}

/// `s[lo..hi]` is in non-decreasing order of key.
pub open spec fn sorted_by_key<T, F: Fn(&T) -> i64>(f: F, s: Seq<T>, lo: int, hi: int) -> bool {
    forall|a: int, b: int| lo <= a < b < hi ==> key_of(f, &s[a]) <= key_of(f, &s[b])
}

/// `f` can be called on any item and always gives it the same key.
pub open spec fn is_key_function<T, F: Fn(&T) -> i64>(f: F) -> bool {
    &&& forall|x: &T| #[trigger] f.requires((x,))
    &&& forall|x: &T, a: i64, b: i64| f.ensures((x,), a) && f.ensures((x,), b) ==> a == b
}

/// Whether an item's key is `k`.
pub open spec fn has_key<T, F: Fn(&T) -> i64>(f: F, k: i64) -> spec_fn(T) -> bool {
    |y: T| key_of(f, &y) == k
}

/// Moving an item earlier, past items that the predicate rejects whenever it accepts the
/// moved one, keeps the subsequence of accepted items.
proof fn lemma_move_keeps_filter<T>(s: Seq<T>, i: int, j: int, p: spec_fn(T) -> bool)
    requires
        0 <= j <= i < s.len(),
        p(s[i]) ==> forall|t: int| j <= t < i ==> !p(#[trigger] s[t]),
    ensures
        s.remove(i).insert(j, s[i]).filter(p) == s.filter(p),
{
    let a = s.subrange(0, j);
    let b = s.subrange(j, i);
    let x = seq![s[i]];
    let c = s.subrange(i + 1, s.len() as int);
    assert(s =~= a + b + x + c);
    assert(s.remove(i).insert(j, s[i]) =~= a + x + b + c);
    Seq::filter_distributes_over_add(a + b + x, c, p);
    Seq::filter_distributes_over_add(a + b, x, p);
    Seq::filter_distributes_over_add(a, b, p);
    Seq::filter_distributes_over_add(a + x + b, c, p);
    Seq::filter_distributes_over_add(a + x, b, p);
    Seq::filter_distributes_over_add(a, x, p);
    if p(s[i]) {
        assert(b.all(|y: T| !p(y))) by {
            assert forall|t: int| 0 <= t < b.len() implies !p(b[t]) by {
                assert(b[t] == s[j + t]);
            }
        }
        b.lemma_all_neg_filter_empty(p);
        assert(b.filter(p) =~= Seq::<T>::empty());
    } else {
        assert(x.all(|y: T| !p(y)));
        x.lemma_all_neg_filter_empty(p);
        assert(x.filter(p) =~= Seq::<T>::empty());
    }
}

fn key<T, F: Fn(&T) -> i64>(f: &F, x: &T) -> (k: i64)
    requires
        is_key_function::<T, F>(*f),
    ensures
        k == key_of(*f, x),
{
    let k = f(x);
    k
}

/// Sorts `data` by the key that `f` gives each item; items of equal key keep their order.
pub fn insertion_sort_by_key<T, F: Fn(&T) -> i64>(data: &mut Vec<T>, f: F)
    requires
        is_key_function::<T, F>(f),
    ensures
        final(data)@.to_multiset() == old(data)@.to_multiset(),
        sorted_by_key(f, final(data)@, 0, final(data)@.len() as int),
        forall|k: i64| #[trigger] final(data)@.filter(has_key(f, k)) == old(data)@.filter(has_key(f, k)),
{
    let n = data.len();
    if n == 0 {
        return;
    }
    let mut i: usize = 1;
    while i < n
        invariant
            1 <= i <= n,
            data@.len() == n,
            is_key_function::<T, F>(f),
            data@.to_multiset() == old(data)@.to_multiset(),
            sorted_by_key(f, data@, 0, i as int),
            forall|k: i64| #[trigger] data@.filter(has_key(f, k)) == old(data)@.filter(has_key(f, k)),
        decreases n - i,
    {
        let ghost before = data@;
        let x = data.remove(i);
        assert(data@ == before.remove(i as int));
        let kx = key(&f, &x);
        let mut j: usize = i;
        while j > 0 && key(&f, &data[j - 1]) > kx
            invariant
                j <= i,
                i < n,
                data@.len() == n - 1,
                data@ == before.remove(i as int),
                is_key_function::<T, F>(f),
                kx == key_of(f, &x),
                sorted_by_key(f, before, 0, i as int),
                forall|t: int| j <= t < i ==> key_of(f, &data@[t]) > kx,
            decreases j,
        {
            j = j - 1;
        }
        let ghost removed = data@;
        data.insert(j, x);
        proof {
            assert(data@ == removed.insert(j as int, x));
            assert forall|t: int| 0 <= t < i implies removed[t] == before[t] by {}
            assert forall|a: int, b: int| 0 <= a < b < i + 1 implies
                key_of(f, &data@[a]) <= key_of(f, &data@[b]) by {
                if b < j {
                    assert(data@[a] == before[a] && data@[b] == before[b]);
                } else if b == j {
                    assert(data@[b] == x);
                    assert(data@[a] == before[a]);
                    if a < j - 1 {
                        assert(key_of(f, &before[a]) <= key_of(f, &before[j - 1]));
                    }
                } else if a < j {
                    assert(data@[b] == removed[b - 1]);
                    assert(data@[a] == before[a]);
                } else if a == j {
                    assert(data@[a] == x);
                    assert(data@[b] == removed[b - 1]);
                } else {
                    assert(data@[a] == removed[a - 1] && data@[b] == removed[b - 1]);
                    assert(removed[a - 1] == before[a - 1] && removed[b - 1] == before[b - 1]);
                }
            }
            assert(x == before[i as int]);
            assert forall|k: i64| #[trigger] data@.filter(has_key(f, k)) == before.filter(has_key(f, k)) by {
                let p = has_key(f, k);
                assert forall|t: int| j <= t < i implies !p(#[trigger] before[t]) || !p(before[i as int]) by {
                    assert(removed[t] == before[t]);
                }
                lemma_move_keeps_filter(before, i as int, j as int, p);
            }
        }
        i = i + 1;
    }
}

} // verus!
