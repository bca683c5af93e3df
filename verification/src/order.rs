//! Strictly ascending vectors: the common shape of every sorted, duplicate-free
//! list in the library, with the sort that makes one and the search within one.

use vstd::prelude::*;

verus! {

/// A value ordered by an integer rank that tells all values apart.
pub trait Ranked: Sized {
    /// The place of the value in the order.
    spec fn rank(self) -> int;

    /// No two values share a rank.
    proof fn rank_is_injective(a: Self, b: Self)
        requires
            a.rank() == b.rank(),
        ensures
            a == b,
    ;

    /// Whether `self` comes strictly before `other`.
    fn before(&self, other: &Self) -> (b: bool)
        ensures
            b == (self.rank() < other.rank()),
    ;
}

impl Ranked for u32 {
    open spec fn rank(self) -> int {
        self as int
    }

    proof fn rank_is_injective(a: Self, b: Self) {
    }

    fn before(&self, other: &Self) -> (b: bool) {
        *self < *other
    }
}

impl Ranked for usize {
    open spec fn rank(self) -> int {
        self as int
    }

    proof fn rank_is_injective(a: Self, b: Self) {
    }

    fn before(&self, other: &Self) -> (b: bool) {
        *self < *other
    }
}

impl Ranked for (u32, u32) {
    open spec fn rank(self) -> int {
        self.0 * 0x1_0000_0000 + self.1
    }

    proof fn rank_is_injective(a: Self, b: Self) {
    }

    fn before(&self, other: &Self) -> (b: bool) {
        self.0 < other.0 || (self.0 == other.0 && self.1 < other.1)
    }
}

impl Ranked for (usize, usize) {
    open spec fn rank(self) -> int {
        self.0 * 0x1_0000_0000_0000_0000 + self.1
    }

    proof fn rank_is_injective(a: Self, b: Self) {
    }

    fn before(&self, other: &Self) -> (b: bool) {
        self.0 < other.0 || (self.0 == other.0 && self.1 < other.1)
    }
}

impl Ranked for (u32, u32, u32) {
    open spec fn rank(self) -> int {
        self.0 * 0x1_0000_0000_0000_0000 + self.1 * 0x1_0000_0000 + self.2
    }

    proof fn rank_is_injective(a: Self, b: Self) {
    }

    fn before(&self, other: &Self) -> (b: bool) {
        self.0 < other.0 || (self.0 == other.0 && (self.1 < other.1 || (self.1 == other.1 && self.2
            < other.2)))
    }
}

/// Every element comes strictly before all later ones.
pub open spec fn ascending<T: Ranked>(s: Seq<T>) -> bool {
    forall|i: int, j: int| 0 <= i < j < s.len() ==> (#[trigger] s[i]).rank() < (#[trigger] s[j]).rank()
}

/// `s` is the ascending list of the elements of `set`.
pub open spec fn lists<T: Ranked>(s: Seq<T>, set: Set<T>) -> bool {
    &&& ascending(s)
    &&& forall|x: T| #[trigger] set.contains(x) <==> s.contains(x)
}

/// A list of numbers or of pairs of numbers has each element of its set once, the smaller
/// before the greater; pairs go by their first numbers, and by the second where these agree.
pub proof fn law_lists_are_in_order(a: Seq<u32>, x: Set<u32>, b: Seq<(u32, u32)>, y: Set<(u32, u32)>)
    requires
        lists(a, x),
        lists(b, y),
    ensures
        forall|v: u32| #[trigger] x.contains(v) <==> a.contains(v),
        forall|i: int, j: int| 0 <= i < j < a.len() ==> #[trigger] a[i] < #[trigger] a[j],
        forall|v: (u32, u32)| #[trigger] y.contains(v) <==> b.contains(v),
        forall|i: int, j: int| 0 <= i < j < b.len() ==> (#[trigger] b[i]).0 < (#[trigger] b[j]).0 || (b[i].0 == b[j].0 && b[i].1 < b[j].1),
{
    assert forall|i: int, j: int| 0 <= i < j < a.len() implies #[trigger] a[i] < #[trigger] a[j] by {
        assert(a[i].rank() < a[j].rank());
    }
    assert forall|i: int, j: int| 0 <= i < j < b.len() implies (#[trigger] b[i]).0 < (#[trigger] b[j]).0 || (b[i].0 == b[j].0 && b[i].1 < b[j].1) by {
        assert(b[i].rank() < b[j].rank());
    }
}

/// Two ascending sequences with the same elements are the same sequence.
pub proof fn lemma_ascending_unique<T: Ranked>(a: Seq<T>, b: Seq<T>)
    requires
        ascending(a),
        ascending(b),
        forall|x: T| #[trigger] a.contains(x) <==> b.contains(x),
    ensures
        a == b,
    decreases a.len(),
{
    if a.len() == 0 {
        if b.len() > 0 {
            assert(b.contains(b[0]));
            assert(a.contains(b[0]));
        }
        assert(a =~= b);
    } else {
        let x = a.last();
        assert(a.contains(x)) by {
            assert(a[a.len() - 1] == x);
        }
        assert(b.contains(x));
        let k = choose|k: int| 0 <= k < b.len() && b[k] == x;
        let y = b.last();
        assert(b.contains(y)) by {
            assert(b[b.len() - 1] == y);
        }
        assert(a.contains(y));
        let l = choose|l: int| 0 <= l < a.len() && a[l] == y;
        assert(k == b.len() - 1) by {
            if k < b.len() - 1 {
                assert(b[k].rank() < b[b.len() - 1].rank());
                if l < a.len() - 1 {
                    assert(a[l].rank() < a[a.len() - 1].rank());
                }
            }
        }
        assert(b[b.len() - 1] == x && a[a.len() - 1] == x);
        let a2 = a.drop_last();
        let b2 = b.drop_last();
        assert forall|z: T| #[trigger] a2.contains(z) <==> b2.contains(z) by {
            if a2.contains(z) {
                let i = choose|i: int| 0 <= i < a2.len() && a2[i] == z;
                assert(a[i] == z);
                assert(a.contains(z));
                assert(a[i].rank() < a[a.len() - 1].rank());
                let j = choose|j: int| 0 <= j < b.len() && b[j] == z;
                assert(z != x);
                assert(b2[j] == z);
            }
            if b2.contains(z) {
                let i = choose|i: int| 0 <= i < b2.len() && b2[i] == z;
                assert(b[i] == z);
                assert(b.contains(z));
                assert(a.contains(z));
                assert(b[i].rank() < b[b.len() - 1].rank());
                let j = choose|j: int| 0 <= j < a.len() && a[j] == z;
                assert(z != x);
                assert(a2[j] == z);
            }
        }
        lemma_ascending_unique(a2, b2);
        assert(a =~= a2.push(x));
        assert(b =~= b2.push(x));
    }
}

/// The list of a set is determined by the set, and as long as the set is large.
pub proof fn lemma_lists_len<T: Ranked>(s: Seq<T>, set: Set<T>)
    requires
        lists(s, set),
    ensures
        set.finite(),
        set.len() == s.len(),
{
    assert(s.no_duplicates());
    assert(s.to_set() =~= set);
    s.unique_seq_to_set();
    vstd::seq_lib::seq_to_set_is_finite(s);
}

/// A copy of a vector, element by element.
pub fn copied<T: Copy>(v: &Vec<T>) -> (r: Vec<T>)
    ensures
        r@ == v@,
{
    let mut r: Vec<T> = Vec::new();
    let mut i: usize = 0;
    while i < v.len()
        invariant
            i <= v.len(),
            r@ == v@.subrange(0, i as int),
        decreases v.len() - i,
    {
        r.push(v[i]);
        i = i + 1;
        assert(r@ =~= v@.subrange(0, i as int));
    }
    assert(r@ =~= v@);
    r
}

/// Merge two ascending vectors into one, keeping a common element once.
fn merge<T: Ranked + Copy>(a: &Vec<T>, b: &Vec<T>) -> (r: Vec<T>)
    requires
        ascending(a@),
        ascending(b@),
    ensures
        ascending(r@),
        forall|x: T| #[trigger] r@.contains(x) <==> a@.contains(x) || b@.contains(x),
{
    let mut r: Vec<T> = Vec::new();
    let mut i: usize = 0;
    let mut j: usize = 0;
    while i < a.len() || j < b.len()
        invariant
            i <= a.len(),
            j <= b.len(),
            ascending(a@),
            ascending(b@),
            ascending(r@),
            forall|k: int, l: int| 0 <= k < r.len() && i <= l < a.len() ==> (#[trigger] r@[k]).rank() < (#[trigger] a@[l]).rank(),
            forall|k: int, l: int| 0 <= k < r.len() && j <= l < b.len() ==> (#[trigger] r@[k]).rank() < (#[trigger] b@[l]).rank(),
            forall|k: int| 0 <= k < r.len() ==> a@.contains(#[trigger] r@[k]) || b@.contains(r@[k]),
            forall|k: int| 0 <= k < i ==> r@.contains(#[trigger] a@[k]),
            forall|k: int| 0 <= k < j ==> r@.contains(#[trigger] b@[k]),
        decreases a.len() - i + b.len() - j,
    {
        let ghost r0 = r@;
        let take_a: bool = i < a.len() && (j >= b.len() || !b[j].before(&a[i]));
        let take_b: bool = j < b.len() && (i >= a.len() || !a[i].before(&b[j]));
        let x: T = if take_a { a[i] } else { b[j] };
        r.push(x);
        proof {
            if take_a && take_b {
                T::rank_is_injective(a@[i as int], b@[j as int]);
            }
            assert(r@[r0.len() as int] == x);
            assert forall|k: int| 0 <= k < i implies r@.contains(#[trigger] a@[k]) by {
                let m = choose|m: int| 0 <= m < r0.len() && r0[m] == a@[k];
                assert(r@[m] == a@[k]);
            }
            assert forall|k: int| 0 <= k < j implies r@.contains(#[trigger] b@[k]) by {
                let m = choose|m: int| 0 <= m < r0.len() && r0[m] == b@[k];
                assert(r@[m] == b@[k]);
            }
            assert(r@.contains(x));
        }
        if take_a {
            i = i + 1;
        }
        if take_b {
            j = j + 1;
        }
    }
    r
}

fn sort_range<T: Ranked + Copy>(v: &Vec<T>, lo: usize, hi: usize) -> (r: Vec<T>)
    requires
        lo <= hi <= v.len(),
    ensures
        ascending(r@),
        forall|x: T| #[trigger] r@.contains(x) <==> v@.subrange(lo as int, hi as int).contains(x),
    decreases hi - lo,
{
    let ghost part = v@.subrange(lo as int, hi as int);
    if lo == hi {
        let r: Vec<T> = Vec::new();
        assert(r@ =~= part);
        r
    } else if hi - lo == 1 {
        let mut r: Vec<T> = Vec::new();
        r.push(v[lo]);
        assert(r@ =~= part);
        r
    } else {
        let mid: usize = lo + (hi - lo) / 2;
        let left: Vec<T> = sort_range(v, lo, mid);
        let right: Vec<T> = sort_range(v, mid, hi);
        let r: Vec<T> = merge(&left, &right);
        proof {
            let pl = v@.subrange(lo as int, mid as int);
            let pr = v@.subrange(mid as int, hi as int);
            assert(part =~= pl + pr);
            assert forall|x: T| #[trigger] r@.contains(x) <==> part.contains(x) by {
                if pl.contains(x) {
                    let k = choose|k: int| 0 <= k < pl.len() && pl[k] == x;
                    assert(part[k] == x);
                }
                if pr.contains(x) {
                    let k = choose|k: int| 0 <= k < pr.len() && pr[k] == x;
                    assert(part[k + pl.len()] == x);
                }
                if part.contains(x) {
                    let k = choose|k: int| 0 <= k < part.len() && part[k] == x;
                    if k < pl.len() {
                        assert(pl[k] == x);
                    } else {
                        assert(pr[k - pl.len()] == x);
                    }
                }
            }
        }
        r
    }
}

/// Sort a vector and drop duplicates: the ascending list of its elements.
pub fn sort_dedup<T: Ranked + Copy>(v: &Vec<T>) -> (r: Vec<T>)
    ensures
        lists(r@, v@.to_set()),
        forall|x: T| #[trigger] r@.contains(x) <==> v@.contains(x),
{
    let r: Vec<T> = sort_range(v, 0, v.len());
    assert(v@.subrange(0, v.len() as int) =~= v@);
    r
}

/// The number of elements that come before `x`, which is the place of `x`.
pub fn lower_bound<T: Ranked>(v: &Vec<T>, x: &T) -> (r: usize)
    requires
        ascending(v@),
    ensures
        r <= v.len(),
        forall|i: int| 0 <= i < r ==> (#[trigger] v@[i]).rank() < x.rank(),
        forall|i: int| r <= i < v.len() ==> (#[trigger] v@[i]).rank() >= x.rank(),
{
    let mut lo: usize = 0;
    let mut hi: usize = v.len();
    while lo < hi
        invariant
            lo <= hi <= v.len(),
            ascending(v@),
            forall|i: int| 0 <= i < lo ==> (#[trigger] v@[i]).rank() < x.rank(),
            forall|i: int| hi <= i < v.len() ==> (#[trigger] v@[i]).rank() >= x.rank(),
        decreases hi - lo,
    {
        let mid: usize = lo + (hi - lo) / 2;
        if v[mid].before(x) {
            lo = mid + 1;
        } else {
            hi = mid;
        }
    }
    lo
}

/// Whether an ascending vector holds `x`.
pub fn holds<T: Ranked>(v: &Vec<T>, x: &T) -> (b: bool)
    requires
        ascending(v@),
    ensures
        b == v@.contains(*x),
{
    let i: usize = lower_bound(v, x);
    if i < v.len() && !x.before(&v[i]) {
        proof {
            T::rank_is_injective(v@[i as int], *x);
        }
        true
    } else {
        false
    }
}

/// Put `x` into its place. Returns whether it was new.
pub fn insert_sorted<T: Ranked>(v: &mut Vec<T>, x: T) -> (added: bool)
    requires
        ascending(old(v)@),
    ensures
        ascending(final(v)@),
        added == !old(v)@.contains(x),
        forall|y: T| #[trigger] final(v)@.contains(y) <==> old(v)@.contains(y) || y == x,
{
    let i: usize = lower_bound(v, &x);
    if i < v.len() && !x.before(&v[i]) {
        proof {
            T::rank_is_injective(v@[i as int], x);
        }
        return false;
    }
    let ghost v0 = v@;
    v.insert(i, x);
    proof {
        assert(v@[i as int] == x);
        assert forall|y: T| #[trigger] v@.contains(y) <==> v0.contains(y) || y == x by {
            if v@.contains(y) {
                let k = choose|k: int| 0 <= k < v@.len() && v@[k] == y;
                if k < i {
                    assert(v0[k] == y);
                } else if k > i {
                    assert(v0[k - 1] == y);
                }
            }
            if v0.contains(y) {
                let k = choose|k: int| 0 <= k < v0.len() && v0[k] == y;
                if k < i {
                    assert(v@[k] == y);
                } else {
                    assert(v@[k + 1] == y);
                }
            }
        }
        assert(!v0.contains(x));
    }
    true
}

/// Take `x` out. Returns whether it was there.
pub fn remove_sorted<T: Ranked>(v: &mut Vec<T>, x: T) -> (removed: bool)
    requires
        ascending(old(v)@),
    ensures
        ascending(final(v)@),
        removed == old(v)@.contains(x),
        forall|y: T| #[trigger] final(v)@.contains(y) <==> old(v)@.contains(y) && y != x,
{
    let i: usize = lower_bound(v, &x);
    if i < v.len() && !x.before(&v[i]) {
        let ghost v0 = v@;
        proof {
            T::rank_is_injective(v@[i as int], x);
        }
        v.remove(i);
        proof {
            assert forall|y: T| #[trigger] v@.contains(y) <==> v0.contains(y) && y != x by {
                if v@.contains(y) {
                    let k = choose|k: int| 0 <= k < v@.len() && v@[k] == y;
                    if k < i {
                        assert(v0[k] == y);
                    } else {
                        assert(v0[k + 1] == y);
                    }
                }
                if v0.contains(y) && y != x {
                    let k = choose|k: int| 0 <= k < v0.len() && v0[k] == y;
                    if k < i {
                        assert(v@[k] == y);
                    } else {
                        assert(v@[k - 1] == y);
                    }
                }
            }
        }
        true
    } else {
        assert(!v@.contains(x));
        false
    }
}

} // verus!
