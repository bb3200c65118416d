//! A finite set of keys, held as a strictly increasing vector.
//!
//! Two sets with the same members hold the same vector, so the listing of a
//! set is a function of its members alone.

use vstd::prelude::*;

verus! {

/// A key that an [`OrderedSet`] can hold. Keys are ordered by `rank`, and two
/// keys of equal rank are the same key.
pub trait SetKey: Copy {
    /// The position of the key in the total order of its type.
    spec fn rank(self) -> int;

    /// Distinct keys have distinct ranks.
    proof fn rank_injective(a: Self, b: Self)
        requires
            a.rank() == b.rank(),
        ensures
            a == b,
    ;

    /// Whether `self` comes strictly before `other`.
    fn precedes(&self, other: &Self) -> (r: bool)
        ensures
            r == (self.rank() < other.rank()),
    ;
}

impl SetKey for u64 {
    open spec fn rank(self) -> int {
        self as int
    }

    proof fn rank_injective(a: u64, b: u64) {
    }

    fn precedes(&self, other: &u64) -> (r: bool) {
        *self < *other
    }
}

impl SetKey for u32 {
    open spec fn rank(self) -> int {
        self as int
    }

    proof fn rank_injective(a: u32, b: u32) {
    }

    fn precedes(&self, other: &u32) -> (r: bool) {
        *self < *other
    }
}

/// Every element of `s` ranks strictly below each element after it.
pub open spec fn strictly_increasing<K: SetKey>(s: Seq<K>) -> bool {
    forall|i: int, j: int| 0 <= i < j < s.len() ==> (#[trigger] s[i]).rank() < (#[trigger] s[j]).rank()
}

/// A strictly increasing sequence lists each member of its set exactly once.
pub proof fn lemma_increasing_lists_once<K: SetKey>(s: Seq<K>)
    requires
        strictly_increasing(s),
    ensures
        s.no_duplicates(),
        s.to_set().finite(),
        s.to_set().len() == s.len(),
{
    assert forall|i: int, j: int| 0 <= i < s.len() && 0 <= j < s.len() && i != j implies s[i]
        != s[j] by {
        if i < j {
            assert(s[i].rank() < s[j].rank());
        } else {
            assert(s[j].rank() < s[i].rank());
        }
    }
    s.unique_seq_to_set();
    vstd::seq_lib::seq_to_set_is_finite(s);
}

/// Two strictly increasing sequences with the same members are the same
/// sequence.
pub proof fn lemma_increasing_is_canonical<K: SetKey>(a: Seq<K>, b: Seq<K>)
    requires
        strictly_increasing(a),
        strictly_increasing(b),
        a.to_set() == b.to_set(),
    ensures
        a == b,
    decreases a.len(),
{
    lemma_increasing_lists_once(a);
    lemma_increasing_lists_once(b);
    if a.len() == 0 {
        assert(a =~= b);
    } else {
        let n = a.len() - 1;
        let x = a[n];
        let y = b[n];
        assert(a.contains(x));
        assert(b.to_set().contains(x));
        assert(b.contains(x));
        let k = choose|k: int| 0 <= k < b.len() && b[k] == x;
        assert(b.contains(y));
        assert(a.to_set().contains(y));
        assert(a.contains(y));
        let m = choose|m: int| 0 <= m < a.len() && a[m] == y;
        // x is the greatest of a and y the greatest of b, so they are one key
        if k < n {
            assert(b[k].rank() < b[n].rank());
        }
        if m < n {
            assert(a[m].rank() < a[n].rank());
        }
        K::rank_injective(x, y);
        let a0 = a.drop_last();
        let b0 = b.drop_last();
        assert(strictly_increasing(a0)) by {
            assert forall|i: int, j: int| 0 <= i < j < a0.len() implies (#[trigger] a0[i]).rank()
                < (#[trigger] a0[j]).rank() by {
                assert(a[i].rank() < a[j].rank());
            }
        }
        assert(strictly_increasing(b0)) by {
            assert forall|i: int, j: int| 0 <= i < j < b0.len() implies (#[trigger] b0[i]).rank()
                < (#[trigger] b0[j]).rank() by {
                assert(b[i].rank() < b[j].rank());
            }
        }
        assert(a0.to_set() =~= b0.to_set()) by {
            assert forall|e: K| a0.to_set().contains(e) == b0.to_set().contains(e) by {
                if a0.contains(e) {
                    let i = choose|i: int| 0 <= i < a0.len() && a0[i] == e;
                    assert(a[i] == e);
                    assert(a[i].rank() < a[n].rank());
                    assert(a.contains(e));
                    assert(b.to_set().contains(e));
                    assert(b.contains(e));
                    let j = choose|j: int| 0 <= j < b.len() && b[j] == e;
                    assert(j != n);
                    assert(b0[j] == e);
                    assert(b0.contains(e));
                }
                if b0.contains(e) {
                    let i = choose|i: int| 0 <= i < b0.len() && b0[i] == e;
                    assert(b[i] == e);
                    assert(b[i].rank() < b[n].rank());
                    assert(b.contains(e));
                    assert(a.to_set().contains(e));
                    assert(a.contains(e));
                    let j = choose|j: int| 0 <= j < a.len() && a[j] == e;
                    assert(j != n);
                    assert(a0[j] == e);
                    assert(a0.contains(e));
                }
            }
        }
        lemma_increasing_is_canonical(a0, b0);
        assert(a =~= a0.push(x));
        assert(b =~= b0.push(y));
    }
}

/// The first index of `items` whose key does not rank below `key`.
pub(crate) fn lower_bound<K: SetKey>(items: &Vec<K>, key: &K) -> (pos: usize)
    requires
        strictly_increasing(items@),
    ensures
        pos <= items.len(),
        forall|i: int| 0 <= i < pos ==> (#[trigger] items[i]).rank() < key.rank(),
        forall|i: int| pos <= i < items.len() ==> (#[trigger] items[i]).rank() >= key.rank(),
{
    let mut lo: usize = 0;
    let mut hi: usize = items.len();
    while lo < hi
        invariant
            lo <= hi <= items.len(),
            strictly_increasing(items@),
            forall|i: int| 0 <= i < lo ==> (#[trigger] items[i]).rank() < key.rank(),
            forall|i: int| hi <= i < items.len() ==> (#[trigger] items[i]).rank() >= key.rank(),
        decreases hi - lo,
    {
        let mid: usize = lo + (hi - lo) / 2;
        if items[mid].precedes(key) {
            assert forall|i: int| 0 <= i < mid + 1 implies (#[trigger] items[i]).rank()
                < key.rank() by {
                if i < mid {
                    assert(items[i].rank() < items[mid as int].rank());
                }
            }
            lo = mid + 1;
        } else {
            assert forall|i: int| mid <= i < items.len() implies (#[trigger] items[i]).rank()
                >= key.rank() by {
                if mid < i {
                    assert(items[mid as int].rank() < items[i].rank());
                }
            }
            hi = mid;
        }
    }
    lo
}

/// A finite set of keys.
pub struct OrderedSet<K: SetKey> {
    items: Vec<K>,
}

impl<K: SetKey> View for OrderedSet<K> {
    type V = Set<K>;

    closed spec fn view(&self) -> Set<K> {
        self.items@.to_set()
    }
}

impl<K: SetKey> OrderedSet<K> {
    #[verifier::type_invariant]
    spec fn sorted(self) -> bool {
        strictly_increasing(self.items@)
    }

    /// The members in increasing order.
    pub closed spec fn listing(self) -> Seq<K> {
        self.items@
    }

    /// The empty set.
    pub fn new() -> (s: Self)
        ensures
            s@ == Set::<K>::empty(),
            s.listing() == Seq::<K>::empty(),
    {
        let s = OrderedSet { items: Vec::new() };
        assert(s.items@.to_set() =~= Set::<K>::empty());
        s
    }

    /// The number of members.
    pub fn len(&self) -> (n: usize)
        ensures
            n == self@.len(),
            self@.finite(),
    {
        proof {
            use_type_invariant(self);
            lemma_increasing_lists_once(self.items@);
        }
        self.items.len()
    }

    /// Whether the set has no member.
    pub fn is_empty(&self) -> (b: bool)
        ensures
            b == (self@ == Set::<K>::empty()),
    {
        proof {
            use_type_invariant(self);
            lemma_increasing_lists_once(self.items@);
            if self.items@.len() == 0 {
                assert(self.items@.to_set() =~= Set::<K>::empty());
            } else {
                assert(self.items@.contains(self.items@[0]));
                assert(self.items@.to_set().contains(self.items@[0]));
            }
        }
        self.items.len() == 0
    }

    /// Whether `key` is a member.
    pub fn contains(&self, key: K) -> (b: bool)
        ensures
            b == self@.contains(key),
    {
        proof {
            use_type_invariant(self);
        }
        holds(&self.items, &key)
    }

    /// Adds `key`, and says whether it was absent before.
    pub fn insert(&mut self, key: K) -> (fresh: bool)
        ensures
            final(self)@ == old(self)@.insert(key),
            fresh == !old(self)@.contains(key),
    {
        proof {
            use_type_invariant(&*self);
        }
        let ghost before = self.items@;
        let pos = lower_bound(&self.items, &key);
        if pos < self.items.len() && !key.precedes(&self.items[pos]) {
            proof {
                K::rank_injective(before[pos as int], key);
                assert(before.contains(key));
                assert(before.to_set().insert(key) =~= before.to_set());
            }
            false
        } else {
            proof {
                if before.contains(key) {
                    let i = choose|i: int| 0 <= i < before.len() && before[i] == key;
                    if i < pos {
                        assert(before[i].rank() < key.rank());
                    } else if i > pos {
                        assert(before[pos as int].rank() < before[i].rank());
                    }
                }
                lemma_insert_keeps_order(before, pos as int, key);
            }
            let mut items: Vec<K> = Vec::new();
            core::mem::swap(&mut self.items, &mut items);
            items.insert(pos, key);
            self.items = items;
            true
        }
    }

    /// Adds every member of `other`.
    pub fn extend(&mut self, other: &Self)
        ensures
            final(self)@ == old(self)@.union(other@),
    {
        proof {
            use_type_invariant(&*self);
            use_type_invariant(other);
        }
        let merged = merge(&self.items, &other.items);
        self.items = merged;
    }

    /// The members of `self` or of `other`.
    pub fn union(&self, other: &Self) -> (r: Self)
        ensures
            r@ == self@.union(other@),
    {
        proof {
            use_type_invariant(self);
            use_type_invariant(other);
        }
        OrderedSet { items: merge(&self.items, &other.items) }
    }

    /// The members of `self` that are no members of `other`.
    pub fn difference(&self, other: &Self) -> (r: Self)
        ensures
            r@ == self@.difference(other@),
    {
        proof {
            use_type_invariant(self);
            use_type_invariant(other);
        }
        OrderedSet { items: subtract(&self.items, &other.items) }
    }

    /// The set of the keys that `keys` holds.
    pub fn from_vec(keys: &Vec<K>) -> (r: Self)
        ensures
            r@ == keys@.to_set(),
    {
        let items = sorted_range(keys, 0, keys.len());
        assert(keys@.subrange(0, keys.len() as int) =~= keys@);
        OrderedSet { items }
    }

    /// The members in increasing order.
    pub fn to_vec(&self) -> (v: Vec<K>)
        ensures
            v@ == self.listing(),
            v@.to_set() == self@,
            strictly_increasing(v@),
    {
        proof {
            use_type_invariant(self);
        }
        let mut v: Vec<K> = Vec::new();
        let mut i: usize = 0;
        while i < self.items.len()
            invariant
                i <= self.items.len(),
                v@ == self.items@.take(i as int),
            decreases self.items.len() - i,
        {
            v.push(self.items[i]);
            assert(self.items@.take(i + 1) =~= self.items@.take(i as int).push(
                self.items@[i as int],
            ));
            i += 1;
        }
        assert(self.items@.take(self.items.len() as int) =~= self.items@);
        v
    }

    /// A copy of the set.
    pub fn duplicate(&self) -> (r: Self)
        ensures
            r@ == self@,
            r.listing() == self.listing(),
    {
        proof {
            use_type_invariant(self);
        }
        let v = self.to_vec();
        OrderedSet { items: v }
    }
}

/// The set of a sequence with one more element at its end.
pub proof fn lemma_push_to_set<K>(s: Seq<K>, key: K)
    ensures
        s.push(key).to_set() == s.to_set().insert(key),
{
    let t = s.push(key);
    assert forall|e: K| t.to_set().contains(e) == s.to_set().insert(key).contains(e) by {
        if t.contains(e) {
            let i = choose|i: int| 0 <= i < t.len() && t[i] == e;
            if i < s.len() {
                assert(s[i] == e);
                assert(s.contains(e));
            }
        }
        if s.contains(e) {
            let i = choose|i: int| 0 <= i < s.len() && s[i] == e;
            assert(t[i] == e);
            assert(t.contains(e));
        }
        if e == key {
            assert(t[s.len() as int] == e);
            assert(t.contains(e));
        }
    }
    assert(t.to_set() =~= s.to_set().insert(key));
}

/// Placing `key` between the keys below it and the keys above it keeps the
/// order and adds `key` to the set.
proof fn lemma_insert_keeps_order<K: SetKey>(s: Seq<K>, pos: int, key: K)
    requires
        strictly_increasing(s),
        0 <= pos <= s.len(),
        forall|i: int| 0 <= i < pos ==> (#[trigger] s[i]).rank() < key.rank(),
        forall|i: int| pos <= i < s.len() ==> (#[trigger] s[i]).rank() > key.rank(),
    ensures
        strictly_increasing(s.insert(pos, key)),
        s.insert(pos, key).to_set() == s.to_set().insert(key),
{
    let t = s.insert(pos, key);
    assert forall|i: int, j: int| 0 <= i < j < t.len() implies (#[trigger] t[i]).rank() < (
    #[trigger] t[j]).rank() by {
        if j < pos {
            assert(s[i].rank() < s[j].rank());
        } else if j == pos {
            assert(t[i] == s[i]);
        } else if i < pos {
            assert(t[j] == s[j - 1]);
            assert(t[i] == s[i]);
            if i < j - 1 {
                assert(s[i].rank() < s[j - 1].rank());
            }
        } else if i == pos {
            assert(t[j] == s[j - 1]);
        } else {
            assert(t[i] == s[i - 1]);
            assert(t[j] == s[j - 1]);
            assert(s[i - 1].rank() < s[j - 1].rank());
        }
    }
    assert forall|e: K| t.to_set().contains(e) == s.to_set().insert(key).contains(e) by {
        if t.contains(e) {
            let i = choose|i: int| 0 <= i < t.len() && t[i] == e;
            if i < pos {
                assert(s[i] == e);
                assert(s.contains(e));
            } else if i > pos {
                assert(s[i - 1] == e);
                assert(s.contains(e));
            }
        }
        if s.contains(e) {
            let i = choose|i: int| 0 <= i < s.len() && s[i] == e;
            if i < pos {
                assert(t[i] == e);
            } else {
                assert(t[i + 1] == e);
            }
            assert(t.contains(e));
        }
        if e == key {
            assert(t[pos] == e);
            assert(t.contains(e));
        }
    }
    assert(t.to_set() =~= s.to_set().insert(key));
}

/// Appending a key that ranks above every element keeps the order.
proof fn lemma_push_keeps_order<K: SetKey>(s: Seq<K>, key: K)
    requires
        strictly_increasing(s),
        forall|i: int| 0 <= i < s.len() ==> (#[trigger] s[i]).rank() < key.rank(),
    ensures
        strictly_increasing(s.push(key)),
        s.push(key).to_set() == s.to_set().insert(key),
{
    assert(s.push(key) =~= s.insert(s.len() as int, key));
    lemma_insert_keeps_order(s, s.len() as int, key);
}

/// The increasing listing of the keys that `a` or `b` holds.
fn merge<K: SetKey>(a: &Vec<K>, b: &Vec<K>) -> (out: Vec<K>)
    requires
        strictly_increasing(a@),
        strictly_increasing(b@),
    ensures
        strictly_increasing(out@),
        out@.to_set() == a@.to_set().union(b@.to_set()),
{
    let mut out: Vec<K> = Vec::new();
    let mut i: usize = 0;
    let mut j: usize = 0;
    assert(out@.to_set() =~= a@.take(0).to_set().union(b@.take(0).to_set()));
    while i < a.len() || j < b.len()
        invariant
            i <= a.len(),
            j <= b.len(),
            strictly_increasing(a@),
            strictly_increasing(b@),
            strictly_increasing(out@),
            out@.to_set() == a@.take(i as int).to_set().union(b@.take(j as int).to_set()),
            forall|k: int|
                0 <= k < out.len() && i < a.len() ==> (#[trigger] out[k]).rank() < a[i as int].rank(),
            forall|k: int|
                0 <= k < out.len() && j < b.len() ==> (#[trigger] out[k]).rank() < b[j as int].rank(),
        decreases (a.len() - i) + (b.len() - j),
    {
        let ghost prev = out@;
        let ghost ai = a@.take(i as int);
        let ghost bj = b@.take(j as int);
        let take_a: bool = if j >= b.len() {
            true
        } else if i >= a.len() {
            false
        } else {
            !b[j].precedes(&a[i])
        };
        if take_a {
            let key = a[i];
            let both: bool = j < b.len() && !key.precedes(&b[j]);
            proof {
                lemma_push_keeps_order(prev, key);
                assert(a@.take(i + 1) =~= ai.push(key));
                lemma_push_to_set(ai, key);
                if both {
                    K::rank_injective(key, b@[j as int]);
                    assert(b@.take(j + 1) =~= bj.push(key));
                    lemma_push_to_set(bj, key);
                }
                assert(prev.to_set().insert(key) =~= a@.take(i + 1).to_set().union(
                    b@.take(if both { j + 1 } else { j as int }).to_set(),
                ));
            }
            out.push(key);
            i += 1;
            if both {
                j += 1;
            }
            proof {
                assert forall|k: int| 0 <= k < out.len() && i < a.len() implies (
                #[trigger] out[k]).rank() < a[i as int].rank() by {
                    assert(a[i - 1].rank() < a[i as int].rank());
                    if k < prev.len() {
                        assert(out[k] == prev[k]);
                    }
                }
                assert forall|k: int| 0 <= k < out.len() && j < b.len() implies (
                #[trigger] out[k]).rank() < b[j as int].rank() by {
                    if both {
                        assert(b[j - 1].rank() < b[j as int].rank());
                    }
                    if k < prev.len() {
                        assert(out[k] == prev[k]);
                    }
                }
            }
        } else {
            let key = b[j];
            proof {
                lemma_push_keeps_order(prev, key);
                assert(b@.take(j + 1) =~= bj.push(key));
                lemma_push_to_set(bj, key);
                assert(prev.to_set().insert(key) =~= ai.to_set().union(b@.take(j + 1).to_set()));
            }
            out.push(key);
            j += 1;
            proof {
                assert forall|k: int| 0 <= k < out.len() && i < a.len() implies (
                #[trigger] out[k]).rank() < a[i as int].rank() by {
                    if k < prev.len() {
                        assert(out[k] == prev[k]);
                    }
                }
                assert forall|k: int| 0 <= k < out.len() && j < b.len() implies (
                #[trigger] out[k]).rank() < b[j as int].rank() by {
                    assert(b[j - 1].rank() < b[j as int].rank());
                    if k < prev.len() {
                        assert(out[k] == prev[k]);
                    }
                }
            }
        }
    }
    assert(a@.take(a.len() as int) =~= a@);
    assert(b@.take(b.len() as int) =~= b@);
    out
}

/// The set of two sequences put end to end.
pub proof fn lemma_concat_to_set<K>(a: Seq<K>, b: Seq<K>)
    ensures
        (a + b).to_set() == a.to_set().union(b.to_set()),
{
    let c = a + b;
    assert forall|e: K| c.to_set().contains(e) == a.to_set().union(b.to_set()).contains(e) by {
        if c.contains(e) {
            let i = choose|i: int| 0 <= i < c.len() && c[i] == e;
            if i < a.len() {
                assert(a[i] == e);
                assert(a.contains(e));
            } else {
                assert(b[i - a.len()] == e);
                assert(b.contains(e));
            }
        }
        if a.contains(e) {
            let i = choose|i: int| 0 <= i < a.len() && a[i] == e;
            assert(c[i] == e);
            assert(c.contains(e));
        }
        if b.contains(e) {
            let i = choose|i: int| 0 <= i < b.len() && b[i] == e;
            assert(c[a.len() + i] == e);
            assert(c.contains(e));
        }
    }
    assert(c.to_set() =~= a.to_set().union(b.to_set()));
}

/// The increasing listing of the keys that `keys` holds from `lo` up to `hi`,
/// by sorting each half and merging the two.
fn sorted_range<K: SetKey>(keys: &Vec<K>, lo: usize, hi: usize) -> (out: Vec<K>)
    requires
        lo <= hi <= keys.len(),
    ensures
        strictly_increasing(out@),
        out@.to_set() == keys@.subrange(lo as int, hi as int).to_set(),
    decreases hi - lo,
{
    if hi - lo == 0 {
        let out: Vec<K> = Vec::new();
        assert(out@.to_set() =~= keys@.subrange(lo as int, hi as int).to_set());
        out
    } else if hi - lo == 1 {
        let mut out: Vec<K> = Vec::new();
        out.push(keys[lo]);
        assert(out@ =~= keys@.subrange(lo as int, hi as int));
        out
    } else {
        let mid: usize = lo + (hi - lo) / 2;
        let left = sorted_range(keys, lo, mid);
        let right = sorted_range(keys, mid, hi);
        proof {
            let whole = keys@.subrange(lo as int, hi as int);
            let first = keys@.subrange(lo as int, mid as int);
            let second = keys@.subrange(mid as int, hi as int);
            assert(whole =~= first + second);
            lemma_concat_to_set(first, second);
        }
        merge(&left, &right)
    }
}

/// Whether the increasing listing `items` holds `key`.
fn holds<K: SetKey>(items: &Vec<K>, key: &K) -> (b: bool)
    requires
        strictly_increasing(items@),
    ensures
        b == items@.to_set().contains(*key),
{
    let pos = lower_bound(items, key);
    if pos < items.len() && !key.precedes(&items[pos]) {
        proof {
            K::rank_injective(items@[pos as int], *key);
            assert(items@.contains(*key));
        }
        true
    } else {
        proof {
            if items@.contains(*key) {
                let i = choose|i: int| 0 <= i < items@.len() && items@[i] == *key;
                if i < pos {
                    assert(items@[i].rank() < key.rank());
                } else if i > pos {
                    assert(items@[pos as int].rank() < items@[i].rank());
                }
            }
        }
        false
    }
}

/// The increasing listing of the keys that `a` holds and `b` does not.
fn subtract<K: SetKey>(a: &Vec<K>, b: &Vec<K>) -> (out: Vec<K>)
    requires
        strictly_increasing(a@),
        strictly_increasing(b@),
    ensures
        strictly_increasing(out@),
        out@.to_set() == a@.to_set().difference(b@.to_set()),
{
    let mut out: Vec<K> = Vec::new();
    let mut i: usize = 0;
    assert(out@.to_set() =~= a@.take(0).to_set().difference(b@.to_set()));
    while i < a.len()
        invariant
            i <= a.len(),
            strictly_increasing(a@),
            strictly_increasing(b@),
            strictly_increasing(out@),
            out@.to_set() == a@.take(i as int).to_set().difference(b@.to_set()),
            forall|k: int|
                0 <= k < out.len() && i < a.len() ==> (#[trigger] out[k]).rank() < a[i as int].rank(),
        decreases a.len() - i,
    {
        let ghost prev = out@;
        let ghost ai = a@.take(i as int);
        let key = a[i];
        proof {
            assert(a@.take(i + 1) =~= ai.push(key));
            lemma_push_to_set(ai, key);
        }
        if !holds(b, &key) {
            proof {
                lemma_push_keeps_order(prev, key);
                assert(prev.to_set().insert(key) =~= a@.take(i + 1).to_set().difference(
                    b@.to_set(),
                ));
            }
            out.push(key);
        } else {
            assert(prev.to_set() =~= a@.take(i + 1).to_set().difference(b@.to_set()));
        }
        i += 1;
        proof {
            assert forall|k: int| 0 <= k < out.len() && i < a.len() implies (
            #[trigger] out[k]).rank() < a[i as int].rank() by {
                assert(a[i - 1].rank() < a[i as int].rank());
                if k < prev.len() {
                    assert(out[k] == prev[k]);
                }
            }
        }
    }
    assert(a@.take(a.len() as int) =~= a@);
    out
}

} // verus!
