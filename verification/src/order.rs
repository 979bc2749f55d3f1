//! The order of names and paths, and sorting by it.
use vstd::prelude::*;

verus! {

/// How one value stands to another in an order.
#[derive(Clone, Copy, Debug, PartialEq, Eq, Structural)]
pub enum Order {
    Before,
    Same,
    After,
}

/// Names are ordered byte by byte, with a name before all that it is a prefix of.
pub open spec fn name_le(a: Seq<u8>, b: Seq<u8>) -> bool
    decreases a.len(),
{
    a.len() == 0 || (b.len() > 0 && (a[0] < b[0] || (a[0] == b[0] && name_le(a.skip(1), b.skip(1)))))
}

/// Paths are ordered name by name, with a path before all that it is a prefix of.
pub open spec fn path_le(a: Seq<Seq<u8>>, b: Seq<Seq<u8>>) -> bool
    decreases a.len(),
{
    a.len() == 0 || (b.len() > 0 && name_le(a[0], b[0]) && (a[0] == b[0] ==> path_le(
        a.skip(1),
        b.skip(1),
    )))
}

/// Any two names are in order one way or the other, and both ways only if they are equal.
pub proof fn lemma_name_le_total(a: Seq<u8>, b: Seq<u8>)
    ensures
        name_le(a, b) || name_le(b, a),
        name_le(a, b) && name_le(b, a) <==> a == b,
    decreases a.len(),
{
    if a.len() > 0 && b.len() > 0 {
        lemma_name_le_total(a.skip(1), b.skip(1));
        if a[0] == b[0] && a.skip(1) == b.skip(1) {
            assert(a == seq![a[0]] + a.skip(1));
            assert(b == seq![b[0]] + b.skip(1));
        }
    } else if a.len() == 0 && b.len() == 0 {
        assert(a == b);
    }
}

pub proof fn lemma_name_le_transitive(a: Seq<u8>, b: Seq<u8>, c: Seq<u8>)
    requires
        name_le(a, b),
        name_le(b, c),
    ensures
        name_le(a, c),
    decreases a.len(),
{
    if a.len() > 0 && a[0] == b[0] && b[0] == c[0] {
        lemma_name_le_transitive(a.skip(1), b.skip(1), c.skip(1));
    }
}

/// Any two paths are in order one way or the other, and both ways only if they are equal.
pub proof fn lemma_path_le_total(a: Seq<Seq<u8>>, b: Seq<Seq<u8>>)
    ensures
        path_le(a, b) || path_le(b, a),
        path_le(a, b) && path_le(b, a) <==> a == b,
    decreases a.len(),
{
    if a.len() > 0 && b.len() > 0 {
        lemma_name_le_total(a[0], b[0]);
        lemma_path_le_total(a.skip(1), b.skip(1));
        if a[0] == b[0] && a.skip(1) == b.skip(1) {
            assert(a == seq![a[0]] + a.skip(1));
            assert(b == seq![b[0]] + b.skip(1));
        }
    } else if a.len() == 0 && b.len() == 0 {
        assert(a == b);
    }
}

pub proof fn lemma_path_le_transitive(a: Seq<Seq<u8>>, b: Seq<Seq<u8>>, c: Seq<Seq<u8>>)
    requires
        path_le(a, b),
        path_le(b, c),
    ensures
        path_le(a, c),
    decreases a.len(),
{
    if a.len() > 0 {
        lemma_name_le_transitive(a[0], b[0], c[0]);
        lemma_name_le_total(a[0], b[0]);
        lemma_name_le_total(b[0], c[0]);
        if a[0] == c[0] {
            lemma_path_le_transitive(a.skip(1), b.skip(1), c.skip(1));
        }
    }
}

/// How two names stand to each other.
pub fn name_order(a: &[u8], b: &[u8]) -> (r: Order)
    ensures
        r is Same <==> a@ == b@,
        r is Before <==> name_le(a@, b@) && a@ != b@,
        r is After <==> name_le(b@, a@) && a@ != b@,
{
    let mut i: usize = 0;
    assert(a@.skip(0) == a@);
    assert(b@.skip(0) == b@);
    while i < a.len() && i < b.len()
        invariant
            i <= a@.len(),
            i <= b@.len(),
            a@.take(i as int) == b@.take(i as int),
            name_le(a@, b@) == name_le(a@.skip(i as int), b@.skip(i as int)),
            name_le(b@, a@) == name_le(b@.skip(i as int), a@.skip(i as int)),
        decreases a@.len() - i,
    {
        proof {
            assert(a@.skip(i as int).skip(1) == a@.skip(i + 1));
            assert(b@.skip(i as int).skip(1) == b@.skip(i + 1));
            lemma_name_le_total(a@, b@);
        }
        if a[i] < b[i] {
            return Order::Before;
        }
        if a[i] > b[i] {
            return Order::After;
        }
        assert(a@.take(i + 1) =~= a@.take(i as int).push(a@[i as int]));
        assert(b@.take(i + 1) =~= b@.take(i as int).push(b@[i as int]));
        i += 1;
    }
    proof {
        lemma_name_le_total(a@, b@);
        if a@.len() == b@.len() {
            assert(a@ == a@.take(i as int));
            assert(b@ == b@.take(i as int));
        }
    }
    if i < b.len() {
        Order::Before
    } else if i < a.len() {
        Order::After
    } else {
        Order::Same
    }
}

/// Whether two names are equal.
pub fn same_name(a: &[u8], b: &[u8]) -> (r: bool)
    ensures
        r == (a@ == b@),
{
    match name_order(a, b) {
        Order::Same => true,
        _ => false,
    }
}

/// Something that is sorted by a path, or by a name as a path of its own.
pub trait Sorted: Sized {
    /// What the value is sorted by.
    spec fn key(&self) -> Seq<Seq<u8>>;

    /// Whether the value may stand before the other.
    fn may_precede(&self, other: &Self) -> (r: bool)
        ensures
            r == path_le(self.key(), other.key()),
    ;
}

impl Sorted for Vec<Vec<u8>> {
    open spec fn key(&self) -> Seq<Seq<u8>> {
        crate::text::seqs(self@)
    }

    fn may_precede(&self, other: &Self) -> (r: bool) {
        let ghost a = self.key();
        let ghost b = other.key();
        let mut i: usize = 0;
        assert(a.skip(0) == a);
        assert(b.skip(0) == b);
        while i < self.len() && i < other.len()
            invariant
                a == self.key(),
                b == other.key(),
                i <= a.len() == self@.len(),
                i <= b.len() == other@.len(),
                path_le(a, b) == path_le(a.skip(i as int), b.skip(i as int)),
            decreases a.len() - i,
        {
            proof {
                assert(a.skip(i as int).skip(1) == a.skip(i + 1));
                assert(b.skip(i as int).skip(1) == b.skip(i + 1));
                assert(a[i as int] == self@[i as int]@);
                assert(b[i as int] == other@[i as int]@);
                lemma_name_le_total(a[i as int], b[i as int]);
            }
            match name_order(&self[i], &other[i]) {
                Order::Before => {
                    return true;
                },
                Order::After => {
                    return false;
                },
                Order::Same => {},
            }
            i += 1;
        }
        i == self.len()
    }
}

/// The key of a value that is sorted by a name.
pub open spec fn name_key(name: Seq<u8>) -> Seq<Seq<u8>> {
    seq![name]
}

/// For keys that are single names, the order of the keys is that of the names.
pub proof fn lemma_name_key(a: Seq<u8>, b: Seq<u8>)
    ensures
        path_le(name_key(a), name_key(b)) == name_le(a, b),
        name_key(a) == name_key(b) <==> a == b,
{
    assert(name_key(a)[0] == a && name_key(b)[0] == b);
    assert(path_le(name_key(a).skip(1), name_key(b).skip(1)));
}

/// The values stand in the order of their keys.
pub open spec fn in_order<T: Sorted>(v: Seq<T>) -> bool {
    forall|i: int, j: int| 0 <= i <= j < v.len() ==> path_le(#[trigger] v[i].key(), #[trigger] v[j].key())
}

/// The key of each of a list of values.
pub open spec fn keys<T: Sorted>(v: Seq<T>) -> Seq<Seq<Seq<u8>>> {
    v.map_values(|x: T| x.key())
}

/// Puts the values into the order of their keys.
pub fn sort<T: Sorted>(v: Vec<T>) -> (r: Vec<T>)
    ensures
        in_order(r@),
        r@.to_multiset() == v@.to_multiset(),
        keys(r@).to_multiset() == keys(v@).to_multiset(),
{
    let ghost all = v@;
    let mut r: Vec<T> = Vec::new();
    proof {
        broadcast use vstd::seq_lib::group_to_multiset_ensures;

        assert(all.take(0) =~= Seq::<T>::empty());
        assert(r@ =~= all.take(0));
        assert(keys(r@) =~= keys(all.take(0)));
    }
    for x in it: v
        invariant
            it.seq() == all,
            in_order(r@),
            r@.to_multiset() == all.take(it.index() as int).to_multiset(),
            keys(r@).to_multiset() == keys(all.take(it.index() as int)).to_multiset(),
    {
        let ghost before = r@;
        let ghost n = it.index();
        let at = place(&r, &x);
        r.insert(at, x);
        proof {
            broadcast use vstd::seq_lib::group_to_multiset_ensures;

            assert(all.take(n + 1) =~= all.take(n as int).push(x));
            assert(r@ =~= before.insert(at as int, x));
            assert(keys(all.take(n + 1)) =~= keys(all.take(n as int)).push(x.key()));
            assert(keys(r@) =~= keys(before).insert(at as int, x.key()));
            assert forall|i: int, j: int| 0 <= i <= j < r@.len() implies path_le(
                #[trigger] r@[i].key(),
                #[trigger] r@[j].key(),
            ) by {
                lemma_path_le_total(x.key(), x.key());
                let i0 = if i < at {
                    i
                } else {
                    i - 1
                };
                let j0 = if j < at {
                    j
                } else {
                    j - 1
                };
                if i != at {
                    assert(r@[i] == before[i0]);
                }
                if j != at {
                    assert(r@[j] == before[j0]);
                }
            }
        }
    }
    assert(all.take(all.len() as int) =~= all);
    r
}

/// How many values at the start of `v`, which is in order, may precede `x`.
fn place<T: Sorted>(v: &Vec<T>, x: &T) -> (r: usize)
    requires
        in_order(v@),
    ensures
        r <= v@.len(),
        forall|i: int| 0 <= i < r ==> path_le(#[trigger] v@[i].key(), x.key()),
        forall|i: int| r <= i < v@.len() ==> path_le(x.key(), #[trigger] v@[i].key()),
{
    let mut low: usize = 0;
    let mut high: usize = v.len();
    while low < high
        invariant
            in_order(v@),
            low <= high <= v@.len(),
            forall|i: int| 0 <= i < low ==> path_le(#[trigger] v@[i].key(), x.key()),
            forall|i: int| high <= i < v@.len() ==> path_le(x.key(), #[trigger] v@[i].key()),
        decreases high - low,
    {
        let mid = low + (high - low) / 2;
        proof {
            lemma_path_le_total(v@[mid as int].key(), x.key());
        }
        if v[mid].may_precede(x) {
            assert forall|i: int| 0 <= i < mid + 1 implies path_le(
                #[trigger] v@[i].key(),
                x.key(),
            ) by {
                lemma_path_le_transitive(v@[i].key(), v@[mid as int].key(), x.key());
            }
            low = mid + 1;
        } else {
            assert forall|i: int| mid <= i < v@.len() implies path_le(
                x.key(),
                #[trigger] v@[i].key(),
            ) by {
                lemma_path_le_transitive(x.key(), v@[mid as int].key(), v@[i].key());
            }
            high = mid;
        }
    }
    low
}

/// Two of the keys are this one.
pub open spec fn has_twins(keys: Seq<Seq<Seq<u8>>>, key: Seq<Seq<u8>>) -> bool {
    exists|i: int, j: int|
        0 <= i < j < keys.len() && #[trigger] keys[i] == key && #[trigger] keys[j] == key
}

/// The key is the first in order of those that there are two of.
pub open spec fn is_first_twin(keys: Seq<Seq<Seq<u8>>>, key: Seq<Seq<u8>>) -> bool {
    has_twins(keys, key) && forall|other: Seq<Seq<u8>>| #[trigger]
        has_twins(keys, other) ==> path_le(key, other)
}

/// No two of the keys are the same.
pub open spec fn no_twins(keys: Seq<Seq<Seq<u8>>>) -> bool {
    forall|key: Seq<Seq<u8>>| !#[trigger] has_twins(keys, key)
}

proof fn lemma_twins_count(keys: Seq<Seq<Seq<u8>>>, key: Seq<Seq<u8>>)
    ensures
        has_twins(keys, key) <==> keys.to_multiset().count(key) >= 2,
        keys.contains(key) <==> keys.to_multiset().count(key) >= 1,
    decreases keys.len(),
{
    broadcast use vstd::seq_lib::group_to_multiset_ensures;

    if keys.len() > 0 {
        let rest = keys.drop_last();
        let n = keys.len() - 1;
        lemma_twins_count(rest, key);
        assert(keys =~= rest.push(keys.last()));
        if has_twins(keys, key) {
            let (i, j) = choose|i: int, j: int|
                0 <= i < j < keys.len() && #[trigger] keys[i] == key && #[trigger] keys[j] == key;
            assert(rest[i] == key);
            if j < n {
                assert(rest[j] == key);
            }
        }
        if has_twins(rest, key) {
            let (i, j) = choose|i: int, j: int|
                0 <= i < j < rest.len() && #[trigger] rest[i] == key && #[trigger] rest[j] == key;
            assert(keys[i] == key && keys[j] == key);
        }
        if rest.contains(key) && keys[n] == key {
            let i = choose|i: int| 0 <= i < rest.len() && rest[i] == key;
            assert(keys[i] == key && keys[n] == key);
        }
    }
}

/// Putting keys into another order makes no difference to which there are two of.
pub proof fn lemma_twins_same(a: Seq<Seq<Seq<u8>>>, b: Seq<Seq<Seq<u8>>>)
    requires
        a.to_multiset() == b.to_multiset(),
    ensures
        forall|key: Seq<Seq<u8>>| #[trigger] has_twins(a, key) == has_twins(b, key),
        forall|key: Seq<Seq<u8>>| is_first_twin(a, key) == #[trigger] is_first_twin(b, key),
        no_twins(a) == no_twins(b),
{
    assert forall|key: Seq<Seq<u8>>| #[trigger] has_twins(a, key) == has_twins(b, key) by {
        lemma_twins_count(a, key);
        lemma_twins_count(b, key);
    }
    assert forall|key: Seq<Seq<u8>>| is_first_twin(a, key) == #[trigger] is_first_twin(b, key) by {
        if is_first_twin(a, key) {
            assert forall|other: Seq<Seq<u8>>| #[trigger] has_twins(b, other) implies path_le(
                key,
                other,
            ) by {
                assert(has_twins(a, other));
            }
        }
        if is_first_twin(b, key) {
            assert forall|other: Seq<Seq<u8>>| #[trigger] has_twins(a, other) implies path_le(
                key,
                other,
            ) by {
                assert(has_twins(b, other));
            }
        }
    }
    if no_twins(a) {
        assert forall|key: Seq<Seq<u8>>| !#[trigger] has_twins(b, key) by {
            assert(!has_twins(a, key));
        }
    }
    if no_twins(b) {
        assert forall|key: Seq<Seq<u8>>| !#[trigger] has_twins(a, key) by {
            assert(!has_twins(b, key));
        }
    }
}

/// The first of the values, which are in order, that has the same key as the next.
pub fn first_twin<T: Sorted>(v: &Vec<T>) -> (r: Option<usize>)
    requires
        in_order(v@),
    ensures
        match r {
            Some(i) => i < v@.len() && is_first_twin(keys(v@), v@[i as int].key()),
            None => no_twins(keys(v@)),
        },
{
    let len = v.len();
    let ghost all = keys(v@);
    assert(forall|i: int| 0 <= i < v@.len() ==> #[trigger] all[i] == v@[i].key());
    let mut i: usize = 0;
    while i < len && i < len - 1
        invariant
            len == v@.len() == all.len(),
            all == keys(v@),
            in_order(v@),
            i <= len,
            forall|j: int| 0 <= j < v@.len() ==> #[trigger] all[j] == v@[j].key(),
            forall|j: int, k: int| 0 <= j < i && j < k < len ==> #[trigger] all[j] != #[trigger] all[k],
        decreases len - i,
    {
        proof {
            assert(path_le(v@[i as int].key(), v@[i + 1].key()));
            lemma_path_le_total(v@[i as int].key(), v@[i + 1].key());
        }
        if v[i + 1].may_precede(&v[i]) {
            proof {
                let key = all[i as int];
                assert(all[i as int] == key && all[i + 1] == key);
                assert forall|other: Seq<Seq<u8>>| #[trigger] has_twins(all, other) implies path_le(
                    key,
                    other,
                ) by {
                    let (j, k) = choose|j: int, k: int|
                        0 <= j < k < all.len() && #[trigger] all[j] == other && #[trigger] all[k]
                            == other;
                    assert(j >= i);
                    assert(path_le(v@[i as int].key(), v@[j].key()));
                }
            }
            return Some(i);
        }
        assert forall|j: int, k: int| 0 <= j < i + 1 && j < k < len implies #[trigger] all[j]
            != #[trigger] all[k] by {
            if j == i {
                assert(path_le(v@[i + 1].key(), v@[k].key()));
                if all[j] == all[k] {
                    assert(path_le(v@[i + 1].key(), v@[i as int].key()));
                }
            }
        }
        i += 1;
    }
    None
}

/// Mapping the items of equal multisets gives equal multisets.
pub proof fn lemma_map_multiset<T, U>(a: Seq<T>, b: Seq<T>, f: spec_fn(T) -> U)
    requires
        a.to_multiset() == b.to_multiset(),
    ensures
        a.map_values(f).to_multiset() == b.map_values(f).to_multiset(),
    decreases a.len(),
{
    broadcast use vstd::seq_lib::group_to_multiset_ensures;

    assert(a.len() == a.to_multiset().len());
    assert(b.len() == b.to_multiset().len());
    if a.len() == 0 {
        assert(a.map_values(f) =~= b.map_values(f));
    } else {
        let x = a.last();
        let rest = a.drop_last();
        assert(a =~= rest.push(x));
        assert(a.to_multiset().count(x) > 0);
        assert(b.contains(x));
        let i = choose|i: int| 0 <= i < b.len() && b[i] == x;
        let others = b.remove(i);
        assert(rest.to_multiset() =~= a.to_multiset().remove(x));
        assert(others.to_multiset() =~= b.to_multiset().remove(x));
        lemma_map_multiset(rest, others, f);
        assert(a.map_values(f) =~= rest.map_values(f).push(f(x)));
        assert(b.map_values(f).remove(i) =~= others.map_values(f));
        assert(b.map_values(f)[i] == f(x));
        assert(b.map_values(f).to_multiset() =~= others.map_values(f).to_multiset().insert(f(x)));
    }
}

/// There is one way only to put paths into order.
pub proof fn law_order_unique(a: Seq<Seq<Seq<u8>>>, b: Seq<Seq<Seq<u8>>>)
    requires
        a.to_multiset() == b.to_multiset(),
        forall|i: int, j: int| 0 <= i <= j < a.len() ==> path_le(#[trigger] a[i], #[trigger] a[j]),
        forall|i: int, j: int| 0 <= i <= j < b.len() ==> path_le(#[trigger] b[i], #[trigger] b[j]),
    ensures
        a == b,
    decreases a.len(),
{
    broadcast use vstd::seq_lib::group_to_multiset_ensures;

    assert(a.len() == a.to_multiset().len());
    assert(b.len() == b.to_multiset().len());
    if a.len() > 0 {
        let n = a.len() - 1;
        let x = a.last();
        let y = b.last();
        assert(a[n] == x && b[n] == y);
        assert(a.contains(x) && b.contains(y));
        assert(b.to_multiset().count(x) > 0);
        assert(a.to_multiset().count(y) > 0);
        let i = choose|i: int| 0 <= i < b.len() && b[i] == x;
        let j = choose|j: int| 0 <= j < a.len() && a[j] == y;
        assert(path_le(b[i], b[n]));
        assert(path_le(a[j], a[n]));
        lemma_path_le_total(x, y);
        assert(a =~= a.drop_last().push(x));
        assert(b =~= b.drop_last().push(y));
        assert(a.drop_last().to_multiset() =~= a.to_multiset().remove(x));
        assert(b.drop_last().to_multiset() =~= b.to_multiset().remove(y));
        law_order_unique(a.drop_last(), b.drop_last());
    } else {
        assert(a =~= b);
    }
}

/// The first byte in which two names differ decides which of them comes first.
pub proof fn law_name_order(a: Seq<u8>, b: Seq<u8>, i: int)
    requires
        0 <= i < a.len(),
        i < b.len(),
        forall|j: int| 0 <= j < i ==> #[trigger] a[j] == b[j],
        a[i] < b[i],
    ensures
        name_le(a, b),
        !name_le(b, a),
    decreases i,
{
    if i > 0 {
        let rest = a.skip(1);
        let other = b.skip(1);
        assert(a[0] == b[0]);
        assert forall|j: int| 0 <= j < i - 1 implies #[trigger] rest[j] == other[j] by {
            assert(a[j + 1] == b[j + 1]);
        }
        law_name_order(rest, other, i - 1);
    }
}

/// A name comes before every longer one that starts with it.
pub proof fn law_name_prefix(a: Seq<u8>, more: Seq<u8>)
    ensures
        name_le(a, a + more),
        more.len() > 0 ==> !name_le(a + more, a),
    decreases a.len(),
{
    if a.len() > 0 {
        assert((a + more).skip(1) =~= a.skip(1) + more);
        law_name_prefix(a.skip(1), more);
    } else {
        assert(a + more =~= more);
    }
}

/// The first name in which two paths differ decides which of them comes first.
pub proof fn law_path_order(a: Seq<Seq<u8>>, b: Seq<Seq<u8>>, i: int)
    requires
        0 <= i < a.len(),
        i < b.len(),
        forall|j: int| 0 <= j < i ==> #[trigger] a[j] == b[j],
        a[i] != b[i],
    ensures
        path_le(a, b) <==> name_le(a[i], b[i]),
        path_le(b, a) <==> name_le(b[i], a[i]),
    decreases i,
{
    if i > 0 {
        let rest = a.skip(1);
        let other = b.skip(1);
        assert(a[0] == b[0]);
        lemma_name_le_total(a[0], a[0]);
        assert forall|j: int| 0 <= j < i - 1 implies #[trigger] rest[j] == other[j] by {
            assert(a[j + 1] == b[j + 1]);
        }
        law_path_order(rest, other, i - 1);
    }
}

/// A path comes before every longer one that starts with it.
pub proof fn law_path_prefix(a: Seq<Seq<u8>>, more: Seq<Seq<u8>>)
    ensures
        path_le(a, a + more),
        more.len() > 0 ==> !path_le(a + more, a),
    decreases a.len(),
{
    if a.len() > 0 {
        lemma_name_le_total(a[0], a[0]);
        assert((a + more)[0] == a[0]);
        assert((a + more).skip(1) =~= a.skip(1) + more);
        law_path_prefix(a.skip(1), more);
    } else {
        assert(a + more =~= more);
    }
}

/// Values that are put into order stand in that of their keys: none behind one that its key comes before.
pub proof fn law_sorted<T: Sorted>(v: Seq<T>, i: int, j: int)
    requires
        in_order(v),
        0 <= i < j < v.len(),
    ensures
        path_le(v[i].key(), v[j].key()),
        v[i].key() != v[j].key() ==> !path_le(v[j].key(), v[i].key()),
        keys(v)[i] == v[i].key(),
{
    lemma_path_le_total(v[i].key(), v[j].key());
}

/// The order of single names is that of the paths that they are.
pub proof fn law_name_key(a: Seq<u8>, b: Seq<u8>)
    ensures
        name_key(a) == seq![a],
        path_le(seq![a], seq![b]) <==> name_le(a, b),
{
    lemma_name_key(a, b);
}

/// The first of the keys that there are two of is one that there are two of, and comes before all others
/// that there are two of.
pub proof fn law_first_twin(keys: Seq<Seq<Seq<u8>>>, key: Seq<Seq<u8>>, i: int, j: int)
    requires
        is_first_twin(keys, key),
        0 <= i < j < keys.len(),
        keys[i] == keys[j],
    ensures
        path_le(key, keys[i]),
        exists|a: int, b: int|
            0 <= a < b < keys.len() && #[trigger] keys[a] == key && #[trigger] keys[b] == key,
{
    assert(has_twins(keys, keys[i]));
}

} // verus!
