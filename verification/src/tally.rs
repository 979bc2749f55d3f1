//! Counting: the ways in which directories lead to a path, and what there is below them.
use crate::world::{is_below, lemma_below_push, World};
use vstd::prelude::*;

verus! {

/// What `f` gives for the items, in all.
pub open spec fn total<T>(s: Seq<T>, f: spec_fn(T) -> nat) -> nat
    decreases s.len(),
{
    if s.len() == 0 {
        0
    } else {
        total(s.drop_last(), f) + f(s.last())
    }
}

pub proof fn lemma_total_push<T>(s: Seq<T>, x: T, f: spec_fn(T) -> nat)
    ensures
        total(s.push(x), f) == total(s, f) + f(x),
{
    assert(s.push(x).drop_last() =~= s);
}

pub proof fn lemma_total_first<T>(s: Seq<T>, f: spec_fn(T) -> nat)
    requires
        s.len() > 0,
    ensures
        total(s, f) == f(s[0]) + total(s.skip(1), f),
    decreases s.len(),
{
    if s.len() == 1 {
        assert(s.drop_last() =~= seq![]);
        assert(s.skip(1) =~= seq![]);
    } else {
        lemma_total_first(s.drop_last(), f);
        assert(s.drop_last().skip(1) =~= s.skip(1).drop_last());
        assert(s.skip(1).last() == s.last());
    }
}

/// One for the item itself, and nothing for others.
pub open spec fn is<T>(x: T) -> spec_fn(T) -> nat {
    |y: T|
        if y == x {
            1
        } else {
            0
        }
}

/// How often an item occurs.
pub open spec fn count<T>(s: Seq<T>, x: T) -> nat {
    total(s, is(x))
}

pub proof fn lemma_count_filter<T>(s: Seq<T>, p: spec_fn(T) -> bool, x: T)
    ensures
        count(s.filter(p), x) <= count(s, x),
    decreases s.len(),
{
    reveal(Seq::filter);
    if s.len() > 0 {
        lemma_count_filter(s.drop_last(), p, x);
        lemma_total_push(s.drop_last().filter(p), s.last(), is(x));
    }
}

pub proof fn lemma_count_none<T>(s: Seq<T>, x: T)
    ensures
        count(s, x) == 0 <==> !s.contains(x),
    decreases s.len(),
{
    if s.len() > 0 {
        let n = s.len() - 1;
        lemma_count_none(s.drop_last(), x);
        if s.drop_last().contains(x) {
            let i = choose|i: int| 0 <= i < n && s.drop_last()[i] == x;
            assert(s[i] == x);
        }
        if s.contains(x) && s[n] != x {
            let i = choose|i: int| 0 <= i < s.len() && s[i] == x;
            assert(s.drop_last()[i] == x);
        }
    }
}

pub proof fn lemma_count_distinct<T>(s: Seq<T>)
    ensures
        s.no_duplicates() ==> forall|x: T| #[trigger] count(s, x) <= 1,
        (forall|x: T| #[trigger] count(s, x) <= 1) ==> s.no_duplicates(),
    decreases s.len(),
{
    if s.len() > 0 {
        let n = s.len() - 1;
        let rest = s.drop_last();
        lemma_count_distinct(rest);
        lemma_count_none(rest, s.last());
        if s.no_duplicates() {
            assert(rest.no_duplicates());
            assert(!rest.contains(s[n])) by {
                if rest.contains(s[n]) {
                    let i = choose|i: int| 0 <= i < n && rest[i] == s[n];
                    assert(s[i] == s[n]);
                }
            }
            assert forall|x: T| #[trigger] count(s, x) <= 1 by {
                assert(count(rest, x) <= 1);
            }
        }
        if forall|x: T| #[trigger] count(s, x) <= 1 {
            assert forall|x: T| #[trigger] count(rest, x) <= 1 by {
                assert(count(s, x) <= 1);
            }
            assert(count(s, s.last()) <= 1);
            assert forall|i: int, j: int| 0 <= i < s.len() && 0 <= j < s.len() && i != j implies s[i]
                != s[j] by {
                let (low, high) = if i < j {
                    (i, j)
                } else {
                    (j, i)
                };
                assert(rest[low] == s[low]);
                if high == n {
                    assert(rest.contains(s[low]));
                } else {
                    assert(rest[high] == s[high]);
                }
            }
        }
    }
}

/// In how many ways a directory leads to a path by all of its names.
pub open spec fn ways(dir: Seq<Seq<u8>>, path: Seq<Seq<u8>>) -> nat {
    if is_below(path, dir) {
        1
    } else {
        0
    }
}

/// In how many ways a directory leads to a path by some names.
pub open spec fn ways_by(dir: Seq<Seq<u8>>, names: Seq<Seq<u8>>, path: Seq<Seq<u8>>) -> nat {
    if is_below(path, dir) {
        count(names, path[dir.len() as int])
    } else {
        0
    }
}

/// Taking the first name off leaves the ways by the others.
pub proof fn lemma_ways_by_first(dir: Seq<Seq<u8>>, names: Seq<Seq<u8>>, path: Seq<Seq<u8>>)
    requires
        names.len() > 0,
    ensures
        ways_by(dir, names, path) == ways_by(dir, names.skip(1), path) + (if path == dir.push(
            names[0],
        ) || is_below(path, dir.push(names[0])) {
            1nat
        } else {
            0
        }),
{
    let next = dir.push(names[0]);
    let n = dir.len() as int;
    if is_below(path, dir) {
        lemma_total_first(names, is(path[n]));
        lemma_below_push(path, dir);
        if path[n] == names[0] {
            assert(path.take(n + 1) == next);
            if path.len() == n + 1 {
                assert(path.take(n + 1) =~= path);
            }
        } else {
            if path == next {
                assert(next[n] == names[0]);
            }
            if is_below(path, next) {
                assert(path.take(n + 1)[n] == next[n]);
            }
        }
    } else {
        if path == next {
            assert(next.take(n) =~= dir);
        }
        if is_below(path, next) {
            assert(path.take(n) =~= next.take(n));
            assert(next.take(n) =~= dir);
        }
    }
}

/// The ways by names that are all different are no more than those by the directory.
pub proof fn lemma_ways_by(dir: Seq<Seq<u8>>, names: Seq<Seq<u8>>, path: Seq<Seq<u8>>)
    requires
        names.no_duplicates(),
    ensures
        ways_by(dir, names, path) <= ways(dir, path),
{
    lemma_count_distinct(names);
    if is_below(path, dir) {
        assert(count(names, path[dir.len() as int]) <= 1);
    }
}

/// How often an item occurs is how often it is in the multiset.
pub proof fn lemma_count_multiset<T>(s: Seq<T>, x: T)
    ensures
        count(s, x) == s.to_multiset().count(x),
    decreases s.len(),
{
    broadcast use vstd::seq_lib::group_to_multiset_ensures;

    if s.len() > 0 {
        lemma_count_multiset(s.drop_last(), x);
        assert(s =~= s.drop_last().push(s.last()));
    }
}

/// What there is to do for some names in a directory and for all that is below them, down to `room`
/// levels: one for each name, and three more to go into it.
pub open spec fn work(w: World, dir: Seq<Seq<u8>>, names: Seq<Seq<u8>>, room: nat) -> nat
    decreases room, names.len(),
{
    if names.len() == 0 {
        0
    } else {
        let path = dir.push(names.last());
        work(w, dir, names.drop_last(), room) + 1 + if room > 0 {
            3 + work(w, path, (w.names)(path), (room - 1) as nat)
        } else {
            0
        }
    }
}

/// What there is to do for one name.
pub open spec fn work_at(w: World, dir: Seq<Seq<u8>>, name: Seq<u8>, room: nat) -> nat {
    let path = dir.push(name);
    1 + if room > 0 {
        3 + work(w, path, (w.names)(path), (room - 1) as nat)
    } else {
        0
    }
}

pub proof fn lemma_work_push(
    w: World,
    dir: Seq<Seq<u8>>,
    names: Seq<Seq<u8>>,
    name: Seq<u8>,
    room: nat,
)
    ensures
        work(w, dir, names.push(name), room) == work(w, dir, names, room) + work_at(
            w,
            dir,
            name,
            room,
        ),
{
    assert(names.push(name).drop_last() =~= names);
}

/// Names that are left out leave no more to do.
pub proof fn lemma_work_filter(
    w: World,
    dir: Seq<Seq<u8>>,
    names: Seq<Seq<u8>>,
    p: spec_fn(Seq<u8>) -> bool,
    room: nat,
)
    ensures
        work(w, dir, names.filter(p), room) <= work(w, dir, names, room),
    decreases names.len(),
{
    reveal(Seq::filter);
    if names.len() > 0 {
        lemma_work_filter(w, dir, names.drop_last(), p, room);
        lemma_work_push(w, dir, names.drop_last().filter(p), names.last(), room);
    }
}

/// Taking a name out leaves what there is to do for the others.
pub proof fn lemma_work_remove(
    w: World,
    dir: Seq<Seq<u8>>,
    names: Seq<Seq<u8>>,
    i: int,
    room: nat,
)
    requires
        0 <= i < names.len(),
    ensures
        work(w, dir, names, room) == work_at(w, dir, names[i], room) + work(
            w,
            dir,
            names.remove(i),
            room,
        ),
    decreases names.len(),
{
    let n = names.len() - 1;
    let front = names.drop_last();
    if i == n {
        assert(names.remove(i) =~= front);
    } else {
        lemma_work_remove(w, dir, front, i, room);
        assert(names.remove(i) =~= front.remove(i).push(names[n]));
        lemma_work_push(w, dir, front.remove(i), names[n], room);
    }
}

/// The order of names makes no difference to what there is to do.
pub proof fn lemma_work_same(
    w: World,
    dir: Seq<Seq<u8>>,
    a: Seq<Seq<u8>>,
    b: Seq<Seq<u8>>,
    room: nat,
)
    requires
        a.to_multiset() == b.to_multiset(),
    ensures
        work(w, dir, a, room) == work(w, dir, b, room),
    decreases a.len(),
{
    broadcast use vstd::seq_lib::group_to_multiset_ensures;

    if a.len() > 0 {
        let n = a.len() - 1;
        let x = a[n];
        assert(a.contains(x));
        assert(b.to_multiset().count(x) > 0);
        assert(b.contains(x));
        let i = choose|i: int| 0 <= i < b.len() && b[i] == x;
        assert(a.remove(n) =~= a.drop_last());
        assert(a.remove(n).to_multiset() =~= a.to_multiset().remove(x));
        assert(b.remove(i).to_multiset() =~= b.to_multiset().remove(x));
        lemma_work_same(w, dir, a.drop_last(), b.remove(i), room);
        lemma_work_remove(w, dir, b, i, room);
    } else {
        assert(a.to_multiset().len() == 0);
        assert(b.len() == 0);
    }
}

/// How many levels there may be below a directory.
pub open spec fn room(depth: nat, dir: Seq<Seq<u8>>) -> nat {
    if dir.len() <= depth {
        (depth - dir.len()) as nat
    } else {
        0
    }
}

/// What there is to do for some names in a directory.
pub open spec fn names_work(w: World, depth: nat, dir: Seq<Seq<u8>>, names: Seq<Seq<u8>>) -> nat {
    work(w, dir, names, room(depth, dir))
}

/// What there is to do for all that is in a directory.
pub open spec fn dir_work(w: World, depth: nat, dir: Seq<Seq<u8>>) -> nat {
    names_work(w, depth, dir, (w.names)(dir))
}

/// What there is to do for the first name, and for the others. Going into it takes more than what is
/// below it.
pub proof fn lemma_first_work(w: World, depth: nat, dir: Seq<Seq<u8>>, names: Seq<Seq<u8>>)
    requires
        names.len() > 0,
        dir.len() < depth,
    ensures
        names_work(w, depth, dir, names) == 4 + dir_work(w, depth, dir.push(names[0])) + names_work(
            w,
            depth,
            dir,
            names.skip(1),
        ),
{
    lemma_work_remove(w, dir, names, 0, room(depth, dir));
    assert(names.remove(0) =~= names.skip(1));
    assert(room(depth, dir.push(names[0])) == room(depth, dir) - 1);
}

/// There are no more different numbers below a number than that.
pub proof fn lemma_few(s: Seq<int>, n: nat)
    requires
        s.no_duplicates(),
        forall|i: int| 0 <= i < s.len() ==> 0 <= #[trigger] s[i] < n,
    ensures
        s.len() <= n,
{
    let all = vstd::set_lib::set_int_range(0, n as int);
    vstd::set_lib::lemma_int_range(0, n as int);
    s.unique_seq_to_set();
    assert(s.to_set().subset_of(all));
    vstd::set_lib::lemma_len_subset(s.to_set(), all);
}

} // verus!
