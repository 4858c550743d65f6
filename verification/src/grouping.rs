//! Grouping by key: which positions of a list bear the same key.
//!
//! A list gives each position a key or none. Positions that bear the same key
//! form a group when there are at least two of them; a position without a key
//! belongs to no group. Size bucketing and digest grouping are both this
//! operation, on byte counts and on digest strings.

use vstd::prelude::*;

verus! {

/// A value that files are grouped by.
pub trait Key: Sized {
    /// What the key stands for; two keys are the same when these are equal.
    type Id;

    /// What this key stands for.
    spec fn id(&self) -> Self::Id;

    /// Tells whether two keys are the same.
    fn same(&self, other: &Self) -> (b: bool)
        ensures
            b == (self.id() == other.id()),
    ;
}

impl Key for u64 {
    type Id = u64;

    open spec fn id(&self) -> u64 {
        *self
    }

    fn same(&self, other: &Self) -> (b: bool) {
        *self == *other
    }
}

impl Key for String {
    type Id = Seq<char>;

    open spec fn id(&self) -> Seq<char> {
        self@
    }

    fn same(&self, other: &Self) -> (b: bool) {
        self.eq(other)
    }
}

/// What an optional key stands for.
pub open spec fn id_of<K: Key>(key: Option<K>) -> Option<K::Id> {
    match key {
        Some(k) => Some(k.id()),
        None => None,
    }
}

/// What each key of a list stands for.
pub open spec fn key_ids<K: Key>(keys: Seq<Option<K>>) -> Seq<Option<K::Id>> {
    Seq::new(keys.len(), |i: int| id_of(keys[i]))
}

/// Position `i` bears a key and position `j` bears the same one.
pub open spec fn alike<I>(ids: Seq<Option<I>>, i: int, j: int) -> bool {
    ids[i] is Some && ids[i] == ids[j]
}

/// The positions below `n`, in ascending order.
pub open spec fn positions(n: nat) -> Seq<usize> {
    Seq::new(n, |i: int| i as usize)
}

/// Selects the positions that bear the key of position `i`.
pub open spec fn peers_of<I>(ids: Seq<Option<I>>, i: int) -> spec_fn(usize) -> bool {
    |j: usize| alike(ids, i, j as int)
}

/// All positions that bear the key of position `i`, in ascending order;
/// empty when position `i` bears no key.
pub open spec fn members<I>(ids: Seq<Option<I>>, i: int) -> Seq<usize> {
    positions(ids.len()).filter(peers_of(ids, i))
}

/// Position `i` is the first of at least two positions that bear its key.
pub open spec fn is_leader<I>(ids: Seq<Option<I>>, i: int) -> bool {
    members(ids, i).len() >= 2 && members(ids, i)[0] == i
}

/// Selects the positions that lead a group.
pub open spec fn leads<I>(ids: Seq<Option<I>>) -> spec_fn(usize) -> bool {
    |i: usize| is_leader(ids, i as int)
}

/// Maps a position to the positions that bear its key.
pub open spec fn members_at<I>(ids: Seq<Option<I>>) -> spec_fn(usize) -> Seq<usize> {
    |i: usize| members(ids, i as int)
}

/// The groups of a list of keys: for each key borne by at least two
/// positions, those positions in ascending order. The groups stand in the
/// order of their first positions.
pub open spec fn grouping<I>(ids: Seq<Option<I>>) -> Seq<Seq<usize>> {
    positions(ids.len()).filter(leads(ids)).map_values(members_at(ids))
}

/// Filtering the positions below `n` keeps exactly those that the predicate
/// selects, in ascending order.
pub proof fn lemma_filter_positions(n: nat, pred: spec_fn(usize) -> bool)
    requires
        n <= usize::MAX,
    ensures
        forall|a: int|
            0 <= a < positions(n).filter(pred).len() ==> (#[trigger] positions(n).filter(pred)[a])
                < n && pred(positions(n).filter(pred)[a]),
        forall|a: int, b: int|
            0 <= a < b < positions(n).filter(pred).len() ==> (#[trigger] positions(n).filter(
                pred,
            )[a]) < (#[trigger] positions(n).filter(pred)[b]),
        forall|j: usize| j < n && pred(j) ==> #[trigger] positions(n).filter(pred).contains(j),
    decreases n,
{
    reveal(Seq::filter);
    if n > 0 {
        let m = (n - 1) as nat;
        let last = m as usize;
        lemma_filter_positions(m, pred);
        assert(positions(n).drop_last() =~= positions(m));
        assert(positions(n).last() == last);
        let before = positions(m).filter(pred);
        let after = positions(n).filter(pred);
        if pred(last) {
            assert(after == before.push(last));
            assert(after[after.len() - 1] == last);
            assert forall|j: usize| j < n && pred(j) implies #[trigger] after.contains(j) by {
                if j < m {
                    assert(before.contains(j));
                    let a = choose|a: int| 0 <= a < before.len() && before[a] == j;
                    assert(after[a] == j);
                } else {
                    assert(after[after.len() - 1] == j);
                }
            }
        } else {
            assert(after == before);
        }
    }
}

/// A position belongs to the members of `i` exactly when it bears the key of
/// `i`; the members stand in ascending order.
pub proof fn lemma_members<I>(ids: Seq<Option<I>>, i: int)
    requires
        ids.len() <= usize::MAX,
    ensures
        forall|j: usize| #[trigger]
            members(ids, i).contains(j) <==> j < ids.len() && alike(ids, i, j as int),
        forall|a: int, b: int|
            0 <= a < b < members(ids, i).len() ==> (#[trigger] members(ids, i)[a]) < (
            #[trigger] members(ids, i)[b]),
{
    lemma_filter_positions(ids.len(), peers_of(ids, i));
    let m = members(ids, i);
    assert forall|j: usize| #[trigger] m.contains(j) implies j < ids.len() && alike(
        ids,
        i,
        j as int,
    ) by {
        let a = choose|a: int| 0 <= a < m.len() && m[a] == j;
        assert(peers_of(ids, i)(m[a]));
    }
}

/// Positions that bear the same key have the same members.
pub proof fn lemma_members_of_peer<I>(ids: Seq<Option<I>>, i: int, j: int)
    requires
        alike(ids, i, j),
    ensures
        members(ids, j) == members(ids, i),
{
    assert(peers_of(ids, j) =~= peers_of(ids, i));
}

/// Each group is the members of the position that leads it, and the leaders
/// stand in ascending order.
pub proof fn lemma_group_leader<I>(ids: Seq<Option<I>>, g: int)
    requires
        ids.len() <= usize::MAX,
        0 <= g < grouping(ids).len(),
    ensures
        grouping(ids).len() == positions(ids.len()).filter(leads(ids)).len(),
        grouping(ids)[g] == members(ids, positions(ids.len()).filter(leads(ids))[g] as int),
        is_leader(ids, positions(ids.len()).filter(leads(ids))[g] as int),
        positions(ids.len()).filter(leads(ids))[g] < ids.len(),
        grouping(ids)[g].len() >= 2,
        grouping(ids)[g][0] == positions(ids.len()).filter(leads(ids))[g],
{
    lemma_filter_positions(ids.len(), leads(ids));
    let leaders = positions(ids.len()).filter(leads(ids));
    assert(leads(ids)(leaders[g]));
}

/// Every group has at least two members.
pub proof fn lemma_groups_have_two<I>(ids: Seq<Option<I>>)
    requires
        ids.len() <= usize::MAX,
    ensures
        forall|g: int| 0 <= g < grouping(ids).len() ==> (#[trigger] grouping(ids)[g]).len() >= 2,
{
    assert forall|g: int| 0 <= g < grouping(ids).len() implies (#[trigger] grouping(ids)[g]).len()
        >= 2 by {
        lemma_group_leader(ids, g);
    }
}

/// The members of a group are positions of the list, in ascending order, and
/// all bear one key.
pub proof fn lemma_group_shares_key<I>(ids: Seq<Option<I>>, g: int, a: int, b: int)
    requires
        ids.len() <= usize::MAX,
        0 <= g < grouping(ids).len(),
        0 <= a < grouping(ids)[g].len(),
        0 <= b < grouping(ids)[g].len(),
    ensures
        grouping(ids)[g][a] < ids.len(),
        grouping(ids)[g][b] < ids.len(),
        ids[grouping(ids)[g][a] as int] is Some,
        ids[grouping(ids)[g][a] as int] == ids[grouping(ids)[g][b] as int],
        a < b ==> grouping(ids)[g][a] < grouping(ids)[g][b],
{
    lemma_group_leader(ids, g);
    let leader = positions(ids.len()).filter(leads(ids))[g] as int;
    lemma_members(ids, leader);
    let m = members(ids, leader);
    assert(m.contains(m[a]));
    assert(m.contains(m[b]));
}

/// A group holds every position that bears its key.
pub proof fn lemma_group_is_complete<I>(ids: Seq<Option<I>>, g: int, j: int)
    requires
        ids.len() <= usize::MAX,
        0 <= g < grouping(ids).len(),
        0 <= j < ids.len(),
        ids[j] == ids[grouping(ids)[g][0] as int],
    ensures
        grouping(ids)[g].contains(j as usize),
{
    lemma_group_leader(ids, g);
    lemma_group_shares_key(ids, g, 0, 0);
    let leader = positions(ids.len()).filter(leads(ids))[g] as int;
    lemma_members(ids, leader);
    assert(alike(ids, leader, j));
}

/// Two positions that bear the same key lie in a group.
pub proof fn lemma_repeated_key_is_grouped<I>(ids: Seq<Option<I>>, i: int, j: int) -> (g: int)
    requires
        ids.len() <= usize::MAX,
        0 <= i < ids.len(),
        0 <= j < ids.len(),
        i != j,
        alike(ids, i, j),
    ensures
        0 <= g < grouping(ids).len(),
        grouping(ids)[g].contains(i as usize),
        grouping(ids)[g].contains(j as usize),
{
    lemma_members(ids, i);
    let m = members(ids, i);
    assert(alike(ids, i, i));
    assert(m.contains(i as usize));
    assert(m.contains(j as usize));
    let a = choose|a: int| 0 <= a < m.len() && m[a] == i as usize;
    let b = choose|b: int| 0 <= b < m.len() && m[b] == j as usize;
    assert(a != b);
    assert(m.len() >= 2);
    let leader = m[0];
    assert(m.contains(leader));
    lemma_members_of_peer(ids, i, leader as int);
    assert(is_leader(ids, leader as int));
    lemma_filter_positions(ids.len(), leads(ids));
    let leaders = positions(ids.len()).filter(leads(ids));
    assert(leads(ids)(leader));
    assert(leaders.contains(leader));
    let g = choose|g: int| 0 <= g < leaders.len() && leaders[g] == leader;
    assert(grouping(ids)[g] == m);
    g
}

/// Different groups bear different keys.
pub proof fn lemma_groups_differ_in_key<I>(ids: Seq<Option<I>>, g: int, h: int)
    requires
        ids.len() <= usize::MAX,
        0 <= g < h < grouping(ids).len(),
    ensures
        grouping(ids)[g][0] < grouping(ids)[h][0],
        ids[grouping(ids)[g][0] as int] != ids[grouping(ids)[h][0] as int],
{
    lemma_group_leader(ids, g);
    lemma_group_leader(ids, h);
    lemma_filter_positions(ids.len(), leads(ids));
    let leaders = positions(ids.len()).filter(leads(ids));
    let lg = leaders[g];
    let lh = leaders[h];
    assert(lg < lh);
    lemma_group_shares_key(ids, g, 0, 0);
    if ids[lg as int] == ids[lh as int] {
        lemma_members(ids, lh as int);
        let m = members(ids, lh as int);
        assert(alike(ids, lh as int, lg as int));
        assert(m.contains(lg));
        let a = choose|a: int| 0 <= a < m.len() && m[a] == lg;
        assert(m[0] == lh);
        if a > 0 {
            assert(m[0] < m[a]);
        }
        assert(false);
    }
}

/// A position that bears no key, or whose key no other position bears, lies
/// in no group.
pub proof fn lemma_lone_key_is_not_grouped<I>(ids: Seq<Option<I>>, i: int, g: int)
    requires
        ids.len() <= usize::MAX,
        0 <= i < ids.len(),
        forall|j: int| 0 <= j < ids.len() && j != i ==> !alike(ids, i, j),
        0 <= g < grouping(ids).len(),
    ensures
        !grouping(ids)[g].contains(i as usize),
{
    if grouping(ids)[g].contains(i as usize) {
        let group = grouping(ids)[g];
        let a = choose|a: int| 0 <= a < group.len() && group[a] == i as usize;
        lemma_group_leader(ids, g);
        let b = if a == 0 {
            1
        } else {
            0
        };
        lemma_group_shares_key(ids, g, a, b);
        lemma_group_shares_key(ids, g, b, a);
        assert(alike(ids, i, group[b] as int));
        assert(false);
    }
}

/// Position `i` bears a key that no earlier position bears.
pub open spec fn is_first<I>(ids: Seq<Option<I>>, i: int) -> bool {
    &&& 0 <= i < ids.len()
    &&& ids[i] is Some
    &&& forall|k: int| 0 <= k < i ==> #[trigger] ids[k] != ids[i]
}

/// Selects the positions that are the first to bear their key.
pub open spec fn firsts<I>(ids: Seq<Option<I>>) -> spec_fn(usize) -> bool {
    |i: usize| is_first(ids, i as int)
}

/// Selects the positions whose key at least two positions bear.
pub open spec fn plural<I>(ids: Seq<Option<I>>) -> spec_fn(usize) -> bool {
    |i: usize| members(ids, i as int).len() >= 2
}

/// The positions that lead a group are those that are the first to bear
/// their key and do not bear it alone.
pub proof fn lemma_leader_is_first_of_many<I>(ids: Seq<Option<I>>, i: int)
    requires
        ids.len() <= usize::MAX,
        0 <= i < ids.len(),
    ensures
        is_leader(ids, i) <==> is_first(ids, i) && members(ids, i).len() >= 2,
{
    lemma_members(ids, i);
    let m = members(ids, i);
    if is_leader(ids, i) {
        assert(m.contains(m[0]));
        assert forall|k: int| 0 <= k < i implies #[trigger] ids[k] != ids[i] by {
            if ids[k] == ids[i] {
                assert(alike(ids, i, k));
                assert(m.contains(k as usize));
                let a = choose|a: int| 0 <= a < m.len() && m[a] == k as usize;
                if a > 0 {
                    assert(m[0] < m[a]);
                }
            }
        }
    }
    if is_first(ids, i) && m.len() >= 2 {
        assert(alike(ids, i, i));
        assert(m.contains(i as usize));
        let a = choose|a: int| 0 <= a < m.len() && m[a] == i as usize;
        if a > 0 {
            assert(m[0] < m[a]);
            assert(m.contains(m[0]));
            assert(alike(ids, i, m[0] as int));
            assert(ids[m[0] as int] == ids[i]);
        }
    }
}

/// Filtering by one predicate and then by another is filtering by both.
pub proof fn lemma_filter_twice<A>(
    s: Seq<A>,
    first: spec_fn(A) -> bool,
    second: spec_fn(A) -> bool,
    both: spec_fn(A) -> bool,
)
    requires
        forall|i: int| 0 <= i < s.len() ==> both(#[trigger] s[i]) == (first(s[i]) && second(s[i])),
    ensures
        s.filter(first).filter(second) == s.filter(both),
    decreases s.len(),
{
    reveal(Seq::filter);
    if s.len() > 0 {
        let front = s.drop_last();
        let last = s.last();
        assert forall|i: int| 0 <= i < front.len() implies both(#[trigger] front[i]) == (first(
            front[i],
        ) && second(front[i])) by {
            assert(front[i] == s[i]);
        }
        lemma_filter_twice(front, first, second, both);
        assert(s[s.len() - 1] == last);
        if first(last) {
            front.filter(first).lemma_filter_push(last, second);
        }
    }
}

/// The groups are the members of each position that is the first to bear its
/// key and does not bear it alone.
pub proof fn lemma_grouping_by_firsts<I>(ids: Seq<Option<I>>)
    requires
        ids.len() <= usize::MAX,
    ensures
        grouping(ids) == positions(ids.len()).filter(firsts(ids)).filter(plural(ids)).map_values(
            members_at(ids),
        ),
{
    let all = positions(ids.len());
    assert forall|i: int| 0 <= i < all.len() implies leads(ids)(#[trigger] all[i]) == (firsts(ids)(
        all[i],
    ) && plural(ids)(all[i])) by {
        lemma_leader_is_first_of_many(ids, i);
    }
    lemma_filter_twice(all, firsts(ids), plural(ids), leads(ids));
}

/// `b` holds the keys of `a` in another order: position `i` of `b` bears the
/// key of position `to_a[i]` of `a`, and `to_b` leads back.
pub open spec fn is_rearrangement<I>(
    a: Seq<Option<I>>,
    b: Seq<Option<I>>,
    to_a: Seq<int>,
    to_b: Seq<int>,
) -> bool {
    &&& a.len() == b.len()
    &&& to_a.len() == a.len()
    &&& to_b.len() == a.len()
    &&& forall|i: int|
        0 <= i < b.len() ==> 0 <= #[trigger] to_a[i] < a.len() && b[i] == a[to_a[i]] && to_b[to_a[i]]
            == i
    &&& forall|p: int|
        0 <= p < a.len() ==> 0 <= #[trigger] to_b[p] < b.len() && to_a[to_b[p]] == p
}

/// Grouping does not depend on the order of the list: when the same keys
/// arrive in another order, each group of the one list is, position for
/// position, a group of the other with the same key.
pub proof fn lemma_grouping_ignores_order<I>(
    a: Seq<Option<I>>,
    b: Seq<Option<I>>,
    to_a: Seq<int>,
    to_b: Seq<int>,
    h: int,
) -> (g: int)
    requires
        a.len() <= usize::MAX,
        is_rearrangement(a, b, to_a, to_b),
        0 <= h < grouping(b).len(),
    ensures
        0 <= g < grouping(a).len(),
        a[grouping(a)[g][0] as int] == b[grouping(b)[h][0] as int],
        forall|p: usize|
            p < a.len() ==> (grouping(a)[g].contains(p) <==> grouping(b)[h].contains(
                #[trigger] to_b[p as int] as usize,
            )),
{
    lemma_group_leader(b, h);
    lemma_group_shares_key(b, h, 0, 1);
    let first = grouping(b)[h][0] as int;
    let second = grouping(b)[h][1] as int;
    assert(first != second);
    let p0 = to_a[first];
    let p1 = to_a[second];
    assert(p0 != p1) by {
        assert(to_b[p0] == first);
        assert(to_b[p1] == second);
    }
    assert(alike(a, p0, p1));
    let g = lemma_repeated_key_is_grouped(a, p0, p1);
    lemma_group_leader(a, g);
    let la = positions(a.len()).filter(leads(a))[g] as int;
    let lb = positions(b.len()).filter(leads(b))[h] as int;
    lemma_members(a, la);
    lemma_members(b, lb);
    assert(alike(a, la, p0));
    assert forall|p: usize| p < a.len() implies (grouping(a)[g].contains(p) <==> grouping(
        b,
    )[h].contains(#[trigger] to_b[p as int] as usize)) by {
        let q = to_b[p as int];
        assert(to_a[q] == p);
        assert(b[q] == a[p as int]);
        assert(alike(a, la, p as int) <==> alike(b, lb, q));
    }
    g
}

/// Collects the positions that bear the key of position `i`.
fn collect_members<K: Key>(keys: &Vec<Option<K>>, i: usize) -> (group: Vec<usize>)
    requires
        i < keys.len(),
    ensures
        group@ == members(key_ids(keys@), i as int),
{
    let ghost ids = key_ids(keys@);
    let n = keys.len();
    let mut group: Vec<usize> = Vec::new();
    proof {
        reveal(Seq::filter);
        assert(positions(n as nat).take(0) =~= Seq::<usize>::empty());
    }
    match &keys[i] {
        None => {
            let mut j: usize = 0;
            while j < n
                invariant
                    j <= n,
                    n == keys.len(),
                    i < n,
                    ids == key_ids(keys@),
                    keys@[i as int] is None,
                    group@ == Seq::<usize>::empty(),
                    group@ == positions(n as nat).take(j as int).filter(peers_of(ids, i as int)),
                decreases n - j,
            {
                proof {
                    let before = positions(n as nat).take(j as int);
                    assert(positions(n as nat).take(j as int + 1) =~= before.push(j));
                    before.lemma_filter_push(j, peers_of(ids, i as int));
                }
                j = j + 1;
            }
            assert(positions(n as nat).take(j as int) =~= positions(n as nat));
        },
        Some(key) => {
            let mut j: usize = 0;
            while j < n
                invariant
                    j <= n,
                    n == keys.len(),
                    i < n,
                    ids == key_ids(keys@),
                    keys@[i as int] == Some(*key),
                    group@ == positions(n as nat).take(j as int).filter(peers_of(ids, i as int)),
                decreases n - j,
            {
                proof {
                    let before = positions(n as nat).take(j as int);
                    assert(positions(n as nat).take(j as int + 1) =~= before.push(j));
                    before.lemma_filter_push(j, peers_of(ids, i as int));
                }
                let matches = match &keys[j] {
                    Some(other) => key.same(other),
                    None => false,
                };
                assert(matches == alike(ids, i as int, j as int));
                if matches {
                    group.push(j);
                }
                j = j + 1;
            }
            assert(positions(n as nat).take(j as int) =~= positions(n as nat));
        },
    }
    group
}

/// Groups the positions of `keys` by key.
pub fn group_positions<K: Key>(keys: &Vec<Option<K>>) -> (groups: Vec<Vec<usize>>)
    ensures
        groups.deep_view() == grouping(key_ids(keys@)),
{
    let ghost ids = key_ids(keys@);
    let n = keys.len();
    let mut groups: Vec<Vec<usize>> = Vec::new();
    let mut i: usize = 0;
    proof {
        reveal(Seq::filter);
        assert(positions(n as nat).take(0) =~= Seq::<usize>::empty());
        assert(groups.deep_view() =~= Seq::<usize>::empty().filter(leads(ids)).map_values(
            members_at(ids),
        ));
    }
    while i < n
        invariant
            i <= n,
            n == keys.len(),
            ids == key_ids(keys@),
            groups.deep_view() == positions(n as nat).take(i as int).filter(leads(ids)).map_values(
                members_at(ids),
            ),
        decreases n - i,
    {
        let group = collect_members(keys, i);
        proof {
            let before = positions(n as nat).take(i as int);
            assert(positions(n as nat).take(i as int + 1) =~= before.push(i));
            before.lemma_filter_push(i, leads(ids));
            before.filter(leads(ids)).lemma_push_map_commute(members_at(ids), i);
            assert(group.deep_view() =~= group@);
        }
        if group.len() >= 2 && group[0] == i {
            let ghost earlier = groups.deep_view();
            groups.push(group);
            assert(groups.deep_view() =~= earlier.push(group.deep_view()));
        }
        i = i + 1;
    }
    assert(positions(n as nat).take(i as int) =~= positions(n as nat));
    groups
}

} // verus!
