//! The duplicate detector: size buckets first, digest groups second.
//!
//! Files are known by their position in the scanned list. The detector
//! buckets the positions by file size, asks for the digests of one bucket at
//! a time, and groups each bucket's positions by digest. A bucket or a group
//! with fewer than two members is never formed, so a file whose size is
//! unique is never asked to be hashed.
//!
//! [`Detector`] takes the digests bucket by bucket; [`find_duplicates`] runs
//! a whole detection over digests that are at hand already.

use crate::buckets::size_buckets;
use crate::digest::content_digest;
use crate::digest::lemma_hex_lower_injective;
use crate::digest::sha256;
use crate::grouping::group_positions;
use crate::grouping::grouping;
use crate::grouping::id_of;
use crate::grouping::key_ids;
use crate::grouping::lemma_group_leader;
use crate::grouping::lemma_group_shares_key;
use crate::grouping::lemma_groups_differ_in_key;
use vstd::prelude::*;

verus! {

/// Files with identical content: their digest and their positions in the
/// scanned list.
#[derive(Debug, PartialEq, Eq)]
pub struct DuplicateGroup {
    /// The content digest that the members share.
    pub digest: String,
    /// The positions of the files, in ascending order.
    pub members: Vec<usize>,
}

/// A duplicate group as a mathematical value.
pub struct DuplicateGroupView {
    pub digest: Seq<char>,
    pub members: Seq<usize>,
}

impl View for DuplicateGroup {
    type V = DuplicateGroupView;

    open spec fn view(&self) -> DuplicateGroupView {
        DuplicateGroupView { digest: self.digest@, members: self.members@ }
    }
}

/// The groups of a list, each as a mathematical value.
pub open spec fn groups_view(groups: Seq<DuplicateGroup>) -> Seq<DuplicateGroupView> {
    Seq::new(groups.len(), |i: int| groups[i]@)
}

/// The digests handed in for a bucket of `n` files, one per member in the
/// bucket's order. A member beyond the end of the list has none, and entries
/// beyond the bucket are ignored.
pub open spec fn aligned(digests: Seq<Option<String>>, n: nat) -> Seq<Option<Seq<char>>> {
    Seq::new(n, |k: int| if k < digests.len() { id_of(digests[k]) } else { None })
}

/// The duplicate group that a group of places within a bucket stands for.
pub open spec fn found_group(
    bucket: Seq<usize>,
    ids: Seq<Option<Seq<char>>>,
) -> spec_fn(Seq<usize>) -> DuplicateGroupView {
    |places: Seq<usize>|
        DuplicateGroupView {
            digest: ids[places[0] as int].unwrap(),
            members: Seq::new(places.len(), |k: int| bucket[places[k] as int]),
        }
}

/// The duplicate groups among a bucket's files, given their digests.
pub open spec fn found_groups(bucket: Seq<usize>, ids: Seq<Option<Seq<char>>>) -> Seq<
    DuplicateGroupView,
> {
    grouping(ids).map_values(found_group(bucket, ids))
}

/// The first index at which `groups` holds `digest`, or its length.
pub open spec fn slot(groups: Seq<DuplicateGroupView>, digest: Seq<char>) -> int
    decreases groups.len(),
{
    if groups.len() == 0 {
        0
    } else if groups[0].digest == digest {
        0
    } else {
        1 + slot(groups.drop_first(), digest)
    }
}

/// `groups` with `group` recorded: it takes the place of the group with the
/// same digest, or stands at the end when there is none.
pub open spec fn merged(groups: Seq<DuplicateGroupView>, group: DuplicateGroupView) -> Seq<
    DuplicateGroupView,
> {
    if slot(groups, group.digest) < groups.len() {
        groups.update(slot(groups, group.digest), group)
    } else {
        groups.push(group)
    }
}

/// `groups` with each of `found` recorded, in order.
pub open spec fn merged_all(groups: Seq<DuplicateGroupView>, found: Seq<DuplicateGroupView>) -> Seq<
    DuplicateGroupView,
>
    decreases found.len(),
{
    if found.len() == 0 {
        groups
    } else {
        merged(merged_all(groups, found.drop_last()), found.last())
    }
}

/// The digests of a bucket's members, in the bucket's order.
pub open spec fn bucket_digests(bucket: Seq<usize>, digest: Seq<Option<Seq<char>>>) -> Seq<
    Option<Seq<char>>,
> {
    Seq::new(bucket.len(), |k: int| digest[bucket[k] as int])
}

/// The duplicate groups among the files of the size bucket `b`.
pub open spec fn found_in(
    sizes: Seq<Option<u64>>,
    digest: Seq<Option<Seq<char>>>,
    b: int,
) -> Seq<DuplicateGroupView> {
    found_groups(grouping(sizes)[b], bucket_digests(grouping(sizes)[b], digest))
}

/// The groups that stand when the first `count` size buckets have been
/// hashed and recorded.
pub open spec fn detected(
    sizes: Seq<Option<u64>>,
    digest: Seq<Option<Seq<char>>>,
    count: nat,
) -> Seq<DuplicateGroupView>
    decreases count,
{
    if count == 0 {
        Seq::empty()
    } else {
        merged_all(
            detected(sizes, digest, (count - 1) as nat),
            found_in(sizes, digest, count - 1),
        )
    }
}

/// No two groups bear the same digest.
pub open spec fn digests_differ(groups: Seq<DuplicateGroupView>) -> bool {
    forall|i: int, j: int|
        0 <= i < j < groups.len() ==> (#[trigger] groups[i]).digest != (#[trigger] groups[j]).digest
}

/// Every group has at least two members.
pub open spec fn all_plural(groups: Seq<DuplicateGroupView>) -> bool {
    forall|i: int| 0 <= i < groups.len() ==> (#[trigger] groups[i]).members.len() >= 2
}

/// The slot of a digest is the first index that bears it.
pub proof fn lemma_slot(groups: Seq<DuplicateGroupView>, digest: Seq<char>)
    ensures
        0 <= slot(groups, digest) <= groups.len(),
        slot(groups, digest) < groups.len() ==> groups[slot(groups, digest)].digest == digest,
        forall|j: int| 0 <= j < slot(groups, digest) ==> (#[trigger] groups[j]).digest != digest,
    decreases groups.len(),
{
    if groups.len() > 0 && groups[0].digest != digest {
        let rest = groups.drop_first();
        lemma_slot(rest, digest);
        assert forall|j: int| 0 <= j < slot(groups, digest) implies (#[trigger] groups[j]).digest
            != digest by {
            if j > 0 {
                assert(groups[j] == rest[j - 1]);
            }
        }
    }
}

/// Recording a group with at least two members keeps every group plural and
/// the digests different.
pub proof fn lemma_merged_keeps_shape(groups: Seq<DuplicateGroupView>, group: DuplicateGroupView)
    requires
        all_plural(groups),
        digests_differ(groups),
        group.members.len() >= 2,
    ensures
        all_plural(merged(groups, group)),
        digests_differ(merged(groups, group)),
{
    lemma_slot(groups, group.digest);
}

/// Recording groups invents none: each group that stands afterwards stood
/// before or is one of those recorded.
pub proof fn lemma_merged_all_comes_from(
    groups: Seq<DuplicateGroupView>,
    found: Seq<DuplicateGroupView>,
    i: int,
)
    requires
        0 <= i < merged_all(groups, found).len(),
    ensures
        groups.contains(merged_all(groups, found)[i]) || found.contains(
            merged_all(groups, found)[i],
        ),
    decreases found.len(),
{
    if found.len() > 0 {
        let earlier = merged_all(groups, found.drop_last());
        let last = found.last();
        lemma_slot(earlier, last.digest);
        assert(found[found.len() - 1] == last);
        if merged(earlier, last)[i] != last {
            assert(earlier[i] == merged(earlier, last)[i]);
            lemma_merged_all_comes_from(groups, found.drop_last(), i);
            if found.drop_last().contains(earlier[i]) {
                let k = choose|k: int|
                    0 <= k < found.drop_last().len() && found.drop_last()[k] == earlier[i];
                assert(found[k] == earlier[i]);
            }
        }
    } else {
        assert(groups[i] == merged_all(groups, found)[i]);
    }
}

/// Groups whose digests are new are recorded one after the other: where no
/// digest occurs twice among the groups that stand and those recorded, the
/// outcome is the one list followed by the other.
pub proof fn lemma_merged_all_of_new_digests(
    groups: Seq<DuplicateGroupView>,
    found: Seq<DuplicateGroupView>,
)
    requires
        digests_differ(groups + found),
    ensures
        merged_all(groups, found) == groups + found,
    decreases found.len(),
{
    let all = groups + found;
    if found.len() > 0 {
        let front = found.drop_last();
        let last = found.last();
        assert forall|i: int, j: int| 0 <= i < j < (groups + front).len() implies (#[trigger] (
        groups + front)[i]).digest != (#[trigger] (groups + front)[j]).digest by {
            assert((groups + front)[i] == all[i]);
            assert((groups + front)[j] == all[j]);
        }
        lemma_merged_all_of_new_digests(groups, front);
        let earlier = groups + front;
        lemma_slot(earlier, last.digest);
        let at = slot(earlier, last.digest);
        if at < earlier.len() {
            assert(earlier[at] == all[at]);
            assert(all[all.len() - 1] == last);
            assert(false);
        }
        assert(earlier.push(last) =~= all);
    } else {
        assert(groups + found =~= groups);
    }
}

/// The groups found in a bucket have at least two members each and bear
/// different digests.
pub proof fn lemma_found_groups_shape(bucket: Seq<usize>, ids: Seq<Option<Seq<char>>>)
    requires
        ids.len() == bucket.len(),
        bucket.len() <= usize::MAX,
    ensures
        all_plural(found_groups(bucket, ids)),
        digests_differ(found_groups(bucket, ids)),
{
    let found = found_groups(bucket, ids);
    assert forall|g: int| 0 <= g < found.len() implies (#[trigger] found[g]).members.len()
        >= 2 by {
        lemma_group_leader(ids, g);
    }
    assert forall|g: int, h: int| 0 <= g < h < found.len() implies (#[trigger] found[g]).digest != (
    #[trigger] found[h]).digest by {
        lemma_groups_differ_in_key(ids, g, h);
        lemma_group_shares_key(ids, g, 0, 0);
        lemma_group_shares_key(ids, h, 0, 0);
    }
}

/// The files of a duplicate group have the same content, byte for byte, as
/// long as no two of the scanned contents collide under SHA-256: each member
/// was given the digest of its own content, the members of a group bear one
/// digest, and that digest is the group's.
pub proof fn lemma_found_groups_share_content(
    contents: Seq<Seq<u8>>,
    bucket: Seq<usize>,
    ids: Seq<Option<Seq<char>>>,
    g: int,
    a: int,
    b: int,
)
    requires
        ids.len() == bucket.len(),
        bucket.len() <= usize::MAX,
        forall|k: int| 0 <= k < bucket.len() ==> (#[trigger] bucket[k]) < contents.len(),
        forall|k: int|
            0 <= k < bucket.len() && (#[trigger] ids[k]) is Some ==> ids[k] == Some(
                content_digest(contents[bucket[k] as int]),
            ),
        forall|i: int, j: int|
            0 <= i < contents.len() && 0 <= j < contents.len() && sha256(contents[i]) == sha256(
                contents[j],
            ) ==> #[trigger] contents[i] == #[trigger] contents[j],
        0 <= g < found_groups(bucket, ids).len(),
        0 <= a < found_groups(bucket, ids)[g].members.len(),
        0 <= b < found_groups(bucket, ids)[g].members.len(),
    ensures
        found_groups(bucket, ids)[g].members[a] < contents.len(),
        found_groups(bucket, ids)[g].members[b] < contents.len(),
        found_groups(bucket, ids)[g].digest == content_digest(
            contents[found_groups(bucket, ids)[g].members[a] as int],
        ),
        contents[found_groups(bucket, ids)[g].members[a] as int] == contents[found_groups(
            bucket,
            ids,
        )[g].members[b] as int],
{
    let places = grouping(ids)[g];
    lemma_group_shares_key(ids, g, a, b);
    lemma_group_shares_key(ids, g, 0, a);
    lemma_group_shares_key(ids, g, 0, b);
    let ka = places[a] as int;
    let kb = places[b] as int;
    let ca = contents[bucket[ka] as int];
    let cb = contents[bucket[kb] as int];
    assert(ids[ka] == Some(content_digest(ca)));
    assert(ids[kb] == Some(content_digest(cb)));
    assert(content_digest(ca) == content_digest(cb));
    lemma_hex_lower_injective(sha256(ca), sha256(cb));
}

/// Finds the first group that bears `digest`.
fn find_slot(groups: &Vec<DuplicateGroup>, digest: &String) -> (at: usize)
    ensures
        at == slot(groups_view(groups@), digest@),
        at <= groups.len(),
{
    let ghost all = groups_view(groups@);
    let mut i: usize = 0;
    assert(all.skip(0) =~= all);
    while i < groups.len()
        invariant
            i <= groups.len(),
            all == groups_view(groups@),
            slot(all, digest@) == i + slot(all.skip(i as int), digest@),
        decreases groups.len() - i,
    {
        assert(all.skip(i as int)[0] == groups@[i as int]@);
        if groups[i].digest.eq(digest) {
            return i;
        }
        assert(all.skip(i as int).drop_first() =~= all.skip(i as int + 1));
        i = i + 1;
    }
    i
}

/// Records `group` among `groups`.
fn record_group(groups: &mut Vec<DuplicateGroup>, group: DuplicateGroup)
    ensures
        groups_view(final(groups)@) == merged(groups_view(old(groups)@), group@),
{
    let at = find_slot(groups, &group.digest);
    if at < groups.len() {
        groups[at] = group;
        assert(groups_view(groups@) =~= groups_view(old(groups)@).update(at as int, group@));
    } else {
        groups.push(group);
        assert(groups_view(groups@) =~= groups_view(old(groups)@).push(group@));
    }
}

/// Brings `digests` to the length `n`: what lies beyond is dropped, and what
/// is missing is filled with `None`.
fn align(digests: Vec<Option<String>>, n: usize) -> (keys: Vec<Option<String>>)
    ensures
        keys@.len() == n,
        key_ids(keys@) == aligned(digests@, n as nat),
{
    let mut keys = digests;
    keys.truncate(n);
    while keys.len() < n
        invariant
            keys@.len() <= n,
            keys@.len() >= digests@.len() || keys@.len() >= n,
            forall|k: int| 0 <= k < keys@.len() ==> #[trigger] keys@[k] == if k < digests@.len() {
                digests@[k]
            } else {
                None
            },
        decreases n - keys@.len(),
    {
        keys.push(None);
    }
    assert(key_ids(keys@) =~= aligned(digests@, n as nat));
    keys
}

/// The positions in the scanned list of the bucket members at `places`.
fn members_at_places(bucket: &Vec<usize>, places: &Vec<usize>) -> (members: Vec<usize>)
    requires
        forall|k: int| 0 <= k < places@.len() ==> (#[trigger] places@[k]) < bucket@.len(),
    ensures
        members@ == Seq::new(places@.len(), |k: int| bucket@[places@[k] as int]),
{
    let mut members: Vec<usize> = Vec::new();
    let mut k: usize = 0;
    while k < places.len()
        invariant
            k <= places.len(),
            forall|k: int| 0 <= k < places@.len() ==> (#[trigger] places@[k]) < bucket@.len(),
            members@ == Seq::new(k as nat, |j: int| bucket@[places@[j] as int]),
        decreases places.len() - k,
    {
        members.push(bucket[places[k]]);
        assert(members@ =~= Seq::new((k + 1) as nat, |j: int| bucket@[places@[j] as int]));
        k = k + 1;
    }
    members
}

/// A detection in progress: the size buckets, how many of them have been
/// hashed, and the duplicate groups found so far.
pub struct Detector {
    buckets: Vec<Vec<usize>>,
    hashed: usize,
    groups: Vec<DuplicateGroup>,
}

impl Detector {
    #[verifier::type_invariant]
    spec fn well_formed(self) -> bool {
        &&& self.hashed <= self.buckets@.len()
        &&& all_plural(groups_view(self.groups@))
        &&& digests_differ(groups_view(self.groups@))
    }

    /// The size buckets: positions of files of one size, at least two each.
    pub closed spec fn buckets(&self) -> Seq<Seq<usize>> {
        self.buckets.deep_view()
    }

    /// How many buckets have had their digests recorded.
    pub closed spec fn hashed(&self) -> nat {
        self.hashed as nat
    }

    /// The duplicate groups found so far.
    pub closed spec fn groups(&self) -> Seq<DuplicateGroupView> {
        groups_view(self.groups@)
    }

    /// Starts a detection from the sizes of the scanned files, `None` for a
    /// file whose size could not be read. The files are bucketed by size; a
    /// file without a size, or alone with its size, lies in no bucket.
    pub fn new(sizes: &Vec<Option<u64>>) -> (detector: Detector)
        ensures
            detector.buckets() == grouping(key_ids(sizes@)),
            detector.hashed() == 0,
            detector.groups() == Seq::<DuplicateGroupView>::empty(),
    {
        let buckets = size_buckets(sizes);
        let groups: Vec<DuplicateGroup> = Vec::new();
        assert(groups_view(groups@) =~= Seq::<DuplicateGroupView>::empty());
        Detector { buckets, hashed: 0, groups }
    }

    /// The bucket whose files are to be hashed next, or `None` when every
    /// bucket has been hashed.
    pub fn current(&self) -> (bucket: Option<&Vec<usize>>)
        ensures
            match bucket {
                Some(b) => self.hashed() < self.buckets().len() && b@ == self.buckets()[self.hashed() as int],
                None => self.hashed() >= self.buckets().len(),
            },
    {
        proof {
            use_type_invariant(self);
        }
        if self.hashed < self.buckets.len() {
            let b = &self.buckets[self.hashed];
            assert(b@ =~= self.buckets.deep_view()[self.hashed as int]);
            Some(b)
        } else {
            None
        }
    }

    /// Takes the digests of the current bucket's files, one per member in the
    /// bucket's order and `None` for a file that could not be read, and gives
    /// the detection's next state. The members are grouped by digest; each
    /// group of at least two is recorded under its digest, in place of a
    /// group recorded under that digest before. When every bucket has been
    /// hashed, nothing changes.
    pub fn record(self, digests: Vec<Option<String>>) -> (next: Detector)
        ensures
            next.buckets() == self.buckets(),
            self.hashed() >= self.buckets().len() ==> next.hashed() == self.hashed()
                && next.groups() == self.groups(),
            self.hashed() < self.buckets().len() ==> next.hashed() == self.hashed() + 1
                && next.groups() == merged_all(
                self.groups(),
                found_groups(
                    self.buckets()[self.hashed() as int],
                    aligned(digests@, self.buckets()[self.hashed() as int].len()),
                ),
            ),
            all_plural(next.groups()),
            digests_differ(next.groups()),
    {
        proof {
            use_type_invariant(&self);
        }
        let Detector { buckets, hashed, mut groups } = self;
        if hashed >= buckets.len() {
            return Detector { buckets, hashed, groups };
        }
        let bucket = &buckets[hashed];
        let keys = align(digests, bucket.len());
        let local = group_positions(&keys);
        let ghost members = bucket@;
        let ghost ids = key_ids(keys@);
        let ghost found = found_groups(members, ids);
        let ghost before = groups_view(groups@);
        assert(members =~= self.buckets.deep_view()[hashed as int]);
        let mut g: usize = 0;
        assert(found.take(0) =~= Seq::<DuplicateGroupView>::empty());
        while g < local.len()
            invariant
                g <= local.len(),
                members == bucket@,
                ids == key_ids(keys@),
                ids.len() == bucket@.len(),
                local.deep_view() == grouping(ids),
                found == found_groups(members, ids),
                groups_view(groups@) == merged_all(before, found.take(g as int)),
                all_plural(groups_view(groups@)),
                digests_differ(groups_view(groups@)),
            decreases local.len() - g,
        {
            let places = &local[g];
            proof {
                assert(places@ =~= local.deep_view()[g as int]);
                lemma_group_leader(ids, g as int);
                assert forall|k: int| 0 <= k < places@.len() implies (#[trigger] places@[k])
                    < bucket@.len() by {
                    lemma_group_shares_key(ids, g as int, k, k);
                }
                lemma_group_shares_key(ids, g as int, 0, 0);
                assert(found.take(g as int + 1).drop_last() =~= found.take(g as int));
                assert(found[g as int] == found_group(members, ids)(places@));
            }
            let digest = match &keys[places[0]] {
                Some(d) => d.clone(),
                None => {
                    assert(false);
                    String::new()
                },
            };
            let group = DuplicateGroup { digest, members: members_at_places(bucket, places) };
            assert(group@ == found[g as int]);
            proof {
                lemma_merged_keeps_shape(groups_view(groups@), group@);
            }
            record_group(&mut groups, group);
            g = g + 1;
        }
        assert(found.take(g as int) =~= found);
        assert(aligned(digests@, bucket@.len() as nat) == ids);
        Detector { buckets, hashed: hashed + 1, groups }
    }

    /// Ends the detection and hands out the duplicate groups. Each has at
    /// least two members, and no two bear the same digest.
    pub fn into_groups(self) -> (groups: Vec<DuplicateGroup>)
        ensures
            groups_view(groups@) == self.groups(),
            all_plural(groups_view(groups@)),
            digests_differ(groups_view(groups@)),
    {
        proof {
            use_type_invariant(&self);
        }
        self.groups
    }
}

/// The digests of the current bucket's members, taken from the list of all
/// digests.
fn digests_of(bucket: &Vec<usize>, digests: &Vec<Option<String>>) -> (picked: Vec<Option<String>>)
    ensures
        picked@.len() == bucket@.len(),
        forall|k: int|
            0 <= k < bucket@.len() ==> id_of(#[trigger] picked@[k]) == if bucket@[k]
                < digests@.len() {
                id_of(digests@[bucket@[k] as int])
            } else {
                None
            },
{
    let mut picked: Vec<Option<String>> = Vec::new();
    let mut k: usize = 0;
    while k < bucket.len()
        invariant
            k <= bucket.len(),
            picked@.len() == k,
            forall|j: int|
                0 <= j < k ==> id_of(#[trigger] picked@[j]) == if bucket@[j] < digests@.len() {
                    id_of(digests@[bucket@[j] as int])
                } else {
                    None
                },
        decreases bucket.len() - k,
    {
        let at = bucket[k];
        let digest = if at < digests.len() {
            match &digests[at] {
                Some(d) => Some(d.clone()),
                None => None,
            }
        } else {
            None
        };
        picked.push(digest);
        k = k + 1;
    }
    picked
}

/// Finds the duplicates among the scanned files, given the size of each and
/// the digest of each, `None` where a file could not be read. Only the
/// digests of files that share their size with another are looked at; a
/// digest that is missing from the end of the list counts as `None`. The
/// outcome is that of a detection in which every size bucket is hashed in
/// turn: groups of at least two files of one size and one digest, no two
/// groups with the same digest.
pub fn find_duplicates(sizes: &Vec<Option<u64>>, digests: &Vec<Option<String>>) -> (groups: Vec<
    DuplicateGroup,
>)
    ensures
        groups_view(groups@) == detected(
            key_ids(sizes@),
            aligned(digests@, sizes@.len()),
            grouping(key_ids(sizes@)).len(),
        ),
        all_plural(groups_view(groups@)),
        digests_differ(groups_view(groups@)),
{
    let ghost by_size = key_ids(sizes@);
    let ghost by_digest = aligned(digests@, sizes@.len());
    let mut detector = Detector::new(sizes);
    assert(by_size.len() == sizes.len());
    loop
        invariant
            by_size.len() <= usize::MAX,
            by_size == key_ids(sizes@),
            by_digest == aligned(digests@, sizes@.len()),
            detector.buckets() == grouping(by_size),
            detector.hashed() <= detector.buckets().len(),
            detector.groups() == detected(by_size, by_digest, detector.hashed()),
        ensures
            detector.hashed() == detector.buckets().len(),
        decreases detector.buckets().len() - detector.hashed(),
    {
        let picked = match detector.current() {
            Some(bucket) => {
                let picked = digests_of(bucket, digests);
                proof {
                    let b = detector.hashed() as int;
                    assert forall|k: int| 0 <= k < bucket@.len() implies (#[trigger] bucket@[k])
                        < sizes@.len() by {
                        lemma_group_shares_key(by_size, b, k, k);
                    }
                    assert(aligned(picked@, bucket@.len()) =~= bucket_digests(bucket@, by_digest));
                }
                picked
            },
            None => {
                break ;
            },
        };
        detector = detector.record(picked);
    }
    detector.into_groups()
}

} // verus!
