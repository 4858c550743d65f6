//! Whole detections: what a detection ends with when every file has one size
//! and one digest throughout.
//!
//! The scanned files are taken as two lists by position: the size of each
//! file and the digest that hashing it gives, each `None` where the file
//! cannot be read. A detection that is started from the sizes, and given for
//! each bucket the digests of its members, ends with groups of files that
//! agree in size and in digest, and with every pair of such files in a group.

use crate::detect::bucket_digests;
use crate::detect::detected;
use crate::detect::digests_differ;
use crate::detect::found_in;
use crate::detect::found_group;
use crate::detect::found_groups;
use crate::detect::lemma_found_groups_shape;
use crate::detect::lemma_merged_all_comes_from;
use crate::detect::lemma_merged_all_of_new_digests;
use crate::digest::content_digest;
use crate::digest::lemma_hex_lower_injective;
use crate::digest::sha256;
use crate::grouping::alike;
use crate::grouping::grouping;
use crate::grouping::lemma_group_leader;
use crate::grouping::lemma_group_shares_key;
use crate::grouping::lemma_groups_differ_in_key;
use crate::grouping::lemma_repeated_key_is_grouped;
use vstd::prelude::*;

verus! {

/// Files with the same digest have the same size.
pub open spec fn digest_fixes_size(sizes: Seq<Option<u64>>, digest: Seq<Option<Seq<char>>>) -> bool {
    forall|p: int, q: int|
        0 <= p < sizes.len() && 0 <= q < sizes.len() && (#[trigger] digest[p]) is Some && digest[p]
            == (#[trigger] digest[q]) ==> sizes[p] == sizes[q]
}

/// A size bucket holds no more positions than the list.
proof fn lemma_bucket_len(sizes: Seq<Option<u64>>, b: int)
    requires
        sizes.len() <= usize::MAX,
        0 <= b < grouping(sizes).len(),
    ensures
        grouping(sizes)[b].len() <= sizes.len(),
{
    broadcast use vstd::seq_lib::group_filter_ensures;

    lemma_group_leader(sizes, b);
}

/// The members of a group found in a size bucket are files of that bucket,
/// in ascending order, and each has the group's digest.
pub proof fn lemma_found_member(
    sizes: Seq<Option<u64>>,
    digest: Seq<Option<Seq<char>>>,
    b: int,
    g: int,
    a: int,
)
    requires
        sizes.len() == digest.len(),
        sizes.len() <= usize::MAX,
        0 <= b < grouping(sizes).len(),
        0 <= g < found_in(sizes, digest, b).len(),
        0 <= a < found_in(sizes, digest, b)[g].members.len(),
    ensures
        found_in(sizes, digest, b)[g].members.len() >= 2,
        found_in(sizes, digest, b)[g].members[a] < sizes.len(),
        sizes[found_in(sizes, digest, b)[g].members[a] as int] is Some,
        sizes[found_in(sizes, digest, b)[g].members[a] as int] == sizes[grouping(sizes)[b][0] as int],
        digest[found_in(sizes, digest, b)[g].members[a] as int] == Some(
            found_in(sizes, digest, b)[g].digest,
        ),
        forall|c: int|
            a < c < found_in(sizes, digest, b)[g].members.len() ==> found_in(
                sizes,
                digest,
                b,
            )[g].members[a] < #[trigger] found_in(sizes, digest, b)[g].members[c],
{
    let bucket = grouping(sizes)[b];
    let ids = bucket_digests(bucket, digest);
    lemma_bucket_len(sizes, b);
    let places = grouping(ids)[g];
    assert(found_in(sizes, digest, b)[g] == found_group(bucket, ids)(places));
    lemma_group_leader(ids, g);
    lemma_group_shares_key(ids, g, a, 0);
    lemma_group_shares_key(sizes, b, places[a] as int, 0);
    assert forall|c: int| a < c < places.len() implies bucket[places[a] as int]
        < #[trigger] bucket[places[c] as int] by {
        lemma_group_shares_key(ids, g, a, c);
        lemma_group_shares_key(sizes, b, places[a] as int, places[c] as int);
    }
    assert forall|c: int|
        a < c < found_in(sizes, digest, b)[g].members.len() implies found_in(
        sizes,
        digest,
        b,
    )[g].members[a] < #[trigger] found_in(sizes, digest, b)[g].members[c] by {
        assert(found_in(sizes, digest, b)[g].members[c] == bucket[places[c] as int]);
    }
}

/// Each group that stands was found in one of the buckets hashed so far.
pub proof fn lemma_detected_comes_from(
    sizes: Seq<Option<u64>>,
    digest: Seq<Option<Seq<char>>>,
    count: nat,
    i: int,
) -> (origin: (int, int))
    requires
        count <= grouping(sizes).len(),
        0 <= i < detected(sizes, digest, count).len(),
    ensures
        0 <= origin.0 < count,
        0 <= origin.1 < found_in(sizes, digest, origin.0).len(),
        found_in(sizes, digest, origin.0)[origin.1] == detected(sizes, digest, count)[i],
    decreases count,
{
    let last = count - 1;
    let earlier = detected(sizes, digest, last as nat);
    let found = found_in(sizes, digest, last);
    let group = detected(sizes, digest, count)[i];
    lemma_merged_all_comes_from(earlier, found, i);
    if found.contains(group) {
        let g = choose|g: int| 0 <= g < found.len() && found[g] == group;
        (last, g)
    } else {
        let k = choose|k: int| 0 <= k < earlier.len() && earlier[k] == group;
        lemma_detected_comes_from(sizes, digest, last as nat, k)
    }
}

/// Every group of a detection holds at least two files; they are different
/// files of one size, and each has the group's digest.
pub proof fn lemma_detected_is_sound(
    sizes: Seq<Option<u64>>,
    digest: Seq<Option<Seq<char>>>,
    count: nat,
    i: int,
    a: int,
    c: int,
)
    requires
        sizes.len() == digest.len(),
        sizes.len() <= usize::MAX,
        count <= grouping(sizes).len(),
        0 <= i < detected(sizes, digest, count).len(),
        0 <= a < detected(sizes, digest, count)[i].members.len(),
        0 <= c < detected(sizes, digest, count)[i].members.len(),
    ensures
        detected(sizes, digest, count)[i].members.len() >= 2,
        detected(sizes, digest, count)[i].members[a] < sizes.len(),
        detected(sizes, digest, count)[i].members[c] < sizes.len(),
        sizes[detected(sizes, digest, count)[i].members[a] as int] is Some,
        sizes[detected(sizes, digest, count)[i].members[a] as int] == sizes[detected(
            sizes,
            digest,
            count,
        )[i].members[c] as int],
        digest[detected(sizes, digest, count)[i].members[a] as int] == Some(
            detected(sizes, digest, count)[i].digest,
        ),
        a != c ==> detected(sizes, digest, count)[i].members[a] != detected(
            sizes,
            digest,
            count,
        )[i].members[c],
{
    let (b, g) = lemma_detected_comes_from(sizes, digest, count, i);
    lemma_found_member(sizes, digest, b, g, a);
    lemma_found_member(sizes, digest, b, g, c);
}

/// The files of a group have the same content, byte for byte, as long as no
/// two of the scanned contents collide under SHA-256 and each digest is that
/// of the file's content.
pub proof fn lemma_detected_share_content(
    contents: Seq<Seq<u8>>,
    sizes: Seq<Option<u64>>,
    digest: Seq<Option<Seq<char>>>,
    count: nat,
    i: int,
    a: int,
    c: int,
)
    requires
        sizes.len() == digest.len(),
        sizes.len() == contents.len(),
        sizes.len() <= usize::MAX,
        count <= grouping(sizes).len(),
        forall|p: int|
            0 <= p < digest.len() && (#[trigger] digest[p]) is Some ==> digest[p] == Some(
                content_digest(contents[p]),
            ),
        forall|p: int, q: int|
            0 <= p < contents.len() && 0 <= q < contents.len() && sha256(contents[p]) == sha256(
                contents[q],
            ) ==> #[trigger] contents[p] == #[trigger] contents[q],
        0 <= i < detected(sizes, digest, count).len(),
        0 <= a < detected(sizes, digest, count)[i].members.len(),
        0 <= c < detected(sizes, digest, count)[i].members.len(),
    ensures
        detected(sizes, digest, count)[i].members[a] < contents.len(),
        detected(sizes, digest, count)[i].members[c] < contents.len(),
        contents[detected(sizes, digest, count)[i].members[a] as int] == contents[detected(
            sizes,
            digest,
            count,
        )[i].members[c] as int],
{
    lemma_detected_is_sound(sizes, digest, count, i, a, c);
    lemma_detected_is_sound(sizes, digest, count, i, c, a);
    let p = detected(sizes, digest, count)[i].members[a] as int;
    let q = detected(sizes, digest, count)[i].members[c] as int;
    assert(digest[p] == Some(content_digest(contents[p])));
    assert(digest[q] == Some(content_digest(contents[q])));
    lemma_hex_lower_injective(sha256(contents[p]), sha256(contents[q]));
}

/// Where the digest fixes the size, no digest is found in two buckets, so the
/// groups found in the size buckets are recorded one after the other.
proof fn lemma_detected_unfolds(
    sizes: Seq<Option<u64>>,
    digest: Seq<Option<Seq<char>>>,
    count: nat,
)
    requires
        sizes.len() == digest.len(),
        sizes.len() <= usize::MAX,
        count <= grouping(sizes).len(),
        digest_fixes_size(sizes, digest),
    ensures
        digests_differ(detected(sizes, digest, count)),
        count > 0 ==> detected(sizes, digest, count) == detected(sizes, digest, (count - 1) as nat)
            + found_in(sizes, digest, count - 1),
    decreases count,
{
    if count > 0 {
        let last = count - 1;
        let earlier = detected(sizes, digest, last as nat);
        let found = found_in(sizes, digest, last);
        lemma_detected_unfolds(sizes, digest, last as nat);
        lemma_bucket_len(sizes, last);
        lemma_found_groups_shape(
            grouping(sizes)[last],
            bucket_digests(grouping(sizes)[last], digest),
        );
        let all = earlier + found;
        assert forall|i: int, j: int| 0 <= i < j < all.len() implies (#[trigger] all[i]).digest != (
        #[trigger] all[j]).digest by {
            if i < earlier.len() && j >= earlier.len() {
                let (b, g) = lemma_detected_comes_from(sizes, digest, last as nat, i);
                let h = j - earlier.len();
                assert(all[j] == found[h]);
                lemma_found_member(sizes, digest, b, g, 0);
                lemma_found_member(sizes, digest, last, h, 0);
                lemma_groups_differ_in_key(sizes, b, last);
                let p = earlier[i].members[0] as int;
                let q = found[h].members[0] as int;
                if all[i].digest == all[j].digest {
                    assert(digest[p] == digest[q]);
                    assert(sizes[p] == sizes[q]);
                    assert(false);
                }
            } else if i >= earlier.len() {
                assert(all[i] == found[i - earlier.len()]);
                assert(all[j] == found[j - earlier.len()]);
            }
        }
        lemma_merged_all_of_new_digests(earlier, found);
    }
}

/// The groups found in a bucket that has been hashed stand at the end of the
/// detection.
proof fn lemma_detected_keeps_found(
    sizes: Seq<Option<u64>>,
    digest: Seq<Option<Seq<char>>>,
    count: nat,
    b: int,
    g: int,
)
    requires
        sizes.len() == digest.len(),
        sizes.len() <= usize::MAX,
        count <= grouping(sizes).len(),
        digest_fixes_size(sizes, digest),
        0 <= b < count,
        0 <= g < found_in(sizes, digest, b).len(),
    ensures
        detected(sizes, digest, count).contains(found_in(sizes, digest, b)[g]),
    decreases count,
{
    lemma_detected_unfolds(sizes, digest, count);
    let earlier = detected(sizes, digest, (count - 1) as nat);
    let found = found_in(sizes, digest, count - 1);
    if b == count - 1 {
        assert((earlier + found)[earlier.len() + g] == found[g]);
    } else {
        lemma_detected_keeps_found(sizes, digest, (count - 1) as nat, b, g);
        let i = choose|i: int| 0 <= i < earlier.len() && earlier[i] == found_in(sizes, digest, b)[g];
        assert((earlier + found)[i] == earlier[i]);
    }
}

/// No duplicate is missed: two different files that agree in size and in
/// digest lie together in a group at the end of the detection, and the group
/// bears their digest.
pub proof fn lemma_detected_is_complete(
    sizes: Seq<Option<u64>>,
    digest: Seq<Option<Seq<char>>>,
    p: int,
    q: int,
) -> (i: int)
    requires
        sizes.len() == digest.len(),
        sizes.len() <= usize::MAX,
        digest_fixes_size(sizes, digest),
        0 <= p < sizes.len(),
        0 <= q < sizes.len(),
        p != q,
        sizes[p] is Some,
        sizes[p] == sizes[q],
        digest[p] is Some,
        digest[p] == digest[q],
    ensures
        0 <= i < detected(sizes, digest, grouping(sizes).len()).len(),
        detected(sizes, digest, grouping(sizes).len())[i].digest == digest[p].unwrap(),
        detected(sizes, digest, grouping(sizes).len())[i].members.contains(p as usize),
        detected(sizes, digest, grouping(sizes).len())[i].members.contains(q as usize),
{
    let b = lemma_repeated_key_is_grouped(sizes, p, q);
    let bucket = grouping(sizes)[b];
    lemma_bucket_len(sizes, b);
    let ids = bucket_digests(bucket, digest);
    let kp = choose|k: int| 0 <= k < bucket.len() && bucket[k] == p as usize;
    let kq = choose|k: int| 0 <= k < bucket.len() && bucket[k] == q as usize;
    assert(alike(ids, kp, kq));
    let g = lemma_repeated_key_is_grouped(ids, kp, kq);
    let places = grouping(ids)[g];
    let group = found_in(sizes, digest, b)[g];
    assert(group == found_group(bucket, ids)(places));
    let ap = choose|a: int| 0 <= a < places.len() && places[a] == kp as usize;
    let aq = choose|a: int| 0 <= a < places.len() && places[a] == kq as usize;
    assert(group.members[ap] == p as usize);
    assert(group.members[aq] == q as usize);
    lemma_found_member(sizes, digest, b, g, ap);
    let count = grouping(sizes).len();
    lemma_detected_keeps_found(sizes, digest, count, b, g);
    let all = detected(sizes, digest, count);
    choose|i: int| 0 <= i < all.len() && all[i] == group
}

} // verus!
