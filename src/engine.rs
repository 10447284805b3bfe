use crate::record::{
    lemma_total_size_concat, sort_records, sorted_records, total_size, utf8_of, FileData,
};
use fuzzy_matcher::FuzzyMatcher;
use vstd::prelude::*;

verus! {

/// The score that the skim matcher, with its default scoring and with case
/// ignored, gives `choice` against `pattern`; `None` when the characters of
/// `pattern` do not all occur in `choice` in order.
pub uninterp spec fn skim_score(choice: Seq<char>, pattern: Seq<char>) -> Option<i64>;

/// Relies on `fuzzy_matcher::skim::SkimMatcherV2::fuzzy_match`, on a fresh
/// matcher with the default score configuration that ignores case: the score
/// depends on the two strings alone, and an empty pattern scores `Some(0)`.
#[verifier::external_body]
fn name_score(choice: &str, pattern: &str) -> (r: Option<i64>)
    ensures
        r == skim_score(choice@, pattern@),
        pattern@.len() == 0 ==> r == Some(0i64),
{
    fuzzy_matcher::skim::SkimMatcherV2::default().ignore_case().fuzzy_match(choice, pattern)
}

/// ASCII upper-case letters map to lower case; every other byte to itself.
pub open spec fn ascii_lower(b: u8) -> u8 {
    if 65 <= b <= 90 {
        (b + 32) as u8
    } else {
        b
    }
}

/// Two byte strings are equal once ASCII letters are folded to lower case.
pub open spec fn eq_ignore_ascii_case(a: Seq<u8>, b: Seq<u8>) -> bool {
    a.len() == b.len() && forall|i: int| 0 <= i < a.len() ==> ascii_lower(a[i]) == ascii_lower(b[i])
}

/// Two digest texts name the same digest: hex is compared without regard to case.
pub open spec fn digests_match(a: String, b: String) -> bool {
    eq_ignore_ascii_case(utf8_of(a), utf8_of(b))
}

/// Whether `candidate` is a duplicate of `anchor`, given the score of the
/// candidate's name against the anchor's: the score reaches the threshold and,
/// when contents are compared, the digests match.
pub open spec fn verdict(
    score: Option<i64>,
    anchor: FileData,
    candidate: FileData,
    threshold: i64,
    use_content_hash: bool,
) -> bool {
    match score {
        Some(s) => s >= threshold && (!use_content_hash || digests_match(anchor.sha, candidate.sha)),
        None => false,
    }
}

/// Whether `candidate` is a duplicate of `anchor`.
pub open spec fn is_duplicate_of(
    anchor: FileData,
    candidate: FileData,
    threshold: i64,
    use_content_hash: bool,
) -> bool {
    verdict(
        skim_score(candidate.file_name@, anchor.file_name@),
        anchor,
        candidate,
        threshold,
        use_content_hash,
    )
}

/// The duplicates of `anchor` among `candidates`, in their order.
pub open spec fn duplicates_in(
    anchor: FileData,
    candidates: Seq<FileData>,
    threshold: i64,
    use_content_hash: bool,
) -> Seq<FileData>
    decreases candidates.len(),
{
    if candidates.len() == 0 {
        Seq::empty()
    } else {
        let rest = duplicates_in(anchor, candidates.drop_last(), threshold, use_content_hash);
        if is_duplicate_of(anchor, candidates.last(), threshold, use_content_hash) {
            rest.push(candidates.last())
        } else {
            rest
        }
    }
}

/// The clusters found from position `count` of the working sequence `work` on.
/// The record at `count` is the anchor; its duplicates are sought among the
/// records after it. Once an anchor has duplicates, the working sequence drops
/// its first `duplicates - 1` records before the next position is taken.
pub open spec fn clusters_from(
    work: Seq<FileData>,
    count: int,
    threshold: i64,
    use_content_hash: bool,
) -> Seq<(FileData, Seq<FileData>)>
    decreases work.len() - count,
    via clusters_from_decreases
{
    if count < 0 || count >= work.len() {
        Seq::empty()
    } else {
        let d = duplicates_in(
            work[count],
            work.subrange(count + 1, work.len() as int),
            threshold,
            use_content_hash,
        );
        if d.len() == 0 {
            clusters_from(work, count + 1, threshold, use_content_hash)
        } else {
            seq![(work[count], d)] + clusters_from(
                work.subrange(d.len() - 1, work.len() as int),
                count + 1,
                threshold,
                use_content_hash,
            )
        }
    }
}

#[via_fn]
proof fn clusters_from_decreases(
    work: Seq<FileData>,
    count: int,
    threshold: i64,
    use_content_hash: bool,
) {
    if 0 <= count < work.len() {
        lemma_duplicates_in_bounds(
            work[count],
            work.subrange(count + 1, work.len() as int),
            threshold,
            use_content_hash,
        );
    }
}

/// The clusters of an inventory: records in clustering order, scanned from
/// the first.
pub open spec fn duplicate_clusters(
    records: Seq<FileData>,
    threshold: i64,
    use_content_hash: bool,
) -> Seq<(FileData, Seq<FileData>)> {
    clusters_from(sorted_records(records), 0, threshold, use_content_hash)
}

/// The sum, over all clusters, of the sizes of their members.
pub open spec fn total_wasted(clusters: Seq<(FileData, Seq<FileData>)>) -> int
    decreases clusters.len(),
{
    if clusters.len() == 0 {
        0
    } else {
        total_wasted(clusters.drop_last()) + total_size(clusters.last().1)
    }
}

/// Sizes add up to no less than zero.
pub proof fn lemma_total_size_nonneg(s: Seq<FileData>)
    ensures
        total_size(s) >= 0,
    decreases s.len(),
{
    if s.len() > 0 {
        lemma_total_size_nonneg(s.drop_last());
    }
}

proof fn lemma_total_size_suffix(s: Seq<FileData>, a: int)
    requires
        0 <= a <= s.len(),
    ensures
        total_size(s.subrange(a, s.len() as int)) <= total_size(s),
{
    let (front, back) = (s.subrange(0, a), s.subrange(a, s.len() as int));
    assert(s =~= front + back);
    lemma_total_size_concat(front, back);
    lemma_total_size_nonneg(front);
}

/// The duplicates of an anchor are some of the candidates, each one a duplicate.
pub proof fn lemma_duplicates_in_bounds(
    anchor: FileData,
    candidates: Seq<FileData>,
    threshold: i64,
    use_content_hash: bool,
)
    ensures
        duplicates_in(anchor, candidates, threshold, use_content_hash).len() <= candidates.len(),
        total_size(duplicates_in(anchor, candidates, threshold, use_content_hash)) <= total_size(
            candidates,
        ),
        forall|m: FileData| #[trigger]
            duplicates_in(anchor, candidates, threshold, use_content_hash).contains(m)
                ==> candidates.contains(m) && is_duplicate_of(
                anchor,
                m,
                threshold,
                use_content_hash,
            ),
    decreases candidates.len(),
{
    if candidates.len() > 0 {
        let rest = candidates.drop_last();
        lemma_duplicates_in_bounds(anchor, rest, threshold, use_content_hash);
        lemma_total_size_nonneg(duplicates_in(anchor, rest, threshold, use_content_hash));
        let d = duplicates_in(anchor, candidates, threshold, use_content_hash);
        if is_duplicate_of(anchor, candidates.last(), threshold, use_content_hash) {
            assert(d.drop_last() =~= duplicates_in(anchor, rest, threshold, use_content_hash));
        }
        assert forall|m: FileData| #[trigger] d.contains(m) implies candidates.contains(m)
            && is_duplicate_of(anchor, m, threshold, use_content_hash) by {
            let i = choose|i: int| 0 <= i < d.len() && d[i] == m;
            if i < duplicates_in(anchor, rest, threshold, use_content_hash).len() {
                assert(duplicates_in(anchor, rest, threshold, use_content_hash).contains(m));
                let k = choose|k: int| 0 <= k < rest.len() && rest[k] == m;
                assert(candidates[k] == m);
            } else {
                assert(candidates[candidates.len() - 1] == m);
            }
        }
    }
}

/// One cluster: a representative and the records judged its duplicates.
#[derive(Debug, Clone)]
pub struct DuplicateCluster {
    pub representative: FileData,
    pub members: Vec<FileData>,
    /// The sum of the members' sizes.
    pub wasted_bytes: u64,
}

impl DuplicateCluster {
    /// The representative and the members.
    pub open spec fn pair(&self) -> (FileData, Seq<FileData>) {
        (self.representative, self.members@)
    }
}

fn lower_byte(b: u8) -> (r: u8)
    ensures
        r == ascii_lower(b),
{
    if 65 <= b && b <= 90 {
        b + 32
    } else {
        b
    }
}

/// Compares two digest texts without regard to ASCII case.
pub fn digests_equal(a: &String, b: &String) -> (r: bool)
    ensures
        r == digests_match(*a, *b),
{
    let x = a.as_str().as_bytes();
    let y = b.as_str().as_bytes();
    if x.len() != y.len() {
        return false;
    }
    let mut i: usize = 0;
    while i < x.len()
        invariant
            i <= x@.len(),
            x@.len() == y@.len(),
            x@ == utf8_of(*a),
            y@ == utf8_of(*b),
            forall|k: int| 0 <= k < i ==> ascii_lower(x@[k]) == ascii_lower(y@[k]),
        decreases x@.len() - i,
    {
        if lower_byte(x[i]) != lower_byte(y[i]) {
            return false;
        }
        i += 1;
    }
    true
}

/// Decides, from the score of the candidate's name against the anchor's,
/// whether `candidate` is a duplicate of `anchor`.
pub fn judge_duplicate(
    score: Option<i64>,
    anchor: &FileData,
    candidate: &FileData,
    threshold: i64,
    use_content_hash: bool,
) -> (r: bool)
    ensures
        r == verdict(score, *anchor, *candidate, threshold, use_content_hash),
{
    match score {
        Some(s) => s >= threshold && (!use_content_hash || digests_equal(
            &anchor.sha,
            &candidate.sha,
        )),
        None => false,
    }
}

/// Whether `candidate` is a duplicate of `anchor`: its name scores at least
/// `threshold` against the anchor's and, when contents are compared, the
/// digests match.
pub fn is_a_duplicate(
    candidate: &FileData,
    anchor: &FileData,
    threshold: i64,
    use_content_hash: bool,
) -> (r: bool)
    ensures
        r == is_duplicate_of(*anchor, *candidate, threshold, use_content_hash),
{
    let score = name_score(candidate.file_name.as_str(), anchor.file_name.as_str());
    judge_duplicate(score, anchor, candidate, threshold, use_content_hash)
}

/// One step of the scan: the duplicates of the record at `count` among those
/// after it. When there are some, the working sequence drops its first
/// `duplicates - 1` records.
fn find_duplicate(
    work: &mut Vec<FileData>,
    count: usize,
    threshold: i64,
    use_content_hash: bool,
) -> (r: Option<DuplicateCluster>)
    requires
        count < old(work)@.len(),
        total_size(old(work)@) <= u64::MAX,
    ensures
        ({
            let d = duplicates_in(
                old(work)@[count as int],
                old(work)@.subrange(count + 1, old(work)@.len() as int),
                threshold,
                use_content_hash,
            );
            &&& d.len() == 0 ==> r is None && final(work)@ == old(work)@
            &&& d.len() > 0 ==> r is Some && r.unwrap().pair() == (old(work)@[count as int], d)
                && r.unwrap().wasted_bytes == total_size(d) && final(work)@ == old(work)@.subrange(
                d.len() - 1,
                old(work)@.len() as int,
            )
        }),
{
    let len = work.len();
    let anchor = work[count].copied();
    let mut members: Vec<FileData> = Vec::new();
    let mut wasted: u64 = 0;
    let mut j: usize = count + 1;
    proof {
        lemma_total_size_suffix(work@, count + 1);
    }
    assert(work@.subrange(count + 1, count + 1) =~= Seq::<FileData>::empty());
    while j < work.len()
        invariant
            count < j <= work@.len(),
            anchor == work@[count as int],
            total_size(work@.subrange(count + 1, work@.len() as int)) <= u64::MAX,
            members@ == duplicates_in(
                anchor,
                work@.subrange(count + 1, j as int),
                threshold,
                use_content_hash,
            ),
            wasted == total_size(members@),
            total_size(members@) <= total_size(work@.subrange(count + 1, j as int)),
        decreases work@.len() - j,
    {
        let ghost seen = work@.subrange(count + 1, j as int);
        let ghost next = work@.subrange(count + 1, j + 1);
        proof {
            assert(next.drop_last() =~= seen);
            let (front, back) = (next, work@.subrange(j + 1, work@.len() as int));
            assert(work@.subrange(count + 1, work@.len() as int) =~= front + back);
            lemma_total_size_concat(front, back);
            lemma_total_size_nonneg(back);
        }
        if is_a_duplicate(&work[j], &anchor, threshold, use_content_hash) {
            let m = work[j].copied();
            wasted = wasted + m.size;
            members.push(m);
            assert(members@.drop_last() =~= duplicates_in(anchor, seen, threshold, use_content_hash));
        }
        j += 1;
    }
    assert(work@.subrange(count + 1, j as int) =~= work@.subrange(
        count + 1,
        work@.len() as int,
    ));
    if members.len() == 0 {
        return None;
    }
    proof {
        lemma_duplicates_in_bounds(
            anchor,
            work@.subrange(count + 1, work@.len() as int),
            threshold,
            use_content_hash,
        );
    }
    let skip = members.len() - 1;
    let mut rest: Vec<FileData> = Vec::new();
    let mut t: usize = skip;
    while t < work.len()
        invariant
            skip <= t <= work@.len(),
            rest@ == work@.subrange(skip as int, t as int),
        decreases work@.len() - t,
    {
        rest.push(work[t].copied());
        assert(rest@ =~= work@.subrange(skip as int, t + 1));
        t += 1;
    }
    *work = rest;
    Some(DuplicateCluster { representative: anchor, members, wasted_bytes: wasted })
}

/// Finds the duplicate clusters of an inventory and the bytes they waste.
///
/// The records are put in clustering order (name, then size); each position
/// of the working sequence in turn is an anchor, compared with every record
/// after it. An anchor with duplicates yields a cluster, and the working
/// sequence then drops its first `duplicates - 1` records; so a record may be
/// a member of more than one cluster. The second result is the sum of the
/// members' sizes over all clusters.
pub fn find_duplicates(records: &Vec<FileData>, threshold: i64, use_content_hash: bool) -> (r: (
    Vec<DuplicateCluster>,
    u64,
))
    requires
        records@.len() * total_size(records@) <= u64::MAX,
    ensures
        r.0@.map_values(|c: DuplicateCluster| c.pair()) == duplicate_clusters(
            records@,
            threshold,
            use_content_hash,
        ),
        forall|i: int| 0 <= i < r.0@.len() ==> #[trigger] r.0@[i].wasted_bytes == total_size(r.0@[i].members@),
        r.1 == total_wasted(duplicate_clusters(records@, threshold, use_content_hash)),
{
    let mut work = sort_records(records);
    let ghost sorted = work@;
    let ghost whole = total_size(records@);
    let ghost n = records@.len() as int;
    let mut clusters: Vec<DuplicateCluster> = Vec::new();
    let mut total: u64 = 0;
    let mut count: usize = 0;
    proof {
        lemma_total_size_nonneg(records@);
        crate::record::lemma_sorted_records(records@);
    }
    assert(clusters@.map_values(|c: DuplicateCluster| c.pair()) + clusters_from(
        work@,
        0,
        threshold,
        use_content_hash,
    ) =~= clusters_from(sorted, 0, threshold, use_content_hash));
    while count < work.len()
        invariant
            count <= work@.len() <= n,
            n * whole <= u64::MAX,
            0 <= total_size(work@) <= whole,
            clusters@.len() <= count,
            total <= clusters@.len() * whole,
            sorted == sorted_records(records@),
            clusters@.map_values(|c: DuplicateCluster| c.pair()) + clusters_from(
                work@,
                count as int,
                threshold,
                use_content_hash,
            ) == clusters_from(sorted, 0, threshold, use_content_hash),
            total == total_wasted(clusters@.map_values(|c: DuplicateCluster| c.pair())),
            forall|i: int| 0 <= i < clusters@.len() ==> #[trigger] clusters@[i].wasted_bytes == total_size(clusters@[i].members@),
        decreases work@.len() - count,
    {
        let ghost old_work = work@;
        let ghost old_view = clusters@.map_values(|c: DuplicateCluster| c.pair());
        proof {
            lemma_duplicates_in_bounds(
                old_work[count as int],
                old_work.subrange(count + 1, old_work.len() as int),
                threshold,
                use_content_hash,
            );
            lemma_total_size_suffix(old_work, count + 1);
            assert(whole <= u64::MAX) by (nonlinear_arith)
                requires
                    n >= 1,
                    whole >= 0,
                    n * whole <= u64::MAX,
            ;
        }
        let found = find_duplicate(&mut work, count, threshold, use_content_hash);
        match found {
            None => {},
            Some(cluster) => {
                let ghost d = cluster.members@;
                proof {
                    lemma_total_size_suffix(old_work, d.len() - 1);
                    assert((clusters@.len() + 1) * whole <= n * whole) by (nonlinear_arith)
                        requires
                            clusters@.len() + 1 <= n,
                            whole >= 0,
                    ;
                    assert((clusters@.len() + 1) * whole == clusters@.len() * whole + whole)
                        by (nonlinear_arith);
                }
                total = total + cluster.wasted_bytes;
                clusters.push(cluster);
                proof {
                    let new_view = clusters@.map_values(|c: DuplicateCluster| c.pair());
                    assert(new_view =~= old_view.push((old_work[count as int], d)));
                    assert(new_view.drop_last() =~= old_view);
                    assert(old_view.push((old_work[count as int], d)) + clusters_from(
                        work@,
                        count + 1,
                        threshold,
                        use_content_hash,
                    ) =~= old_view + (seq![(old_work[count as int], d)] + clusters_from(
                        work@,
                        count + 1,
                        threshold,
                        use_content_hash,
                    )));
                }
            },
        }
        proof {
            lemma_total_size_nonneg(work@);
        }
        count += 1;
    }
    assert(clusters_from(work@, count as int, threshold, use_content_hash) =~= Seq::empty());
    assert(clusters@.map_values(|c: DuplicateCluster| c.pair()) =~= clusters@.map_values(
        |c: DuplicateCluster| c.pair(),
    ) + clusters_from(work@, count as int, threshold, use_content_hash));
    (clusters, total)
}

/// Whether an inventory is small enough for `find_duplicates`: the record
/// count times the total size fits in a `u64`.
pub fn clustering_fits(records: &Vec<FileData>) -> (r: bool)
    ensures
        r == (records@.len() * total_size(records@) <= u64::MAX),
{
    let mut total: u64 = 0;
    let mut i: usize = 0;
    assert(records@.subrange(0, 0) =~= Seq::<FileData>::empty());
    while i < records.len()
        invariant
            i <= records@.len(),
            total == total_size(records@.subrange(0, i as int)),
        decreases records@.len() - i,
    {
        assert(records@.subrange(0, i + 1).drop_last() =~= records@.subrange(0, i as int));
        if total > u64::MAX - records[i].size {
            proof {
                let (front, back) = (
                    records@.subrange(0, i + 1),
                    records@.subrange(i + 1, records@.len() as int),
                );
                assert(records@ =~= front + back);
                lemma_total_size_concat(front, back);
                lemma_total_size_nonneg(back);
                assert(records@.len() * total_size(records@) >= total_size(records@))
                    by (nonlinear_arith)
                    requires
                        records@.len() >= 1,
                        total_size(records@) >= 0,
                ;
            }
            return false;
        }
        total = total + records[i].size;
        i += 1;
    }
    assert(records@.subrange(0, records@.len() as int) =~= records@);
    let n = records.len() as u64;
    if n == 0 {
        return true;
    }
    let fits = total <= u64::MAX / n;
    proof {
        let t = total as int;
        let m = n as int;
        let big = u64::MAX as int;
        if fits {
            assert(m * t <= m * (big / m)) by (nonlinear_arith)
                requires
                    t <= big / m,
                    m >= 1,
            ;
            assert(m * (big / m) <= big) by (nonlinear_arith)
                requires
                    m >= 1,
            ;
        } else {
            assert(m * t > big) by (nonlinear_arith)
                requires
                    t > big / m,
                    m >= 1,
            ;
        }
    }
    fits
}

/// No two records share a path.
pub open spec fn distinct_paths(s: Seq<FileData>) -> bool {
    forall|i: int, j: int| 0 <= i < s.len() && 0 <= j < s.len() && i != j ==> s[i].path != s[j].path
}

proof fn lemma_distinct_paths_permutation(s1: Seq<FileData>, s2: Seq<FileData>)
    requires
        s1.to_multiset() == s2.to_multiset(),
        distinct_paths(s1),
    ensures
        distinct_paths(s2),
{
    broadcast use vstd::seq_lib::group_to_multiset_ensures;

    assert(s1.no_duplicates());
    s1.lemma_multiset_has_no_duplicates();
    assert forall|i: int, j: int|
        0 <= i < s2.len() && 0 <= j < s2.len() && i != j implies s2[i].path != s2[j].path by {
        if s2[i].path == s2[j].path {
            assert(s2.contains(s2[i]) && s2.contains(s2[j]));
            assert(s2.to_multiset().count(s2[i]) > 0 && s2.to_multiset().count(s2[j]) > 0);
            assert(s1.to_multiset().count(s2[i]) > 0 && s1.to_multiset().count(s2[j]) > 0);
            assert(s1.contains(s2[i]) && s1.contains(s2[j]));
            let a = choose|a: int| 0 <= a < s1.len() && s1[a] == s2[i];
            let b = choose|b: int| 0 <= b < s1.len() && s1[b] == s2[j];
            if a == b {
                let rest = s2.remove(i);
                let k = if j < i { j } else { j - 1 };
                assert(rest[k] == s2[j]);
                assert(rest.contains(s2[i]));
                assert(rest.to_multiset().count(s2[i]) > 0);
                assert(rest.to_multiset() =~= s2.to_multiset().remove(s2[i]));
                assert(s1.to_multiset().contains(s2[i]));
                assert(s2.to_multiset().count(s2[i]) == 1);
            }
        }
    }
}

proof fn lemma_clusters_exclude_anchor(
    work: Seq<FileData>,
    count: int,
    threshold: i64,
    use_content_hash: bool,
)
    requires
        distinct_paths(work),
    ensures
        ({
            let cs = clusters_from(work, count, threshold, use_content_hash);
            forall|i: int, j: int|
                0 <= i < cs.len() && 0 <= j < cs[i].1.len() ==> #[trigger] cs[i].1[j].path
                    != cs[i].0.path
        }),
    decreases work.len() - count,
{
    if 0 <= count < work.len() {
        let cands = work.subrange(count + 1, work.len() as int);
        let d = duplicates_in(work[count], cands, threshold, use_content_hash);
        lemma_duplicates_in_bounds(work[count], cands, threshold, use_content_hash);
        if d.len() == 0 {
            lemma_clusters_exclude_anchor(work, count + 1, threshold, use_content_hash);
            assert(clusters_from(work, count, threshold, use_content_hash) == clusters_from(
                work,
                count + 1,
                threshold,
                use_content_hash,
            ));
        } else {
            let next = work.subrange(d.len() - 1, work.len() as int);
            assert(distinct_paths(next)) by {
                assert forall|a: int, b: int|
                    0 <= a < next.len() && 0 <= b < next.len() && a != b implies next[a].path
                    != next[b].path by {
                    assert(next[a] == work[a + d.len() - 1] && next[b] == work[b + d.len() - 1]);
                }
            }
            lemma_clusters_exclude_anchor(next, count + 1, threshold, use_content_hash);
            let cs = clusters_from(work, count, threshold, use_content_hash);
            let later = clusters_from(next, count + 1, threshold, use_content_hash);
            assert(cs == seq![(work[count], d)] + later);
            assert forall|i: int, j: int|
                0 <= i < cs.len() && 0 <= j < cs[i].1.len() implies #[trigger] cs[i].1[j].path
                != cs[i].0.path by {
                if i == 0 {
                    assert(cs[0] == (work[count], d));
                    assert(d.contains(d[j]));
                    let k = choose|k: int| 0 <= k < cands.len() && cands[k] == d[j];
                    assert(cands[k] == work[count + 1 + k]);
                } else {
                    assert(cs[i] == later[i - 1]);
                    assert(later[i - 1].1[j].path != later[i - 1].0.path);
                }
            }
        }
    }
}

/// A record is never its own duplicate: where no two records of the
/// inventory share a path, no cluster has a member with the path of its
/// representative.
pub proof fn lemma_no_self_duplicate(records: Seq<FileData>, threshold: i64, use_content_hash: bool)
    requires
        distinct_paths(records),
    ensures
        ({
            let cs = duplicate_clusters(records, threshold, use_content_hash);
            forall|i: int, j: int|
                0 <= i < cs.len() && 0 <= j < cs[i].1.len() ==> #[trigger] cs[i].1[j].path
                    != cs[i].0.path
        }),
{
    crate::record::lemma_sorted_records(records);
    lemma_distinct_paths_permutation(records, sorted_records(records));
    lemma_clusters_exclude_anchor(sorted_records(records), 0, threshold, use_content_hash);
}

/// The wasted total of a set of clusters is the sum of the sizes of all their
/// members, the representatives left out.
pub proof fn lemma_wasted_is_member_sizes(clusters: Seq<(FileData, Seq<FileData>)>)
    ensures
        total_wasted(clusters) == total_size(
            clusters.map_values(|c: (FileData, Seq<FileData>)| c.1).flatten(),
        ),
    decreases clusters.len(),
{
    let members = clusters.map_values(|c: (FileData, Seq<FileData>)| c.1);
    if clusters.len() == 0 {
        assert(members =~= Seq::<Seq<FileData>>::empty());
        assert(members.flatten() =~= Seq::<FileData>::empty());
    } else {
        let before = clusters.drop_last().map_values(|c: (FileData, Seq<FileData>)| c.1);
        lemma_wasted_is_member_sizes(clusters.drop_last());
        assert(members =~= before.push(clusters.last().1));
        before.lemma_flatten_push(clusters.last().1);
        lemma_total_size_concat(before.flatten(), clusters.last().1);
    }
}

proof fn lemma_clusters_members_are_duplicates(
    work: Seq<FileData>,
    count: int,
    threshold: i64,
    use_content_hash: bool,
)
    ensures
        ({
            let cs = clusters_from(work, count, threshold, use_content_hash);
            forall|i: int, j: int|
                0 <= i < cs.len() && 0 <= j < cs[i].1.len() ==> is_duplicate_of(
                    cs[i].0,
                    #[trigger] cs[i].1[j],
                    threshold,
                    use_content_hash,
                )
        }),
    decreases work.len() - count,
{
    if 0 <= count < work.len() {
        let cands = work.subrange(count + 1, work.len() as int);
        let d = duplicates_in(work[count], cands, threshold, use_content_hash);
        lemma_duplicates_in_bounds(work[count], cands, threshold, use_content_hash);
        if d.len() == 0 {
            lemma_clusters_members_are_duplicates(work, count + 1, threshold, use_content_hash);
            assert(clusters_from(work, count, threshold, use_content_hash) == clusters_from(
                work,
                count + 1,
                threshold,
                use_content_hash,
            ));
        } else {
            let next = work.subrange(d.len() - 1, work.len() as int);
            lemma_clusters_members_are_duplicates(next, count + 1, threshold, use_content_hash);
            let cs = clusters_from(work, count, threshold, use_content_hash);
            let later = clusters_from(next, count + 1, threshold, use_content_hash);
            assert(cs == seq![(work[count], d)] + later);
            assert forall|i: int, j: int| 0 <= i < cs.len() && 0 <= j < cs[i].1.len() implies is_duplicate_of(
                cs[i].0,
                #[trigger] cs[i].1[j],
                threshold,
                use_content_hash,
            ) by {
                if i == 0 {
                    assert(d.contains(d[j]));
                } else {
                    assert(cs[i] == later[i - 1]);
                }
            }
        }
    }
}

/// When contents are compared, the records of one cluster all carry the same
/// digest (hex compared without regard to case): each member matches the
/// representative and every other member, and its name scores at least the
/// threshold against the representative's.
pub proof fn lemma_clusters_share_digest(records: Seq<FileData>, threshold: i64)
    ensures
        ({
            let cs = duplicate_clusters(records, threshold, true);
            forall|i: int, j: int, k: int|
                0 <= i < cs.len() && 0 <= j < cs[i].1.len() && 0 <= k < cs[i].1.len() ==> {
                    &&& digests_match(cs[i].0.sha, #[trigger] cs[i].1[j].sha)
                    &&& digests_match(cs[i].1[j].sha, #[trigger] cs[i].1[k].sha)
                    &&& skim_score(cs[i].1[j].file_name@, cs[i].0.file_name@) matches Some(
                        score,
                    ) && score >= threshold
                }
        }),
{
    lemma_clusters_members_are_duplicates(sorted_records(records), 0, threshold, true);
}

} // verus!
