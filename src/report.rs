use crate::engine::DuplicateCluster;
use crate::record::FileData;
use vstd::prelude::*;
use vstd::string::StringExecFns;

verus! {

/// The paths of the duplicates of one file, shown one per line.
pub struct DisplayVec(pub Vec<String>);

impl DisplayVec {
    pub fn new(duplicates: Vec<String>) -> (r: DisplayVec)
        ensures
            r.0 == duplicates,
    {
        DisplayVec(duplicates)
    }

    /// The paths, each followed by a line break.
    pub fn to_text(&self) -> (r: String)
        ensures
            r@ == lines_of(self.0@.map_values(|p: String| p@)),
    {
        let mut text = String::new();
        let mut i: usize = 0;
        while i < self.0.len()
            invariant
                i <= self.0@.len(),
                text@ == lines_of(self.0@.subrange(0, i as int).map_values(|p: String| p@)),
            decreases self.0@.len() - i,
        {
            text.append(self.0[i].as_str());
            text.append("\n");
            proof {
                reveal_strlit("\n");
                let next = self.0@.subrange(0, i + 1).map_values(|p: String| p@);
                assert(next.drop_last() =~= self.0@.subrange(0, i as int).map_values(
                    |p: String| p@,
                ));
            }
            i += 1;
        }
        assert(self.0@.subrange(0, self.0@.len() as int) =~= self.0@);
        text
    }
}

/// Each line followed by a line break, all joined.
pub open spec fn lines_of(lines: Seq<Seq<char>>) -> Seq<char>
    decreases lines.len(),
{
    if lines.len() == 0 {
        Seq::empty()
    } else {
        lines_of(lines.drop_last()) + lines.last() + seq!['\n']
    }
}

/// One row of the report.
pub struct Duplicate {
    /// The path of the cluster's representative.
    pub file_name: String,
    pub duplicates: DisplayVec,
    pub size: String,
    pub count: usize,
}

impl Duplicate {
    pub fn from(file_name: String, duplicates: DisplayVec, size: String, count: usize) -> (r:
        Duplicate)
        ensures
            r.file_name == file_name,
            r.duplicates == duplicates,
            r.size == size,
            r.count == count,
    {
        Duplicate { file_name, duplicates, size, count }
    }
}

/// The decimal digit of `d`, for `d < 10`.
pub open spec fn digit_char(d: int) -> char {
    seq!['0', '1', '2', '3', '4', '5', '6', '7', '8', '9'][d]
}

/// The decimal text of `n`, without leading zeros.
pub open spec fn decimal(n: nat) -> Seq<char>
    decreases n,
{
    if n < 10 {
        seq![digit_char(n as int)]
    } else {
        decimal(n / 10) + seq![digit_char((n % 10) as int)]
    }
}

/// Relies on `ToString::to_string` for `u64`: its decimal text.
#[verifier::external_body]
fn decimal_text(n: u64) -> (r: String)
    ensures
        r@ == decimal(n as nat),
{
    n.to_string()
}

/// The size label of a report row. Below 1024 bytes the count of bytes
/// ("Byte"); below 1 MiB the count of whole KiB, labelled "MB" as the tool
/// has always printed it; from 1 MiB on, the size rounded down to whole KiB,
/// counted in bytes and labelled "KB", likewise kept as printed so far.
pub open spec fn size_label_of(size: u64) -> Seq<char> {
    if size < 1024 {
        decimal(size as nat) + " Byte"@
    } else if size < 1024 * 1024 {
        decimal((size / 1024) as nat) + " MB"@
    } else {
        decimal(((size / 1024) * 1024) as nat) + " KB"@
    }
}

/// The size label of a report row.
pub fn size_label(size: u64) -> (r: String)
    ensures
        r@ == size_label_of(size),
{
    if size < 1024 {
        decimal_text(size).concat(" Byte")
    } else if size < 1024 * 1024 {
        decimal_text(size / 1024).concat(" MB")
    } else {
        decimal_text(size / 1024 * 1024).concat(" KB")
    }
}

/// A report row as values.
pub struct RowView {
    pub file_name: Seq<char>,
    pub duplicates: Seq<Seq<char>>,
    pub size: Seq<char>,
    pub count: nat,
}

/// The row of a cluster: the representative's path, its members' paths, its
/// size label and the number of members.
pub open spec fn row_of(c: (FileData, Seq<FileData>)) -> RowView {
    RowView {
        file_name: c.0.path@,
        duplicates: c.1.map_values(|m: FileData| m.path@),
        size: size_label_of(c.0.size),
        count: c.1.len(),
    }
}

impl Duplicate {
    pub open spec fn row(&self) -> RowView {
        RowView {
            file_name: self.file_name@,
            duplicates: self.duplicates.0@.map_values(|p: String| p@),
            size: self.size@,
            count: self.count as nat,
        }
    }
}

/// Where a cluster goes among clusters in report order: after every one with
/// at least as many members.
pub open spec fn report_point(s: Seq<(FileData, Seq<FileData>)>, c: (FileData, Seq<FileData>)) -> int
    decreases s.len(),
{
    if s.len() == 0 || s[0].1.len() < c.1.len() {
        0
    } else {
        1 + report_point(s.drop_first(), c)
    }
}

/// Clusters in report order: most members first; clusters with as many
/// members keep their order.
pub open spec fn report_order(s: Seq<(FileData, Seq<FileData>)>) -> Seq<(FileData, Seq<FileData>)>
    decreases s.len(),
{
    if s.len() == 0 {
        Seq::empty()
    } else {
        let t = report_order(s.drop_last());
        t.insert(report_point(t, s.last()), s.last())
    }
}

/// The rows of the report, one per cluster, most members first.
pub fn report_rows(clusters: &Vec<DuplicateCluster>) -> (r: Vec<Duplicate>)
    ensures
        r@.map_values(|d: Duplicate| d.row()) == report_order(
            clusters@.map_values(|c: DuplicateCluster| c.pair()),
        ).map_values(|c: (FileData, Seq<FileData>)| row_of(c)),
{
    let ghost cs = clusters@.map_values(|c: DuplicateCluster| c.pair());
    let mut rows: Vec<Duplicate> = Vec::new();
    let mut counts: Vec<usize> = Vec::new();
    let ghost mut order: Seq<(FileData, Seq<FileData>)> = Seq::empty();
    let mut i: usize = 0;
    assert(cs.subrange(0, 0) =~= Seq::<(FileData, Seq<FileData>)>::empty());
    while i < clusters.len()
        invariant
            i <= clusters@.len(),
            cs == clusters@.map_values(|c: DuplicateCluster| c.pair()),
            order == report_order(cs.subrange(0, i as int)),
            rows@.len() == order.len(),
            counts@.len() == order.len(),
            forall|k: int| 0 <= k < order.len() ==> #[trigger] counts@[k] == order[k].1.len(),
            rows@.map_values(|d: Duplicate| d.row()) == order.map_values(
                |c: (FileData, Seq<FileData>)| row_of(c),
            ),
        decreases clusters@.len() - i,
    {
        let c = &clusters[i];
        let ghost cv = c.pair();
        let n = c.members.len();
        let mut p: usize = 0;
        assert(order.subrange(0, order.len() as int) =~= order);
        while p < counts.len() && counts[p] >= n
            invariant
                p <= counts@.len(),
                counts@.len() == order.len(),
                n == cv.1.len(),
                forall|k: int| 0 <= k < order.len() ==> #[trigger] counts@[k] == order[k].1.len(),
                report_point(order, cv) == p + report_point(
                    order.subrange(p as int, order.len() as int),
                    cv,
                ),
            decreases counts@.len() - p,
        {
            let ghost rest = order.subrange(p as int, order.len() as int);
            assert(rest[0] == order[p as int]);
            assert(rest.drop_first() =~= order.subrange(p + 1, order.len() as int));
            p += 1;
        }
        proof {
            let rest = order.subrange(p as int, order.len() as int);
            if p < order.len() {
                assert(rest[0] == order[p as int]);
            }
            assert(cs.subrange(0, i + 1).drop_last() =~= cs.subrange(0, i as int));
            assert(cs.subrange(0, i + 1).last() == cv);
        }
        let mut paths: Vec<String> = Vec::new();
        let mut j: usize = 0;
        while j < n
            invariant
                j <= n,
                n == c.members@.len(),
                paths@.map_values(|s: String| s@) == c.members@.subrange(0, j as int).map_values(
                    |m: FileData| m.path@,
                ),
            decreases n - j,
        {
            let ghost before = paths@;
            paths.push(c.members[j].path.clone());
            assert(paths@.map_values(|s: String| s@) =~= before.map_values(|s: String| s@).push(
                c.members@[j as int].path@,
            ));
            assert(c.members@.subrange(0, j + 1) =~= c.members@.subrange(0, j as int).push(
                c.members@[j as int],
            ));
            assert(paths@.map_values(|s: String| s@) =~= c.members@.subrange(0, j + 1).map_values(
                |m: FileData| m.path@,
            ));
            j += 1;
        }
        assert(c.members@.subrange(0, n as int) =~= c.members@);
        let row = Duplicate::from(
            c.representative.path.clone(),
            DisplayVec::new(paths),
            size_label(c.representative.size),
            n,
        );
        assert(row.row() == row_of(cv));
        let ghost old_rows = rows@;
        let ghost old_counts = counts@;
        rows.insert(p, row);
        counts.insert(p, n);
        proof {
            let new_order = order.insert(p as int, cv);
            assert(rows@.map_values(|d: Duplicate| d.row()) =~= new_order.map_values(
                |c: (FileData, Seq<FileData>)| row_of(c),
            )) by {
                assert forall|k: int| 0 <= k < rows@.len() implies #[trigger] rows@[k].row()
                    == row_of(new_order[k]) by {
                    if k < p {
                        assert(rows@[k] == old_rows[k]);
                        assert(old_rows.map_values(|d: Duplicate| d.row())[k] == order.map_values(
                            |c: (FileData, Seq<FileData>)| row_of(c),
                        )[k]);
                    } else if k > p {
                        assert(rows@[k] == old_rows[k - 1]);
                        assert(old_rows.map_values(|d: Duplicate| d.row())[k - 1]
                            == order.map_values(|c: (FileData, Seq<FileData>)| row_of(c))[k - 1]);
                    }
                }
            }
            assert forall|k: int| 0 <= k < new_order.len() implies #[trigger] counts@[k]
                == new_order[k].1.len() by {
                if k < p {
                    assert(counts@[k] == old_counts[k]);
                } else if k > p {
                    assert(counts@[k] == old_counts[k - 1]);
                }
            }
            order = new_order;
        }
        i += 1;
    }
    assert(cs.subrange(0, cs.len() as int) =~= cs);
    rows
}

} // verus!
