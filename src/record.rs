use vstd::prelude::*;

verus! {

/// One regular file found by the walk.
#[derive(Debug, Clone)]
pub struct FileData {
    /// Full path of the file; unique within one inventory.
    pub path: String,
    /// Base name of the file, compared for similarity.
    pub file_name: String,
    /// Length in bytes.
    pub size: u64,
    /// Seconds elapsed since the last modification, as read during the walk.
    pub last_modified: u64,
    pub is_readonly: bool,
    /// Hex SHA-256 of the content; empty when the walk does not hash.
    pub sha: String,
}

/// A record as values: the strings as character sequences.
pub struct FileView {
    pub path: Seq<char>,
    pub file_name: Seq<char>,
    pub size: u64,
    pub last_modified: u64,
    pub is_readonly: bool,
    pub sha: Seq<char>,
}

impl View for FileData {
    type V = FileView;

    open spec fn view(&self) -> FileView {
        FileView {
            path: self.path@,
            file_name: self.file_name@,
            size: self.size,
            last_modified: self.last_modified,
            is_readonly: self.is_readonly,
            sha: self.sha@,
        }
    }
}

/// The pair by which records are ordered before clustering.
#[derive(Debug, Clone)]
pub struct DuplicateKey {
    pub file_name: String,
    pub size: u64,
}

impl DuplicateKey {
    pub fn from(file_name: String, size: u64) -> (r: DuplicateKey)
        ensures
            r.file_name == file_name,
            r.size == size,
    {
        DuplicateKey { file_name, size }
    }
}

impl FileData {
    /// Builds a record from its parts.
    pub fn from(
        path: String,
        file_name: String,
        size: u64,
        last_modified: u64,
        is_readonly: bool,
        sha: String,
    ) -> (r: FileData)
        ensures
            r.path == path,
            r.file_name == file_name,
            r.size == size,
            r.last_modified == last_modified,
            r.is_readonly == is_readonly,
            r.sha == sha,
    {
        FileData { path, file_name, size, last_modified, is_readonly, sha }
    }

    /// A copy of the record, field for field.
    pub fn copied(&self) -> (r: FileData)
        ensures
            r == *self,
    {
        FileData {
            path: self.path.clone(),
            file_name: self.file_name.clone(),
            size: self.size,
            last_modified: self.last_modified,
            is_readonly: self.is_readonly,
            sha: self.sha.clone(),
        }
    }
}

/// The UTF-8 bytes of a string: `String` compares by these.
pub open spec fn utf8_of(s: String) -> Seq<u8> {
    vstd::utf8::encode_utf8(s@)
}

/// Strict lexicographic order on byte sequences.
pub open spec fn bytes_lt(a: Seq<u8>, b: Seq<u8>) -> bool
    decreases a.len(),
{
    if a.len() == 0 {
        b.len() > 0
    } else if b.len() == 0 {
        false
    } else if a[0] != b[0] {
        a[0] < b[0]
    } else {
        bytes_lt(a.drop_first(), b.drop_first())
    }
}

/// The order in which records are clustered: by file name, then by size.
pub open spec fn record_le(a: FileData, b: FileData) -> bool {
    bytes_lt(utf8_of(a.file_name), utf8_of(b.file_name)) || (utf8_of(a.file_name) == utf8_of(
        b.file_name,
    ) && a.size <= b.size)
}

/// Every record is ordered before each one that follows it.
pub open spec fn sorted_by_name_size(s: Seq<FileData>) -> bool {
    forall|i: int, j: int| 0 <= i < j < s.len() ==> record_le(#[trigger] s[i], #[trigger] s[j])
}

/// The sum of the sizes of the records.
pub open spec fn total_size(s: Seq<FileData>) -> int
    decreases s.len(),
{
    if s.len() == 0 {
        0
    } else {
        total_size(s.drop_last()) + s.last().size
    }
}

proof fn lemma_bytes_lt_total(a: Seq<u8>, b: Seq<u8>)
    ensures
        bytes_lt(a, b) || a == b || bytes_lt(b, a),
    decreases a.len(),
{
    if a.len() > 0 && b.len() > 0 && a[0] == b[0] {
        lemma_bytes_lt_total(a.drop_first(), b.drop_first());
        if a.drop_first() == b.drop_first() {
            assert(a =~= seq![a[0]] + a.drop_first());
            assert(b =~= seq![b[0]] + b.drop_first());
        }
    } else if a.len() == 0 && b.len() == 0 {
        assert(a =~= b);
    }
}

proof fn lemma_bytes_lt_transitive(a: Seq<u8>, b: Seq<u8>, c: Seq<u8>)
    requires
        bytes_lt(a, b),
        bytes_lt(b, c),
    ensures
        bytes_lt(a, c),
    decreases a.len(),
{
    if a.len() > 0 && b.len() > 0 && c.len() > 0 && a[0] == b[0] && b[0] == c[0] {
        lemma_bytes_lt_transitive(a.drop_first(), b.drop_first(), c.drop_first());
    }
}

proof fn lemma_record_le_total(a: FileData, b: FileData)
    ensures
        record_le(a, b) || record_le(b, a),
{
    lemma_bytes_lt_total(utf8_of(a.file_name), utf8_of(b.file_name));
}

proof fn lemma_record_le_transitive(a: FileData, b: FileData, c: FileData)
    requires
        record_le(a, b),
        record_le(b, c),
    ensures
        record_le(a, c),
{
    let (x, y, z) = (utf8_of(a.file_name), utf8_of(b.file_name), utf8_of(c.file_name));
    if bytes_lt(x, y) && bytes_lt(y, z) {
        lemma_bytes_lt_transitive(x, y, z);
    }
}

pub proof fn lemma_total_size_concat(a: Seq<FileData>, b: Seq<FileData>)
    ensures
        total_size(a + b) == total_size(a) + total_size(b),
    decreases b.len(),
{
    if b.len() == 0 {
        assert(a + b =~= a);
    } else {
        lemma_total_size_concat(a, b.drop_last());
        assert((a + b).drop_last() =~= a + b.drop_last());
    }
}

proof fn lemma_total_size_insert(s: Seq<FileData>, p: int, x: FileData)
    requires
        0 <= p <= s.len(),
    ensures
        total_size(s.insert(p, x)) == total_size(s) + x.size,
{
    let (front, back) = (s.subrange(0, p), s.subrange(p, s.len() as int));
    assert(s =~= front + back);
    assert(s.insert(p, x) =~= (front + seq![x]) + back);
    lemma_total_size_concat(front, back);
    lemma_total_size_concat(front + seq![x], back);
    lemma_total_size_concat(front, seq![x]);
    assert(seq![x].drop_last() =~= Seq::<FileData>::empty());
    assert(total_size(seq![x]) == total_size(Seq::<FileData>::empty()) + x.size);
}

proof fn lemma_multiset_insert(s: Seq<FileData>, p: int, x: FileData)
    requires
        0 <= p <= s.len(),
    ensures
        s.insert(p, x).to_multiset() =~= s.to_multiset().insert(x),
{
    broadcast use vstd::seq_lib::group_to_multiset_ensures;

    let t = s.insert(p, x);
    assert(t.remove(p) =~= s);
    assert(t[p] == x);
    assert(t.contains(x));
}

/// Strict lexicographic comparison of two byte strings.
fn bytes_less(a: &[u8], b: &[u8]) -> (r: bool)
    ensures
        r == bytes_lt(a@, b@),
{
    let mut i: usize = 0;
    assert(a@.subrange(0, a@.len() as int) =~= a@);
    assert(b@.subrange(0, b@.len() as int) =~= b@);
    while i < a.len() && i < b.len()
        invariant
            i <= a@.len(),
            i <= b@.len(),
            bytes_lt(a@, b@) == bytes_lt(
                a@.subrange(i as int, a@.len() as int),
                b@.subrange(i as int, b@.len() as int),
            ),
        decreases a@.len() - i,
    {
        let ghost (ra, rb) = (
            a@.subrange(i as int, a@.len() as int),
            b@.subrange(i as int, b@.len() as int),
        );
        assert(ra[0] == a@[i as int] && rb[0] == b@[i as int]);
        if a[i] != b[i] {
            return a[i] < b[i];
        }
        assert(ra.drop_first() =~= a@.subrange(i + 1, a@.len() as int));
        assert(rb.drop_first() =~= b@.subrange(i + 1, b@.len() as int));
        i += 1;
    }
    i < b.len()
}

/// Whether `a` is ordered before or level with `b`: by the bytes of the file
/// name, then by size.
pub fn record_less_eq(a: &FileData, b: &FileData) -> (r: bool)
    ensures
        r == record_le(*a, *b),
{
    let an = a.file_name.as_str().as_bytes();
    let bn = b.file_name.as_str().as_bytes();
    if bytes_less(an, bn) {
        true
    } else if bytes_less(bn, an) {
        false
    } else {
        proof {
            lemma_bytes_lt_total(an@, bn@);
        }
        a.size <= b.size
    }
}

/// Where `x` goes in `s`: before the first record not ordered before or
/// level with it, so that level records keep their order.
pub open spec fn insertion_point(s: Seq<FileData>, x: FileData) -> int
    decreases s.len(),
{
    if s.len() == 0 || !record_le(s[0], x) {
        0
    } else {
        1 + insertion_point(s.drop_first(), x)
    }
}

/// The records in clustering order: each inserted in turn at its insertion
/// point (a stable sort by name, then size).
pub open spec fn sorted_records(s: Seq<FileData>) -> Seq<FileData>
    decreases s.len(),
{
    if s.len() == 0 {
        Seq::empty()
    } else {
        let t = sorted_records(s.drop_last());
        t.insert(insertion_point(t, s.last()), s.last())
    }
}

proof fn lemma_insertion_point(s: Seq<FileData>, x: FileData)
    requires
        sorted_by_name_size(s),
    ensures
        0 <= insertion_point(s, x) <= s.len(),
        forall|k: int| 0 <= k < insertion_point(s, x) ==> record_le(#[trigger] s[k], x),
        forall|k: int| insertion_point(s, x) <= k < s.len() ==> record_le(x, #[trigger] s[k]),
    decreases s.len(),
{
    if s.len() > 0 {
        if !record_le(s[0], x) {
            lemma_record_le_total(s[0], x);
            assert forall|k: int| 0 < k < s.len() implies record_le(x, #[trigger] s[k]) by {
                lemma_record_le_transitive(x, s[0], s[k]);
            }
        } else {
            let t = s.drop_first();
            assert(sorted_by_name_size(t)) by {
                assert forall|i: int, j: int| 0 <= i < j < t.len() implies record_le(
                    #[trigger] t[i],
                    #[trigger] t[j],
                ) by {
                    assert(t[i] == s[i + 1] && t[j] == s[j + 1]);
                }
            }
            lemma_insertion_point(t, x);
            assert forall|k: int| 0 < k < s.len() implies #[trigger] s[k] == t[k - 1] by {}
        }
    }
}

proof fn lemma_insert_sorted(s: Seq<FileData>, x: FileData)
    requires
        sorted_by_name_size(s),
    ensures
        sorted_by_name_size(s.insert(insertion_point(s, x), x)),
{
    lemma_insertion_point(s, x);
    let p = insertion_point(s, x);
    let t = s.insert(p, x);
    assert forall|a: int, b: int| 0 <= a < b < t.len() implies record_le(
        #[trigger] t[a],
        #[trigger] t[b],
    ) by {
        if b < p {
        } else if a < p && b == p {
        } else if a < p {
            assert(t[b] == s[b - 1]);
        } else if a == p {
            assert(t[b] == s[b - 1]);
        } else {
            assert(t[a] == s[a - 1] && t[b] == s[b - 1]);
        }
    }
}

/// The clustering order is sorted, holds the same records, and the same
/// total size.
pub proof fn lemma_sorted_records(s: Seq<FileData>)
    ensures
        sorted_by_name_size(sorted_records(s)),
        sorted_records(s).to_multiset() =~= s.to_multiset(),
        total_size(sorted_records(s)) == total_size(s),
        sorted_records(s).len() == s.len(),
    decreases s.len(),
{
    broadcast use vstd::seq_lib::group_to_multiset_ensures;

    if s.len() > 0 {
        let t = sorted_records(s.drop_last());
        lemma_sorted_records(s.drop_last());
        lemma_insertion_point(t, s.last());
        lemma_insert_sorted(t, s.last());
        lemma_total_size_insert(t, insertion_point(t, s.last()), s.last());
        lemma_multiset_insert(t, insertion_point(t, s.last()), s.last());
        assert(s =~= s.drop_last().push(s.last()));
    } else {
        assert(s.to_multiset() =~= vstd::multiset::Multiset::empty());
    }
}

/// Sorts records by file name, then by size; records level in that order
/// keep their relative order.
pub fn sort_records(records: &Vec<FileData>) -> (r: Vec<FileData>)
    ensures
        r@ == sorted_records(records@),
        sorted_by_name_size(r@),
        r@.to_multiset() == records@.to_multiset(),
        total_size(r@) == total_size(records@),
{
    let mut out: Vec<FileData> = Vec::new();
    let mut i: usize = 0;
    assert(records@.subrange(0, 0) =~= Seq::<FileData>::empty());
    while i < records.len()
        invariant
            i <= records@.len(),
            out@ == sorted_records(records@.subrange(0, i as int)),
        decreases records@.len() - i,
    {
        let x = records[i].copied();
        let mut p: usize = 0;
        assert(out@.subrange(0, out@.len() as int) =~= out@);
        while p < out.len() && record_less_eq(&out[p], &x)
            invariant
                p <= out@.len(),
                insertion_point(out@, x) == p + insertion_point(
                    out@.subrange(p as int, out@.len() as int),
                    x,
                ),
            decreases out@.len() - p,
        {
            let ghost rest = out@.subrange(p as int, out@.len() as int);
            assert(rest[0] == out@[p as int]);
            assert(rest.drop_first() =~= out@.subrange(p + 1, out@.len() as int));
            p += 1;
        }
        proof {
            let rest = out@.subrange(p as int, out@.len() as int);
            if p < out@.len() {
                assert(rest[0] == out@[p as int]);
            }
            let prefix = records@.subrange(0, i as int);
            assert(records@.subrange(0, i + 1).drop_last() =~= prefix);
            assert(out@ =~= sorted_records(prefix));
        }
        out.insert(p, x);
        i += 1;
    }
    proof {
        assert(records@.subrange(0, records@.len() as int) =~= records@);
        lemma_sorted_records(records@);
    }
    out
}

} // verus!
