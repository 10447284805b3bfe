use crate::record::{FileData, FileView};
use vstd::prelude::*;

verus! {

/// What the metadata of a directory entry says it is.
#[derive(Debug, Clone, Copy, PartialEq, Eq, Structural)]
pub enum EntryKind {
    File,
    Directory,
    /// A symbolic link, device, socket or anything else.
    Other,
}

/// Why part of the tree was left out.
#[derive(Debug, Clone, Copy, PartialEq, Eq, Structural)]
pub enum ErrorKind {
    /// The root directory could not be listed: the walk fails.
    RootUnreadable,
    EntryMetadataUnavailable,
    TimestampUnavailable,
    SubdirectoryUnreadable,
    HashFailure,
}

/// A failure met during the walk, with the path it concerns.
#[derive(Debug, Clone, PartialEq, Eq)]
pub struct WalkError {
    pub kind: ErrorKind,
    pub path: String,
}

/// What was read of one directory entry whose metadata could be read.
#[derive(Debug, Clone)]
pub struct EntryInfo {
    pub path: String,
    pub file_name: String,
    pub kind: EntryKind,
    pub size: u64,
    pub is_readonly: bool,
    /// Whole seconds elapsed since the last modification; `None` when the
    /// timestamp or the elapsed time could not be had.
    pub modified: Option<u64>,
}

/// What was learned of one directory entry.
#[derive(Debug, Clone)]
pub enum Probe {
    /// Reading the entry's metadata failed; the path is given.
    MetadataUnavailable(String),
    Entry(EntryInfo),
}

/// The content digest of an entry, as far as it was taken.
#[derive(Debug, Clone)]
pub enum DigestOutcome {
    NotTaken,
    Taken(String),
    Failed,
}

/// What the walker did with an entry.
#[derive(Debug, Clone, PartialEq, Eq)]
pub enum Visit {
    Recorded,
    Descended,
    Ignored,
    Skipped(WalkError),
}

/// What becomes of an entry, as values.
pub enum Fate {
    Record(FileView),
    Descend(Seq<char>),
    Ignore,
    Skip(ErrorKind, Seq<char>),
}

/// The fate of an entry: entries without metadata or timestamp are skipped;
/// a regular file is recorded (with its digest when contents are hashed, and
/// skipped when that digest is missing); a directory is descended into;
/// anything else is ignored.
pub open spec fn fate(probe: Probe, digest: DigestOutcome, use_content_hash: bool) -> Fate {
    match probe {
        Probe::MetadataUnavailable(path) => Fate::Skip(ErrorKind::EntryMetadataUnavailable, path@),
        Probe::Entry(info) => match info.modified {
            None => Fate::Skip(ErrorKind::TimestampUnavailable, info.path@),
            Some(secs) => match info.kind {
                EntryKind::File => if !use_content_hash {
                    Fate::Record(file_view(info, secs, Seq::empty()))
                } else {
                    match digest {
                        DigestOutcome::Taken(h) => Fate::Record(file_view(info, secs, h@)),
                        _ => Fate::Skip(ErrorKind::HashFailure, info.path@),
                    }
                },
                EntryKind::Directory => Fate::Descend(info.path@),
                EntryKind::Other => Fate::Ignore,
            },
        },
    }
}

/// The record of a regular file.
pub open spec fn file_view(info: EntryInfo, secs: u64, sha: Seq<char>) -> FileView {
    FileView {
        path: info.path@,
        file_name: info.file_name@,
        size: info.size,
        last_modified: secs,
        is_readonly: info.is_readonly,
        sha,
    }
}

/// An entry is hashed when it is a regular file with a timestamp, in a walk
/// that hashes.
pub open spec fn wants_digest_of(probe: Probe, use_content_hash: bool) -> bool {
    use_content_hash && match probe {
        Probe::Entry(info) => info.kind == EntryKind::File && info.modified is Some,
        Probe::MetadataUnavailable(_) => false,
    }
}

/// The record that a fate adds to the inventory, if any.
pub open spec fn record_added(f: Fate) -> Seq<FileView> {
    match f {
        Fate::Record(r) => seq![r],
        _ => Seq::empty(),
    }
}

/// The directory that a fate stacks, if any.
pub open spec fn directory_added(f: Fate) -> Seq<Seq<char>> {
    match f {
        Fate::Descend(p) => seq![p],
        _ => Seq::empty(),
    }
}

/// The failure that a fate notes, if any.
pub open spec fn error_added(f: Fate) -> Seq<(ErrorKind, Seq<char>)> {
    match f {
        Fate::Skip(k, p) => seq![(k, p)],
        _ => Seq::empty(),
    }
}

/// The records as values.
pub open spec fn records_view(s: Seq<FileData>) -> Seq<FileView> {
    s.map_values(|r: FileData| r@)
}

/// The paths as character sequences.
pub open spec fn paths_view(s: Seq<String>) -> Seq<Seq<char>> {
    s.map_values(|p: String| p@)
}

/// The failures as values.
pub open spec fn errors_view(s: Seq<WalkError>) -> Seq<(ErrorKind, Seq<char>)> {
    s.map_values(|e: WalkError| (e.kind, e.path@))
}

/// The fates of a directory's entries, in order.
pub open spec fn fates(entries: Seq<(Probe, DigestOutcome)>, use_content_hash: bool) -> Seq<Fate> {
    entries.map_values(|e: (Probe, DigestOutcome)| fate(e.0, e.1, use_content_hash))
}

/// The records added by a run of fates, in order.
pub open spec fn records_of(fs: Seq<Fate>) -> Seq<FileView>
    decreases fs.len(),
{
    if fs.len() == 0 {
        Seq::empty()
    } else {
        records_of(fs.drop_last()) + record_added(fs.last())
    }
}

/// The directories stacked by a run of fates, in order.
pub open spec fn directories_of(fs: Seq<Fate>) -> Seq<Seq<char>>
    decreases fs.len(),
{
    if fs.len() == 0 {
        Seq::empty()
    } else {
        directories_of(fs.drop_last()) + directory_added(fs.last())
    }
}

/// The failures noted by a run of fates, in order.
pub open spec fn errors_of(fs: Seq<Fate>) -> Seq<(ErrorKind, Seq<char>)>
    decreases fs.len(),
{
    if fs.len() == 0 {
        Seq::empty()
    } else {
        errors_of(fs.drop_last()) + error_added(fs.last())
    }
}

/// Builds the inventory of a tree: directories still to be listed are kept on
/// a stack; the caller lists each directory it is handed, reads each entry's
/// metadata (and digest where asked), and hands them back.
pub struct Walker {
    pub root: String,
    /// Directories still to be listed; the last is handed out next.
    pub pending: Vec<String>,
    pub inventory: Vec<FileData>,
    /// Entries and directories left out, with the reason.
    pub skipped: Vec<WalkError>,
    pub use_content_hash: bool,
    /// No directory has been handed out yet: the next one is the root.
    pub at_root: bool,
    /// The directory handed out last is the root.
    pub listing_root: bool,
    /// The root could not be listed.
    pub root_failed: bool,
}

impl Walker {
    /// A walk of the tree below `root`.
    pub fn new(root: String, use_content_hash: bool) -> (r: Walker)
        ensures
            r.root == root,
            paths_view(r.pending@) == seq![root@],
            r.inventory@.len() == 0,
            r.skipped@.len() == 0,
            r.use_content_hash == use_content_hash,
            r.at_root,
            !r.listing_root,
            !r.root_failed,
    {
        let mut pending: Vec<String> = Vec::new();
        pending.push(root.clone());
        let r = Walker {
            root,
            pending,
            inventory: Vec::new(),
            skipped: Vec::new(),
            use_content_hash,
            at_root: true,
            listing_root: false,
            root_failed: false,
        };
        assert(paths_view(r.pending@) =~= seq![root@]);
        r
    }

    /// The next directory to list, taken off the stack; `None` when the walk
    /// is complete.
    pub fn next_directory(&mut self) -> (r: Option<String>)
        ensures
            old(self).pending@.len() == 0 ==> r is None && *final(self) == *old(self),
            old(self).pending@.len() > 0 ==> {
                &&& r == Some(old(self).pending@.last())
                &&& final(self).pending@ == old(self).pending@.drop_last()
                &&& final(self).listing_root == old(self).at_root
                &&& !final(self).at_root
                &&& final(self).inventory == old(self).inventory
                &&& final(self).skipped == old(self).skipped
                &&& final(self).use_content_hash == old(self).use_content_hash
                &&& final(self).root == old(self).root
                &&& final(self).root_failed == old(self).root_failed
            },
    {
        if self.pending.len() == 0 {
            return None;
        }
        match self.pending.pop() {
            None => None,
            Some(dir) => {
                self.listing_root = self.at_root;
                self.at_root = false;
                Some(dir)
            },
        }
    }

    /// Whether the content of this entry is to be hashed before it is visited:
    /// a regular file with a timestamp, in a walk that hashes.
    pub fn wants_digest(&self, probe: &Probe) -> (r: bool)
        ensures
            r == wants_digest_of(*probe, self.use_content_hash),
    {
        match probe {
            Probe::MetadataUnavailable(_) => false,
            Probe::Entry(info) => self.use_content_hash && info.kind == EntryKind::File
                && info.modified.is_some(),
        }
    }

    /// The directory last handed out could not be listed. Only the root's
    /// failure is fatal; otherwise the subtree is left out and nothing found
    /// elsewhere is lost.
    pub fn directory_unreadable(&mut self, dir: String) -> (r: WalkError)
        ensures
            r.path == dir,
            r.kind == if old(self).listing_root {
                ErrorKind::RootUnreadable
            } else {
                ErrorKind::SubdirectoryUnreadable
            },
            errors_view(final(self).skipped@) == errors_view(old(self).skipped@) + seq![
                (r.kind, dir@),
            ],
            final(self).root_failed == (old(self).root_failed || old(self).listing_root),
            final(self).pending == old(self).pending,
            final(self).inventory == old(self).inventory,
            final(self).use_content_hash == old(self).use_content_hash,
            final(self).root == old(self).root,
            final(self).at_root == old(self).at_root,
            final(self).listing_root == old(self).listing_root,
    {
        let kind = if self.listing_root {
            self.root_failed = true;
            ErrorKind::RootUnreadable
        } else {
            ErrorKind::SubdirectoryUnreadable
        };
        let ghost before = self.skipped@;
        self.skipped.push(WalkError { kind, path: dir.clone() });
        assert(errors_view(self.skipped@) =~= errors_view(before) + seq![(kind, dir@)]);
        WalkError { kind, path: dir }
    }

    /// Visits one entry of the directory being listed: records a regular
    /// file, stacks a directory, ignores anything else, and notes why an entry
    /// was skipped.
    pub fn visit(&mut self, probe: &Probe, digest: &DigestOutcome) -> (r: Visit)
        ensures
            ({
                let f = fate(*probe, *digest, old(self).use_content_hash);
                &&& records_view(final(self).inventory@) == records_view(old(self).inventory@)
                    + record_added(f)
                &&& paths_view(final(self).pending@) == paths_view(old(self).pending@)
                    + directory_added(f)
                &&& errors_view(final(self).skipped@) == errors_view(old(self).skipped@)
                    + error_added(f)
                &&& (r is Recorded <==> f is Record)
                &&& (r is Descended <==> f is Descend)
                &&& (r is Ignored <==> f is Ignore)
                &&& (f matches Fate::Skip(k, p) ==> r matches Visit::Skipped(e) && e.kind == k
                    && e.path@ == p)
            }),
            final(self).use_content_hash == old(self).use_content_hash,
            final(self).root == old(self).root,
            final(self).at_root == old(self).at_root,
            final(self).listing_root == old(self).listing_root,
            final(self).root_failed == old(self).root_failed,
    {
        let ghost (inv0, pend0, skip0) = (self.inventory@, self.pending@, self.skipped@);
        let ghost f = fate(*probe, *digest, self.use_content_hash);
        let r = match probe {
            Probe::MetadataUnavailable(path) => {
                self.skip(ErrorKind::EntryMetadataUnavailable, path)
            },
            Probe::Entry(info) => match info.modified {
                None => self.skip(ErrorKind::TimestampUnavailable, &info.path),
                Some(secs) => match info.kind {
                    EntryKind::File => {
                        if !self.use_content_hash {
                            self.record(info, secs, String::new())
                        } else {
                            match digest {
                                DigestOutcome::Taken(h) => self.record(info, secs, h.clone()),
                                _ => self.skip(ErrorKind::HashFailure, &info.path),
                            }
                        }
                    },
                    EntryKind::Directory => {
                        self.pending.push(info.path.clone());
                        Visit::Descended
                    },
                    EntryKind::Other => Visit::Ignored,
                },
            },
        };
        assert(records_view(self.inventory@) =~= records_view(inv0) + record_added(f));
        assert(paths_view(self.pending@) =~= paths_view(pend0) + directory_added(f));
        assert(errors_view(self.skipped@) =~= errors_view(skip0) + error_added(f));
        r
    }

    fn skip(&mut self, kind: ErrorKind, path: &String) -> (r: Visit)
        ensures
            final(self).skipped@ == old(self).skipped@.push(WalkError { kind, path: *path }),
            final(self).inventory == old(self).inventory,
            final(self).pending == old(self).pending,
            final(self).use_content_hash == old(self).use_content_hash,
            final(self).root == old(self).root,
            final(self).at_root == old(self).at_root,
            final(self).listing_root == old(self).listing_root,
            final(self).root_failed == old(self).root_failed,
            r == Visit::Skipped(WalkError { kind, path: *path }),
    {
        self.skipped.push(WalkError { kind, path: path.clone() });
        Visit::Skipped(WalkError { kind, path: path.clone() })
    }

    fn record(&mut self, info: &EntryInfo, secs: u64, sha: String) -> (r: Visit)
        ensures
            records_view(final(self).inventory@) == records_view(old(self).inventory@).push(
                file_view(*info, secs, sha@),
            ),
            final(self).skipped == old(self).skipped,
            final(self).pending == old(self).pending,
            final(self).use_content_hash == old(self).use_content_hash,
            final(self).root == old(self).root,
            final(self).at_root == old(self).at_root,
            final(self).listing_root == old(self).listing_root,
            final(self).root_failed == old(self).root_failed,
            r is Recorded,
    {
        let ghost before = self.inventory@;
        self.inventory.push(
            FileData::from(
                info.path.clone(),
                info.file_name.clone(),
                info.size,
                secs,
                info.is_readonly,
                sha,
            ),
        );
        assert(records_view(self.inventory@) =~= records_view(before).push(
            file_view(*info, secs, sha@),
        ));
        Visit::Recorded
    }
}

impl Walker {
    /// Visits the entries of one listed directory, in order.
    pub fn walk_dir(&mut self, entries: &Vec<(Probe, DigestOutcome)>)
        ensures
            ({
                let fs = fates(entries@, old(self).use_content_hash);
                &&& records_view(final(self).inventory@) == records_view(old(self).inventory@)
                    + records_of(fs)
                &&& paths_view(final(self).pending@) == paths_view(old(self).pending@)
                    + directories_of(fs)
                &&& errors_view(final(self).skipped@) == errors_view(old(self).skipped@)
                    + errors_of(fs)
            }),
            final(self).use_content_hash == old(self).use_content_hash,
            final(self).root == old(self).root,
            final(self).at_root == old(self).at_root,
            final(self).listing_root == old(self).listing_root,
            final(self).root_failed == old(self).root_failed,
    {
        let ghost (inv0, pend0, skip0) = (
            records_view(self.inventory@),
            paths_view(self.pending@),
            errors_view(self.skipped@),
        );
        let ghost hash = self.use_content_hash;
        let mut i: usize = 0;
        assert(fates(entries@.subrange(0, 0), hash) =~= Seq::<Fate>::empty());
        assert(inv0 + records_of(Seq::<Fate>::empty()) =~= inv0);
        assert(pend0 + directories_of(Seq::<Fate>::empty()) =~= pend0);
        assert(skip0 + errors_of(Seq::<Fate>::empty()) =~= skip0);
        while i < entries.len()
            invariant
                i <= entries@.len(),
                self.use_content_hash == hash,
                self.root == old(self).root,
                self.at_root == old(self).at_root,
                self.listing_root == old(self).listing_root,
                self.root_failed == old(self).root_failed,
                records_view(self.inventory@) == inv0 + records_of(
                    fates(entries@.subrange(0, i as int), hash),
                ),
                paths_view(self.pending@) == pend0 + directories_of(
                    fates(entries@.subrange(0, i as int), hash),
                ),
                errors_view(self.skipped@) == skip0 + errors_of(
                    fates(entries@.subrange(0, i as int), hash),
                ),
            decreases entries@.len() - i,
        {
            let ghost before = fates(entries@.subrange(0, i as int), hash);
            let ghost after = fates(entries@.subrange(0, i + 1), hash);
            let (probe, digest) = &entries[i];
            self.visit(probe, digest);
            assert(after.drop_last() =~= before);
            assert(after.last() == fate(*probe, *digest, hash));
            assert(inv0 + records_of(after) =~= inv0 + records_of(before) + record_added(
                after.last(),
            ));
            assert(pend0 + directories_of(after) =~= pend0 + directories_of(before)
                + directory_added(after.last()));
            assert(skip0 + errors_of(after) =~= skip0 + errors_of(before) + error_added(
                after.last(),
            ));
            i += 1;
        }
        assert(entries@.subrange(0, entries@.len() as int) =~= entries@);
    }

    /// The inventory once no directory is left, or the root's failure.
    pub fn finish(self) -> (r: Result<Vec<FileData>, WalkError>)
        ensures
            self.root_failed ==> (r matches Err(e) && e.kind == ErrorKind::RootUnreadable
                && e.path == self.root),
            !self.root_failed ==> r == Ok::<Vec<FileData>, WalkError>(self.inventory),
    {
        if self.root_failed {
            Err(WalkError { kind: ErrorKind::RootUnreadable, path: self.root })
        } else {
            Ok(self.inventory)
        }
    }
}

/// A regular file whose metadata and timestamp were read, and whose digest
/// was taken when the walk hashes.
pub open spec fn readable_file(e: (Probe, DigestOutcome), use_content_hash: bool) -> bool {
    match e.0 {
        Probe::Entry(info) => info.kind == EntryKind::File && info.modified is Some && (
        !use_content_hash || e.1 is Taken),
        Probe::MetadataUnavailable(_) => false,
    }
}

/// How many of the entries are readable regular files.
pub open spec fn readable_files(entries: Seq<(Probe, DigestOutcome)>, use_content_hash: bool) -> nat
    decreases entries.len(),
{
    if entries.len() == 0 {
        0
    } else {
        readable_files(entries.drop_last(), use_content_hash) + if readable_file(
            entries.last(),
            use_content_hash,
        ) {
            1nat
        } else {
            0nat
        }
    }
}

/// The inventory grows by exactly the number of regular files among the
/// entries, less those whose metadata, timestamp or digest could not be had.
pub proof fn lemma_walk_counts_files(entries: Seq<(Probe, DigestOutcome)>, use_content_hash: bool)
    ensures
        records_of(fates(entries, use_content_hash)).len() == readable_files(
            entries,
            use_content_hash,
        ),
    decreases entries.len(),
{
    if entries.len() > 0 {
        lemma_walk_counts_files(entries.drop_last(), use_content_hash);
        assert(fates(entries, use_content_hash).drop_last() =~= fates(
            entries.drop_last(),
            use_content_hash,
        ));
    }
}

/// The entry is a regular file with the path and name of the record.
pub open spec fn file_entry_of(probe: Probe, r: FileView) -> bool {
    match probe {
        Probe::Entry(info) => info.kind == EntryKind::File && info.path@ == r.path
            && info.file_name@ == r.file_name,
        Probe::MetadataUnavailable(_) => false,
    }
}

/// Some entry is a regular file with the path and name of the record.
pub open spec fn from_file_entry(entries: Seq<(Probe, DigestOutcome)>, r: FileView) -> bool {
    exists|j: int| 0 <= j < entries.len() && file_entry_of(#[trigger] entries[j].0, r)
}

/// Only regular files are recorded: each record added is that of an entry
/// whose metadata says it is a regular file, with the same path and name.
pub proof fn lemma_walk_records_only_files(
    entries: Seq<(Probe, DigestOutcome)>,
    use_content_hash: bool,
)
    ensures
        ({
            let recs = records_of(fates(entries, use_content_hash));
            forall|k: int| 0 <= k < recs.len() ==> from_file_entry(entries, #[trigger] recs[k])
        }),
    decreases entries.len(),
{
    if entries.len() > 0 {
        let rest = entries.drop_last();
        lemma_walk_records_only_files(rest, use_content_hash);
        let fs = fates(entries, use_content_hash);
        assert(fs.drop_last() =~= fates(rest, use_content_hash));
        let recs = records_of(fs);
        let before = records_of(fates(rest, use_content_hash));
        assert forall|k: int| 0 <= k < recs.len() implies from_file_entry(
            entries,
            #[trigger] recs[k],
        ) by {
            if k < before.len() {
                assert(recs[k] == before[k]);
                assert(from_file_entry(rest, before[k]));
                let j = choose|j: int| 0 <= j < rest.len() && file_entry_of(#[trigger] rest[j].0, before[k]);
                assert(entries[j] == rest[j]);
            } else {
                assert(entries[entries.len() - 1] == entries.last());
                assert(file_entry_of(entries[entries.len() - 1].0, recs[k]));
            }
        }
    }
}

} // verus!
