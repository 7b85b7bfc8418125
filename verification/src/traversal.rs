//! The traversal engine: it classifies the entries a filesystem walk
//! reports, applies the extension filter, tracks which files got content
//! fingerprints, assembles the per-file records and aggregates the run
//! statistics.
//!
//! Walking the filesystem, reading sizes and reading file contents are I/O
//! and happen outside the crate; the walk hands the engine one event per
//! entry, in walk order.

use crate::file_utils::has_allowed_extension;
use crate::file_utils::spec_has_allowed_extension;
use crate::file_utils::FileInfo;
use crate::file_utils::FileInfoView;
use vstd::prelude::*;

verus! {

/// One filesystem entry as the walk reports it: a directory at some depth
/// below the root (the root itself at depth 0), or a regular file with its
/// size and its fingerprint — empty when none was computed, because the
/// file fell below the size threshold or could not be read. Entries of any
/// other kind (symbolic links among them) never become events.
pub enum WalkEvent {
    Directory { depth: usize },
    File { path: String, size: u64, hash: String },
}

/// The aggregate counters of one traversal.
#[derive(Clone, Copy, PartialEq, Eq, Structural, Debug)]
pub struct CompleteTraversalStatistics {
    pub n_files_identified: usize,
    pub n_files_considered: usize,
    pub n_files_hashed: usize,
    pub n_directories_visited: usize,
    pub max_depth_visited: usize,
}

/// Everything one traversal produces: the counters and the records.
pub struct DirectoryTraversalOutput {
    pub complete_statistics: CompleteTraversalStatistics,
    pub file_infos: Vec<FileInfo>,
}

/// The extension allow-list as character sequences.
pub open spec fn ext_views(exts: Seq<String>) -> Seq<Seq<char>> {
    exts.map_values(|s: String| s@)
}

/// The test for being a directory event.
pub open spec fn is_dir_fn() -> spec_fn(WalkEvent) -> bool {
    |e: WalkEvent| e is Directory
}

/// The test for being a file event.
pub open spec fn is_file_fn() -> spec_fn(WalkEvent) -> bool {
    |e: WalkEvent| e is File
}

/// The extension gate: a file passes when the allow-list is empty or holds
/// its extension. Directories never pass.
pub open spec fn considered_fn(exts: Seq<Seq<char>>) -> spec_fn(WalkEvent) -> bool {
    |e: WalkEvent|
        match e {
            WalkEvent::File { path, size, hash } => exts.len() == 0 || spec_has_allowed_extension(
                path@,
                exts,
            ),
            WalkEvent::Directory { .. } => false,
        }
}

/// How many events are directories.
pub open spec fn spec_dir_count(es: Seq<WalkEvent>) -> int {
    es.filter(is_dir_fn()).len() as int
}

/// How many events are regular files.
pub open spec fn spec_file_count(es: Seq<WalkEvent>) -> int {
    es.filter(is_file_fn()).len() as int
}

/// The deepest directory visited; zero when no directory was.
pub open spec fn spec_max_depth(es: Seq<WalkEvent>) -> nat
    decreases es.len(),
{
    if es.len() == 0 {
        0
    } else {
        let rest = spec_max_depth(es.drop_last());
        match es.last() {
            WalkEvent::Directory { depth } => if depth as nat > rest {
                depth as nat
            } else {
                rest
            },
            WalkEvent::File { .. } => rest,
        }
    }
}

/// The record a file event turns into; directory events yield a dummy that
/// nothing uses.
pub open spec fn event_record(e: WalkEvent) -> FileInfoView {
    match e {
        WalkEvent::File { path, size, hash } => FileInfoView {
            path: path@,
            size: size,
            hash: hash@,
        },
        WalkEvent::Directory { .. } => FileInfoView {
            path: Seq::<char>::empty(),
            size: 0,
            hash: Seq::<char>::empty(),
        },
    }
}

pub open spec fn event_record_fn() -> spec_fn(WalkEvent) -> FileInfoView {
    |e: WalkEvent| event_record(e)
}

/// A record as mathematical values.
pub open spec fn record_view_fn() -> spec_fn(FileInfo) -> FileInfoView {
    |f: FileInfo| f@
}

/// The test for carrying a computed fingerprint.
pub open spec fn hashed_fn() -> spec_fn(FileInfo) -> bool {
    |f: FileInfo| f.hash@.len() > 0
}

/// The records that a traversal over `es` emits, as views: one per file
/// event passing the extension gate, in walk order, carrying the event's
/// path, size and fingerprint.
pub open spec fn spec_records(es: Seq<WalkEvent>, exts: Seq<Seq<char>>) -> Seq<FileInfoView> {
    es.filter(considered_fn(exts)).map_values(event_record_fn())
}

/// How many emitted records carry a fingerprint.
pub open spec fn spec_hashed_count(records: Seq<FileInfo>) -> int {
    records.filter(hashed_fn()).len() as int
}

/// Whether a file of `size` bytes gets its content fingerprinted: exactly
/// the files strictly larger than the threshold do.
pub fn needs_hash(size: u64, min_file_size: &usize) -> (r: bool)
    ensures
        r == (size > *min_file_size as u64),
{
    size > (*min_file_size as u64)
}

/// Folds a walk's events into the traversal output: every directory event
/// is counted and deepens the maximum depth; every file event counts as
/// identified; the files passing the extension gate become records, in walk
/// order, and are counted as considered; of those, the ones carrying a
/// fingerprint are counted as hashed. The counts therefore always satisfy
/// `n_files_hashed <= n_files_considered <= n_files_identified`, and no
/// record at or below the size threshold carries a fingerprint.
pub fn traverse_directory(
    events: &Vec<WalkEvent>,
    min_file_size: &usize,
    file_extensions: &[String],
) -> (out: DirectoryTraversalOutput)
    requires
        forall|i: int|
            0 <= i < events@.len() ==> ((#[trigger] events@[i]) matches WalkEvent::File {
                path,
                size,
                hash,
            } ==> (hash@.len() > 0 ==> size > *min_file_size as u64)),
    ensures
        out.complete_statistics.n_directories_visited == spec_dir_count(events@),
        out.complete_statistics.max_depth_visited as nat == spec_max_depth(events@),
        out.complete_statistics.n_files_identified == spec_file_count(events@),
        out.file_infos@.map_values(record_view_fn()) == spec_records(
            events@,
            ext_views(file_extensions@),
        ),
        out.complete_statistics.n_files_considered == out.file_infos@.len(),
        out.complete_statistics.n_files_hashed == spec_hashed_count(out.file_infos@),
        out.complete_statistics.n_files_hashed <= out.complete_statistics.n_files_considered,
        out.complete_statistics.n_files_considered <= out.complete_statistics.n_files_identified,
        forall|i: int|
            0 <= i < out.file_infos@.len() ==> ((#[trigger] out.file_infos@[i]).hash@.len() > 0
                ==> out.file_infos@[i].size > *min_file_size as u64),
{
    let ghost exts = ext_views(file_extensions@);
    let mut n_directories_visited: usize = 0;
    let mut max_depth_visited: usize = 0;
    let mut n_files_identified: usize = 0;
    let mut n_files_hashed: usize = 0;
    let mut file_infos: Vec<FileInfo> = Vec::new();
    let mut i: usize = 0;
    proof {
        assert(events@.take(0) =~= Seq::<WalkEvent>::empty());
        assert(Seq::<WalkEvent>::empty().filter(is_dir_fn()) =~= Seq::<WalkEvent>::empty());
        assert(Seq::<WalkEvent>::empty().filter(is_file_fn()) =~= Seq::<WalkEvent>::empty());
        assert(Seq::<WalkEvent>::empty().filter(considered_fn(exts)) =~= Seq::<
            WalkEvent,
        >::empty());
        assert(Seq::<FileInfo>::empty().filter(hashed_fn()) =~= Seq::<FileInfo>::empty());
        assert(file_infos@.map_values(record_view_fn()) =~= spec_records(events@.take(0), exts));
    }
    while i < events.len()
        invariant
            i <= events@.len(),
            exts == ext_views(file_extensions@),
            forall|i2: int|
                0 <= i2 < events@.len() ==> ((#[trigger] events@[i2]) matches WalkEvent::File {
                    path,
                    size,
                    hash,
                } ==> (hash@.len() > 0 ==> size > *min_file_size as u64)),
            n_directories_visited == spec_dir_count(events@.take(i as int)),
            max_depth_visited as nat == spec_max_depth(events@.take(i as int)),
            n_files_identified == spec_file_count(events@.take(i as int)),
            file_infos@.map_values(record_view_fn()) == spec_records(events@.take(i as int), exts),
            n_files_hashed == spec_hashed_count(file_infos@),
            n_files_hashed <= file_infos@.len(),
            file_infos@.len() <= n_files_identified,
            n_files_identified <= i,
            n_directories_visited <= i,
            forall|j: int|
                0 <= j < file_infos@.len() ==> ((#[trigger] file_infos@[j]).hash@.len() > 0
                    ==> file_infos@[j].size > *min_file_size as u64),
        decreases events@.len() - i,
    {
        proof {
            assert(events@.take(i as int + 1) =~= events@.take(i as int).push(events@[i as int]));
            events@.take(i as int).lemma_filter_push(events@[i as int], is_dir_fn());
            events@.take(i as int).lemma_filter_push(events@[i as int], is_file_fn());
            events@.take(i as int).lemma_filter_push(events@[i as int], considered_fn(exts));
            assert(events@.take(i as int + 1).drop_last() =~= events@.take(i as int));
        }
        let e = &events[i];
        match e {
            WalkEvent::Directory { depth } => {
                n_directories_visited += 1;
                if *depth > max_depth_visited {
                    max_depth_visited = *depth;
                }
                proof {
                    assert(events@.take(i as int + 1).last() == events@[i as int]);
                }
            },
            WalkEvent::File { path, size, hash } => {
                n_files_identified += 1;
                let consider = file_extensions.len() == 0 || has_allowed_extension(
                    path.as_str(),
                    file_extensions,
                );
                proof {
                    let cpred = considered_fn(exts);
                    assert(consider == cpred(events@[i as int]));
                }
                if consider {
                    let rec = FileInfo { path: path.clone(), size: *size, hash: hash.clone() };
                    let ghost prev_infos = file_infos@;
                    if !rec.hash.as_str().is_empty() {
                        n_files_hashed += 1;
                    }
                    proof {
                        prev_infos.lemma_filter_push(rec, hashed_fn());
                        assert(rec@ == event_record(events@[i as int]));
                    }
                    file_infos.push(rec);
                    proof {
                        assert(file_infos@ =~= prev_infos.push(rec));
                        assert(file_infos@.map_values(record_view_fn()) =~= prev_infos.map_values(
                            record_view_fn(),
                        ).push(rec@));
                        assert(spec_records(events@.take(i as int + 1), exts) =~= spec_records(
                            events@.take(i as int),
                            exts,
                        ).push(event_record(events@[i as int])));
                    }
                }
            },
        }
        i += 1;
    }
    proof {
        assert(events@.take(events@.len() as int) =~= events@);
    }
    let n_files_considered = file_infos.len();
    let complete_statistics = CompleteTraversalStatistics {
        n_files_identified,
        n_files_considered,
        n_files_hashed,
        n_directories_visited,
        max_depth_visited,
    };
    DirectoryTraversalOutput { complete_statistics, file_infos }
}

/// Determinism: the engine's outcome is a function of the walked events
/// and the extension list alone, so walking an unchanged tree again — the
/// same events in the same order — yields the same statistics and the same
/// records.
pub proof fn lemma_traversal_deterministic(
    e1: Seq<WalkEvent>,
    e2: Seq<WalkEvent>,
    x1: Seq<Seq<char>>,
    x2: Seq<Seq<char>>,
)
    requires
        e1 == e2,
        x1 == x2,
    ensures
        spec_dir_count(e1) == spec_dir_count(e2),
        spec_max_depth(e1) == spec_max_depth(e2),
        spec_file_count(e1) == spec_file_count(e2),
        spec_records(e1, x1) == spec_records(e2, x2),
{
}

} // verus!
