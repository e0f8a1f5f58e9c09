use vstd::prelude::*;

use core::cmp::Ordering;

use crate::scanner::{is_image_file, is_image_path};
use crate::error::{AppError, ImportFailure};
use crate::path::{path_starts_with, paths_overlap, resolve_unique_work_path, resolved_path, with_suffix};
use crate::template::{copy_opt, opt_chars, MetadataView, WorkMetadata};
use crate::text::{
    chars_of, copy_range, copy_text, find_char, find_from, find_pattern, find_seq, string_of, trim,
    trim_bounds,
};

verus! {

broadcast use vstd::seq_lib::group_to_multiset_ensures;

/// A title and an artist read from a folder's name.
pub struct ParsedMetadata {
    pub title: String,
    pub artist: Option<String>,
}

/// `[artist] title`: the artist and the title, both trimmed and not empty.
pub open spec fn bracket_pattern(n: Seq<char>) -> Option<(Seq<char>, Seq<char>)> {
    if n.len() > 0 && n[0] == '[' {
        let rest = n.drop_first();
        match find_char(rest, ']') {
            None => None,
            Some(c) => {
                let artist = trim(rest.subrange(0, c as int));
                let title = trim(rest.subrange(c as int + 1, rest.len() as int));
                if artist.len() > 0 && title.len() > 0 {
                    Some((artist, title))
                } else {
                    None
                }
            },
        }
    } else {
        None
    }
}

pub open spec fn dash() -> Seq<char> {
    seq![' ', '-', ' ']
}

/// `artist - title`, split at the first ` - `: both parts trimmed and not empty.
pub open spec fn dash_pattern(n: Seq<char>) -> Option<(Seq<char>, Seq<char>)> {
    match find_seq(n, dash()) {
        None => None,
        Some(p) => {
            let artist = trim(n.subrange(0, p as int));
            let title = trim(n.subrange(p as int + 3, n.len() as int));
            if artist.len() > 0 && title.len() > 0 {
                Some((artist, title))
            } else {
                None
            }
        },
    }
}

/// The title and artist guessed from a folder name: the bracket pattern first, then
/// the dash pattern, else the whole name as the title and no artist.
pub open spec fn folder_guess(n: Seq<char>) -> (Seq<char>, Option<Seq<char>>) {
    match bracket_pattern(n) {
        Some((a, t)) => (t, Some(a)),
        None => match dash_pattern(n) {
            Some((a, t)) => (t, Some(a)),
            None => (n, None),
        },
    }
}

fn trimmed(s: &[char], lo: usize, hi: usize) -> (r: Vec<char>)
    requires
        lo <= hi <= s@.len(),
    ensures
        r@ == trim(s@.subrange(lo as int, hi as int)),
{
    let part = copy_range(s, lo, hi);
    let (a, b) = trim_bounds(part.as_slice());
    copy_range(part.as_slice(), a, b)
}

/// Guesses a title and an artist from a folder's name.
pub fn parse_folder_name(folder_name: &str) -> (r: ParsedMetadata)
    ensures
        r.title@ == folder_guess(folder_name@).0,
        opt_chars(r.artist) == folder_guess(folder_name@).1,
{
    let s = chars_of(folder_name);
    let n = s.len();
    if n > 0 && s[0] == '[' {
        let ghost rest = s@.drop_first();
        match find_from(s.as_slice(), 1, ']') {
            None => {
                assert(s@.subrange(1, n as int) =~= rest);
            },
            Some(close) => {
                assert(s@.subrange(1, n as int) =~= rest);
                let artist = trimmed(s.as_slice(), 1, close);
                let title = trimmed(s.as_slice(), close + 1, n);
                assert(rest.subrange(0, close - 1) =~= s@.subrange(1, close as int));
                assert(rest.subrange(close - 1 + 1, rest.len() as int) =~= s@.subrange(
                    close + 1,
                    n as int,
                ));
                if artist.len() > 0 && title.len() > 0 {
                    return ParsedMetadata {
                        title: string_of(title.as_slice()),
                        artist: Some(string_of(artist.as_slice())),
                    };
                }
            },
        }
    }
    let sep = vec![' ', '-', ' '];
    assert(sep@ =~= dash());
    match find_pattern(s.as_slice(), sep.as_slice()) {
        None => {},
        Some(p) => {
            let artist = trimmed(s.as_slice(), 0, p);
            let title = trimmed(s.as_slice(), p + 3, n);
            if artist.len() > 0 && title.len() > 0 {
                return ParsedMetadata {
                    title: string_of(title.as_slice()),
                    artist: Some(string_of(artist.as_slice())),
                };
            }
        },
    }
    ParsedMetadata { title: string_of(s.as_slice()), artist: None }
}

/// How `natord::compare` orders two names: runs of digits by their value, other
/// characters one by one, white space skipped.
pub uninterp spec fn natural_order(a: Seq<char>, b: Seq<char>) -> Ordering;

pub open spec fn flipped(o: Ordering) -> Ordering {
    match o {
        Ordering::Less => Ordering::Greater,
        Ordering::Equal => Ordering::Equal,
        Ordering::Greater => Ordering::Less,
    }
}

/// Relies on `natord::compare`, the natural order of two names. Its code treats the
/// left and the right side alike, branch for branch, so swapping them flips the result.
#[verifier::external_body]
fn natural_compare(a: &str, b: &str) -> (r: Ordering)
    ensures
        r == natural_order(a@, b@),
        r == flipped(natural_order(b@, a@)),
{
    natord::compare(a, b)
}

fn is_greater(o: Ordering) -> (r: bool)
    ensures
        r == (o == Ordering::Greater),
{
    match o {
        Ordering::Greater => true,
        _ => false,
    }
}

pub open spec fn names(v: Seq<String>) -> Seq<Seq<char>> {
    v.map_values(|s: String| s@)
}

/// The names in `s` that name image files, in their order.
pub open spec fn image_names(s: Seq<Seq<char>>) -> Seq<Seq<char>>
    decreases s.len(),
{
    if s.len() == 0 {
        s
    } else if is_image_path(s.last()) {
        image_names(s.drop_last()).push(s.last())
    } else {
        image_names(s.drop_last())
    }
}

/// Each name comes no later than the next in natural order.
pub open spec fn naturally_sorted(s: Seq<Seq<char>>) -> bool {
    forall|k: int|
        0 <= k < s.len() - 1 ==> #[trigger] natural_order(s[k], s[k + 1]) != Ordering::Greater
}

/// Where a stable sort puts `x` among the sorted names `s`: after every name that does
/// not come after it.
pub open spec fn stable_place(s: Seq<Seq<char>>, x: Seq<char>) -> int
    decreases s.len(),
{
    if s.len() == 0 {
        0
    } else if natural_order(s.last(), x) == Ordering::Greater {
        stable_place(s.drop_last(), x)
    } else {
        s.len() as int
    }
}

/// `s` sorted stably in natural order: each name in turn placed after every earlier one
/// that does not come after it, so names that compare equal keep their order.
pub open spec fn stably_sorted(s: Seq<Seq<char>>) -> Seq<Seq<char>>
    decreases s.len(),
{
    if s.len() == 0 {
        s
    } else {
        let front = stably_sorted(s.drop_last());
        front.insert(stable_place(front, s.last()), s.last())
    }
}

/// The image files among the entries of a folder, in natural order of their names
/// (`page2` before `page10`): the pages of a work. The sort is stable.
pub fn order_pages(entries: &Vec<String>) -> (r: Vec<String>)
    ensures
        names(r@) == stably_sorted(image_names(names(entries@))),
        names(r@).to_multiset() == image_names(names(entries@)).to_multiset(),
        naturally_sorted(names(r@)),
{
    let mut out: Vec<String> = Vec::new();
    let mut i: usize = 0;
    while i < entries.len()
        invariant
            i <= entries@.len(),
            names(out@).to_multiset() == image_names(names(entries@).subrange(0, i as int)).to_multiset(),
            names(out@) == stably_sorted(image_names(names(entries@).subrange(0, i as int))),
            naturally_sorted(names(out@)),
        decreases entries@.len() - i,
    {
        let ghost prev = names(entries@).subrange(0, i as int);
        let ghost now = names(entries@).subrange(0, i + 1);
        assert(now.drop_last() =~= prev);
        assert(now.last() == entries@[i as int]@);
        let name = &entries[i];
        if is_image_file(name.as_str()) {
            let mut p = out.len();
            assert(names(out@).subrange(0, out@.len() as int) =~= names(out@));
            while p > 0 && is_greater(natural_compare(out[p - 1].as_str(), name.as_str()))
                invariant
                    p <= out@.len(),
                    p < out@.len() ==> natural_order(name@, out@[p as int]@) == Ordering::Less,
                    stable_place(names(out@), name@) == stable_place(
                        names(out@).subrange(0, p as int),
                        name@,
                    ),
                decreases p,
            {
                proof {
                    let sub = names(out@).subrange(0, p as int);
                    assert(sub.last() == out@[p - 1]@);
                    assert(sub.drop_last() =~= names(out@).subrange(0, p - 1));
                }
                p -= 1;
            }
            proof {
                let sub = names(out@).subrange(0, p as int);
                if p > 0 {
                    assert(sub.last() == out@[p - 1]@);
                }
                assert(stable_place(names(out@), name@) == p);
            }
            proof {
                if p > 0 {
                    assert(natural_order(out@[p - 1]@, name@) != Ordering::Greater);
                }
            }
            let ghost before = names(out@);
            let ghost x = name@;
            proof {
                if p > 0 {
                    assert(before[p - 1] == out@[p - 1]@);
                }
                if p < before.len() {
                    assert(before[p as int] == out@[p as int]@);
                }
            }
            out.insert(p, name.clone());
            proof {
                let after = names(out@);
                assert(after =~= before.insert(p as int, x));
                vstd::seq_lib::to_multiset_insert(before, p as int, x);
                vstd::seq_lib::to_multiset_build(image_names(prev), x);
                assert(image_names(now) == image_names(prev).push(x));
                assert(image_names(now).drop_last() =~= image_names(prev));
                assert(after == stably_sorted(image_names(now)));
                assert forall|k: int| 0 <= k < after.len() - 1 implies #[trigger] natural_order(
                    after[k],
                    after[k + 1],
                ) != Ordering::Greater by {
                    if k + 1 < p {
                        assert(after[k] == before[k] && after[k + 1] == before[k + 1]);
                        assert(natural_order(before[k], before[k + 1]) != Ordering::Greater);
                    } else if k + 1 == p {
                        assert(after[k] == before[k] && after[k + 1] == x);
                    } else if k == p {
                        assert(after[k] == x && after[k + 1] == before[k]);
                    } else {
                        assert(after[k] == before[k - 1] && after[k + 1] == before[k]);
                        let j = k - 1;
                        assert(natural_order(before[j], before[j + 1]) != Ordering::Greater);
                        assert(j + 1 == k);
                    }
                }
            }
        } else {
            assert(image_names(now) == image_names(prev));
        }
        i += 1;
    }
    assert(names(entries@).subrange(0, entries@.len() as int) =~= names(entries@));
    out
}

/// Whether an import copies the source folder or moves it.
#[derive(Clone, Copy, Debug, PartialEq, Eq, Structural)]
pub enum ImportMode {
    Copy,
    Move,
}

/// A folder to import, with the metadata given for it.
pub struct ImportRequest {
    pub source_path: String,
    pub title: String,
    pub artist: Option<String>,
    pub year: Option<i32>,
    pub genre: Option<String>,
    pub circle: Option<String>,
    pub origin: Option<String>,
    pub mode: ImportMode,
}

/// Where an imported work went and how many pages it has.
pub struct ImportResult {
    pub destination_path: String,
    pub page_count: usize,
}

/// The metadata an import renders its destination with, its type shown as `label`.
pub open spec fn request_metadata(q: ImportRequest, label: Seq<char>) -> MetadataView {
    MetadataView {
        title: q.title@,
        artist: opt_chars(q.artist),
        year: q.year,
        genre: opt_chars(q.genre),
        circle: opt_chars(q.circle),
        origin: opt_chars(q.origin),
        work_type: Some(label),
    }
}

pub fn import_metadata(request: &ImportRequest, type_label: &str) -> (r: WorkMetadata)
    ensures
        r@ == request_metadata(*request, type_label@),
{
    let label = chars_of(type_label);
    WorkMetadata {
        title: copy_text(&request.title),
        artist: copy_opt(&request.artist),
        year: request.year,
        genre: copy_opt(&request.genre),
        circle: copy_opt(&request.circle),
        origin: copy_opt(&request.origin),
        work_type: Some(string_of(label.as_slice())),
    }
}

/// The destination of an import: the resolved path, with the suffix where it is taken.
pub open spec fn import_target(
    q: ImportRequest,
    root: Seq<char>,
    t: Seq<char>,
    label: Seq<char>,
    base_exists: bool,
    suffix: int,
) -> Seq<char> {
    let base = resolved_path(root, t, request_metadata(q, label));
    if base_exists {
        with_suffix(base, suffix)
    } else {
        base
    }
}

/// The checks an import passes before anything is written, in order: the source is a
/// directory, it holds images, a library root and a template are set, and the source and
/// the destination do not lie one inside the other. `base_exists` tells whether the
/// resolved path is taken on disk, `suffix` is the random number for that case.
pub fn import_destination(
    request: &ImportRequest,
    source_is_dir: bool,
    page_count: usize,
    library_root: &Option<String>,
    template: &Option<String>,
    type_label: &str,
    base_exists: bool,
    suffix: u16,
) -> (r: Result<String, AppError>)
    ensures
        !source_is_dir ==> r == Err::<String, AppError>(
            AppError::ImportError(ImportFailure::NotADirectory),
        ),
        source_is_dir && page_count == 0 ==> r == Err::<String, AppError>(
            AppError::ImportError(ImportFailure::NoImages),
        ),
        source_is_dir && page_count > 0 && library_root is None ==> r == Err::<String, AppError>(
            AppError::ImportError(ImportFailure::NoLibraryRoot),
        ),
        source_is_dir && page_count > 0 && library_root is Some && template is None ==> r == Err::<
            String,
            AppError,
        >(AppError::ImportError(ImportFailure::NoTemplate)),
        source_is_dir && page_count > 0 && library_root is Some && template is Some ==> {
            let dest = import_target(
                *request,
                library_root->0@,
                template->0@,
                type_label@,
                base_exists,
                suffix as int,
            );
            if path_starts_with(request.source_path@, dest) || path_starts_with(
                dest,
                request.source_path@,
            ) {
                r == Err::<String, AppError>(AppError::ImportError(ImportFailure::Overlap))
            } else {
                r matches Ok(d) && d@ == dest
            }
        },
{
    if !source_is_dir {
        return Err(AppError::ImportError(ImportFailure::NotADirectory));
    }
    if page_count == 0 {
        return Err(AppError::ImportError(ImportFailure::NoImages));
    }
    let root = match library_root {
        None => {
            return Err(AppError::ImportError(ImportFailure::NoLibraryRoot));
        },
        Some(root) => root,
    };
    let tmpl = match template {
        None => {
            return Err(AppError::ImportError(ImportFailure::NoTemplate));
        },
        Some(t) => t,
    };
    let metadata = import_metadata(request, type_label);
    let dest = resolve_unique_work_path(
        root.as_str(),
        tmpl.as_str(),
        &metadata,
        base_exists,
        suffix,
    );
    if paths_overlap(request.source_path.as_str(), dest.as_str()) {
        return Err(AppError::ImportError(ImportFailure::Overlap));
    }
    Ok(dest)
}

/// The steps of an import once its destination is known. Each stage names the work to
/// do next; `Succeeded` and `Failed` end it.
#[derive(Clone, Copy, Debug, PartialEq, Eq, Structural)]
pub enum ImportStage {
    MakeThumbnail,
    CreateDestination,
    CopyImages,
    Register,
    RemoveSources,
    RollBack,
    Succeeded,
    Failed,
}

/// The stage that follows `stage` when its work came out `ok` (or not).
pub open spec fn next_import_stage(stage: ImportStage, mode: ImportMode, ok: bool) -> ImportStage {
    match stage {
        ImportStage::MakeThumbnail => if ok {
            ImportStage::CreateDestination
        } else {
            ImportStage::Failed
        },
        ImportStage::CreateDestination => if ok {
            ImportStage::CopyImages
        } else {
            ImportStage::Failed
        },
        ImportStage::CopyImages => if ok {
            ImportStage::Register
        } else {
            ImportStage::RollBack
        },
        ImportStage::Register => if !ok {
            ImportStage::RollBack
        } else if mode == ImportMode::Move {
            ImportStage::RemoveSources
        } else {
            ImportStage::Succeeded
        },
        ImportStage::RemoveSources => ImportStage::Succeeded,
        ImportStage::RollBack => ImportStage::Failed,
        ImportStage::Succeeded => ImportStage::Succeeded,
        ImportStage::Failed => ImportStage::Failed,
    }
}

/// Decides the next step of an import. The files are always copied first, also for a
/// move; a failed copy or a failed registration removes the destination; the sources
/// are deleted only after the work is registered, and a failure there is not reported.
pub fn import_step(stage: ImportStage, mode: ImportMode, ok: bool) -> (r: ImportStage)
    ensures
        r == next_import_stage(stage, mode, ok),
        r == ImportStage::RemoveSources ==> stage == ImportStage::Register && ok && mode
            == ImportMode::Move,
        r == ImportStage::RollBack ==> (stage == ImportStage::CopyImages || stage
            == ImportStage::Register) && !ok,
{
    match stage {
        ImportStage::MakeThumbnail => if ok {
            ImportStage::CreateDestination
        } else {
            ImportStage::Failed
        },
        ImportStage::CreateDestination => if ok {
            ImportStage::CopyImages
        } else {
            ImportStage::Failed
        },
        ImportStage::CopyImages => if ok {
            ImportStage::Register
        } else {
            ImportStage::RollBack
        },
        ImportStage::Register => if !ok {
            ImportStage::RollBack
        } else if mode == ImportMode::Move {
            ImportStage::RemoveSources
        } else {
            ImportStage::Succeeded
        },
        ImportStage::RemoveSources => ImportStage::Succeeded,
        ImportStage::RollBack => ImportStage::Failed,
        ImportStage::Succeeded => ImportStage::Succeeded,
        ImportStage::Failed => ImportStage::Failed,
    }
}

/// The stages an import goes through from `stage`, given the outcome of each step's work.
pub open spec fn import_run(stage: ImportStage, mode: ImportMode, outcomes: Seq<bool>) -> Seq<
    ImportStage,
>
    decreases outcomes.len(),
{
    if outcomes.len() == 0 {
        seq![stage]
    } else {
        seq![stage] + import_run(next_import_stage(stage, mode, outcomes[0]), mode, outcomes.drop_first())
    }
}

/// Where registering the work fails after the files were copied, the destination is
/// removed next, the import then fails, and the sources are never touched: no stage
/// that follows deletes them.
pub proof fn lemma_failed_registration_rolls_back(mode: ImportMode, outcomes: Seq<bool>)
    requires
        outcomes.len() >= 1,
        !outcomes[0],
    ensures
        import_run(ImportStage::Register, mode, outcomes)[1] == ImportStage::RollBack,
        outcomes.len() >= 2 ==> import_run(ImportStage::Register, mode, outcomes)[2]
            == ImportStage::Failed,
        forall|i: int|
            0 <= i < import_run(ImportStage::Register, mode, outcomes).len() ==> #[trigger] import_run(
                ImportStage::Register,
                mode,
                outcomes,
            )[i] != ImportStage::RemoveSources,
{
    let rest = outcomes.drop_first();
    assert(import_run(ImportStage::Register, mode, outcomes) == seq![ImportStage::Register]
        + import_run(ImportStage::RollBack, mode, rest));
    lemma_rollback_ends(mode, rest);
}

proof fn lemma_rollback_ends(mode: ImportMode, outcomes: Seq<bool>)
    ensures
        import_run(ImportStage::RollBack, mode, outcomes)[0] == ImportStage::RollBack,
        forall|i: int|
            1 <= i < import_run(ImportStage::RollBack, mode, outcomes).len() ==> #[trigger] import_run(
                ImportStage::RollBack,
                mode,
                outcomes,
            )[i] == ImportStage::Failed,
        import_run(ImportStage::RollBack, mode, outcomes).len() == outcomes.len() + 1,
{
    if outcomes.len() > 0 {
        lemma_failed_stays(mode, outcomes.drop_first());
    }
}

proof fn lemma_failed_stays(mode: ImportMode, outcomes: Seq<bool>)
    ensures
        forall|i: int|
            0 <= i < import_run(ImportStage::Failed, mode, outcomes).len() ==> #[trigger] import_run(
                ImportStage::Failed,
                mode,
                outcomes,
            )[i] == ImportStage::Failed,
        import_run(ImportStage::Failed, mode, outcomes).len() == outcomes.len() + 1,
    decreases outcomes.len(),
{
    if outcomes.len() > 0 {
        lemma_failed_stays(mode, outcomes.drop_first());
    }
}

/// How many imports of a batch succeeded and failed.
pub struct BulkImportSummary {
    pub succeeded: usize,
    pub failed: usize,
}

impl BulkImportSummary {
    pub fn new() -> (r: BulkImportSummary)
        ensures
            r.succeeded == 0 && r.failed == 0,
    {
        BulkImportSummary { succeeded: 0, failed: 0 }
    }

    /// Counts one finished import; a failure does not stop the batch.
    pub fn record(&mut self, ok: bool)
        requires
            old(self).succeeded + old(self).failed < usize::MAX,
        ensures
            final(self).succeeded == old(self).succeeded + if ok {
                1int
            } else {
                0int
            },
            final(self).failed == old(self).failed + if ok {
                0int
            } else {
                1int
            },
    {
        if ok {
            self.succeeded += 1;
        } else {
            self.failed += 1;
        }
    }
}

/// The events a batch import reports.
pub enum BulkImportProgress {
    Started { total: usize },
    Importing { current: usize, total: usize, title: String },
    Completed { succeeded: usize, failed: usize },
    Error { title: String, message: String },
}

/// The events a folder discovery reports.
pub enum DiscoverProgress {
    Scanning { scanned_dirs: usize },
    Completed { found: usize },
}

/// How many visited directories pass between two progress reports of a discovery.
pub const SCAN_REPORT_EVERY: usize = 50;

/// Whether a discovery reports progress after visiting `scanned_dirs` directories.
pub fn progress_due(scanned_dirs: usize) -> (r: bool)
    ensures
        r == (scanned_dirs % 50 == 0),
{
    scanned_dirs % SCAN_REPORT_EVERY == 0
}

/// A folder found by a discovery, with the metadata guessed from its name.
pub struct DiscoveredFolder {
    pub path: String,
    pub folder_name: String,
    pub image_count: usize,
    pub parsed_metadata: ParsedMetadata,
    pub already_registered: bool,
}

/// The entry a discovery lists for a directory, or none where it holds no image
/// directly.
pub fn discovered_folder(
    path: String,
    folder_name: String,
    image_count: usize,
    already_registered: bool,
) -> (r: Option<DiscoveredFolder>)
    ensures
        image_count == 0 <==> r is None,
        r matches Some(d) ==> {
            &&& d.path@ == path@
            &&& d.folder_name@ == folder_name@
            &&& d.image_count == image_count
            &&& d.already_registered == already_registered
            &&& d.parsed_metadata.title@ == folder_guess(folder_name@).0
            &&& opt_chars(d.parsed_metadata.artist) == folder_guess(folder_name@).1
        },
{
    if image_count == 0 {
        return None;
    }
    let parsed_metadata = parse_folder_name(folder_name.as_str());
    Some(DiscoveredFolder { path, folder_name, image_count, parsed_metadata, already_registered })
}

} // verus!
