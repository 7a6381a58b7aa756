use crc32fast::Hasher;
use std::collections::VecDeque;
use std::sync::atomic::{AtomicBool, Ordering};
use vstd::prelude::*;
use vstd::string::*;

use crate::client::{BrandInfo, CarInfo, FileInfo, FirmwareInfo};
use crate::io::IoError;
use crate::text::{decimal_string, signed_decimal_string};

verus! {

/// Extension of an in-flight raw download.
pub const DOWNLOAD_EXT: &'static str = "nudl_download";
/// Extension of a staging copy of an extracted archive entry.
pub const EXTRACT_EXT: &'static str = "nudl_extract";
/// Extension of a finished but unverified download of a file that is not
/// split.
pub const VERIFY_EXT: &'static str = "nudl_verify";

/// Progress of the pipeline, in bytes.
#[derive(Clone, Copy, Debug, PartialEq, Eq, Structural)]
pub enum ProgressMessage {
    /// Total bytes to download.
    TotalDownload(u64),
    /// Total bytes to post-process.
    TotalPostProcess(u64),
    /// Bytes downloaded since the last message.
    Download(u64),
    /// Bytes post-processed since the last message.
    PostProcess(u64),
}

/// The outcome of a cancellation check that read the flag as `cancelled`.
pub fn cancel_outcome(cancelled: bool) -> (r: Result<(), IoError>)
    ensures
        r is Err <==> cancelled,
        r is Err ==> r == Err::<(), IoError>(IoError::Interrupted),
{
    if cancelled {
        return Err(IoError::Interrupted);
    }
    Ok(())
}

/// Fail with [`IoError::Interrupted`] once the cancel flag is set; I/O loops
/// call this often so that cancellation is prompt. The flag is set by
/// another thread, so either outcome can come; [`cancel_outcome`] says which
/// one follows from the value read.
pub fn check_cancel(cancel_signal: &AtomicBool) -> (r: Result<(), IoError>)
    ensures
        r is Ok || r == Err::<(), IoError>(IoError::Interrupted),
{
    cancel_outcome(cancel_signal.load(Ordering::SeqCst))
}

/// One raw download still to do.
#[derive(Clone, Copy, Debug, PartialEq, Eq, Structural)]
pub struct DownloadParams {
    pub file_index: usize,
    pub download_index: u32,
    pub start_offset: u64,
}

/// One post-processing step: verify or extract, then clean up; or only
/// clean up when the output already exists.
#[derive(Clone, Copy, Debug, PartialEq, Eq, Structural)]
pub struct PostProcessParams {
    pub file_index: usize,
    pub clean_only: bool,
}

/// What is on disk for one download of a file.
#[derive(Clone, Copy, Debug, PartialEq, Eq, Structural)]
pub struct PieceState {
    /// Size of the finished piece under its final name.
    pub final_size: Option<u64>,
    /// Size of the `<name>.<VERIFY_EXT>` file.
    pub verify_size: Option<u64>,
    /// Size of the `<name>.<DOWNLOAD_EXT>` file.
    pub partial_size: Option<u64>,
}

/// What is on disk for one firmware file.
#[derive(Clone, Debug)]
pub struct FileState {
    /// The file has a directory and it does not exist.
    pub directory_missing: bool,
    /// The output exists under its final name.
    pub output_exists: bool,
    /// One entry for each download of the file.
    pub pieces: Vec<PieceState>,
}

/// The work that remains, as found on disk.
#[derive(Debug)]
pub struct InitialState {
    /// Bytes already downloaded: the sum of the raw download sizes.
    pub dl_bytes: u64,
    /// Bytes already post-processed: the sum of the output sizes.
    pub pp_bytes: u64,
    /// Number of remaining downloads of each file.
    pub dl_remain: Vec<u32>,
    /// All remaining downloads, in order.
    pub dl_tasks: VecDeque<DownloadParams>,
    /// Post-processing that can start at once. More is added as the last
    /// download of a file completes.
    pub pp_tasks: VecDeque<PostProcessParams>,
}

/// The part of the plan that one file contributes.
pub struct FilePlan {
    pub dl_bytes: int,
    pub pp_bytes: int,
    pub tasks: Seq<DownloadParams>,
    pub pp: Seq<PostProcessParams>,
}

/// The plan for a prefix of the files.
pub struct PlanModel {
    pub dl_bytes: int,
    pub pp_bytes: int,
    pub remain: Seq<nat>,
    pub dl: Seq<DownloadParams>,
    pub pp: Seq<PostProcessParams>,
}

/// Bytes on disk and downloads to do for pieces `0..k` of file `fi`.
pub open spec fn pieces_plan(fi: nat, split: bool, ps: Seq<PieceState>, k: nat) -> (int, Seq<DownloadParams>)
    decreases k,
{
    if k == 0 {
        (0, Seq::empty())
    } else {
        let (b, t) = pieces_plan(fi, split, ps, (k - 1) as nat);
        let p = ps[k - 1];
        if p.final_size is Some {
            (b + p.final_size.unwrap(), t)
        } else if !split && p.verify_size is Some {
            (b + p.verify_size.unwrap(), t)
        } else {
            let s = match p.partial_size {
                Some(s) => s,
                None => 0,
            };
            (
                b + s,
                t.push(
                    DownloadParams {
                        file_index: fi as usize,
                        download_index: (k - 1) as u32,
                        start_offset: s,
                    },
                ),
            )
        }
    }
}

/// Every download of file `fi` from the start.
pub open spec fn fresh_tasks(fi: nat, count: nat) -> Seq<DownloadParams> {
    Seq::new(
        count,
        |k: int| DownloadParams { file_index: fi as usize, download_index: k as u32, start_offset: 0 },
    )
}

pub open spec fn download_size_spec(info: FileInfo) -> nat {
    if info.split_count() == 0 {
        info.size as nat
    } else {
        info.split_size() as nat
    }
}

/// What file `fi` contributes to the plan.
pub open spec fn file_plan(fi: nat, info: FileInfo, st: FileState) -> FilePlan {
    let split = info.split_count() > 0;
    if info.directory is Some && st.directory_missing {
        FilePlan { dl_bytes: 0, pp_bytes: 0, tasks: fresh_tasks(fi, info.count_spec()), pp: Seq::empty() }
    } else if st.output_exists {
        FilePlan {
            dl_bytes: download_size_spec(info) as int,
            pp_bytes: info.size as int,
            tasks: Seq::empty(),
            pp: if split {
                seq![PostProcessParams { file_index: fi as usize, clean_only: true }]
            } else {
                Seq::empty()
            },
        }
    } else {
        let (b, t) = pieces_plan(fi, split, st.pieces@, info.count_spec());
        FilePlan {
            dl_bytes: b,
            pp_bytes: 0,
            tasks: t,
            pp: if t.len() == 0 {
                seq![PostProcessParams { file_index: fi as usize, clean_only: false }]
            } else {
                Seq::empty()
            },
        }
    }
}

/// The plan for files `0..n`.
pub open spec fn plan_model(files: Seq<FileInfo>, states: Seq<FileState>, n: nat) -> PlanModel
    decreases n,
{
    if n == 0 {
        PlanModel { dl_bytes: 0, pp_bytes: 0, remain: Seq::empty(), dl: Seq::empty(), pp: Seq::empty() }
    } else {
        let m = plan_model(files, states, (n - 1) as nat);
        let f = file_plan((n - 1) as nat, files[n - 1], states[n - 1]);
        PlanModel {
            dl_bytes: m.dl_bytes + f.dl_bytes,
            pp_bytes: m.pp_bytes + f.pp_bytes,
            remain: m.remain.push(f.tasks.len()),
            dl: m.dl + f.tasks,
            pp: m.pp + f.pp,
        }
    }
}

/// Whether the disk snapshot matches the firmware files: one state per file
/// and one piece state per download.
pub open spec fn snapshot_fits(files: Seq<FileInfo>, states: Seq<FileState>) -> bool {
    &&& states.len() == files.len()
    &&& forall|i: int| 0 <= i < files.len() ==> #[trigger] states[i].pieces@.len() == files[i].count_spec()
}

/// Why no plan could be made.
#[derive(Clone, Copy, Debug, PartialEq, Eq, Structural)]
pub enum PlanError {
    /// A byte total does not fit in 64 bits.
    SizeOverflow,
}

proof fn lemma_pieces_plan_grows(fi: nat, split: bool, ps: Seq<PieceState>, k: nat, n: nat)
    requires
        k <= n,
    ensures
        pieces_plan(fi, split, ps, k).0 <= pieces_plan(fi, split, ps, n).0,
        pieces_plan(fi, split, ps, n).0 >= 0,
    decreases n,
{
    if n > 0 {
        if k < n {
            lemma_pieces_plan_grows(fi, split, ps, k, (n - 1) as nat);
        } else {
            lemma_pieces_plan_grows(fi, split, ps, 0, (n - 1) as nat);
        }
    }
}

proof fn lemma_file_plan_nonneg(fi: nat, info: FileInfo, st: FileState)
    ensures
        file_plan(fi, info, st).dl_bytes >= 0,
        file_plan(fi, info, st).pp_bytes >= 0,
{
    lemma_pieces_plan_grows(fi, info.split_count() > 0, st.pieces@, 0, info.count_spec());
}

proof fn lemma_plan_grows(files: Seq<FileInfo>, states: Seq<FileState>, k: nat, n: nat)
    requires
        k <= n,
    ensures
        plan_model(files, states, k).dl_bytes <= plan_model(files, states, n).dl_bytes,
        plan_model(files, states, k).pp_bytes <= plan_model(files, states, n).pp_bytes,
    decreases n,
{
    if k < n {
        lemma_plan_grows(files, states, k, (n - 1) as nat);
        lemma_file_plan_nonneg((n - 1) as nat, files[n - 1], states[n - 1]);
    }
}

/// Downloads and bytes of pieces `0..count` of file `fi`.
fn plan_pieces(fi: usize, info: &FileInfo, st: &FileState, count: u32, tasks: &mut VecDeque<DownloadParams>, base: u64) -> (r: Option<(u64, u32)>)
    requires
        count == info.count_spec(),
        st.pieces@.len() == count,
    ensures
        match r {
            Some((b, added)) => {
                &&& b == base + pieces_plan(fi as nat, info.split_count() > 0, st.pieces@, count as nat).0
                &&& final(tasks)@ == old(tasks)@ + pieces_plan(fi as nat, info.split_count() > 0, st.pieces@, count as nat).1
                &&& added == pieces_plan(fi as nat, info.split_count() > 0, st.pieces@, count as nat).1.len()
            },
            None => base + pieces_plan(fi as nat, info.split_count() > 0, st.pieces@, count as nat).0 > u64::MAX,
        },
{
    let split = info.is_split();
    let ghost ps = st.pieces@;
    let mut bytes = base;
    let mut added: u32 = 0;
    let mut k: u32 = 0;
    while k < count
        invariant
            k <= count,
            ps == st.pieces@,
            ps.len() == count,
            split == (info.split_count() > 0),
            bytes == base + pieces_plan(fi as nat, split, ps, k as nat).0,
            tasks@ == old(tasks)@ + pieces_plan(fi as nat, split, ps, k as nat).1,
            added == pieces_plan(fi as nat, split, ps, k as nat).1.len(),
            added <= k,
        decreases count - k,
    {
        proof {
            lemma_pieces_plan_grows(fi as nat, split, ps, 0, k as nat);
        }
        let p = st.pieces[k as usize];
        let size: u64 = if let Some(s) = p.final_size {
            s
        } else if !split && p.verify_size.is_some() {
            p.verify_size.unwrap()
        } else {
            let s = match p.partial_size {
                Some(s) => s,
                None => 0,
            };
            tasks.push_back(DownloadParams { file_index: fi, download_index: k, start_offset: s });
            added = added + 1;
            s
        };
        if size > u64::MAX - bytes {
            proof {
                lemma_pieces_plan_grows(fi as nat, split, ps, (k + 1) as nat, count as nat);
            }
            return None;
        }
        bytes = bytes + size;
        k = k + 1;
        assert(tasks@ =~= old(tasks)@ + pieces_plan(fi as nat, split, ps, k as nat).1);
    }
    Some((bytes, added))
}

/// Classify every expected download by what is on disk: complete, partly
/// downloaded or absent. Nothing on disk is changed.
pub fn compute_initial_state(firmware: &FirmwareInfo, disk: &Vec<FileState>) -> (r: Result<InitialState, PlanError>)
    requires
        snapshot_fits(firmware.files@, disk@),
    ensures
        ({
            let m = plan_model(firmware.files@, disk@, firmware.files@.len());
            &&& r is Ok <==> m.dl_bytes <= u64::MAX && m.pp_bytes <= u64::MAX
            &&& r matches Ok(s) ==> {
                &&& s.dl_bytes == m.dl_bytes
                &&& s.pp_bytes == m.pp_bytes
                &&& s.dl_remain@.len() == m.remain.len()
                &&& forall|i: int| 0 <= i < m.remain.len() ==> #[trigger] s.dl_remain@[i] == m.remain[i]
                &&& s.dl_tasks@ == m.dl
                &&& s.pp_tasks@ == m.pp
            }
        }),
{
    let ghost files = firmware.files@;
    let ghost states = disk@;
    let mut dl_bytes: u64 = 0;
    let mut pp_bytes: u64 = 0;
    let mut dl_remain: Vec<u32> = Vec::new();
    let mut dl_tasks: VecDeque<DownloadParams> = VecDeque::new();
    let mut pp_tasks: VecDeque<PostProcessParams> = VecDeque::new();
    let mut fi: usize = 0;
    while fi < firmware.files.len()
        invariant
            files == firmware.files@,
            states == disk@,
            snapshot_fits(files, states),
            fi <= files.len(),
            ({
                let m = plan_model(files, states, fi as nat);
                &&& dl_bytes == m.dl_bytes
                &&& pp_bytes == m.pp_bytes
                &&& dl_remain@.len() == m.remain.len()
                &&& forall|i: int| 0 <= i < m.remain.len() ==> #[trigger] dl_remain@[i] == m.remain[i]
                &&& dl_tasks@ == m.dl
                &&& pp_tasks@ == m.pp
            }),
        decreases files.len() - fi,
    {
        let info = &firmware.files[fi];
        let st = &disk[fi];
        let count = info.download_count();
        let ghost m0 = plan_model(files, states, fi as nat);
        let ghost f = file_plan(fi as nat, *info, *st);
        proof {
            lemma_file_plan_nonneg(fi as nat, *info, *st);
            lemma_plan_grows(files, states, (fi + 1) as nat, files.len());
        }
        if info.directory.is_some() && st.directory_missing {
            let mut k: u32 = 0;
            while k < count
                invariant
                    k <= count,
                    count == info.count_spec(),
                    dl_tasks@ == m0.dl + fresh_tasks(fi as nat, k as nat),
                decreases count - k,
            {
                dl_tasks.push_back(DownloadParams { file_index: fi, download_index: k, start_offset: 0 });
                k = k + 1;
                assert(dl_tasks@ =~= m0.dl + fresh_tasks(fi as nat, k as nat));
            }
            dl_remain.push(count);
        } else if st.output_exists {
            let d = info.download_size();
            if d > u64::MAX - dl_bytes || info.size > u64::MAX - pp_bytes {
                return Err(PlanError::SizeOverflow);
            }
            dl_bytes = dl_bytes + d;
            pp_bytes = pp_bytes + info.size;
            if info.is_split() {
                pp_tasks.push_back(PostProcessParams { file_index: fi, clean_only: true });
            }
            dl_remain.push(0);
        } else {
            match plan_pieces(fi, info, st, count, &mut dl_tasks, dl_bytes) {
                None => return Err(PlanError::SizeOverflow),
                Some((b, added)) => {
                    dl_bytes = b;
                    if added == 0 {
                        pp_tasks.push_back(PostProcessParams { file_index: fi, clean_only: false });
                    }
                    dl_remain.push(added);
                },
            }
        }
        fi = fi + 1;
        proof {
            let m1 = plan_model(files, states, fi as nat);
            assert(m1.remain =~= m0.remain.push(f.tasks.len()));
            assert(dl_tasks@ =~= m1.dl);
            assert(pp_tasks@ =~= m1.pp);
        }
    }
    Ok(InitialState { dl_bytes, pp_bytes, dl_remain, dl_tasks, pp_tasks })
}


pub open spec fn seq_sum(s: Seq<nat>) -> nat
    decreases s.len(),
{
    if s.len() == 0 {
        0
    } else {
        seq_sum(s.drop_last()) + s.last()
    }
}

/// The remaining download counts of the plan add up to the number of
/// queued downloads.
pub proof fn lemma_plan_counts(files: Seq<FileInfo>, states: Seq<FileState>, n: nat)
    ensures
        seq_sum(plan_model(files, states, n).remain) == plan_model(files, states, n).dl.len(),
    decreases n,
{
    if n > 0 {
        lemma_plan_counts(files, states, (n - 1) as nat);
        let m = plan_model(files, states, n);
        assert(m.remain.drop_last() =~= plan_model(files, states, (n - 1) as nat).remain);
    }
}

/// Sum of `sizes(fi, k)` over the downloads `k < count` of file `fi`.
pub open spec fn piece_total(sizes: spec_fn(nat, nat) -> nat, fi: nat, count: nat) -> nat
    decreases count,
{
    if count == 0 {
        0
    } else {
        piece_total(sizes, fi, (count - 1) as nat) + sizes(fi, (count - 1) as nat)
    }
}

/// Sum of all download sizes of files `0..n`.
pub open spec fn files_total(sizes: spec_fn(nat, nat) -> nat, files: Seq<FileInfo>, n: nat) -> nat
    decreases n,
{
    if n == 0 {
        0
    } else {
        files_total(sizes, files, (n - 1) as nat) + piece_total(sizes, (n - 1) as nat, files[n - 1].count_spec())
    }
}

/// Bytes still to download for the queued downloads.
pub open spec fn remaining_bytes(sizes: spec_fn(nat, nat) -> nat, dl: Seq<DownloadParams>) -> int
    decreases dl.len(),
{
    if dl.len() == 0 {
        0
    } else {
        remaining_bytes(sizes, dl.drop_last()) + sizes(
            dl.last().file_index as nat,
            dl.last().download_index as nat,
        ) - dl.last().start_offset
    }
}

/// A finished output stands for all of its downloads.
pub open spec fn output_consistent(sizes: spec_fn(nat, nat) -> nat, info: FileInfo, st: FileState, i: int) -> bool {
    !(info.directory is Some && st.directory_missing) && st.output_exists ==> download_size_spec(info)
        == piece_total(sizes, i as nat, info.count_spec())
}

/// Finished downloads of piece `k` have its full size, a partial one no more.
pub open spec fn piece_consistent(sizes: spec_fn(nat, nat) -> nat, info: FileInfo, st: FileState, i: int, k: int) -> bool {
    let p = st.pieces@[k];
    let split = info.split_count() > 0;
    !(info.directory is Some && st.directory_missing) && !st.output_exists ==> {
        &&& p.final_size matches Some(v) ==> v == sizes(i as nat, k as nat)
        &&& p.final_size is None && !split && p.verify_size is Some ==> p.verify_size.unwrap() == sizes(
            i as nat,
            k as nat,
        )
        &&& p.partial_size matches Some(v) ==> v <= sizes(i as nat, k as nat)
    }
}

/// Whether the sizes on disk agree with the true download sizes `sizes`.
pub open spec fn disk_consistent(sizes: spec_fn(nat, nat) -> nat, files: Seq<FileInfo>, states: Seq<FileState>) -> bool {
    &&& forall|i: int| 0 <= i < files.len() ==> #[trigger] output_consistent(sizes, files[i], states[i], i)
    &&& forall|i: int, k: int|
        0 <= i < files.len() && 0 <= k < files[i].count_spec() ==> #[trigger] piece_consistent(
            sizes,
            files[i],
            states[i],
            i,
            k,
        )
}

proof fn lemma_remaining_append(sizes: spec_fn(nat, nat) -> nat, a: Seq<DownloadParams>, b: Seq<DownloadParams>)
    ensures
        remaining_bytes(sizes, a + b) == remaining_bytes(sizes, a) + remaining_bytes(sizes, b),
    decreases b.len(),
{
    if b.len() > 0 {
        lemma_remaining_append(sizes, a, b.drop_last());
        assert((a + b).drop_last() =~= a + b.drop_last());
    } else {
        assert(a + b =~= a);
    }
}

proof fn lemma_fresh_remaining(sizes: spec_fn(nat, nat) -> nat, fi: nat, count: nat)
    requires
        fi <= usize::MAX,
        count <= u32::MAX + 1,
    ensures
        remaining_bytes(sizes, fresh_tasks(fi, count)) == piece_total(sizes, fi, count),
    decreases count,
{
    if count > 0 {
        lemma_fresh_remaining(sizes, fi, (count - 1) as nat);
        assert(fresh_tasks(fi, count).drop_last() =~= fresh_tasks(fi, (count - 1) as nat));
    }
}

proof fn lemma_pieces_remaining(
    sizes: spec_fn(nat, nat) -> nat,
    files: Seq<FileInfo>,
    states: Seq<FileState>,
    fi: nat,
    k: nat,
)
    requires
        fi < files.len(),
        fi <= usize::MAX,
        snapshot_fits(files, states),
        disk_consistent(sizes, files, states),
        !(files[fi as int].directory is Some && states[fi as int].directory_missing),
        !states[fi as int].output_exists,
        k <= files[fi as int].count_spec(),
    ensures
        ({
            let (b, t) = pieces_plan(fi, files[fi as int].split_count() > 0, states[fi as int].pieces@, k);
            b + remaining_bytes(sizes, t) == piece_total(sizes, fi, k)
        }),
    decreases k,
{
    if k > 0 {
        lemma_pieces_remaining(sizes, files, states, fi, (k - 1) as nat);
        let info = files[fi as int];
        let p = states[fi as int].pieces@[k - 1];
        assert(piece_consistent(sizes, files[fi as int], states[fi as int], fi as int, k - 1));
        let (b, t) = pieces_plan(fi, info.split_count() > 0, states[fi as int].pieces@, (k - 1) as nat);
        let (b2, t2) = pieces_plan(fi, info.split_count() > 0, states[fi as int].pieces@, k);
        if !(p.final_size is Some) && !(info.split_count() == 0 && p.verify_size is Some) {
            assert(t2.drop_last() =~= t);
        }
    }
}

/// Planner accounting: with the true download sizes `sizes`, the bytes
/// already on disk plus the bytes that the queued downloads still have to
/// fetch are the total size of all downloads.
pub proof fn lemma_plan_accounting(
    sizes: spec_fn(nat, nat) -> nat,
    files: Seq<FileInfo>,
    states: Seq<FileState>,
    n: nat,
)
    requires
        n <= files.len() <= usize::MAX,
        snapshot_fits(files, states),
        disk_consistent(sizes, files, states),
    ensures
        plan_model(files, states, n).dl_bytes + remaining_bytes(sizes, plan_model(files, states, n).dl)
            == files_total(sizes, files, n),
    decreases n,
{
    if n > 0 {
        let fi = (n - 1) as nat;
        lemma_plan_accounting(sizes, files, states, fi);
        let m = plan_model(files, states, fi);
        let info = files[fi as int];
        let st = states[fi as int];
        let f = file_plan(fi, info, st);
        lemma_remaining_append(sizes, m.dl, f.tasks);
        if info.directory is Some && st.directory_missing {
            lemma_fresh_remaining(sizes, fi, info.count_spec());
        } else if st.output_exists {
            assert(output_consistent(sizes, files[fi as int], states[fi as int], fi as int));
        } else {
            lemma_pieces_remaining(sizes, files, states, fi, info.count_spec());
        }
    }
}


/// Whether the queued download `t` is owed: its file exists in the plan,
/// and either the file's directory is missing, or neither the output nor the
/// piece's finished download is on disk and the download resumes from the
/// partial one.
pub open spec fn download_owed(files: Seq<FileInfo>, states: Seq<FileState>, t: DownloadParams) -> bool {
    let f = t.file_index as int;
    let k = t.download_index as int;
    &&& 0 <= f < files.len()
    &&& 0 <= k < files[f].count_spec()
    &&& (files[f].directory is Some && states[f].directory_missing && t.start_offset == 0) || {
        let p = states[f].pieces@[k];
        &&& !(files[f].directory is Some && states[f].directory_missing)
        &&& !states[f].output_exists
        &&& p.final_size is None
        &&& (files[f].split_count() > 0 || p.verify_size is None)
        &&& t.start_offset == match p.partial_size {
            Some(s) => s,
            None => 0,
        }
    }
}

/// Downloads queued for pieces `0..k` of file `fi`.
pub open spec fn piece_tasks(files: Seq<FileInfo>, states: Seq<FileState>, fi: nat, k: nat) -> Seq<DownloadParams> {
    pieces_plan(fi, files[fi as int].split_count() > 0, states[fi as int].pieces@, k).1
}

proof fn lemma_pieces_owed(files: Seq<FileInfo>, states: Seq<FileState>, fi: nat, k: nat)
    requires
        fi < files.len() <= usize::MAX,
        snapshot_fits(files, states),
        !(files[fi as int].directory is Some && states[fi as int].directory_missing),
        !states[fi as int].output_exists,
        k <= files[fi as int].count_spec(),
    ensures
        forall|j: int|
            0 <= j < piece_tasks(files, states, fi, k).len() ==> download_owed(
                files,
                states,
                #[trigger] piece_tasks(files, states, fi, k)[j],
            ),
    decreases k,
{
    if k > 0 {
        lemma_pieces_owed(files, states, fi, (k - 1) as nat);
        let prev = piece_tasks(files, states, fi, (k - 1) as nat);
        let now = piece_tasks(files, states, fi, k);
        assert forall|j: int| 0 <= j < now.len() implies download_owed(files, states, #[trigger] now[j]) by {
            if j < prev.len() {
                assert(now[j] == prev[j]);
                assert(download_owed(files, states, prev[j]));
            } else {
                let t = now[j];
                assert(t.file_index as int == fi);
                assert(t.download_index as int == k - 1);
            }
        }
    }
}

/// Resumption never redoes finished work: every download in the plan is
/// owed, so no piece whose finished download or whose file's output is on
/// disk is fetched again, and partial downloads resume where they stopped.
pub proof fn lemma_plan_only_owed(files: Seq<FileInfo>, states: Seq<FileState>, n: nat)
    requires
        n <= files.len() <= usize::MAX,
        snapshot_fits(files, states),
    ensures
        forall|j: int|
            0 <= j < plan_model(files, states, n).dl.len() ==> download_owed(
                files,
                states,
                #[trigger] plan_model(files, states, n).dl[j],
            ),
    decreases n,
{
    if n > 0 {
        let fi = (n - 1) as nat;
        lemma_plan_only_owed(files, states, fi);
        let m = plan_model(files, states, fi);
        let info = files[fi as int];
        let st = states[fi as int];
        let f = file_plan(fi, info, st);
        if info.directory is Some && st.directory_missing {
        } else if st.output_exists {
        } else {
            lemma_pieces_owed(files, states, fi, info.count_spec());
        }
        assert forall|j: int| 0 <= j < plan_model(files, states, n).dl.len() implies download_owed(
            files,
            states,
            #[trigger] plan_model(files, states, n).dl[j],
        ) by {
            if j < m.dl.len() {
                assert(plan_model(files, states, n).dl[j] == m.dl[j]);
                assert(download_owed(files, states, m.dl[j]));
            } else {
                let t = f.tasks[j - m.dl.len()];
                assert(plan_model(files, states, n).dl[j] == t);
                if info.directory is Some && st.directory_missing {
                    assert(t.file_index as int == fi);
                } else {
                    assert(f.tasks == piece_tasks(files, states, fi, info.count_spec()));
                    assert(download_owed(files, states, piece_tasks(files, states, fi, info.count_spec())[j - m.dl.len()]));
                }
            }
        }
    }
}

/// After a complete run every output is on disk, and a rerun downloads
/// nothing: it only queues the clean-up of split files' pieces.
pub proof fn lemma_finished_run_downloads_nothing(files: Seq<FileInfo>, states: Seq<FileState>, n: nat)
    requires
        n <= files.len(),
        snapshot_fits(files, states),
        forall|i: int| 0 <= i < files.len() ==> (#[trigger] states[i]).output_exists && !states[i].directory_missing,
    ensures
        plan_model(files, states, n).dl.len() == 0,
        forall|j: int|
            0 <= j < plan_model(files, states, n).pp.len() ==> (#[trigger] plan_model(files, states, n).pp[j]).clean_only,
    decreases n,
{
    if n > 0 {
        lemma_finished_run_downloads_nothing(files, states, (n - 1) as nat);
        let m = plan_model(files, states, (n - 1) as nat);
        let f = file_plan((n - 1) as nat, files[n - 1], states[n - 1]);
        assert(states[n - 1].output_exists);
        assert forall|j: int| 0 <= j < plan_model(files, states, n).pp.len() implies (#[trigger] plan_model(
            files,
            states,
            n,
        ).pp[j]).clean_only by {
            if j < m.pp.len() {
                assert(plan_model(files, states, n).pp[j] == m.pp[j]);
            } else {
                assert(plan_model(files, states, n).pp[j] == f.pp[j - m.pp.len()]);
            }
        }
    }
}

/// Sum of the download sizes of files `0..n`.
pub open spec fn download_total(files: Seq<FileInfo>, n: nat) -> nat
    decreases n,
{
    if n == 0 {
        0
    } else {
        download_total(files, (n - 1) as nat) + download_size_spec(files[n - 1])
    }
}

proof fn lemma_download_total_grows(files: Seq<FileInfo>, k: nat, n: nat)
    requires
        k <= n,
    ensures
        download_total(files, k) <= download_total(files, n),
    decreases n,
{
    if k < n {
        lemma_download_total_grows(files, k, (n - 1) as nat);
    }
}

/// The total number of bytes to download, or `None` when it does not fit in
/// 64 bits.
pub fn total_download_size(firmware: &FirmwareInfo) -> (r: Option<u64>)
    ensures
        r == if download_total(firmware.files@, firmware.files@.len()) <= u64::MAX {
            Some(download_total(firmware.files@, firmware.files@.len()) as u64)
        } else {
            None::<u64>
        },
{
    let mut sum: u64 = 0;
    let mut i: usize = 0;
    while i < firmware.files.len()
        invariant
            i <= firmware.files@.len(),
            sum == download_total(firmware.files@, i as nat),
        decreases firmware.files@.len() - i,
    {
        let d = firmware.files[i].download_size();
        if d > u64::MAX - sum {
            proof {
                lemma_download_total_grows(firmware.files@, (i + 1) as nat, firmware.files@.len());
            }
            return None;
        }
        sum = sum + d;
        i += 1;
    }
    Some(sum)
}

/// Why an event does not fit the scheduler's state.
#[derive(Clone, Copy, Debug, PartialEq, Eq, Structural)]
pub enum ScheduleError {
    /// A completion arrived for a task that is not running.
    NotRunning,
    /// A download completed for a file with no downloads left.
    NoDownloadLeft,
}

/// The decisions of the download pipeline: which task starts next and what
/// a completed task leads to. At most `concurrency` downloads and at most
/// `concurrency` post-processing tasks run at a time; downloads start in
/// planner order; a file's post-processing is queued once its last download
/// completes.
#[derive(Debug)]
pub struct Scheduler {
    concurrency: usize,
    dl_remain: Vec<u32>,
    dl_tasks: VecDeque<DownloadParams>,
    pp_tasks: VecDeque<PostProcessParams>,
    dl_running: usize,
    pp_running: usize,
}

impl Scheduler {
    pub closed spec fn well_formed(&self) -> bool {
        &&& self.dl_running <= self.concurrency
        &&& self.pp_running <= self.concurrency
    }

    /// The downloads not yet started, in order.
    pub closed spec fn pending_downloads(&self) -> Seq<DownloadParams> {
        self.dl_tasks@
    }

    /// The post-processing tasks not yet started, in order.
    pub closed spec fn pending_post_processes(&self) -> Seq<PostProcessParams> {
        self.pp_tasks@
    }

    pub closed spec fn running_downloads(&self) -> nat {
        self.dl_running as nat
    }

    pub closed spec fn running_post_processes(&self) -> nat {
        self.pp_running as nat
    }

    pub closed spec fn limit(&self) -> nat {
        self.concurrency as nat
    }

    /// Downloads of file `f` not yet completed.
    pub closed spec fn remaining(&self, f: int) -> nat {
        self.dl_remain@[f] as nat
    }

    pub closed spec fn file_count(&self) -> nat {
        self.dl_remain@.len()
    }

    /// Start from a plan.
    pub fn new(state: InitialState, concurrency: usize) -> (r: Self)
        ensures
            r.well_formed(),
            r.limit() == concurrency,
            r.pending_downloads() == state.dl_tasks@,
            r.pending_post_processes() == state.pp_tasks@,
            r.running_downloads() == 0,
            r.running_post_processes() == 0,
            r.file_count() == state.dl_remain@.len(),
            forall|f: int| 0 <= f < state.dl_remain@.len() ==> #[trigger] r.remaining(f) == state.dl_remain@[f],
    {
        let r = Scheduler {
            concurrency,
            dl_remain: state.dl_remain,
            dl_tasks: state.dl_tasks,
            pp_tasks: state.pp_tasks,
            dl_running: 0,
            pp_running: 0,
        };
        r
    }

    /// The next download to start, if one is pending and fewer than the limit
    /// are running.
    pub fn next_download(&mut self) -> (r: Option<DownloadParams>)
        requires
            old(self).well_formed(),
        ensures
            final(self).well_formed(),
            final(self).limit() == old(self).limit(),
            final(self).pending_post_processes() == old(self).pending_post_processes(),
            final(self).running_post_processes() == old(self).running_post_processes(),
            final(self).file_count() == old(self).file_count(),
            forall|f: int| #[trigger] final(self).remaining(f) == old(self).remaining(f),
            old(self).running_downloads() < old(self).limit() && old(self).pending_downloads().len() > 0 ==> {
                &&& r == Some(old(self).pending_downloads()[0])
                &&& final(self).pending_downloads() == old(self).pending_downloads().drop_first()
                &&& final(self).running_downloads() == old(self).running_downloads() + 1
            },
            !(old(self).running_downloads() < old(self).limit() && old(self).pending_downloads().len() > 0)
                ==> r is None && final(self).pending_downloads() == old(self).pending_downloads()
                && final(self).running_downloads() == old(self).running_downloads(),
    {
        if self.dl_running < self.concurrency && self.dl_tasks.len() > 0 {
            let t = self.dl_tasks.pop_front();
            self.dl_running = self.dl_running + 1;
            assert(self.pending_downloads() =~= old(self).pending_downloads().drop_first());
            t
        } else {
            None
        }
    }

    /// The next post-processing task to start, if one is pending and fewer
    /// than the limit are running.
    pub fn next_post_process(&mut self) -> (r: Option<PostProcessParams>)
        requires
            old(self).well_formed(),
        ensures
            final(self).well_formed(),
            final(self).limit() == old(self).limit(),
            final(self).pending_downloads() == old(self).pending_downloads(),
            final(self).running_downloads() == old(self).running_downloads(),
            final(self).file_count() == old(self).file_count(),
            forall|f: int| #[trigger] final(self).remaining(f) == old(self).remaining(f),
            old(self).running_post_processes() < old(self).limit() && old(self).pending_post_processes().len()
                > 0 ==> {
                &&& r == Some(old(self).pending_post_processes()[0])
                &&& final(self).pending_post_processes() == old(self).pending_post_processes().drop_first()
                &&& final(self).running_post_processes() == old(self).running_post_processes() + 1
            },
            !(old(self).running_post_processes() < old(self).limit()
                && old(self).pending_post_processes().len() > 0) ==> r is None
                && final(self).pending_post_processes() == old(self).pending_post_processes()
                && final(self).running_post_processes() == old(self).running_post_processes(),
    {
        if self.pp_running < self.concurrency && self.pp_tasks.len() > 0 {
            let t = self.pp_tasks.pop_front();
            self.pp_running = self.pp_running + 1;
            assert(self.pending_post_processes() =~= old(self).pending_post_processes().drop_first());
            t
        } else {
            None
        }
    }

    /// A download of file `file_index` completed. When it was the file's
    /// last, the file's post-processing is queued.
    pub fn download_finished(&mut self, file_index: usize) -> (r: Result<(), ScheduleError>)
        requires
            old(self).well_formed(),
        ensures
            final(self).well_formed(),
            final(self).limit() == old(self).limit(),
            final(self).running_post_processes() == old(self).running_post_processes(),
            final(self).pending_downloads() == old(self).pending_downloads(),
            final(self).file_count() == old(self).file_count(),
            old(self).running_downloads() == 0 ==> r == Err::<(), ScheduleError>(ScheduleError::NotRunning),
            old(self).running_downloads() > 0 && (file_index >= old(self).file_count() || old(self).remaining(
                file_index as int,
            ) == 0) ==> r == Err::<(), ScheduleError>(ScheduleError::NoDownloadLeft),
            r is Err ==> *final(self) == *old(self),
            old(self).running_downloads() > 0 && file_index < old(self).file_count() && old(self).remaining(
                file_index as int,
            ) > 0 ==> r is Ok,
            r is Ok ==> {
                &&& final(self).running_downloads() == old(self).running_downloads() - 1
                &&& final(self).remaining(file_index as int) == old(self).remaining(file_index as int) - 1
                &&& forall|f: int|
                    0 <= f < old(self).file_count() && f != file_index ==> #[trigger] final(self).remaining(f)
                        == old(self).remaining(f)
                &&& final(self).remaining(file_index as int) == 0 ==> final(self).pending_post_processes()
                    == old(self).pending_post_processes().push(
                    PostProcessParams { file_index, clean_only: false },
                )
                &&& final(self).remaining(file_index as int) > 0 ==> final(self).pending_post_processes()
                    == old(self).pending_post_processes()
            },
    {
        if self.dl_running == 0 {
            return Err(ScheduleError::NotRunning);
        }
        if file_index >= self.dl_remain.len() || self.dl_remain[file_index] == 0 {
            return Err(ScheduleError::NoDownloadLeft);
        }
        self.dl_running = self.dl_running - 1;
        let left = self.dl_remain[file_index] - 1;
        self.dl_remain.set(file_index, left);
        if left == 0 {
            self.pp_tasks.push_back(PostProcessParams { file_index, clean_only: false });
        }
        assert(self.pending_downloads() =~= old(self).pending_downloads());
        assert(left == 0 ==> self.pending_post_processes() =~= old(self).pending_post_processes().push(
            PostProcessParams { file_index, clean_only: false },
        ));
        assert(left > 0 ==> self.pending_post_processes() =~= old(self).pending_post_processes());
        Ok(())
    }

    /// A post-processing task completed.
    pub fn post_process_finished(&mut self) -> (r: Result<(), ScheduleError>)
        requires
            old(self).well_formed(),
        ensures
            final(self).well_formed(),
            old(self).running_post_processes() == 0 <==> r is Err,
            r is Err ==> *final(self) == *old(self),
            r is Ok ==> final(self).running_post_processes() == old(self).running_post_processes() - 1
                && final(self).pending_post_processes() == old(self).pending_post_processes()
                && final(self).pending_downloads() == old(self).pending_downloads()
                && final(self).running_downloads() == old(self).running_downloads(),
    {
        if self.pp_running == 0 {
            return Err(ScheduleError::NotRunning);
        }
        self.pp_running = self.pp_running - 1;
        Ok(())
    }

    /// Whether all work is done: nothing pending and nothing running.
    pub fn is_done(&self) -> (r: bool)
        requires
            self.well_formed(),
        ensures
            r == (self.pending_downloads().len() == 0 && self.pending_post_processes().len() == 0
                && self.running_downloads() == 0 && self.running_post_processes() == 0),
    {
        self.dl_tasks.len() == 0 && self.pp_tasks.len() == 0 && self.dl_running == 0
            && self.pp_running == 0
    }
}


/// The CRC-32 of `data` continued from the CRC-32 state `state`; from state
/// zero it is the CRC-32 of `data`.
pub uninterp spec fn crc32_continued(state: u32, data: Seq<u8>) -> u32;

/// Relies on crc32fast's `Hasher::new_with_initial`, `update` and
/// `finalize`: the CRC-32 of `chunk` continued from `state`, a function of
/// the two alone.
#[verifier::external_body]
fn crc32_continue(state: u32, chunk: &[u8]) -> (r: u32)
    ensures
        r == crc32_continued(state, chunk@),
{
    let mut h = Hasher::new_with_initial(state);
    h.update(chunk);
    h.finalize()
}

/// The CRC-32 of a payload read in chunks.
pub open spec fn crc32_of_chunks(chunks: Seq<Seq<u8>>) -> u32
    decreases chunks.len(),
{
    if chunks.len() == 0 {
        0
    } else {
        crc32_continued(crc32_of_chunks(chunks.drop_last()), chunks.last())
    }
}

/// A running CRC-32 over the chunks of a payload.
pub struct PayloadCrc {
    state: u32,
    chunks: Ghost<Seq<Seq<u8>>>,
}

impl PayloadCrc {
    /// The chunks fed so far.
    pub closed spec fn fed(&self) -> Seq<Seq<u8>> {
        self.chunks@
    }

    pub closed spec fn well_formed(&self) -> bool {
        self.state == crc32_of_chunks(self.chunks@)
    }

    pub fn new() -> (r: Self)
        ensures
            r.well_formed(),
            r.fed() == Seq::<Seq<u8>>::empty(),
    {
        PayloadCrc { state: 0, chunks: Ghost(Seq::empty()) }
    }

    /// Feed the next chunk.
    pub fn update(&mut self, chunk: &[u8])
        requires
            old(self).well_formed(),
        ensures
            final(self).well_formed(),
            final(self).fed() == old(self).fed().push(chunk@),
    {
        self.state = crc32_continue(self.state, chunk);
        self.chunks = Ghost(self.chunks@.push(chunk@));
        assert(self.chunks@.drop_last() =~= old(self).chunks@);
    }

    /// The CRC-32 of all chunks fed.
    pub fn digest(&self) -> (r: u32)
        requires
            self.well_formed(),
        ensures
            r == crc32_of_chunks(self.fed()),
    {
        self.state
    }
}

/// Why post-processing refused a file.
#[derive(Clone, Copy, Debug, PartialEq, Eq, Structural)]
pub enum PostProcessError {
    /// The payload's CRC-32 is not the expected one.
    CrcMismatch { expected: u32, actual: u32 },
    /// The pieces do not add up to the expected size.
    SizeMismatch { expected: u64, actual: u64 },
    /// A split archive must hold exactly one entry.
    EntryCount(u64),
}

/// `<name>.<ext>`.
pub open spec fn with_ext(name: Seq<char>, ext: Seq<char>) -> Seq<char> {
    name + seq!['.'] + ext
}

fn add_ext(name: &str, ext: &str) -> (r: String)
    ensures
        r@ == with_ext(name@, ext@),
{
    proof {
        reveal_strlit(".");
    }
    assert("."@ =~= seq!['.']);
    String::from_str(name).concat(".").concat(ext)
}

/// Name of the in-flight download of piece `index`.
pub fn partial_name(file: &FileInfo, index: u32) -> (r: String)
    requires
        index < file.count_spec(),
    ensures
        r@ == with_ext(file.download_name_spec(index as nat), DOWNLOAD_EXT@),
{
    let name = file.download_name(index);
    add_ext(name.as_str(), DOWNLOAD_EXT)
}

/// Name of the finished but unverified download of a file that is not split.
pub fn verify_name(file: &FileInfo) -> (r: String)
    ensures
        r@ == with_ext(file.download_name_spec(0), VERIFY_EXT@),
{
    let name = file.download_name(0);
    add_ext(name.as_str(), VERIFY_EXT)
}

/// Name of the staging copy of the extracted output.
pub fn extract_name(file: &FileInfo) -> (r: String)
    ensures
        r@ == with_ext(file.name@, EXTRACT_EXT@),
{
    add_ext(file.name.as_str(), EXTRACT_EXT)
}

/// The name a finished download of piece `index` is renamed to: its final
/// name for a split file, the name awaiting verification otherwise.
pub fn finished_download_name(file: &FileInfo, index: u32) -> (r: String)
    requires
        index < file.count_spec(),
    ensures
        file.split_count() > 0 ==> r@ == file.download_name_spec(index as nat),
        file.split_count() == 0 ==> r@ == with_ext(file.download_name_spec(index as nat), VERIFY_EXT@),
{
    let name = file.download_name(index);
    if file.is_split() {
        name
    } else {
        add_ext(name.as_str(), VERIFY_EXT)
    }
}

/// The verdict on a downloaded file that is not split, given the CRC-32 of
/// its payload: on a match, the verified download is renamed from the first
/// name to the second; on a mismatch it stays where it is.
pub fn verify_outcome(file: &FileInfo, digest: u32) -> (r: Result<(String, String), PostProcessError>)
    ensures
        digest != file.crc32 <==> r is Err,
        r matches Err(e) ==> e == (PostProcessError::CrcMismatch { expected: file.crc32, actual: digest }),
        r matches Ok((from, to)) ==> from@ == with_ext(file.download_name_spec(0), VERIFY_EXT@) && to@
            == file.name@,
{
    if digest != file.crc32 {
        return Err(PostProcessError::CrcMismatch { expected: file.crc32, actual: digest });
    }
    Ok((verify_name(file), file.name.clone()))
}

/// Check that the joined pieces of a split file have the expected size.
pub fn check_joined_size(file: &FileInfo, actual: u64) -> (r: Result<(), PostProcessError>)
    ensures
        r is Ok <==> actual == download_size_spec(*file),
        r matches Err(e) ==> e == (PostProcessError::SizeMismatch {
            expected: download_size_spec(*file) as u64,
            actual,
        }),
{
    let expected = file.download_size();
    if actual != expected {
        return Err(PostProcessError::SizeMismatch { expected, actual });
    }
    Ok(())
}

/// Check that the repaired archive of a split file holds exactly one entry.
pub fn check_entry_count(entries: u64) -> (r: Result<(), PostProcessError>)
    ensures
        entries != 1 ==> r == Err::<(), PostProcessError>(PostProcessError::EntryCount(entries)),
        entries == 1 ==> r is Ok,
{
    if entries != 1 {
        return Err(PostProcessError::EntryCount(entries));
    }
    Ok(())
}

/// Check the repaired archive of a split file: exactly one entry, whose
/// recorded CRC-32 is the expected one.
pub fn check_archive(file: &FileInfo, entries: u64, entry_crc: u32) -> (r: Result<(), PostProcessError>)
    ensures
        entries != 1 ==> r == Err::<(), PostProcessError>(PostProcessError::EntryCount(entries)),
        entries == 1 && entry_crc != file.crc32 ==> r == Err::<(), PostProcessError>(
            PostProcessError::CrcMismatch { expected: file.crc32, actual: entry_crc },
        ),
        entries == 1 && entry_crc == file.crc32 ==> r is Ok,
{
    if entries != 1 {
        return Err(PostProcessError::EntryCount(entries));
    }
    if entry_crc != file.crc32 {
        return Err(PostProcessError::CrcMismatch { expected: file.crc32, actual: entry_crc });
    }
    Ok(())
}

/// The pieces of a split file to delete after post-processing: all of them,
/// or none when the raw files are kept.
pub fn cleanup_names(file: &FileInfo, keep_raw: bool) -> (r: Vec<String>)
    ensures
        keep_raw ==> r@.len() == 0,
        !keep_raw ==> r@.len() == file.count_spec() && forall|k: int|
            0 <= k < r@.len() ==> #[trigger] r@[k]@ == file.download_name_spec(k as nat),
{
    let mut r: Vec<String> = Vec::new();
    if keep_raw {
        return r;
    }
    let count = file.download_count();
    let mut k: u32 = 0;
    while k < count
        invariant
            count == file.count_spec(),
            k <= count,
            r@.len() == k,
            forall|j: int| 0 <= j < k ==> #[trigger] r@[j]@ == file.download_name_spec(j as nat),
        decreases count - k,
    {
        r.push(file.download_name(k));
        k = k + 1;
    }
    r
}

/// The steps of post-processing one file.
#[derive(Clone, Copy, Debug, PartialEq, Eq, Structural)]
pub struct PostProcessSteps {
    /// Check the CRC-32 of a download that is not split and rename it.
    pub verify: bool,
    /// Join, repair and extract the pieces of a split file.
    pub extract: bool,
    /// Delete the pieces of a split file.
    pub clean: bool,
}

/// What post-processing does for `file`: a file that is not split is
/// verified; a split one is extracted, unless its output already exists,
/// and then its pieces are cleaned up.
pub fn post_process_steps(file: &FileInfo, clean_only: bool) -> (r: PostProcessSteps)
    ensures
        file.split_count() == 0 ==> r == (PostProcessSteps { verify: true, extract: false, clean: false }),
        file.split_count() > 0 ==> r == (PostProcessSteps { verify: false, extract: !clean_only, clean: true }),
{
    if file.is_split() {
        PostProcessSteps { verify: false, extract: !clean_only, clean: true }
    } else {
        PostProcessSteps { verify: true, extract: false, clean: false }
    }
}

/// What to do after a download attempt.
#[derive(Clone, Copy, Debug, PartialEq, Eq, Structural)]
pub enum AttemptAction {
    /// The download is complete.
    Done,
    /// Wait, then try again.
    Retry,
    /// Give up and report the error.
    Fail,
}

/// The decision after attempt number `attempt` (from 0) of at most
/// `retries + 1`, which succeeded or not. A download that the server reports
/// as already complete counts as a success.
pub fn after_attempt(attempt: u8, retries: u8, succeeded: bool) -> (r: AttemptAction)
    requires
        attempt <= retries,
    ensures
        succeeded ==> r == AttemptAction::Done,
        !succeeded && attempt == retries ==> r == AttemptAction::Fail,
        !succeeded && attempt < retries ==> r == AttemptAction::Retry,
{
    if succeeded {
        AttemptAction::Done
    } else if attempt == retries {
        AttemptAction::Fail
    } else {
        AttemptAction::Retry
    }
}

/// The CRC-32 as a signed 32-bit number.
pub open spec fn signed_crc(crc: u32) -> int {
    if crc >= 0x8000_0000 {
        crc - 0x1_0000_0000
    } else {
        crc as int
    }
}

/// A manifest directory with `\` as separator.
pub open spec fn backslashed(s: Seq<char>) -> Seq<char>
    decreases s.len(),
{
    if s.len() == 0 {
        s
    } else {
        backslashed(s.drop_last()) + if s.last() == '/' {
            seq!['\\']
        } else {
            seq![s.last()]
        }
    }
}

pub open spec fn brand_text(b: BrandInfo) -> Seq<char> {
    match b {
        BrandInfo::Known(k) => crate::cli::brand_code(k),
        BrandInfo::Unknown(s) => s@,
    }
}

pub open spec fn bar() -> Seq<char> {
    seq!['|']
}

/// The header line of the version file.
pub open spec fn version_header(car: CarInfo, fw: FirmwareInfo) -> Seq<char> {
    seq!['+'] + bar() + fw.update_version@ + bar() + car.version@ + bar() + brand_text(car.brand) + bar()
        + car.id@ + bar() + car.mcode@ + bar() + seq!['1', '\n']
}

/// The line of the version file for one firmware file.
pub open spec fn version_line(car: CarInfo, f: FileInfo) -> Seq<char> {
    let dir = match f.directory {
        Some(d) => seq!['\\'] + backslashed(d@),
        None => Seq::empty(),
    };
    car.id@ + dir + bar() + f.name@ + bar() + f.version@ + bar() + crate::text::signed_decimal(
        signed_crc(f.crc32),
    ) + bar() + crate::text::decimal(f.size as nat) + bar() + seq!['1', '\n']
}

/// The lines for files `0..n`.
pub open spec fn version_lines(car: CarInfo, files: Seq<FileInfo>, n: nat) -> Seq<char>
    decreases n,
{
    if n == 0 {
        Seq::empty()
    } else {
        version_lines(car, files, (n - 1) as nat) + version_line(car, files[n - 1])
    }
}

fn backslash_path(s: &str) -> (r: String)
    ensures
        r@ == backslashed(s@),
{
    proof {
        reveal_strlit("\\");
    }
    let n = s.unicode_len();
    let mut r = String::new();
    let mut i: usize = 0;
    assert("\\"@ =~= seq!['\\']);
    while i < n
        invariant
            n == s@.len(),
            i <= n,
            "\\"@ == seq!['\\'],
            r@ == backslashed(s@.subrange(0, i as int)),
        decreases n - i,
    {
        let ghost prefix = s@.subrange(0, i + 1);
        assert(prefix.drop_last() =~= s@.subrange(0, i as int));
        if s.get_char(i) == '/' {
            r.append("\\");
        } else {
            let c = s.substring_char(i, i + 1);
            assert(c@ =~= seq![s@[i as int]]);
            r.append(c);
        }
        i += 1;
    }
    assert(s@.subrange(0, n as int) =~= s@);
    r
}

/// The contents of the version file `<car id>.ver`: a header line, then one
/// line for each firmware file.
pub fn version_file(car: &CarInfo, firmware: &FirmwareInfo) -> (r: String)
    ensures
        r@ == version_header(*car, *firmware) + version_lines(*car, firmware.files@, firmware.files@.len()),
{
    proof {
        reveal_strlit("+|");
        reveal_strlit("|");
        reveal_strlit("|1\n");
        reveal_strlit("\\");
    }
    assert("+|"@ =~= seq!['+'] + bar());
    assert("|"@ =~= bar());
    assert("|1\n"@ =~= bar() + seq!['1', '\n']);
    assert("\\"@ =~= seq!['\\']);
    let mut r = String::from_str("+|").concat(firmware.update_version.as_str()).concat("|").concat(
        car.version.as_str(),
    ).concat("|").concat(car.brand()).concat("|").concat(car.id.as_str()).concat("|").concat(
        car.mcode.as_str(),
    ).concat("|1\n");
    assert(r@ =~= version_header(*car, *firmware));
    let mut i: usize = 0;
    while i < firmware.files.len()
        invariant
            i <= firmware.files@.len(),
            "|"@ == bar(),
            "|1\n"@ == bar() + seq!['1', '\n'],
            "\\"@ == seq!['\\'],
            r@ == version_header(*car, *firmware) + version_lines(*car, firmware.files@, i as nat),
        decreases firmware.files@.len() - i,
    {
        let f = &firmware.files[i];
        let dir = match &f.directory {
            Some(d) => String::from_str("\\").concat(backslash_path(d.as_str()).as_str()),
            None => String::new(),
        };
        let crc: i64 = if f.crc32 >= 0x8000_0000 {
            f.crc32 as i64 - 0x1_0000_0000
        } else {
            f.crc32 as i64
        };
        let line = String::from_str(car.id.as_str()).concat(dir.as_str()).concat("|").concat(
            f.name.as_str(),
        ).concat("|").concat(f.version.as_str()).concat("|").concat(
            signed_decimal_string(crc).as_str(),
        ).concat("|").concat(decimal_string(f.size).as_str()).concat("|1\n");
        assert(line@ =~= version_line(*car, *f));
        r = r.concat(line.as_str());
        i += 1;
        assert(r@ =~= version_header(*car, *firmware) + version_lines(*car, firmware.files@, i as nat));
    }
    r
}

} // verus!
