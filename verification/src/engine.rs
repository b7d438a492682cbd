//! The download engine: which byte ranges are still missing, which temp files
//! are corrupted and how long the download has left; and the engine's state, its
//! workers and its byte-range tree, with how it starts a download, splits ranges
//! for new connections and answers what its workers report.

use vstd::prelude::*;
use crate::byte_range::ByteRange;
use crate::sort::{sort_by_start, stable_sort_by_start};
use crate::utils::file::TempFileMetadata;
use crate::text::{chars_to_string, decimal, push_str_chars, u64_to_decimal};
use crate::byte_range::{range_lt, range_text};
use crate::byte_range_tree::{
    ByteRangeNode, ByteRangeStatus, ByteRangeTree, TreeModel, first_leaf_of, first_leaf_of_worker,
    from_missing_bytes_defined, has_leaf_with_status, leaves_with_status, spec_from_missing_bytes,
    spec_split, spec_split_node, split_defined, with_status, search_leaf, with_range, drop_leaf_with_range,
    first_index, is_first_index, node_links_in, tiles, tiles_span, split_plan, family,
};
use crate::download::{DownloadInfo, DownloadItem, EngineState};
use crate::message::EngineToWorkerMsg;
use crate::setting::DownloadSetting;
use crate::utils::now_millis;
use crate::worker::Status;

verus! {

/// The ranges that step `idx` of the scan of `files` (sorted by start byte) finds
/// missing: for the first file, its own range where it does not start at byte 0;
/// for a later file, the gap between it and the file before it, and, for the last
/// file where it does not end at the file's last byte, the bytes from one past its
/// start to `file_size`.
pub open spec fn missing_at(files: Seq<TempFileMetadata>, file_size: u64, idx: int) -> Seq<ByteRange> {
    let curr = files[idx];
    if idx == 0 {
        if curr.start_byte != 0 {
            seq![ByteRange { start: curr.start_byte, end: curr.end_byte }]
        } else {
            Seq::empty()
        }
    } else {
        let prev = files[idx - 1];
        let gap = if prev.end_byte + 1 != curr.start_byte {
            seq![ByteRange { start: (prev.end_byte + 1) as u64, end: (curr.start_byte - 1) as u64 }]
        } else {
            Seq::empty()
        };
        let tail = if idx == files.len() - 1 && curr.end_byte != file_size - 1 {
            seq![ByteRange { start: (curr.start_byte + 1) as u64, end: file_size }]
        } else {
            Seq::empty()
        };
        gap + tail
    }
}

/// The ranges found missing by the first `k` steps of the scan.
pub open spec fn missing_upto(files: Seq<TempFileMetadata>, file_size: u64, k: int) -> Seq<ByteRange>
    decreases k,
{
    if k <= 0 {
        Seq::empty()
    } else {
        missing_upto(files, file_size, k - 1) + missing_at(files, file_size, k - 1)
    }
}

/// The byte ranges of a download still missing given its temp files sorted by
/// start byte: the whole `[0, file_size]` where there are none, else the ranges
/// the scan finds, in the stable order of their start bytes.
pub open spec fn spec_missing_byte_ranges(files: Seq<TempFileMetadata>, file_size: u64) -> Seq<ByteRange> {
    if files.len() == 0 {
        seq![ByteRange { start: 0, end: file_size }]
    } else {
        sort_by_start(missing_upto(files, file_size, files.len() as int))
    }
}

/// The scan's arithmetic stays within `u64`: each file but the first whose start
/// does not follow the previous end starts after byte 0, and the previous end is
/// below `u64::MAX`; a last file, where the scan reaches past the first one, of a
/// file size above 0, and where it does not end at the last byte, a start below
/// `u64::MAX`.
pub open spec fn missing_byte_ranges_defined(files: Seq<TempFileMetadata>, file_size: u64) -> bool {
    &&& forall|i: int|
        #![trigger files[i]]
        1 <= i < files.len() ==> {
            &&& files[i - 1].end_byte < u64::MAX
            &&& files[i - 1].end_byte + 1 != files[i].start_byte ==> files[i].start_byte > 0
        }
    &&& files.len() > 1 ==> file_size > 0
    &&& (files.len() > 1 && files[files.len() - 1].end_byte != file_size - 1) ==> files[files.len()
        - 1].start_byte < u64::MAX
}

/// The ranges the first `k` steps of the scan find hold those of every earlier step.
proof fn lemma_missing_upto_holds(files: Seq<TempFileMetadata>, file_size: u64, i: int, k: int, r: ByteRange)
    requires
        0 <= i < k,
        missing_at(files, file_size, i).contains(r),
    ensures
        missing_upto(files, file_size, k).contains(r),
    decreases k,
{
    let prev = missing_upto(files, file_size, k - 1);
    let here = missing_at(files, file_size, k - 1);
    if i == k - 1 {
        let j = choose|j: int| 0 <= j < here.len() && here[j] == r;
        assert((prev + here)[prev.len() + j] == r);
    } else {
        lemma_missing_upto_holds(files, file_size, i, k - 1, r);
        let j = choose|j: int| 0 <= j < prev.len() && prev[j] == r;
        assert((prev + here)[j] == r);
    }
}

/// Every gap between two consecutive temp files is reported missing: where file
/// `i` (of the files sorted by start byte) does not start right after file
/// `i - 1` ends, the bytes between them, from one past the end of file `i - 1` to
/// one before the start of file `i`, are one of the missing ranges.
pub proof fn lemma_missing_reports_gaps(files: Seq<TempFileMetadata>, file_size: u64, i: int)
    requires
        missing_byte_ranges_defined(files, file_size),
        1 <= i < files.len(),
        files[i - 1].end_byte + 1 != files[i].start_byte,
    ensures
        spec_missing_byte_ranges(files, file_size).contains(
            ByteRange { start: (files[i - 1].end_byte + 1) as u64, end: (files[i].start_byte - 1) as u64 },
        ),
{
    broadcast use vstd::seq_lib::group_to_multiset_ensures;

    let gap = ByteRange { start: (files[i - 1].end_byte + 1) as u64, end: (files[i].start_byte - 1) as u64 };
    let here = missing_at(files, file_size, i);
    assert(here[0] == gap);
    assert(here.contains(gap));
    let all = missing_upto(files, file_size, files.len() as int);
    lemma_missing_upto_holds(files, file_size, i, files.len() as int, gap);
    crate::sort::lemma_sort_by_start_sorted(all);
    assert(all.to_multiset().count(gap) > 0);
    assert(sort_by_start(all).to_multiset().count(gap) > 0);
}

/// A range the first `k` steps of the scan find comes from one of those steps.
proof fn lemma_missing_upto_from(files: Seq<TempFileMetadata>, file_size: u64, k: int, r: ByteRange) -> (i: int)
    requires
        missing_upto(files, file_size, k).contains(r),
    ensures
        0 <= i < k,
        missing_at(files, file_size, i).contains(r),
    decreases k,
{
    if k <= 0 {
        assert(missing_upto(files, file_size, k).len() == 0);
        0
    } else {
        let prev = missing_upto(files, file_size, k - 1);
        let here = missing_at(files, file_size, k - 1);
        let j = choose|j: int| 0 <= j < (prev + here).len() && (prev + here)[j] == r;
        if j < prev.len() {
            assert(prev[j] == r);
            lemma_missing_upto_from(files, file_size, k - 1, r)
        } else {
            assert(here[j - prev.len()] == r);
            k - 1
        }
    }
}

/// Every range reported missing where there are temp files (sorted by start
/// byte) is one of three: the range of the first file, where it does not start at
/// byte 0; the bytes between two consecutive files, from one past the end of the
/// earlier to one before the start of the later, where they do not meet; or, with
/// more than one file, the bytes from one past the start of the last file to
/// `file_size`, where the last file does not end at the file's last byte.
pub proof fn lemma_missing_ranges_are_gaps(files: Seq<TempFileMetadata>, file_size: u64, r: ByteRange)
    requires
        missing_byte_ranges_defined(files, file_size),
        files.len() > 0,
        spec_missing_byte_ranges(files, file_size).contains(r),
    ensures
        ({
            let last = files[files.len() - 1];
            ||| (files[0].start_byte != 0 && r == ByteRange { start: files[0].start_byte, end: files[0].end_byte })
            ||| exists|i: int|
                1 <= i < files.len() && #[trigger] files[i].start_byte != files[i - 1].end_byte + 1 && r.start
                    == files[i - 1].end_byte + 1 && r.end == files[i].start_byte - 1
            ||| (files.len() > 1 && last.end_byte != file_size - 1 && r.start == last.start_byte + 1 && r.end
                == file_size)
        }),
{
    broadcast use vstd::seq_lib::group_to_multiset_ensures;

    let all = missing_upto(files, file_size, files.len() as int);
    crate::sort::lemma_sort_by_start_sorted(all);
    assert(sort_by_start(all).to_multiset().count(r) > 0);
    assert(all.to_multiset().count(r) > 0);
    let i = lemma_missing_upto_from(files, file_size, files.len() as int, r);
    let here = missing_at(files, file_size, i);
    let j = choose|j: int| 0 <= j < here.len() && here[j] == r;
    if i > 0 {
        let prev = files[i - 1];
        let curr = files[i];
        assert(prev.end_byte < u64::MAX);
        if prev.end_byte + 1 != curr.start_byte && j == 0 {
            assert(curr.start_byte > 0);
            assert(r.start == prev.end_byte + 1 && r.end == curr.start_byte - 1);
            assert(files[i].start_byte != files[i - 1].end_byte + 1);
        } else {
            assert(i == files.len() - 1);
            assert(files.len() > 1);
            assert(curr.start_byte < u64::MAX);
            assert(r.start == curr.start_byte + 1 && r.end == file_size);
        }
    }
}

/// The byte ranges still missing; see `spec_missing_byte_ranges`.
pub fn find_missing_byte_ranges(temp_files: &Vec<TempFileMetadata>, file_size: u64) -> (missing: Vec<ByteRange>)
    requires
        missing_byte_ranges_defined(temp_files@, file_size),
    ensures
        missing@ == spec_missing_byte_ranges(temp_files@, file_size),
{
    if temp_files.len() == 0 {
        let mut v: Vec<ByteRange> = Vec::new();
        v.push(ByteRange::new(0, file_size));
        proof {
            assert(v@ =~= spec_missing_byte_ranges(temp_files@, file_size));
        }
        return v;
    }
    let ghost files = temp_files@;
    let n = temp_files.len();
    let mut missing_ranges: Vec<ByteRange> = Vec::new();
    let mut idx: usize = 0;
    while idx < n
        invariant
            n == files.len(),
            files == temp_files@,
            missing_byte_ranges_defined(files, file_size),
            idx <= n,
            missing_ranges@ == missing_upto(files, file_size, idx as int),
        decreases n - idx,
    {
        let ghost before = missing_ranges@;
        let curr_start = temp_files[idx].start_byte;
        let curr_end = temp_files[idx].end_byte;
        if idx == 0 {
            if curr_start != 0 {
                missing_ranges.push(ByteRange::new(curr_start, curr_end));
            }
            proof {
                assert(missing_ranges@ =~= before + missing_at(files, file_size, 0));
            }
        } else {
            let prev_end = temp_files[idx - 1].end_byte;
            assert(files[idx as int - 1].end_byte < u64::MAX);
            if prev_end + 1 != curr_start {
                missing_ranges.push(ByteRange::new(prev_end + 1, curr_start - 1));
            }
            if idx == n - 1 && curr_end != file_size - 1 {
                missing_ranges.push(ByteRange::new(curr_start + 1, file_size));
            }
            proof {
                assert(missing_ranges@ =~= before + missing_at(files, file_size, idx as int));
            }
        }
        idx = idx + 1;
    }
    stable_sort_by_start(missing_ranges)
}

/// The pairs that the overlap scan of file `idx` reports from file `j` on: it stops
/// at the first file that starts after file `idx` ends, and reports `idx` and a
/// file whose range overlaps that of `idx` (either starting inside the other).
pub open spec fn overlaps_from(files: Seq<TempFileMetadata>, idx: int, j: int) -> Seq<usize>
    decreases files.len() - j,
{
    if j >= files.len() || j < 0 {
        Seq::empty()
    } else {
        let curr = files[idx];
        let other = files[j];
        if other.start_byte > curr.end_byte {
            Seq::empty()
        } else {
            let overlap = (curr.start_byte <= other.start_byte && curr.end_byte >= other.start_byte)
                || (other.start_byte <= curr.start_byte && other.end_byte >= curr.start_byte);
            (if overlap {
                seq![idx as usize, j as usize]
            } else {
                Seq::empty()
            }) + overlaps_from(files, idx, j + 1)
        }
    }
}

/// The mark of a file whose size is not the length of its range.
pub open spec fn bad_len_mark(files: Seq<TempFileMetadata>, idx: int) -> Seq<usize> {
    let curr = files[idx];
    if curr.end_byte - curr.start_byte + 1 != curr.size {
        seq![idx as usize]
    } else {
        Seq::empty()
    }
}

/// The mark of a file that reaches past `file_size`.
pub open spec fn too_far_mark(files: Seq<TempFileMetadata>, file_size: u64, idx: int) -> Seq<usize> {
    let curr = files[idx];
    if curr.start_byte > file_size || curr.end_byte > file_size {
        seq![idx as usize]
    } else {
        Seq::empty()
    }
}

/// Where the next file starts two bytes after file `idx` ends: that file and the
/// next one (for the first file) or the one before.
pub open spec fn two_apart_marks(files: Seq<TempFileMetadata>, idx: int) -> Seq<usize> {
    if files[idx + 1].start_byte - files[idx].end_byte == 2 {
        seq![idx as usize, (if idx == 0 { idx + 1 } else { idx - 1 }) as usize]
    } else {
        Seq::empty()
    }
}

/// Where missing ranges are checked and the next file does not start right after
/// file `idx`: both files.
pub open spec fn gap_marks(files: Seq<TempFileMetadata>, check_missing_range: bool, idx: int) -> Seq<usize> {
    if check_missing_range && files[idx + 1].start_byte - 1 != files[idx].end_byte {
        seq![idx as usize, (idx + 1) as usize]
    } else {
        Seq::empty()
    }
}

/// The files that step `idx` of the integrity check marks for deletion, in the
/// order it marks them: a file whose size is not the length of its range; a file
/// that reaches past `file_size`; and, but for the last file, the marks of
/// `two_apart_marks` and `gap_marks` and the overlaps that the scan from the next
/// file finds.
pub open spec fn corrupted_at(files: Seq<TempFileMetadata>, file_size: u64, check_missing_range: bool, idx: int) -> Seq<usize> {
    if idx == files.len() - 1 {
        bad_len_mark(files, idx) + too_far_mark(files, file_size, idx)
    } else {
        bad_len_mark(files, idx) + too_far_mark(files, file_size, idx) + two_apart_marks(files, idx)
            + gap_marks(files, check_missing_range, idx) + overlaps_from(files, idx, idx + 1)
    }
}

/// The marks of the first `k` steps of the integrity check.
pub open spec fn corrupted_upto(files: Seq<TempFileMetadata>, file_size: u64, check_missing_range: bool, k: int) -> Seq<usize>
    decreases k,
{
    if k <= 0 {
        Seq::empty()
    } else {
        corrupted_upto(files, file_size, check_missing_range, k - 1) + corrupted_at(
            files,
            file_size,
            check_missing_range,
            k - 1,
        )
    }
}

/// Appends the pairs that the overlap scan of file `idx` reports.
fn push_overlaps(temp_files: &Vec<TempFileMetadata>, idx: usize, marked: &mut Vec<usize>)
    requires
        idx < temp_files@.len(),
    ensures
        final(marked)@ == old(marked)@ + overlaps_from(temp_files@, idx as int, idx + 1),
{
    let ghost files = temp_files@;
    let ghost start = marked@;
    let n = temp_files.len();
    let curr_start = temp_files[idx].start_byte;
    let curr_end = temp_files[idx].end_byte;
    let mut other = idx + 1;
    while other < n
        invariant
            n == files.len(),
            files == temp_files@,
            idx + 1 <= other <= n,
            start == old(marked)@,
            curr_start == files[idx as int].start_byte,
            curr_end == files[idx as int].end_byte,
            start + overlaps_from(files, idx as int, idx + 1) == marked@ + overlaps_from(
                files,
                idx as int,
                other as int,
            ),
        decreases n - other,
    {
        let other_start = temp_files[other].start_byte;
        let other_end = temp_files[other].end_byte;
        if other_start > curr_end {
            proof {
                assert(overlaps_from(files, idx as int, other as int) =~= Seq::<usize>::empty());
                assert(marked@ + Seq::<usize>::empty() =~= marked@);
            }
            return;
        }
        let ghost m0 = marked@;
        if (curr_start <= other_start && curr_end >= other_start) || (other_start <= curr_start && other_end
            >= curr_start) {
            marked.push(idx);
            marked.push(other);
        }
        proof {
            assert(m0 + overlaps_from(files, idx as int, other as int) =~= marked@ + overlaps_from(
                files,
                idx as int,
                other + 1,
            ));
        }
        other = other + 1;
    }
    proof {
        assert(overlaps_from(files, idx as int, other as int) =~= Seq::<usize>::empty());
        assert(marked@ + Seq::<usize>::empty() =~= marked@);
    }
}

/// Appends the marks of file `idx` that do not look at other files.
fn push_own_marks(temp_files: &Vec<TempFileMetadata>, file_size: u64, idx: usize, marked: &mut Vec<usize>)
    requires
        idx < temp_files@.len(),
    ensures
        final(marked)@ == old(marked)@ + bad_len_mark(temp_files@, idx as int) + too_far_mark(
            temp_files@,
            file_size,
            idx as int,
        ),
{
    let curr_start = temp_files[idx].start_byte;
    let curr_end = temp_files[idx].end_byte;
    let size = temp_files[idx].size;
    let bad_len = if curr_end >= curr_start {
        let span = curr_end - curr_start;
        span == u64::MAX || span + 1 != size
    } else {
        !(size == 0 && curr_start - curr_end == 1)
    };
    if bad_len {
        marked.push(idx);
    }
    if curr_start > file_size || curr_end > file_size {
        marked.push(idx);
    }
    assert(final(marked)@ =~= old(marked)@ + bad_len_mark(temp_files@, idx as int) + too_far_mark(
        temp_files@,
        file_size,
        idx as int,
    ));
}

/// Appends the marks of file `idx` that compare it with the next file.
fn push_next_marks(temp_files: &Vec<TempFileMetadata>, check_missing_range: bool, idx: usize, marked: &mut Vec<usize>)
    requires
        idx + 1 < temp_files@.len(),
    ensures
        final(marked)@ == old(marked)@ + two_apart_marks(temp_files@, idx as int) + gap_marks(
            temp_files@,
            check_missing_range,
            idx as int,
        ),
{
    let curr_end = temp_files[idx].end_byte;
    let n = temp_files.len();
    let next_start = temp_files[idx + 1].start_byte;
    if next_start >= curr_end && next_start - curr_end == 2 {
        marked.push(idx);
        if idx == 0 {
            marked.push(idx + 1);
        } else {
            marked.push(idx - 1);
        }
    }
    if check_missing_range && !(next_start >= 1 && next_start - 1 == curr_end) {
        marked.push(idx);
        marked.push(idx + 1);
    }
    assert(final(marked)@ =~= old(marked)@ + two_apart_marks(temp_files@, idx as int) + gap_marks(
        temp_files@,
        check_missing_range,
        idx as int,
    ));
}

/// Appends the marks of step `idx` of the integrity check.
fn push_corrupted_at(
    temp_files: &Vec<TempFileMetadata>,
    file_size: u64,
    check_missing_range: bool,
    idx: usize,
    marked: &mut Vec<usize>,
)
    requires
        idx < temp_files@.len(),
    ensures
        final(marked)@ == old(marked)@ + corrupted_at(temp_files@, file_size, check_missing_range, idx as int),
{
    let n = temp_files.len();
    push_own_marks(temp_files, file_size, idx, marked);
    if idx == n - 1 {
        return;
    }
    push_next_marks(temp_files, check_missing_range, idx, marked);
    push_overlaps(temp_files, idx, marked);
}

/// The positions in `files` (sorted by start byte) of the temp files that the
/// integrity check marks as corrupted, in the order it marks them, a file marked
/// once for each reason; see `corrupted_at`.
pub fn find_corrupted_temp_files(temp_files: &Vec<TempFileMetadata>, file_size: u64, check_missing_range: bool) -> (marked: Vec<usize>)
    ensures
        marked@ == corrupted_upto(temp_files@, file_size, check_missing_range, temp_files@.len() as int),
{
    let n = temp_files.len();
    let mut marked: Vec<usize> = Vec::new();
    let mut idx: usize = 0;
    while idx < n
        invariant
            n == temp_files@.len(),
            idx <= n,
            marked@ == corrupted_upto(temp_files@, file_size, check_missing_range, idx as int),
        decreases n - idx,
    {
        push_corrupted_at(temp_files, file_size, check_missing_range, idx, &mut marked);
        idx = idx + 1;
    }
    marked
}

/// `value` and its unit, plural unless the value is 1: `<value> <unit>[s]`.
pub open spec fn unit_text(value: u64, unit: Seq<char>) -> Seq<char> {
    decimal(value as nat) + " "@ + unit + (if value == 1 { Seq::<char>::empty() } else { "s"@ })
}

/// The text of the time left, `remaining_sec` seconds: from a day on, the hours
/// of the day; from an hour on, hours and minutes; from a minute on, minutes and
/// seconds; nothing for 0; else the seconds, with the unit `Seconds`. Whole years
/// are left out of the days.
pub open spec fn remaining_text(remaining_sec: u64) -> Seq<char> {
    let in_year = remaining_sec % 31536000;
    let days = in_year / 86400;
    let hours = (in_year % 86400) / 3600;
    let minutes = ((in_year % 86400) % 3600) / 60;
    let seconds = ((in_year % 86400) % 3600) % 60;
    if days >= 1 {
        unit_text(hours as u64, "Hour"@)
    } else if hours >= 1 {
        unit_text(hours as u64, "Hour"@) + ", "@ + unit_text(minutes as u64, "Minute"@)
    } else if minutes >= 1 {
        unit_text(minutes as u64, "Minute"@) + ", "@ + unit_text(seconds as u64, "Second"@)
    } else if remaining_sec == 0 {
        Seq::empty()
    } else {
        unit_text(remaining_sec, "Seconds"@)
    }
}

/// The sum of `s`.
pub open spec fn sum_u64(s: Seq<u64>) -> int
    decreases s.len(),
{
    if s.len() == 0 {
        0
    } else {
        sum_u64(s.drop_last()) + s.last()
    }
}

/// The new estimate of the time left: none where there are no workers, the last
/// estimate is less than a second old, nothing is arriving, or the workers have
/// received more than the file holds; else the seconds left at the current speed
/// and their text (see `remaining_text`).
pub open spec fn spec_estimated_remaining(
    worker_bytes: Seq<u64>,
    file_size: u64,
    bytes_speed: u64,
    last_estimation_calc_time: u128,
    now: u128,
) -> Option<(Seq<char>, u64)> {
    let total = sum_u64(worker_bytes);
    if worker_bytes.len() == 0 || last_estimation_calc_time + 1000 > now || bytes_speed == 0 {
        None
    } else if total > file_size {
        None
    } else {
        let remaining_sec = ((file_size - total) / (bytes_speed as int)) as u64;
        Some((remaining_text(remaining_sec), remaining_sec))
    }
}

/// Appends `<value> <unit>[s]` to `v`.
fn push_unit(v: &mut Vec<char>, value: u64, unit: &str)
    ensures
        final(v)@ == old(v)@ + unit_text(value, unit@),
{
    let mut d = u64_to_decimal(value);
    v.append(&mut d);
    push_str_chars(v, " ");
    push_str_chars(v, unit);
    if value != 1 {
        push_str_chars(v, "s");
    }
    proof {
        assert(final(v)@ =~= old(v)@ + unit_text(value, unit@));
    }
}

/// How the time left reads, from the seconds alone: below a minute, the seconds
/// (nothing for none); from a minute to an hour, the whole minutes and then the
/// seconds left over; from an hour to a day, the whole hours and then the whole
/// minutes left after them; past a day, the hours of the day only.
pub proof fn lemma_remaining_text_law(s: u64)
    ensures
        s == 0 ==> remaining_text(s) == Seq::<char>::empty(),
        1 <= s < 60 ==> remaining_text(s) == unit_text(s, "Seconds"@),
        60 <= s < 3600 ==> remaining_text(s) == unit_text((s / 60) as u64, "Minute"@) + ", "@ + unit_text(
            (s % 60) as u64,
            "Second"@,
        ),
        3600 <= s < 86400 ==> remaining_text(s) == unit_text((s / 3600) as u64, "Hour"@) + ", "@ + unit_text(
            ((s % 3600) / 60) as u64,
            "Minute"@,
        ),
        86400 <= s % 31536000 ==> remaining_text(s) == unit_text(((s % 86400) / 3600) as u64, "Hour"@),
{
    let in_year = s % 31536000;
    if s < 86400 {
        assert(in_year == s);
        assert(in_year % 86400 == s);
    }
    if s < 3600 {
        assert(s % 3600 == s);
    }
    assert((s % 31536000) % 86400 == s % 86400) by (nonlinear_arith)
        requires
            s >= 0,
    {
        assert(31536000int == 365 * 86400);
        let q = s / 31536000;
        assert(s == 31536000 * q + s % 31536000);
    }
}

/// The text of the time left; see `remaining_text`.
pub fn format_remaining(remaining_sec: u64) -> (s: String)
    ensures
        s@ == remaining_text(remaining_sec),
{
    let in_year = remaining_sec % 31536000;
    let days = in_year / 86400;
    let hours = (in_year % 86400) / 3600;
    let minutes = ((in_year % 86400) % 3600) / 60;
    let seconds = ((in_year % 86400) % 3600) % 60;
    let mut v: Vec<char> = Vec::new();
    if days >= 1 {
        push_unit(&mut v, hours, "Hour");
    } else if hours >= 1 {
        push_unit(&mut v, hours, "Hour");
        push_str_chars(&mut v, ", ");
        push_unit(&mut v, minutes, "Minute");
    } else if minutes >= 1 {
        push_unit(&mut v, minutes, "Minute");
        push_str_chars(&mut v, ", ");
        push_unit(&mut v, seconds, "Second");
    } else if remaining_sec == 0 {
    } else {
        push_unit(&mut v, remaining_sec, "Seconds");
    }
    proof {
        assert(v@ =~= remaining_text(remaining_sec));
    }
    chars_to_string(v.as_slice())
}

/// Estimates the time left; see `spec_estimated_remaining`. `worker_bytes` holds
/// the bytes each worker has received.
pub fn calculate_estimated_remaining(
    worker_bytes: &Vec<u64>,
    file_size: u64,
    bytes_speed: u64,
    last_estimation_calc_time: u128,
    now: u128,
) -> (r: Option<(String, u64)>)
    requires
        sum_u64(worker_bytes@) <= u64::MAX,
        last_estimation_calc_time + 1000 <= u128::MAX,
    ensures
        match spec_estimated_remaining(worker_bytes@, file_size, bytes_speed, last_estimation_calc_time, now) {
            None => r is None,
            Some((text, sec)) => r matches Some((t, s)) && t@ == text && s == sec,
        },
{
    if worker_bytes.len() == 0 || last_estimation_calc_time + 1000 > now || bytes_speed == 0 {
        return None;
    }
    let ghost ws = worker_bytes@;
    let mut total: u64 = 0;
    let mut i: usize = 0;
    proof {
        lemma_sum_prefix(ws, 0);
    }
    while i < worker_bytes.len()
        invariant
            ws == worker_bytes@,
            i <= ws.len(),
            sum_u64(ws) <= u64::MAX,
            total == sum_u64(ws.take(i as int)),
        decreases ws.len() - i,
    {
        proof {
            assert(ws.take(i + 1).drop_last() =~= ws.take(i as int));
            lemma_sum_prefix(ws, i + 1);
        }
        total = total + worker_bytes[i];
        i = i + 1;
    }
    assert(ws.take(ws.len() as int) =~= ws);
    if total > file_size {
        return None;
    }
    let remaining_sec = (file_size - total) / bytes_speed;
    Some((format_remaining(remaining_sec), remaining_sec))
}

proof fn lemma_sum_prefix(s: Seq<u64>, k: int)
    requires
        0 <= k <= s.len(),
    ensures
        0 <= sum_u64(s.take(k)) <= sum_u64(s),
    decreases s.len() - k,
{
    if k < s.len() {
        lemma_sum_prefix(s, k + 1);
        assert(s.take(k + 1).drop_last() =~= s.take(k));
    } else {
        assert(s.take(k) =~= s);
    }
    lemma_sum_nonneg(s.take(k));
}

proof fn lemma_sum_nonneg(s: Seq<u64>)
    ensures
        sum_u64(s) >= 0,
    decreases s.len(),
{
    if s.len() > 0 {
        lemma_sum_nonneg(s.drop_last());
    }
}

/// What the engine keeps of a worker: its number, its range, and whether it owes
/// an answer to a reset.
#[derive(Clone, Copy, Debug, PartialEq, Eq, Structural)]
pub struct WorkerEntry {
    pub worker_number: u8,
    pub range: ByteRange,
    pub awaiting_reset_response: bool,
}

/// The state of the engine, as plain values: the download, its settings, the
/// workers and their handshakes, the byte-range tree and the estimate of the
/// time left.
pub struct HttpDownloadEngine {
    pub download_item: DownloadItem,
    pub state: EngineState,
    pub setting: DownloadSetting,
    pub pending_worker_handshakes: Vec<u8>,
    pub reuse_worker_queue: Vec<u8>,
    pub byte_range_tree: Option<ByteRangeTree>,
    pub workers: Vec<WorkerEntry>,
    pub estimated_remaining: String,
    pub estimated_remaining_sec: u64,
    pub stopped: bool,
    pub last_estimation_calc_time: u128,
    pub spawned_workers: u8,
}

/// The model of the tree of the engine, where it has one.
pub open spec fn tree_of(t: Option<ByteRangeTree>) -> Option<TreeModel> {
    match t {
        Some(t) => Some(t@),
        None => None,
    }
}

/// `s` without any `x`.
pub open spec fn without(s: Seq<u8>, x: u8) -> Seq<u8>
    decreases s.len(),
{
    if s.len() == 0 {
        s
    } else if s.last() == x {
        without(s.drop_last(), x)
    } else {
        without(s.drop_last(), x).push(s.last())
    }
}

/// The position of the entry of worker `w` in `ws`, where there is one.
pub open spec fn entry_index(ws: Seq<WorkerEntry>, w: u8) -> Option<int> {
    if exists|i: int| 0 <= i < ws.len() && ws[i].worker_number == w {
        Some(choose|i: int| 0 <= i < ws.len() && ws[i].worker_number == w)
    } else {
        None
    }
}

/// `ws` with `e` as the entry of worker `w`: in place of its entry where it has
/// one, else added at the end.
pub open spec fn with_entry(ws: Seq<WorkerEntry>, w: u8, e: WorkerEntry) -> Seq<WorkerEntry> {
    match entry_index(ws, w) {
        Some(i) => ws.update(i, e),
        None => ws.push(e),
    }
}

/// No two entries are of the same worker.
pub open spec fn unique_workers(ws: Seq<WorkerEntry>) -> bool {
    forall|i: int, j: int|
        0 <= i < ws.len() && 0 <= j < ws.len() && i != j ==> ws[i].worker_number != ws[j].worker_number
}

impl HttpDownloadEngine {
    /// Whether the tree, where there is one, is well formed and the workers are unique.
    pub open spec fn wf(&self) -> bool {
        &&& match self.byte_range_tree {
            Some(t) => t@.wf(),
            None => true,
        }
        &&& unique_workers(self.workers@)
    }

    /// A new engine for what the user asked: the download of `DownloadItem::from_info`
    /// (its id, URL, range support, size and name) with the given settings, in its
    /// initial state, with no workers, no tree and no estimate. Gives the download's
    /// id too.
    pub fn new(info: DownloadInfo, setting: DownloadSetting, output_file_name_override: Option<String>) -> (r: (
        HttpDownloadEngine,
        String,
    ))
        ensures
            r.0.wf(),
            r.1 == r.0.download_item.uid,
            match info.uid {
                Some(u) => r.0.download_item.uid == u,
                None => crate::download::is_uuid_v4_text(r.0.download_item.uid@),
            },
            r.0.download_item.url == info.url,
            r.0.download_item.prefetched_info == (info.file_size is Some && info.supports_range is Some),
            r.0.download_item.headers@.len() == 0,
            r.0.download_item.supports_range == match info.supports_range {
                Some(b) => b,
                None => false,
            },
            r.0.download_item.file_size == match info.file_size {
                Some(n) => n,
                None => 0,
            },
            match output_file_name_override {
                Some(name) => r.0.download_item.file_name == name,
                None => match info.filename {
                    Some(name) => r.0.download_item.file_name == name,
                    None => r.0.download_item.file_name@.len() == 0,
                },
            },
            r.0.setting == setting,
            r.0.state == EngineState::Initial,
            r.0.pending_worker_handshakes@.len() == 0,
            r.0.reuse_worker_queue@.len() == 0,
            r.0.byte_range_tree is None,
            r.0.workers@.len() == 0,
            r.0.estimated_remaining@.len() == 0,
            r.0.estimated_remaining_sec == 0,
            !r.0.stopped,
            r.0.last_estimation_calc_time == 0,
            r.0.spawned_workers == 0,
    {
        let item = DownloadItem::from_info(info, output_file_name_override);
        let uid = item.uid.clone();
        (
            HttpDownloadEngine {
                download_item: item,
                state: EngineState::Initial,
                setting,
                pending_worker_handshakes: Vec::new(),
                reuse_worker_queue: Vec::new(),
                byte_range_tree: None,
                workers: Vec::new(),
                estimated_remaining: String::new(),
                estimated_remaining_sec: 0,
                stopped: false,
                last_estimation_calc_time: 0,
                spawned_workers: 0,
            },
            uid,
        )
    }

    /// Whether a new worker should be spawned: there is a tree, no leaf waits for a
    /// refresh, more than 5 seconds are left, no handshake is pending, fewer workers
    /// report progress than there are connections and fewer have been spawned, and
    /// the download is not stopped.
    pub fn should_spawn_worker(&self, workers_progress_len: usize) -> (b: bool)
        requires
            self.wf(),
        ensures
            b == match self.byte_range_tree {
                None => false,
                Some(t) => {
                    &&& !has_leaf_with_status(t@, ByteRangeStatus::RefreshRequested)
                    &&& self.estimated_remaining_sec > 5
                    &&& self.pending_worker_handshakes@.len() == 0
                    &&& workers_progress_len < self.setting.total_connections
                    &&& self.spawned_workers < self.setting.total_connections
                    &&& !self.stopped
                },
            },
    {
        match &self.byte_range_tree {
            None => false,
            Some(t) => {
                let pending_range_refresh_exists = t.any_leaf_with_status(ByteRangeStatus::RefreshRequested);
                !pending_range_refresh_exists && self.estimated_remaining_sec > 5
                    && self.pending_worker_handshakes.len() == 0 && workers_progress_len
                    < (self.setting.total_connections as usize) && self.spawned_workers
                    < self.setting.total_connections && !self.stopped
            },
        }
    }

    /// Handles the handshake of worker `worker_num`: it is no longer pending; and
    /// where it is reused, the first leaf of its worker that waits for reuse now
    /// waits for a refresh.
    pub fn handle_worker_handshake(&mut self, worker_num: u8, reuse: bool)
        requires
            old(self).wf(),
            reuse ==> old(self).byte_range_tree is Some,
        ensures
            final(self).wf(),
            final(self).pending_worker_handshakes@ == without(old(self).pending_worker_handshakes@, worker_num),
            tree_of(final(self).byte_range_tree) == if reuse {
                let t = old(self).byte_range_tree->0@;
                match first_leaf_of(t, ByteRangeStatus::ReuseRequested, worker_num) {
                    Some(k) => Some(with_status(t, t.lowest[k] as int, ByteRangeStatus::RefreshRequested)),
                    None => Some(t),
                }
            } else {
                tree_of(old(self).byte_range_tree)
            },
            final(self).workers == old(self).workers,
            final(self).spawned_workers == old(self).spawned_workers,
            *final(self) == (HttpDownloadEngine {
                pending_worker_handshakes: final(self).pending_worker_handshakes,
                byte_range_tree: final(self).byte_range_tree,
                ..*old(self)
            }),
    {
        let ghost orig = self.pending_worker_handshakes@;
        let mut kept: Vec<u8> = Vec::new();
        let mut i: usize = 0;
        while i < self.pending_worker_handshakes.len()
            invariant
                orig == self.pending_worker_handshakes@,
                i <= orig.len(),
                kept@ == without(orig.take(i as int), worker_num),
            decreases orig.len() - i,
        {
            proof {
                assert(orig.take(i + 1).drop_last() =~= orig.take(i as int));
            }
            let x = self.pending_worker_handshakes[i];
            if x != worker_num {
                kept.push(x);
            }
            i = i + 1;
        }
        proof {
            assert(orig.take(orig.len() as int) =~= orig);
        }
        self.pending_worker_handshakes = kept;
        if reuse {
            let mut tree = self.byte_range_tree.take().unwrap();
            let found = tree.find_leaf_of_worker(ByteRangeStatus::ReuseRequested, worker_num);
            match found {
                Some(k) => {
                    proof {
                        let c = choose|j: int| crate::byte_range_tree::is_first_leaf_of(
                            tree@,
                            ByteRangeStatus::ReuseRequested,
                            worker_num,
                            j,
                        );
                        assert(crate::byte_range_tree::is_first_leaf_of(
                            tree@,
                            ByteRangeStatus::ReuseRequested,
                            worker_num,
                            c,
                        ));
                        assert(c < tree.lowest_level_nodes.len());
                        assert(k == c);
                    }
                    let node = tree.lowest_level_nodes[k];
                    tree.set_status(node, ByteRangeStatus::RefreshRequested);
                },
                None => {},
            }
            self.byte_range_tree = Some(tree);
        }
    }

    /// Registers worker `worker_num` for node `node` of the tree: its entry (replacing
    /// any earlier one of that number) takes the node's range, the node is in use,
    /// and its handshake is pending. Gives the node's range.
    pub fn spawn_worker(&mut self, worker_num: u8, node: usize) -> (range: ByteRange)
        requires
            old(self).wf(),
            old(self).byte_range_tree matches Some(t) && node < t@.nodes.len(),
        ensures
            final(self).wf(),
            range == old(self).byte_range_tree->0@.nodes[node as int].range,
            tree_of(final(self).byte_range_tree) == Some(
                with_status(old(self).byte_range_tree->0@, node as int, ByteRangeStatus::InUse),
            ),
            final(self).pending_worker_handshakes@ == old(self).pending_worker_handshakes@.push(worker_num),
            final(self).workers@ == with_entry(
                old(self).workers@,
                worker_num,
                WorkerEntry { worker_number: worker_num, range, awaiting_reset_response: false },
            ),
            entry_index(final(self).workers@, worker_num) matches Some(i) && final(self).workers@[i] == (
            WorkerEntry { worker_number: worker_num, range, awaiting_reset_response: false }),
            forall|w: u8|
                w != worker_num ==> #[trigger] entry_index(final(self).workers@, w) is Some == entry_index(
                    old(self).workers@,
                    w,
                ) is Some,
            old(self).workers@.len() == 0 ==> final(self).workers@ == seq![
                WorkerEntry { worker_number: worker_num, range, awaiting_reset_response: false },
            ],
            final(self).spawned_workers == old(self).spawned_workers,
            final(self).download_item == old(self).download_item,
            final(self).setting == old(self).setting,
            final(self).reuse_worker_queue == old(self).reuse_worker_queue,
            *final(self) == (HttpDownloadEngine {
                workers: final(self).workers,
                byte_range_tree: final(self).byte_range_tree,
                pending_worker_handshakes: final(self).pending_worker_handshakes,
                ..*old(self)
            }),
    {
        let mut tree = self.byte_range_tree.take().unwrap();
        let range = tree.nodes[node].range;
        let entry = WorkerEntry { worker_number: worker_num, range, awaiting_reset_response: false };
        let ghost ws = self.workers@;
        let mut i: usize = 0;
        let mut replaced = false;
        while i < self.workers.len()
            invariant
                ws == old(self).workers@,
                *self == (HttpDownloadEngine { workers: self.workers, byte_range_tree: None, ..*old(self) }),
                self.reuse_worker_queue == old(self).reuse_worker_queue,
                self.pending_worker_handshakes == old(self).pending_worker_handshakes,
                self.spawned_workers == old(self).spawned_workers,
                self.download_item == old(self).download_item,
                self.setting == old(self).setting,
                unique_workers(ws),
                self.workers@.len() == ws.len(),
                i <= ws.len(),
                !replaced ==> self.workers@ == ws,
                !replaced ==> forall|j: int| 0 <= j < i ==> ws[j].worker_number != worker_num,
                replaced ==> exists|j: int| 0 <= j < ws.len() && ws[j].worker_number == worker_num && self.workers@
                    == ws.update(j, entry),
            decreases ws.len() - i,
        {
            if !replaced && self.workers[i].worker_number == worker_num {
                self.workers.set(i, entry);
                replaced = true;
            }
            i = i + 1;
        }
        if !replaced {
            self.workers.push(entry);
        }
        proof {
            let nw = self.workers@;
            assert(unique_workers(nw)) by {
                if replaced {
                    let j = choose|j: int| 0 <= j < ws.len() && ws[j].worker_number == worker_num && nw == ws.update(j, entry);
                    assert forall|a: int, b: int| 0 <= a < nw.len() && 0 <= b < nw.len() && a != b implies nw[a].worker_number
                        != nw[b].worker_number by {
                        if a == j {
                            assert(nw[b] == ws[b]);
                        } else if b == j {
                            assert(nw[a] == ws[a]);
                        } else {
                            assert(nw[a] == ws[a] && nw[b] == ws[b]);
                        }
                    }
                } else {
                    assert forall|a: int, b: int| 0 <= a < nw.len() && 0 <= b < nw.len() && a != b implies nw[a].worker_number
                        != nw[b].worker_number by {
                        if a == ws.len() {
                            assert(nw[b] == ws[b]);
                        } else if b == ws.len() {
                            assert(nw[a] == ws[a]);
                        } else {
                            assert(nw[a] == ws[a] && nw[b] == ws[b]);
                        }
                    }
                }
            }
            if ws.len() == 0 {
                assert(nw =~= seq![entry]);
            }
            if replaced {
                let j = choose|j: int| 0 <= j < ws.len() && ws[j].worker_number == worker_num && nw == ws.update(j, entry);
                let e = choose|i: int| 0 <= i < ws.len() && ws[i].worker_number == worker_num;
                assert(0 <= e < ws.len() && ws[e].worker_number == worker_num);
                assert(e == j);
                assert(nw == with_entry(ws, worker_num, entry));
                assert(nw[j].worker_number == worker_num);
                let c = choose|i: int| 0 <= i < nw.len() && nw[i].worker_number == worker_num;
                assert(0 <= c < nw.len() && nw[c].worker_number == worker_num);
                assert(c == j);
                assert forall|w: u8| w != worker_num implies #[trigger] entry_index(nw, w) is Some == entry_index(
                    ws,
                    w,
                ) is Some by {
                    if exists|i: int| 0 <= i < ws.len() && ws[i].worker_number == w {
                        let i = choose|i: int| 0 <= i < ws.len() && ws[i].worker_number == w;
                        assert(nw[i] == ws[i]);
                    }
                    if exists|i: int| 0 <= i < nw.len() && nw[i].worker_number == w {
                        let i = choose|i: int| 0 <= i < nw.len() && nw[i].worker_number == w;
                        assert(nw[i] == ws[i]);
                    }
                }
            } else {
                let last = ws.len() as int;
                assert(entry_index(ws, worker_num) is None);
                assert(nw =~= with_entry(ws, worker_num, entry));
                assert(nw[last].worker_number == worker_num);
                let c = choose|i: int| 0 <= i < nw.len() && nw[i].worker_number == worker_num;
                assert(0 <= c < nw.len() && nw[c].worker_number == worker_num);
                if c != last {
                    assert(nw[c] == ws[c]);
                }
                assert forall|w: u8| w != worker_num implies #[trigger] entry_index(nw, w) is Some == entry_index(
                    ws,
                    w,
                ) is Some by {
                    if exists|i: int| 0 <= i < ws.len() && ws[i].worker_number == w {
                        let i = choose|i: int| 0 <= i < ws.len() && ws[i].worker_number == w;
                        assert(nw[i] == ws[i]);
                    }
                    if exists|i: int| 0 <= i < nw.len() && nw[i].worker_number == w {
                        let i = choose|i: int| 0 <= i < nw.len() && nw[i].worker_number == w;
                        assert(i != last);
                        assert(nw[i] == ws[i]);
                    }
                }
            }
        }
        tree.set_status(node, ByteRangeStatus::InUse);
        self.byte_range_tree = Some(tree);
        self.pending_worker_handshakes.push(worker_num);
        range
    }

    /// Starts the download from the byte ranges still missing: where no worker and
    /// no tree exist yet, builds the tree from them with one connection fewer than
    /// the setting allows as its worker limit, and registers worker 0 for its root
    /// (see `spawn_worker`). Gives the worker and its range; nothing where the
    /// download had already started.
    pub fn handle_start(&mut self, missing_ranges: Vec<ByteRange>) -> (r: Option<(u8, ByteRange)>)
        requires
            old(self).wf(),
            old(self).workers@.len() == 0 && old(self).byte_range_tree is None ==> {
                &&& from_missing_bytes_defined(old(self).download_item.file_size, missing_ranges@)
                &&& old(self).setting.total_connections >= 1
            },
        ensures
            final(self).wf(),
            if old(self).workers@.len() == 0 && old(self).byte_range_tree is None {
                let m = spec_from_missing_bytes(
                    old(self).download_item.file_size,
                    (old(self).setting.total_connections - 1) as u8,
                    missing_ranges@[0].end,
                );
                &&& r == Some((0u8, m.nodes[m.root as int].range))
                &&& tree_of(final(self).byte_range_tree) == Some(with_status(m, m.root as int, ByteRangeStatus::InUse))
                &&& final(self).pending_worker_handshakes@ == old(self).pending_worker_handshakes@.push(0)
                &&& final(self).workers@ == seq![
                    WorkerEntry { worker_number: 0, range: m.nodes[m.root as int].range, awaiting_reset_response: false },
                ]
            } else {
                &&& r is None
                &&& tree_of(final(self).byte_range_tree) == tree_of(old(self).byte_range_tree)
                &&& final(self).workers == old(self).workers
            },
            final(self).spawned_workers == old(self).spawned_workers,
            *final(self) == (HttpDownloadEngine {
                workers: final(self).workers,
                byte_range_tree: final(self).byte_range_tree,
                pending_worker_handshakes: final(self).pending_worker_handshakes,
                ..*old(self)
            }),
    {
        if self.workers.len() != 0 || self.byte_range_tree.is_some() {
            return None;
        }
        let tree = ByteRangeTree::new_from_missing_bytes(
            self.download_item.file_size,
            self.setting.total_connections - 1,
            missing_ranges,
        );
        let root = tree.root;
        self.byte_range_tree = Some(tree);
        let range = self.spawn_worker(0, root);
        Some((0, range))
    }

    /// Stops every worker: the numbers of the workers to tell, in order; the
    /// download is stopped.
    pub fn pause_workers(&mut self) -> (to_stop: Vec<u8>)
        ensures
            to_stop@ == old(self).workers@.map_values(|e: WorkerEntry| e.worker_number),
            final(self).stopped,
            final(self).workers == old(self).workers,
            final(self).byte_range_tree == old(self).byte_range_tree,
            final(self).pending_worker_handshakes == old(self).pending_worker_handshakes,
            final(self).spawned_workers == old(self).spawned_workers,
            *final(self) == (HttpDownloadEngine {
                stopped: final(self).stopped,
                ..*old(self)
            }),
    {
        let mut to_stop: Vec<u8> = Vec::new();
        let mut i: usize = 0;
        while i < self.workers.len()
            invariant
                i <= self.workers@.len(),
                to_stop@ == self.workers@.take(i as int).map_values(|e: WorkerEntry| e.worker_number),
            decreases self.workers@.len() - i,
        {
            to_stop.push(self.workers[i].worker_number);
            proof {
                assert(self.workers@.take(i + 1).map_values(|e: WorkerEntry| e.worker_number) =~= self.workers@.take(
                    i as int,
                ).map_values(|e: WorkerEntry| e.worker_number).push(self.workers@[i as int].worker_number));
            }
            i = i + 1;
        }
        proof {
            assert(self.workers@.take(self.workers@.len() as int) =~= self.workers@);
        }
        self.stopped = true;
        to_stop
    }

    /// Sets the range of worker `worker_num`; fails where there is no such worker.
    pub fn update_worker_range(&mut self, worker_num: u8, new_range: ByteRange) -> (r: Result<(), ()>)
        requires
            old(self).wf(),
        ensures
            final(self).wf(),
            match entry_index(old(self).workers@, worker_num) {
                None => r is Err && final(self).workers == old(self).workers,
                Some(i) => r is Ok && final(self).workers@ == old(self).workers@.update(
                    i,
                    WorkerEntry { range: new_range, ..old(self).workers@[i] },
                ),
            },
            final(self).byte_range_tree == old(self).byte_range_tree,
            *final(self) == (HttpDownloadEngine { workers: final(self).workers, ..*old(self) }),
    {
        let mut i: usize = 0;
        while i < self.workers.len()
            invariant
                *self == *old(self),
                self.workers == old(self).workers,
                self.byte_range_tree == old(self).byte_range_tree,
                self.wf(),
                i <= self.workers@.len(),
                forall|j: int| 0 <= j < i ==> self.workers@[j].worker_number != worker_num,
            decreases self.workers@.len() - i,
        {
            if self.workers[i].worker_number == worker_num {
                let ghost ws = self.workers@;
                proof {
                    let c = choose|k: int| 0 <= k < ws.len() && ws[k].worker_number == worker_num;
                    assert(0 <= c < ws.len() && ws[c].worker_number == worker_num);
                    assert(c == i);
                }
                let mut e = self.workers[i];
                e.range = new_range;
                self.workers.set(i, e);
                proof {
                    let nw = self.workers@;
                    assert forall|a: int, b: int| 0 <= a < nw.len() && 0 <= b < nw.len() && a != b implies nw[a].worker_number
                        != nw[b].worker_number by {
                        assert(nw[a].worker_number == ws[a].worker_number);
                        assert(nw[b].worker_number == ws[b].worker_number);
                    }
                }
                return Ok(());
            }
            i = i + 1;
        }
        Err(())
    }
}

/// One round of refreshes for the workers `ws` in order: each gets the range of
/// the first leaf of its worker, which now waits for a refresh; the round stops at
/// the first worker without a leaf.
pub open spec fn refresh_round(t: TreeModel, ws: Seq<u8>) -> (TreeModel, Seq<(u8, ByteRange)>)
    decreases ws.len(),
{
    if ws.len() == 0 {
        (t, Seq::empty())
    } else {
        match first_leaf_of_worker(t, ws[0]) {
            None => (t, Seq::empty()),
            Some(k) => {
                let node = t.lowest[k] as int;
                let (t3, ms) = refresh_round(
                    with_status(t, node, ByteRangeStatus::RefreshRequested),
                    ws.drop_first(),
                );
                (t3, seq![(ws[0], t.nodes[node].range)] + ms)
            },
        }
    }
}

impl HttpDownloadEngine {
    /// Asks the workers for new ranges after a split: where there is a tree, it is
    /// split (see `spec_split`); where that succeeds, the workers, in order, get the
    /// ranges of `refresh_round`, one spawn counted for each. Gives the workers and
    /// their new ranges, each to be sent `RefreshByteRange(range, false)`.
    pub fn request_byte_range_refresh_new_worker(&mut self) -> (msgs: Vec<(u8, ByteRange)>)
        requires
            old(self).wf(),
            old(self).byte_range_tree matches Some(t) ==> split_defined(t@),
            old(self).spawned_workers + old(self).workers@.len() <= 255,
        ensures
            final(self).wf(),
            final(self).workers == old(self).workers,
            match old(self).byte_range_tree {
                None => msgs@.len() == 0 && final(self).byte_range_tree is None && final(self).spawned_workers
                    == old(self).spawned_workers,
                Some(t) => {
                    let (t1, res) = spec_split(t@);
                    if res is Err {
                        msgs@.len() == 0 && tree_of(final(self).byte_range_tree) == Some(t1)
                            && final(self).spawned_workers == old(self).spawned_workers
                    } else {
                        let (t2, ms) = refresh_round(t1, old(self).workers@.map_values(|e: WorkerEntry| e.worker_number));
                        &&& msgs@ == ms
                        &&& tree_of(final(self).byte_range_tree) == Some(t2)
                        &&& final(self).spawned_workers == old(self).spawned_workers + ms.len()
                    }
                },
            },
            *final(self) == (HttpDownloadEngine {
                byte_range_tree: final(self).byte_range_tree,
                spawned_workers: final(self).spawned_workers,
                ..*old(self)
            }),
    {
        let mut msgs: Vec<(u8, ByteRange)> = Vec::new();
        if self.byte_range_tree.is_none() {
            return msgs;
        }
        let mut tree = self.byte_range_tree.take().unwrap();
        let split = tree.split();
        if split.is_err() {
            self.byte_range_tree = Some(tree);
            return msgs;
        }
        proof {
            crate::byte_range_tree::lemma_split_keeps_wf(old(self).byte_range_tree->0@);
        }
        let ghost ws = self.workers@.map_values(|e: WorkerEntry| e.worker_number);
        let ghost t1 = tree@;
        let mut i: usize = 0;
        assert(ws.skip(0) =~= ws);
        assert(msgs@ + refresh_round(t1, ws).1 =~= refresh_round(t1, ws).1);
        while i < self.workers.len()
            invariant
                ws == self.workers@.map_values(|e: WorkerEntry| e.worker_number),
                *self == (HttpDownloadEngine {
                    byte_range_tree: None,
                    spawned_workers: self.spawned_workers,
                    ..*old(self)
                }),
                self.workers == old(self).workers,
                unique_workers(self.workers@),
                tree@.wf(),
                i <= ws.len(),
                refresh_round(tree@, ws.skip(i as int)).0 == refresh_round(t1, ws).0,
                msgs@ + refresh_round(tree@, ws.skip(i as int)).1 == refresh_round(t1, ws).1,
                self.spawned_workers == old(self).spawned_workers + msgs@.len(),
                msgs@.len() <= i,
                old(self).spawned_workers + ws.len() <= 255,
                old(self).byte_range_tree matches Some(t0) && spec_split(t0@).0 == t1 && spec_split(t0@).1 is Ok,
            decreases ws.len() - i,
        {
            let w = self.workers[i].worker_number;
            let ghost rest = ws.skip(i as int);
            assert(rest[0] == w);
            assert(rest.drop_first() =~= ws.skip(i + 1));
            let found = tree.find_leaf_of_any_status(w);
            match found {
                None => {
                    proof {
                        assert(refresh_round(tree@, rest).1 =~= Seq::<(u8, ByteRange)>::empty());
                        assert(msgs@ + Seq::<(u8, ByteRange)>::empty() =~= msgs@);
                    }
                    self.byte_range_tree = Some(tree);
                    return msgs;
                },
                Some(k) => {
                    proof {
                        let c = choose|j: int| crate::byte_range_tree::is_first_leaf_of_worker(tree@, w, j);
                        assert(crate::byte_range_tree::is_first_leaf_of_worker(tree@, w, c));
                        assert(c < tree.lowest_level_nodes.len());
                        assert(k == c);
                    }
                    let node = tree.lowest_level_nodes[k];
                    let range = tree.nodes[node].range;
                    let ghost before = tree@;
                    tree.set_status(node, ByteRangeStatus::RefreshRequested);
                    self.spawned_workers = self.spawned_workers + 1;
                    let ghost m0 = msgs@;
                    msgs.push((w, range));
                    proof {
                        assert(refresh_round(before, rest).1 == seq![(w, range)] + refresh_round(tree@, ws.skip(i + 1)).1);
                        assert(m0 + (seq![(w, range)] + refresh_round(tree@, ws.skip(i + 1)).1) =~= msgs@
                            + refresh_round(tree@, ws.skip(i + 1)).1);
                    }
                },
            }
            i = i + 1;
        }
        proof {
            assert(ws.skip(ws.len() as int) =~= Seq::<u8>::empty());
            assert(msgs@ + Seq::<(u8, ByteRange)>::empty() =~= msgs@);
        }
        self.byte_range_tree = Some(tree);
        msgs
    }
}

/// The leaves a reused worker may take a part of: those in queue, else those in use.
pub open spec fn reuse_candidates(t: TreeModel) -> Seq<usize> {
    let q = leaves_with_status(t, ByteRangeStatus::InQueue, t.lowest.len() as int);
    if q.len() > 0 {
        q
    } else {
        leaves_with_status(t, ByteRangeStatus::InUse, t.lowest.len() as int)
    }
}

/// `p` is the position among `c` of the candidate with the smallest range other
/// than `wr` (the first of equal ones): where the candidates are sorted by range,
/// keeping equal ones in order, the first whose range is not `wr`.
pub open spec fn is_reuse_target(t: TreeModel, c: Seq<usize>, wr: ByteRange, p: int) -> bool {
    &&& 0 <= p < c.len()
    &&& t.nodes[c[p] as int].range != wr
    &&& forall|j: int|
        0 <= j < c.len() && #[trigger] t.nodes[c[j] as int].range != wr ==> !range_lt(
            t.nodes[c[j] as int].range,
            t.nodes[c[p] as int].range,
        ) && (t.nodes[c[j] as int].range == t.nodes[c[p] as int].range ==> j >= p)
}

/// The node a reused worker with range `wr` takes a part of, where there is one.
pub open spec fn reuse_target(t: TreeModel, wr: ByteRange) -> Option<usize> {
    let c = reuse_candidates(t);
    if exists|p: int| is_reuse_target(t, c, wr, p) {
        Some(c[choose|p: int| is_reuse_target(t, c, wr, p)])
    } else {
        None
    }
}

/// What a request for a new range for the reused worker `w` does to the tree and
/// the reuse queue, and whether it fails (no such worker). Where no candidate
/// other than the worker's own range exists, the worker goes back into the queue.
/// Otherwise the target is split without a new worker number; where that
/// succeeds, its right half goes to `w` (to download), and the target and its left
/// half wait for a refresh.
pub open spec fn spec_reuse_request(t: TreeModel, queue: Seq<u8>, workers: Seq<WorkerEntry>, w: u8) -> (TreeModel, Seq<u8>, bool) {
    match entry_index(workers, w) {
        None => (t, queue, false),
        Some(i) => {
            let wr = workers[i].range;
            match reuse_target(t, wr) {
                None => (t, queue.push(w), true),
                Some(n) => {
                    let (t1, ok) = spec_split_node(t, n, false);
                    if !ok {
                        (t1, queue, true)
                    } else {
                        let r = t1.nodes[n as int].right_child->0 as int;
                        let l = t1.nodes[n as int].left_child->0 as int;
                        let t2 = TreeModel {
                            nodes: t1.nodes.update(
                                r,
                                ByteRangeNode {
                                    worker_number: w,
                                    status: ByteRangeStatus::Initial,
                                    ..t1.nodes[r]
                                },
                            ),
                            ..t1
                        };
                        let t3 = with_status(t2, n as int, ByteRangeStatus::RefreshRequested);
                        (with_status(t3, l, ByteRangeStatus::RefreshRequested), queue, true)
                    }
                },
            }
        },
    }
}

/// The position among `c` of the reuse target; see `is_reuse_target`.
fn find_reuse_target(tree: &ByteRangeTree, c: &Vec<usize>, wr: ByteRange) -> (o: Option<usize>)
    requires
        tree@.wf(),
        forall|i: int| 0 <= i < c@.len() ==> #[trigger] c@[i] < tree@.nodes.len(),
    ensures
        match o {
            Some(p) => is_reuse_target(tree@, c@, wr, p as int),
            None => !exists|p: int| is_reuse_target(tree@, c@, wr, p),
        },
{
    let ghost t = tree@;
    let mut best: Option<usize> = None;
    let mut j: usize = 0;
    while j < c.len()
        invariant
            t == tree@,
            tree@.wf(),
            forall|i: int| 0 <= i < c@.len() ==> #[trigger] c@[i] < tree@.nodes.len(),
            j <= c@.len(),
            match best {
                None => forall|i: int| 0 <= i < j ==> #[trigger] t.nodes[c@[i] as int].range == wr,
                Some(p) => {
                    &&& p < j
                    &&& t.nodes[c@[p as int] as int].range != wr
                    &&& forall|i: int|
                        0 <= i < j && #[trigger] t.nodes[c@[i] as int].range != wr ==> !range_lt(
                            t.nodes[c@[i] as int].range,
                            t.nodes[c@[p as int] as int].range,
                        ) && (t.nodes[c@[i] as int].range == t.nodes[c@[p as int] as int].range ==> i >= p)
                },
            },
        decreases c@.len() - j,
    {
        let r = tree.nodes[c[j]].range;
        if r != wr {
            match best {
                None => {
                    best = Some(j);
                },
                Some(p) => {
                    let rb = tree.nodes[c[p]].range;
                    if r.is_before(&rb) {
                        best = Some(j);
                    }
                },
            }
        }
        j = j + 1;
    }
    match best {
        None => {
            proof {
                if exists|p: int| is_reuse_target(t, c@, wr, p) {
                    let p = choose|p: int| is_reuse_target(t, c@, wr, p);
                    assert(t.nodes[c@[p] as int].range == wr);
                }
            }
            None
        },
        Some(p) => Some(p),
    }
}

proof fn lemma_reuse_target_unique(t: TreeModel, c: Seq<usize>, wr: ByteRange, p: int)
    requires
        is_reuse_target(t, c, wr, p),
    ensures
        reuse_target(t, wr) == (if c == reuse_candidates(t) { Some(c[p]) } else { reuse_target(t, wr) }),
{
    if c == reuse_candidates(t) {
        let q = choose|q: int| is_reuse_target(t, c, wr, q);
        assert(is_reuse_target(t, c, wr, q));
        assert(t.nodes[c[q] as int].range != wr);
        assert(t.nodes[c[p] as int].range != wr);
        if q < p {
            assert(!range_lt(t.nodes[c[q] as int].range, t.nodes[c[p] as int].range));
        } else if q > p {
            assert(!range_lt(t.nodes[c[p] as int].range, t.nodes[c[q] as int].range));
        }
    }
}

/// The text `<prefix><decimal of n><suffix>`.
fn message_with_number(prefix: &str, n: u8, suffix: &str) -> (s: String)
    ensures
        s@ == prefix@ + decimal(n as nat) + suffix@,
{
    let mut v: Vec<char> = Vec::new();
    push_str_chars(&mut v, prefix);
    let mut d = u64_to_decimal(n as u64);
    v.append(&mut d);
    push_str_chars(&mut v, suffix);
    proof {
        assert(v@ =~= prefix@ + decimal(n as nat) + suffix@);
    }
    chars_to_string(v.as_slice())
}

impl HttpDownloadEngine {
    /// Asks for a new range for the reused worker `worker_num`; see
    /// `spec_reuse_request`. Fails where the engine has no such worker.
    pub fn request_byte_range_refresh_reuse_worker(&mut self, worker_num: u8) -> (r: Result<(), String>)
        requires
            old(self).wf(),
            old(self).byte_range_tree is Some,
            old(self).byte_range_tree->0@.nodes.len() + 2 <= usize::MAX,
            entry_index(old(self).workers@, worker_num) matches Some(i) ==> (reuse_target(
                old(self).byte_range_tree->0@,
                old(self).workers@[i].range,
            ) matches Some(n) ==> old(self).byte_range_tree->0@.nodes[n as int].range.start
                <= old(self).byte_range_tree->0@.nodes[n as int].range.end),
        ensures
            final(self).wf(),
            ({
                let (t, q, ok) = spec_reuse_request(
                    old(self).byte_range_tree->0@,
                    old(self).reuse_worker_queue@,
                    old(self).workers@,
                    worker_num,
                );
                &&& tree_of(final(self).byte_range_tree) == Some(t)
                &&& final(self).reuse_worker_queue@ == q
                &&& r is Ok == ok
            }),
            r matches Err(m) ==> m@ == "request_byte_range_refresh_reuse_worker:: Failed to find worker_num "@
                + decimal(worker_num as nat) + " in list of workers"@,
            final(self).workers == old(self).workers,
            *final(self) == (HttpDownloadEngine {
                byte_range_tree: final(self).byte_range_tree,
                reuse_worker_queue: final(self).reuse_worker_queue,
                ..*old(self)
            }),
    {
        let mut i: usize = 0;
        let mut found: Option<usize> = None;
        while i < self.workers.len()
            invariant
                i <= self.workers@.len(),
                found is None ==> forall|j: int| 0 <= j < i ==> self.workers@[j].worker_number != worker_num,
                found matches Some(k) ==> k < self.workers@.len() && self.workers@[k as int].worker_number == worker_num,
            decreases self.workers@.len() - i,
        {
            if found.is_none() && self.workers[i].worker_number == worker_num {
                found = Some(i);
            }
            i = i + 1;
        }
        let wi = match found {
            None => {
                proof {
                    assert(!exists|j: int| 0 <= j < self.workers@.len() && self.workers@[j].worker_number == worker_num);
                }
                return Err(
                    message_with_number(
                        "request_byte_range_refresh_reuse_worker:: Failed to find worker_num ",
                        worker_num,
                        " in list of workers",
                    ),
                );
            },
            Some(k) => k,
        };
        proof {
            let ws = self.workers@;
            let c = choose|j: int| 0 <= j < ws.len() && ws[j].worker_number == worker_num;
            assert(0 <= c < ws.len() && ws[c].worker_number == worker_num);
            assert(c == wi);
        }
        let worker_range = self.workers[wi].range;
        let mut tree = self.byte_range_tree.take().unwrap();
        let ghost t = tree@;
        let in_queue = tree.lowest_level_nodes_by_status(ByteRangeStatus::InQueue);
        let candidates = if in_queue.len() > 0 {
            in_queue
        } else {
            tree.lowest_level_nodes_by_status(ByteRangeStatus::InUse)
        };
        assert(candidates@ == reuse_candidates(t));
        let target = find_reuse_target(&tree, &candidates, worker_range);
        let p = match target {
            None => {
                self.reuse_worker_queue.push(worker_num);
                self.byte_range_tree = Some(tree);
                return Ok(());
            },
            Some(p) => p,
        };
        proof {
            lemma_reuse_target_unique(t, candidates@, worker_range, p as int);
        }
        let node = candidates[p];
        let split = tree.split_byte_range_node(node, false);
        if split.is_err() {
            self.byte_range_tree = Some(tree);
            return Ok(());
        }
        let right = tree.nodes[node].right_child.unwrap();
        let left = tree.nodes[node].left_child.unwrap();
        let ghost t1 = tree@;
        let mut right_node = tree.nodes[right];
        right_node.worker_number = worker_num;
        right_node.status = ByteRangeStatus::Initial;
        tree.nodes.set(right, right_node);
        proof {
            assert forall|j: int| 0 <= j < tree@.nodes.len() implies {
                &&& crate::byte_range_tree::node_links_in(#[trigger] tree@.nodes[j], tree@.nodes.len() as int)
                &&& (tree@.nodes[j].left_child matches Some(c) ==> c > j)
                &&& (tree@.nodes[j].right_child matches Some(c) ==> c > j)
            } by {
                if j != right {
                    assert(tree@.nodes[j] == t1.nodes[j]);
                }
            }
        }
        tree.set_status(node, ByteRangeStatus::RefreshRequested);
        tree.set_status(left, ByteRangeStatus::RefreshRequested);
        self.byte_range_tree = Some(tree);
        Ok(())
    }

    /// Whether the reuse ticker has a worker to place: some worker waits in the
    /// reuse queue, no new worker should be spawned, no worker owes an answer to a
    /// reset, and the download is not complete.
    pub open spec fn spec_reuse_due(&self, workers_progress_len: usize, progress_complete: bool) -> bool {
        &&& self.reuse_worker_queue@.len() > 0
        &&& !(match self.byte_range_tree {
            None => false,
            Some(t) => {
                &&& !has_leaf_with_status(t@, ByteRangeStatus::RefreshRequested)
                &&& self.estimated_remaining_sec > 5
                &&& self.pending_worker_handshakes@.len() == 0
                &&& workers_progress_len < self.setting.total_connections
                &&& self.spawned_workers < self.setting.total_connections
                &&& !self.stopped
            },
        })
        &&& !(exists|i: int| 0 <= i < self.workers@.len() && #[trigger] self.workers@[i].awaiting_reset_response)
        &&& !progress_complete
    }

    /// The reuse ticker: where a worker is due (see `spec_reuse_due`), takes the
    /// first worker out of the reuse queue and asks for a new range for it.
    pub fn run_worker_reuse_ticker(&mut self, workers_progress_len: usize, progress_complete: bool) -> (r: Result<(), String>)
        requires
            old(self).wf(),
            old(self).spec_reuse_due(workers_progress_len, progress_complete) ==> {
                &&& old(self).byte_range_tree is Some
                &&& old(self).byte_range_tree->0@.nodes.len() + 2 <= usize::MAX
                &&& entry_index(old(self).workers@, old(self).reuse_worker_queue@[0]) matches Some(i) ==> (reuse_target(
                    old(self).byte_range_tree->0@,
                    old(self).workers@[i].range,
                ) matches Some(n) ==> old(self).byte_range_tree->0@.nodes[n as int].range.start
                    <= old(self).byte_range_tree->0@.nodes[n as int].range.end)
            },
        ensures
            final(self).wf(),
            if old(self).spec_reuse_due(workers_progress_len, progress_complete) {
                let (t, q, ok) = spec_reuse_request(
                    old(self).byte_range_tree->0@,
                    old(self).reuse_worker_queue@.drop_first(),
                    old(self).workers@,
                    old(self).reuse_worker_queue@[0],
                );
                &&& tree_of(final(self).byte_range_tree) == Some(t)
                &&& final(self).reuse_worker_queue@ == q
                &&& r is Ok == ok
            } else {
                &&& r is Ok
                &&& final(self).reuse_worker_queue == old(self).reuse_worker_queue
                &&& final(self).byte_range_tree == old(self).byte_range_tree
            },
            *final(self) == (HttpDownloadEngine {
                byte_range_tree: final(self).byte_range_tree,
                reuse_worker_queue: final(self).reuse_worker_queue,
                ..*old(self)
            }),
    {
        if self.reuse_worker_queue.len() == 0 || self.should_spawn_worker(workers_progress_len) || progress_complete {
            return Ok(());
        }
        let mut i: usize = 0;
        while i < self.workers.len()
            invariant
                self.wf(),
                self.workers == old(self).workers,
                self.reuse_worker_queue == old(self).reuse_worker_queue,
                self.byte_range_tree == old(self).byte_range_tree,
                i <= self.workers@.len(),
                forall|j: int| 0 <= j < i ==> !#[trigger] self.workers@[j].awaiting_reset_response,
            decreases self.workers@.len() - i,
        {
            if self.workers[i].awaiting_reset_response {
                return Ok(());
            }
            i = i + 1;
        }
        let worker_num = self.reuse_worker_queue.remove(0);
        self.request_byte_range_refresh_reuse_worker(worker_num)
    }
}

/// Whether a worker in status `s` can be reset: it is not stopped, starting or
/// complete.
pub open spec fn resettable(s: Status) -> bool {
    !(s is Stopped || s is Starting || s is Complete)
}

/// The workers, in order, of `progress` (worker, status, time of its last
/// response) that can be reset and have not responded for longer than
/// `timeout` milliseconds at time `now`.
pub open spec fn due_for_reset(progress: Seq<(u8, Status, u128)>, timeout: u64, now: u128) -> Seq<u8>
    decreases progress.len(),
{
    if progress.len() == 0 {
        Seq::empty()
    } else {
        let rest = due_for_reset(progress.drop_last(), timeout, now);
        let (w, s, t) = progress.last();
        if resettable(s) && t + timeout < now {
            rest.push(w)
        } else {
            rest
        }
    }
}

/// The workers to reset at time `now`; see `due_for_reset`.
pub fn workers_due_for_reset(progress: &Vec<(u8, Status, u128)>, timeout: u64, now: u128) -> (due: Vec<u8>)
    requires
        forall|i: int| 0 <= i < progress@.len() ==> #[trigger] progress@[i].2 + timeout <= u128::MAX,
    ensures
        due@ == due_for_reset(progress@, timeout, now),
{
    let mut due: Vec<u8> = Vec::new();
    let mut i: usize = 0;
    while i < progress.len()
        invariant
            i <= progress@.len(),
            forall|k: int| 0 <= k < progress@.len() ==> #[trigger] progress@[k].2 + timeout <= u128::MAX,
            due@ == due_for_reset(progress@.take(i as int), timeout, now),
        decreases progress@.len() - i,
    {
        let (w, s, t) = progress[i];
        proof {
            assert(progress@.take(i + 1).drop_last() =~= progress@.take(i as int));
            assert(progress@[i as int].2 + timeout <= u128::MAX);
        }
        let can_reset = match s {
            Status::Stopped | Status::Starting | Status::Complete => false,
            _ => true,
        };
        if can_reset && t + (timeout as u128) < now {
            due.push(w);
        }
        i = i + 1;
    }
    assert(progress@.take(progress@.len() as int) =~= progress@);
    due
}

impl HttpDownloadEngine {
    /// The workers to reset now, by the clock: for some time `now` that the clock
    /// gave, `due_for_reset` of `progress` with the engine's reset timeout; `None`
    /// where the clock stands before the Unix epoch.
    pub fn workers_to_reset(&self, progress: &Vec<(u8, Status, u128)>) -> (due: Option<Vec<u8>>)
        requires
            forall|i: int|
                0 <= i < progress@.len() ==> #[trigger] progress@[i].2 + self.setting.reset_timeout_millis
                    <= u128::MAX,
        ensures
            due matches Some(d) ==> exists|now: u128| d@ == due_for_reset(progress@, self.setting.reset_timeout_millis, now),
    {
        let now = match now_millis() {
            None => {
                return None;
            },
            Some(n) => n,
        };
        Some(workers_due_for_reset(progress, self.setting.reset_timeout_millis, now))
    }

    /// Refreshes the estimate of the time left from the bytes each worker has
    /// received and the current speed, by the clock: where, for some time `now`
    /// that the clock gave, `spec_estimated_remaining` gives an estimate, the
    /// engine takes it and records the time the clock then gives, and says so
    /// (`Some(true)`); else nothing changes (`Some(false)`, or `None` where the
    /// clock stands before the Unix epoch). Whatever the clock, there is no
    /// estimate where no worker reports, nothing is arriving, or the workers have
    /// received more than the file holds.
    pub fn update_estimated_remaining(&mut self, worker_bytes: &Vec<u64>, bytes_speed: u64) -> (updated: Option<bool>)
        requires
            sum_u64(worker_bytes@) <= u64::MAX,
            old(self).last_estimation_calc_time + 1000 <= u128::MAX,
        ensures
            updated != Some(true) ==> *final(self) == *old(self),
            (worker_bytes@.len() == 0 || bytes_speed == 0 || sum_u64(worker_bytes@) > old(
                self,
            ).download_item.file_size) ==> updated != Some(true),
            updated == Some(true) ==> exists|now: u128|
                spec_estimated_remaining(
                    worker_bytes@,
                    old(self).download_item.file_size,
                    bytes_speed,
                    old(self).last_estimation_calc_time,
                    now,
                ) == Some((final(self).estimated_remaining@, final(self).estimated_remaining_sec)),
            updated == Some(true) ==> *final(self) == (HttpDownloadEngine {
                estimated_remaining: final(self).estimated_remaining,
                estimated_remaining_sec: final(self).estimated_remaining_sec,
                last_estimation_calc_time: final(self).last_estimation_calc_time,
                ..*old(self)
            }),
    {
        let now = match now_millis() {
            None => {
                return None;
            },
            Some(n) => n,
        };
        match calculate_estimated_remaining(
            worker_bytes,
            self.download_item.file_size,
            bytes_speed,
            self.last_estimation_calc_time,
            now,
        ) {
            None => Some(false),
            Some((text, sec)) => {
                let later = match now_millis() {
                    None => {
                        return None;
                    },
                    Some(n) => n,
                };
                self.last_estimation_calc_time = later;
                self.estimated_remaining = text;
                self.estimated_remaining_sec = sec;
                Some(true)
            },
        }
    }
}

/// What the engine must do once it has answered a worker: nothing, send a reused
/// worker `StartReuseConnection` with a range, or start a new worker on a range.
#[derive(Clone, Copy, Debug, PartialEq, Eq, Structural)]
pub enum EngineAction {
    Nothing,
    StartReuse(u8, ByteRange),
    Spawn(u8, ByteRange),
}

/// The error where no leaf has the range a worker completed.
pub open spec fn completion_error_text(range: ByteRange, worker: u8) -> Seq<char> {
    "handle_range_download_completion:: Failed to find node "@ + range_text(range)
        + " in tree for worker number "@ + decimal(worker as nat)
}

/// The error where the worker to be reused has no entry.
pub open spec fn reuse_error_text(worker: u8) -> Seq<char> {
    "Failed to find worker "@ + decimal(worker as nat) + " when sending start command reuse worker"@
}

/// The error where the worker whose range was cut has no entry.
pub open spec fn update_error_text(worker: u8) -> Seq<char> {
    "Failed to find worker "@ + decimal(worker as nat) + " updating refreshed range"@
}

/// `q` with `w` added at the end where it already holds `w`.
pub open spec fn requeue_if_queued(q: Seq<u8>, w: u8) -> Seq<u8> {
    if q.contains(w) {
        q.push(w)
    } else {
        q
    }
}

/// The tree after a worker refused the range split off for it: the parent of the
/// split goes back among the leaves in place of its left child, and the leaves of
/// its two children's ranges are dropped; nothing changes where no leaf has the
/// left child's range.
pub open spec fn spec_refused_tree(t: TreeModel, p: usize, l: usize, rc: usize) -> TreeModel {
    let lr = t.nodes[l as int].range;
    let rr = t.nodes[rc as int].range;
    match first_index(t.leaf_ranges(), lr) {
        None => t,
        Some(idx) => drop_leaf_with_range(
            drop_leaf_with_range(TreeModel { lowest: t.lowest.insert(idx, p), ..t }, lr),
            rr,
        ),
    }
}

/// The tree after a worker cut its range at `refreshed` and offered the rest,
/// `new_valid`: the left child of the split takes `refreshed` and is in use, the
/// right child takes `new_valid` and waits for reuse, and the parent is outdated.
pub open spec fn spec_overlap_tree(
    t: TreeModel,
    p: usize,
    l: usize,
    rc: usize,
    refreshed: ByteRange,
    new_valid: ByteRange,
) -> TreeModel {
    let t1 = with_status(with_range(t, l as int, refreshed), l as int, ByteRangeStatus::InUse);
    let t2 = with_range(with_status(t1, rc as int, ByteRangeStatus::ReuseRequested), rc as int, new_valid);
    with_status(t2, p as int, ByteRangeStatus::Outdated)
}

impl HttpDownloadEngine {
    /// The position of the entry of worker `w`; see `entry_index`.
    fn find_worker(&self, w: u8) -> (o: Option<usize>)
        requires
            self.wf(),
        ensures
            match entry_index(self.workers@, w) {
                Some(i) => o == Some(i as usize),
                None => o is None,
            },
    {
        let mut i: usize = 0;
        while i < self.workers.len()
            invariant
                self.wf(),
                i <= self.workers@.len(),
                forall|j: int| 0 <= j < i ==> self.workers@[j].worker_number != w,
            decreases self.workers@.len() - i,
        {
            if self.workers[i].worker_number == w {
                proof {
                    let ws = self.workers@;
                    let c = choose|j: int| 0 <= j < ws.len() && ws[j].worker_number == w;
                    assert(0 <= c < ws.len() && ws[c].worker_number == w);
                    assert(c == i);
                }
                return Some(i);
            }
            i = i + 1;
        }
        None
    }

    /// Handles worker `worker_num` completing `range`: where the worker waits in the
    /// reuse queue it is queued once more, and the leaf of that range is complete;
    /// fails where no leaf has that range.
    pub fn handle_range_download_completion(&mut self, worker_num: u8, range: ByteRange) -> (r: Result<(), String>)
        requires
            old(self).wf(),
            old(self).byte_range_tree is Some,
        ensures
            final(self).wf(),
            final(self).reuse_worker_queue@ == requeue_if_queued(old(self).reuse_worker_queue@, worker_num),
            match search_leaf(old(self).byte_range_tree->0@, range) {
                None => {
                    &&& r matches Err(e) && e@ == completion_error_text(range, worker_num)
                    &&& final(self).byte_range_tree == old(self).byte_range_tree
                },
                Some(i) => {
                    &&& r is Ok
                    &&& tree_of(final(self).byte_range_tree) == Some(
                        with_status(old(self).byte_range_tree->0@, i as int, ByteRangeStatus::Complete),
                    )
                },
            },
            final(self).workers == old(self).workers,
            final(self).pending_worker_handshakes == old(self).pending_worker_handshakes,
            final(self).spawned_workers == old(self).spawned_workers,
            *final(self) == (HttpDownloadEngine {
                byte_range_tree: final(self).byte_range_tree,
                reuse_worker_queue: final(self).reuse_worker_queue,
                ..*old(self)
            }),
    {
        let mut queued = false;
        let mut i: usize = 0;
        while i < self.reuse_worker_queue.len()
            invariant
                i <= self.reuse_worker_queue@.len(),
                queued == self.reuse_worker_queue@.take(i as int).contains(worker_num),
            decreases self.reuse_worker_queue@.len() - i,
        {
            proof {
                let q = self.reuse_worker_queue@;
                let a = q.take(i as int);
                let b = q.take(i + 1);
                assert(b =~= a.push(q[i as int]));
                if a.contains(worker_num) {
                    let j = choose|j: int| 0 <= j < a.len() && a[j] == worker_num;
                    assert(b[j] == worker_num);
                }
                if b.contains(worker_num) && q[i as int] != worker_num {
                    let j = choose|j: int| 0 <= j < b.len() && b[j] == worker_num;
                    assert(a[j] == worker_num);
                }
            }
            if self.reuse_worker_queue[i] == worker_num {
                queued = true;
                proof {
                    assert(self.reuse_worker_queue@.take(i + 1)[i as int] == worker_num);
                }
            }
            i = i + 1;
        }
        proof {
            assert(self.reuse_worker_queue@.take(self.reuse_worker_queue@.len() as int) =~= self.reuse_worker_queue@);
        }
        if queued {
            self.reuse_worker_queue.push(worker_num);
        }
        let mut tree = self.byte_range_tree.take().unwrap();
        match tree.search_node(range) {
            None => {
                self.byte_range_tree = Some(tree);
                let mut v: Vec<char> = Vec::new();
                push_str_chars(&mut v, "handle_range_download_completion:: Failed to find node ");
                let text = range.to_text();
                push_str_chars(&mut v, text.as_str());
                push_str_chars(&mut v, " in tree for worker number ");
                let mut d = u64_to_decimal(worker_num as u64);
                v.append(&mut d);
                proof {
                    assert(v@ =~= completion_error_text(range, worker_num));
                }
                Err(chars_to_string(v.as_slice()))
            },
            Some(node) => {
                tree.set_status(node, ByteRangeStatus::Complete);
                self.byte_range_tree = Some(tree);
                Ok(())
            },
        }
    }

    /// Handles worker `worker_num` accepting the range split off for it: the
    /// parent of the split is outdated; the worker of the right child is sent
    /// `StartReuseConnection` where the connection is reused (failing where that
    /// worker has no entry) and is spawned otherwise, its handshake then awaited
    /// once more; both children are then in use. Nothing happens where there is no
    /// tree or no leaf has `requested_range`; a leaf that has it must have a parent
    /// with two children.
    pub fn handle_refresh_byte_range_success(&mut self, worker_num: u8, requested_range: ByteRange, reuse: bool) -> (r:
        Result<EngineAction, String>)
        requires
            old(self).wf(),
            old(self).byte_range_tree matches Some(t) ==> (search_leaf(t@, requested_range) is Some ==> family(
                t@,
                requested_range,
            ) is Some),
        ensures
            final(self).wf(),
            final(self).reuse_worker_queue == old(self).reuse_worker_queue,
            final(self).spawned_workers == old(self).spawned_workers,
            match old(self).byte_range_tree {
                None => r == Ok::<EngineAction, String>(EngineAction::Nothing) && final(self).byte_range_tree is None
                    && final(self).workers == old(self).workers && final(self).pending_worker_handshakes
                    == old(self).pending_worker_handshakes,
                Some(t) => match family(t@, requested_range) {
                    None => r == Ok::<EngineAction, String>(EngineAction::Nothing) && final(self).byte_range_tree
                        == old(self).byte_range_tree && final(self).workers == old(self).workers
                        && final(self).pending_worker_handshakes == old(self).pending_worker_handshakes,
                    Some((p, l, rc)) => {
                        let t1 = with_status(t@, p as int, ByteRangeStatus::Outdated);
                        let t2 = with_status(
                            with_status(t1, l as int, ByteRangeStatus::InUse),
                            rc as int,
                            ByteRangeStatus::InUse,
                        );
                        let rw = t@.nodes[rc as int].worker_number;
                        let rr = t@.nodes[rc as int].range;
                        if reuse {
                            &&& final(self).workers == old(self).workers
                            &&& final(self).pending_worker_handshakes == old(self).pending_worker_handshakes
                            &&& match entry_index(old(self).workers@, rw) {
                                None => r matches Err(e) && e@ == reuse_error_text(rw) && tree_of(
                                    final(self).byte_range_tree,
                                ) == Some(t1),
                                Some(_) => r == Ok::<EngineAction, String>(EngineAction::StartReuse(rw, rr))
                                    && tree_of(final(self).byte_range_tree) == Some(t2),
                            }
                        } else {
                            &&& r == Ok::<EngineAction, String>(EngineAction::Spawn(rw, rr))
                            &&& tree_of(final(self).byte_range_tree) == Some(t2)
                            &&& final(self).workers@ == with_entry(
                                old(self).workers@,
                                rw,
                                WorkerEntry { worker_number: rw, range: rr, awaiting_reset_response: false },
                            )
                            &&& final(self).pending_worker_handshakes@ == old(
                                self,
                            ).pending_worker_handshakes@.push(rw).push(rw)
                        }
                    },
                },
            },
            *final(self) == (HttpDownloadEngine {
                workers: final(self).workers,
                byte_range_tree: final(self).byte_range_tree,
                pending_worker_handshakes: final(self).pending_worker_handshakes,
                ..*old(self)
            }),
    {
        let mut tree = match self.byte_range_tree.take() {
            None => {
                return Ok(EngineAction::Nothing);
            },
            Some(t) => t,
        };
        let ghost t0 = tree@;
        let (p, l, rc) = match tree.family_of(requested_range) {
            None => {
                self.byte_range_tree = Some(tree);
                return Ok(EngineAction::Nothing);
            },
            Some(f) => f,
        };
        tree.set_status(p, ByteRangeStatus::Outdated);
        let ghost t1 = tree@;
        let rw = tree.nodes[rc].worker_number;
        let rr = tree.nodes[rc].range;
        if reuse {
            match self.find_worker(rw) {
                None => {
                    self.byte_range_tree = Some(tree);
                    return Err(message_with_number(
                        "Failed to find worker ",
                        rw,
                        " when sending start command reuse worker",
                    ));
                },
                Some(_) => {},
            }
            tree.set_status(l, ByteRangeStatus::InUse);
            tree.set_status(rc, ByteRangeStatus::InUse);
            self.byte_range_tree = Some(tree);
            Ok(EngineAction::StartReuse(rw, rr))
        } else {
            self.byte_range_tree = Some(tree);
            self.spawn_worker(rw, rc);
            self.pending_worker_handshakes.push(rw);
            let mut tree = self.byte_range_tree.take().unwrap();
            tree.set_status(l, ByteRangeStatus::InUse);
            tree.set_status(rc, ByteRangeStatus::InUse);
            proof {
                let t2 = with_status(
                    with_status(t1, l as int, ByteRangeStatus::InUse),
                    rc as int,
                    ByteRangeStatus::InUse,
                );
                assert(tree@.nodes =~= t2.nodes);
            }
            self.byte_range_tree = Some(tree);
            Ok(EngineAction::Spawn(rw, rr))
        }
    }

    /// Handles worker `worker_num` refusing the range split off for it: a reused
    /// worker goes back to the reuse queue, and the split is undone among the
    /// leaves (see `spec_refused_tree`). Nothing happens where there is no tree or
    /// no leaf has `requested_range`; a leaf that has it must have a parent with
    /// two children.
    pub fn handle_refresh_byte_range_refused(&mut self, worker_num: u8, requested_range: ByteRange, reuse: bool)
        requires
            old(self).wf(),
            old(self).byte_range_tree matches Some(t) ==> (search_leaf(t@, requested_range) is Some ==> family(
                t@,
                requested_range,
            ) is Some),
        ensures
            final(self).wf(),
            final(self).workers == old(self).workers,
            final(self).pending_worker_handshakes == old(self).pending_worker_handshakes,
            final(self).spawned_workers == old(self).spawned_workers,
            match old(self).byte_range_tree {
                None => final(self).byte_range_tree is None && final(self).reuse_worker_queue
                    == old(self).reuse_worker_queue,
                Some(t) => match family(t@, requested_range) {
                    None => final(self).byte_range_tree == old(self).byte_range_tree
                        && final(self).reuse_worker_queue == old(self).reuse_worker_queue,
                    Some((p, l, rc)) => {
                        &&& final(self).reuse_worker_queue@ == if reuse {
                            old(self).reuse_worker_queue@.push(worker_num)
                        } else {
                            old(self).reuse_worker_queue@
                        }
                        &&& tree_of(final(self).byte_range_tree) == Some(spec_refused_tree(t@, p, l, rc))
                    },
                },
            },
            *final(self) == (HttpDownloadEngine {
                byte_range_tree: final(self).byte_range_tree,
                reuse_worker_queue: final(self).reuse_worker_queue,
                ..*old(self)
            }),
    {
        let mut tree = match self.byte_range_tree.take() {
            None => {
                return ;
            },
            Some(t) => t,
        };
        let (p, l, rc) = match tree.family_of(requested_range) {
            None => {
                self.byte_range_tree = Some(tree);
                return ;
            },
            Some(f) => f,
        };
        if reuse {
            self.reuse_worker_queue.push(worker_num);
        }
        let left_range = tree.nodes[l].range;
        let right_range = tree.nodes[rc].range;
        match tree.find_leaf_with_range(left_range) {
            None => {},
            Some(idx) => {
                proof {
                    let lv = tree@.leaf_ranges();
                    let c = choose|j: int| is_first_index(lv, left_range, j);
                    assert(is_first_index(lv, left_range, c));
                    assert(first_index(lv, left_range) == Some(c));
                    assert(lv.len() == tree@.lowest.len());
                    assert(c < tree.lowest_level_nodes.len());
                    assert(idx as int == c);
                }
                tree.insert_leaf(idx, p);
                tree.remove_leaf_with_range(left_range);
                tree.remove_leaf_with_range(right_range);
            },
        }
        self.byte_range_tree = Some(tree);
    }

    /// Handles worker `worker_num` keeping `refreshed` of its range and offering
    /// the rest, `new_valid`: the worker's entry takes `refreshed` (failing where it
    /// has none), the tree changes as `spec_overlap_tree` says, and the worker of
    /// the right child is sent `StartReuseConnection(new_valid)` where the
    /// connection is reused (failing where that worker has no entry), its node then
    /// in use, and is spawned otherwise. Nothing happens where there is no tree or
    /// no leaf has `requested_range`; a leaf that has it must have a parent with two
    /// children where the worker has an entry.
    pub fn handle_refresh_byte_range_overlap(
        &mut self,
        worker_num: u8,
        requested_range: ByteRange,
        refreshed_range: ByteRange,
        new_valid_range: ByteRange,
        reuse: bool,
    ) -> (r: Result<EngineAction, String>)
        requires
            old(self).wf(),
            old(self).byte_range_tree matches Some(t) ==> (search_leaf(t@, requested_range) is Some ==> (entry_index(
                old(self).workers@,
                worker_num,
            ) is Some ==> family(t@, requested_range) is Some)),
        ensures
            final(self).wf(),
            final(self).reuse_worker_queue == old(self).reuse_worker_queue,
            final(self).spawned_workers == old(self).spawned_workers,
            match old(self).byte_range_tree {
                None => r == Ok::<EngineAction, String>(EngineAction::Nothing) && final(self).byte_range_tree is None
                    && final(self).workers == old(self).workers && final(self).pending_worker_handshakes
                    == old(self).pending_worker_handshakes,
                Some(t) => match family(t@, requested_range) {
                    None => r == Ok::<EngineAction, String>(EngineAction::Nothing) && final(self).byte_range_tree
                        == old(self).byte_range_tree && final(self).workers == old(self).workers
                        && final(self).pending_worker_handshakes == old(self).pending_worker_handshakes,
                    Some((p, l, rc)) => match entry_index(old(self).workers@, worker_num) {
                        None => {
                            &&& r matches Err(e) && e@ == update_error_text(worker_num)
                            &&& final(self).byte_range_tree == old(self).byte_range_tree
                            &&& final(self).workers == old(self).workers
                            &&& final(self).pending_worker_handshakes == old(self).pending_worker_handshakes
                        },
                        Some(i) => {
                            let ws1 = old(self).workers@.update(
                                i,
                                WorkerEntry { range: refreshed_range, ..old(self).workers@[i] },
                            );
                            let t1 = spec_overlap_tree(t@, p, l, rc, refreshed_range, new_valid_range);
                            let nw = t@.nodes[rc as int].worker_number;
                            if reuse {
                                &&& final(self).workers@ == ws1
                                &&& final(self).pending_worker_handshakes == old(self).pending_worker_handshakes
                                &&& match entry_index(ws1, nw) {
                                    None => r matches Err(e) && e@ == reuse_error_text(nw) && tree_of(
                                        final(self).byte_range_tree,
                                    ) == Some(t1),
                                    Some(_) => r == Ok::<EngineAction, String>(
                                        EngineAction::StartReuse(nw, new_valid_range),
                                    ) && tree_of(final(self).byte_range_tree) == Some(
                                        with_status(t1, rc as int, ByteRangeStatus::InUse),
                                    ),
                                }
                            } else {
                                &&& r == Ok::<EngineAction, String>(EngineAction::Spawn(nw, new_valid_range))
                                &&& tree_of(final(self).byte_range_tree) == Some(
                                    with_status(t1, rc as int, ByteRangeStatus::InUse),
                                )
                                &&& final(self).workers@ == with_entry(
                                    ws1,
                                    nw,
                                    WorkerEntry {
                                        worker_number: nw,
                                        range: new_valid_range,
                                        awaiting_reset_response: false,
                                    },
                                )
                                &&& final(self).pending_worker_handshakes@ == old(
                                    self,
                                ).pending_worker_handshakes@.push(nw)
                            }
                        },
                    },
                },
            },
            *final(self) == (HttpDownloadEngine {
                workers: final(self).workers,
                byte_range_tree: final(self).byte_range_tree,
                pending_worker_handshakes: final(self).pending_worker_handshakes,
                ..*old(self)
            }),
    {
        let mut tree = match self.byte_range_tree.take() {
            None => {
                return Ok(EngineAction::Nothing);
            },
            Some(t) => t,
        };
        let (p, l, rc) = match tree.family_of(requested_range) {
            None => {
                self.byte_range_tree = Some(tree);
                return Ok(EngineAction::Nothing);
            },
            Some(f) => f,
        };
        self.byte_range_tree = Some(tree);
        if self.update_worker_range(worker_num, refreshed_range).is_err() {
            return Err(message_with_number("Failed to find worker ", worker_num, " updating refreshed range"));
        }
        let mut tree = self.byte_range_tree.take().unwrap();
        tree.set_range(l, refreshed_range);
        tree.set_status(l, ByteRangeStatus::InUse);
        tree.set_status(rc, ByteRangeStatus::ReuseRequested);
        tree.set_range(rc, new_valid_range);
        let nw = tree.nodes[rc].worker_number;
        tree.set_status(p, ByteRangeStatus::Outdated);
        if reuse {
            match self.find_worker(nw) {
                None => {
                    self.byte_range_tree = Some(tree);
                    return Err(message_with_number(
                        "Failed to find worker ",
                        nw,
                        " when sending start command reuse worker",
                    ));
                },
                Some(_) => {},
            }
            tree.set_status(rc, ByteRangeStatus::InUse);
            self.byte_range_tree = Some(tree);
            Ok(EngineAction::StartReuse(nw, new_valid_range))
        } else {
            self.byte_range_tree = Some(tree);
            let range = self.spawn_worker(nw, rc);
            Ok(EngineAction::Spawn(nw, range))
        }
    }
}

/// Where leaves tile and each holds at least one byte, a leaf before another ends
/// before the later one starts.
proof fn lemma_tiles_ordered(s: Seq<ByteRange>, j: int, k: int)
    requires
        tiles(s),
        forall|i: int| 0 <= i < s.len() ==> #[trigger] s[i].start <= s[i].end,
        0 <= j < k < s.len(),
    ensures
        s[j].end < s[k].start,
    decreases k - j,
{
    assert(s[j].end + 1 == s[j + 1].start);
    if j + 1 < k {
        assert(s[j + 1].start <= s[j + 1].end);
        lemma_tiles_ordered(s, j + 1, k);
    }
}

/// No leaf before the first leaf of `node`'s range has the range of either half
/// that a split of `node` makes.
pub open spec fn halves_new_before_split(t: TreeModel, node: usize) -> bool {
    let s = t.leaf_ranges();
    let r = t.nodes[node as int].range;
    match (first_index(s, r), split_plan(r)) {
        (Some(k), Some((lr, rr))) => forall|j: int| 0 <= j < k ==> #[trigger] s[j] != lr && s[j] != rr,
        _ => true,
    }
}

/// Where a split of `node` succeeds, it puts the two halves in place of the first
/// leaf of `node`'s range, at its position `k`, and keeps every other range; where
/// no leaf before that one has the range of a half, `family` finds the node and
/// both halves from the left half's range.
proof fn lemma_split_leaf_layout(t: TreeModel, node: usize, set_worker_num: bool) -> (k: int)
    requires
        t.wf(),
        node < t.nodes.len(),
        t.nodes.len() + 2 <= usize::MAX,
        spec_split_node(t, node, set_worker_num).1,
        halves_new_before_split(t, node),
    ensures
        ({
            let t1 = spec_split_node(t, node, set_worker_num).0;
            let n = t.nodes.len() as usize;
            let s = t.leaf_ranges();
            let s1 = t1.leaf_ranges();
            let r = t.nodes[node as int].range;
            &&& is_first_index(s, r, k)
            &&& t1.lowest == t.lowest.take(k) + seq![(n + 1) as usize, n as usize] + t.lowest.skip(k + 1)
            &&& t1.lowest.len() == t.lowest.len() + 1
            &&& forall|j: int| 0 <= j < k ==> #[trigger] t1.lowest[j] == t.lowest[j]
            &&& forall|j: int| k + 2 <= j < t1.lowest.len() ==> #[trigger] t1.lowest[j] == t.lowest[j - 1]
            &&& t1.lowest[k] == (n + 1) as usize
            &&& t1.lowest[k + 1] == n
            &&& t1.nodes.len() == n + 2
            &&& forall|j: int| 0 <= j < t.lowest.len() ==> #[trigger] t.lowest[j] < n
            &&& forall|i: int| 0 <= i < n ==> #[trigger] t1.nodes[i].range == t.nodes[i].range
            &&& s1.len() == s.len() + 1
            &&& forall|j: int| 0 <= j < k ==> #[trigger] s1[j] == s[j]
            &&& forall|j: int| k + 2 <= j < s1.len() ==> #[trigger] s1[j] == s[j - 1]
            &&& forall|j: int| 0 <= j < k ==> #[trigger] s[j] != t1.nodes[n + 1].range && s[j] != t1.nodes[n as int].range
            &&& s1[k] == t1.nodes[n + 1].range
            &&& s1[k + 1] == t1.nodes[n as int].range
            &&& t1.nodes[n + 1].range.start == r.start
            &&& t1.nodes[n + 1].range.end + 1 == t1.nodes[n as int].range.start
            &&& t1.nodes[n as int].range.end == r.end
            &&& t1.nodes[n + 1].range.start + 1 < t1.nodes[n + 1].range.end
            &&& t1.nodes[n as int].range.start + 1 < t1.nodes[n as int].range.end
            &&& is_first_index(s1, t1.nodes[n + 1].range, k)
            &&& family(t1, t1.nodes[n + 1].range) == Some((node, (n + 1) as usize, n))
        }),
{
    let s = t.leaf_ranges();
    let r = t.nodes[node as int].range;
    let n = t.nodes.len() as int;
    let t1 = spec_split_node(t, node, set_worker_num).0;
    let (lr, rr) = split_plan(r)->0;
    assert(first_index(s, r) is Some);
    assert(exists|k: int| is_first_index(s, r, k));
    let k = choose|k: int| is_first_index(s, r, k);
    assert(first_index(s, r) == Some(k));
    assert forall|j: int| 0 <= j < t.lowest.len() implies #[trigger] t.lowest[j] < n by {
        assert(t.lowest[j] < t.nodes.len());
    }
    assert forall|i: int| 0 <= i < n implies #[trigger] t1.nodes[i].range == t.nodes[i].range by {}
    assert(t1.lowest == t.lowest.take(k) + seq![(n + 1) as usize, n as usize] + t.lowest.skip(k + 1));
    assert(t1.nodes[n + 1].range == lr);
    assert(t1.nodes[n].range == rr);
    let s1 = t1.leaf_ranges();
    assert(s1.len() == s.len() + 1);
    assert forall|j: int| 0 <= j < k implies #[trigger] s1[j] == s[j] by {
        assert(t1.lowest[j] == t.lowest[j]);
        assert(t.lowest[j] < n);
    }
    assert forall|j: int| k + 2 <= j < s1.len() implies #[trigger] s1[j] == s[j - 1] by {
        assert(t1.lowest[j] == t.lowest[j - 1]);
        assert(t.lowest[j - 1] < n);
    }
    assert(s1[k] == lr);
    assert(s1[k + 1] == rr);
    assert forall|j: int| 0 <= j < k implies #[trigger] s[j] != lr && s[j] != rr by {
        assert(halves_new_before_split(t, node));
    }
    assert forall|j: int| 0 <= j < k implies s1[j] != lr by {
        assert(s1[j] == s[j]);
        assert(s[j] != lr && s[j] != rr);
    }
    assert(is_first_index(s1, lr, k));
    lemma_first_index_is(s1, lr, k);
    assert(t1.lowest[k] == (n + 1) as usize);
    assert(search_leaf(t1, lr) == Some((n + 1) as usize));
    assert(t1.nodes[n + 1].parent == Some(node));
    assert(t1.nodes[node as int].left_child == Some((n + 1) as usize));
    assert(t1.nodes[node as int].right_child == Some(n as usize));
    k
}

/// Undoing, as `spec_refused_tree` does, the split that put the halves `n + 1`
/// and `n` of node `node` in place of the leaf at position `k` of `t` puts `node`
/// at that position and gives back the other leaves of `t`.
proof fn lemma_refused_restores_at(t: TreeModel, t1: TreeModel, k: int, node: usize, n: usize)
    requires
        0 <= k < t.lowest.len(),
        n + 2 <= usize::MAX,
        node < n,
        t1.nodes.len() == n + 2,
        forall|j: int| 0 <= j < t.lowest.len() ==> #[trigger] t.lowest[j] < n,
        forall|i: int| 0 <= i < n ==> #[trigger] t1.nodes[i].range == t.nodes[i].range,
        t.leaf_ranges()[k] == t.nodes[node as int].range,
        t1.lowest == t.lowest.take(k) + seq![(n + 1) as usize, n] + t.lowest.skip(k + 1),
        forall|j: int| 0 <= j < k ==> #[trigger] t1.leaf_ranges()[j] == t.leaf_ranges()[j],
        forall|j: int| 0 <= j < k ==> #[trigger] t.leaf_ranges()[j] != t1.nodes[n + 1].range
            && t.leaf_ranges()[j] != t1.nodes[n as int].range,
        t1.nodes[n + 1].range.start == t.nodes[node as int].range.start,
        t1.nodes[n + 1].range.start + 1 < t1.nodes[n + 1].range.end,
        t1.nodes[n as int].range.start + 1 < t1.nodes[n as int].range.end,
        t1.nodes[n + 1].range.end + 1 == t1.nodes[n as int].range.start,
        t1.nodes[n as int].range.end == t.nodes[node as int].range.end,
        is_first_index(t1.leaf_ranges(), t1.nodes[n + 1].range, k),
    ensures
        spec_refused_tree(t1, node, (n + 1) as usize, n).lowest == t.lowest.update(k, node),
        spec_refused_tree(t1, node, (n + 1) as usize, n).leaf_ranges() == t.leaf_ranges(),
{
    let s = t.leaf_ranges();
    let r = t.nodes[node as int].range;
    let lr = t1.nodes[n + 1].range;
    let rr = t1.nodes[n as int].range;
    let s1 = t1.leaf_ranges();
    lemma_first_index_is(s1, lr, k);
    // Undoing: the split node goes back in front of its halves ...
    let ta = TreeModel { lowest: t1.lowest.insert(k, node), ..t1 };
    let sa = ta.leaf_ranges();
    assert(ta.lowest =~= t.lowest.take(k) + seq![node, (n + 1) as usize, n] + t.lowest.skip(k + 1));
    assert forall|j: int| 0 <= j < k implies sa[j] == s[j] by {
        assert(ta.lowest[j] == t1.lowest[j]);
        assert(s1[j] == s[j]);
    }
    assert(sa[k] == r);
    assert(sa[k + 1] == lr);
    assert(sa[k + 2] == rr);
    assert(r != lr);
    assert forall|j: int| 0 <= j < k + 1 implies sa[j] != lr by {
        if j < k {
            assert(s[j] != lr);
        }
    }
    assert(is_first_index(sa, lr, k + 1));
    lemma_first_index_is(sa, lr, k + 1);
    // ... the left half leaves ...
    let tb = drop_leaf_with_range(ta, lr);
    assert(tb.lowest =~= t.lowest.take(k) + seq![node, n] + t.lowest.skip(k + 1));
    let sb = tb.leaf_ranges();
    assert forall|j: int| 0 <= j < k implies sb[j] == s[j] by {
        assert(tb.lowest[j] == ta.lowest[j]);
        assert(sa[j] == s[j]);
    }
    assert(sb[k] == r);
    assert(sb[k + 1] == rr);
    assert(r != rr);
    assert forall|j: int| 0 <= j < k + 1 implies sb[j] != rr by {
        if j < k {
            assert(s[j] != rr);
        }
    }
    assert(is_first_index(sb, rr, k + 1));
    lemma_first_index_is(sb, rr, k + 1);
    // ... and so does the right half.
    let tc = drop_leaf_with_range(tb, rr);
    assert(tc.lowest =~= t.lowest.take(k) + seq![node] + t.lowest.skip(k + 1));
    assert(tc.lowest =~= t.lowest.update(k, node));
    let sc = tc.leaf_ranges();
    assert forall|j: int| 0 <= j < s.len() implies #[trigger] sc[j] == s[j] by {
        if j != k {
            assert(tc.lowest[j] == t.lowest[j]);
            assert(t.lowest[j] < n);
        }
    }
    assert(sc =~= s);
}

/// A refused refresh undoes a split among the leaves: after a split of `node`, the
/// refusal of its left half's range finds the split node and both halves, and
/// gives back the ranges the leaves had before the split, with `node` in the place
/// of the leaf that the split replaced (so the very leaves, where that leaf was
/// `node`). This holds where no leaf before that one has the range of a half,
/// which holds in every tree whose leaves tile (`lemma_tiling_keeps_halves_new`).
pub proof fn lemma_refused_undoes_split(t: TreeModel, node: usize, set_worker_num: bool)
    requires
        t.wf(),
        node < t.nodes.len(),
        t.nodes.len() + 2 <= usize::MAX,
        spec_split_node(t, node, set_worker_num).1,
        halves_new_before_split(t, node),
    ensures
        ({
            let t1 = spec_split_node(t, node, set_worker_num).0;
            let n = t.nodes.len() as usize;
            let undone = spec_refused_tree(t1, node, (n + 1) as usize, n);
            &&& family(t1, t1.nodes[n + 1].range) == Some((node, (n + 1) as usize, n))
            &&& undone.leaf_ranges() == t.leaf_ranges()
            &&& search_leaf(t, t.nodes[node as int].range) == Some(node) ==> undone.lowest == t.lowest
        }),
{
    let k = lemma_split_leaf_layout(t, node, set_worker_num);
    let t1 = spec_split_node(t, node, set_worker_num).0;
    let n = t.nodes.len() as usize;
    lemma_refused_restores_at(t, t1, k, node, n);
    lemma_first_index_is(t.leaf_ranges(), t.nodes[node as int].range, k);
    if search_leaf(t, t.nodes[node as int].range) == Some(node) {
        assert(t.lowest[k] == node);
        assert(t.lowest.update(k, node) =~= t.lowest);
    }
}

/// The tree `spec_overlap_tree` makes keeps the leaves and every node's range but
/// those of the two children, which take the kept and the offered range.
proof fn lemma_overlap_tree_ranges(
    t: TreeModel,
    p: usize,
    l: usize,
    rc: usize,
    refreshed: ByteRange,
    new_valid: ByteRange,
)
    requires
        p < t.nodes.len(),
        l < t.nodes.len(),
        rc < t.nodes.len(),
        l != rc,
    ensures
        ({
            let t2 = spec_overlap_tree(t, p, l, rc, refreshed, new_valid);
            &&& t2.lowest == t.lowest
            &&& t2.nodes.len() == t.nodes.len()
            &&& t2.nodes[l as int].range == refreshed
            &&& t2.nodes[rc as int].range == new_valid
            &&& forall|i: int| 0 <= i < t.nodes.len() && i != l && i != rc ==> #[trigger] t2.nodes[i].range
                == t.nodes[i].range
        }),
{
}

/// Replacing the range at position `k` of a tiling by two ranges that tile it keeps
/// the tiling of the same span.
proof fn lemma_replace_keeps_tiling(s: Seq<ByteRange>, s2: Seq<ByteRange>, k: int, start: u64, end: u64)
    requires
        tiles_span(s, start, end),
        0 <= k < s.len(),
        s2.len() == s.len() + 1,
        forall|j: int| 0 <= j < k ==> #[trigger] s2[j] == s[j],
        forall|j: int| k + 2 <= j < s2.len() ==> #[trigger] s2[j] == s[j - 1],
        s2[k].start == s[k].start,
        s2[k].end + 1 == s2[k + 1].start,
        s2[k + 1].end == s[k].end,
    ensures
        tiles_span(s2, start, end),
{
    assert forall|i: int| 0 <= i < s2.len() - 1 implies #[trigger] s2[i].end + 1 == s2[i + 1].start by {
        if i < k - 1 {
            assert(s2[i] == s[i] && s2[i + 1] == s[i + 1]);
            assert(s[i].end + 1 == s[i + 1].start);
        } else if i == k - 1 {
            assert(s2[i] == s[i]);
            assert(s[k - 1].end + 1 == s[k].start);
        } else if i == k {
        } else if i == k + 1 {
            assert(s2[k + 2] == s[k + 1]);
            assert(s[k].end + 1 == s[k + 1].start);
        } else {
            assert(s2[i] == s[i - 1] && s2[i + 1] == s[i]);
            assert(s[i - 1].end + 1 == s[i].start);
        }
    }
    if k > 0 {
        assert(s2[0] == s[0]);
    }
    if k < s.len() - 1 {
        assert(s2[s2.len() - 1] == s[s.len() - 1]);
    }
}

/// The leaves of `spec_overlap_tree` of `t1`, where `t1` holds the leaves of `t`
/// with the leaf at `k` replaced by the halves `n + 1` and `n`, tile the span of
/// the leaves of `t`.
proof fn lemma_overlap_tiles_at(
    t: TreeModel,
    t1: TreeModel,
    k: int,
    node: usize,
    n: usize,
    refreshed: ByteRange,
    new_valid: ByteRange,
    start: u64,
    end: u64,
)
    requires
        tiles_span(t.leaf_ranges(), start, end),
        0 <= k < t.lowest.len(),
        n == t.nodes.len(),
        n + 2 <= usize::MAX,
        node < n,
        t1.nodes.len() == n + 2,
        t1.lowest.len() == t.lowest.len() + 1,
        forall|j: int| 0 <= j < t.lowest.len() ==> #[trigger] t.lowest[j] < n,
        forall|j: int| 0 <= j < k ==> #[trigger] t1.lowest[j] == t.lowest[j],
        forall|j: int| k + 2 <= j < t1.lowest.len() ==> #[trigger] t1.lowest[j] == t.lowest[j - 1],
        t1.lowest[k] == (n + 1) as usize,
        t1.lowest[k + 1] == n,
        forall|j: int| 0 <= j < k ==> #[trigger] t1.leaf_ranges()[j] == t.leaf_ranges()[j],
        forall|j: int| k + 2 <= j < t1.leaf_ranges().len() ==> #[trigger] t1.leaf_ranges()[j] == t.leaf_ranges()[j - 1],
        refreshed.start == t.leaf_ranges()[k].start,
        refreshed.end + 1 == new_valid.start,
        new_valid.end == t.leaf_ranges()[k].end,
    ensures
        tiles_span(spec_overlap_tree(t1, node, (n + 1) as usize, n, refreshed, new_valid).leaf_ranges(), start, end),
{
    let s = t.leaf_ranges();
    let s1 = t1.leaf_ranges();
    let t2 = spec_overlap_tree(t1, node, (n + 1) as usize, n, refreshed, new_valid);
    lemma_overlap_tree_ranges(t1, node, (n + 1) as usize, n, refreshed, new_valid);
    let s2 = t2.leaf_ranges();
    assert(s2.len() == s.len() + 1);
    assert forall|j: int| 0 <= j < k implies #[trigger] s2[j] == s[j] by {
        let i = t.lowest[j];
        assert(i < n);
        assert(t1.lowest[j] == i);
        assert(t2.lowest[j] == i);
        assert(s2[j] == t2.nodes[i as int].range);
        assert(s1[j] == t1.nodes[i as int].range);
        assert(t2.nodes[i as int].range == t1.nodes[i as int].range);
        assert(s1[j] == s[j]);
    }
    assert forall|j: int| k + 2 <= j < s2.len() implies #[trigger] s2[j] == s[j - 1] by {
        let i = t.lowest[j - 1];
        assert(i < n);
        assert(t1.lowest[j] == i);
        assert(t2.lowest[j] == i);
        assert(s2[j] == t2.nodes[i as int].range);
        assert(s1[j] == t1.nodes[i as int].range);
        assert(t2.nodes[i as int].range == t1.nodes[i as int].range);
        assert(s1[j] == s[j - 1]);
    }
    assert(s2[k] == refreshed);
    assert(s2[k + 1] == new_valid);
    lemma_replace_keeps_tiling(s, s2, k, start, end);
}

/// Where the leaves tile and each holds at least one byte, the premise of
/// `lemma_refused_undoes_split` holds for every node: no leaf before the first
/// leaf of `node`'s range has the range of a half of a split of `node`. So in
/// such a tree a refused refresh puts the leaves back as they were.
pub proof fn lemma_tiling_keeps_halves_new(t: TreeModel, node: usize)
    requires
        tiles(t.leaf_ranges()),
        forall|i: int| 0 <= i < t.leaf_ranges().len() ==> #[trigger] t.leaf_ranges()[i].start <= t.leaf_ranges()[i].end,
    ensures
        halves_new_before_split(t, node),
{
    let s = t.leaf_ranges();
    let r = t.nodes[node as int].range;
    if first_index(s, r) is Some && split_plan(r) is Some {
        let k = first_index(s, r)->0;
        let (lr, rr) = split_plan(r)->0;
        assert(exists|k: int| is_first_index(s, r, k));
        assert(is_first_index(s, r, k));
        assert forall|j: int| 0 <= j < k implies #[trigger] s[j] != lr && s[j] != rr by {
            lemma_tiles_ordered(s, j, k);
        }
    }
}

/// In a tree whose leaves tile and each hold at least one byte, a refused refresh
/// undoes a split: after a split of `node`, the refusal of its left half's range
/// finds the split node and both halves and gives back the ranges the leaves had,
/// and the very leaves where the first leaf of `node`'s range was `node`.
pub proof fn lemma_refused_undoes_split_when_tiled(t: TreeModel, node: usize, set_worker_num: bool)
    requires
        t.wf(),
        node < t.nodes.len(),
        t.nodes.len() + 2 <= usize::MAX,
        spec_split_node(t, node, set_worker_num).1,
        tiles(t.leaf_ranges()),
        forall|i: int| 0 <= i < t.leaf_ranges().len() ==> #[trigger] t.leaf_ranges()[i].start <= t.leaf_ranges()[i].end,
    ensures
        ({
            let t1 = spec_split_node(t, node, set_worker_num).0;
            let n = t.nodes.len() as usize;
            let undone = spec_refused_tree(t1, node, (n + 1) as usize, n);
            &&& family(t1, t1.nodes[n + 1].range) == Some((node, (n + 1) as usize, n))
            &&& undone.leaf_ranges() == t.leaf_ranges()
            &&& search_leaf(t, t.nodes[node as int].range) == Some(node) ==> undone.lowest == t.lowest
        }),
{
    lemma_tiling_keeps_halves_new(t, node);
    lemma_refused_undoes_split(t, node, set_worker_num);
}

/// A worker's cut keeps the leaves tiling the file: after a leaf is split and the
/// request for its left half is answered with a cut whose kept range starts where
/// the left half starts and whose offered range starts right after it and ends
/// where the split leaf ended (as `lemma_refresh_answer` shows a worker of the
/// split leaf's range answers), the leaves of the tree the engine makes of it
/// (`spec_overlap_tree`) tile the same span as before. This holds where the leaves
/// tile and each holds at least one byte.
pub proof fn lemma_overlap_keeps_tiling(
    t: TreeModel,
    node: usize,
    set_worker_num: bool,
    refreshed: ByteRange,
    new_valid: ByteRange,
    start: u64,
    end: u64,
)
    requires
        t.wf(),
        node < t.nodes.len(),
        t.nodes.len() + 2 <= usize::MAX,
        t.lowest.contains(node),
        tiles_span(t.leaf_ranges(), start, end),
        forall|i: int| 0 <= i < t.leaf_ranges().len() ==> #[trigger] t.leaf_ranges()[i].start <= t.leaf_ranges()[i].end,
        spec_split_node(t, node, set_worker_num).1,
        refreshed.start == t.nodes[node as int].range.start,
        refreshed.end + 1 == new_valid.start,
        new_valid.end == t.nodes[node as int].range.end,
    ensures
        ({
            let t1 = spec_split_node(t, node, set_worker_num).0;
            let n = t.nodes.len() as usize;
            tiles_span(spec_overlap_tree(t1, node, (n + 1) as usize, n, refreshed, new_valid).leaf_ranges(), start, end)
        }),
{
    lemma_tiling_keeps_halves_new(t, node);
    let k = lemma_split_leaf_layout(t, node, set_worker_num);
    let t1 = spec_split_node(t, node, set_worker_num).0;
    lemma_overlap_tiles_at(t, t1, k, node, t.nodes.len() as usize, refreshed, new_valid, start, end);
}

/// The first position of `r` in `s` is `k` where `k` is its first position.
proof fn lemma_first_index_is(s: Seq<ByteRange>, r: ByteRange, k: int)
    requires
        is_first_index(s, r, k),
    ensures
        first_index(s, r) == Some(k),
{
    let c = choose|j: int| is_first_index(s, r, j);
    assert(is_first_index(s, r, c));
    if c < k {
        assert(s[c] != r);
    } else if c > k {
        assert(s[k] != r);
    }
}

/// After a handshake, the worker no longer awaits one, and every other pending
/// handshake is still awaited: `without(s, x)` holds no `x` and holds each other
/// value of `s`.
pub proof fn lemma_without_removes(s: Seq<u8>, x: u8)
    ensures
        !without(s, x).contains(x),
        forall|y: u8| y != x ==> (without(s, x).contains(y) <==> s.contains(y)),
    decreases s.len(),
{
    if s.len() > 0 {
        let rest = s.drop_last();
        lemma_without_removes(rest, x);
        assert forall|y: u8| y != x implies (without(s, x).contains(y) <==> s.contains(y)) by {
            if s.contains(y) {
                let j = choose|j: int| 0 <= j < s.len() && s[j] == y;
                if j < s.len() - 1 {
                    assert(rest[j] == y);
                    assert(rest.contains(y));
                }
            }
            if rest.contains(y) {
                let j = choose|j: int| 0 <= j < rest.len() && rest[j] == y;
                assert(s[j] == y);
            }
            if s.last() != x {
                let w = without(rest, x);
                assert(w.push(s.last())[w.len() as int] == s.last());
                if w.contains(y) {
                    let j = choose|j: int| 0 <= j < w.len() && w[j] == y;
                    assert(w.push(s.last())[j] == y);
                }
                if w.push(s.last()).contains(y) && s.last() != y {
                    let j = choose|j: int| 0 <= j < w.len() + 1 && w.push(s.last())[j] == y;
                    assert(w[j] == y);
                }
            }
        }
        if s.last() != x {
            let w = without(rest, x);
            if w.push(s.last()).contains(x) {
                let j = choose|j: int| 0 <= j < w.len() + 1 && w.push(s.last())[j] == x;
                assert(w[j] == x);
            }
        }
    }
}

/// Whether every worker has completed its range, by the statuses they report.
pub fn all_range_complete(statuses: &Vec<Status>) -> (b: bool)
    ensures
        b == forall|i: int| 0 <= i < statuses@.len() ==> #[trigger] statuses@[i] == Status::RangeComplete,
{
    let mut i: usize = 0;
    while i < statuses.len()
        invariant
            i <= statuses@.len(),
            forall|j: int| 0 <= j < i ==> #[trigger] statuses@[j] == Status::RangeComplete,
        decreases statuses@.len() - i,
    {
        if statuses[i] != Status::RangeComplete {
            return false;
        }
        i = i + 1;
    }
    true
}

/// The download speed of all workers together: the sum of their speeds.
pub fn total_speed(speeds: &Vec<u64>) -> (total: u64)
    requires
        sum_u64(speeds@) <= u64::MAX,
    ensures
        total == sum_u64(speeds@),
{
    let ghost ws = speeds@;
    let mut total: u64 = 0;
    let mut i: usize = 0;
    proof {
        lemma_sum_prefix(ws, 0);
    }
    while i < speeds.len()
        invariant
            ws == speeds@,
            i <= ws.len(),
            sum_u64(ws) <= u64::MAX,
            total == sum_u64(ws.take(i as int)),
        decreases ws.len() - i,
    {
        proof {
            assert(ws.take(i + 1).drop_last() =~= ws.take(i as int));
            lemma_sum_prefix(ws, i + 1);
        }
        total = total + speeds[i];
        i = i + 1;
    }
    assert(ws.take(ws.len() as int) =~= ws);
    total
}

impl HttpDownloadEngine {
    /// Settles an assembly that wrote `written_len` bytes: it succeeded where that
    /// is the size of the file, and the download is then complete; else nothing
    /// changes.
    pub fn finish_assembly(&mut self, written_len: u64) -> (success: bool)
        ensures
            success == (written_len == old(self).download_item.file_size),
            success ==> *final(self) == (HttpDownloadEngine { state: EngineState::Complete, ..*old(self) }),
            !success ==> *final(self) == *old(self),
    {
        let success = written_len == self.download_item.file_size;
        if success {
            self.state = EngineState::Complete;
        }
        success
    }
}

/// Setting a node's status keeps the ranges of the leaves.
proof fn lemma_with_status_keeps_ranges(t: TreeModel, i: int, status: ByteRangeStatus)
    requires
        t.wf(),
        0 <= i < t.nodes.len(),
    ensures
        with_status(t, i, status).leaf_ranges() == t.leaf_ranges(),
{
    let t2 = with_status(t, i, status);
    assert(t2.leaf_ranges() =~= t.leaf_ranges()) by {
        assert forall|k: int| 0 <= k < t.lowest.len() implies #[trigger] t2.leaf_ranges()[k] == t.leaf_ranges()[k] by {
            let j = t.lowest[k] as int;
            assert(j < t.nodes.len());
            if j == i {
                assert(t2.nodes[j].range == t.nodes[j].range);
            } else {
                assert(t2.nodes[j] == t.nodes[j]);
            }
        }
    }
}

/// A round of refreshes changes statuses only: the leaves keep their ranges.
proof fn lemma_refresh_round_keeps_ranges(t: TreeModel, ws: Seq<u8>)
    requires
        t.wf(),
    ensures
        refresh_round(t, ws).0.leaf_ranges() == t.leaf_ranges(),
        refresh_round(t, ws).0.wf(),
    decreases ws.len(),
{
    if ws.len() > 0 {
        match first_leaf_of_worker(t, ws[0]) {
            None => {},
            Some(k) => {
                let c = choose|j: int| crate::byte_range_tree::is_first_leaf_of_worker(t, ws[0], j);
                assert(crate::byte_range_tree::is_first_leaf_of_worker(t, ws[0], c));
                let node = t.lowest[k] as int;
                assert(node < t.nodes.len());
                let t1 = with_status(t, node, ByteRangeStatus::RefreshRequested);
                lemma_with_status_keeps_ranges(t, node, ByteRangeStatus::RefreshRequested);
                lemma_with_status_wf(t, node, ByteRangeStatus::RefreshRequested);
                lemma_refresh_round_keeps_ranges(t1, ws.drop_first());
            },
        }
    }
}

/// Setting a node's status keeps a tree well formed.
proof fn lemma_with_status_wf(t: TreeModel, i: int, status: ByteRangeStatus)
    requires
        t.wf(),
        0 <= i < t.nodes.len(),
    ensures
        with_status(t, i, status).wf(),
{
    let t2 = with_status(t, i, status);
    assert forall|j: int| 0 <= j < t2.nodes.len() implies {
        &&& node_links_in(#[trigger] t2.nodes[j], t2.nodes.len() as int)
        &&& (t2.nodes[j].left_child matches Some(c) ==> c > j)
        &&& (t2.nodes[j].right_child matches Some(c) ==> c > j)
    } by {
        if j != i {
            assert(t2.nodes[j] == t.nodes[j]);
        }
    }
}

/// Asking for a new worker keeps the leaves tiling: where the leaves of the tree
/// tile `[start, end]`, so do those of the tree after the split and the round of
/// refreshes that `request_byte_range_refresh_new_worker` makes, whatever the
/// workers.
pub proof fn lemma_new_worker_request_keeps_tiling(t: TreeModel, ws: Seq<u8>, start: u64, end: u64)
    requires
        t.wf(),
        split_defined(t),
        tiles_span(t.leaf_ranges(), start, end),
    ensures
        tiles_span(spec_split(t).0.leaf_ranges(), start, end),
        tiles_span(refresh_round(spec_split(t).0, ws).0.leaf_ranges(), start, end),
{
    crate::byte_range_tree::lemma_split_keeps_tiling(t, start, end);
    crate::byte_range_tree::lemma_split_keeps_wf(t);
    lemma_refresh_round_keeps_ranges(spec_split(t).0, ws);
}

/// Starting a download gives a tree whose leaves tile the root's range
/// `[0, file_size]`: the tree `handle_start` builds, with its root in use.
pub proof fn lemma_start_tree_tiles(file_size: u64, max_worker_num: u8, first_end: u64)
    requires
        file_size > 0,
        first_end < u64::MAX,
    ensures
        ({
            let m = spec_from_missing_bytes(file_size, max_worker_num, first_end);
            tiles_span(with_status(m, m.root as int, ByteRangeStatus::InUse).leaf_ranges(), 0, file_size)
        }),
{
    crate::byte_range_tree::lemma_from_missing_bytes_tiles(file_size, max_worker_num, first_end);
    let m = spec_from_missing_bytes(file_size, max_worker_num, first_end);
    lemma_with_status_keeps_ranges(m, m.root as int, ByteRangeStatus::InUse);
}

} // verus!
