//! The FAT32 volume mounted at `/mnt`: mount bookkeeping, name and path rules, and the
//! operations that find the volume on a disk (whole disk, MBR partition or GPT
//! partition) and act on it.
use vstd::prelude::*;

use crate::block::{copy_bytes, BlockDevice, Error as BlockError};
use crate::fat32::{self, has_dot_dot, intact, named_components, short_name_of, volume_sane, DirectoryEntry, Volume};
use crate::gpt;
use crate::page_cache::PageCache;
use crate::partition;
use crate::swap;
use crate::task::{component_end, lemma_component_end};
use vstd::string::StringSliceAdditionalSpecFns;

verus! {

/// Directory entry attribute: read-only.
pub const READ_ONLY_ATTRIBUTE: u8 = 0x01;

/// Directory entry attribute: directory.
pub const DIRECTORY_ATTRIBUTE: u8 = 0x10;

/// Deepest directory level imported at mount time.
pub const MAX_IMPORT_DEPTH: usize = 2;

/// Mount states, as stored.
pub const MOUNT_UNKNOWN: u8 = 0;
pub const MOUNT_NO_DEVICE: u8 = 1;
pub const MOUNT_NOT_FAT32: u8 = 2;
pub const MOUNT_MOUNTED: u8 = 3;
pub const MOUNT_FAILED: u8 = 4;
pub const MOUNT_UNMOUNTED: u8 = 5;

/// Where the `/mnt` volume is in its life.
#[derive(Clone, Copy, PartialEq, Eq, Structural, Debug)]
pub enum MountLifecycleStatus {
    Unknown,
    NoDevice,
    NotFat32,
    Mounted,
    Failed,
    Unmounted,
}

/// What is known of the `/mnt` mount.
#[derive(Clone, Copy, PartialEq, Eq, Structural, Debug)]
pub struct MountInfo {
    pub status: MountLifecycleStatus,
    pub imported_entries: usize,
    pub dirty: bool,
    pub sync_count: u64,
}

/// Why unmounting failed.
#[derive(Clone, Copy, PartialEq, Eq, Structural, Debug)]
pub enum MountControlError {
    NoDevice,
    NotMounted,
    SyncFailed,
    Failed,
}

/// Why free space could not be reported.
#[derive(Clone, Copy, PartialEq, Eq, Structural, Debug)]
pub enum SpaceError {
    Unmounted,
    NoDevice,
    NotFat32,
    Failed,
}

/// The outcome of mounting.
#[derive(Clone, Copy, PartialEq, Eq, Structural, Debug)]
pub enum MountStatus {
    NoDevice,
    NotFat32,
    Mounted(usize),
    Failed,
}

/// Why a path could not be brought in from the volume.
#[derive(Clone, Copy, PartialEq, Eq, Structural, Debug)]
pub enum EnsureError {
    Unmounted,
    NoDevice,
    NotFat32,
    NotFound,
    NotUnderMount,
    InvalidPath,
    TooLarge,
    Vfs,
    Failed,
}

/// Why a file or directory could not be written to the volume.
#[derive(Clone, Copy, PartialEq, Eq, Structural, Debug)]
pub enum PersistError {
    Unmounted,
    NotSupported,
    NotFound,
    NoDevice,
    BadName,
    TooLarge,
    Failed,
}

/// Why a delete or rename on the volume failed.
#[derive(Clone, Copy, PartialEq, Eq, Structural, Debug)]
pub enum MutationError {
    Unmounted,
    NotSupported,
    NotFound,
    NoDevice,
    BadName,
    AlreadyExists,
    NotEmpty,
    ReadOnly,
    Failed,
}

/// The outcome of the live mutation check.
#[derive(Clone, Copy, PartialEq, Eq, Debug)]
pub enum LiveMutationTestStatus {
    Skipped,
    Passed,
    Failed(&'static str),
}

/// The stored form of a mount outcome.
pub open spec fn spec_status_code(status: MountStatus) -> u8 {
    match status {
        MountStatus::NoDevice => MOUNT_NO_DEVICE,
        MountStatus::NotFat32 => MOUNT_NOT_FAT32,
        MountStatus::Mounted(_) => MOUNT_MOUNTED,
        MountStatus::Failed => MOUNT_FAILED,
    }
}

/// The life stage a stored code stands for.
pub open spec fn spec_lifecycle(code: u8) -> MountLifecycleStatus {
    if code == MOUNT_NO_DEVICE {
        MountLifecycleStatus::NoDevice
    } else if code == MOUNT_NOT_FAT32 {
        MountLifecycleStatus::NotFat32
    } else if code == MOUNT_MOUNTED {
        MountLifecycleStatus::Mounted
    } else if code == MOUNT_FAILED {
        MountLifecycleStatus::Failed
    } else if code == MOUNT_UNMOUNTED {
        MountLifecycleStatus::Unmounted
    } else {
        MountLifecycleStatus::Unknown
    }
}

pub fn status_code(status: MountStatus) -> (code: u8)
    ensures
        code == spec_status_code(status),
{
    match status {
        MountStatus::NoDevice => MOUNT_NO_DEVICE,
        MountStatus::NotFat32 => MOUNT_NOT_FAT32,
        MountStatus::Mounted(_) => MOUNT_MOUNTED,
        MountStatus::Failed => MOUNT_FAILED,
    }
}

pub fn lifecycle_from_code(code: u8) -> (status: MountLifecycleStatus)
    ensures
        status == spec_lifecycle(code),
{
    if code == MOUNT_NO_DEVICE {
        MountLifecycleStatus::NoDevice
    } else if code == MOUNT_NOT_FAT32 {
        MountLifecycleStatus::NotFat32
    } else if code == MOUNT_MOUNTED {
        MountLifecycleStatus::Mounted
    } else if code == MOUNT_FAILED {
        MountLifecycleStatus::Failed
    } else if code == MOUNT_UNMOUNTED {
        MountLifecycleStatus::Unmounted
    } else {
        MountLifecycleStatus::Unknown
    }
}

/// The bookkeeping of the `/mnt` mount.
pub struct MountState {
    pub status: u8,
    pub dirty: bool,
    pub imported: usize,
    pub syncs: u64,
}

impl MountState {
    pub fn new() -> (state: Self)
        ensures
            state.status == MOUNT_UNKNOWN,
            !state.dirty,
            state.imported == 0,
            state.syncs == 0,
    {
        MountState { status: MOUNT_UNKNOWN, dirty: false, imported: 0, syncs: 0 }
    }

    /// Records the outcome of a mount: the imported count when mounted, clean either way.
    pub fn record_mount_status(&mut self, status: MountStatus)
        ensures
            final(self).status == spec_status_code(status),
            final(self).imported == match status {
                MountStatus::Mounted(count) => count,
                _ => 0,
            },
            !final(self).dirty,
            final(self).syncs == old(self).syncs,
    {
        self.status = status_code(status);
        self.imported = match status {
            MountStatus::Mounted(count) => count,
            _ => 0,
        };
        self.dirty = false;
    }

    /// What is known of the mount.
    pub fn mount_info(&self) -> (info: MountInfo)
        ensures
            info == (MountInfo {
                status: spec_lifecycle(self.status),
                imported_entries: self.imported,
                dirty: self.dirty,
                sync_count: self.syncs,
            }),
    {
        MountInfo {
            status: lifecycle_from_code(self.status),
            imported_entries: self.imported,
            dirty: self.dirty,
            sync_count: self.syncs,
        }
    }

    /// Whether `/mnt` is mounted.
    pub fn mnt_mounted(&self) -> (mounted: bool)
        ensures
            mounted == (self.status == MOUNT_MOUNTED),
    {
        self.status == MOUNT_MOUNTED
    }

    /// Notes unsynced changes, when mounted.
    pub fn mark_mnt_dirty(&mut self)
        ensures
            final(self).dirty == (old(self).dirty || old(self).status == MOUNT_MOUNTED),
            final(self).status == old(self).status,
            final(self).imported == old(self).imported,
            final(self).syncs == old(self).syncs,
    {
        if self.mnt_mounted() {
            self.dirty = true;
        }
    }

    /// Notes that everything is synced.
    pub fn mark_mnt_clean(&mut self)
        ensures
            !final(self).dirty,
            final(self).status == old(self).status,
            final(self).imported == old(self).imported,
            final(self).syncs == old(self).syncs,
    {
        self.dirty = false;
    }

    /// Records the outcome of syncing every file: clean and counted on success, dirty on
    /// failure.
    pub fn record_sync(&mut self, synced: usize, failed: bool) -> (result: Result<usize, PersistError>)
        ensures
            failed ==> result == Err::<usize, PersistError>(PersistError::Failed)
                && final(self).dirty == (old(self).dirty || old(self).status == MOUNT_MOUNTED)
                && final(self).syncs == old(self).syncs,
            !failed ==> result == Ok::<usize, PersistError>(synced) && !final(self).dirty
                && final(self).syncs == old(self).syncs.wrapping_add(1),
            final(self).status == old(self).status,
            final(self).imported == old(self).imported,
    {
        if failed {
            self.mark_mnt_dirty();
            Err(PersistError::Failed)
        } else {
            self.mark_mnt_clean();
            self.syncs = self.syncs.wrapping_add(1);
            Ok(synced)
        }
    }

    /// Why a path cannot be brought in while `/mnt` is not mounted.
    pub fn unavailable_ensure_error(&self) -> (error: EnsureError)
        ensures
            error == match spec_lifecycle(self.status) {
                MountLifecycleStatus::NoDevice => EnsureError::NoDevice,
                MountLifecycleStatus::NotFat32 => EnsureError::NotFat32,
                MountLifecycleStatus::Failed => EnsureError::Failed,
                _ => EnsureError::Unmounted,
            },
    {
        match lifecycle_from_code(self.status) {
            MountLifecycleStatus::NoDevice => EnsureError::NoDevice,
            MountLifecycleStatus::NotFat32 => EnsureError::NotFat32,
            MountLifecycleStatus::Failed => EnsureError::Failed,
            _ => EnsureError::Unmounted,
        }
    }

    /// Why nothing can be persisted while `/mnt` is not mounted.
    pub fn unavailable_persist_error(&self) -> (error: PersistError)
        ensures
            error == if self.status == MOUNT_NO_DEVICE { PersistError::NoDevice } else { PersistError::Unmounted },
    {
        match lifecycle_from_code(self.status) {
            MountLifecycleStatus::NoDevice => PersistError::NoDevice,
            _ => PersistError::Unmounted,
        }
    }

    /// Why nothing can be changed while `/mnt` is not mounted.
    pub fn unavailable_mutation_error(&self) -> (error: MutationError)
        ensures
            error == if self.status == MOUNT_NO_DEVICE { MutationError::NoDevice } else { MutationError::Unmounted },
    {
        match lifecycle_from_code(self.status) {
            MountLifecycleStatus::NoDevice => MutationError::NoDevice,
            _ => MutationError::Unmounted,
        }
    }

    /// Why free space cannot be reported while `/mnt` is not mounted.
    pub fn unavailable_space_error(&self) -> (error: SpaceError)
        ensures
            error == match spec_lifecycle(self.status) {
                MountLifecycleStatus::NoDevice => SpaceError::NoDevice,
                MountLifecycleStatus::NotFat32 => SpaceError::NotFat32,
                MountLifecycleStatus::Failed => SpaceError::Failed,
                _ => SpaceError::Unmounted,
            },
    {
        match lifecycle_from_code(self.status) {
            MountLifecycleStatus::NoDevice => SpaceError::NoDevice,
            MountLifecycleStatus::NotFat32 => SpaceError::NotFat32,
            MountLifecycleStatus::Failed => SpaceError::Failed,
            _ => SpaceError::Unmounted,
        }
    }
}

/// What is known of the mount in `state`.
pub fn mount_info(state: &MountState) -> (info: MountInfo)
    ensures
        info.status == spec_lifecycle(state.status),
        info.imported_entries == state.imported,
        info.dirty == state.dirty,
        info.sync_count == state.syncs,
{
    state.mount_info()
}

/// Whether `/mnt` is mounted in `state`.
pub fn mnt_mounted(state: &MountState) -> (mounted: bool)
    ensures
        mounted == (state.status == MOUNT_MOUNTED),
{
    state.mnt_mounted()
}

/// Notes unsynced changes in `state`, when mounted.
pub fn mark_mnt_dirty(state: &mut MountState)
    ensures
        final(state).dirty == (old(state).dirty || old(state).status == MOUNT_MOUNTED),
        final(state).status == old(state).status,
{
    state.mark_mnt_dirty()
}

// ---- names and paths ----

/// "/mnt" as bytes.
pub open spec fn mnt_bytes() -> Seq<u8> {
    seq![0x2fu8, 0x6d, 0x6e, 0x74]
}

/// `path` is `/mnt` or lies below it.
pub open spec fn under_mnt(path: Seq<u8>) -> bool {
    path == mnt_bytes() || (path.len() >= 5 && path.subrange(0, 4) == mnt_bytes() && path[4] == 0x2f)
}

/// `path` lies strictly below `/mnt`.
pub open spec fn below_mnt(path: Seq<u8>) -> bool {
    path.len() >= 5 && path.subrange(0, 4) == mnt_bytes() && path[4] == 0x2f
}

fn starts_with_mnt(bytes: &[u8]) -> (starts: bool)
    ensures
        starts == (bytes@.len() >= 4 && bytes@.subrange(0, 4) == mnt_bytes()),
{
    if bytes.len() < 4 {
        return false;
    }
    let result = bytes[0] == 0x2f && bytes[1] == 0x6d && bytes[2] == 0x6e && bytes[3] == 0x74;
    proof {
        if result {
            assert(bytes@.subrange(0, 4) =~= mnt_bytes());
        } else {
            assert(bytes@.subrange(0, 4) != mnt_bytes() || !result) by {
                if bytes@.subrange(0, 4) == mnt_bytes() {
                    assert(bytes@.subrange(0, 4)[0] == bytes@[0]);
                    assert(bytes@.subrange(0, 4)[1] == bytes@[1]);
                    assert(bytes@.subrange(0, 4)[2] == bytes@[2]);
                    assert(bytes@.subrange(0, 4)[3] == bytes@[3]);
                }
            }
        }
    }
    result
}

/// Whether `path` is strictly below `/mnt`.
fn is_below_mnt(path: &[u8]) -> (below: bool)
    ensures
        below == below_mnt(path@),
{
    path.len() >= 5 && starts_with_mnt(path) && path[4] == 0x2f
}

/// Whether `path` is `/mnt` itself.
fn is_mnt(path: &[u8]) -> (mnt: bool)
    ensures
        mnt == (path@ == mnt_bytes()),
{
    let result = path.len() == 4 && starts_with_mnt(path);
    proof {
        if path@.len() == 4 {
            assert(path@.subrange(0, 4) =~= path@);
        }
    }
    result
}

/// Whether `path` is `/mnt` or below it.
pub fn mnt_path(path: &str) -> (under: bool)
    ensures
        under == under_mnt(path.spec_bytes()),
{
    let bytes = path.as_bytes();
    is_mnt(bytes) || is_below_mnt(bytes)
}

/// The lower-case form of a short-name byte.
pub open spec fn lower_char(byte: u8) -> Option<u8> {
    if 0x41 <= byte <= 0x5a {
        Some((byte + 0x20) as u8)
    } else if (0x61 <= byte <= 0x7a) || (0x30 <= byte <= 0x39) || byte == 0x5f || byte == 0x2d {
        Some(byte)
    } else {
        None
    }
}

pub fn to_lower(byte: u8) -> (lower: Option<u8>)
    ensures
        lower == lower_char(byte),
{
    if byte >= 0x41 && byte <= 0x5a {
        Some(byte + 0x20)
    } else if (byte >= 0x61 && byte <= 0x7a) || (byte >= 0x30 && byte <= 0x39) || byte == 0x5f || byte == 0x2d {
        Some(byte)
    } else {
        None
    }
}

/// Length of the run of non-space bytes of `bytes` from `from` up to `to`.
pub open spec fn run_length(bytes: Seq<u8>, from: int, to: int) -> int
    decreases to - from,
{
    if from >= to || bytes[from] == 0x20 {
        0
    } else {
        1 + run_length(bytes, from + 1, to)
    }
}

/// A run is no longer than the range it lies in.
proof fn lemma_run_length_bound(bytes: Seq<u8>, from: int, to: int)
    ensures
        0 <= run_length(bytes, from, to),
        from <= to ==> run_length(bytes, from, to) <= to - from,
    decreases to - from,
{
    if from < to && bytes[from] != 0x20 {
        lemma_run_length_bound(bytes, from + 1, to);
    }
}

/// Every byte of the leading non-space run of `bytes[from..to]` has a lower-case form.
pub open spec fn run_lowerable(bytes: Seq<u8>, from: int, to: int) -> bool {
    forall|k: int| 0 <= k < run_length(bytes, from, to) ==> #[trigger] lower_char(bytes[from + k]) is Some
}

/// Copies the lower-case form of the leading non-space bytes of `short[from..to]` into
/// `out` at `at`; `None` when one has no lower-case form.
fn lower_run(short: &[u8; 11], from: usize, to: usize, out: &mut [u8; 12], at: usize) -> (written: Option<usize>)
    requires
        from <= to <= 11,
        at + (to - from) <= 12,
    ensures
        written is Some ==> written->0 <= to - from,
        written is Some ==> written->0 == run_length(short@, from as int, to as int)
            && forall|k: int| 0 <= k < written->0 ==> #[trigger] final(out)@[at + k] == lower_char(short@[from + k])->0,
        written is Some ==> forall|k: int| 0 <= k < at ==> #[trigger] final(out)@[k] == old(out)@[k],
        written is Some <==> run_lowerable(short@, from as int, to as int),
        written is None ==> exists|k: int| 0 <= k < run_length(short@, from as int, to as int) && #[trigger] lower_char(short@[from + k]) is None,
{
    let mut i = from;
    while i < to && short[i] != 0x20
        invariant
            from <= i <= to <= 11,
            at + (to - from) <= 12,
            run_length(short@, from as int, to as int) == (i - from) + run_length(short@, i as int, to as int),
            forall|k: int| 0 <= k < i - from ==> #[trigger] lower_char(short@[from + k]) is Some,
            forall|k: int| 0 <= k < i - from ==> #[trigger] out@[at + k] == lower_char(short@[from + k])->0,
            forall|k: int| 0 <= k < at ==> #[trigger] out@[k] == old(out)@[k],
        decreases to - i,
    {
        match to_lower(short[i]) {
            Some(lower) => {
                out[at + (i - from)] = lower;
            },
            None => {
                assert(lower_char(short@[from + (i - from)]) is None);
                assert(run_length(short@, i as int, to as int) == 1 + run_length(short@, i + 1, to as int));
                proof {
                    lemma_run_length_bound(short@, i + 1, to as int);
                }
                return None;
            },
        }
        i = i + 1;
    }
    Some(i - from)
}

/// The lower-case display form of short name `short`: base, then `.` and extension
/// when there is one; `None` for an empty base or a byte without lower-case form.
pub fn short_name_to_str(short: &[u8; 11], out: &mut [u8; 12]) -> (length: Option<usize>)
    ensures
        length is Some ==> {
            let base = run_length(short@, 0, 8);
            let has_ext = exists|k: int| 8 <= k < 11 && short@[k] != 0x20;
            let ext = run_length(short@, 8, 11);
            &&& base > 0
            &&& (forall|k: int| 0 <= k < base ==> #[trigger] final(out)@[k] == lower_char(short@[k])->0)
            &&& (!has_ext ==> length->0 == base)
            &&& (has_ext ==> length->0 == base + 1 + ext && final(out)@[base] == 0x2e && forall|k: int|
                0 <= k < ext ==> #[trigger] final(out)@[base + 1 + k] == lower_char(short@[8 + k])->0)
        },
        length is Some <==> run_length(short@, 0, 8) > 0 && run_lowerable(short@, 0, 8) && ((exists|k: int|
            8 <= k < 11 && short@[k] != 0x20) ==> run_lowerable(short@, 8, 11)),
{
    let base = match lower_run(short, 0, 8, out, 0) {
        Some(length) => length,
        None => return None,
    };
    if base == 0 {
        return None;
    }
    assert forall|k: int| 0 <= k < base implies #[trigger] out@[k] == lower_char(short@[k])->0 by {
        assert(out@[0 + k] == lower_char(short@[0 + k])->0);
    }
    let mut has_ext = false;
    let mut k: usize = 8;
    while k < 11
        invariant
            8 <= k <= 11,
            has_ext == exists|m: int| 8 <= m < k && short@[m] != 0x20,
        decreases 11 - k,
    {
        if short[k] != 0x20 {
            has_ext = true;
        }
        k = k + 1;
    }
    if !has_ext {
        return Some(base);
    }
    let ghost before = out@;
    out[base] = 0x2e;
    let ext = match lower_run(short, 8, 11, out, base + 1) {
        Some(length) => length,
        None => return None,
    };
    assert forall|k: int| 0 <= k < ext implies #[trigger] out@[base + 1 + k] == lower_char(short@[8 + k])->0 by {
        assert(out@[(base + 1) + k] == lower_char(short@[8 + k])->0);
    }
    Some(base + 1 + ext)
}

/// `prefix`, a `/` unless `prefix` ends in one, then `name`, written to `out`; `None`
/// when `out` is too short.
pub fn join_path(prefix: &str, name: &str, out: &mut [u8]) -> (length: Option<usize>)
    ensures
        final(out)@.len() == old(out)@.len(),
        ({
            let p = prefix.spec_bytes();
            let n = name.spec_bytes();
            let slash = p.len() == 0 || p.last() != 0x2f;
            let joined = if slash { p.push(0x2fu8) + n } else { p + n };
            &&& length is None <==> joined.len() > old(out)@.len()
            &&& length is Some ==> length->0 == joined.len() && final(out)@.subrange(0, joined.len() as int) == joined
        }),
{
    join_path_bytes(prefix.as_bytes(), name.as_bytes(), out)
}

/// As `join_path`, on bytes.
pub fn join_path_bytes(prefix: &[u8], name: &[u8], out: &mut [u8]) -> (length: Option<usize>)
    ensures
        final(out)@.len() == old(out)@.len(),
        ({
            let p = prefix@;
            let n = name@;
            let slash = p.len() == 0 || p.last() != 0x2f;
            let joined = if slash { p.push(0x2fu8) + n } else { p + n };
            &&& length is None <==> joined.len() > old(out)@.len()
            &&& length is Some ==> length->0 == joined.len() && final(out)@.subrange(0, joined.len() as int) == joined
        }),
{
    let p = prefix;
    let n = name;
    let slash = p.len() == 0 || p[p.len() - 1] != 0x2f;
    let extra: usize = if slash { 1 } else { 0 };
    if p.len() > out.len() || out.len() - p.len() < extra || out.len() - p.len() - extra < n.len() {
        return None;
    }
    copy_bytes(out, 0, p, 0, p.len());
    let mut length = p.len();
    if slash {
        out[length] = 0x2f;
        length = length + 1;
    }
    copy_bytes(out, length, n, 0, n.len());
    proof {
        let joined = if slash { p@.push(0x2fu8) + n@ } else { p@ + n@ };
        assert(out@.subrange(0, joined.len() as int) =~= joined);
    }
    Some(length + n.len())
}

/// Whether `component` may name a file or directory on the volume: not empty, not
/// `.` or `..`, and a valid 8.3 name.
pub open spec fn fat_component_ok(component: Seq<u8>) -> bool {
    &&& component.len() > 0
    &&& component != seq![0x2eu8]
    &&& component != seq![0x2eu8, 0x2eu8]
    &&& short_name_of(component) is Some
}

/// Whether every `/`-separated component of `path` from byte `from` on may name an
/// entry on the volume.
pub open spec fn components_ok(path: Seq<u8>, from: int) -> bool
    decreases path.len() - from,
{
    if from < 0 || from > path.len() {
        false
    } else {
        let end = component_end(path, from);
        fat_component_ok(path.subrange(from, end)) && if from <= end < path.len() {
            components_ok(path, end + 1)
        } else {
            true
        }
    }
}

/// Whether `relative`, a path below `/mnt`, can be stored on the volume.
pub open spec fn relative_valid(relative: Seq<u8>) -> bool {
    relative.len() > 0 && components_ok(relative, 0)
}

/// Whether every `/`-separated component of `relative` is a valid 8.3 name, none empty.
fn relative_components_valid(relative: &[u8]) -> (valid: bool)
    ensures
        valid == relative_valid(relative@),
{
    let length = relative.len();
    if length == 0 {
        return false;
    }
    let mut at: usize = 0;
    loop
        invariant
            at <= length,
            length == relative@.len(),
            length > 0,
            relative_valid(relative@) == components_ok(relative@, at as int),
        decreases length - at,
    {
        let mut end = at;
        while end < length && relative[end] != 0x2f
            invariant
                at <= end <= length,
                length == relative@.len(),
                forall|k: int| at <= k < end ==> relative@[k] != 0x2f,
            decreases length - end,
        {
            end = end + 1;
        }
        proof {
            lemma_component_end(relative@, at as int);
            if component_end(relative@, at as int) < end {
                assert(relative@[component_end(relative@, at as int)] == 0x2f);
            }
            if component_end(relative@, at as int) > end {
                assert(relative@[end as int] != 0x2f);
            }
        }
        let component = fat32::subslice(relative, at, end);
        let size = end - at;
        let dot = size == 1 && component[0] == 0x2e;
        let dot_dot = size == 2 && component[0] == 0x2e && component[1] == 0x2e;
        proof {
            if size == 1 {
                if component[0] == 0x2e {
                    assert(component@ =~= seq![0x2eu8]);
                } else {
                    assert(component@[0] != seq![0x2eu8][0]);
                }
            }
            if size == 2 {
                if component[0] == 0x2e && component[1] == 0x2e {
                    assert(component@ =~= seq![0x2eu8, 0x2eu8]);
                } else if component[0] != 0x2e {
                    assert(component@[0] != seq![0x2eu8, 0x2eu8][0]);
                } else {
                    assert(component@[1] != seq![0x2eu8, 0x2eu8][1]);
                }
            }
        }
        if size == 0 || dot || dot_dot || fat32::encode_short_name_bytes(component).is_none() {
            return false;
        }
        if end == length {
            return true;
        }
        at = end + 1;
    }
}

/// Refuses a path below `/mnt` that the volume cannot store.
fn validate_fat_relative(relative: &[u8]) -> (result: Result<(), MutationError>)
    ensures
        relative_valid(relative@) <==> result is Ok,
        result is Err ==> result == Err::<(), MutationError>(MutationError::BadName),
{
    if relative_components_valid(relative) {
        Ok(())
    } else {
        Err(MutationError::BadName)
    }
}

// ---- errors ----

/// How a FAT32 error is reported when a path is brought in from the volume.
pub open spec fn spec_ensure_error(error: fat32::Error) -> EnsureError {
    match error {
        fat32::Error::NotFound => EnsureError::NotFound,
        fat32::Error::InvalidBootSector => EnsureError::NotFat32,
        fat32::Error::UnsupportedGeometry => EnsureError::NotFat32,
        _ => EnsureError::Failed,
    }
}

pub fn map_fat_err(error: fat32::Error) -> (mapped: EnsureError)
    ensures
        mapped == spec_ensure_error(error),
{
    match error {
        fat32::Error::NotFound => EnsureError::NotFound,
        fat32::Error::InvalidBootSector => EnsureError::NotFat32,
        fat32::Error::UnsupportedGeometry => EnsureError::NotFat32,
        _ => EnsureError::Failed,
    }
}

/// How a FAT32 error is reported when an entry is deleted or renamed.
pub open spec fn spec_mutation_error(error: fat32::Error) -> MutationError {
    match error {
        fat32::Error::NotFound => MutationError::NotFound,
        fat32::Error::NameTooLong => MutationError::BadName,
        fat32::Error::InvalidPath => MutationError::BadName,
        fat32::Error::AlreadyExists => MutationError::AlreadyExists,
        fat32::Error::DirectoryNotEmpty => MutationError::NotEmpty,
        fat32::Error::ReadOnly => MutationError::ReadOnly,
        fat32::Error::Block(BlockError::ReadOnly) => MutationError::ReadOnly,
        _ => MutationError::Failed,
    }
}

pub fn map_mutation_err(error: fat32::Error) -> (mapped: MutationError)
    ensures
        mapped == spec_mutation_error(error),
{
    match error {
        fat32::Error::NotFound => MutationError::NotFound,
        fat32::Error::NameTooLong => MutationError::BadName,
        fat32::Error::InvalidPath => MutationError::BadName,
        fat32::Error::AlreadyExists => MutationError::AlreadyExists,
        fat32::Error::DirectoryNotEmpty => MutationError::NotEmpty,
        fat32::Error::ReadOnly => MutationError::ReadOnly,
        fat32::Error::Block(BlockError::ReadOnly) => MutationError::ReadOnly,
        _ => MutationError::Failed,
    }
}

/// How a FAT32 error is reported when a file or directory is written.
pub open spec fn spec_persist_error(error: fat32::Error) -> PersistError {
    match error {
        fat32::Error::NotFound => PersistError::NotFound,
        fat32::Error::NameTooLong => PersistError::BadName,
        fat32::Error::DirectoryFull => PersistError::BadName,
        fat32::Error::InvalidPath => PersistError::BadName,
        fat32::Error::NoSpace => PersistError::TooLarge,
        _ => PersistError::Failed,
    }
}

pub fn map_persist_err(error: fat32::Error) -> (mapped: PersistError)
    ensures
        mapped == spec_persist_error(error),
{
    match error {
        fat32::Error::NotFound => PersistError::NotFound,
        fat32::Error::NameTooLong => PersistError::BadName,
        fat32::Error::DirectoryFull => PersistError::BadName,
        fat32::Error::InvalidPath => PersistError::BadName,
        fat32::Error::NoSpace => PersistError::TooLarge,
        _ => PersistError::Failed,
    }
}

/// How a FAT32 error is reported when free space is counted or the volume checked.
pub open spec fn spec_space_error(error: fat32::Error) -> SpaceError {
    match error {
        fat32::Error::InvalidBootSector => SpaceError::NotFat32,
        fat32::Error::UnsupportedGeometry => SpaceError::NotFat32,
        _ => SpaceError::Failed,
    }
}

pub fn map_space_err(error: fat32::Error) -> (mapped: SpaceError)
    ensures
        mapped == spec_space_error(error),
{
    match error {
        fat32::Error::InvalidBootSector => SpaceError::NotFat32,
        fat32::Error::UnsupportedGeometry => SpaceError::NotFat32,
        _ => SpaceError::Failed,
    }
}

/// Whether a mount failure means the device holds no FAT32 volume at that place.
fn not_fat32(error: fat32::Error) -> (absent: bool)
    ensures
        absent == (error == fat32::Error::InvalidBootSector || error == fat32::Error::UnsupportedGeometry),
{
    match error {
        fat32::Error::InvalidBootSector => true,
        fat32::Error::UnsupportedGeometry => true,
        _ => false,
    }
}

// ---- the volume on a device ----
//
// The volume is looked for where `mount_ata_root` finds it: on the whole device, else
// in the first FAT32 partition of the MBR, else in the FAT partition of a GUID table.

/// A disk whose sectors can be narrowed, for one operation, to one partition.
pub struct Disk<D> {
    pub device: D,
    /// The partition the sectors are narrowed to, if any.
    pub window: Option<partition::Partition>,
}

impl<D: BlockDevice> Disk<D> {
    /// The whole of `device`.
    pub fn new(device: D) -> (disk: Self)
        ensures
            disk.device == device,
            disk.window is None,
    {
        Disk { device, window: None }
    }

    /// Narrows the sectors to `part`, when it is a partition that lies on the device.
    fn open_window(&mut self, part: partition::Partition) -> (opened: bool)
        requires
            old(self).valid(),
        ensures
            final(self).valid(),
            final(self).device == old(self).device,
            opened ==> final(self).window == Some(part),
            !opened ==> final(self).window == old(self).window,
            opened <==> part.start_lba != 0 && part.sectors != 0 && part.start_lba + part.sectors
                <= old(self).device.sectors().len(),
    {
        let count = self.device.sector_count();
        let end = match part.start_lba.checked_add(part.sectors) {
            Some(end) => end,
            None => return false,
        };
        if part.start_lba == 0 || part.sectors == 0 || end > count {
            return false;
        }
        self.window = Some(part);
        true
    }

    /// Shows the whole device again.
    fn close_window(&mut self)
        requires
            old(self).valid(),
        ensures
            final(self).valid(),
            final(self).device == old(self).device,
            final(self).window is None,
    {
        self.window = None;
    }

    fn absolute_lba(&self, lba: u64) -> (absolute: Result<u64, BlockError>)
        ensures
            self.window is None ==> absolute == Ok::<u64, BlockError>(lba),
            match self.window {
                Some(p) => (absolute is Ok <==> lba < p.sectors && p.start_lba + lba <= u64::MAX) && (absolute is Ok
                    ==> absolute->Ok_0 == p.start_lba + lba),
                None => true,
            },
            absolute is Err ==> absolute->Err_0 == BlockError::OutOfBounds,
    {
        match self.window {
            None => Ok(lba),
            Some(p) => {
                if lba >= p.sectors {
                    return Err(BlockError::OutOfBounds);
                }
                match p.start_lba.checked_add(lba) {
                    Some(absolute) => Ok(absolute),
                    None => Err(BlockError::OutOfBounds),
                }
            },
        }
    }
}

impl<D: BlockDevice> BlockDevice for Disk<D> {
    open spec fn sectors(&self) -> Seq<Seq<u8>> {
        match self.window {
            Some(p) => self.device.sectors().subrange(p.start_lba as int, p.start_lba + p.sectors),
            None => self.device.sectors(),
        }
    }

    open spec fn read_only(&self) -> bool {
        self.device.read_only()
    }

    open spec fn valid(&self) -> bool {
        &&& self.device.valid()
        &&& match self.window {
            Some(p) => p.start_lba + p.sectors <= self.device.sectors().len(),
            None => true,
        }
    }

    fn sector_count(&self) -> (count: u64) {
        match self.window {
            Some(p) => p.sectors,
            None => self.device.sector_count(),
        }
    }

    fn is_read_only(&self) -> (read_only: bool) {
        self.device.is_read_only()
    }

    fn flush(&mut self) -> (result: Result<(), BlockError>) {
        self.device.flush()
    }

    fn read_sector(&mut self, lba: u64, sector: &mut [u8]) -> (result: Result<(), BlockError>) {
        let absolute = match self.absolute_lba(lba) {
            Ok(absolute) => absolute,
            Err(error) => return Err(error),
        };
        self.device.read_sector(absolute, sector)
    }

    fn write_sector(&mut self, lba: u64, sector: &[u8]) -> (result: Result<(), BlockError>)
        ensures
            old(self).window matches Some(p) && !(lba < p.sectors && p.start_lba + lba <= u64::MAX) ==> result
                == Err::<(), BlockError>(BlockError::OutOfBounds) && *final(self) == *old(self),
    {
        let absolute = match self.absolute_lba(lba) {
            Ok(absolute) => absolute,
            Err(error) => return Err(error),
        };
        let result = self.device.write_sector(absolute, sector);
        proof {
            if result is Ok {
                assert(self.sectors() =~= old(self).sectors().update(lba as int, sector@));
            }
        }
        result
    }
}

/// Mounts the FAT32 volume that starts at the first sector `device` shows.
fn mount_volume<D: BlockDevice>(device: &mut D) -> (result: Result<Volume, fat32::Error>)
    requires
        old(device).valid(),
    ensures
        final(device).valid(),
        final(device).read_only() == old(device).read_only(),
        final(device).sectors() == old(device).sectors(),
        result is Ok ==> volume_sane(result->Ok_0),
{
    fat32::mount(device)
}

/// The first FAT32 partition of the MBR of `device`.
fn mbr_partition<D: BlockDevice>(device: &mut D) -> (result: Result<Option<partition::Partition>, partition::Error>)
    requires
        old(device).valid(),
    ensures
        final(device).valid(),
        final(device).read_only() == old(device).read_only(),
        final(device).sectors() == old(device).sectors(),
{
    partition::find_fat32(device)
}

/// The FAT partition of the GUID partition table of `device`.
fn gpt_partition<D: BlockDevice>(device: &mut D) -> (result: Result<Option<partition::Partition>, gpt::Error>)
    requires
        old(device).valid(),
    ensures
        final(device).valid(),
        final(device).read_only() == old(device).read_only(),
        final(device).sectors() == old(device).sectors(),
{
    gpt::find_fat_partition(device)
}

/// Where the volume lives when it does not start at sector 0: the MBR's FAT32
/// partition, else the GUID table's FAT partition; `None` when neither has one or a
/// table cannot be read.
fn partition_of<D: BlockDevice>(device: &mut D) -> (found: Option<partition::Partition>)
    requires
        old(device).valid(),
    ensures
        final(device).valid(),
        final(device).read_only() == old(device).read_only(),
        final(device).sectors() == old(device).sectors(),
{
    match mbr_partition(device) {
        Ok(Some(part)) => Some(part),
        _ => match gpt_partition(device) {
            Ok(Some(part)) => Some(part),
            _ => None,
        },
    }
}

/// Writes `data` as the file at `path`, relative to the root of the volume `disk`
/// shows.
fn persist_on_volume<D: BlockDevice>(disk: &mut D, path: &[u8], data: &[u8]) -> (result: Result<(), PersistError>)
    requires
        old(disk).valid(),
    ensures
        final(disk).valid(),
        final(disk).read_only() == old(disk).read_only(),
{
    match mount_volume(disk) {
        Ok(volume) => match fat32::create_path_file_bytes(disk, volume, path, data) {
            Ok(()) => Ok(()),
            Err(error) => Err(map_persist_err(error)),
        },
        Err(error) => Err(map_persist_err(error)),
    }
}

/// Writes `data` as the file at `path`, relative to the volume root.
fn persist_on_cached_device<D: BlockDevice>(disk: &mut Disk<D>, path: &[u8], data: &[u8]) -> (result: Result<(), PersistError>)
    requires
        old(disk).valid(),
        old(disk).window is None,
    ensures
        final(disk).valid(),
        final(disk).window is None,
        final(disk).read_only() == old(disk).read_only(),
{
    let result = persist_on_cached_device_located(disk, path, data);
    disk.close_window();
    result
}

/// Writes `data` as the file at `path`, relative to the volume root.
fn persist_on_cached_device_located<D: BlockDevice>(disk: &mut Disk<D>, path: &[u8], data: &[u8]) -> (result: Result<(), PersistError>)
    requires
        old(disk).valid(),
        old(disk).window is None,
    ensures
        final(disk).valid(),
        final(disk).read_only() == old(disk).read_only(),
{
    match mount_volume(disk) {
        Ok(volume) => {
            return match fat32::create_path_file_bytes(disk, volume, path, data) {
                Ok(()) => Ok(()),
                Err(error) => Err(map_persist_err(error)),
            };
        },
        Err(error) => {
            if !not_fat32(error) {
                return Err(PersistError::Failed);
            }
        },
    }
    let part = match partition_of(disk) {
        Some(part) => part,
        None => return Err(PersistError::Failed),
    };
    if !disk.open_window(part) {
        return Err(PersistError::Failed);
    }
    let result = persist_on_volume(disk, path, data);
    disk.close_window();
    result
}

/// Creates every missing directory of `path`, relative to the root of the volume
/// `disk` shows.
fn mkdir_on_volume<D: BlockDevice>(disk: &mut D, path: &[u8]) -> (result: Result<(), PersistError>)
    requires
        old(disk).valid(),
    ensures
        final(disk).valid(),
        final(disk).read_only() == old(disk).read_only(),
{
    match mount_volume(disk) {
        Ok(volume) => match fat32::mkdir_path_bytes(disk, volume, path) {
            Ok(()) => Ok(()),
            Err(error) => Err(map_persist_err(error)),
        },
        Err(error) => Err(map_persist_err(error)),
    }
}

/// Creates every missing directory of `path`, relative to the volume root.
fn mkdir_on_cached_device<D: BlockDevice>(disk: &mut Disk<D>, path: &[u8]) -> (result: Result<(), PersistError>)
    requires
        old(disk).valid(),
        old(disk).window is None,
    ensures
        final(disk).valid(),
        final(disk).window is None,
        final(disk).read_only() == old(disk).read_only(),
{
    let result = mkdir_on_cached_device_located(disk, path);
    disk.close_window();
    result
}

/// Creates every missing directory of `path`, relative to the volume root.
fn mkdir_on_cached_device_located<D: BlockDevice>(disk: &mut Disk<D>, path: &[u8]) -> (result: Result<(), PersistError>)
    requires
        old(disk).valid(),
        old(disk).window is None,
    ensures
        final(disk).valid(),
        final(disk).read_only() == old(disk).read_only(),
{
    match mount_volume(disk) {
        Ok(volume) => {
            return match fat32::mkdir_path_bytes(disk, volume, path) {
                Ok(()) => Ok(()),
                Err(error) => Err(map_persist_err(error)),
            };
        },
        Err(error) => {
            if !not_fat32(error) {
                return Err(PersistError::Failed);
            }
        },
    }
    let part = match partition_of(disk) {
        Some(part) => part,
        None => return Err(PersistError::Failed),
    };
    if !disk.open_window(part) {
        return Err(PersistError::Failed);
    }
    let result = mkdir_on_volume(disk, path);
    disk.close_window();
    result
}

/// Deletes (`rename_to` absent) or renames the entry at `path` of `volume`.
fn mutate_volume<D: BlockDevice>(device: &mut D, volume: Volume, path: &[u8], rename_to: Option<&[u8]>) -> (result: Result<(), MutationError>)
    requires
        old(device).valid(),
        volume_sane(volume),
    ensures
        final(device).valid(),
        final(device).read_only() == old(device).read_only(),
{
    let outcome = match rename_to {
        Some(target) => fat32::rename_path_bytes(device, volume, path, target),
        None => fat32::delete_path_bytes(device, volume, path),
    };
    match outcome {
        Ok(()) => Ok(()),
        Err(error) => Err(map_mutation_err(error)),
    }
}

/// Deletes the entry at `path` (`rename_to` absent) or renames it to `rename_to`,
/// both relative to the volume root.
fn mutate_on_cached_device<D: BlockDevice>(disk: &mut Disk<D>, path: &[u8], rename_to: Option<&[u8]>) -> (result: Result<(), MutationError>)
    requires
        old(disk).valid(),
        old(disk).window is None,
    ensures
        final(disk).valid(),
        final(disk).window is None,
        final(disk).read_only() == old(disk).read_only(),
{
    let result = mutate_on_cached_device_located(disk, path, rename_to);
    disk.close_window();
    result
}

/// Deletes the entry at `path` (`rename_to` absent) or renames it to `rename_to`,
/// both relative to the volume root.
fn mutate_on_cached_device_located<D: BlockDevice>(disk: &mut Disk<D>, path: &[u8], rename_to: Option<&[u8]>) -> (result: Result<(), MutationError>)
    requires
        old(disk).valid(),
        old(disk).window is None,
    ensures
        final(disk).valid(),
        final(disk).read_only() == old(disk).read_only(),
{
    match mount_volume(disk) {
        Ok(volume) => return mutate_volume(disk, volume, path, rename_to),
        Err(error) => {
            if !not_fat32(error) {
                return Err(MutationError::Failed);
            }
        },
    }
    let part = match partition_of(disk) {
        Some(part) => part,
        None => return Err(MutationError::Failed),
    };
    if !disk.open_window(part) {
        return Err(MutationError::Failed);
    }
    let result = match mount_volume(disk) {
        Ok(volume) => mutate_volume(disk, volume, path, rename_to),
        Err(error) => Err(map_mutation_err(error)),
    };
    disk.close_window();
    result
}

fn inspect_volume<D: BlockDevice>(device: &mut D, volume: Volume, check: bool) -> (result: Result<(Option<fat32::SpaceInfo>, Option<fat32::CheckReport>), SpaceError>)
    requires
        old(device).valid(),
        volume_sane(volume),
    ensures
        final(device).valid(),
        final(device).read_only() == old(device).read_only(),
        result matches Ok((space, report)) ==> (space is Some) == !check && (report is Some) == check,
{
    if check {
        match fat32::check_volume(device, volume) {
            Ok(report) => Ok((None, Some(report))),
            Err(error) => Err(map_space_err(error)),
        }
    } else {
        match fat32::space_info(device, volume) {
            Ok(info) => Ok((Some(info), None)),
            Err(error) => Err(map_space_err(error)),
        }
    }
}

/// Counts free space on the volume (`check` false) or checks it (`check` true).
fn inspect_on_device<D: BlockDevice>(disk: &mut Disk<D>, check: bool) -> (result: Result<(Option<fat32::SpaceInfo>, Option<fat32::CheckReport>), SpaceError>)
    requires
        old(disk).valid(),
        old(disk).window is None,
    ensures
        final(disk).valid(),
        final(disk).window is None,
        final(disk).read_only() == old(disk).read_only(),
        result matches Ok((space, report)) ==> (space is Some) == !check && (report is Some) == check,
{
    let result = inspect_on_device_located(disk, check);
    disk.close_window();
    result
}

/// Counts free space on the volume (`check` false) or checks it (`check` true).
fn inspect_on_device_located<D: BlockDevice>(disk: &mut Disk<D>, check: bool) -> (result: Result<(Option<fat32::SpaceInfo>, Option<fat32::CheckReport>), SpaceError>)
    requires
        old(disk).valid(),
        old(disk).window is None,
    ensures
        final(disk).valid(),
        final(disk).read_only() == old(disk).read_only(),
        result matches Ok((space, report)) ==> (space is Some) == !check && (report is Some) == check,
{
    match mount_volume(disk) {
        Ok(volume) => return inspect_volume(disk, volume, check),
        Err(error) => {
            if !not_fat32(error) {
                return Err(SpaceError::Failed);
            }
        },
    }
    let part = match mbr_partition(disk) {
        Ok(Some(part)) => part,
        Ok(None) => match gpt_partition(disk) {
            Ok(Some(part)) => part,
            Ok(None) => return Err(SpaceError::NotFat32),
            Err(gpt::Error::MissingProtectiveMbr) => return Err(SpaceError::NotFat32),
            Err(_) => return Err(SpaceError::Failed),
        },
        Err(_) => return Err(SpaceError::Failed),
    };
    if !disk.open_window(part) {
        return Err(SpaceError::Failed);
    }
    let result = match mount_volume(disk) {
        Ok(volume) => inspect_volume(disk, volume, check),
        Err(error) => Err(map_space_err(error)),
    };
    disk.close_window();
    result
}

/// Reads up to `output.len()` bytes from byte `offset` of the file at `path` on
/// `volume`; a directory is not found.
pub fn read_volume_page<D: BlockDevice>(device: &mut D, volume: Volume, path: &[u8], offset: usize, output: &mut [u8]) -> (result: Result<usize, fat32::Error>)
    requires
        old(device).valid(),
        volume_sane(volume),
    ensures
        final(device).valid(),
        final(device).read_only() == old(device).read_only(),
        final(device).sectors() == old(device).sectors(),
        final(output)@.len() == old(output)@.len(),
        result is Ok ==> result->Ok_0 <= old(output)@.len(),
        has_dot_dot(path@, 0) || named_components(path@, 0).len() > 8 || named_components(path@, 0).len() == 0
            ==> result == Err::<usize, fat32::Error>(fat32::Error::NotFound) && *final(device) == *old(device)
            && final(output)@ == old(output)@,
{
    let entry = match fat32::resolve_path_bytes(device, volume, path) {
        Ok(entry) => entry,
        Err(error) => return Err(error),
    };
    if entry.attributes & DIRECTORY_ATTRIBUTE != 0 {
        return Err(fat32::Error::NotFound);
    }
    fat32::read_file_at(device, volume, entry, offset, output)
}

/// Reads from byte `offset` of the file at `path`, relative to the root of the
/// volume on `disk`, found where `mount_ata_root` finds it.
pub fn read_disk_page<D: BlockDevice>(disk: &mut Disk<D>, path: &[u8], offset: usize, output: &mut [u8]) -> (result: Result<usize, fat32::Error>)
    requires
        old(disk).valid(),
        old(disk).window is None,
    ensures
        final(disk).valid(),
        final(disk).window is None,
        final(disk).read_only() == old(disk).read_only(),
        final(output)@.len() == old(output)@.len(),
        result is Ok ==> result->Ok_0 <= old(output)@.len(),
{
    let result = read_disk_page_located(disk, path, offset, output);
    disk.close_window();
    result
}

/// Reads from byte `offset` of the file at `path`, relative to the root of the
/// volume on `disk`, found where `mount_ata_root` finds it.
fn read_disk_page_located<D: BlockDevice>(disk: &mut Disk<D>, path: &[u8], offset: usize, output: &mut [u8]) -> (result: Result<usize, fat32::Error>)
    requires
        old(disk).valid(),
        old(disk).window is None,
    ensures
        final(disk).valid(),
        final(disk).read_only() == old(disk).read_only(),
        final(output)@.len() == old(output)@.len(),
        result is Ok ==> result->Ok_0 <= old(output)@.len(),
{
    match mount_volume(disk) {
        Ok(volume) => return read_volume_page(disk, volume, path, offset, output),
        Err(error) => {
            if !not_fat32(error) {
                return Err(error);
            }
        },
    }
    let part = match partition_of(disk) {
        Some(part) => part,
        None => return Err(fat32::Error::InvalidBootSector),
    };
    if !disk.open_window(part) {
        return Err(fat32::Error::InvalidBootSector);
    }
    let result = match mount_volume(disk) {
        Ok(volume) => read_volume_page(disk, volume, path, offset, output),
        Err(error) => Err(error),
    };
    disk.close_window();
    result
}

// ---- operations on /mnt ----

/// The most bytes a file of the in-memory file system holds.
pub const NODE_CAPACITY: usize = 65536;

/// The part of a path below `/mnt/`.
pub open spec fn relative_of(path: Seq<u8>) -> Seq<u8> {
    path.subrange(5, path.len() as int)
}

/// Why nothing can be persisted in `state`, if `/mnt` is not mounted.
pub open spec fn persist_unavailable(state: &MountState) -> PersistError {
    if state.status == MOUNT_NO_DEVICE {
        PersistError::NoDevice
    } else {
        PersistError::Unmounted
    }
}

/// The error `persist_path` gives before it touches the disk, if any.
pub open spec fn persist_refusal(state: &MountState, path: Seq<u8>, contents: Option<Seq<u8>>, present: bool) -> Option<PersistError> {
    if !below_mnt(path) {
        Some(PersistError::NotSupported)
    } else if state.status != MOUNT_MOUNTED {
        Some(persist_unavailable(state))
    } else if !relative_valid(relative_of(path)) {
        Some(PersistError::BadName)
    } else if contents is None {
        Some(PersistError::NotFound)
    } else if contents->0.len() > NODE_CAPACITY {
        Some(PersistError::TooLarge)
    } else if !present {
        Some(PersistError::NoDevice)
    } else {
        None
    }
}

/// The mount state after a write to the volume ended with `result`: dirty when it
/// succeeded.
pub open spec fn after_write<E>(before: &MountState, after: &MountState, result: Result<(), E>) -> bool {
    &&& after.status == before.status
    &&& after.imported == before.imported
    &&& after.syncs == before.syncs
    &&& after.dirty == (before.dirty || (result is Ok && before.status == MOUNT_MOUNTED))
}

/// Drops the cached file pages, runs an operation's disk result through a flush, and
/// marks the mount dirty when both succeeded.
fn finish_write<D: BlockDevice, E>(state: &mut MountState, disk: &mut Disk<D>, result: Result<(), E>, flush_error: E) -> (status: Result<(), E>)
    requires
        old(disk).valid(),
        old(disk).window is None,
    ensures
        final(disk).valid(),
        final(disk).window is None,
        final(disk).read_only() == old(disk).read_only(),
        result is Err ==> status == result,
        status is Ok ==> result is Ok,
        after_write(old(state), final(state), status),
{
    let flushed = disk.device.flush();
    let status = match result {
        Ok(()) => match flushed {
            Ok(()) => Ok(()),
            Err(_) => Err(flush_error),
        },
        Err(error) => Err(error),
    };
    if status.is_ok() {
        state.mark_mnt_dirty();
    }
    status
}

/// Persists the VFS file at `path`, whose contents are `contents` (`None` when the VFS
/// has no such file), to the FAT32 volume of `/mnt`. Missing directories on the way
/// are created; every component must be an 8.3 name. `present` tells whether the
/// disk is there; the cached file pages are dropped before the disk is written.
pub fn persist_path<D: BlockDevice>(
    state: &mut MountState,
    pages: &mut PageCache<16>,
    disk: &mut Disk<D>,
    present: bool,
    path: &str,
    contents: Option<&[u8]>,
) -> (result: Result<(), PersistError>)
    requires
        old(disk).valid(),
        old(disk).window is None,
        old(pages).wf(),
    ensures
        final(disk).valid(),
        final(disk).window is None,
        final(disk).read_only() == old(disk).read_only(),
        final(pages).wf(),
        after_write(old(state), final(state), result),
        match persist_refusal(old(state), path.spec_bytes(), match contents { Some(c) => Some(c@), None => None }, present) {
            Some(error) => result == Err::<(), PersistError>(error) && *final(disk) == *old(disk) && *final(pages) == *old(pages),
            None => forall|i: int| 0 <= i < 16 ==> !(#[trigger] final(pages).table()[i]).valid,
        },
{
    let bytes = path.as_bytes();
    if !is_below_mnt(bytes) {
        return Err(PersistError::NotSupported);
    }
    if !state.mnt_mounted() {
        return Err(state.unavailable_persist_error());
    }
    let relative = fat32::subslice(bytes, 5, bytes.len());
    if !relative_components_valid(relative) {
        return Err(PersistError::BadName);
    }
    let data = match contents {
        Some(data) => data,
        None => return Err(PersistError::NotFound),
    };
    if data.len() > NODE_CAPACITY {
        return Err(PersistError::TooLarge);
    }
    if !present {
        return Err(PersistError::NoDevice);
    }
    pages.invalidate();
    let result = persist_on_cached_device(disk, relative, data);
    finish_write(state, disk, result, PersistError::Failed)
}

/// The error `persist_directory` gives before it touches the disk, if any; `/mnt`
/// itself is there whenever it is mounted.
pub open spec fn directory_refusal(state: &MountState, path: Seq<u8>, present: bool) -> Option<Result<(), PersistError>> {
    if path == mnt_bytes() {
        Some(
            if state.status == MOUNT_MOUNTED {
                Ok(())
            } else {
                Err(persist_unavailable(state))
            },
        )
    } else if !below_mnt(path) {
        Some(Err(PersistError::NotSupported))
    } else if state.status != MOUNT_MOUNTED {
        Some(Err(persist_unavailable(state)))
    } else if !relative_valid(relative_of(path)) {
        Some(Err(PersistError::BadName))
    } else if !present {
        Some(Err(PersistError::NoDevice))
    } else {
        None
    }
}

/// Persists the VFS directory at `path` to the volume of `/mnt`, creating every
/// missing directory on the way.
pub fn persist_directory<D: BlockDevice>(
    state: &mut MountState,
    pages: &mut PageCache<16>,
    disk: &mut Disk<D>,
    present: bool,
    path: &str,
) -> (result: Result<(), PersistError>)
    requires
        old(disk).valid(),
        old(disk).window is None,
        old(pages).wf(),
    ensures
        final(disk).valid(),
        final(disk).window is None,
        final(disk).read_only() == old(disk).read_only(),
        final(pages).wf(),
        match directory_refusal(old(state), path.spec_bytes(), present) {
            Some(answer) => result == answer && *final(state) == *old(state) && *final(disk) == *old(disk) && *final(pages) == *old(pages),
            None => after_write(old(state), final(state), result) && forall|i: int|
                0 <= i < 16 ==> !(#[trigger] final(pages).table()[i]).valid,
        },
{
    let bytes = path.as_bytes();
    if is_mnt(bytes) {
        return if state.mnt_mounted() {
            Ok(())
        } else {
            Err(state.unavailable_persist_error())
        };
    }
    if !is_below_mnt(bytes) {
        return Err(PersistError::NotSupported);
    }
    if !state.mnt_mounted() {
        return Err(state.unavailable_persist_error());
    }
    let relative = fat32::subslice(bytes, 5, bytes.len());
    if !relative_components_valid(relative) {
        return Err(PersistError::BadName);
    }
    if !present {
        return Err(PersistError::NoDevice);
    }
    pages.invalidate();
    let result = mkdir_on_cached_device(disk, relative);
    finish_write(state, disk, result, PersistError::Failed)
}

/// Why nothing can be changed in `state`, if `/mnt` is not mounted.
pub open spec fn mutation_unavailable(state: &MountState) -> MutationError {
    if state.status == MOUNT_NO_DEVICE {
        MutationError::NoDevice
    } else {
        MutationError::Unmounted
    }
}

/// The error `delete_path` or `rename_path` gives before it touches the disk, if any.
pub open spec fn mutation_refusal(state: &MountState, source: Seq<u8>, target: Option<Seq<u8>>, present: bool, read_only: bool) -> Option<MutationError> {
    let target_ok = match target {
        Some(t) => t != mnt_bytes() && below_mnt(t),
        None => true,
    };
    if source == mnt_bytes() || !below_mnt(source) || !target_ok {
        Some(MutationError::NotSupported)
    } else if state.status != MOUNT_MOUNTED {
        Some(mutation_unavailable(state))
    } else if !relative_valid(relative_of(source)) {
        Some(MutationError::BadName)
    } else if target matches Some(t) && !relative_valid(relative_of(t)) {
        Some(MutationError::BadName)
    } else if !present {
        Some(MutationError::NoDevice)
    } else if read_only {
        Some(MutationError::ReadOnly)
    } else {
        None
    }
}

/// Deletes the file or empty directory at `path` from the volume of `/mnt`.
pub fn delete_path<D: BlockDevice>(
    state: &mut MountState,
    pages: &mut PageCache<16>,
    disk: &mut Disk<D>,
    present: bool,
    path: &str,
) -> (result: Result<(), MutationError>)
    requires
        old(disk).valid(),
        old(disk).window is None,
        old(pages).wf(),
    ensures
        final(disk).valid(),
        final(disk).window is None,
        final(disk).read_only() == old(disk).read_only(),
        final(pages).wf(),
        after_write(old(state), final(state), result),
        match mutation_refusal(old(state), path.spec_bytes(), None, present, old(disk).read_only()) {
            Some(error) => result == Err::<(), MutationError>(error) && *final(disk) == *old(disk) && *final(pages)
                == *old(pages),
            None => forall|i: int| 0 <= i < 16 ==> !(#[trigger] final(pages).table()[i]).valid,
        },
{
    let bytes = path.as_bytes();
    if is_mnt(bytes) || !is_below_mnt(bytes) {
        return Err(MutationError::NotSupported);
    }
    if !state.mnt_mounted() {
        return Err(state.unavailable_mutation_error());
    }
    let relative = fat32::subslice(bytes, 5, bytes.len());
    match validate_fat_relative(relative) {
        Ok(()) => {},
        Err(error) => return Err(error),
    }
    if !present {
        return Err(MutationError::NoDevice);
    }
    if disk.is_read_only() {
        return Err(MutationError::ReadOnly);
    }
    pages.invalidate();
    let result = mutate_on_cached_device(disk, relative, None);
    finish_write(state, disk, result, MutationError::Failed)
}

/// Renames the entry at `source` to `target`, both below `/mnt`, on its volume.
pub fn rename_path<D: BlockDevice>(
    state: &mut MountState,
    pages: &mut PageCache<16>,
    disk: &mut Disk<D>,
    present: bool,
    source: &str,
    target: &str,
) -> (result: Result<(), MutationError>)
    requires
        old(disk).valid(),
        old(disk).window is None,
        old(pages).wf(),
    ensures
        final(disk).valid(),
        final(disk).window is None,
        final(disk).read_only() == old(disk).read_only(),
        final(pages).wf(),
        after_write(old(state), final(state), result),
        match mutation_refusal(old(state), source.spec_bytes(), Some(target.spec_bytes()), present, old(disk).read_only()) {
            Some(error) => result == Err::<(), MutationError>(error) && *final(disk) == *old(disk) && *final(pages)
                == *old(pages),
            None => forall|i: int| 0 <= i < 16 ==> !(#[trigger] final(pages).table()[i]).valid,
        },
{
    let source_bytes = source.as_bytes();
    let target_bytes = target.as_bytes();
    if is_mnt(source_bytes) || is_mnt(target_bytes) || !is_below_mnt(source_bytes) || !is_below_mnt(target_bytes) {
        return Err(MutationError::NotSupported);
    }
    if !state.mnt_mounted() {
        return Err(state.unavailable_mutation_error());
    }
    let source_relative = fat32::subslice(source_bytes, 5, source_bytes.len());
    let target_relative = fat32::subslice(target_bytes, 5, target_bytes.len());
    match validate_fat_relative(source_relative) {
        Ok(()) => {},
        Err(error) => return Err(error),
    }
    match validate_fat_relative(target_relative) {
        Ok(()) => {},
        Err(error) => return Err(error),
    }
    if !present {
        return Err(MutationError::NoDevice);
    }
    if disk.is_read_only() {
        return Err(MutationError::ReadOnly);
    }
    pages.invalidate();
    let result = mutate_on_cached_device(disk, source_relative, Some(target_relative));
    finish_write(state, disk, result, MutationError::Failed)
}

/// Whether files under `/mnt` can be written through to a disk.
pub fn fat32_writable(state: &MountState, present: bool) -> (writable: bool)
    ensures
        writable == (state.status == MOUNT_MOUNTED && present),
{
    state.mnt_mounted() && present
}

/// Why free space cannot be reported in `state`, if `/mnt` is not mounted.
pub open spec fn space_unavailable(state: &MountState) -> SpaceError {
    match spec_lifecycle(state.status) {
        MountLifecycleStatus::NoDevice => SpaceError::NoDevice,
        MountLifecycleStatus::NotFat32 => SpaceError::NotFat32,
        MountLifecycleStatus::Failed => SpaceError::Failed,
        _ => SpaceError::Unmounted,
    }
}

/// Free space on the volume of `/mnt`.
pub fn df_mnt<D: BlockDevice>(state: &MountState, disk: &mut Disk<D>, present: bool) -> (result: Result<fat32::SpaceInfo, SpaceError>)
    requires
        old(disk).valid(),
        old(disk).window is None,
    ensures
        final(disk).valid(),
        final(disk).window is None,
        final(disk).read_only() == old(disk).read_only(),
        state.status != MOUNT_MOUNTED ==> result == Err::<fat32::SpaceInfo, SpaceError>(space_unavailable(state)),
        state.status == MOUNT_MOUNTED && !present ==> result == Err::<fat32::SpaceInfo, SpaceError>(SpaceError::NoDevice),
{
    if !state.mnt_mounted() {
        return Err(state.unavailable_space_error());
    }
    if !present {
        return Err(SpaceError::NoDevice);
    }
    match inspect_on_device(disk, false) {
        Ok((Some(info), _)) => Ok(info),
        Ok(_) => Err(SpaceError::Failed),
        Err(error) => Err(error),
    }
}

/// A consistency check of the volume of `/mnt`.
pub fn fscheck_mnt<D: BlockDevice>(state: &MountState, disk: &mut Disk<D>, present: bool) -> (result: Result<fat32::CheckReport, SpaceError>)
    requires
        old(disk).valid(),
        old(disk).window is None,
    ensures
        final(disk).valid(),
        final(disk).window is None,
        final(disk).read_only() == old(disk).read_only(),
        state.status != MOUNT_MOUNTED ==> result == Err::<fat32::CheckReport, SpaceError>(space_unavailable(state)),
        state.status == MOUNT_MOUNTED && !present ==> result == Err::<fat32::CheckReport, SpaceError>(SpaceError::NoDevice),
{
    if !state.mnt_mounted() {
        return Err(state.unavailable_space_error());
    }
    if !present {
        return Err(SpaceError::NoDevice);
    }
    match inspect_on_device(disk, true) {
        Ok((_, Some(report))) => Ok(report),
        Ok(_) => Err(SpaceError::Failed),
        Err(error) => Err(error),
    }
}

/// Counters of the cache of file pages read from the disk.
pub fn page_cache_stats(pages: &PageCache<16>) -> (stats: crate::page_cache::Stats)
    requires
        pages.wf(),
    ensures
        stats.hits == pages.spec_hits(),
        stats.misses == pages.spec_misses(),
        stats.evictions == pages.spec_evictions(),
        stats.resident == crate::page_cache::count_valid(pages.table()),
        stats.capacity == 16,
{
    pages.stats()
}

/// A file of the in-memory file system under `/mnt`, as a sync writes it back.
pub struct MntFile {
    pub path: String,
    pub contents: Vec<u8>,
}

/// Writes every file of `files` back to the volume, best effort: a file that fails is
/// skipped and the walk goes on; then flushes the disk. Gives the number of files
/// written. `/mnt` is clean and the sync counted when everything went through, and
/// stays dirty otherwise.
pub fn sync_all_mounted<D: BlockDevice>(
    state: &mut MountState,
    pages: &mut PageCache<16>,
    disk: &mut Disk<D>,
    present: bool,
    files: &Vec<MntFile>,
) -> (result: Result<usize, PersistError>)
    requires
        old(disk).valid(),
        old(disk).window is None,
        old(pages).wf(),
    ensures
        final(disk).valid(),
        final(disk).window is None,
        final(disk).read_only() == old(disk).read_only(),
        final(pages).wf(),
        final(state).status == old(state).status,
        final(state).imported == old(state).imported,
        old(state).status != MOUNT_MOUNTED ==> result == Err::<usize, PersistError>(persist_unavailable(old(state)))
            && *final(state) == *old(state),
        old(state).status == MOUNT_MOUNTED ==> result is Ok && result->Ok_0 <= files@.len(),
        old(state).status == MOUNT_MOUNTED && !final(state).dirty ==> result is Ok && result->Ok_0 == files@.len()
            && present && final(state).syncs == old(state).syncs.wrapping_add(1),
        old(state).status == MOUNT_MOUNTED && final(state).dirty ==> final(state).syncs == old(state).syncs,
        old(state).status == MOUNT_MOUNTED && (!present || result->Ok_0 < files@.len()) ==> final(state).dirty,
{
    if !state.mnt_mounted() {
        return Err(state.unavailable_persist_error());
    }
    let mut written: usize = 0;
    let mut failed = false;
    let mut i: usize = 0;
    while i < files.len()
        invariant
            i <= files@.len(),
            written <= i,
            disk.valid(),
            disk.window is None,
            disk.read_only() == old(disk).read_only(),
            pages.wf(),
            state.status == old(state).status,
            state.imported == old(state).imported,
            state.syncs == old(state).syncs,
            state.status == MOUNT_MOUNTED,
            !failed ==> written == i,
        decreases files@.len() - i,
    {
        let file = &files[i];
        match persist_path(state, pages, disk, present, file.path.as_str(), Some(file.contents.as_slice())) {
            Ok(()) => written = written + 1,
            Err(_) => failed = true,
        }
        i = i + 1;
    }
    if present {
        if disk.device.flush().is_err() {
            failed = true;
        }
    } else {
        failed = true;
    }
    let _ = state.record_sync(written, failed);
    Ok(written)
}

/// Unmounts `/mnt`: syncs every file, drops the cached pages and flushes the disk.
pub fn unmount_mnt<D: BlockDevice>(
    state: &mut MountState,
    pages: &mut PageCache<16>,
    disk: &mut Disk<D>,
    present: bool,
    files: &Vec<MntFile>,
) -> (result: Result<(), MountControlError>)
    requires
        old(disk).valid(),
        old(disk).window is None,
        old(pages).wf(),
    ensures
        final(disk).valid(),
        final(disk).window is None,
        final(disk).read_only() == old(disk).read_only(),
        final(pages).wf(),
        old(state).status != MOUNT_MOUNTED ==> result == Err::<(), MountControlError>(
            if old(state).status == MOUNT_NO_DEVICE {
                MountControlError::NoDevice
            } else {
                MountControlError::NotMounted
            },
        ) && *final(state) == *old(state),
        old(state).status == MOUNT_MOUNTED && !present ==> result == Err::<(), MountControlError>(MountControlError::SyncFailed),
        result is Ok ==> final(state).status == MOUNT_UNMOUNTED && final(state).imported == 0 && !final(state).dirty
            && final(state).syncs == old(state).syncs.wrapping_add(1),
{
    if !state.mnt_mounted() {
        return Err(
            if state.status == MOUNT_NO_DEVICE {
                MountControlError::NoDevice
            } else {
                MountControlError::NotMounted
            },
        );
    }
    match sync_all_mounted(state, pages, disk, present, files) {
        Ok(_) => {},
        Err(_) => return Err(MountControlError::SyncFailed),
    }
    if state.dirty {
        return Err(MountControlError::SyncFailed);
    }
    pages.invalidate();
    if !present {
        state.record_mount_status(MountStatus::NoDevice);
        return Err(MountControlError::NoDevice);
    }
    if disk.device.flush().is_err() {
        return Err(MountControlError::Failed);
    }
    state.status = MOUNT_UNMOUNTED;
    state.imported = 0;
    state.mark_mnt_clean();
    Ok(())
}

/// Reads the file at `path` below `/mnt` through the page cache; `load` fills a page
/// the cache lacks from the disk.
pub fn read_disk_file<F: FnMut(usize, &mut [u8]) -> Result<usize, BlockError>>(
    state: &MountState,
    pages: &mut PageCache<16>,
    present: bool,
    path: &str,
    offset: usize,
    output: &mut [u8],
    load: F,
) -> (result: Result<usize, BlockError>)
    requires
        old(pages).wf(),
        forall|at: usize, p: &mut [u8]| load.requires((at, p)),
    ensures
        final(pages).wf(),
        final(output)@.len() == old(output)@.len(),
        state.status != MOUNT_MOUNTED ==> result == Err::<usize, BlockError>(BlockError::DeviceFault),
        state.status == MOUNT_MOUNTED && !below_mnt(path.spec_bytes()) ==> result == Err::<usize, BlockError>(
            BlockError::InvalidBuffer,
        ),
        state.status == MOUNT_MOUNTED && below_mnt(path.spec_bytes()) && !present ==> result == Err::<
            usize,
            BlockError,
        >(BlockError::DeviceFault),
        result is Ok ==> result->Ok_0 <= old(output)@.len(),
{
    if !state.mnt_mounted() {
        return Err(BlockError::DeviceFault);
    }
    if !is_below_mnt(path.as_bytes()) {
        return Err(BlockError::InvalidBuffer);
    }
    if !present {
        return Err(BlockError::DeviceFault);
    }
    pages.read(path, offset, output, load)
}

// ---- bringing the volume into the in-memory file system ----

/// What the in-memory file system answered to a request to create something.
#[derive(Clone, Copy, PartialEq, Eq, Structural, Debug)]
pub enum VfsOutcome {
    Created,
    Exists,
    Full,
    Failed,
}

/// The in-memory file system, as mounting and lookups use it.
///
/// Nothing is assumed of the answers: every function below is verified for any
/// implementation.
pub trait ImportTarget {
    /// Creates the directory `path`.
    fn make_directory(&mut self, path: &[u8]) -> VfsOutcome;

    /// Creates `path` as a file of `size` bytes whose contents stay on the disk.
    fn add_disk_file(&mut self, path: &[u8], size: usize, writable: bool) -> VfsOutcome;

    /// Whether `path` exists, and then whether it is a directory.
    fn kind(&mut self, path: &[u8]) -> Option<bool>;
}

/// Brings the entries of the directory at `dir_cluster` into the in-memory file
/// system below `prefix`, and those of its subdirectories down to `MAX_IMPORT_DEPTH`
/// levels. Volume labels, `.` and `..`, names that do not convert and files too
/// large for memory are skipped; a directory the file system refuses for another
/// reason than fullness or existence stops the import. Gives the number of entries
/// created.
pub fn import_directory<D: BlockDevice, T: ImportTarget>(
    device: &mut D,
    volume: Volume,
    dir_cluster: u32,
    prefix: &[u8],
    depth: usize,
    writable_import: bool,
    target: &mut T,
) -> (result: Result<usize, fat32::Error>)
    requires
        old(device).valid(),
        volume_sane(volume),
        depth <= MAX_IMPORT_DEPTH,
    ensures
        final(device).valid(),
        final(device).read_only() == old(device).read_only(),
        final(device).sectors() == old(device).sectors(),
    decreases MAX_IMPORT_DEPTH - depth,
{
    let entries = match fat32::directory_entries(device, volume, dir_cluster) {
        Ok(entries) => entries,
        Err(error) => return Err(error),
    };
    let mut mounted: usize = 0;
    let mut i: usize = 0;
    while i < entries.len()
        invariant
            i <= entries@.len(),
            device.valid(),
            device.read_only() == old(device).read_only(),
            device.sectors() == old(device).sectors(),
            volume_sane(volume),
            depth <= MAX_IMPORT_DEPTH,
        decreases entries@.len() - i,
    {
        let entry = entries[i];
        i = i + 1;
        if entry.attributes & 0x08 != 0 || entry.short_name[0] == 0x2e {
            continue;
        }
        let mut name = [0u8; 12];
        let name_len = match short_name_to_str(&entry.short_name, &mut name) {
            Some(length) => length,
            None => continue,
        };
        if name_len > 12 {
            continue;
        }
        let (name_bytes, _) = name.split_at(name_len);
        let mut path_buf = [0u8; 128];
        let path_len = match join_path_bytes(prefix, name_bytes, &mut path_buf) {
            Some(length) => length,
            None => continue,
        };
        if path_len > 128 {
            continue;
        }
        let (path, _) = path_buf.split_at(path_len);
        if entry.attributes & DIRECTORY_ATTRIBUTE != 0 {
            match target.make_directory(path) {
                VfsOutcome::Created => mounted = mounted.saturating_add(1),
                VfsOutcome::Exists => {},
                VfsOutcome::Full => {},
                VfsOutcome::Failed => return Err(fat32::Error::DirectoryFull),
            }
            if depth < MAX_IMPORT_DEPTH && entry.first_cluster >= 2 {
                match import_directory(device, volume, entry.first_cluster, path, depth + 1, writable_import, target) {
                    Ok(count) => mounted = mounted.saturating_add(count),
                    Err(error) => return Err(error),
                }
            }
            continue;
        }
        if entry.size as usize > NODE_CAPACITY {
            continue;
        }
        let writable = writable_import && entry.attributes & READ_ONLY_ATTRIBUTE == 0;
        match target.add_disk_file(path, entry.size as usize, writable) {
            VfsOutcome::Created => mounted = mounted.saturating_add(1),
            _ => {},
        }
    }
    Ok(mounted)
}

/// `/mnt` as bytes, for the in-memory file system.
fn mnt_root() -> (root: [u8; 4])
    ensures
        root@ == mnt_bytes(),
{
    let root: [u8; 4] = [0x2f, 0x6d, 0x6e, 0x74];
    proof {
        assert(root@ =~= mnt_bytes());
    }
    root
}

/// Mounts the volume `disk` shows at `/mnt` and imports its top levels.
fn mount_device<D: BlockDevice, T: ImportTarget>(disk: &mut D, target: &mut T) -> (status: MountStatus)
    requires
        old(disk).valid(),
    ensures
        final(disk).valid(),
        final(disk).read_only() == old(disk).read_only(),
{
    let volume = match mount_volume(disk) {
        Ok(volume) => volume,
        Err(error) => return if not_fat32(error) {
            MountStatus::NotFat32
        } else {
            MountStatus::Failed
        },
    };
    let root = mnt_root();
    let _ = target.make_directory(&root);
    let writable_import = !disk.is_read_only();
    match import_directory(disk, volume, volume.root_cluster, &root, 0, writable_import, target) {
        Ok(count) => MountStatus::Mounted(count),
        Err(_) => MountStatus::Failed,
    }
}

/// Puts swap in the sectors of the disk from `start_lba` up to `limit_lba`, if any.
fn configure_swap_area(swap: &mut swap::State, start_lba: u64, limit_lba: u64)
    requires
        old(swap).wf(),
    ensures
        final(swap).wf(),
{
    if limit_lba <= start_lba {
        return;
    }
    let _ = swap::configure_ata_backing(swap, start_lba, limit_lba - start_lba);
}

/// Puts swap after a volume at the start of the disk, up to the end of the disk.
fn configure_direct_swap<D: BlockDevice>(disk: &mut Disk<D>, swap: &mut swap::State)
    requires
        old(disk).valid(),
        old(disk).window is None,
        old(swap).wf(),
    ensures
        final(disk).valid(),
        final(disk).window is None,
        final(disk).read_only() == old(disk).read_only(),
        final(swap).wf(),
{
    let volume = match mount_volume(&mut disk.device) {
        Ok(volume) => volume,
        Err(_) => return,
    };
    let limit = disk.device.sector_count();
    configure_swap_area(swap, volume.total_sectors as u64, limit);
}

/// Puts swap after the volume in partition `part`, up to the end of the partition.
fn configure_partition_swap<D: BlockDevice>(disk: &mut Disk<D>, part: partition::Partition, swap: &mut swap::State)
    requires
        old(disk).valid(),
        old(disk).window is None,
        old(swap).wf(),
    ensures
        final(disk).valid(),
        final(disk).window is None,
        final(disk).read_only() == old(disk).read_only(),
        final(swap).wf(),
        !(part.start_lba != 0 && part.sectors != 0 && part.start_lba + part.sectors <= old(disk).device.sectors().len())
            ==> *final(disk) == *old(disk) && *final(swap) == *old(swap),
{
    if !disk.open_window(part) {
        return;
    }
    let mounted = mount_volume(disk);
    disk.close_window();
    let volume = match mounted {
        Ok(volume) => volume,
        Err(_) => return,
    };
    let start_lba = match part.start_lba.checked_add(volume.total_sectors as u64) {
        Some(lba) => lba,
        None => return,
    };
    let limit_lba = match part.start_lba.checked_add(part.sectors) {
        Some(lba) => lba,
        None => return,
    };
    configure_swap_area(swap, start_lba, limit_lba);
}

/// Mounts the volume in partition `part` and imports its top levels.
fn mount_partition<D: BlockDevice, T: ImportTarget>(disk: &mut Disk<D>, part: partition::Partition, target: &mut T) -> (status: MountStatus)
    requires
        old(disk).valid(),
        old(disk).window is None,
    ensures
        final(disk).valid(),
        final(disk).window is None,
        final(disk).read_only() == old(disk).read_only(),
{
    if !disk.open_window(part) {
        return MountStatus::Failed;
    }
    let status = mount_device(disk, target);
    disk.close_window();
    status
}

/// Finds the FAT32 volume on the disk (whole disk, then the MBR's FAT32 partition,
/// then the GUID table's FAT partition), mounts it at `/mnt`, imports its top levels
/// into `target`, puts swap behind it, and records the outcome in `state`. Without a
/// disk nothing is mounted.
pub fn mount_ata_root<D: BlockDevice, T: ImportTarget>(
    state: &mut MountState,
    disk: &mut Disk<D>,
    present: bool,
    target: &mut T,
    swap: &mut swap::State,
) -> (status: MountStatus)
    requires
        old(disk).valid(),
        old(disk).window is None,
        old(swap).wf(),
    ensures
        final(disk).valid(),
        final(disk).window is None,
        final(disk).read_only() == old(disk).read_only(),
        final(swap).wf(),
        !present ==> status == MountStatus::NoDevice,
        final(state).status == spec_status_code(status),
        final(state).imported == match status {
            MountStatus::Mounted(count) => count,
            _ => 0,
        },
        !final(state).dirty,
        final(state).syncs == old(state).syncs,
{
    let status = if !present {
        MountStatus::NoDevice
    } else {
        let direct = mount_device(disk, target);
        disk.close_window();
        match direct {
            MountStatus::NotFat32 => {
                match mbr_partition(&mut disk.device) {
                    Ok(Some(part)) => {
                        let status = mount_partition(disk, part, target);
                        if let MountStatus::Mounted(_) = status {
                            configure_partition_swap(disk, part, swap);
                        }
                        status
                    },
                    Ok(None) => match gpt_partition(&mut disk.device) {
                        Ok(Some(part)) => {
                            let status = mount_partition(disk, part, target);
                            if let MountStatus::Mounted(_) = status {
                                configure_partition_swap(disk, part, swap);
                            }
                            status
                        },
                        Ok(None) => MountStatus::NotFat32,
                        Err(gpt::Error::MissingProtectiveMbr) => MountStatus::NotFat32,
                        Err(_) => MountStatus::Failed,
                    },
                    Err(_) => MountStatus::Failed,
                }
            },
            MountStatus::Mounted(count) => {
                configure_direct_swap(disk, swap);
                MountStatus::Mounted(count)
            },
            other => other,
        }
    };
    state.record_mount_status(status);
    status
}

/// Drops the cached file pages and mounts `/mnt` again.
pub fn remount_mnt<D: BlockDevice, T: ImportTarget>(
    state: &mut MountState,
    pages: &mut PageCache<16>,
    disk: &mut Disk<D>,
    present: bool,
    target: &mut T,
    swap: &mut swap::State,
) -> (status: MountStatus)
    requires
        old(disk).valid(),
        old(disk).window is None,
        old(pages).wf(),
        old(swap).wf(),
    ensures
        final(disk).valid(),
        final(disk).window is None,
        final(pages).wf(),
        final(swap).wf(),
        forall|i: int| 0 <= i < 16 ==> !(#[trigger] final(pages).table()[i]).valid,
        !present ==> status == MountStatus::NoDevice,
        final(state).status == spec_status_code(status),
        !final(state).dirty,
{
    pages.invalidate();
    mount_ata_root(state, disk, present, target, swap)
}

/// Creates every directory on the way to `path` in the in-memory file system.
fn create_parent_dirs<T: ImportTarget>(target: &mut T, path: &[u8]) -> (result: Result<(), EnsureError>)
    ensures
        (path@.len() == 0 || path@[0] != 0x2f) ==> result == Err::<(), EnsureError>(EnsureError::InvalidPath),
        result is Err ==> result == Err::<(), EnsureError>(EnsureError::InvalidPath) || result == Err::<(), EnsureError>(
            EnsureError::Vfs,
        ),
{
    let length = path.len();
    if length == 0 || path[0] != 0x2f {
        return Err(EnsureError::InvalidPath);
    }
    let mut i: usize = 1;
    while i < length
        invariant
            1 <= i <= length,
            length == path@.len(),
            path@[0] == 0x2f,
        decreases length - i,
    {
        if path[i] == 0x2f {
            let (prefix, _) = path.split_at(i);
            match target.make_directory(prefix) {
                VfsOutcome::Created => {},
                VfsOutcome::Exists => {},
                _ => return Err(EnsureError::Vfs),
            }
        }
        i = i + 1;
    }
    Ok(())
}

/// Brings the entry at `relative` on `volume` into the in-memory file system as
/// `full_path`: a directory with its top levels, or a file whose contents stay on the
/// disk.
fn import_resolved<D: BlockDevice, T: ImportTarget>(
    state: &mut MountState,
    device: &mut D,
    volume: Volume,
    relative: &[u8],
    full_path: &[u8],
    target: &mut T,
) -> (result: Result<(), EnsureError>)
    requires
        old(device).valid(),
        volume_sane(volume),
    ensures
        final(device).valid(),
        final(device).read_only() == old(device).read_only(),
        final(state).status == old(state).status,
        final(state).dirty == old(state).dirty,
        final(state).syncs == old(state).syncs,
{
    let entry = match fat32::resolve_path_bytes(device, volume, relative) {
        Ok(entry) => entry,
        Err(error) => return Err(map_fat_err(error)),
    };
    match create_parent_dirs(target, full_path) {
        Ok(()) => {},
        Err(error) => return Err(error),
    }
    if entry.attributes & DIRECTORY_ATTRIBUTE != 0 {
        match target.make_directory(full_path) {
            VfsOutcome::Created => {},
            VfsOutcome::Exists => {},
            _ => return Err(EnsureError::Vfs),
        }
        let writable = !device.is_read_only();
        let imported = match import_directory(device, volume, entry.first_cluster, full_path, MAX_IMPORT_DEPTH, writable, target) {
            Ok(count) => count,
            Err(error) => return Err(map_fat_err(error)),
        };
        state.imported = state.imported.wrapping_add(imported);
        return Ok(());
    }
    if entry.size as usize > NODE_CAPACITY {
        return Err(EnsureError::TooLarge);
    }
    let writable = !device.is_read_only() && entry.attributes & READ_ONLY_ATTRIBUTE == 0;
    match target.add_disk_file(full_path, entry.size as usize, writable) {
        VfsOutcome::Created => Ok(()),
        VfsOutcome::Exists => Ok(()),
        _ => Err(EnsureError::Vfs),
    }
}

/// Imports the root directory of the volume `device` shows into `/mnt`.
fn import_root<D: BlockDevice, T: ImportTarget>(state: &mut MountState, device: &mut D, volume: Volume, target: &mut T) -> (result: Result<(), EnsureError>)
    requires
        old(device).valid(),
        volume_sane(volume),
    ensures
        final(device).valid(),
        final(device).read_only() == old(device).read_only(),
        final(state).status == old(state).status,
        final(state).dirty == old(state).dirty,
        final(state).syncs == old(state).syncs,
{
    let root = mnt_root();
    let writable = !device.is_read_only();
    match import_directory(device, volume, volume.root_cluster, &root, MAX_IMPORT_DEPTH, writable, target) {
        Ok(count) => {
            state.imported = state.imported.wrapping_add(count);
            Ok(())
        },
        Err(error) => Err(map_fat_err(error)),
    }
}

/// Looks `relative` up on the volume in partition `part` (`relative` absent: lists
/// the root) and imports what it names.
fn ensure_in_partition<D: BlockDevice, T: ImportTarget>(
    state: &mut MountState,
    disk: &mut Disk<D>,
    part: partition::Partition,
    target: &mut T,
    relative: Option<&[u8]>,
    full_path: &[u8],
) -> (result: Result<(), EnsureError>)
    requires
        old(disk).valid(),
        old(disk).window is None,
    ensures
        final(disk).valid(),
        final(disk).window is None,
        final(disk).read_only() == old(disk).read_only(),
        final(state).status == old(state).status,
        final(state).dirty == old(state).dirty,
        final(state).syncs == old(state).syncs,
        !(part.start_lba != 0 && part.sectors != 0 && part.start_lba + part.sectors <= old(disk).device.sectors().len())
            ==> result == Err::<(), EnsureError>(EnsureError::Failed) && *final(disk) == *old(disk) && *final(state)
            == *old(state),
{
    if !disk.open_window(part) {
        return Err(EnsureError::Failed);
    }
    let result = match mount_volume(disk) {
        Ok(volume) => match relative {
            Some(relative) => import_resolved(state, disk, volume, relative, full_path, target),
            None => import_root(state, disk, volume, target),
        },
        Err(error) => Err(map_fat_err(error)),
    };
    disk.close_window();
    result
}

/// Looks `relative` up on the volume of the disk, wherever it lies, and imports
/// what it names as `full_path`; `relative` absent lists the root into `/mnt`.
fn ensure_on_disk<D: BlockDevice, T: ImportTarget>(
    state: &mut MountState,
    disk: &mut Disk<D>,
    target: &mut T,
    relative: Option<&[u8]>,
    full_path: &[u8],
) -> (result: Result<(), EnsureError>)
    requires
        old(disk).valid(),
        old(disk).window is None,
    ensures
        final(disk).valid(),
        final(disk).window is None,
        final(disk).read_only() == old(disk).read_only(),
        final(state).status == old(state).status,
        final(state).dirty == old(state).dirty,
        final(state).syncs == old(state).syncs,
{
    match mount_volume(&mut disk.device) {
        Ok(volume) => {
            return match relative {
                Some(relative) => import_resolved(state, &mut disk.device, volume, relative, full_path, target),
                None => import_root(state, &mut disk.device, volume, target),
            };
        },
        Err(error) => {
            if !not_fat32(error) {
                return Err(EnsureError::Failed);
            }
        },
    }
    match mbr_partition(&mut disk.device) {
        Ok(Some(part)) => return ensure_in_partition(state, disk, part, target, relative, full_path),
        _ => {},
    }
    match gpt_partition(&mut disk.device) {
        Ok(Some(part)) => ensure_in_partition(state, disk, part, target, relative, full_path),
        Ok(None) => Err(EnsureError::NotFat32),
        Err(gpt::Error::MissingProtectiveMbr) => Err(EnsureError::NotFat32),
        Err(_) => Err(EnsureError::Failed),
    }
}

/// Why a path cannot be brought in while `/mnt` is not mounted in `state`.
pub open spec fn ensure_unavailable(state: &MountState) -> EnsureError {
    match spec_lifecycle(state.status) {
        MountLifecycleStatus::NoDevice => EnsureError::NoDevice,
        MountLifecycleStatus::NotFat32 => EnsureError::NotFat32,
        MountLifecycleStatus::Failed => EnsureError::Failed,
        _ => EnsureError::Unmounted,
    }
}

/// Makes sure `path` is in the in-memory file system: a path that is there already is
/// enough; otherwise a path outside `/mnt` is refused, and one under `/mnt` is looked
/// up on the volume and imported, `/mnt` itself by listing the root.
pub fn ensure_path<D: BlockDevice, T: ImportTarget>(
    state: &mut MountState,
    disk: &mut Disk<D>,
    present: bool,
    target: &mut T,
    path: &str,
) -> (result: Result<(), EnsureError>)
    requires
        old(disk).valid(),
        old(disk).window is None,
    ensures
        final(disk).valid(),
        final(disk).window is None,
        final(disk).read_only() == old(disk).read_only(),
        final(state).status == old(state).status,
        final(state).dirty == old(state).dirty,
        final(state).syncs == old(state).syncs,
        !under_mnt(path.spec_bytes()) ==> (result is Err ==> result == Err::<(), EnsureError>(EnsureError::NotUnderMount))
            && *final(state) == *old(state),
{
    let kind = target.kind(path.as_bytes());
    ensure_path_known(state, disk, present, target, path, kind)
}

/// As `ensure_path`, given what the in-memory file system answered for `path`:
/// `kind` is `None` when the path is absent, else whether it is a directory.
pub fn ensure_path_known<D: BlockDevice, T: ImportTarget>(
    state: &mut MountState,
    disk: &mut Disk<D>,
    present: bool,
    target: &mut T,
    path: &str,
    kind: Option<bool>,
) -> (result: Result<(), EnsureError>)
    requires
        old(disk).valid(),
        old(disk).window is None,
    ensures
        final(disk).valid(),
        final(disk).window is None,
        final(disk).read_only() == old(disk).read_only(),
        final(state).status == old(state).status,
        final(state).dirty == old(state).dirty,
        final(state).syncs == old(state).syncs,
        kind is Some ==> result == Ok::<(), EnsureError>(()) && *final(state) == *old(state) && *final(disk)
            == *old(disk),
        kind is None && under_mnt(path.spec_bytes()) && old(state).status != MOUNT_MOUNTED ==> result == Err::<
            (),
            EnsureError,
        >(ensure_unavailable(old(state))) && *final(state) == *old(state) && *final(disk) == *old(disk),
        kind is None && !under_mnt(path.spec_bytes()) ==> result == Err::<(), EnsureError>(EnsureError::NotUnderMount)
            && *final(state) == *old(state) && *final(disk) == *old(disk),
        kind is None && under_mnt(path.spec_bytes()) && old(state).status == MOUNT_MOUNTED && !present ==> result
            == Err::<(), EnsureError>(EnsureError::NoDevice) && *final(state) == *old(state) && *final(disk)
            == *old(disk),
{
    if kind.is_some() {
        return Ok(());
    }
    let bytes = path.as_bytes();
    let under = is_mnt(bytes) || is_below_mnt(bytes);
    if under && !state.mnt_mounted() {
        return Err(state.unavailable_ensure_error());
    }
    if !under {
        return Err(EnsureError::NotUnderMount);
    }
    if !present {
        return Err(EnsureError::NoDevice);
    }
    if is_mnt(bytes) {
        match target.make_directory(bytes) {
            VfsOutcome::Created => {},
            VfsOutcome::Exists => {},
            _ => return Err(EnsureError::Vfs),
        }
        return ensure_on_disk(state, disk, target, None, bytes);
    }
    let relative = fat32::subslice(bytes, 5, bytes.len());
    ensure_on_disk(state, disk, target, Some(relative), bytes)
}

} // verus!
