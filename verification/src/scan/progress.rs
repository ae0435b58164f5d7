//! Live counters of a running scan.
//!
//! The counters are approximate while the scan runs (hard-linked data is counted under
//! every link until the tree is flattened); the final numbers are in `ScanStats`.

use vstd::prelude::*;

verus! {

/// Live counters of a running scan.
#[derive(Debug)]
pub struct ScanProgress {
    files: u64,
    dirs: u64,
    bytes: u64,
    errors: u64,
    cancelled: bool,
    current: String,
}

/// What a [`ScanProgress`] shows at one moment.
#[derive(Debug, Clone, PartialEq, Eq)]
pub struct ProgressSnapshot {
    pub files: u64,
    pub dirs: u64,
    pub bytes: u64,
    pub errors: u64,
    pub current_path: String,
    pub cancelled: bool,
}

/// The counters in specifications.
pub struct ProgressSpec {
    pub files: u64,
    pub dirs: u64,
    pub bytes: u64,
    pub errors: u64,
    pub current_path: Seq<char>,
    pub cancelled: bool,
}

/// `a + b`, starting over where it no longer fits.
pub open spec fn wrapped_sum(a: u64, b: u64) -> u64 {
    if a + b > u64::MAX {
        (a + b - u64::MAX - 1) as u64
    } else {
        (a + b) as u64
    }
}

impl ProgressSpec {
    /// With one more file.
    pub open spec fn with_file(self, bytes: u64) -> ProgressSpec {
        ProgressSpec {
            files: wrapped_sum(self.files, 1),
            bytes: wrapped_sum(self.bytes, bytes),
            ..self
        }
    }

    /// With one more directory.
    pub open spec fn with_dir(self, bytes: u64) -> ProgressSpec {
        ProgressSpec {
            dirs: wrapped_sum(self.dirs, 1),
            bytes: wrapped_sum(self.bytes, bytes),
            ..self
        }
    }

    /// With one more error.
    pub open spec fn with_error(self) -> ProgressSpec {
        ProgressSpec { errors: wrapped_sum(self.errors, 1), ..self }
    }

    /// With so many more errors.
    pub open spec fn with_errors(self, count: nat) -> ProgressSpec
        decreases count,
    {
        if count == 0 {
            self
        } else {
            self.with_errors((count - 1) as nat).with_error()
        }
    }
}

/// Counters that have counted nothing.
pub open spec fn no_progress() -> ProgressSpec {
    ProgressSpec {
        files: 0,
        dirs: 0,
        bytes: 0,
        errors: 0,
        current_path: Seq::empty(),
        cancelled: false,
    }
}

fn wrapping_sum(a: u64, b: u64) -> (sum: u64)
    ensures
        sum == wrapped_sum(a, b),
{
    a.wrapping_add(b)
}

impl View for ScanProgress {
    type V = ProgressSpec;

    closed spec fn view(&self) -> ProgressSpec {
        ProgressSpec {
            files: self.files,
            dirs: self.dirs,
            bytes: self.bytes,
            errors: self.errors,
            current_path: self.current@,
            cancelled: self.cancelled,
        }
    }
}

impl Default for ScanProgress {
    fn default() -> (progress: Self)
        ensures
            progress@ == no_progress(),
    {
        ScanProgress {
            files: 0,
            dirs: 0,
            bytes: 0,
            errors: 0,
            cancelled: false,
            current: String::new(),
        }
    }
}

impl ScanProgress {
    pub fn snapshot(&self) -> (snapshot: ProgressSnapshot)
        ensures
            snapshot.files == self@.files,
            snapshot.dirs == self@.dirs,
            snapshot.bytes == self@.bytes,
            snapshot.errors == self@.errors,
            snapshot.current_path@ == self@.current_path,
            snapshot.cancelled == self@.cancelled,
    {
        ProgressSnapshot {
            files: self.files,
            dirs: self.dirs,
            bytes: self.bytes,
            errors: self.errors,
            current_path: self.current.clone(),
            cancelled: self.cancelled,
        }
    }

    pub fn cancel(&mut self)
        ensures
            final(self)@ == (ProgressSpec { cancelled: true, ..old(self)@ }),
    {
        self.cancelled = true;
    }

    pub fn is_cancelled(&self) -> (r: bool)
        ensures
            r == self@.cancelled,
    {
        self.cancelled
    }

    pub fn add_file(&mut self, bytes: u64)
        ensures
            final(self)@ == old(self)@.with_file(bytes),
    {
        self.files = wrapping_sum(self.files, 1);
        self.bytes = wrapping_sum(self.bytes, bytes);
    }

    pub fn add_dir(&mut self, bytes: u64)
        ensures
            final(self)@ == old(self)@.with_dir(bytes),
    {
        self.dirs = wrapping_sum(self.dirs, 1);
        self.bytes = wrapping_sum(self.bytes, bytes);
    }

    pub fn add_error(&mut self)
        ensures
            final(self)@ == old(self)@.with_error(),
    {
        self.errors = wrapping_sum(self.errors, 1);
    }

    /// The walk is in the directory at `path` now.
    pub fn enter(&mut self, path: &str)
        ensures
            final(self)@ == (ProgressSpec { current_path: path@, ..old(self)@ }),
    {
        self.current = path.to_owned();
    }
}

} // verus!
