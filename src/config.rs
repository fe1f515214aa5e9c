use vstd::prelude::*;

verus! {

/// How deep includes may nest before an include is refused.
pub const MAX_INCLUDE_DEPTH: usize = 10;

/// What resolution needs to know of the surroundings.
#[derive(Debug, Clone)]
pub struct HoconLoaderConfig {
    /// How many includes enclose the text being read.
    pub include_depth: usize,
    /// The file the text was read from, where there is one.
    pub file_meta: Option<String>,
    /// Whether an unresolved substitution may be read from the environment.
    pub system: bool,
}

impl HoconLoaderConfig {
    /// Whether an include met under this configuration may be read.
    pub fn may_include(&self) -> (r: bool)
        ensures
            r == (self.include_depth <= MAX_INCLUDE_DEPTH && self.file_meta is Some),
    {
        self.include_depth <= MAX_INCLUDE_DEPTH && self.file_meta.is_some()
    }

    /// The configuration for reading the file `file` that an include under
    /// this configuration names: one level deeper (the depth stays at the
    /// largest `usize`), with `file` as the originating file.
    pub fn included_from(&self, file: String) -> (r: HoconLoaderConfig)
        ensures
            r.include_depth == if self.include_depth < usize::MAX {
                self.include_depth + 1
            } else {
                self.include_depth as int
            },
            r.file_meta == Some(file),
            r.system == self.system,
    {
        let include_depth = if self.include_depth < usize::MAX {
            self.include_depth + 1
        } else {
            self.include_depth
        };
        HoconLoaderConfig { include_depth, file_meta: Some(file), system: self.system }
    }
}

} // verus!
