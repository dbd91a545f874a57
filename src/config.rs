//! The options of a training run.
use vstd::prelude::*;

verus! {

/// How a dictionary is trained.
#[derive(Clone, Debug, Eq, Hash, PartialEq)]
pub struct DictionaryConfig {
    /// Pruning keeps the table below this many symbols; training stops once it cannot.
    pub dictionary_size: usize,
    /// Keep every single-byte symbol, and list unseen ones with count zero.
    pub keep_single_byte_tokens: bool,
    /// Pairs seen fewer times are not merged; 2 when unset.
    pub minimum_appearance: Option<usize>,
    /// A byte that no compound symbol ever contains.
    pub ultimate_separator: Option<u8>,
    /// Where the files to train on are found.
    pub dir_option: DirOption,
    /// How many workers train at once; the host's parallelism when unset.
    pub parallel_worker_count: Option<usize>,
    /// The log file, truncated at the start of a run.
    pub write_log_at: Option<String>,
    /// Where the dictionary in progress is written whenever it changes.
    pub dump_result_at: Option<String>,
}

/// Which files are read, and how they are grouped. Directories are not searched recursively.
#[derive(Clone, Debug, Eq, Hash, PartialEq)]
pub struct DirOption {
    pub path: String,
    pub ext: String,
    /// Files are grouped until a group holds at least this many bytes.
    pub file_chunk_size: usize,
    /// The byte put between two files that are joined.
    pub file_separator: Option<u8>,
}

impl Default for DirOption {
    fn default() -> (r: Self)
        ensures
            r.path@.len() == 0,
            r.ext@.len() == 0,
            r.file_chunk_size == 8 * 1024 * 1024,
            r.file_separator is None,
    {
        DirOption {
            path: String::new(),
            ext: String::new(),
            file_chunk_size: 8 * 1024 * 1024,
            file_separator: None,
        }
    }
}

impl Default for DictionaryConfig {
    fn default() -> (r: Self)
        ensures
            r.dictionary_size == 2048,
            r.keep_single_byte_tokens,
            r.minimum_appearance == Some(3usize),
            r.ultimate_separator is None,
            r.dir_option.path@.len() == 0,
            r.dir_option.ext@.len() == 0,
            r.dir_option.file_chunk_size == 8 * 1024 * 1024,
            r.dir_option.file_separator is None,
            r.parallel_worker_count is None,
            r.write_log_at is None,
            r.dump_result_at is None,
    {
        DictionaryConfig {
            dictionary_size: 2048,
            keep_single_byte_tokens: true,
            minimum_appearance: Some(3),
            ultimate_separator: None,
            dir_option: DirOption::default(),
            parallel_worker_count: None,
            write_log_at: None,
            dump_result_at: None,
        }
    }
}

impl DictionaryConfig {
    pub fn set_dictionary_size(&mut self, size: usize) -> (r: &mut Self)
        ensures
            *r == (DictionaryConfig { dictionary_size: size, ..*old(self) }),
            *final(self) == *final(r),
    {
        self.dictionary_size = size;
        self
    }

    pub fn set_keep_single_byte_tokens(&mut self, keep: bool) -> (r: &mut Self)
        ensures
            *r == (DictionaryConfig { keep_single_byte_tokens: keep, ..*old(self) }),
            *final(self) == *final(r),
    {
        self.keep_single_byte_tokens = keep;
        self
    }

    pub fn set_minimum_appearance(&mut self, minimum: Option<usize>) -> (r: &mut Self)
        ensures
            *r == (DictionaryConfig { minimum_appearance: minimum, ..*old(self) }),
            *final(self) == *final(r),
    {
        self.minimum_appearance = minimum;
        self
    }

    pub fn set_ultimate_separator(&mut self, separator: Option<u8>) -> (r: &mut Self)
        ensures
            *r == (DictionaryConfig { ultimate_separator: separator, ..*old(self) }),
            *final(self) == *final(r),
    {
        self.ultimate_separator = separator;
        self
    }

    pub fn set_dir(&mut self, dir: String) -> (r: &mut Self)
        ensures
            *r == (DictionaryConfig { dir_option: DirOption { path: dir, ..old(self).dir_option }, ..*old(self) }),
            *final(self) == *final(r),
    {
        self.dir_option.path = dir;
        self
    }

    pub fn set_extension_to_read(&mut self, ext: String) -> (r: &mut Self)
        ensures
            *r == (DictionaryConfig { dir_option: DirOption { ext: ext, ..old(self).dir_option }, ..*old(self) }),
            *final(self) == *final(r),
    {
        self.dir_option.ext = ext;
        self
    }

    pub fn set_file_chunk_size(&mut self, size: usize) -> (r: &mut Self)
        ensures
            *r == (DictionaryConfig { dir_option: DirOption { file_chunk_size: size, ..old(self).dir_option }, ..*old(self) }),
            *final(self) == *final(r),
    {
        self.dir_option.file_chunk_size = size;
        self
    }

    pub fn set_file_separator(&mut self, separator: Option<u8>) -> (r: &mut Self)
        ensures
            *r == (DictionaryConfig { dir_option: DirOption { file_separator: separator, ..old(self).dir_option }, ..*old(self) }),
            *final(self) == *final(r),
    {
        self.dir_option.file_separator = separator;
        self
    }

    pub fn set_log_file(&mut self, log_file: Option<String>) -> (r: &mut Self)
        ensures
            *r == (DictionaryConfig { write_log_at: log_file, ..*old(self) }),
            *final(self) == *final(r),
    {
        self.write_log_at = log_file;
        self
    }

    pub fn set_dump_file(&mut self, dump_file: Option<String>) -> (r: &mut Self)
        ensures
            *r == (DictionaryConfig { dump_result_at: dump_file, ..*old(self) }),
            *final(self) == *final(r),
    {
        self.dump_result_at = dump_file;
        self
    }

    pub fn set_worker_count(&mut self, worker_count: Option<usize>) -> (r: &mut Self)
        ensures
            *r == (DictionaryConfig { parallel_worker_count: worker_count, ..*old(self) }),
            *final(self) == *final(r),
    {
        self.parallel_worker_count = worker_count;
        self
    }
}

} // verus!
