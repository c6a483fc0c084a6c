//! Logging options and their defaults.

use vstd::prelude::*;

verus! {

/// Bytes in a megabyte, as log file limits count them.
pub const BYTES_PER_MB: u64 = 1_000_000;

/// The logging options of a configuration.
#[derive(Clone, Copy, Debug, PartialEq, Eq, Structural)]
pub struct LoggingConfig {
    pub enabled: bool,
    pub file_size_limit_mb: u64,
    pub rotate_count: usize,
}

/// Logging is on where the option is left out.
pub fn default_logging_enabled() -> (enabled: bool)
    ensures
        enabled,
{
    true
}

/// A log file holds two megabytes where the option is left out.
pub fn default_file_size_limit_mb() -> (mb: u64)
    ensures
        mb == 2,
{
    2
}

/// Five rotated log files are kept where the option is left out.
pub fn default_rotate_count() -> (count: usize)
    ensures
        count == 5,
{
    5
}

impl Default for LoggingConfig {
    /// The options of a configuration without a logging section: logging
    /// off, no size, no files.
    fn default() -> (config: LoggingConfig)
        ensures
            config == (LoggingConfig { enabled: false, file_size_limit_mb: 0, rotate_count: 0 }),
    {
        LoggingConfig { enabled: false, file_size_limit_mb: 0, rotate_count: 0 }
    }
}

impl LoggingConfig {
    /// The options of a logging section that names none of them.
    pub fn with_field_defaults() -> (config: LoggingConfig)
        ensures
            config == (LoggingConfig { enabled: true, file_size_limit_mb: 2, rotate_count: 5 }),
    {
        LoggingConfig {
            enabled: default_logging_enabled(),
            file_size_limit_mb: default_file_size_limit_mb(),
            rotate_count: default_rotate_count(),
        }
    }

    /// The size in bytes at which a log file is rotated, where that size
    /// fits in 64 bits.
    pub fn file_size_limit_bytes(&self) -> (limit: Option<u64>)
        ensures
            limit.is_some() <==> self.file_size_limit_mb * BYTES_PER_MB <= u64::MAX,
            limit.is_some() ==> limit.unwrap() == self.file_size_limit_mb * BYTES_PER_MB,
    {
        if self.file_size_limit_mb > u64::MAX / BYTES_PER_MB {
            None
        } else {
            Some(self.file_size_limit_mb * BYTES_PER_MB)
        }
    }
}

} // verus!
