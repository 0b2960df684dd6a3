//! The error taxonomy surfaced to callers of the engine.
use vstd::prelude::*;

verus! {

#[derive(Clone, Copy, Debug, PartialEq, Eq, Structural)]
pub enum Errors {
    /// an I/O read failed
    FailedReadFromDataFile,
    /// an I/O write failed
    FailedWriteToDataFile,
    /// an fsync failed
    FailedSyncDataFile,
    /// a data file could not be opened
    FailedOpenDataFile,
    /// put, get or delete was given an empty key
    KeyIsEmpty,
    /// the key is not present in the store
    KeyNotFound,
    /// the index refers to a data file that is not part of the engine
    DataFileNotFound,
    /// the configured directory path is empty
    DirPathIsEmpty,
    /// the configured data file size is zero
    DataFileSizeTooSmall,
    /// the data directory could not be created
    FailedCreateDatabaseDir,
    /// the data directory could not be read
    FailedReadDatabaseDir,
    /// a file in the data directory does not follow the naming scheme,
    /// or an auxiliary file does not hold what the engine wrote
    DataDirectoryCorrupted,
    /// internal sentinel: a scan reached the end of a data file
    ReadDataFileEOF,
    /// a stored checksum does not match the record bytes
    InvalidLogRecordCrc,
    /// a batch stages more records than its configured maximum
    ExceedMaxBatchNum,
    /// another merge is running
    MergeInProgress,
    /// batches cannot be used: the sequence number was not persisted
    UnableToUseWriteBatch,
    /// another process holds the directory lock
    DatabaseIsUsing,
    /// the merge ratio is not between zero and one
    InvalidMergeRatio,
    /// the share of reclaimable bytes is below the configured ratio
    MergeRatioUnreached,
    /// the target volume lacks room for the live data
    MergeNoEnoughSpace,
}

} // verus!
