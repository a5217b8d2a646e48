//! Error kinds of the metadata engine. Every kind carries a stable
//! machine-readable code and a recovery hint.

use vstd::prelude::*;

verus! {

/// What can go wrong in the engine; storage-side kinds are carried for the
/// persistence collaborator.
#[derive(Debug, Clone)]
pub enum CodeNexusError {
    FileNotFound(String),
    InvalidTagFormat(String),
    InvalidQuerySyntax(String),
    RelationAlreadyExists { from: String, to: String },
    RelationNotFound { from: String, to: String },
    TagNotFound { tag: String, file: String },
    StorageError(String),
    SerializationError(String),
    FileSystemError(String),
    ConfigError(String),
    InternalError(String),
}

/// The stable code of each error kind.
pub open spec fn error_code_spec(e: CodeNexusError) -> Seq<char> {
    match e {
        CodeNexusError::FileNotFound(_) => "FILE_NOT_FOUND"@,
        CodeNexusError::InvalidTagFormat(_) => "INVALID_TAG_FORMAT"@,
        CodeNexusError::InvalidQuerySyntax(_) => "INVALID_QUERY_SYNTAX"@,
        CodeNexusError::RelationAlreadyExists { .. } => "RELATION_ALREADY_EXISTS"@,
        CodeNexusError::RelationNotFound { .. } => "RELATION_NOT_FOUND"@,
        CodeNexusError::TagNotFound { .. } => "TAG_NOT_FOUND"@,
        CodeNexusError::StorageError(_) => "STORAGE_ERROR"@,
        CodeNexusError::SerializationError(_) => "SERIALIZATION_ERROR"@,
        CodeNexusError::FileSystemError(_) => "FILESYSTEM_ERROR"@,
        CodeNexusError::ConfigError(_) => "CONFIG_ERROR"@,
        CodeNexusError::InternalError(_) => "INTERNAL_ERROR"@,
    }
}

impl CodeNexusError {
    /// The stable machine-readable code of this error.
    pub fn error_code(&self) -> (r: &'static str)
        ensures
            r@ == error_code_spec(*self),
    {
        match self {
            CodeNexusError::FileNotFound(_) => "FILE_NOT_FOUND",
            CodeNexusError::InvalidTagFormat(_) => "INVALID_TAG_FORMAT",
            CodeNexusError::InvalidQuerySyntax(_) => "INVALID_QUERY_SYNTAX",
            CodeNexusError::RelationAlreadyExists { .. } => "RELATION_ALREADY_EXISTS",
            CodeNexusError::RelationNotFound { .. } => "RELATION_NOT_FOUND",
            CodeNexusError::TagNotFound { .. } => "TAG_NOT_FOUND",
            CodeNexusError::StorageError(_) => "STORAGE_ERROR",
            CodeNexusError::SerializationError(_) => "SERIALIZATION_ERROR",
            CodeNexusError::FileSystemError(_) => "FILESYSTEM_ERROR",
            CodeNexusError::ConfigError(_) => "CONFIG_ERROR",
            CodeNexusError::InternalError(_) => "INTERNAL_ERROR",
        }
    }

    /// A short hint on how a caller can recover from this error.
    pub fn recovery_suggestion(&self) -> (r: &'static str) {
        match self {
            CodeNexusError::FileNotFound(_) => "check that the file path is correct",
            CodeNexusError::InvalidTagFormat(_) => "use the type:value form, e.g. category:api",
            CodeNexusError::InvalidQuerySyntax(_) => "check the query; AND, OR, NOT and * are supported",
            CodeNexusError::RelationAlreadyExists { .. } => "remove the relation before adding it again",
            CodeNexusError::RelationNotFound { .. } => "add the relation first",
            CodeNexusError::TagNotFound { .. } => "add the tag to the file first",
            CodeNexusError::StorageError(_) => "check file permissions and disk space",
            CodeNexusError::SerializationError(_) => "the data file is malformed; check its contents",
            CodeNexusError::FileSystemError(_) => "check filesystem permissions",
            CodeNexusError::ConfigError(_) => "check the configuration",
            CodeNexusError::InternalError(_) => "retry the operation",
        }
    }
}

} // verus!
