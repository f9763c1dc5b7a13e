//! What this crate asks of the `object` crate: to parse an object file, and
//! to tell the four traits of it that decide whether it may be linked with
//! others.
//!
//! Nothing in this file is proved. Each function makes one call into
//! `object`; its contract says what the rest of the crate takes on trust about
//! the answer.

use vstd::prelude::*;

verus! {

/// What an object file is, as `object::ObjectKind` tells it.
#[derive(Clone, Copy, Debug, PartialEq, Eq, Structural)]
pub enum ObjectKind {
    Unknown,
    Relocatable,
    Executable,
    Dynamic,
    Core,
}

/// `object::Architecture`, which this crate carries and never looks into.
#[verifier::external_type_specification]
#[verifier::external_body]
pub struct ExArchitecture(object::Architecture);

/// An `object::File`: an object file as `object` parsed it. It borrows the
/// bytes it was parsed from, and all it tells is read from them. Only
/// `parse_file` makes one.
#[verifier::external_body]
pub struct ParsedFile<'data> {
    file: object::File<'data>,
}

/// The bytes that the file was parsed from.
pub uninterp spec fn source_of(file: ParsedFile) -> Seq<u8>;

/// Whether `object::File::parse` accepts the bytes.
pub uninterp spec fn parses(bytes: Seq<u8>) -> bool;

/// What `object::Object::kind` says of the file parsed from the bytes.
pub uninterp spec fn kind_of(bytes: Seq<u8>) -> ObjectKind;

/// What `object::Object::architecture` says of the file parsed from the
/// bytes.
pub uninterp spec fn architecture_of(bytes: Seq<u8>) -> object::Architecture;

/// What `object::Object::is_little_endian` says of the file parsed from the
/// bytes.
pub uninterp spec fn is_little_endian_of(bytes: Seq<u8>) -> bool;

/// What `object::Object::is_64` says of the file parsed from the bytes.
pub uninterp spec fn is_64_of(bytes: Seq<u8>) -> bool;

/// Calls `object::File::parse`, which reads the bytes and nothing else;
/// `None` stands for its error. The parsed file holds the bytes it was given.
#[verifier::external_body]
pub(crate) fn parse_file<'data>(bytes: &'data [u8]) -> (r: Option<ParsedFile<'data>>)
    ensures
        r.is_some() == parses(bytes@),
        r.is_some() ==> source_of(r.unwrap()) == bytes@,
{
    match object::File::parse(bytes) {
        Ok(file) => Some(ParsedFile { file }),
        Err(_) => None,
    }
}

/// Calls `object::Object::kind`. What it answers it reads from the parsed
/// file, so the answer is a function of the bytes that were parsed. A kind
/// that a later version of `object` may add is read as `Unknown`.
#[verifier::external_body]
pub(crate) fn file_kind(file: &ParsedFile) -> (r: ObjectKind)
    ensures
        r == kind_of(source_of(*file)),
{
    match object::Object::kind(&file.file) {
        object::ObjectKind::Relocatable => ObjectKind::Relocatable,
        object::ObjectKind::Executable => ObjectKind::Executable,
        object::ObjectKind::Dynamic => ObjectKind::Dynamic,
        object::ObjectKind::Core => ObjectKind::Core,
        _ => ObjectKind::Unknown,
    }
}

/// Calls `object::Object::architecture`. What it answers it reads from the
/// parsed file, so the answer is a function of the bytes that were parsed.
#[verifier::external_body]
pub(crate) fn file_architecture(file: &ParsedFile) -> (r: object::Architecture)
    ensures
        r == architecture_of(source_of(*file)),
{
    object::Object::architecture(&file.file)
}

/// Calls `object::Object::is_little_endian`. What it answers it reads from
/// the parsed file, so the answer is a function of the bytes that were
/// parsed.
#[verifier::external_body]
pub(crate) fn file_is_little_endian(file: &ParsedFile) -> (r: bool)
    ensures
        r == is_little_endian_of(source_of(*file)),
{
    object::Object::is_little_endian(&file.file)
}

/// Calls `object::Object::is_64`. What it answers it reads from the parsed
/// file, so the answer is a function of the bytes that were parsed.
#[verifier::external_body]
pub(crate) fn file_is_64(file: &ParsedFile) -> (r: bool)
    ensures
        r == is_64_of(source_of(*file)),
{
    object::Object::is_64(&file.file)
}

/// Compares two architectures with the `==` that `object` derives for
/// `Architecture`, an enum without fields: it holds exactly when the two are
/// the same architecture.
#[verifier::external_body]
pub(crate) fn same_architecture(a: &object::Architecture, b: &object::Architecture) -> (r: bool)
    ensures
        r == (*a == *b),
{
    a == b
}

} // verus!
