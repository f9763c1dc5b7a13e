//! The checks that stand before a link: every input must parse as an object
//! file, be relocatable, and agree with the first input in architecture,
//! byte order and address width.

use vstd::prelude::*;
use crate::object_file::{
    ObjectKind, architecture_of, file_architecture, file_is_64, file_is_little_endian, file_kind,
    is_64_of, is_little_endian_of, kind_of, parse_file, parses, same_architecture,
};

verus! {

/// The byte order of an object file.
#[derive(Clone, Copy, Debug, PartialEq, Eq, Structural)]
pub enum Endianness {
    Little,
    Big,
}

/// What the checks need to know of one object file.
#[derive(Clone, Copy, Debug, PartialEq, Eq)]
pub struct ObjectHeader {
    pub kind: ObjectKind,
    pub architecture: object::Architecture,
    pub endianness: Endianness,
    pub is_64: bool,
}

/// What an object file can differ from the first input in.
#[derive(Clone, Copy, Debug, PartialEq, Eq, Structural)]
pub enum Aspect {
    Architecture,
    Endianness,
    Class,
}

/// Input `index` differs from the first input in `differs`.
#[derive(Clone, Copy, Debug, PartialEq, Eq, Structural)]
pub struct Incompatibility {
    pub index: usize,
    pub differs: Aspect,
}

/// Why the inputs could not all be read: input `index` is no object file.
#[derive(Clone, Copy, Debug, PartialEq, Eq, Structural)]
pub struct ParseFailure {
    pub index: usize,
}

/// The byte order that the `object` crate reads from the bytes.
pub open spec fn endianness_of(bytes: Seq<u8>) -> Endianness {
    if is_little_endian_of(bytes) {
        Endianness::Little
    } else {
        Endianness::Big
    }
}

/// The header says of the bytes what the `object` crate reads from them.
pub open spec fn describes(header: ObjectHeader, bytes: Seq<u8>) -> bool {
    &&& header.kind == kind_of(bytes)
    &&& header.architecture == architecture_of(bytes)
    &&& header.endianness == endianness_of(bytes)
    &&& header.is_64 == is_64_of(bytes)
}

/// The indices below `n` of the inputs that are not relocatable, in order.
pub open spec fn not_relocatable(headers: Seq<ObjectHeader>, n: int) -> Seq<usize>
    decreases n,
{
    if n <= 0 {
        Seq::empty()
    } else if headers[n - 1].kind != ObjectKind::Relocatable {
        not_relocatable(headers, n - 1).push((n - 1) as usize)
    } else {
        not_relocatable(headers, n - 1)
    }
}

/// One finding for `differs` at `index` where `differ` holds, and none
/// where it does not.
pub open spec fn finding(differ: bool, index: usize, differs: Aspect) -> Seq<Incompatibility> {
    if differ {
        seq![Incompatibility { index, differs }]
    } else {
        Seq::empty()
    }
}

/// In what the input at `index` differs from `first`: architecture, then byte
/// order, then address width.
pub open spec fn differences(first: ObjectHeader, other: ObjectHeader, index: usize) -> Seq<
    Incompatibility,
> {
    finding(other.architecture != first.architecture, index, Aspect::Architecture) + finding(
        other.endianness != first.endianness,
        index,
        Aspect::Endianness,
    ) + finding(other.is_64 != first.is_64, index, Aspect::Class)
}

/// In what the first `n` inputs differ from the first of them, input by
/// input.
pub open spec fn incompatibilities(headers: Seq<ObjectHeader>, n: int) -> Seq<Incompatibility>
    decreases n,
{
    if n <= 0 {
        Seq::empty()
    } else {
        incompatibilities(headers, n - 1) + differences(
            headers[0],
            headers[n - 1],
            (n - 1) as usize,
        )
    }
}

/// Reads the header of an object file; `None` where the bytes are no object
/// file.
pub fn inspect(bytes: &[u8]) -> (r: Option<ObjectHeader>)
    ensures
        r.is_some() == parses(bytes@),
        r.is_some() ==> describes(r.unwrap(), bytes@),
{
    match parse_file(bytes) {
        Some(file) => {
            let endianness = if file_is_little_endian(&file) {
                Endianness::Little
            } else {
                Endianness::Big
            };
            Some(
                ObjectHeader {
                    kind: file_kind(&file),
                    architecture: file_architecture(&file),
                    endianness,
                    is_64: file_is_64(&file),
                },
            )
        },
        None => None,
    }
}

/// Reads the header of every input, in order, and stops at the first input
/// that is no object file.
pub fn parse_input_files(file_content_buf: &Vec<Vec<u8>>) -> (r: Result<
    Vec<ObjectHeader>,
    ParseFailure,
>)
    ensures
        match r {
            Ok(headers) => {
                &&& headers.len() == file_content_buf.len()
                &&& forall|i: int|
                    0 <= i < headers.len() ==> parses(#[trigger] file_content_buf[i]@)
                &&& forall|i: int|
                    0 <= i < headers.len() ==> describes(
                        #[trigger] headers[i],
                        file_content_buf[i]@,
                    )
            },
            Err(failure) => {
                &&& failure.index < file_content_buf.len()
                &&& !parses(file_content_buf[failure.index as int]@)
                &&& forall|i: int|
                    0 <= i < failure.index ==> parses(#[trigger] file_content_buf[i]@)
            },
        },
{
    let mut headers: Vec<ObjectHeader> = Vec::new();
    let mut i: usize = 0;
    while i < file_content_buf.len()
        invariant
            i <= file_content_buf.len(),
            headers.len() == i,
            forall|k: int| 0 <= k < i ==> parses(#[trigger] file_content_buf[k]@),
            forall|k: int| 0 <= k < i ==> describes(#[trigger] headers[k], file_content_buf[k]@),
        decreases file_content_buf.len() - i,
    {
        match inspect(file_content_buf[i].as_slice()) {
            Some(header) => {
                headers.push(header);
            },
            None => {
                return Err(ParseFailure { index: i });
            },
        }
        i += 1;
    }
    Ok(headers)
}

/// Finds the inputs that cannot be linked because they are not relocatable
/// objects: their indices, in order.
pub fn check_object_kinds(headers: &Vec<ObjectHeader>) -> (r: Vec<usize>)
    ensures
        r@ == not_relocatable(headers@, headers.len() as int),
{
    let mut found: Vec<usize> = Vec::new();
    let mut i: usize = 0;
    while i < headers.len()
        invariant
            i <= headers.len(),
            found@ == not_relocatable(headers@, i as int),
        decreases headers.len() - i,
    {
        if headers[i].kind != ObjectKind::Relocatable {
            found.push(i);
        }
        i += 1;
    }
    found
}

/// Holds every input against the first: for each input in order, whether its
/// architecture, its byte order and its address width are those of the first
/// input. Returns one finding for each difference, and the architecture, the
/// byte order and the address width of the first input, which are those of
/// the linked object.
pub fn check_object_incompats(headers: &Vec<ObjectHeader>) -> (r: (
    Vec<Incompatibility>,
    object::Architecture,
    Endianness,
    bool,
))
    requires
        headers.len() > 0,
    ensures
        r.0@ == incompatibilities(headers@, headers.len() as int),
        r.1 == headers[0].architecture,
        r.2 == headers[0].endianness,
        r.3 == headers[0].is_64,
{
    let first = headers[0];
    let mut found: Vec<Incompatibility> = Vec::new();
    let mut i: usize = 0;
    while i < headers.len()
        invariant
            i <= headers.len(),
            headers.len() > 0,
            first == headers[0],
            found@ == incompatibilities(headers@, i as int),
        decreases headers.len() - i,
    {
        let current = &headers[i];
        let ghost before = found@;
        if !same_architecture(&current.architecture, &first.architecture) {
            found.push(Incompatibility { index: i, differs: Aspect::Architecture });
        }
        if current.endianness != first.endianness {
            found.push(Incompatibility { index: i, differs: Aspect::Endianness });
        }
        if current.is_64 != first.is_64 {
            found.push(Incompatibility { index: i, differs: Aspect::Class });
        }
        assert(found@ =~= before + differences(first, *current, i));
        i += 1;
    }
    (found, first.architecture, first.endianness, first.is_64)
}

} // verus!
