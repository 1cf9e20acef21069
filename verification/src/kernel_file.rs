//! The kernel as a file.

use elf::endian::AnyEndian;
use elf::{ElfBytes, ParseError};
use vstd::prelude::*;

use crate::loader::LoaderError;

verus! {

/// The error of `elf` for bytes that are not an ELF file.
#[verifier::external_type_specification]
#[verifier::external_body]
pub struct ExParseError(elf::ParseError);

/// What a segment of an ELF file says of itself.
#[derive(Debug, Clone, Copy, PartialEq, Eq, Structural)]
pub struct ProgramHeader {
    /// The type of the segment.
    pub p_type: u32,
    /// Where the segment starts in the file.
    pub p_offset: u64,
    /// The virtual address that the segment is loaded at.
    pub p_vaddr: u64,
    /// The size of the segment in the file.
    pub p_filesz: u64,
    /// The size of the segment in memory.
    pub p_memsz: u64,
}

/// What the loader reads of an ELF file.
#[derive(Debug)]
pub struct ElfFile {
    /// The address at which the program starts.
    pub entry: u64,
    /// The segments, if there is a table of them.
    pub segments: Option<Vec<ProgramHeader>>,
}

impl View for ElfFile {
    type V = (u64, Option<Seq<ProgramHeader>>);

    open spec fn view(&self) -> (u64, Option<Seq<ProgramHeader>>) {
        (
            self.entry,
            match self.segments {
                Some(segments) => Some(segments@),
                None => None,
            },
        )
    }
}

/// The entry point and the segments of the ELF file that `data` is. There is nothing if `data`
/// is not an ELF file.
pub uninterp spec fn elf_file(data: Seq<u8>) -> Option<(u64, Option<Seq<ProgramHeader>>)>;

/// Parses an ELF file.
///
/// Calls `elf::ElfBytes::<AnyEndian>::minimal_parse`, and takes the entry point and the segments
/// out of what it returns. The claim is that these are a function of the bytes, and that it
/// depends on the bytes alone whether they are refused.
#[verifier::external_body]
fn elf_parse(data: &[u8]) -> (file: Result<ElfFile, ParseError>)
    ensures
        file is Ok <==> elf_file(data@) is Some,
        file matches Ok(f) ==> elf_file(data@) == Some(f@),
{
    ElfBytes::<AnyEndian>::minimal_parse(data).map(
        |file| ElfFile {
            entry: file.ehdr.e_entry,
            segments: file.segments().map(|table| table.into_iter().map(|s| ProgramHeader {
                p_type: s.p_type,
                p_offset: s.p_offset,
                p_vaddr: s.p_vaddr,
                p_filesz: s.p_filesz,
                p_memsz: s.p_memsz,
            }).collect()),
        },
    )
}

/// Parses the kernel.
pub fn parse_kernel(data: &[u8]) -> (file: Result<ElfFile, LoaderError>)
    ensures
        file is Ok <==> elf_file(data@) is Some,
        file matches Ok(f) ==> elf_file(data@) == Some(f@),
        file matches Err(e) ==> e is ElfParse,
{
    match elf_parse(data) {
        Ok(file) => Ok(file),
        Err(e) => Err(LoaderError::from(e)),
    }
}

/// The type of a segment that is loaded into memory.
pub const PT_LOAD: u32 = 1;

/// Whether a segment is loaded into memory.
pub open spec fn is_load_segment(segment: ProgramHeader) -> bool {
    segment.p_type == PT_LOAD
}

/// The segments of a file that are loaded into memory, in the order of the file.
pub fn load_segments(file: &ElfFile) -> (segments: Result<Vec<ProgramHeader>, LoaderError>)
    ensures
        segments is Ok <==> file.segments is Some,
        segments matches Ok(s) ==> s@ == file.segments->Some_0@.filter(
            |segment: ProgramHeader| is_load_segment(segment),
        ),
        segments matches Err(e) ==> e is InvalidKernelElf,
{
    match &file.segments {
        None => Err(LoaderError::InvalidKernelElf),
        Some(all) => {
            let ghost wanted = |segment: ProgramHeader| is_load_segment(segment);
            let mut segments: Vec<ProgramHeader> = Vec::new();
            let mut i: usize = 0;
            proof {
                reveal(Seq::filter);
                assert(all@.take(0).filter(wanted) =~= Seq::empty());
            }
            while i < all.len()
                invariant
                    i <= all.len(),
                    wanted == (|segment: ProgramHeader| is_load_segment(segment)),
                    segments@ == all@.take(i as int).filter(wanted),
                decreases all.len() - i,
            {
                proof {
                    reveal(Seq::filter);
                    assert(all@.take(i + 1).drop_last() =~= all@.take(i as int));
                    assert(all@.take(i + 1).last() == all@[i as int]);
                }
                if all[i].p_type == PT_LOAD {
                    segments.push(all[i]);
                }
                i = i + 1;
            }
            assert(all@.take(i as int) =~= all@);
            Ok(segments)
        },
    }
}

} // verus!
