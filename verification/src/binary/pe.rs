use vstd::prelude::*;

use super::{invalid_data, le_value, BinaryError, Endian};
use crate::text::{dec, hex, number_between, padded_digits, push_padded, push_str, string_of};

verus! {

/// What the PE headers say, as plain values.
pub struct PeModel {
    pub format: Seq<char>,
    pub architecture: Seq<char>,
    pub sections: nat,
    pub entry_point: nat,
    pub image_base: nat,
    pub subsystem: Seq<char>,
    pub is_64_bit: bool,
}

/// The fields of the PE headers that the summary shows.
#[derive(Debug, PartialEq, Eq)]
pub struct PeInfo {
    pub format: &'static str,
    pub architecture: String,
    pub sections: u16,
    pub entry_point: u32,
    pub image_base: u64,
    pub subsystem: String,
    pub is_64_bit: bool,
}

impl PeInfo {
    pub open spec fn model(&self) -> PeModel {
        PeModel {
            format: self.format@,
            architecture: self.architecture@,
            sections: self.sections as nat,
            entry_point: self.entry_point as nat,
            image_base: self.image_base as nat,
            subsystem: self.subsystem@,
            is_64_bit: self.is_64_bit,
        }
    }

    /// The summary lines for these headers.
    pub fn format_summary(&self) -> (res: String)
        ensures
            res@ == pe_summary(self.model()),
    {
        let width: usize = if self.is_64_bit {
            16
        } else {
            8
        };
        let mut s = string_of("Format        ");
        push_str(&mut s, self.format);
        push_str(&mut s, "\nArchitecture  ");
        push_str(&mut s, self.architecture.as_str());
        push_str(&mut s, "\nSections      ");
        push_padded(&mut s, self.sections as u64, 10, 0);
        push_str(&mut s, "\nEntry Point   0x");
        push_padded(&mut s, self.entry_point as u64, 16, 8);
        push_str(&mut s, "\nImage Base    0x");
        push_padded(&mut s, self.image_base, 16, width);
        push_str(&mut s, "\nSubsystem     ");
        push_str(&mut s, self.subsystem.as_str());
        s
    }
}

/// The summary text of PE headers: the entry point with 8 hexadecimal
/// digits, the image base with 16 for PE32+ and 8 for PE32.
pub open spec fn pe_summary(m: PeModel) -> Seq<char> {
    "Format        "@ + m.format + "\nArchitecture  "@ + m.architecture + "\nSections      "@
        + padded_digits(m.sections, 10, 0) + "\nEntry Point   0x"@ + hex(m.entry_point, 8)
        + "\nImage Base    0x"@ + hex(
        m.image_base,
        if m.is_64_bit {
            16
        } else {
            8
        },
    ) + "\nSubsystem     "@ + m.subsystem
}

/// A parse result matches a result over plain values.
pub open spec fn pe_result_matches(
    res: Result<PeInfo, BinaryError>,
    expected: Result<PeModel, BinaryError>,
) -> bool {
    match (res, expected) {
        (Ok(info), Ok(m)) => info.model() == m,
        (Err(e), Err(f)) => e == f,
        _ => false,
    }
}

/// The little-endian field of `n` bytes at `start`.
pub open spec fn le_field(b: Seq<u8>, start: int, n: int) -> nat {
    le_value(b.subrange(start, start + n))
}

/// What the COFF header (with its signature) and the optional header give.
pub open spec fn pe_headers_result(coff: Seq<u8>, opt: Seq<u8>) -> Result<PeModel, BinaryError> {
    if coff.len() < 24 || opt.len() < 70 {
        Err(BinaryError::InvalidData("truncated PE header"))
    } else {
        let magic = le_field(opt, 0, 2);
        if magic != 0x10b && magic != 0x20b {
            Err(BinaryError::InvalidData("unknown PE optional-header format"))
        } else {
            let is_64 = magic == 0x20b;
            Ok(
                PeModel {
                    format: if is_64 {
                        "PE32+ (64-bit)"@
                    } else {
                        "PE32 (32-bit)"@
                    },
                    architecture: pe_machine_name(le_field(coff, 4, 2)),
                    sections: le_field(coff, 6, 2),
                    entry_point: le_field(opt, 16, 4),
                    image_base: if is_64 {
                        le_field(opt, 24, 8)
                    } else {
                        le_field(opt, 28, 4)
                    },
                    subsystem: pe_subsystem_name(le_field(opt, 68, 2)),
                    is_64_bit: is_64,
                },
            )
        }
    }
}

proof fn lemma_whole(b: Seq<u8>, start: int, n: int)
    requires
        0 <= start,
        0 <= n,
        start + n <= b.len(),
    ensures
        b.subrange(start, start + n).subrange(0, n) =~= b.subrange(start, start + n),
{
}

fn le16(b: &[u8], start: usize) -> (res: u16)
    requires
        start + 2 <= b@.len(),
    ensures
        res as nat == le_field(b@, start as int, 2),
{
    proof {
        lemma_whole(b@, start as int, 2);
    }
    let _n = b.len();
    Endian::Little.u16(&b[start..start + 2])
}

fn le32(b: &[u8], start: usize) -> (res: u32)
    requires
        start + 4 <= b@.len(),
    ensures
        res as nat == le_field(b@, start as int, 4),
{
    proof {
        lemma_whole(b@, start as int, 4);
    }
    let _n = b.len();
    Endian::Little.u32(&b[start..start + 4])
}

fn le64(b: &[u8], start: usize) -> (res: u64)
    requires
        start + 8 <= b@.len(),
    ensures
        res as nat == le_field(b@, start as int, 8),
{
    proof {
        lemma_whole(b@, start as int, 8);
    }
    let _n = b.len();
    Endian::Little.u64(&b[start..start + 8])
}

/// Reads the fields of the COFF header (starting at the `PE\0\0`
/// signature) and of the optional header.
pub fn parse_headers(coff_header: &[u8], optional_header: &[u8]) -> (res: Result<
    PeInfo,
    BinaryError,
>)
    ensures
        pe_result_matches(res, pe_headers_result(coff_header@, optional_header@)),
{
    if coff_header.len() < 24 || optional_header.len() < 70 {
        return Err(invalid_data("truncated PE header"));
    }
    let machine = le16(coff_header, 4);
    let sections = le16(coff_header, 6);
    let magic = le16(optional_header, 0);
    let entry_point = le32(optional_header, 16);
    let format: &'static str;
    let image_base: u64;
    let is_64_bit: bool;
    if magic == 0x10b {
        format = "PE32 (32-bit)";
        image_base = le32(optional_header, 28) as u64;
        is_64_bit = false;
    } else if magic == 0x20b {
        format = "PE32+ (64-bit)";
        image_base = le64(optional_header, 24);
        is_64_bit = true;
    } else {
        return Err(invalid_data("unknown PE optional-header format"));
    }
    let architecture = machine_name(machine);
    let subsystem = subsystem_name(le16(optional_header, 68));
    Ok(
        PeInfo {
            format,
            architecture,
            sections,
            entry_point,
            image_base,
            subsystem,
            is_64_bit,
        },
    )
}

/// What a file that starts with `MZ` gives as a PE image: the DOS header
/// (64 bytes) holds at 0x3c the offset of the `PE\0\0` signature, which
/// starts the 24 bytes of the COFF header; the optional header follows,
/// its size at offset 20 of the COFF header.
pub open spec fn pe_file_result(data: Seq<u8>) -> Result<PeModel, BinaryError> {
    if data.len() < 64 {
        Err(BinaryError::UnexpectedEof)
    } else if data[0] != 0x4d || data[1] != 0x5a {
        Err(BinaryError::InvalidData("missing DOS signature"))
    } else {
        let pe_offset = le_field(data, 0x3c, 4) as int;
        if pe_offset + 24 > data.len() {
            Err(BinaryError::UnexpectedEof)
        } else {
            let coff = data.subrange(pe_offset, pe_offset + 24);
            if coff[0] != 0x50 || coff[1] != 0x45 || coff[2] != 0 || coff[3] != 0 {
                Err(BinaryError::InvalidData("missing PE signature"))
            } else {
                let opt_size = le_field(coff, 20, 2) as int;
                if pe_offset + 24 + opt_size > data.len() {
                    Err(BinaryError::UnexpectedEof)
                } else {
                    pe_headers_result(
                        coff,
                        data.subrange(pe_offset + 24, pe_offset + 24 + opt_size),
                    )
                }
            }
        }
    }
}

/// Reads the PE headers of a whole file.
pub fn read_info(data: &[u8]) -> (res: Result<PeInfo, BinaryError>)
    ensures
        pe_result_matches(res, pe_file_result(data@)),
{
    if data.len() < 64 {
        return Err(BinaryError::UnexpectedEof);
    }
    if data[0] != 0x4d || data[1] != 0x5a {
        return Err(invalid_data("missing DOS signature"));
    }
    let pe_offset = le32(data, 0x3c) as usize;
    if pe_offset > data.len() || data.len() - pe_offset < 24 {
        return Err(BinaryError::UnexpectedEof);
    }
    let pe_header = &data[pe_offset..pe_offset + 24];
    if pe_header[0] != 0x50 || pe_header[1] != 0x45 || pe_header[2] != 0 || pe_header[3] != 0 {
        return Err(invalid_data("missing PE signature"));
    }
    let optional_header_size = le16(pe_header, 20) as usize;
    if data.len() - pe_offset - 24 < optional_header_size {
        return Err(BinaryError::UnexpectedEof);
    }
    let optional_header = &data[pe_offset + 24..pe_offset + 24 + optional_header_size];
    parse_headers(pe_header, optional_header)
}

/// Summarises a PE image.
pub fn inspect(data: &[u8]) -> (res: Result<String, BinaryError>)
    ensures
        match (res, pe_file_result(data@)) {
            (Ok(s), Ok(m)) => s@ == pe_summary(m),
            (Err(e), Err(f)) => e == f,
            _ => false,
        },
{
    match read_info(data) {
        Ok(info) => Ok(info.format_summary()),
        Err(e) => Err(e),
    }
}

/// Whether a COFF machine field names a known machine.
pub open spec fn pe_known_machine(m: nat) -> bool {
    m == 0x014c || m == 0x0166 || m == 0x0168 || m == 0x0169 || m == 0x01a2 || m == 0x01a3 || m
        == 0x01a6 || m == 0x01a8 || m == 0x01c0 || m == 0x01c2 || m == 0x01c4 || m == 0x01d3 || m
        == 0x01f0 || m == 0x01f1 || m == 0x0200 || m == 0x0266 || m == 0x0284 || m == 0x0366 || m
        == 0x0466 || m == 0x0520 || m == 0x0ebc || m == 0x5032 || m == 0x5064 || m == 0x5128 || m
        == 0x6232 || m == 0x6264 || m == 0x8664 || m == 0x9041 || m == 0xaa64
}

pub fn is_known_machine(machine: u16) -> (res: bool)
    ensures
        res == pe_known_machine(machine as nat),
{
    match machine {
        0x014c | 0x0166 | 0x0168 | 0x0169 | 0x01a2 | 0x01a3 | 0x01a6 | 0x01a8 | 0x01c0 | 0x01c2
        | 0x01c4 | 0x01d3 | 0x01f0 | 0x01f1 | 0x0200 | 0x0266 | 0x0284 | 0x0366 | 0x0466 | 0x0520
        | 0x0ebc | 0x5032 | 0x5064 | 0x5128 | 0x6232 | 0x6264 | 0x8664 | 0x9041 | 0xaa64 => true,
        _ => false,
    }
}

/// The name of a COFF machine.
pub open spec fn pe_machine_name(m: nat) -> Seq<char> {
    if m == 0x014c {
        "x86"@
    } else if m == 0x8664 {
        "x86-64"@
    } else if m == 0x01c0 || m == 0x01c2 || m == 0x01c4 {
        "ARM"@
    } else if m == 0xaa64 {
        "ARM64"@
    } else if m == 0x5032 {
        "RISC-V 32"@
    } else if m == 0x5064 {
        "RISC-V 64"@
    } else if m == 0x5128 {
        "RISC-V 128"@
    } else {
        "Unknown (0x"@ + hex(m, 4) + ")"@
    }
}

/// Every machine that has a name of its own, rather than the
/// `Unknown (0x....)` text, is a known machine.
pub proof fn lemma_named_machines_are_known(m: nat)
    requires
        pe_machine_name(m) != "Unknown (0x"@ + hex(m, 4) + ")"@,
    ensures
        pe_known_machine(m),
{
}

pub fn machine_name(machine: u16) -> (res: String)
    ensures
        res@ == pe_machine_name(machine as nat),
{
    match machine {
        0x014c => string_of("x86"),
        0x8664 => string_of("x86-64"),
        0x01c0 | 0x01c2 | 0x01c4 => string_of("ARM"),
        0xaa64 => string_of("ARM64"),
        0x5032 => string_of("RISC-V 32"),
        0x5064 => string_of("RISC-V 64"),
        0x5128 => string_of("RISC-V 128"),
        _ => number_between("Unknown (0x", machine as u64, 16, 4, ")"),
    }
}

/// The name of a PE subsystem.
pub open spec fn pe_subsystem_name(s: nat) -> Seq<char> {
    if s == 0 {
        "Unknown"@
    } else if s == 1 {
        "Native"@
    } else if s == 2 {
        "Windows GUI"@
    } else if s == 3 {
        "Windows CUI"@
    } else if s == 7 {
        "POSIX CUI"@
    } else if s == 9 {
        "Windows CE GUI"@
    } else if s == 10 {
        "EFI Application"@
    } else if s == 11 {
        "EFI Boot Service Driver"@
    } else if s == 12 {
        "EFI Runtime Driver"@
    } else if s == 13 {
        "EFI ROM"@
    } else if s == 14 {
        "Xbox"@
    } else if s == 16 {
        "Windows Boot Application"@
    } else {
        "Unknown ("@ + dec(s) + ")"@
    }
}

pub fn subsystem_name(subsystem: u16) -> (res: String)
    ensures
        res@ == pe_subsystem_name(subsystem as nat),
{
    match subsystem {
        0 => string_of("Unknown"),
        1 => string_of("Native"),
        2 => string_of("Windows GUI"),
        3 => string_of("Windows CUI"),
        7 => string_of("POSIX CUI"),
        9 => string_of("Windows CE GUI"),
        10 => string_of("EFI Application"),
        11 => string_of("EFI Boot Service Driver"),
        12 => string_of("EFI Runtime Driver"),
        13 => string_of("EFI ROM"),
        14 => string_of("Xbox"),
        16 => string_of("Windows Boot Application"),
        _ => number_between("Unknown (", subsystem as u64, 10, 0, ")"),
    }
}

} // verus!
