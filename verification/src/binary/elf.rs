use vstd::prelude::*;

use super::{invalid_data, BinaryError, Endian};
use crate::text::{dec, hex, number_between, padded_digits, push_padded, push_str, string_of};

verus! {

/// What an ELF header says, as plain values.
pub struct ElfModel {
    pub format: Seq<char>,
    pub file_type: Seq<char>,
    pub architecture: Seq<char>,
    pub endian: Endian,
    pub os_abi: Seq<char>,
    pub entry_point: nat,
    pub program_headers: nat,
    pub sections: nat,
    pub is_64_bit: bool,
}

/// The fields of an ELF header that the summary shows.
pub struct ElfInfo {
    pub format: &'static str,
    pub file_type: String,
    pub architecture: String,
    pub endian: Endian,
    pub os_abi: String,
    pub entry_point: u64,
    pub program_headers: u16,
    pub sections: u16,
    pub is_64_bit: bool,
}

impl ElfInfo {
    pub open spec fn model(&self) -> ElfModel {
        ElfModel {
            format: self.format@,
            file_type: self.file_type@,
            architecture: self.architecture@,
            endian: self.endian,
            os_abi: self.os_abi@,
            entry_point: self.entry_point as nat,
            program_headers: self.program_headers as nat,
            sections: self.sections as nat,
            is_64_bit: self.is_64_bit,
        }
    }

    /// The summary lines for this header.
    pub fn format_summary(&self) -> (res: String)
        ensures
            res@ == elf_summary(self.model()),
    {
        let width: usize = if self.is_64_bit {
            16
        } else {
            8
        };
        let mut s = string_of("Format        ");
        push_str(&mut s, self.format);
        push_str(&mut s, "\nType          ");
        push_str(&mut s, self.file_type.as_str());
        push_str(&mut s, "\nArchitecture  ");
        push_str(&mut s, self.architecture.as_str());
        push_str(&mut s, "\nEndianness    ");
        push_str(&mut s, self.endian.name());
        push_str(&mut s, "\nOS/ABI        ");
        push_str(&mut s, self.os_abi.as_str());
        push_str(&mut s, "\nEntry Point   0x");
        push_padded(&mut s, self.entry_point, 16, width);
        push_str(&mut s, "\nProg Headers  ");
        push_padded(&mut s, self.program_headers as u64, 10, 0);
        push_str(&mut s, "\nSections      ");
        push_padded(&mut s, self.sections as u64, 10, 0);
        s
    }
}

/// The summary text of an ELF header: one labelled line per field, the
/// entry point in upper-case hexadecimal with 16 digits for 64-bit files
/// and 8 for 32-bit ones.
pub open spec fn elf_summary(m: ElfModel) -> Seq<char> {
    "Format        "@ + m.format + "\nType          "@ + m.file_type + "\nArchitecture  "@
        + m.architecture + "\nEndianness    "@ + m.endian.spec_name()@ + "\nOS/ABI        "@
        + m.os_abi + "\nEntry Point   0x"@ + hex(
        m.entry_point,
        if m.is_64_bit {
            16
        } else {
            8
        },
    ) + "\nProg Headers  "@ + padded_digits(m.program_headers, 10, 0) + "\nSections      "@
        + padded_digits(m.sections, 10, 0)
}

/// The four bytes every ELF file starts with.
pub open spec fn is_elf_magic(b: Seq<u8>) -> bool {
    b.len() >= 4 && b[0] == 0x7f && b[1] == 0x45 && b[2] == 0x4c && b[3] == 0x46
}

/// Why an ELF header cannot be read, if it cannot.
pub open spec fn elf_header_error(h: Seq<u8>) -> Option<BinaryError> {
    if h.len() < 16 || !is_elf_magic(h) {
        Some(BinaryError::InvalidData("missing ELF signature"))
    } else if h[4] != 1 && h[4] != 2 {
        Some(BinaryError::InvalidData("unknown ELF class"))
    } else if h.len() < (if h[4] == 1 {
        52int
    } else {
        64int
    }) {
        Some(BinaryError::InvalidData("truncated ELF header"))
    } else if h[5] != 1 && h[5] != 2 {
        Some(BinaryError::InvalidData("unknown ELF byte order"))
    } else {
        None
    }
}

/// The fields of a well-formed ELF header; byte 4 gives the class (1 for
/// 32-bit, 2 for 64-bit), byte 5 the byte order (1 little, 2 big), byte 7
/// the OS/ABI.
pub open spec fn elf_model(h: Seq<u8>) -> ElfModel {
    let is_64 = h[4] == 2;
    let e = if h[5] == 1 {
        Endian::Little
    } else {
        Endian::Big
    };
    ElfModel {
        format: if is_64 {
            "ELF64"@
        } else {
            "ELF32"@
        },
        file_type: elf_type_name(e.value_of(h.subrange(16, 18))),
        architecture: elf_machine_name(e.value_of(h.subrange(18, 20))),
        endian: e,
        os_abi: elf_os_abi_name(h[7] as nat),
        entry_point: if is_64 {
            e.value_of(h.subrange(24, 32))
        } else {
            e.value_of(h.subrange(24, 28))
        },
        program_headers: if is_64 {
            e.value_of(h.subrange(56, 58))
        } else {
            e.value_of(h.subrange(44, 46))
        },
        sections: if is_64 {
            e.value_of(h.subrange(60, 62))
        } else {
            e.value_of(h.subrange(48, 50))
        },
        is_64_bit: is_64,
    }
}

/// Reads the fields of an ELF header from its first bytes.
pub fn parse_header(header: &[u8]) -> (res: Result<ElfInfo, BinaryError>)
    ensures
        res is Err <==> elf_header_error(header@) is Some,
        res matches Err(e) ==> elf_header_error(header@) == Some(e),
        res matches Ok(info) ==> info.model() == elf_model(header@),
{
    if header.len() < 16 || !(header[0] == 0x7f && header[1] == 0x45 && header[2] == 0x4c
        && header[3] == 0x46) {
        return Err(invalid_data("missing ELF signature"));
    }
    let format: &'static str;
    let is_64_bit: bool;
    let required: usize;
    if header[4] == 1 {
        format = "ELF32";
        is_64_bit = false;
        required = 52;
    } else if header[4] == 2 {
        format = "ELF64";
        is_64_bit = true;
        required = 64;
    } else {
        return Err(invalid_data("unknown ELF class"));
    }
    if header.len() < required {
        return Err(invalid_data("truncated ELF header"));
    }
    let endian = if header[5] == 1 {
        Endian::Little
    } else if header[5] == 2 {
        Endian::Big
    } else {
        return Err(invalid_data("unknown ELF byte order"));
    };
    let entry_point: u64;
    let program_headers: u16;
    let sections: u16;
    if is_64_bit {
        entry_point = endian.u64(&header[24..32]);
        program_headers = endian.u16(&header[56..58]);
        sections = endian.u16(&header[60..62]);
        proof {
            assert(header@.subrange(24, 32).subrange(0, 8) =~= header@.subrange(24, 32));
            assert(header@.subrange(56, 58).subrange(0, 2) =~= header@.subrange(56, 58));
            assert(header@.subrange(60, 62).subrange(0, 2) =~= header@.subrange(60, 62));
        }
    } else {
        entry_point = endian.u32(&header[24..28]) as u64;
        program_headers = endian.u16(&header[44..46]);
        sections = endian.u16(&header[48..50]);
        proof {
            assert(header@.subrange(24, 28).subrange(0, 4) =~= header@.subrange(24, 28));
            assert(header@.subrange(44, 46).subrange(0, 2) =~= header@.subrange(44, 46));
            assert(header@.subrange(48, 50).subrange(0, 2) =~= header@.subrange(48, 50));
        }
    }
    let file_type = file_type_name(endian.u16(&header[16..18]));
    let architecture = machine_name(endian.u16(&header[18..20]));
    let os_abi = os_abi_name(header[7]);
    proof {
        assert(header@.subrange(16, 18).subrange(0, 2) =~= header@.subrange(16, 18));
        assert(header@.subrange(18, 20).subrange(0, 2) =~= header@.subrange(18, 20));
    }
    Ok(
        ElfInfo {
            format,
            file_type,
            architecture,
            endian,
            os_abi,
            entry_point,
            program_headers,
            sections,
            is_64_bit,
        },
    )
}

/// The name of an ELF file type.
pub open spec fn elf_type_name(t: nat) -> Seq<char> {
    if t == 0 {
        "None"@
    } else if t == 1 {
        "Relocatable Object"@
    } else if t == 2 {
        "Executable"@
    } else if t == 3 {
        "Shared Object / PIE"@
    } else if t == 4 {
        "Core Dump"@
    } else {
        "Unknown (0x"@ + hex(t, 4) + ")"@
    }
}

pub fn file_type_name(file_type: u16) -> (res: String)
    ensures
        res@ == elf_type_name(file_type as nat),
{
    match file_type {
        0 => string_of("None"),
        1 => string_of("Relocatable Object"),
        2 => string_of("Executable"),
        3 => string_of("Shared Object / PIE"),
        4 => string_of("Core Dump"),
        _ => number_between("Unknown (0x", file_type as u64, 16, 4, ")"),
    }
}

/// The name of an ELF machine.
pub open spec fn elf_machine_name(m: nat) -> Seq<char> {
    if m == 0x0003 {
        "x86"@
    } else if m == 0x0008 {
        "MIPS"@
    } else if m == 0x0014 {
        "PowerPC"@
    } else if m == 0x0015 {
        "PowerPC64"@
    } else if m == 0x0028 {
        "ARM"@
    } else if m == 0x003e {
        "x86-64"@
    } else if m == 0x00b7 {
        "ARM64"@
    } else if m == 0x00f3 {
        "RISC-V"@
    } else if m == 0x0102 {
        "LoongArch"@
    } else {
        "Unknown (0x"@ + hex(m, 4) + ")"@
    }
}

pub fn machine_name(machine: u16) -> (res: String)
    ensures
        res@ == elf_machine_name(machine as nat),
{
    match machine {
        0x0003 => string_of("x86"),
        0x0008 => string_of("MIPS"),
        0x0014 => string_of("PowerPC"),
        0x0015 => string_of("PowerPC64"),
        0x0028 => string_of("ARM"),
        0x003e => string_of("x86-64"),
        0x00b7 => string_of("ARM64"),
        0x00f3 => string_of("RISC-V"),
        0x0102 => string_of("LoongArch"),
        _ => number_between("Unknown (0x", machine as u64, 16, 4, ")"),
    }
}

/// The name of an ELF OS/ABI.
pub open spec fn elf_os_abi_name(a: nat) -> Seq<char> {
    if a == 0 {
        "UNIX System V"@
    } else if a == 1 {
        "HP-UX"@
    } else if a == 2 {
        "NetBSD"@
    } else if a == 3 {
        "Linux"@
    } else if a == 6 {
        "Solaris"@
    } else if a == 7 {
        "AIX"@
    } else if a == 8 {
        "IRIX"@
    } else if a == 9 {
        "FreeBSD"@
    } else if a == 12 {
        "OpenBSD"@
    } else {
        "Unknown ("@ + dec(a) + ")"@
    }
}

pub fn os_abi_name(os_abi: u8) -> (res: String)
    ensures
        res@ == elf_os_abi_name(os_abi as nat),
{
    match os_abi {
        0 => string_of("UNIX System V"),
        1 => string_of("HP-UX"),
        2 => string_of("NetBSD"),
        3 => string_of("Linux"),
        6 => string_of("Solaris"),
        7 => string_of("AIX"),
        8 => string_of("IRIX"),
        9 => string_of("FreeBSD"),
        12 => string_of("OpenBSD"),
        _ => number_between("Unknown (", os_abi as u64, 10, 0, ")"),
    }
}

/// The first bytes of a file that are read as its ELF header: up to 64.
pub open spec fn elf_header_bytes(data: Seq<u8>) -> Seq<u8> {
    if data.len() < 64 {
        data
    } else {
        data.subrange(0, 64)
    }
}

/// Summarises an ELF file from its header.
pub fn inspect(data: &[u8]) -> (res: Result<String, BinaryError>)
    ensures
        match elf_header_error(elf_header_bytes(data@)) {
            Some(e) => res == Err::<String, BinaryError>(e),
            None => res matches Ok(s) && s@ == elf_summary(elf_model(elf_header_bytes(data@))),
        },
{
    let read = if data.len() < 64 {
        data.len()
    } else {
        64
    };
    let header = &data[0..read];
    assert(header@ =~= elf_header_bytes(data@));
    match parse_header(header) {
        Ok(info) => Ok(info.format_summary()),
        Err(e) => Err(e),
    }
}

} // verus!
