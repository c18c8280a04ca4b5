use vstd::prelude::*;

use super::{invalid_data, BinaryError, Endian};
use crate::text::{
    hex, join_names, number_between, padded_digits, push_padded, push_str, sorted_names, string_of,
    NameSet,
};

verus! {

/// Whether four bytes are a Mach-O magic number, and which byte order and
/// word size they announce.
pub open spec fn spec_macho_magic(m: Seq<u8>) -> Option<(Endian, bool)> {
    if m.len() != 4 {
        None
    } else if m =~= seq![0xCEu8, 0xFA, 0xED, 0xFE] {
        Some((Endian::Little, false))
    } else if m =~= seq![0xCFu8, 0xFA, 0xED, 0xFE] {
        Some((Endian::Little, true))
    } else if m =~= seq![0xFEu8, 0xED, 0xFA, 0xCE] {
        Some((Endian::Big, false))
    } else if m =~= seq![0xFEu8, 0xED, 0xFA, 0xCF] {
        Some((Endian::Big, true))
    } else {
        None
    }
}

/// Whether four bytes are a universal (fat) Mach-O magic number, and which
/// byte order and table width they announce.
pub open spec fn spec_fat_magic(m: Seq<u8>) -> Option<(Endian, bool)> {
    if m.len() != 4 {
        None
    } else if m =~= seq![0xCAu8, 0xFE, 0xBA, 0xBE] {
        Some((Endian::Big, false))
    } else if m =~= seq![0xBEu8, 0xBA, 0xFE, 0xCA] {
        Some((Endian::Little, false))
    } else if m =~= seq![0xCAu8, 0xFE, 0xBA, 0xBF] {
        Some((Endian::Big, true))
    } else if m =~= seq![0xBFu8, 0xBA, 0xFE, 0xCA] {
        Some((Endian::Little, true))
    } else {
        None
    }
}

fn four_bytes_are(m: &[u8], a: u8, b: u8, c: u8, d: u8) -> (res: bool)
    ensures
        res == (m@ =~= seq![a, b, c, d]),
{
    if m.len() != 4 {
        return false;
    }
    let res = m[0] == a && m[1] == b && m[2] == c && m[3] == d;
    proof {
        if res {
            assert(m@ =~= seq![a, b, c, d]);
        }
    }
    res
}

pub fn macho_magic(magic: &[u8]) -> (res: Option<(Endian, bool)>)
    ensures
        res == spec_macho_magic(magic@),
{
    if four_bytes_are(magic, 0xCE, 0xFA, 0xED, 0xFE) {
        Some((Endian::Little, false))
    } else if four_bytes_are(magic, 0xCF, 0xFA, 0xED, 0xFE) {
        Some((Endian::Little, true))
    } else if four_bytes_are(magic, 0xFE, 0xED, 0xFA, 0xCE) {
        Some((Endian::Big, false))
    } else if four_bytes_are(magic, 0xFE, 0xED, 0xFA, 0xCF) {
        Some((Endian::Big, true))
    } else {
        None
    }
}

pub fn fat_magic(magic: &[u8]) -> (res: Option<(Endian, bool)>)
    ensures
        res == spec_fat_magic(magic@),
{
    if four_bytes_are(magic, 0xCA, 0xFE, 0xBA, 0xBE) {
        Some((Endian::Big, false))
    } else if four_bytes_are(magic, 0xBE, 0xBA, 0xFE, 0xCA) {
        Some((Endian::Little, false))
    } else if four_bytes_are(magic, 0xCA, 0xFE, 0xBA, 0xBF) {
        Some((Endian::Big, true))
    } else if four_bytes_are(magic, 0xBF, 0xBA, 0xFE, 0xCA) {
        Some((Endian::Little, true))
    } else {
        None
    }
}

pub fn is_macho(magic: &[u8]) -> (res: bool)
    ensures
        res == spec_macho_magic(magic@) is Some,
{
    macho_magic(magic).is_some()
}

pub fn is_universal(magic: &[u8]) -> (res: bool)
    ensures
        res == spec_fat_magic(magic@) is Some,
{
    fat_magic(magic).is_some()
}

/// The field of `n` bytes at `start` in byte order `e`.
pub open spec fn field(e: Endian, b: Seq<u8>, start: int, n: int) -> nat {
    e.value_of(b.subrange(start, start + n))
}

fn read_u32(e: Endian, b: &[u8], start: usize) -> (res: u32)
    requires
        start + 4 <= b@.len(),
    ensures
        res as nat == field(e, b@, start as int, 4),
{
    let _len = b.len();
    let part = &b[start..start + 4];
    assert(part@.subrange(0, 4) =~= part@);
    e.u32(part)
}

fn read_u64(e: Endian, b: &[u8], start: usize) -> (res: u64)
    requires
        start + 8 <= b@.len(),
    ensures
        res as nat == field(e, b@, start as int, 8),
{
    let _len = b.len();
    let part = &b[start..start + 8];
    assert(part@.subrange(0, 8) =~= part@);
    e.u64(part)
}

/// The entry point offset given by the first `LC_MAIN` command (command
/// `0x80000028` of at least 24 bytes) among the first `count` load
/// commands starting at `offset`; none when a command is cut short, is
/// smaller than 8 bytes or runs past the end of the commands.
pub open spec fn entry_scan(c: Seq<u8>, e: Endian, offset: int, count: nat) -> Option<nat>
    decreases count,
{
    if count == 0 || offset < 0 {
        None
    } else if offset + 8 > c.len() {
        None
    } else {
        let command = field(e, c, offset, 4);
        let size = field(e, c, offset + 4, 4);
        if size < 8 || offset + size > c.len() {
            None
        } else if command == 0x8000_0028 && size >= 24 {
            Some(field(e, c, offset + 8, 8))
        } else {
            entry_scan(c, e, offset + size, (count - 1) as nat)
        }
    }
}

/// Finds the entry point offset among the load commands.
pub fn entry_offset(commands: &[u8], endian: Endian, count: u32) -> (res: Option<u64>)
    ensures
        res matches Some(v) ==> entry_scan(commands@, endian, 0, count as nat) == Some(v as nat),
        res is None ==> entry_scan(commands@, endian, 0, count as nat) is None,
{
    let len = commands.len();
    let mut offset: usize = 0;
    let mut i: u32 = 0;
    while i < count
        invariant
            i <= count,
            offset <= len,
            len == commands@.len(),
            entry_scan(commands@, endian, 0, count as nat) == entry_scan(
                commands@,
                endian,
                offset as int,
                (count - i) as nat,
            ),
        decreases count - i,
    {
        if len - offset < 8 {
            return None;
        }
        let command = read_u32(endian, commands, offset);
        let size = read_u32(endian, commands, offset + 4) as usize;
        if size < 8 || len - offset < size {
            return None;
        }
        if command == 0x8000_0028 && size >= 24 {
            return Some(read_u64(endian, commands, offset + 8));
        }
        offset = offset + size;
        i = i + 1;
    }
    None
}

/// The name of a Mach-O CPU type.
pub open spec fn macho_cpu_name(c: nat) -> Seq<char> {
    if c == 0x0000_0007 {
        "x86"@
    } else if c == 0x0100_0007 {
        "x86-64"@
    } else if c == 0x0000_000c {
        "ARM"@
    } else if c == 0x0100_000c {
        "ARM64"@
    } else if c == 0x0200_000c {
        "ARM64_32"@
    } else if c == 0x0000_0012 {
        "PowerPC"@
    } else if c == 0x0100_0012 {
        "PowerPC64"@
    } else {
        "Unknown (0x"@ + hex(c, 8) + ")"@
    }
}

pub fn cpu_name(cpu: u32) -> (res: String)
    ensures
        res@ == macho_cpu_name(cpu as nat),
{
    match cpu {
        0x0000_0007 => string_of("x86"),
        0x0100_0007 => string_of("x86-64"),
        0x0000_000c => string_of("ARM"),
        0x0100_000c => string_of("ARM64"),
        0x0200_000c => string_of("ARM64_32"),
        0x0000_0012 => string_of("PowerPC"),
        0x0100_0012 => string_of("PowerPC64"),
        _ => number_between("Unknown (0x", cpu as u64, 16, 8, ")"),
    }
}

/// The name of a Mach-O file type.
pub open spec fn macho_file_type_name(t: nat) -> Seq<char> {
    if t == 1 {
        "Relocatable Object"@
    } else if t == 2 {
        "Executable"@
    } else if t == 3 {
        "Fixed VM Shared Library"@
    } else if t == 4 {
        "Core Dump"@
    } else if t == 5 {
        "Preloaded Executable"@
    } else if t == 6 {
        "Dynamic Library"@
    } else if t == 7 {
        "Dynamic Linker"@
    } else if t == 8 {
        "Bundle"@
    } else if t == 9 {
        "Dynamic Library Stub"@
    } else if t == 10 {
        "dSYM Companion"@
    } else if t == 11 {
        "Kernel Extension"@
    } else {
        "Unknown (0x"@ + hex(t, 8) + ")"@
    }
}

/// Each Mach-O file type has a name of its own: different codes get
/// different names, `Executable` names file type 2 only and `Relocatable
/// Object` file type 1 only.
pub proof fn lemma_macho_file_type_names_differ(t1: nat, t2: nat)
    ensures
        t1 != t2 && 1 <= t1 <= 11 ==> macho_file_type_name(t1) != macho_file_type_name(t2),
        macho_file_type_name(t1) == "Executable"@ <==> t1 == 2,
        macho_file_type_name(t1) == "Relocatable Object"@ <==> t1 == 1,
{
    reveal_strlit("Relocatable Object");
    reveal_strlit("Executable");
    reveal_strlit("Fixed VM Shared Library");
    reveal_strlit("Core Dump");
    reveal_strlit("Preloaded Executable");
    reveal_strlit("Dynamic Library");
    reveal_strlit("Dynamic Linker");
    reveal_strlit("Bundle");
    reveal_strlit("Dynamic Library Stub");
    reveal_strlit("dSYM Companion");
    reveal_strlit("Kernel Extension");
    reveal_strlit("Unknown (0x");
    let n1 = macho_file_type_name(t1);
    let n2 = macho_file_type_name(t2);
    assert(n1.len() > 0 && n2.len() > 0);
    if n1 == n2 {
        assert(n1[0] == n2[0]);
        assert(n1.len() == n2.len());
    }
    if n1 == "Executable"@ || n1 == "Relocatable Object"@ {
        assert(n1[0] == "Executable"@[0] || n1[0] == "Relocatable Object"@[0]);
        assert(n1.len() == "Executable"@.len() || n1.len() == "Relocatable Object"@.len());
    }
}

pub fn file_type_name(file_type: u32) -> (res: String)
    ensures
        res@ == macho_file_type_name(file_type as nat),
{
    match file_type {
        1 => string_of("Relocatable Object"),
        2 => string_of("Executable"),
        3 => string_of("Fixed VM Shared Library"),
        4 => string_of("Core Dump"),
        5 => string_of("Preloaded Executable"),
        6 => string_of("Dynamic Library"),
        7 => string_of("Dynamic Linker"),
        8 => string_of("Bundle"),
        9 => string_of("Dynamic Library Stub"),
        10 => string_of("dSYM Companion"),
        11 => string_of("Kernel Extension"),
        _ => number_between("Unknown (0x", file_type as u64, 16, 8, ")"),
    }
}

/// What a Mach-O header says, as plain values.
pub struct MachOModel {
    pub format: Seq<char>,
    pub file_type: Seq<char>,
    pub architecture: Seq<char>,
    pub endian: Endian,
    pub load_commands: nat,
    pub entry_offset: Option<nat>,
}

/// The fields of a Mach-O header that the summary shows.
pub struct MachOInfo {
    pub format: &'static str,
    pub file_type: String,
    pub architecture: String,
    pub endian: Endian,
    pub load_commands: u32,
    pub entry_offset: Option<u64>,
}

impl MachOInfo {
    pub open spec fn model(&self) -> MachOModel {
        MachOModel {
            format: self.format@,
            file_type: self.file_type@,
            architecture: self.architecture@,
            endian: self.endian,
            load_commands: self.load_commands as nat,
            entry_offset: match self.entry_offset {
                Some(v) => Some(v as nat),
                None => None,
            },
        }
    }

    /// The summary lines for this header.
    pub fn format_summary(&self) -> (res: String)
        ensures
            res@ == macho_summary(self.model()),
    {
        let mut s = string_of("Format        ");
        push_str(&mut s, self.format);
        push_str(&mut s, "\nType          ");
        push_str(&mut s, self.file_type.as_str());
        push_str(&mut s, "\nArchitecture  ");
        push_str(&mut s, self.architecture.as_str());
        push_str(&mut s, "\nEndianness    ");
        push_str(&mut s, self.endian.name());
        push_str(&mut s, "\nLoad Commands ");
        push_padded(&mut s, self.load_commands as u64, 10, 0);
        if let Some(entry) = self.entry_offset {
            push_str(&mut s, "\nEntry Offset  0x");
            push_padded(&mut s, entry, 16, 16);
        }
        s
    }
}

/// The summary text of a Mach-O header; the entry offset line, with 16
/// hexadecimal digits, only when an entry offset was found.
pub open spec fn macho_summary(m: MachOModel) -> Seq<char> {
    "Format        "@ + m.format + "\nType          "@ + m.file_type + "\nArchitecture  "@
        + m.architecture + "\nEndianness    "@ + m.endian.spec_name()@ + "\nLoad Commands "@
        + padded_digits(m.load_commands, 10, 0) + match m.entry_offset {
        Some(v) => "\nEntry Offset  0x"@ + hex(v, 16),
        None => Seq::<char>::empty(),
    }
}

/// The largest size of the load commands that is read.
pub open spec fn max_commands_size() -> nat {
    16 * 1024 * 1024
}

/// What a whole Mach-O file gives: the magic number, the header (28 bytes
/// for 32-bit files, 32 for 64-bit ones) with the CPU type at 4, the file
/// type at 12, the number of load commands at 16 and their size at 20;
/// the load commands, which follow the header, are searched for the entry
/// point when they are at most 16 MiB and lie within the file.
pub open spec fn macho_file_result(data: Seq<u8>) -> Result<MachOModel, BinaryError> {
    if data.len() < 4 {
        Err(BinaryError::UnexpectedEof)
    } else {
        match spec_macho_magic(data.subrange(0, 4)) {
            None => Err(BinaryError::InvalidData("unknown Mach-O signature")),
            Some((e, is_64)) => {
                let header_size: int = if is_64 {
                    32
                } else {
                    28
                };
                if data.len() < header_size {
                    Err(BinaryError::UnexpectedEof)
                } else {
                    let load_commands = field(e, data, 16, 4);
                    let commands_size = field(e, data, 20, 4);
                    Ok(
                        MachOModel {
                            format: if is_64 {
                                "Mach-O 64-bit"@
                            } else {
                                "Mach-O 32-bit"@
                            },
                            file_type: macho_file_type_name(field(e, data, 12, 4)),
                            architecture: macho_cpu_name(field(e, data, 4, 4)),
                            endian: e,
                            load_commands,
                            entry_offset: if commands_size <= max_commands_size() && header_size
                                + commands_size <= data.len() {
                                entry_scan(
                                    data.subrange(header_size, header_size + commands_size),
                                    e,
                                    0,
                                    load_commands,
                                )
                            } else {
                                None
                            },
                        },
                    )
                }
            },
        }
    }
}

/// Reads the Mach-O header of a whole file.
pub fn read_info(data: &[u8]) -> (res: Result<MachOInfo, BinaryError>)
    ensures
        match (res, macho_file_result(data@)) {
            (Ok(info), Ok(m)) => info.model() == m,
            (Err(e), Err(f)) => e == f,
            _ => false,
        },
{
    let len = data.len();
    if len < 4 {
        return Err(BinaryError::UnexpectedEof);
    }
    let (endian, is_64_bit) = match macho_magic(&data[0..4]) {
        Some(m) => m,
        None => return Err(invalid_data("unknown Mach-O signature")),
    };
    let header_size: usize = if is_64_bit {
        32
    } else {
        28
    };
    if len < header_size {
        return Err(BinaryError::UnexpectedEof);
    }
    let cpu = read_u32(endian, data, 4);
    let file_type = read_u32(endian, data, 12);
    let load_commands = read_u32(endian, data, 16);
    let commands_size = read_u32(endian, data, 20) as usize;
    let entry_offset = if commands_size <= 16 * 1024 * 1024 && commands_size <= len
        - header_size {
        let commands = &data[header_size..header_size + commands_size];
        entry_offset(commands, endian, load_commands)
    } else {
        None
    };
    Ok(
        MachOInfo {
            format: if is_64_bit {
                "Mach-O 64-bit"
            } else {
                "Mach-O 32-bit"
            },
            file_type: file_type_name(file_type),
            architecture: cpu_name(cpu),
            endian,
            load_commands,
            entry_offset,
        },
    )
}

/// Summarises a Mach-O file.
pub fn inspect(data: &[u8]) -> (res: Result<String, BinaryError>)
    ensures
        match (res, macho_file_result(data@)) {
            (Ok(s), Ok(m)) => s@ == macho_summary(m),
            (Err(e), Err(f)) => e == f,
            _ => false,
        },
{
    match read_info(data) {
        Ok(info) => Ok(info.format_summary()),
        Err(e) => Err(e),
    }
}

/// The CPU type of slice `k` of a universal file's slice table.
pub open spec fn fat_entry_cpu(data: Seq<u8>, e: Endian, entry_size: int, k: int) -> nat {
    field(e, data, 8 + k * entry_size, 4)
}

/// The architecture names of the first `n` slices.
pub open spec fn fat_arch_names(data: Seq<u8>, e: Endian, entry_size: int, n: int) -> Set<
    Seq<char>,
> {
    Set::new(
        |name: Seq<char>|
            exists|k: int| 0 <= k < n && name == macho_cpu_name(fat_entry_cpu(data, e, entry_size, k)),
    )
}

/// What the slice table of a universal file says, as plain values.
pub struct UniversalModel {
    pub slices: nat,
    pub architectures: Set<Seq<char>>,
    pub is_64_bit_table: bool,
}

/// The largest number of slices that is read.
pub open spec fn max_slices() -> nat {
    4096
}

/// What a whole universal (fat) Mach-O file gives: the magic number, the
/// number of slices at 4, then one entry per slice (20 bytes, or 32 in a
/// 64-bit table) that starts with the slice's CPU type.
pub open spec fn universal_file_result(data: Seq<u8>) -> Result<UniversalModel, BinaryError> {
    if data.len() < 8 {
        Err(BinaryError::UnexpectedEof)
    } else {
        match spec_fat_magic(data.subrange(0, 4)) {
            None => Err(BinaryError::InvalidData("unknown fat Mach-O signature")),
            Some((e, is_64)) => {
                let slices = field(e, data, 4, 4);
                let entry_size: int = if is_64 {
                    32
                } else {
                    20
                };
                if slices * entry_size > usize::MAX {
                    Err(BinaryError::InvalidData("Mach-O slice table is too large"))
                } else if slices > max_slices() || 8 + slices * entry_size > data.len() {
                    Err(BinaryError::InvalidData("invalid Mach-O slice table"))
                } else {
                    Ok(
                        UniversalModel {
                            slices,
                            architectures: fat_arch_names(data, e, entry_size, slices as int),
                            is_64_bit_table: is_64,
                        },
                    )
                }
            },
        }
    }
}

/// The slices of a universal file and the names of their architectures.
pub struct UniversalInfo {
    pub slices: u32,
    pub architectures: NameSet,
    pub is_64_bit_table: bool,
}

impl UniversalInfo {
    /// This information is what the model says: the same number of slices
    /// and table width, and the architecture names in the order of strings.
    pub open spec fn matches(&self, m: UniversalModel) -> bool {
        &&& self.slices as nat == m.slices
        &&& self.is_64_bit_table == m.is_64_bit_table
        &&& self.architectures.wf()
        &&& self.architectures.names().to_set() == m.architectures
    }

    /// The summary lines for this slice table.
    pub fn format_summary(&self) -> (res: String)
        ensures
            res@ == universal_summary(
                self.slices as nat,
                self.architectures.names(),
                self.is_64_bit_table,
            ),
    {
        let mut s = string_of("Format        Mach-O Universal");
        if self.is_64_bit_table {
            push_str(&mut s, " (Fat64)");
        }
        push_str(&mut s, "\nSlices        ");
        push_padded(&mut s, self.slices as u64, 10, 0);
        push_str(&mut s, "\nArchitectures ");
        let joined = self.architectures.join(", ");
        push_str(&mut s, joined.as_str());
        s
    }
}

/// The summary text of a slice table; the architecture names are listed
/// in the order given, separated by commas.
pub open spec fn universal_summary(slices: nat, names: Seq<Seq<char>>, is_64: bool) -> Seq<char> {
    "Format        Mach-O Universal"@ + (if is_64 {
        " (Fat64)"@
    } else {
        Seq::<char>::empty()
    }) + "\nSlices        "@ + padded_digits(slices, 10, 0) + "\nArchitectures "@ + join_names(
        names,
        ", "@,
    )
}

/// Reads the slice table of a whole universal file.
pub fn read_universal_info(data: &[u8]) -> (res: Result<UniversalInfo, BinaryError>)
    ensures
        match (res, universal_file_result(data@)) {
            (Ok(info), Ok(m)) => info.matches(m),
            (Err(e), Err(f)) => e == f,
            _ => false,
        },
{
    let len = data.len();
    if len < 8 {
        return Err(BinaryError::UnexpectedEof);
    }
    let (endian, is_64_bit_table) = match fat_magic(&data[0..4]) {
        Some(m) => m,
        None => return Err(invalid_data("unknown fat Mach-O signature")),
    };
    let slices = read_u32(endian, data, 4);
    let entry_size: usize = if is_64_bit_table {
        32
    } else {
        20
    };
    let table_size = match (slices as usize).checked_mul(entry_size) {
        Some(t) => t,
        None => return Err(invalid_data("Mach-O slice table is too large")),
    };
    if slices > 4096 || table_size > len - 8 {
        return Err(invalid_data("invalid Mach-O slice table"));
    }
    let mut architectures = NameSet::new();
    let mut k: u32 = 0;
    let mut offset: usize = 8;
    while k < slices
        invariant
            k <= slices <= 4096,
            len == data@.len(),
            entry_size == 20 || entry_size == 32,
            8 + slices * entry_size <= len,
            offset == 8 + k * entry_size,
            architectures.wf(),
            architectures.names().to_set() == fat_arch_names(
                data@,
                endian,
                entry_size as int,
                k as int,
            ),
        decreases slices - k,
    {
        assert(offset + 4 <= len) by (nonlinear_arith)
            requires
                offset == 8 + k * entry_size,
                k < slices,
                8 + slices * entry_size <= len,
                entry_size >= 4,
        ;
        let cpu = read_u32(endian, data, offset);
        let name = cpu_name(cpu);
        let ghost before = architectures.names().to_set();
        architectures.insert(name);
        proof {
            let e = entry_size as int;
            assert(fat_arch_names(data@, endian, e, k + 1) =~= before.insert(
                macho_cpu_name(fat_entry_cpu(data@, endian, e, k as int)),
            )) by {
                assert forall|n: Seq<char>|
                    #![trigger fat_arch_names(data@, endian, e, k + 1).contains(n)]
                    fat_arch_names(data@, endian, e, k + 1).contains(n) implies before.insert(
                    macho_cpu_name(fat_entry_cpu(data@, endian, e, k as int)),
                ).contains(n) by {
                    let j = choose|j: int|
                        0 <= j < k + 1 && n == macho_cpu_name(fat_entry_cpu(data@, endian, e, j));
                    if j < k {
                        assert(fat_arch_names(data@, endian, e, k as int).contains(n));
                    }
                }
                assert forall|n: Seq<char>|
                    #![trigger before.insert(macho_cpu_name(fat_entry_cpu(data@, endian, e, k as int))).contains(n)]
                    before.insert(
                    macho_cpu_name(fat_entry_cpu(data@, endian, e, k as int)),
                ).contains(n) implies fat_arch_names(data@, endian, e, k + 1).contains(n) by {
                    if n != macho_cpu_name(fat_entry_cpu(data@, endian, e, k as int)) {
                        assert(fat_arch_names(data@, endian, e, k as int).contains(n));
                        let j = choose|j: int|
                            0 <= j < k && n == macho_cpu_name(fat_entry_cpu(data@, endian, e, j));
                        assert(0 <= j < k + 1);
                    }
                }
            }
        }
        assert(offset + entry_size == 8 + (k + 1) * entry_size) by (nonlinear_arith)
            requires
                offset == 8 + k * entry_size,
        ;
        offset = offset + entry_size;
        k = k + 1;
    }
    Ok(UniversalInfo { slices, architectures, is_64_bit_table })
}

/// Summarises a universal Mach-O file.
pub fn inspect_universal(data: &[u8]) -> (res: Result<String, BinaryError>)
    ensures
        match (res, universal_file_result(data@)) {
            (Ok(s), Ok(m)) => exists|names: Seq<Seq<char>>|
                {
                    &&& sorted_names(names)
                    &&& names.to_set() == m.architectures
                    &&& s@ == universal_summary(m.slices, names, m.is_64_bit_table)
                },
            (Err(e), Err(f)) => e == f,
            _ => false,
        },
{
    match read_universal_info(data) {
        Ok(info) => {
            let s = info.format_summary();
            Ok(s)
        },
        Err(e) => Err(e),
    }
}

} // verus!
