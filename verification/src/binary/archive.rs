use vstd::prelude::*;
use vstd::string::StringSliceAdditionalSpecFns;
use vstd::utf8::*;

use super::elf::{elf_header_error, elf_model, is_elf_magic, parse_header};
use super::macho::{cpu_name, field, macho_cpu_name, macho_magic, spec_macho_magic};
use super::pe::{
    is_known_machine, le_field, lemma_named_machines_are_known, machine_name, pe_known_machine,
    pe_machine_name,
};
use super::{be_value, invalid_data, BinaryError, Endian};
use crate::text::{
    hex, join_names, padded_digits, parse_u64, sorted_names, parse_u64_spec, push_padded, push_str, str_eq,
    string_of, trim_spec, trim_str, utf8_str, NameSet,
};

verus! {

/// What a member of an archive holds, as far as the summary cares: an
/// object file of some format and architecture.
pub enum MemberKind {
    Coff { architecture: String, import: bool },
    Elf { architecture: String },
    MachO { architecture: String },
}

/// A member's kind as plain values.
pub enum MemberKindModel {
    Coff { architecture: Seq<char>, import: bool },
    Elf { architecture: Seq<char> },
    MachO { architecture: Seq<char> },
}

impl MemberKind {
    pub open spec fn model(&self) -> MemberKindModel {
        match self {
            MemberKind::Coff { architecture, import } => MemberKindModel::Coff {
                architecture: architecture@,
                import: *import,
            },
            MemberKind::Elf { architecture } => MemberKindModel::Elf {
                architecture: architecture@,
            },
            MemberKind::MachO { architecture } => MemberKindModel::MachO {
                architecture: architecture@,
            },
        }
    }
}

/// The number of zero bytes in `b`.
pub open spec fn count_zeros(b: Seq<u8>) -> nat
    decreases b.len(),
{
    if b.len() == 0 {
        0
    } else {
        count_zeros(b.drop_last()) + if b.last() == 0 {
            1nat
        } else {
            0nat
        }
    }
}

/// Whether a member that starts with an import header (signature `0`,
/// `0xffff`) is a short import object: at least 20 bytes, a payload of
/// the size given at 12 that lies within the bytes and holds at least two
/// zero bytes, and in the flags at 18 an import type of at most 2, a name
/// type of at most 4 and no other bit set.
pub open spec fn short_import_spec(b: Seq<u8>) -> bool {
    if b.len() < 20 {
        false
    } else {
        let size = le_field(b, 12, 4) as int;
        let flags = le_field(b, 18, 2);
        if 20 + size > b.len() {
            false
        } else {
            flags % 4 <= 2 && (flags / 4) % 8 <= 4 && flags / 32 == 0 && count_zeros(
                b.subrange(20, 20 + size),
            ) >= 2
        }
    }
}

pub fn looks_like_short_import(bytes: &[u8]) -> (res: bool)
    ensures
        res == short_import_spec(bytes@),
{
    let len = bytes.len();
    if len < 20 {
        return false;
    }
    let size = Endian::Little.u32(&bytes[12..16]) as usize;
    let flags = Endian::Little.u16(&bytes[18..20]);
    assert(bytes@.subrange(12, 16).subrange(0, 4) =~= bytes@.subrange(12, 16));
    assert(bytes@.subrange(18, 20).subrange(0, 2) =~= bytes@.subrange(18, 20));
    let import_type = flags % 4;
    let name_type = (flags / 4) % 8;
    if size > len - 20 {
        return false;
    }
    let payload = &bytes[20..20 + size];
    let mut zeros: usize = 0;
    let mut i: usize = 0;
    while i < size
        invariant
            i <= size == payload@.len(),
            zeros <= i,
            zeros as nat == count_zeros(payload@.take(i as int)),
        decreases size - i,
    {
        assert(payload@.take(i + 1).drop_last() =~= payload@.take(i as int));
        if payload[i] == 0 {
            zeros = zeros + 1;
        }
        i = i + 1;
    }
    assert(payload@.take(size as int) =~= payload@);
    import_type <= 2 && name_type <= 4 && flags / 32 == 0 && zeros >= 2
}

/// What the first bytes of a member say it is: an ELF object whose header
/// reads, a Mach-O object, an import object or a COFF object of a known
/// machine; nothing otherwise.
pub open spec fn classify_spec(b: Seq<u8>) -> Option<MemberKindModel> {
    if b.len() >= 20 && is_elf_magic(b) {
        if elf_header_error(b) is None {
            Some(MemberKindModel::Elf { architecture: elf_model(b).architecture })
        } else {
            None
        }
    } else if b.len() >= 8 && spec_macho_magic(b.subrange(0, 4)) is Some {
        match spec_macho_magic(b.subrange(0, 4)) {
            Some((e, _)) => Some(
                MemberKindModel::MachO { architecture: macho_cpu_name(field(e, b, 4, 4)) },
            ),
            None => None,
        }
    } else if b.len() >= 20 {
        let sig1 = le_field(b, 0, 2);
        let sig2 = le_field(b, 2, 2);
        if sig1 == 0 && sig2 == 0xffff {
            Some(
                MemberKindModel::Coff {
                    architecture: pe_machine_name(le_field(b, 6, 2)),
                    import: short_import_spec(b),
                },
            )
        } else if pe_known_machine(sig1) {
            Some(MemberKindModel::Coff { architecture: pe_machine_name(sig1), import: false })
        } else {
            None
        }
    } else {
        None
    }
}

/// A member that is neither ELF nor Mach-O, does not start with an import
/// header, and whose first little-endian `u16` is a machine with a name of
/// its own is a COFF object of that machine, not an import.
pub proof fn lemma_named_coff_objects_are_objects(b: Seq<u8>)
    requires
        b.len() >= 20,
        !is_elf_magic(b),
        spec_macho_magic(b.subrange(0, 4)) is None,
        !(le_field(b, 0, 2) == 0 && le_field(b, 2, 2) == 0xffff),
        pe_machine_name(le_field(b, 0, 2)) != "Unknown (0x"@ + hex(le_field(b, 0, 2), 4) + ")"@,
    ensures
        classify_spec(b) == Some(
            MemberKindModel::Coff { architecture: pe_machine_name(le_field(b, 0, 2)), import: false },
        ),
{
    lemma_named_machines_are_known(le_field(b, 0, 2));
}

fn le16_at(b: &[u8], start: usize) -> (res: u16)
    requires
        start + 2 <= b@.len(),
    ensures
        res as nat == le_field(b@, start as int, 2),
{
    let _len = b.len();
    let part = &b[start..start + 2];
    assert(part@.subrange(0, 2) =~= part@);
    Endian::Little.u16(part)
}

/// Tells what a member is from its first bytes.
pub fn classify_member(bytes: &[u8]) -> (res: Option<MemberKind>)
    ensures
        match classify_spec(bytes@) {
            Some(m) => res matches Some(k) && k.model() == m,
            None => res is None,
        },
{
    let len = bytes.len();
    if len >= 20 && bytes[0] == 0x7f && bytes[1] == 0x45 && bytes[2] == 0x4c && bytes[3] == 0x46 {
        return match parse_header(bytes) {
            Ok(info) => Some(MemberKind::Elf { architecture: info.architecture }),
            Err(_) => None,
        };
    }
    if len >= 8 {
        if let Some((endian, _)) = macho_magic(&bytes[0..4]) {
            let part = &bytes[4..8];
            assert(part@.subrange(0, 4) =~= bytes@.subrange(4, 8));
            let cpu = endian.u32(part);
            return Some(MemberKind::MachO { architecture: cpu_name(cpu) });
        }
    }
    if len >= 20 {
        let sig1 = le16_at(bytes, 0);
        let sig2 = le16_at(bytes, 2);
        if sig1 == 0 && sig2 == 0xffff {
            let machine = le16_at(bytes, 6);
            return Some(
                MemberKind::Coff {
                    architecture: machine_name(machine),
                    import: looks_like_short_import(bytes),
                },
            );
        }
        if is_known_machine(sig1) {
            return Some(MemberKind::Coff { architecture: machine_name(sig1), import: false });
        }
    }
    None
}

/// The names of the members that hold a symbol table.
pub open spec fn is_symbol_name(n: Seq<char>) -> bool {
    n == "/"@ || n == "/SYM64/"@ || n == "__.SYMDEF"@ || n == "__.SYMDEF/"@ || n
        == "__.SYMDEF SORTED"@ || n == "__.SYMDEF_64"@
}

/// The names of the members that hold other archive metadata.
pub open spec fn is_metadata_name(n: Seq<char>) -> bool {
    n == "//"@ || n == "/<HYBRIDMAP>/"@
}

pub fn is_symbol_member(name: &str) -> (res: bool)
    ensures
        res == is_symbol_name(name@),
{
    str_eq(name, "/") || str_eq(name, "/SYM64/") || str_eq(name, "__.SYMDEF") || str_eq(
        name,
        "__.SYMDEF/",
    ) || str_eq(name, "__.SYMDEF SORTED") || str_eq(name, "__.SYMDEF_64")
}

pub fn is_metadata_member(name: &str) -> (res: bool)
    ensures
        res == is_metadata_name(name@),
{
    str_eq(name, "//") || str_eq(name, "/<HYBRIDMAP>/")
}

/// The size field of a member header: text, white space around it
/// ignored, holding a decimal number.
pub open spec fn parse_number_spec(b: Seq<u8>) -> Result<nat, BinaryError> {
    if !valid_utf8(b) {
        Err(BinaryError::InvalidData("archive size is not ASCII"))
    } else {
        match parse_u64_spec(encode_utf8(trim_spec(decode_utf8(b))), 10) {
            Some(v) => Ok(v),
            None => Err(BinaryError::InvalidData("invalid archive member size")),
        }
    }
}

/// The characters of a string slice are the decoding of its bytes.
proof fn lemma_str_decode(s: &str, b: Seq<u8>)
    requires
        s.spec_bytes() == b,
    ensures
        s@ == decode_utf8(b),
{
    encode_utf8_decode_utf8(s@);
}

pub fn parse_number(bytes: &[u8]) -> (res: Result<u64, BinaryError>)
    ensures
        match parse_number_spec(bytes@) {
            Ok(v) => res == Ok::<u64, BinaryError>(v as u64),
            Err(e) => res == Err::<u64, BinaryError>(e),
        },
{
    let text = match utf8_str(bytes) {
        Some(t) => t,
        None => return Err(invalid_data("archive size is not ASCII")),
    };
    proof {
        lemma_str_decode(text, bytes@);
    }
    let trimmed = trim_str(text);
    match parse_u64(trimmed.as_bytes(), 10) {
        Some(v) => Ok(v),
        None => Err(invalid_data("invalid archive member size")),
    }
}

/// `b` without its trailing `/` bytes.
pub open spec fn strip_trailing_slashes(b: Seq<u8>) -> Seq<u8>
    decreases b.len(),
{
    if b.len() > 0 && b.last() == 0x2f {
        strip_trailing_slashes(b.drop_last())
    } else {
        b
    }
}

/// The length of a BSD long member name, written as `#1/` and a decimal
/// number (trailing slashes ignored), if the name is written so.
pub open spec fn bsd_name_length(name: Seq<u8>) -> Option<Option<nat>> {
    if name.len() >= 3 && name[0] == 0x23 && name[1] == 0x31 && name[2] == 0x2f {
        Some(parse_u64_spec(strip_trailing_slashes(name.skip(3)), 10))
    } else {
        None
    }
}

/// Where the contents of a member start and how long they are: a BSD long
/// name sits at the start of the member data and is skipped.
pub open spec fn bsd_content_spec(name: Seq<u8>, data_offset: nat, size: nat) -> Result<
    (nat, nat),
    BinaryError,
> {
    match bsd_name_length(name) {
        None => Ok((data_offset, size)),
        Some(None) => Err(BinaryError::InvalidData("invalid BSD archive member name length")),
        Some(Some(n)) => if n > size {
            Err(BinaryError::InvalidData("BSD archive member name exceeds member size"))
        } else {
            Ok(((data_offset + n) as nat, (size - n) as nat))
        },
    }
}

pub fn bsd_content(name: &str, data_offset: u64, size: u64) -> (res: Result<
    (u64, u64),
    BinaryError,
>)
    requires
        bsd_name_length(name.spec_bytes()) matches Some(Some(n)) ==> (n <= size ==> data_offset
            + n <= u64::MAX),
    ensures
        match bsd_content_spec(name.spec_bytes(), data_offset as nat, size as nat) {
            Ok((o, s)) => res == Ok::<(u64, u64), BinaryError>((o as u64, s as u64)),
            Err(e) => res == Err::<(u64, u64), BinaryError>(e),
        },
{
    let nb = name.as_bytes();
    let len = nb.len();
    if !(len >= 3 && nb[0] == 0x23 && nb[1] == 0x31 && nb[2] == 0x2f) {
        return Ok((data_offset, size));
    }
    let rest = &nb[3..len];
    assert(rest@ =~= nb@.skip(3));
    let mut k = rest.len();
    assert(rest@.subrange(0, k as int) =~= rest@);
    while k > 0 && rest[k - 1] == 0x2f
        invariant
            k <= rest@.len(),
            strip_trailing_slashes(rest@) == strip_trailing_slashes(rest@.subrange(0, k as int)),
        decreases k,
    {
        assert(rest@.subrange(0, k as int).drop_last() =~= rest@.subrange(0, k - 1));
        k = k - 1;
    }
    proof {
        let r = rest@.subrange(0, k as int);
        if k > 0 {
            assert(r.last() == rest@[k - 1]);
        }
        assert(strip_trailing_slashes(r) == r);
    }
    let name_length = match parse_u64(&rest[0..k], 10) {
        Some(n) => n,
        None => return Err(invalid_data("invalid BSD archive member name length")),
    };
    if name_length > size {
        return Err(invalid_data("BSD archive member name exceeds member size"));
    }
    Ok((data_offset + name_length, size - name_length))
}

/// What the members read so far add up to.
pub struct ArchiveTally {
    pub members: nat,
    pub objects: nat,
    pub imports: nat,
    pub coff: bool,
    pub elf: bool,
    pub macho: bool,
    pub architectures: Set<Seq<char>>,
    pub symbols: Option<nat>,
}

/// Nothing read yet.
pub open spec fn empty_tally() -> ArchiveTally {
    ArchiveTally {
        members: 0,
        objects: 0,
        imports: 0,
        coff: false,
        elf: false,
        macho: false,
        architectures: Set::empty(),
        symbols: None,
    }
}

/// The tally after one more (non-symbol, non-metadata) member of the
/// given kind.
pub open spec fn add_member(t: ArchiveTally, kind: Option<MemberKindModel>) -> ArchiveTally {
    match kind {
        None => ArchiveTally { members: t.members + 1, ..t },
        Some(MemberKindModel::Coff { architecture, import }) => ArchiveTally {
            members: t.members + 1,
            objects: t.objects + 1,
            imports: t.imports + if import {
                1nat
            } else {
                0nat
            },
            coff: true,
            architectures: t.architectures.insert(architecture),
            ..t
        },
        Some(MemberKindModel::Elf { architecture }) => ArchiveTally {
            members: t.members + 1,
            objects: t.objects + 1,
            elf: true,
            architectures: t.architectures.insert(architecture),
            ..t
        },
        Some(MemberKindModel::MachO { architecture }) => ArchiveTally {
            members: t.members + 1,
            objects: t.objects + 1,
            macho: true,
            architectures: t.architectures.insert(architecture),
            ..t
        },
    }
}

/// The tally after a symbol-table member of `size` bytes whose data starts
/// at `data_offset`: the first such member of at least 4 bytes gives the
/// symbol count (big-endian, first 4 bytes) when the count fits the member.
pub open spec fn add_symbols(t: ArchiveTally, data: Seq<u8>, data_offset: int, size: nat) -> ArchiveTally {
    if t.symbols is None && size >= 4 {
        let candidate = be_value(data.subrange(data_offset, data_offset + 4));
        if 4 + 4 * candidate <= size {
            ArchiveTally { symbols: Some(candidate), ..t }
        } else {
            t
        }
    } else {
        t
    }
}

/// The smaller of two numbers.
pub open spec fn min_nat(a: nat, b: nat) -> nat {
    if a < b {
        a
    } else {
        b
    }
}

/// Reads one member at `offset`: a 60-byte header (name in bytes 0..16,
/// decimal size in 48..58, the terminator `` `\n `` in 58..60), then its
/// data, then a pad byte when the size is odd. Up to 128 bytes of the
/// member's contents tell what it is. Gives the offset of the next member
/// and the new tally.
pub open spec fn member_step(data: Seq<u8>, offset: int, t: ArchiveTally) -> Result<
    (int, ArchiveTally),
    BinaryError,
> {
    let h = data.subrange(offset, offset + 60);
    if h[58] != 0x60 || h[59] != 0x0a {
        Err(BinaryError::InvalidData("invalid archive member header"))
    } else if !valid_utf8(h.subrange(0, 16)) {
        Err(BinaryError::InvalidData("archive member name is not ASCII"))
    } else {
        let name = trim_spec(decode_utf8(h.subrange(0, 16)));
        match parse_number_spec(h.subrange(48, 58)) {
            Err(e) => Err(e),
            Ok(size) => {
                let data_offset = offset + 60;
                let data_end = data_offset + size;
                if data_end > u64::MAX {
                    Err(BinaryError::InvalidData("archive member size overflow"))
                } else if data_end > data.len() {
                    Err(BinaryError::InvalidData("archive member extends past end of file"))
                } else {
                    let next = data_end + size % 2;
                    if is_symbol_name(name) {
                        Ok((next, add_symbols(t, data, data_offset, size)))
                    } else if is_metadata_name(name) {
                        Ok((next, t))
                    } else {
                        match bsd_content_spec(encode_utf8(name), data_offset as nat, size) {
                            Err(e) => Err(e),
                            Ok((co, cs)) => Ok(
                                (
                                    next,
                                    add_member(
                                        t,
                                        classify_spec(
                                            data.subrange(co as int, (co + min_nat(cs, 128)) as int),
                                        ),
                                    ),
                                ),
                            ),
                        }
                    }
                }
            },
        }
    }
}

/// Reads the members from `offset` on, while a whole member header fits.
pub open spec fn archive_scan(data: Seq<u8>, offset: int, t: ArchiveTally) -> Result<
    ArchiveTally,
    BinaryError,
>
    decreases data.len() + 2 - offset,
{
    if offset < 0 || offset + 60 > data.len() {
        Ok(t)
    } else {
        match member_step(data, offset, t) {
            Err(e) => Err(e),
            Ok((next, t2)) => if offset < next <= data.len() + 1 {
                archive_scan(data, next, t2)
            } else {
                Ok(t2)
            },
        }
    }
}

/// A member step moves forward by at least a header and stays within one
/// byte past the end of the file.
pub proof fn lemma_member_step_advances(data: Seq<u8>, offset: int, t: ArchiveTally)
    requires
        0 <= offset,
        offset + 60 <= data.len(),
    ensures
        member_step(data, offset, t) matches Ok((next, _)) ==> offset + 60 <= next <= data.len()
            + 1,
{
}

/// The format of an archive from the formats of its objects.
pub open spec fn archive_format(coff: bool, elf: bool, macho: bool) -> Seq<char> {
    if coff && !elf && !macho {
        "COFF Archive"@
    } else if !coff && elf && !macho {
        "Unix Archive (ELF)"@
    } else if !coff && !elf && macho {
        "Unix Archive (Mach-O)"@
    } else if !coff && !elf && !macho {
        "Archive Library"@
    } else {
        "Mixed Archive ("@ + join_names(present_formats(coff, elf, macho), ", "@) + ")"@
    }
}

/// The names of the formats present, in the order of strings.
pub open spec fn present_formats(coff: bool, elf: bool, macho: bool) -> Seq<Seq<char>> {
    (if coff {
        seq!["COFF"@]
    } else {
        Seq::empty()
    }) + (if elf {
        seq!["ELF"@]
    } else {
        Seq::empty()
    }) + (if macho {
        seq!["Mach-O"@]
    } else {
        Seq::empty()
    })
}

/// The kind of library: an import library when it holds import objects
/// and at most four other objects, mixed when it holds more, static when
/// it holds no import object.
pub open spec fn library_type_of(objects: nat, imports: nat) -> &'static str {
    if imports > 0 && objects - imports <= 4 {
        "Import Library"
    } else if imports > 0 {
        "Mixed Static / Import Library"
    } else {
        "Static Library"
    }
}

/// What an archive says, as plain values.
pub struct ArchiveModel {
    pub format: Seq<char>,
    pub library_type: Seq<char>,
    pub members: nat,
    pub objects: nat,
    pub import_objects: nat,
    pub architectures: Set<Seq<char>>,
    pub symbols: Option<nat>,
    pub thin: bool,
}

/// What a whole archive file gives (its members start after the 8-byte
/// signature).
pub open spec fn archive_file_result(data: Seq<u8>) -> Result<ArchiveModel, BinaryError> {
    match archive_scan(data, 8, empty_tally()) {
        Err(e) => Err(e),
        Ok(t) => Ok(
            ArchiveModel {
                format: archive_format(t.coff, t.elf, t.macho),
                library_type: library_type_of(t.objects, t.imports)@,
                members: t.members,
                objects: t.objects,
                import_objects: t.imports,
                architectures: t.architectures,
                symbols: t.symbols,
                thin: false,
            },
        ),
    }
}

/// The summary of an archive.
pub struct ArchiveInfo {
    pub format: String,
    pub library_type: &'static str,
    pub members: usize,
    pub objects: usize,
    pub import_objects: usize,
    pub architectures: NameSet,
    pub symbols: Option<u32>,
    pub thin: bool,
}

impl ArchiveInfo {
    /// This information is what the model says, the architecture names in
    /// the order of strings.
    pub open spec fn matches(&self, m: ArchiveModel) -> bool {
        &&& self.format@ == m.format
        &&& self.library_type@ == m.library_type
        &&& self.members as nat == m.members
        &&& self.objects as nat == m.objects
        &&& self.import_objects as nat == m.import_objects
        &&& self.architectures.wf()
        &&& self.architectures.names().to_set() == m.architectures
        &&& match (self.symbols, m.symbols) {
            (Some(a), Some(b)) => a as nat == b,
            (None, None) => true,
            _ => false,
        }
        &&& self.thin == m.thin
    }

    /// A GNU thin archive, whose members live in other files.
    pub fn thin() -> (res: ArchiveInfo)
        ensures
            res.matches(thin_model()),
    {
        let architectures = NameSet::new();
        assert(architectures.names().to_set() =~= Set::<Seq<char>>::empty());
        ArchiveInfo {
            format: string_of("GNU Thin Archive"),
            library_type: "Thin Static Library",
            members: 0,
            objects: 0,
            import_objects: 0,
            architectures,
            symbols: None,
            thin: true,
        }
    }

    /// The summary lines for this archive.
    pub fn format_summary(&self) -> (res: String)
        ensures
            res@ == archive_summary(
                self.format@,
                self.library_type@,
                self.members as nat,
                self.objects as nat,
                self.import_objects as nat,
                self.architectures.names(),
                match self.symbols {
                    Some(v) => Some(v as nat),
                    None => None,
                },
                self.thin,
            ),
    {
        let mut s = string_of("Format        ");
        push_str(&mut s, self.format.as_str());
        push_str(&mut s, "\nLibrary Type  ");
        push_str(&mut s, self.library_type);
        if self.thin {
            push_str(&mut s, "\nMembers       external references");
            return s;
        }
        push_str(&mut s, "\nMembers       ");
        push_padded(&mut s, self.members as u64, 10, 0);
        push_str(&mut s, "\nObjects       ");
        push_padded(&mut s, self.objects as u64, 10, 0);
        push_str(&mut s, "\nArchitecture  ");
        if self.architectures.is_empty() {
            push_str(&mut s, "Unknown");
        } else {
            let joined = self.architectures.join(", ");
            push_str(&mut s, joined.as_str());
        }
        if self.import_objects > 0 {
            push_str(&mut s, "\nImports       ");
            push_padded(&mut s, self.import_objects as u64, 10, 0);
        }
        if let Some(symbols) = self.symbols {
            push_str(&mut s, "\nSymbols       ");
            push_padded(&mut s, symbols as u64, 10, 0);
        }
        s
    }
}

/// The model of a thin archive.
pub open spec fn thin_model() -> ArchiveModel {
    ArchiveModel {
        format: "GNU Thin Archive"@,
        library_type: "Thin Static Library"@,
        members: 0,
        objects: 0,
        import_objects: 0,
        architectures: Set::empty(),
        symbols: None,
        thin: true,
    }
}

/// The summary text of an archive: for a thin archive only its format and
/// that its members are external; otherwise the counts, the architectures
/// (`Unknown` when none is known), the number of import objects when there
/// are any and the number of symbols when a symbol table gave it.
pub open spec fn archive_summary(
    format: Seq<char>,
    library_type: Seq<char>,
    members: nat,
    objects: nat,
    imports: nat,
    architectures: Seq<Seq<char>>,
    symbols: Option<nat>,
    thin: bool,
) -> Seq<char> {
    let head = "Format        "@ + format + "\nLibrary Type  "@ + library_type;
    if thin {
        head + "\nMembers       external references"@
    } else {
        head + "\nMembers       "@ + padded_digits(members, 10, 0) + "\nObjects       "@
            + padded_digits(objects, 10, 0) + "\nArchitecture  "@ + (if architectures.len() == 0 {
            "Unknown"@
        } else {
            join_names(architectures, ", "@)
        }) + (if imports > 0 {
            "\nImports       "@ + padded_digits(imports, 10, 0)
        } else {
            Seq::<char>::empty()
        }) + match symbols {
            Some(v) => "\nSymbols       "@ + padded_digits(v, 10, 0),
            None => Seq::<char>::empty(),
        }
    }
}

/// The summary of a GNU thin archive.
pub fn thin_summary() -> (res: String)
    ensures
        res@ == archive_summary(
            "GNU Thin Archive"@,
            "Thin Static Library"@,
            0,
            0,
            0,
            Seq::empty(),
            None,
            true,
        ),
{
    let info = ArchiveInfo::thin();
    info.format_summary()
}

/// The counts kept while reading an archive's members.
pub struct Tally {
    pub members: usize,
    pub objects: usize,
    pub imports: usize,
    pub coff: bool,
    pub elf: bool,
    pub macho: bool,
    pub architectures: NameSet,
    pub symbols: Option<u32>,
}

impl Tally {
    pub open spec fn model(&self) -> ArchiveTally {
        ArchiveTally {
            members: self.members as nat,
            objects: self.objects as nat,
            imports: self.imports as nat,
            coff: self.coff,
            elf: self.elf,
            macho: self.macho,
            architectures: self.architectures.names().to_set(),
            symbols: match self.symbols {
                Some(v) => Some(v as nat),
                None => None,
            },
        }
    }

    /// The counts stay consistent: imports among objects among members.
    pub open spec fn wf(&self) -> bool {
        &&& self.imports <= self.objects <= self.members
        &&& self.architectures.wf()
    }

    fn add(&mut self, kind: Option<MemberKind>)
        requires
            old(self).wf(),
            old(self).members < usize::MAX,
        ensures
            final(self).wf(),
            final(self).members == old(self).members + 1,
            final(self).model() == add_member(
                old(self).model(),
                match kind {
                    Some(k) => Some(k.model()),
                    None => None,
                },
            ),
    {
        self.members = self.members + 1;
        match kind {
            Some(kind) => {
                self.objects = self.objects + 1;
                match kind {
                    MemberKind::Coff { architecture, import } => {
                        self.coff = true;
                        self.architectures.insert(architecture);
                        if import {
                            self.imports = self.imports + 1;
                        }
                    },
                    MemberKind::Elf { architecture } => {
                        self.elf = true;
                        self.architectures.insert(architecture);
                    },
                    MemberKind::MachO { architecture } => {
                        self.macho = true;
                        self.architectures.insert(architecture);
                    },
                }
            },
            None => {},
        }
    }
}

/// Reads the member at `offset` into the tally and gives the offset of the
/// next member.
fn read_member(data: &[u8], offset: u64, tally: &mut Tally) -> (res: Result<u64, BinaryError>)
    requires
        offset + 60 <= data@.len() <= isize::MAX,
        old(tally).wf(),
        old(tally).members <= offset,
    ensures
        match (res, member_step(data@, offset as int, old(tally).model())) {
            (Ok(next), Ok((n, t))) => {
                &&& next == n
                &&& final(tally).model() == t
                &&& final(tally).wf()
                &&& final(tally).members <= old(tally).members + 1
            },
            (Err(e), Err(f)) => e == f,
            _ => false,
        },
{
    let ghost t = tally.model();
    let len = data.len();
    let file_len = len as u64;
    let off = offset as usize;
    let header = &data[off..off + 60];
    assert(header@ =~= data@.subrange(offset as int, offset + 60));
    if header[58] != 0x60 || header[59] != 0x0a {
        return Err(invalid_data("invalid archive member header"));
    }
    let raw_name = match utf8_str(&header[0..16]) {
        Some(n) => n,
        None => return Err(invalid_data("archive member name is not ASCII")),
    };
    proof {
        lemma_str_decode(raw_name, header@.subrange(0, 16));
    }
    let name = trim_str(raw_name);
    let size = match parse_number(&header[48..58]) {
        Ok(v) => v,
        Err(e) => return Err(e),
    };
    let data_offset = offset + 60;
    let data_end = match data_offset.checked_add(size) {
        Some(end) => end,
        None => return Err(invalid_data("archive member size overflow")),
    };
    if data_end > file_len {
        return Err(invalid_data("archive member extends past end of file"));
    }
    if is_symbol_member(name) {
        if tally.symbols.is_none() && size >= 4 {
            let d = data_offset as usize;
            let part = &data[d..d + 4];
            assert(part@.subrange(0, 4) =~= data@.subrange(d as int, d + 4));
            let candidate = Endian::Big.u32(part);
            if 4 + 4 * (candidate as u64) <= size {
                tally.symbols = Some(candidate);
            }
        }
    } else if !is_metadata_member(name) {
        let (content_offset, content_size) = match bsd_content(name, data_offset, size) {
            Ok(c) => c,
            Err(e) => return Err(e),
        };
        let prefix_size: usize = if content_size < 128 {
            content_size as usize
        } else {
            128
        };
        let co = content_offset as usize;
        let prefix = &data[co..co + prefix_size];
        let kind = classify_member(prefix);
        tally.add(kind);
    }
    Ok(data_end + size % 2)
}

/// Reads the members of a whole archive file (its first 8 bytes are the
/// signature).
pub fn read_info(data: &[u8]) -> (res: Result<ArchiveInfo, BinaryError>)
    requires
        data@.len() <= isize::MAX,
    ensures
        match (res, archive_file_result(data@)) {
            (Ok(info), Ok(m)) => info.matches(m),
            (Err(e), Err(f)) => e == f,
            _ => false,
        },
{
    let len = data.len();
    let file_len = len as u64;
    let mut offset: u64 = 8;
    let mut tally = Tally {
        members: 0,
        objects: 0,
        imports: 0,
        coff: false,
        elf: false,
        macho: false,
        architectures: NameSet::new(),
        symbols: None,
    };
    assert(tally.architectures.names().to_set() =~= Set::<Seq<char>>::empty());
    assert(tally.model() == empty_tally());
    while offset <= file_len && file_len - offset >= 60
        invariant
            file_len == len == data@.len() <= isize::MAX,
            8 <= offset,
            offset == 8 || offset <= file_len + 1,
            tally.members <= offset,
            tally.wf(),
            archive_scan(data@, 8, empty_tally()) == archive_scan(
                data@,
                offset as int,
                tally.model(),
            ),
        decreases file_len + 2 - offset,
    {
        let ghost t = tally.model();
        proof {
            lemma_member_step_advances(data@, offset as int, t);
        }
        let next = match read_member(data, offset, &mut tally) {
            Ok(n) => n,
            Err(e) => return Err(e),
        };
        offset = next;
    }
    let format = format_name(tally.coff, tally.elf, tally.macho);
    let library_type = if tally.imports > 0 && tally.objects - tally.imports <= 4 {
        "Import Library"
    } else if tally.imports > 0 {
        "Mixed Static / Import Library"
    } else {
        "Static Library"
    };
    Ok(
        ArchiveInfo {
            format,
            library_type,
            members: tally.members,
            objects: tally.objects,
            import_objects: tally.imports,
            architectures: tally.architectures,
            symbols: tally.symbols,
            thin: false,
        },
    )
}

fn format_name(coff: bool, elf: bool, macho: bool) -> (res: String)
    ensures
        res@ == archive_format(coff, elf, macho),
{
    if coff && !elf && !macho {
        return string_of("COFF Archive");
    } else if !coff && elf && !macho {
        return string_of("Unix Archive (ELF)");
    } else if !coff && !elf && macho {
        return string_of("Unix Archive (Mach-O)");
    } else if !coff && !elf && !macho {
        return string_of("Archive Library");
    }
    let mut s = string_of("Mixed Archive (");
    let ghost start = s@;
    let mut first = true;
    if coff {
        push_str(&mut s, "COFF");
        first = false;
    }
    if elf {
        if !first {
            push_str(&mut s, ", ");
        }
        push_str(&mut s, "ELF");
        first = false;
    }
    if macho {
        if !first {
            push_str(&mut s, ", ");
        }
        push_str(&mut s, "Mach-O");
    }
    push_str(&mut s, ")");
    proof {
        reveal_with_fuel(join_names, 4);
        let p = present_formats(coff, elf, macho);
        if coff && elf && macho {
            assert(p =~= seq!["COFF"@, "ELF"@, "Mach-O"@]);
            assert(p.drop_last() =~= seq!["COFF"@, "ELF"@]);
            assert(p.drop_last().drop_last() =~= seq!["COFF"@]);
        } else if coff && elf {
            assert(p =~= seq!["COFF"@, "ELF"@]);
            assert(p.drop_last() =~= seq!["COFF"@]);
        } else if coff && macho {
            assert(p =~= seq!["COFF"@, "Mach-O"@]);
            assert(p.drop_last() =~= seq!["COFF"@]);
        } else {
            assert(p =~= seq!["ELF"@, "Mach-O"@]);
            assert(p.drop_last() =~= seq!["ELF"@]);
        }
        assert(s@ =~= archive_format(coff, elf, macho));
    }
    s
}

/// Summarises a whole archive file.
pub fn inspect(data: &[u8]) -> (res: Result<String, BinaryError>)
    requires
        data@.len() <= isize::MAX,
    ensures
        match (res, archive_file_result(data@)) {
            (Ok(s), Ok(m)) => exists|names: Seq<Seq<char>>|
                {
                    &&& sorted_names(names)
                    &&& names.to_set() == m.architectures
                    &&& s@ == archive_summary(
                        m.format,
                        m.library_type,
                        m.members,
                        m.objects,
                        m.import_objects,
                        names,
                        m.symbols,
                        false,
                    )
                },
            (Err(e), Err(f)) => e == f,
            _ => false,
        },
{
    match read_info(data) {
        Ok(info) => Ok(info.format_summary()),
        Err(e) => Err(e),
    }
}

/// The counts of a tally are consistent.
pub open spec fn tally_consistent(t: ArchiveTally) -> bool {
    t.imports <= t.objects <= t.members
}

proof fn lemma_scan_keeps_counts(data: Seq<u8>, offset: int, t: ArchiveTally)
    requires
        tally_consistent(t),
    ensures
        archive_scan(data, offset, t) matches Ok(r) ==> tally_consistent(r),
    decreases data.len() + 2 - offset,
{
    if 0 <= offset && offset + 60 <= data.len() {
        match member_step(data, offset, t) {
            Ok((next, t2)) => {
                assert(tally_consistent(t2));
                if offset < next <= data.len() + 1 {
                    lemma_scan_keeps_counts(data, next, t2);
                }
            },
            Err(_) => {},
        }
    }
}

/// In every archive that reads, import objects are among the objects and
/// objects among the members.
pub proof fn lemma_archive_counts(data: Seq<u8>)
    ensures
        archive_file_result(data) matches Ok(m) ==> m.import_objects <= m.objects <= m.members,
{
    lemma_scan_keeps_counts(data, 8, empty_tally());
}

} // verus!
