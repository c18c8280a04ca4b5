use vstd::prelude::*;

pub mod archive;
pub mod elf;
pub mod macho;
pub mod pe;

use self::archive::{archive_file_result, archive_summary, thin_model};
use self::elf::{elf_header_bytes, elf_header_error, elf_model, elf_summary, is_elf_magic};
use self::macho::{
    macho_file_result, macho_summary, spec_fat_magic, spec_macho_magic, universal_file_result,
    universal_summary,
};
use self::pe::{pe_file_result, pe_summary};
use crate::text::sorted_names;

verus! {

/// An error met while reading a binary file: the file is shorter than a
/// structure that must be read in full, or its contents are malformed.
#[derive(Debug, Clone, Copy, PartialEq, Eq)]
pub enum BinaryError {
    /// The file ended before a structure that is read in full.
    UnexpectedEof,
    /// The contents are malformed; the message says how.
    InvalidData(&'static str),
}

/// The error for malformed contents with the given message.
pub fn invalid_data(message: &'static str) -> (res: BinaryError)
    ensures
        res == BinaryError::InvalidData(message),
{
    BinaryError::InvalidData(message)
}

/// `256` raised to the power `k`.
pub open spec fn pow256(k: nat) -> nat
    decreases k,
{
    if k == 0 {
        1
    } else {
        256 * pow256((k - 1) as nat)
    }
}

/// The unsigned value of `bytes` read least significant byte first.
pub open spec fn le_value(bytes: Seq<u8>) -> nat
    decreases bytes.len(),
{
    if bytes.len() == 0 {
        0
    } else {
        bytes[0] as nat + 256 * le_value(bytes.drop_first())
    }
}

/// The unsigned value of `bytes` read most significant byte first.
pub open spec fn be_value(bytes: Seq<u8>) -> nat
    decreases bytes.len(),
{
    if bytes.len() == 0 {
        0
    } else {
        be_value(bytes.drop_last()) * 256 + bytes.last() as nat
    }
}

/// Byte order of a multi-byte field.
#[derive(Clone, Copy, Debug, PartialEq, Eq)]
pub enum Endian {
    Little,
    Big,
}

impl Endian {
    /// The value of `bytes` in this byte order.
    pub open spec fn value_of(self, bytes: Seq<u8>) -> nat {
        match self {
            Endian::Little => le_value(bytes),
            Endian::Big => be_value(bytes),
        }
    }

    /// The name of this byte order as the summaries print it.
    pub open spec fn spec_name(self) -> &'static str {
        match self {
            Endian::Little => "Little Endian",
            Endian::Big => "Big Endian",
        }
    }

    pub fn name(self) -> (res: &'static str)
        ensures
            res == self.spec_name(),
    {
        match self {
            Endian::Little => "Little Endian",
            Endian::Big => "Big Endian",
        }
    }

    /// Reads a 16-bit field from the first two bytes.
    pub fn u16(self, bytes: &[u8]) -> (res: u16)
        requires
            bytes@.len() >= 2,
        ensures
            res as nat == self.value_of(bytes@.subrange(0, 2)),
    {
        let v = read_uint(self, bytes, 2);
        proof {
            lemma_pow256_values();
        }
        v as u16
    }

    /// Reads a 32-bit field from the first four bytes.
    pub fn u32(self, bytes: &[u8]) -> (res: u32)
        requires
            bytes@.len() >= 4,
        ensures
            res as nat == self.value_of(bytes@.subrange(0, 4)),
    {
        let v = read_uint(self, bytes, 4);
        proof {
            lemma_pow256_values();
        }
        v as u32
    }

    /// Reads a 64-bit field from the first eight bytes.
    pub fn u64(self, bytes: &[u8]) -> (res: u64)
        requires
            bytes@.len() >= 8,
        ensures
            res as nat == self.value_of(bytes@.subrange(0, 8)),
    {
        read_uint(self, bytes, 8)
    }
}

/// A little-endian value is below `256` raised to its length.
pub proof fn lemma_le_value_bound(bytes: Seq<u8>)
    ensures
        le_value(bytes) < pow256(bytes.len()),
    decreases bytes.len(),
{
    if bytes.len() > 0 {
        lemma_le_value_bound(bytes.drop_first());
    }
}

/// A big-endian value is below `256` raised to its length.
pub proof fn lemma_be_value_bound(bytes: Seq<u8>)
    ensures
        be_value(bytes) < pow256(bytes.len()),
    decreases bytes.len(),
{
    if bytes.len() > 0 {
        lemma_be_value_bound(bytes.drop_last());
    }
}

proof fn lemma_pow256_values()
    ensures
        pow256(0) == 1,
        pow256(1) == 0x100,
        pow256(2) == 0x1_0000,
        pow256(3) == 0x100_0000,
        pow256(4) == 0x1_0000_0000,
        pow256(5) == 0x100_0000_0000,
        pow256(6) == 0x1_0000_0000_0000,
        pow256(7) == 0x100_0000_0000_0000,
        pow256(8) == 0x1_0000_0000_0000_0000,
{
    reveal_with_fuel(pow256, 9);
}

/// Reads an unsigned field of `n` bytes from the start of `bytes`.
fn read_uint(endian: Endian, bytes: &[u8], n: usize) -> (res: u64)
    requires
        n <= 8,
        bytes@.len() >= n,
    ensures
        res as nat == endian.value_of(bytes@.subrange(0, n as int)),
        (res as nat) < pow256(n as nat),
{
    proof {
        lemma_pow256_values();
    }
    let mut acc: u64 = 0;
    match endian {
        Endian::Little => {
            let mut i: usize = n;
            assert(bytes@.subrange(n as int, n as int) =~= Seq::<u8>::empty());
            while i > 0
                invariant
                    i <= n <= 8,
                    bytes@.len() >= n,
                    acc as nat == le_value(bytes@.subrange(i as int, n as int)),
                    (acc as nat) < pow256((n - i) as nat),
                    pow256(8) == 0x1_0000_0000_0000_0000,
                decreases i,
            {
                let ghost old_acc = acc;
                proof {
                    lemma_pow256_monotone((n - i) as nat, 7);
                }
                acc = acc * 256 + bytes[i - 1] as u64;
                i = i - 1;
                assert(bytes@.subrange(i as int, n as int).drop_first() =~= bytes@.subrange(
                    i + 1,
                    n as int,
                ));
            }
        },
        Endian::Big => {
            let mut i: usize = 0;
            assert(bytes@.subrange(0, 0) =~= Seq::<u8>::empty());
            while i < n
                invariant
                    i <= n <= 8,
                    bytes@.len() >= n,
                    acc as nat == be_value(bytes@.subrange(0, i as int)),
                    (acc as nat) < pow256(i as nat),
                    pow256(8) == 0x1_0000_0000_0000_0000,
                decreases n - i,
            {
                proof {
                    lemma_pow256_monotone(i as nat, 7);
                }
                acc = acc * 256 + bytes[i] as u64;
                i = i + 1;
                assert(bytes@.subrange(0, i as int).drop_last() =~= bytes@.subrange(
                    0,
                    i - 1,
                ));
            }
        },
    }
    acc
}

/// Powers of `256` grow with the exponent.
pub proof fn lemma_pow256_monotone(a: nat, b: nat)
    requires
        a <= b,
    ensures
        pow256(a) <= pow256(b),
    decreases b,
{
    if a < b {
        lemma_pow256_monotone(a, (b - 1) as nat);
    }
}

/// The kinds of file that are told apart by their first bytes.
#[derive(Clone, Copy, Debug, PartialEq, Eq)]
pub enum FileFormat {
    Pe,
    Elf,
    Archive,
    ThinArchive,
    MachO,
    Universal,
    Unsupported,
}

/// Which kind of file `data` is, from its first (up to 8) bytes: `MZ` for
/// PE, `\x7fELF` for ELF, `!<arch>\n` for an archive, `!<thin>\n` for a
/// thin archive, then the Mach-O and universal Mach-O magic numbers.
pub open spec fn detect_format(data: Seq<u8>) -> FileFormat {
    if data.len() >= 2 && data[0] == 0x4d && data[1] == 0x5a {
        FileFormat::Pe
    } else if data.len() >= 4 && is_elf_magic(data) {
        FileFormat::Elf
    } else if data.len() >= 8 && data.subrange(0, 8) =~= seq![0x21u8, 0x3c, 0x61, 0x72, 0x63, 0x68, 0x3e, 0x0a] {
        FileFormat::Archive
    } else if data.len() >= 8 && data.subrange(0, 8) =~= seq![0x21u8, 0x3c, 0x74, 0x68, 0x69, 0x6e, 0x3e, 0x0a] {
        FileFormat::ThinArchive
    } else if data.len() >= 4 && spec_macho_magic(data.subrange(0, 4)) is Some {
        FileFormat::MachO
    } else if data.len() >= 4 && spec_fat_magic(data.subrange(0, 4)) is Some {
        FileFormat::Universal
    } else {
        FileFormat::Unsupported
    }
}

fn starts_with(data: &[u8], expected: &[u8]) -> (res: bool)
    ensures
        res == (data@.len() >= expected@.len() && data@.subrange(0, expected@.len() as int)
            =~= expected@),
{
    let n = expected.len();
    if data.len() < n {
        return false;
    }
    let mut i: usize = 0;
    while i < n
        invariant
            i <= n == expected@.len() <= data@.len(),
            forall|j: int| 0 <= j < i ==> data@[j] == expected@[j],
        decreases n - i,
    {
        if data[i] != expected[i] {
            assert(data@.subrange(0, n as int)[i as int] != expected@[i as int]);
            return false;
        }
        i = i + 1;
    }
    assert(data@.subrange(0, n as int) =~= expected@);
    true
}

/// A summary of a whole binary file: its format and the fields of its
/// headers that matter, one labelled line each.
pub fn inspect(data: &[u8]) -> (res: Result<String, BinaryError>)
    requires
        data@.len() <= isize::MAX,
    ensures
        match detect_format(data@) {
            FileFormat::Pe => match (res, pe_file_result(data@)) {
                (Ok(s), Ok(m)) => s@ == pe_summary(m),
                (Err(e), Err(f)) => e == f,
                _ => false,
            },
            FileFormat::Elf => match elf_header_error(elf_header_bytes(data@)) {
                Some(e) => res == Err::<String, BinaryError>(e),
                None => res matches Ok(s) && s@ == elf_summary(
                    elf_model(elf_header_bytes(data@)),
                ),
            },
            FileFormat::Archive => match (res, archive_file_result(data@)) {
                (Ok(s), Ok(m)) => exists|names: Seq<Seq<char>>|
                    {
                        &&& sorted_names(names)
                        &&& names.to_set() == m.architectures
                        &&& s@ == archive_summary(
                            m.format,
                            m.library_type,
                            m.members,
                            m.objects,
                            m.import_objects,
                            names,
                            m.symbols,
                            false,
                        )
                    },
                (Err(e), Err(f)) => e == f,
                _ => false,
            },
            FileFormat::ThinArchive => res matches Ok(s) && s@ == archive_summary(
                thin_model().format,
                thin_model().library_type,
                0,
                0,
                0,
                Seq::empty(),
                None,
                true,
            ),
            FileFormat::MachO => match (res, macho_file_result(data@)) {
                (Ok(s), Ok(m)) => s@ == macho_summary(m),
                (Err(e), Err(f)) => e == f,
                _ => false,
            },
            FileFormat::Universal => match (res, universal_file_result(data@)) {
                (Ok(s), Ok(m)) => exists|names: Seq<Seq<char>>|
                    {
                        &&& sorted_names(names)
                        &&& names.to_set() == m.architectures
                        &&& s@ == universal_summary(m.slices, names, m.is_64_bit_table)
                    },
                (Err(e), Err(f)) => e == f,
                _ => false,
            },
            FileFormat::Unsupported => res == Err::<String, BinaryError>(
                BinaryError::InvalidData("unsupported binary format"),
            ),
        },
{
    let len = data.len();
    if len >= 2 && data[0] == 0x4d && data[1] == 0x5a {
        pe::inspect(data)
    } else if len >= 4 && data[0] == 0x7f && data[1] == 0x45 && data[2] == 0x4c && data[3] == 0x46 {
        elf::inspect(data)
    } else if starts_with(data, &[0x21u8, 0x3c, 0x61, 0x72, 0x63, 0x68, 0x3e, 0x0a]) {
        archive::inspect(data)
    } else if starts_with(data, &[0x21u8, 0x3c, 0x74, 0x68, 0x69, 0x6e, 0x3e, 0x0a]) {
        Ok(archive::thin_summary())
    } else if len >= 4 && macho::is_macho(&data[0..4]) {
        macho::inspect(data)
    } else if len >= 4 && macho::is_universal(&data[0..4]) {
        macho::inspect_universal(data)
    } else {
        Err(invalid_data("unsupported binary format"))
    }
}

/// Reading bytes least significant first gives the same value as reading
/// them in reverse order most significant first: the two byte orders are
/// mirror images.
pub proof fn lemma_little_is_reversed_big(bytes: Seq<u8>)
    ensures
        le_value(bytes) == be_value(bytes.reverse()),
    decreases bytes.len(),
{
    if bytes.len() > 0 {
        let rest = bytes.drop_first();
        lemma_little_is_reversed_big(rest);
        let r = bytes.reverse();
        assert(r.drop_last() =~= rest.reverse());
        assert(r.last() == bytes[0]);
    }
}

} // verus!
