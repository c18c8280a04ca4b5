use binary_preview::binary::elf::{file_type_name, machine_name, os_abi_name, parse_header};
use binary_preview::binary::inspect;

fn elf64_header() -> [u8; 64] {
    let mut header = [0u8; 64];
    header[..4].copy_from_slice(b"\x7fELF");
    header[4] = 2;
    header[5] = 1;
    header[6] = 1;
    header[7] = 3;
    header[16..18].copy_from_slice(&2u16.to_le_bytes());
    header[18..20].copy_from_slice(&0x3eu16.to_le_bytes());
    header[24..32].copy_from_slice(&0x401000u64.to_le_bytes());
    header[56..58].copy_from_slice(&13u16.to_le_bytes());
    header[60..62].copy_from_slice(&31u16.to_le_bytes());
    header
}

#[test]
fn parses_elf64_executable() {
    let info = parse_header(&elf64_header()).unwrap();
    assert_eq!(info.format, "ELF64");
    assert_eq!(info.file_type, "Executable");
    assert_eq!(info.architecture, "x86-64");
    assert_eq!(info.entry_point, 0x401000);
    assert_eq!(info.sections, 31);
}

#[test]
fn formats_elf64_summary() {
    let summary = inspect(&elf64_header()).unwrap();
    assert_eq!(
        summary,
        "Format        ELF64\n\
         Type          Executable\n\
         Architecture  x86-64\n\
         Endianness    Little Endian\n\
         OS/ABI        Linux\n\
         Entry Point   0x0000000000401000\n\
         Prog Headers  13\n\
         Sections      31"
    );
}

#[test]
fn formats_big_endian_elf32_summary() {
    let mut header = [0u8; 52];
    header[..4].copy_from_slice(b"\x7fELF");
    header[4] = 1;
    header[5] = 2;
    header[7] = 9;
    header[16..18].copy_from_slice(&3u16.to_be_bytes());
    header[18..20].copy_from_slice(&0x14u16.to_be_bytes());
    header[24..28].copy_from_slice(&0x1000_0400u32.to_be_bytes());
    header[44..46].copy_from_slice(&7u16.to_be_bytes());
    header[48..50].copy_from_slice(&25u16.to_be_bytes());
    assert_eq!(
        inspect(&header).unwrap(),
        "Format        ELF32\n\
         Type          Shared Object / PIE\n\
         Architecture  PowerPC\n\
         Endianness    Big Endian\n\
         OS/ABI        FreeBSD\n\
         Entry Point   0x10000400\n\
         Prog Headers  7\n\
         Sections      25"
    );
}

#[test]
fn reads_only_the_header_of_a_longer_file() {
    let mut file = elf64_header().to_vec();
    file.extend_from_slice(&[0xffu8; 100]);
    assert_eq!(inspect(&file), inspect(&elf64_header()));
}

#[test]
fn names_unknown_elf_fields() {
    assert_eq!(file_type_name(0), "None");
    assert_eq!(file_type_name(4), "Core Dump");
    assert_eq!(file_type_name(0xfe00), "Unknown (0xFE00)");
    assert_eq!(machine_name(0xb7), "ARM64");
    assert_eq!(machine_name(0xf3), "RISC-V");
    assert_eq!(machine_name(0x102), "LoongArch");
    assert_eq!(machine_name(0x9), "Unknown (0x0009)");
    assert_eq!(os_abi_name(0), "UNIX System V");
    assert_eq!(os_abi_name(12), "OpenBSD");
    assert_eq!(os_abi_name(255), "Unknown (255)");
}
