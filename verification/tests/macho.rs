use binary_preview::binary::inspect;
use binary_preview::binary::macho::{cpu_name, entry_offset, file_type_name};
use binary_preview::binary::Endian;

#[test]
fn parses_macho64_entry_command() {
    let mut commands = [0u8; 24];
    commands[..4].copy_from_slice(&0x8000_0028u32.to_le_bytes());
    commands[4..8].copy_from_slice(&24u32.to_le_bytes());
    commands[8..16].copy_from_slice(&0x1234u64.to_le_bytes());
    assert_eq!(entry_offset(&commands, Endian::Little, 1), Some(0x1234));
    assert_eq!(cpu_name(0x0100_000c), "ARM64");
}

#[test]
fn reads_macho64_executable() {
    let mut macho = vec![0u8; 32 + 24];
    macho[..4].copy_from_slice(b"\xCF\xFA\xED\xFE");
    macho[4..8].copy_from_slice(&0x0100_000cu32.to_le_bytes());
    macho[12..16].copy_from_slice(&2u32.to_le_bytes());
    macho[16..20].copy_from_slice(&1u32.to_le_bytes());
    macho[20..24].copy_from_slice(&24u32.to_le_bytes());
    macho[32..36].copy_from_slice(&0x8000_0028u32.to_le_bytes());
    macho[36..40].copy_from_slice(&24u32.to_le_bytes());
    macho[40..48].copy_from_slice(&0x4000u64.to_le_bytes());

    let summary = inspect(&macho).unwrap();
    assert!(summary.contains("Format        Mach-O 64-bit"));
    assert!(summary.contains("Type          Executable"));
    assert!(summary.contains("Architecture  ARM64"));
    assert!(summary.contains("Entry Offset  0x0000000000004000"));
}

#[test]
fn reads_universal_macho_architectures() {
    let mut fat = vec![0u8; 8 + 40];
    fat[..4].copy_from_slice(b"\xCA\xFE\xBA\xBE");
    fat[4..8].copy_from_slice(&2u32.to_be_bytes());
    fat[8..12].copy_from_slice(&0x0100_0007u32.to_be_bytes());
    fat[28..32].copy_from_slice(&0x0100_000cu32.to_be_bytes());

    let summary = inspect(&fat).unwrap();
    assert!(summary.contains("Slices        2"));
    assert!(summary.contains("Architectures ARM64, x86-64"));
}

#[test]
fn reads_big_endian_macho32_without_entry() {
    let mut macho = vec![0u8; 28];
    macho[..4].copy_from_slice(b"\xFE\xED\xFA\xCE");
    macho[4..8].copy_from_slice(&0x12u32.to_be_bytes());
    macho[12..16].copy_from_slice(&6u32.to_be_bytes());
    assert_eq!(
        inspect(&macho).unwrap(),
        "Format        Mach-O 32-bit\n\
         Type          Dynamic Library\n\
         Architecture  PowerPC\n\
         Endianness    Big Endian\n\
         Load Commands 0"
    );
}

#[test]
fn ignores_load_commands_past_the_end_of_the_file() {
    let mut macho = vec![0u8; 32 + 24];
    macho[..4].copy_from_slice(b"\xCF\xFA\xED\xFE");
    macho[4..8].copy_from_slice(&0x0100_000cu32.to_le_bytes());
    macho[12..16].copy_from_slice(&2u32.to_le_bytes());
    macho[16..20].copy_from_slice(&1u32.to_le_bytes());
    macho[20..24].copy_from_slice(&25u32.to_le_bytes());
    macho[32..36].copy_from_slice(&0x8000_0028u32.to_le_bytes());
    macho[36..40].copy_from_slice(&24u32.to_le_bytes());
    let summary = inspect(&macho).unwrap();
    assert!(summary.ends_with("Load Commands 1"));
}

#[test]
fn walks_load_commands() {
    let mut commands = vec![0u8; 16 + 24];
    commands[..4].copy_from_slice(&0x19u32.to_be_bytes());
    commands[4..8].copy_from_slice(&16u32.to_be_bytes());
    commands[16..20].copy_from_slice(&0x8000_0028u32.to_be_bytes());
    commands[20..24].copy_from_slice(&24u32.to_be_bytes());
    commands[24..32].copy_from_slice(&0xabcdu64.to_be_bytes());
    assert_eq!(entry_offset(&commands, Endian::Big, 2), Some(0xabcd));
    assert_eq!(entry_offset(&commands, Endian::Big, 1), None);
    assert_eq!(entry_offset(&commands, Endian::Little, 2), None);
    let mut short = commands.clone();
    short[4..8].copy_from_slice(&4u32.to_be_bytes());
    assert_eq!(entry_offset(&short, Endian::Big, 2), None);
    assert_eq!(entry_offset(&commands[..30], Endian::Big, 2), None);
    assert_eq!(entry_offset(&[], Endian::Big, 0), None);
}

#[test]
fn names_macho_fields() {
    assert_eq!(cpu_name(0x0200_000c), "ARM64_32");
    assert_eq!(cpu_name(0x0100_0012), "PowerPC64");
    assert_eq!(cpu_name(0x42), "Unknown (0x00000042)");
    assert_eq!(file_type_name(10), "dSYM Companion");
    assert_eq!(file_type_name(0), "Unknown (0x00000000)");
}

#[test]
fn reads_fat64_table_and_merges_architectures() {
    let mut fat = b"\xBF\xBA\xFE\xCA".to_vec();
    fat.extend_from_slice(&3u32.to_le_bytes());
    for cpu in [0x0100_0007u32, 0x42, 0x0100_0007] {
        let mut entry = [0u8; 32];
        entry[..4].copy_from_slice(&cpu.to_le_bytes());
        fat.extend_from_slice(&entry);
    }
    assert_eq!(
        inspect(&fat).unwrap(),
        "Format        Mach-O Universal (Fat64)\n\
         Slices        3\n\
         Architectures Unknown (0x00000042), x86-64"
    );
}

#[test]
fn universal_without_slices() {
    let mut fat = b"\xCA\xFE\xBA\xBE".to_vec();
    fat.extend_from_slice(&0u32.to_be_bytes());
    assert_eq!(
        inspect(&fat).unwrap(),
        "Format        Mach-O Universal\n\
         Slices        0\n\
         Architectures "
    );
}
