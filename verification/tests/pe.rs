use binary_preview::binary::inspect;
use binary_preview::binary::pe::{is_known_machine, machine_name, parse_headers, subsystem_name};

#[test]
fn parses_and_formats_pe32_plus_header() {
    let mut coff = [0u8; 24];
    coff[..4].copy_from_slice(b"PE\0\0");
    coff[4..6].copy_from_slice(&0x8664u16.to_le_bytes());
    coff[6..8].copy_from_slice(&7u16.to_le_bytes());
    let mut optional = [0u8; 112];
    optional[0..2].copy_from_slice(&0x20bu16.to_le_bytes());
    optional[16..20].copy_from_slice(&0x0001_a3f0u32.to_le_bytes());
    optional[24..32].copy_from_slice(&0x0000_0001_4000_0000u64.to_le_bytes());
    optional[68..70].copy_from_slice(&3u16.to_le_bytes());

    let info = parse_headers(&coff, &optional).unwrap();
    assert_eq!(
        info.format_summary(),
        "Format        PE32+ (64-bit)\n\
         Architecture  x86-64\n\
         Sections      7\n\
         Entry Point   0x0001A3F0\n\
         Image Base    0x0000000140000000\n\
         Subsystem     Windows CUI"
    );
}

#[test]
fn reads_pe32_file() {
    let mut file = vec![0u8; 0x80];
    file[..2].copy_from_slice(b"MZ");
    file[0x3c..0x40].copy_from_slice(&0x80u32.to_le_bytes());
    let mut coff = [0u8; 24];
    coff[..4].copy_from_slice(b"PE\0\0");
    coff[4..6].copy_from_slice(&0x014cu16.to_le_bytes());
    coff[6..8].copy_from_slice(&3u16.to_le_bytes());
    coff[20..22].copy_from_slice(&96u16.to_le_bytes());
    file.extend_from_slice(&coff);
    let mut optional = [0u8; 96];
    optional[0..2].copy_from_slice(&0x10bu16.to_le_bytes());
    optional[16..20].copy_from_slice(&0x1000u32.to_le_bytes());
    optional[28..32].copy_from_slice(&0x0040_0000u32.to_le_bytes());
    optional[68..70].copy_from_slice(&2u16.to_le_bytes());
    file.extend_from_slice(&optional);
    file.extend_from_slice(&[0xccu8; 10]);
    assert_eq!(
        inspect(&file).unwrap(),
        "Format        PE32 (32-bit)\n\
         Architecture  x86\n\
         Sections      3\n\
         Entry Point   0x00001000\n\
         Image Base    0x00400000\n\
         Subsystem     Windows GUI"
    );
}

#[test]
fn names_pe_fields() {
    assert_eq!(machine_name(0x01c2), "ARM");
    assert_eq!(machine_name(0x5064), "RISC-V 64");
    assert_eq!(machine_name(0x1234), "Unknown (0x1234)");
    assert!(is_known_machine(0x0ebc));
    assert!(!is_known_machine(0x1234));
    assert_eq!(subsystem_name(10), "EFI Application");
    assert_eq!(subsystem_name(16), "Windows Boot Application");
    assert_eq!(subsystem_name(99), "Unknown (99)");
}
