use binary_preview::binary::archive::{
    bsd_content, classify_member, is_metadata_member, is_symbol_member, looks_like_short_import,
    parse_number, MemberKind,
};
use binary_preview::binary::{inspect, BinaryError};

const MAGIC: &[u8; 8] = b"!<arch>\n";
const THIN_MAGIC: &[u8; 8] = b"!<thin>\n";

fn elf64_header() -> [u8; 64] {
    let mut header = [0u8; 64];
    header[..4].copy_from_slice(b"\x7fELF");
    header[4] = 2;
    header[5] = 1;
    header[6] = 1;
    header[7] = 3;
    header[16..18].copy_from_slice(&2u16.to_le_bytes());
    header[18..20].copy_from_slice(&0x3eu16.to_le_bytes());
    header[24..32].copy_from_slice(&0x401000u64.to_le_bytes());
    header[56..58].copy_from_slice(&13u16.to_le_bytes());
    header[60..62].copy_from_slice(&31u16.to_le_bytes());
    header
}

fn append_member(archive: &mut Vec<u8>, name: &str, data: &[u8]) {
    let header = format!(
        "{name:<16}{:<12}{:<6}{:<6}{:<8}{:<10}`\n",
        0,
        0,
        0,
        0,
        data.len()
    );
    assert_eq!(header.len(), 60);
    archive.extend_from_slice(header.as_bytes());
    archive.extend_from_slice(data);
    if data.len() % 2 != 0 {
        archive.push(b'\n');
    }
}

#[test]
fn reads_elf_archive() {
    let object = elf64_header();
    let mut archive = MAGIC.to_vec();
    append_member(&mut archive, "sample.o/", &object);
    let summary = inspect(&archive).unwrap();
    assert!(summary.contains("Format        Unix Archive (ELF)"));
    assert!(summary.contains("Objects       1"));
    assert!(summary.contains("Architecture  x86-64"));
}

#[test]
fn reads_coff_import_library() {
    let mut import = vec![0u8; 20];
    import[2..4].copy_from_slice(&0xffffu16.to_le_bytes());
    import[6..8].copy_from_slice(&0x8664u16.to_le_bytes());
    let names = b"ImportedFunction\0sample.dll\0";
    import[12..16].copy_from_slice(&(names.len() as u32).to_le_bytes());
    import.extend_from_slice(names);
    let mut archive = MAGIC.to_vec();
    append_member(&mut archive, "import.obj/", &import);
    let summary = inspect(&archive).unwrap();
    assert!(summary.contains("Format        COFF Archive"));
    assert!(summary.contains("Library Type  Import Library"));
    assert!(summary.contains("Architecture  x86-64"));
    assert!(summary.contains("Imports       1"));
}

#[test]
fn does_not_treat_bigobj_header_as_short_import() {
    let mut bigobj = vec![0u8; 56];
    bigobj[2..4].copy_from_slice(&0xffffu16.to_le_bytes());
    bigobj[4..6].copy_from_slice(&2u16.to_le_bytes());
    bigobj[6..8].copy_from_slice(&0x8664u16.to_le_bytes());
    let kind = classify_member(&bigobj).unwrap();
    assert!(matches!(kind, MemberKind::Coff { import: false, .. }));
}

#[test]
fn recognizes_thin_archive_without_following_external_members() {
    let summary = inspect(THIN_MAGIC).unwrap();
    assert!(summary.contains("Format        GNU Thin Archive"));
    assert!(summary.contains("Members       external references"));
}

fn coff_object(machine: u16) -> Vec<u8> {
    let mut object = vec![0u8; 20];
    object[0..2].copy_from_slice(&machine.to_le_bytes());
    object
}

fn short_import(machine: u16) -> Vec<u8> {
    let mut import = vec![0u8; 20];
    import[2..4].copy_from_slice(&0xffffu16.to_le_bytes());
    import[6..8].copy_from_slice(&machine.to_le_bytes());
    let names = b"Function\0library.dll\0";
    import[12..16].copy_from_slice(&(names.len() as u32).to_le_bytes());
    import.extend_from_slice(names);
    import
}

#[test]
fn empty_archive_summary() {
    assert_eq!(
        inspect(MAGIC).unwrap(),
        "Format        Archive Library\n\
         Library Type  Static Library\n\
         Members       0\n\
         Objects       0\n\
         Architecture  Unknown"
    );
}

#[test]
fn thin_archive_summary() {
    assert_eq!(
        inspect(b"!<thin>\nanything after the magic").unwrap(),
        "Format        GNU Thin Archive\n\
         Library Type  Thin Static Library\n\
         Members       external references"
    );
}

#[test]
fn counts_symbols_and_skips_metadata_members() {
    let mut archive = MAGIC.to_vec();
    let mut symbols = vec![0u8, 0, 0, 2];
    symbols.extend_from_slice(&[0u8; 8]);
    append_member(&mut archive, "/", &symbols);
    append_member(&mut archive, "//", b"long-name.o/\n");
    append_member(&mut archive, "sample.o/", &elf64_header());
    assert_eq!(
        inspect(&archive).unwrap(),
        "Format        Unix Archive (ELF)\n\
         Library Type  Static Library\n\
         Members       1\n\
         Objects       1\n\
         Architecture  x86-64\n\
         Symbols       2"
    );
}

#[test]
fn ignores_a_symbol_count_that_does_not_fit() {
    let mut archive = MAGIC.to_vec();
    let mut symbols = vec![0u8, 0, 0, 5];
    symbols.extend_from_slice(&[0u8; 8]);
    append_member(&mut archive, "/", &symbols);
    let summary = inspect(&archive).unwrap();
    assert!(!summary.contains("Symbols"));
    assert!(summary.contains("Members       0"));
}

#[test]
fn mixed_archive_lists_formats_and_architectures() {
    let mut archive = MAGIC.to_vec();
    append_member(&mut archive, "a.o/", &elf64_header());
    append_member(&mut archive, "b.obj/", &coff_object(0xaa64));
    append_member(&mut archive, "notes.txt/", b"odd");
    append_member(&mut archive, "c.obj/", &coff_object(0x8664));
    assert_eq!(
        inspect(&archive).unwrap(),
        "Format        Mixed Archive (COFF, ELF)\n\
         Library Type  Static Library\n\
         Members       4\n\
         Objects       3\n\
         Architecture  ARM64, x86-64"
    );
}

#[test]
fn import_library_kinds() {
    let mut archive = MAGIC.to_vec();
    append_member(&mut archive, "i.obj/", &short_import(0x8664));
    for _ in 0..4 {
        append_member(&mut archive, "o.obj/", &coff_object(0x8664));
    }
    assert!(inspect(&archive)
        .unwrap()
        .contains("Library Type  Import Library"));
    append_member(&mut archive, "o.obj/", &coff_object(0x8664));
    let summary = inspect(&archive).unwrap();
    assert!(summary.contains("Library Type  Mixed Static / Import Library"));
    assert!(summary.contains("Objects       6"));
    assert!(summary.contains("Imports       1"));
}

#[test]
fn reads_bsd_long_names_and_macho_members() {
    let mut member = b"object_name1".to_vec();
    let mut macho = vec![0u8; 28];
    macho[..4].copy_from_slice(b"\xCF\xFA\xED\xFE");
    macho[4..8].copy_from_slice(&0x0100_0007u32.to_le_bytes());
    member.extend_from_slice(&macho);
    let mut archive = MAGIC.to_vec();
    append_member(&mut archive, "__.SYMDEF SORTED", &[0u8; 4]);
    append_member(&mut archive, "#1/12", &member);
    assert_eq!(
        inspect(&archive).unwrap(),
        "Format        Unix Archive (Mach-O)\n\
         Library Type  Static Library\n\
         Members       1\n\
         Objects       1\n\
         Architecture  x86-64\n\
         Symbols       0"
    );
}

#[test]
fn classifies_members() {
    assert!(matches!(
        classify_member(&elf64_header()),
        Some(MemberKind::Elf { architecture }) if architecture == "x86-64"
    ));
    assert!(matches!(
        classify_member(b"\xFE\xED\xFA\xCE\x00\x00\x00\x12"),
        Some(MemberKind::MachO { architecture }) if architecture == "PowerPC"
    ));
    assert!(matches!(
        classify_member(&short_import(0x014c)),
        Some(MemberKind::Coff { architecture, import: true }) if architecture == "x86"
    ));
    assert!(matches!(
        classify_member(&coff_object(0x01c4)),
        Some(MemberKind::Coff { architecture, import: false }) if architecture == "ARM"
    ));
    assert!(classify_member(&coff_object(0x1234)).is_none());
    assert!(classify_member(b"plain text here, not an object").is_none());
    assert!(classify_member(b"\x7fELF").is_none());
}

#[test]
fn short_import_headers() {
    assert!(looks_like_short_import(&short_import(0x8664)));
    let mut bad_flags = short_import(0x8664);
    bad_flags[18..20].copy_from_slice(&0x20u16.to_le_bytes());
    assert!(!looks_like_short_import(&bad_flags));
    let mut too_long = short_import(0x8664);
    too_long[12..16].copy_from_slice(&1000u32.to_le_bytes());
    assert!(!looks_like_short_import(&too_long));
    let mut one_name = vec![0u8; 20];
    one_name[12..16].copy_from_slice(&3u32.to_le_bytes());
    one_name.extend_from_slice(b"ab\0");
    assert!(!looks_like_short_import(&one_name));
    assert!(!looks_like_short_import(&[0u8; 19]));
}

#[test]
fn member_names_and_sizes() {
    for name in ["/", "/SYM64/", "__.SYMDEF", "__.SYMDEF/", "__.SYMDEF SORTED", "__.SYMDEF_64"] {
        assert!(is_symbol_member(name));
    }
    assert!(!is_symbol_member("//"));
    assert!(is_metadata_member("//"));
    assert!(is_metadata_member("/<HYBRIDMAP>/"));
    assert!(!is_metadata_member("/"));
    assert_eq!(parse_number(b"  12    "), Ok(12));
    assert_eq!(parse_number(b"+4"), Ok(4));
    assert_eq!(parse_number(b"9999999999"), Ok(9_999_999_999));
    assert_eq!(
        parse_number(b"-1"),
        Err(BinaryError::InvalidData("invalid archive member size"))
    );
    assert_eq!(
        parse_number(b"\xff"),
        Err(BinaryError::InvalidData("archive size is not ASCII"))
    );
    assert_eq!(bsd_content("a.o/", 68, 10), Ok((68, 10)));
    assert_eq!(bsd_content("#1/4", 68, 10), Ok((72, 6)));
    assert_eq!(bsd_content("#1/4//", 68, 10), Ok((72, 6)));
    assert_eq!(bsd_content("#1/10", 68, 10), Ok((78, 0)));
}
