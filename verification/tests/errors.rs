use binary_preview::binary::elf::parse_header;
use binary_preview::binary::pe::parse_headers;
use binary_preview::binary::{inspect, BinaryError};

fn error_of(data: &[u8]) -> BinaryError {
    inspect(data).unwrap_err()
}

fn invalid(message: &'static str) -> BinaryError {
    BinaryError::InvalidData(message)
}

#[test]
fn rejects_unknown_formats() {
    assert_eq!(error_of(b""), invalid("unsupported binary format"));
    assert_eq!(error_of(b"hello world"), invalid("unsupported binary format"));
    assert_eq!(error_of(b"!<arch>"), invalid("unsupported binary format"));
    assert_eq!(error_of(b"\x7fEL"), invalid("unsupported binary format"));
}

#[test]
fn elf_errors() {
    assert_eq!(error_of(b"\x7fELF"), invalid("missing ELF signature"));
    let mut header = [0u8; 64];
    header[..4].copy_from_slice(b"\x7fELF");
    header[4] = 3;
    header[5] = 1;
    assert_eq!(error_of(&header[..16]), invalid("unknown ELF class"));
    header[4] = 2;
    assert_eq!(error_of(&header[..40]), invalid("truncated ELF header"));
    header[4] = 1;
    assert_eq!(error_of(&header[..51]), invalid("truncated ELF header"));
    header[5] = 0;
    assert!(matches!(
        parse_header(&header[..52]),
        Err(BinaryError::InvalidData("unknown ELF byte order"))
    ));
}

fn dos_header(pe_offset: u32) -> Vec<u8> {
    let mut dos = vec![0u8; 64];
    dos[..2].copy_from_slice(b"MZ");
    dos[0x3c..0x40].copy_from_slice(&pe_offset.to_le_bytes());
    dos
}

#[test]
fn pe_errors() {
    assert_eq!(error_of(b"MZ"), BinaryError::UnexpectedEof);
    assert_eq!(error_of(&dos_header(64)), BinaryError::UnexpectedEof);
    assert_eq!(error_of(&dos_header(0x1000)), BinaryError::UnexpectedEof);

    let mut file = dos_header(64);
    file.extend_from_slice(&[0u8; 24]);
    assert_eq!(error_of(&file), invalid("missing PE signature"));

    let mut file = dos_header(64);
    let mut coff = [0u8; 24];
    coff[..4].copy_from_slice(b"PE\0\0");
    coff[20..22].copy_from_slice(&16u16.to_le_bytes());
    file.extend_from_slice(&coff);
    assert_eq!(error_of(&file), BinaryError::UnexpectedEof);
    file.extend_from_slice(&[0u8; 16]);
    assert_eq!(error_of(&file), invalid("truncated PE header"));

    let mut optional = [0u8; 70];
    optional[0..2].copy_from_slice(&0x999u16.to_le_bytes());
    assert_eq!(
        parse_headers(&coff, &optional),
        Err(invalid("unknown PE optional-header format"))
    );
    assert_eq!(parse_headers(&coff[..20], &optional), Err(invalid("truncated PE header")));
}

#[test]
fn macho_errors() {
    assert_eq!(error_of(b"\xCF\xFA\xED\xFE"), BinaryError::UnexpectedEof);
    assert_eq!(error_of(b"\xCE\xFA\xED\xFE\x07\0\0\0"), BinaryError::UnexpectedEof);
    assert_eq!(error_of(b"\xCA\xFE\xBA\xBE"), BinaryError::UnexpectedEof);
    let mut fat = b"\xCA\xFE\xBA\xBE".to_vec();
    fat.extend_from_slice(&2u32.to_be_bytes());
    fat.extend_from_slice(&[0u8; 39]);
    assert_eq!(error_of(&fat), invalid("invalid Mach-O slice table"));
    let mut fat = b"\xCA\xFE\xBA\xBE".to_vec();
    fat.extend_from_slice(&5000u32.to_be_bytes());
    fat.extend_from_slice(&vec![0u8; 5000 * 20]);
    assert_eq!(error_of(&fat), invalid("invalid Mach-O slice table"));
}

fn member_header(name: &[u8], size: &[u8], end: &[u8]) -> Vec<u8> {
    let mut header = vec![b' '; 60];
    header[..name.len()].copy_from_slice(name);
    header[48..48 + size.len()].copy_from_slice(size);
    header[58..60].copy_from_slice(end);
    header
}

fn archive_with(header: Vec<u8>, data: &[u8]) -> Vec<u8> {
    let mut archive = b"!<arch>\n".to_vec();
    archive.extend_from_slice(&header);
    archive.extend_from_slice(data);
    archive
}

#[test]
fn archive_errors() {
    assert_eq!(
        error_of(&archive_with(member_header(b"a.o/", b"0", b"xx"), b"")),
        invalid("invalid archive member header")
    );
    assert_eq!(
        error_of(&archive_with(member_header(b"a\xff.o/", b"0", b"`\n"), b"")),
        invalid("archive member name is not ASCII")
    );
    assert_eq!(
        error_of(&archive_with(member_header(b"a.o/", b"1\xff", b"`\n"), b"")),
        invalid("archive size is not ASCII")
    );
    assert_eq!(
        error_of(&archive_with(member_header(b"a.o/", b"abc", b"`\n"), b"")),
        invalid("invalid archive member size")
    );
    assert_eq!(
        error_of(&archive_with(member_header(b"a.o/", b"", b"`\n"), b"")),
        invalid("invalid archive member size")
    );
    assert_eq!(
        error_of(&archive_with(member_header(b"a.o/", b"100", b"`\n"), b"abc")),
        invalid("archive member extends past end of file")
    );
    assert_eq!(
        error_of(&archive_with(member_header(b"#1/abc", b"4", b"`\n"), b"abcd")),
        invalid("invalid BSD archive member name length")
    );
    assert_eq!(
        error_of(&archive_with(member_header(b"#1/20", b"4", b"`\n"), b"abcd")),
        invalid("BSD archive member name exceeds member size")
    );
}
