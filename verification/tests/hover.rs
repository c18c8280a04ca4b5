use binary_preview::hover::{
    extract_numeric_literal, extract_path, extract_quoted_path, float_parts, format_binary_preview,
    format_float_preview, format_hex_dump, format_numeric_literal, format_read_failure,
    is_escaped, line_at, looks_like_path, path_cut_ok, utf16_col_to_byte_idx, NumericPreview,
};

#[test]
fn formats_integer_literals_in_all_bases() {
    assert_eq!(
        format_numeric_literal("42"),
        Some(NumericPreview::Integer(
            "**HEX**  `0x2A`\n\n**DEC**  `42`\n\n**BIN**  `0b101010`".to_string()
        ))
    );
    assert_eq!(
        format_numeric_literal("0b101010"),
        format_numeric_literal("42")
    );
    assert_eq!(format_numeric_literal("0x2A"), format_numeric_literal("42"));
    assert_eq!(
        format_numeric_literal("0xDEAD"),
        format_numeric_literal("57005")
    );
}

#[test]
fn extracts_decimal_binary_and_float_literals() {
    let line = "auto values = 42 + 0b1010 + 1.5f + 6.02e23;";
    assert_eq!(extract_numeric_literal(line, 14), Some("42"));
    assert_eq!(extract_numeric_literal(line, 21), Some("0b1010"));
    assert_eq!(extract_numeric_literal(line, 30), Some("1.5f"));
    assert_eq!(extract_numeric_literal(line, 39), Some("6.02e23"));
}

#[test]
fn ignores_digits_inside_identifiers() {
    let line = "uint32_t value = 7;";
    assert_eq!(extract_numeric_literal(line, 5), None);
    assert_eq!(extract_numeric_literal(line, 17), Some("7"));
}

#[test]
fn extracts_extensionless_unix_executable_path() {
    let line = "const char* tool = \"/usr/local/bin/tool\";";
    assert_eq!(extract_path(line, 30), Some("/usr/local/bin/tool"));
}

#[test]
fn extracts_quoted_path_with_spaces() {
    let line = "std::string path = \"C:/Program Files/tool.exe\";";
    assert_eq!(extract_path(line, 32), Some("C:/Program Files/tool.exe"));
}

#[test]
fn extracts_unquoted_relative_executable_path() {
    let line = "run build/output/tool now";
    assert_eq!(extract_path(line, 12), Some("build/output/tool"));
}

fn float_preview(token: &str) -> Option<String> {
    match format_numeric_literal(token)? {
        NumericPreview::Integer(text) => Some(text),
        NumericPreview::Float { token, cleaned } => {
            let (single, number) = float_parts(&cleaned);
            if single {
                let value = number.parse::<f32>().ok()?;
                Some(format_float_preview(
                    &token,
                    true,
                    &value.to_string(),
                    u64::from(value.to_bits()),
                ))
            } else {
                let value = number.parse::<f64>().ok()?;
                Some(format_float_preview(
                    &token,
                    false,
                    &value.to_string(),
                    value.to_bits(),
                ))
            }
        }
    }
}

#[test]
fn formats_float_as_ieee_754_bits() {
    let f32_preview = float_preview("1.5f").unwrap();
    assert!(f32_preview.contains("**FLOAT (f32)**"));
    assert!(f32_preview.contains("0x3FC00000"));

    let f64_preview = float_preview("1.5").unwrap();
    assert!(f64_preview.contains("**FLOAT (f64)**"));
    assert!(f64_preview.contains("0x3FF8000000000000"));
}

#[test]
fn float_preview_text_pads_the_bits() {
    assert_eq!(
        format_float_preview("1.5f", true, "1.5", 0x3FC0_0000),
        "**FLOAT (f32)**  `1.5f`\n\n**DEC**  `1.5`\n\n**HEX**  `0x3FC00000`\n\n\
         **BIN**  `0b00111111110000000000000000000000`"
    );
    assert_eq!(
        format_float_preview("0.0", false, "0", 0),
        format!(
            "**FLOAT (f64)**  `0.0`\n\n**DEC**  `0`\n\n**HEX**  `0x{}`\n\n**BIN**  `0b{}`",
            "0".repeat(16),
            "0".repeat(64)
        )
    );
}

#[test]
fn float_parts_split_precision_and_suffix() {
    assert_eq!(float_parts("1.5f"), (true, "1.5"));
    assert_eq!(float_parts("1.5F"), (true, "1.5"));
    assert_eq!(float_parts("2.5L"), (false, "2.5"));
    assert_eq!(float_parts("6.02e23"), (false, "6.02e23"));
    assert_eq!(float_parts("1.0lf"), (true, "1.0"));
}

#[test]
fn classifies_floating_point_literals() {
    assert_eq!(
        format_numeric_literal("6.02e23"),
        Some(NumericPreview::Float {
            token: "6.02e23".to_string(),
            cleaned: "6.02e23".to_string()
        })
    );
    assert_eq!(
        format_numeric_literal("1'0.5"),
        Some(NumericPreview::Float {
            token: "1'0.5".to_string(),
            cleaned: "10.5".to_string()
        })
    );
    // A hexadecimal `E` is a digit, not an exponent.
    assert_eq!(format_numeric_literal("0xE"), format_numeric_literal("14"));
}

#[test]
fn integer_preview_ignores_spelling() {
    assert_eq!(format_numeric_literal("1'000"), format_numeric_literal("1000"));
    assert_eq!(format_numeric_literal("42ul"), format_numeric_literal("42"));
    assert_eq!(format_numeric_literal("0X2a"), format_numeric_literal("42"));
    assert_eq!(format_numeric_literal("0B101010"), format_numeric_literal("42"));
    assert_eq!(
        format_numeric_literal("0"),
        Some(NumericPreview::Integer(
            "**HEX**  `0x0`\n\n**DEC**  `0`\n\n**BIN**  `0b0`".to_string()
        ))
    );
}

#[test]
fn integer_preview_needs_a_value_that_fits() {
    assert_eq!(
        format_numeric_literal("18446744073709551615"),
        Some(NumericPreview::Integer(format!(
            "**HEX**  `0xFFFFFFFFFFFFFFFF`\n\n**DEC**  `18446744073709551615`\n\n**BIN**  `0b{}`",
            "1".repeat(64)
        )))
    );
    assert_eq!(format_numeric_literal("18446744073709551616"), None);
    assert_eq!(format_numeric_literal("0x"), None);
    assert_eq!(format_numeric_literal("0b102"), None);
}

#[test]
fn extracts_literals_at_their_edges() {
    assert_eq!(extract_numeric_literal(".5 + x", 0), Some(".5"));
    assert_eq!(extract_numeric_literal("v = 42;", 6), Some("42"));
    assert_eq!(extract_numeric_literal("v = 42;", 3), None);
    assert_eq!(extract_numeric_literal("mask = 0x1Fu;", 9), Some("0x1Fu"));
    assert_eq!(extract_numeric_literal("x=1e", 2), None);
    assert_eq!(extract_numeric_literal("x1 + 23", 1), None);
    assert_eq!(extract_numeric_literal("x1 + 23", 5), Some("23"));
    assert_eq!(extract_numeric_literal("n = 1'000'000;", 6), Some("1'000'000"));
}

#[test]
fn converts_utf16_columns_to_byte_positions() {
    let line = "a\u{1F600}b";
    assert_eq!(utf16_col_to_byte_idx(line, 0), Some(0));
    assert_eq!(utf16_col_to_byte_idx(line, 1), Some(1));
    assert_eq!(utf16_col_to_byte_idx(line, 2), None);
    assert_eq!(utf16_col_to_byte_idx(line, 3), Some(5));
    assert_eq!(utf16_col_to_byte_idx(line, 4), Some(6));
    assert_eq!(utf16_col_to_byte_idx(line, 5), None);
    assert_eq!(utf16_col_to_byte_idx("é=1", 1), Some(2));
    assert_eq!(utf16_col_to_byte_idx("", 0), Some(0));
}

#[test]
fn counts_lines_as_text_lines_do() {
    let text = "a\r\nb\nc";
    assert_eq!(line_at(text, 0), Some("a"));
    assert_eq!(line_at(text, 1), Some("b"));
    assert_eq!(line_at(text, 2), Some("c"));
    assert_eq!(line_at(text, 3), None);
    assert_eq!(line_at("a\n", 1), None);
    assert_eq!(line_at("\n", 0), Some(""));
    assert_eq!(line_at("x\r", 0), Some("x\r"));
    assert_eq!(line_at("", 0), None);
    for (n, line) in "one\r\ntwo\n\nfour\r\n".lines().enumerate() {
        assert_eq!(line_at("one\r\ntwo\n\nfour\r\n", n), Some(line));
    }
}

#[test]
fn tells_escaped_quotes() {
    assert!(is_escaped("a\\\"", 2));
    assert!(!is_escaped("a\\\\\"", 3));
    assert!(!is_escaped("\"", 0));
}

#[test]
fn quoted_paths_skip_escaped_quotes() {
    let line = "x = \"dir/a\\\"b.txt\";";
    assert_eq!(extract_quoted_path(line, 8), Some("dir/a\\\"b.txt"));
    assert_eq!(extract_path(line, 8), Some("dir/a\\\"b.txt"));
    assert_eq!(extract_quoted_path("say \"hello\"", 6), None);
    assert_eq!(extract_path("say \"hello\"", 6), None);
    assert_eq!(extract_path("open('lib/x.so')", 8), Some("lib/x.so"));
}

#[test]
fn unquoted_paths_around_the_cursor() {
    assert_eq!(extract_path("", 0), None);
    assert_eq!(extract_path("run tool.exe", 12), Some("tool.exe"));
    assert_eq!(extract_path("a.out x", 5), Some("a.out"));
    assert_eq!(extract_path("word here", 2), None);
    assert_eq!(extract_path("  ", 1), None);
    assert!(looks_like_path("a.b"));
    assert!(looks_like_path("a\\b"));
    assert!(!looks_like_path("abc"));
    assert!(path_cut_ok("a.out x", 5));
    assert!(!path_cut_ok("é x", 2));
}

#[test]
fn hex_dump_of_a_short_header() {
    assert_eq!(format_hex_dump(&[]), "");
    assert_eq!(
        format_hex_dump(b"AB C\x00~"),
        format!("00000000  41 42 20 43 00 7E {} AB.C.~\n", "    ".repeat(10))
    );
}

#[test]
fn hex_dump_lines_have_fixed_width() {
    let data: Vec<u8> = (0u8..64).collect();
    let dump = format_hex_dump(&data);
    assert_eq!(dump.len(), 4 * 76);
    let lines: Vec<&str> = dump.lines().collect();
    assert_eq!(lines.len(), 4);
    assert!(lines[1].starts_with("00000010  10 11 12"));
    assert!(lines[3].starts_with("00000030  30 31 32"));
    assert!(lines[3].ends_with("0123456789:;<=>?"));
    let one_more = format_hex_dump(&(0u8..17).collect::<Vec<u8>>());
    assert_eq!(one_more.lines().count(), 2);
}

#[test]
fn binary_preview_text() {
    assert_eq!(
        format_binary_preview("/tmp/a.bin", 1234, Some("Format        ELF64"), b"AB"),
        format!(
            "### Binary Preview\n\n**Path:** `/tmp/a.bin`\n\n**Size:** `1234` bytes\n\n\
             ```text\nFormat        ELF64\n```\n\n**Header:** `2` bytes\n\n```text\n\
             00000000  41 42 {} AB\n```",
            "    ".repeat(14)
        )
    );
    assert_eq!(
        format_binary_preview("x", 0, None, b""),
        "### Binary Preview\n\n**Path:** `x`\n\n**Size:** `0` bytes\n\n\
         **Header:** `0` bytes\n\n```text\n```"
    );
}

#[test]
fn read_failure_text() {
    assert_eq!(
        format_read_failure("/tmp/a.bin", "permission denied"),
        "### Binary Preview\n\n**Path:** `/tmp/a.bin`\n\nFailed to read file: \n\n`permission denied`"
    );
}
