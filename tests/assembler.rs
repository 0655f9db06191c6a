use slovo_asm::commands::Command;
use slovo_asm::errors::{AsmError, Diagnostic};
use slovo_asm::parser::{Include, SlParser};
use slovo_asm::regs::Register;
use slovo_asm::slasm::SlovoAsm;
use slovo_asm::utils::{clean_line, extract_string, parse_cyrillic_nums, parse_regs};

fn build_with(src: &str, includes: &Vec<Include>) -> Result<(Vec<u8>, SlParser), Diagnostic> {
    let mut parser = SlParser::new();
    let mut buf = SlovoAsm::new();
    parser.compile(src, &mut buf, includes)?;
    Ok((buf.code, parser))
}

fn build(src: &str) -> Result<Vec<u8>, Diagnostic> {
    build_with(src, &Vec::new()).map(|(code, _)| code)
}

fn word_at(code: &[u8], at: usize) -> u32 {
    u32::from_le_bytes([code[at], code[at + 1], code[at + 2], code[at + 3]])
}

fn single(src: &str) -> u32 {
    let code = build(src).unwrap();
    assert_eq!(code.len(), 4);
    word_at(&code, 0)
}

fn error_of(src: &str) -> AsmError {
    build(src).unwrap_err().error
}

#[test]
fn mov_zero_register_zero_value() {
    assert_eq!(single("ПОЛОЖИ П0, 0х0"), 0xD2800000);
    assert_eq!(Command::Mov { reg: Register::P(0), val: 0 }.encode(), 0xD2800000);
}

#[test]
fn mov_places_immediate_and_register() {
    let cmd = Command::Mov { reg: Register::P(30), val: 0xEEEE };
    assert_eq!(cmd.encode(), 0xD29DDDDE);
}

#[test]
fn mov_hex_literal_uses_e_as_fifteen() {
    assert_eq!(parse_cyrillic_nums("0хЕЕЕЕ"), Ok(0xFFFF));
    assert_eq!(single("ПОЛОЖИ П30, 0хЕЕЕЕ"), 0xD29FFFFE);
}

#[test]
fn label_at_file_start_is_zero() {
    let (code, parser) = build_with("СТАРТ:\nВЕРНИСЬ", &Vec::new()).unwrap();
    assert_eq!(parser.label("СТАРТ"), Some(0));
    assert_eq!(code, vec![0xC0, 0x03, 0x5F, 0xD6]);
}

#[test]
fn reserve_one_byte_takes_a_word() {
    let (code, parser) = build_with("ОТМЕРЬ 1", &Vec::new()).unwrap();
    assert_eq!(code, vec![0, 0, 0, 0]);
    assert_eq!(parser.offset(), 4);
}

#[test]
fn word_directive_pads_to_four() {
    assert_eq!(build("СЛОВО \"ab\"").unwrap(), vec![0x61, 0x62, 0x00, 0x00]);
}

#[test]
fn empty_source_gives_empty_text() {
    let (code, parser) = build_with("", &Vec::new()).unwrap();
    assert!(code.is_empty());
    assert_eq!(parser.offset(), 0);
}

#[test]
fn return_only() {
    assert_eq!(build("ВЕРНИСЬ").unwrap(), vec![0xC0, 0x03, 0x5F, 0xD6]);
}

#[test]
fn syscall_args_reject_bad_hex_digit() {
    let err = build("ПОЛОЖИ П0, 1\nПОЛОЖИ П8, 0хРАЗ").unwrap_err();
    assert_eq!(
        err,
        Diagnostic {
            line: 1,
            error: AsmError::BadHexDigit('Р'),
            item: String::from("ПОЛОЖИ П8, 0хРАЗ")
        }
    );
}

#[test]
fn forward_branch() {
    let src = "ПОЛОЖИ П0, 1\nСТУПАЙ КОНЕЦ\nПОЛОЖИ П0, 2\nКОНЕЦ:\nВЕРНИСЬ";
    let (code, parser) = build_with(src, &Vec::new()).unwrap();
    assert_eq!(
        code,
        vec![
            0x20, 0x00, 0x80, 0xD2, 0x02, 0x00, 0x00, 0x14, 0x40, 0x00, 0x80, 0xD2, 0xC0, 0x03,
            0x5F, 0xD6
        ]
    );
    assert_eq!(parser.label("КОНЕЦ"), Some(12));
    assert_eq!(word_at(&code, 4), 0x14000002);
}

#[test]
fn data_directive_between_code() {
    let src = "СТУПАЙ ПОСЛЕ\nТЕКСТ:\nСЛОВО \"HI\"\nПОСЛЕ:\nВЕРНИСЬ";
    let (code, parser) = build_with(src, &Vec::new()).unwrap();
    assert_eq!(
        code,
        vec![0x02, 0x00, 0x00, 0x14, 0x48, 0x49, 0x00, 0x00, 0xC0, 0x03, 0x5F, 0xD6]
    );
    assert_eq!(parser.label("ТЕКСТ"), Some(4));
    assert_eq!(parser.label("ПОСЛЕ"), Some(8));
}

#[test]
fn adr_to_following_label() {
    let code = build("УКАЖИ П1, МСГ\nМСГ:\nСЛОВО \"A\"").unwrap();
    assert_eq!(code, vec![0x21, 0x00, 0x00, 0x10, 0x41, 0x00, 0x00, 0x00]);
}

#[test]
fn conditional_branch_back() {
    let src = "ЦИКЛ:\nВЫЧТИ П0, П0, 1\nСРАВНИ П0, 0\nКОЛИ_НЕРАВНО СТУПАЙ ЦИКЛ\nВЕРНИСЬ";
    let code = build(src).unwrap();
    assert_eq!(code.len(), 16);
    assert_eq!(word_at(&code, 0), 0xD1000400);
    assert_eq!(word_at(&code, 4), 0xF100001F);
    assert_eq!(word_at(&code, 8), 0x54FFFFC1);
    assert_eq!(word_at(&code, 12), 0xD65F03C0);
}

#[test]
fn condition_codes() {
    let tags = [
        ("РАВНО", 0x0u32),
        ("НЕРАВНО", 0x1),
        ("БОЛЬШЕ", 0xC),
        ("МЕНЬШЕ", 0xB),
        ("ВЫШЕ", 0xA),
        ("НИЖЕ", 0xD),
    ];
    for (tag, cond) in tags.iter() {
        let src = format!("Т:\nКОЛИ_{} СТУПАЙ Т", tag);
        assert_eq!(single(&src), 0x54000000 | cond);
    }
}

#[test]
fn every_mnemonic_encodes() {
    assert_eq!(single("ДОЛОЖИ"), 0xD4000001);
    assert_eq!(single("ПРИБАВЬ П1, П2, П3"), 0x8B030041);
    assert_eq!(single("ПРИБАВЬ П1, П2, 5"), 0x91001441);
    assert_eq!(single("ВЫЧТИ П1, П2, П3"), 0xCB030041);
    assert_eq!(single("УМНОЖЬ П1, П2, П3"), 0x9B037C41);
    assert_eq!(single("РАЗДЕЛИ П1, П2, П3"), 0x9AC30C41);
    assert_eq!(single("РАЗНОСТЬ П1, П2, П3"), 0xCA030041);
    assert_eq!(single("СРАВНИ П1, П2"), 0xEB02003F);
    assert_eq!(single("ИЗЫМИ П1, П2"), 0xF9400041);
    assert_eq!(single("ВВЕРГНИ П1, П2"), 0xF9000041);
    assert_eq!(single("ИЗЫМИ_БАЙТ П1, П2"), 0x39400041);
    assert_eq!(single("ВВЕРГНИ_БАЙТ П1, П2"), 0x39000041);
}

#[test]
fn arithmetic_immediate_is_masked_to_twelve_bits() {
    assert_eq!(single("ПРИБАВЬ П0, П0, 0х1001"), 0x91000400);
}

#[test]
fn text_length_is_multiple_of_four() {
    let src = "СЛОВО \"abcde\"\nОТМЕРЬ 3\nВЕРНИСЬ\nСЛОВО \"\"";
    let code = build(src).unwrap();
    assert_eq!(code.len(), 16);
    assert_eq!(code.len() % 4, 0);
}

#[test]
fn labels_mark_next_emitted_byte() {
    let src = "А:\nОТМЕРЬ 5\nБ:\n; comment\nВ:\nВЕРНИСЬ\nГ:";
    let (code, parser) = build_with(src, &Vec::new()).unwrap();
    assert_eq!(parser.label("А"), Some(0));
    assert_eq!(parser.label("Б"), Some(8));
    assert_eq!(parser.label("В"), Some(8));
    assert_eq!(parser.label("Г"), Some(12));
    assert_eq!(parser.label("Д"), None);
    assert_eq!(parser.offset(), code.len());
}

#[test]
fn backward_branch_displacement() {
    let src = "Н:\nВЕРНИСЬ\nВЕРНИСЬ\nСТУПАЙ Н";
    let code = build(src).unwrap();
    assert_eq!(word_at(&code, 8), 0x14000000 | 0x03FFFFFE);
}

#[test]
fn comments_and_blank_lines_are_skipped() {
    let code = build("; header\n\n   ВЕРНИСЬ   ; done\r\n").unwrap();
    assert_eq!(code, vec![0xC0, 0x03, 0x5F, 0xD6]);
}

#[test]
fn string_escape_becomes_newline() {
    assert_eq!(build("СЛОВО \"a\\nb\"").unwrap(), vec![0x61, 0x0A, 0x62, 0x00]);
}

#[test]
fn utf8_text_is_emitted_as_bytes() {
    assert_eq!(build("СЛОВО \"Я\"").unwrap(), vec![0xD0, 0xAF, 0x00, 0x00]);
}

#[test]
fn include_is_embedded_and_padded() {
    let incs = vec![Include { path: String::from("x.bin"), data: vec![1, 2, 3] }];
    let (code, _) = build_with("ВЛОЖИ \"x.bin\"\nВЕРНИСЬ", &incs).unwrap();
    assert_eq!(code, vec![1, 2, 3, 0, 0xC0, 0x03, 0x5F, 0xD6]);
}

#[test]
fn error_missing_include() {
    let err = build("ВЕРНИСЬ\nВЛОЖИ \"x.bin\"").unwrap_err();
    assert_eq!(err.line, 1);
    assert_eq!(err.error, AsmError::MissingInclude);
    assert_eq!(err.item, "ВЛОЖИ \"x.bin\"");
}

#[test]
fn error_unknown_mnemonic() {
    assert_eq!(error_of("ПРЫГНИ"), AsmError::UnknownMnemonic);
}

#[test]
fn error_unknown_condition() {
    assert_eq!(error_of("Т:\nКОЛИ_ИНОГДА СТУПАЙ Т"), AsmError::UnknownCondition);
}

#[test]
fn error_undefined_label() {
    assert_eq!(error_of("СТУПАЙ НИГДЕ"), AsmError::UndefinedLabel);
}

#[test]
fn error_duplicate_label() {
    let err = build("А:\nВЕРНИСЬ\nА:").unwrap_err();
    assert_eq!(
        err,
        Diagnostic { line: 2, error: AsmError::DuplicateLabel, item: String::from("А") }
    );
}

#[test]
fn error_missing_operand() {
    assert_eq!(error_of("ПОЛОЖИ П0"), AsmError::MissingOperand);
}

#[test]
fn error_missing_quote() {
    assert_eq!(error_of("СЛОВО \"abc"), AsmError::MissingQuote);
}

#[test]
fn error_bad_register() {
    assert_eq!(error_of("ПОЛОЖИ П31, 1"), AsmError::BadRegister);
    assert_eq!(error_of("ПОЛОЖИ Р1, 1"), AsmError::BadRegister);
}

#[test]
fn error_bad_number() {
    assert_eq!(error_of("ПОЛОЖИ П0, 70000"), AsmError::BadNumber);
    assert_eq!(error_of("ПОЛОЖИ П0, 1x"), AsmError::BadNumber);
}

#[test]
fn parse_numbers() {
    assert_eq!(parse_cyrillic_nums("42"), Ok(42));
    assert_eq!(parse_cyrillic_nums(" +7 "), Ok(7));
    assert_eq!(parse_cyrillic_nums("65535"), Ok(65535));
    assert_eq!(parse_cyrillic_nums("65536"), Err(AsmError::BadNumber));
    assert_eq!(parse_cyrillic_nums("0хА"), Ok(10));
    assert_eq!(parse_cyrillic_nums("0хДЕ"), Ok(0xEF));
    assert_eq!(parse_cyrillic_nums("0хБВГ"), Ok(0xBCD));
    assert_eq!(parse_cyrillic_nums("0хF"), Err(AsmError::BadHexDigit('F')));
    assert_eq!(parse_cyrillic_nums(""), Err(AsmError::BadNumber));
}

#[test]
fn parse_registers() {
    assert_eq!(parse_regs("П7"), Ok(Register::P(7)));
    assert_eq!(parse_regs(" П30 "), Ok(Register::P(30)));
    assert_eq!(parse_regs("П31"), Err(AsmError::BadRegister));
    assert_eq!(parse_regs("П"), Err(AsmError::BadRegister));
    assert_eq!(Register::P(17).to_u32(), 17);
}

#[test]
fn clean_line_drops_comment_and_spaces() {
    assert_eq!(clean_line("  ПОЛОЖИ П0, 1 ; c ; d "), "ПОЛОЖИ П0, 1");
    assert_eq!(clean_line("\t; only comment"), "");
}

#[test]
fn extract_string_between_outer_quotes() {
    assert_eq!(extract_string("СЛОВО \"a\\nb\""), Ok(String::from("a\nb")));
    assert_eq!(extract_string("x \"a\"b\" y"), Ok(String::from("a\"b")));
    assert_eq!(extract_string("x \"a"), Err(AsmError::MissingQuote));
}

#[test]
fn code_buffer_writes_words_and_text() {
    let mut buf = SlovoAsm::new();
    assert_eq!(buf.curr_offset(), 0);
    buf.write(Command::Ret);
    assert_eq!(buf.code, vec![0xC0, 0x03, 0x5F, 0xD6]);
    let start = buf.ascii("hi");
    assert_eq!(start, 4);
    buf.append_zeros(2);
    assert_eq!(buf.curr_offset(), 8);
    assert_eq!(&buf.code[4..], &[0x68, 0x69, 0, 0]);
}

#[test]
fn encoder_sets_only_documented_fields() {
    let cmd = Command::Adr { reg: Register::P(3), offset: -4 };
    let w = cmd.encode();
    assert_eq!(w & !0x60FF_FFFF, 0x1000_0000);
    assert_eq!(w, 0x10000000 | (0x7FFFF << 5) | 3);
    let b = Command::Bcc { cond: 0x1F, offset: 8 }.encode();
    assert_eq!(b, 0x54000000 | (2 << 5) | 0xF);
}

#[test]
fn compile_twice_gives_same_offsets() {
    let src = "ПОЛОЖИ П0, 1\nА:\nСЛОВО \"xyz\"\nБ:\nВЕРНИСЬ";
    let mut parser = SlParser::new();
    let mut first = SlovoAsm::new();
    parser.compile(src, &mut first, &Vec::new()).unwrap();
    let a = (parser.label("А"), parser.label("Б"), parser.offset());
    let mut second = SlovoAsm::new();
    parser.compile(src, &mut second, &Vec::new()).unwrap();
    assert_eq!(a, (parser.label("А"), parser.label("Б"), parser.offset()));
    assert_eq!(first.code, second.code);
    assert_eq!(a, (Some(4), Some(8), 12));
}

#[test]
fn object_file_is_aarch64_elf_with_text() {
    let code = build("ВЕРНИСЬ").unwrap();
    let file = slovo_asm::elf::object_file(&code).unwrap();
    assert_eq!(&file[0..4], &[0x7F, b'E', b'L', b'F']);
    assert_eq!(file[4], 2);
    assert_eq!(file[5], 1);
    assert_eq!(u16::from_le_bytes([file[18], file[19]]), 183);
    assert!(file.windows(4).any(|w| w == [0xC0, 0x03, 0x5F, 0xD6]));
    assert!(file.windows(7).any(|w| w == b"_start\0"));
    assert!(file.windows(6).any(|w| w == b".text\0"));
}

#[test]
fn diagnostics_name_the_offending_item() {
    let err = build("ВЕРНИСЬ\nУКАЖИ П1, НИГДЕ ; c").unwrap_err();
    assert_eq!(err.line, 1);
    assert_eq!(err.error, AsmError::UndefinedLabel);
    assert_eq!(err.item, "НИГДЕ");
    assert_eq!(build("СТУПАЙ ТАМ,").unwrap_err().item, "ТАМ");
    assert_eq!(build("Т:\nКОЛИ_РАВНО СТУПАЙ СЮДА").unwrap_err().item, "СЮДА");
    assert_eq!(build("ПРЫГНИ П0").unwrap_err().item, "ПРЫГНИ");
    let cond = build("КОЛИ_ИНОГДА СТУПАЙ Т").unwrap_err();
    assert_eq!(cond.error, AsmError::UnknownCondition);
    assert_eq!(cond.item, "КОЛИ_ИНОГДА");
}

#[test]
fn conditional_branch_without_goto_word() {
    let code = build("Т:\nВЕРНИСЬ\nКОЛИ_РАВНО Т").unwrap();
    assert_eq!(word_at(&code, 4), 0x54000000 | (0x7FFFF << 5));
    let err = build("КОЛИ_НИЖЕ НЕТУ").unwrap_err();
    assert_eq!(err.error, AsmError::UndefinedLabel);
    assert_eq!(err.item, "НЕТУ");
}
