use whitenoise::protocol::{
    parse_line, ColorValue, Command, CutoffValue, LineAssembler, LineEvent, ParseError,
    PowerCommand, ResponseBuffer, LINE_CAPACITY,
};

fn number(text: &str) -> Vec<u8> {
    text.as_bytes().to_vec()
}

#[test]
fn line_syntax_names_colors_and_keeps_numbers() {
    assert_eq!(parse_line(b"color white\r\n"), Ok(Command::Color(ColorValue::White)));
    assert_eq!(parse_line(b"color pink"), Ok(Command::Color(ColorValue::Pink)));
    assert_eq!(parse_line(b"color brown"), Ok(Command::Color(ColorValue::Brown)));
    assert_eq!(
        parse_line(b"color 1.25"),
        Ok(Command::Color(ColorValue::Number(number("1.25"))))
    );
}

#[test]
fn line_syntax_of_filters_volume_and_power() {
    assert_eq!(parse_line(b"hpf off"), Ok(Command::HighPass(CutoffValue::Off)));
    assert_eq!(
        parse_line(b"lpf 12000"),
        Ok(Command::LowPass(CutoffValue::Number(number("12000"))))
    );
    assert_eq!(parse_line(b"vol 37.5"), Ok(Command::Volume(number("37.5"))));
    assert_eq!(parse_line(b"power off"), Ok(Command::Power(PowerCommand::Off)));
    assert_eq!(parse_line(b"power toggle"), Ok(Command::Power(PowerCommand::Toggle)));
    assert_eq!(parse_line(b"POWER On"), Ok(Command::Power(PowerCommand::On)));
}

#[test]
fn line_syntax_rejects_bad_shapes() {
    assert_eq!(parse_line(b""), Err(ParseError::Empty));
    assert_eq!(parse_line(b" \t\r\n"), Err(ParseError::Empty));
    assert_eq!(parse_line(b"volume"), Err(ParseError::MissingValue));
    assert_eq!(parse_line(b"power maybe"), Err(ParseError::InvalidValue));
    assert_eq!(parse_line(b"get now"), Err(ParseError::ExtraArgument));
    assert_eq!(parse_line(b"help me"), Err(ParseError::ExtraArgument));
    assert_eq!(parse_line(b"color 1 2"), Err(ParseError::ExtraArgument));
    assert_eq!(parse_line(b"colour 1"), Err(ParseError::UnknownCommand));
    assert_eq!(parse_line(&[0xff, 0x20]), Err(ParseError::NotUtf8));
}

#[test]
fn numbers_are_left_for_the_caller_to_read() {
    // "blue" is not a named color: it stays as text, to be refused when read.
    assert_eq!(
        parse_line(b"color blue"),
        Ok(Command::Color(ColorValue::Number(number("blue"))))
    );
    assert_eq!(parse_line(b"volume 101"), Ok(Command::Volume(number("101"))));
}

#[test]
fn help_and_get_ignore_case_and_surrounding_space() {
    assert_eq!(parse_line(b"  HeLp  "), Ok(Command::Help));
    assert_eq!(parse_line(b"get\n"), Ok(Command::Get));
    // Unicode white space around the line is trimmed too.
    assert_eq!(parse_line("\u{a0}get\u{3000}".as_bytes()), Ok(Command::Get));
    // A vertical tab is trimmed at the ends but does not separate words.
    assert_eq!(parse_line(b"\x0bget"), Ok(Command::Get));
    assert_eq!(parse_line(b"get\x0bnow"), Err(ParseError::MissingValue));
}

#[test]
fn trailing_line_endings_are_optional() {
    for line in [&b"color pink"[..], b"power on", b"vol 3", b"nope 1", b"get x"] {
        let mut with_crlf = line.to_vec();
        with_crlf.extend_from_slice(b"\r\n");
        assert_eq!(parse_line(&with_crlf), parse_line(line));
    }
}

#[test]
fn every_error_has_its_message() {
    assert_eq!(ParseError::NotUtf8.message(), "command must be UTF-8");
    assert_eq!(ParseError::Empty.message(), "empty command");
    assert_eq!(ParseError::UnknownCommand.message(), "unknown command");
    assert_eq!(ParseError::MissingValue.message(), "missing value");
    assert_eq!(ParseError::ExtraArgument.message(), "too many arguments");
    assert_eq!(ParseError::InvalidValue.message(), "invalid value");
    assert_eq!(ParseError::OutOfRange.message(), "value out of range");
}

#[test]
fn response_buffer_appends_what_fits() {
    let mut response = ResponseBuffer::<8>::new();
    assert!(response.as_bytes().is_empty());
    assert!(response.write_str("abc").is_ok());
    assert!(response.write_str("défgh").is_err());
    assert_eq!(response.as_bytes(), b"abc");
    assert!(response.write_str("déf").is_ok());
    assert_eq!(response.as_bytes(), "abcdéf".as_bytes());
    assert!(response.write_str("!!").is_err());
    assert_eq!(response.as_bytes().len(), 7);
    assert!(response.write_str("!").is_ok());
    assert_eq!(response.as_bytes().len(), 8);
    response.clear();
    assert!(response.as_bytes().is_empty());
    assert!(response.write_str("12345678").is_ok());
    assert_eq!(response.as_bytes(), b"12345678");
    let empty = ResponseBuffer::<4>::default();
    assert!(empty.as_bytes().is_empty());
}

#[test]
fn lines_are_assembled_and_overlong_ones_reported() {
    let mut assembler = LineAssembler::new();
    for &byte in b"get" {
        assert_eq!(assembler.push(byte), LineEvent::Pending);
    }
    assert_eq!(assembler.push(b'\n'), LineEvent::Line(b"get".to_vec()));
    assert_eq!(assembler.push(b'\n'), LineEvent::Line(Vec::new()));

    for _ in 0..LINE_CAPACITY {
        assert_eq!(assembler.push(b'x'), LineEvent::Pending);
    }
    assert_eq!(assembler.push(b'\n'), LineEvent::Line(vec![b'x'; LINE_CAPACITY]));

    for _ in 0..=LINE_CAPACITY {
        assert_eq!(assembler.push(b'y'), LineEvent::Pending);
    }
    assert_eq!(assembler.push(b'\n'), LineEvent::TooLong);
    for &byte in b"help\r" {
        assembler.push(byte);
    }
    assert_eq!(assembler.push(b'\n'), LineEvent::Line(b"help\r".to_vec()));
}
