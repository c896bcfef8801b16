use thermite::fill::DataType;
use thermite::options::{
    check_bounds, data_from_name, invocation, mode_from_name, number_from, parse_number,
    parse_opts, ConfigError, Invocation, RawOptions,
};
use thermite::sequencer::IOMode;

fn given(file: &[&str]) -> RawOptions {
    RawOptions {
        file: file.iter().map(|f| f.to_string()).collect(),
        mode: None,
        data: None,
        blocksize: None,
        pagesize: None,
        startblock: None,
        endblock: None,
        interval: None,
    }
}

fn text(value: &str) -> Option<String> {
    Some(value.to_string())
}

#[test]
fn defaults_where_nothing_is_given() {
    let options = parse_opts(given(&["/dev/sdx"])).ok().unwrap();
    assert_eq!(options.blocksize, 512);
    assert_eq!(options.pagesize, 0);
    assert_eq!(options.target, vec!["/dev/sdx".to_string()]);
    assert_eq!(options.mode, IOMode::Random);
    assert_eq!(options.startblock, 0);
    assert_eq!(options.endblock, 0);
    assert_eq!(options.data, DataType::Random);
    assert_eq!(options.interval, 0);
}

#[test]
fn what_is_given_is_taken() {
    let mut raw = given(&["a", "b"]);
    raw.mode = text("random100");
    raw.data = text("zero");
    raw.blocksize = text("4096");
    raw.pagesize = text("1024");
    raw.startblock = text("10");
    raw.endblock = text("20");
    raw.interval = text("3");
    let options = parse_opts(raw).ok().unwrap();
    assert_eq!(options.blocksize, 4096);
    assert_eq!(options.pagesize, 1024);
    assert_eq!(options.target, vec!["a".to_string(), "b".to_string()]);
    assert_eq!(options.mode, IOMode::Random100);
    assert_eq!(options.startblock, 10);
    assert_eq!(options.endblock, 20);
    assert_eq!(options.data, DataType::Zero);
    assert_eq!(options.interval, 3);
    assert_eq!(options.check(), Ok(()));
}

#[test]
fn a_call_for_help_is_answered_whatever_else_was_given() {
    assert!(matches!(invocation(true, given(&[])), Ok(Invocation::Help)));
    let mut raw = given(&["a"]);
    raw.blocksize = text("nonsense");
    assert!(matches!(invocation(true, raw), Ok(Invocation::Help)));
}

#[test]
fn without_a_call_for_help_a_run_is_made() {
    let mut raw = given(&["a"]);
    raw.blocksize = text("1024");
    match invocation(false, raw) {
        Ok(Invocation::Run(options)) => {
            assert_eq!(options.blocksize, 1024);
            assert_eq!(options.target, vec!["a".to_string()]);
        }
        _ => panic!("no run was made"),
    }
    assert_eq!(invocation(false, given(&[])).err(), Some(ConfigError::MissingFile));
}

#[test]
fn a_target_is_required() {
    assert_eq!(parse_opts(given(&[])).err(), Some(ConfigError::MissingFile));
}

#[test]
fn the_mode_must_be_one_of_four() {
    for (name, mode) in [
        ("sequential", IOMode::Sequential),
        ("sequentialreverse", IOMode::SequentialReverse),
        ("random", IOMode::Random),
        ("random100", IOMode::Random100),
    ] {
        assert_eq!(mode_from_name(&name.to_string()), Some(mode));
        let mut raw = given(&["a"]);
        raw.mode = text(name);
        assert_eq!(parse_opts(raw).ok().unwrap().mode, mode);
    }
    assert_eq!(mode_from_name(&"Sequential".to_string()), None);
    assert_eq!(mode_from_name(&"".to_string()), None);
    let mut raw = given(&["a"]);
    raw.mode = text("backwards");
    assert_eq!(parse_opts(raw).err(), Some(ConfigError::UnknownMode));
}

#[test]
fn the_data_must_be_one_of_two() {
    assert_eq!(data_from_name(&"random".to_string()), Some(DataType::Random));
    assert_eq!(data_from_name(&"zero".to_string()), Some(DataType::Zero));
    assert_eq!(data_from_name(&"ones".to_string()), None);
    let mut raw = given(&["a"]);
    raw.data = text("ones");
    assert_eq!(parse_opts(raw).err(), Some(ConfigError::UnknownDataType));
}

#[test]
fn numbers_must_be_numbers_and_not_zero() {
    let mut raw = given(&["a"]);
    raw.blocksize = text("0");
    assert_eq!(parse_opts(raw).err(), Some(ConfigError::BadBlockSize));
    let mut raw = given(&["a"]);
    raw.blocksize = text("4k");
    assert_eq!(parse_opts(raw).err(), Some(ConfigError::BadBlockSize));
    let mut raw = given(&["a"]);
    raw.pagesize = text("0");
    assert_eq!(parse_opts(raw).err(), Some(ConfigError::BadPageSize));
    let mut raw = given(&["a"]);
    raw.startblock = text("-1");
    assert_eq!(parse_opts(raw).err(), Some(ConfigError::BadStartBlock));
    let mut raw = given(&["a"]);
    raw.startblock = text("0");
    assert_eq!(parse_opts(raw).err(), Some(ConfigError::BadStartBlock));
    let mut raw = given(&["a"]);
    raw.endblock = text("");
    assert_eq!(parse_opts(raw).err(), Some(ConfigError::BadEndBlock));
    let mut raw = given(&["a"]);
    raw.interval = text("1.5");
    assert_eq!(parse_opts(raw).err(), Some(ConfigError::BadInterval));
}

#[test]
fn the_page_must_fit_the_block() {
    let mut raw = given(&["a"]);
    raw.pagesize = text("1024");
    assert_eq!(parse_opts(raw).err(), Some(ConfigError::PageSizeTooLarge));
    let mut raw = given(&["a"]);
    raw.pagesize = text("512");
    assert!(parse_opts(raw).is_ok());
    assert_eq!(check_bounds(512, 1024, 0, 0), Err(ConfigError::PageSizeTooLarge));
}

#[test]
fn sizes_must_be_powers_of_two() {
    let mut raw = given(&["a"]);
    raw.pagesize = text("100");
    assert_eq!(parse_opts(raw).err(), Some(ConfigError::PageSizeNotPowerOfTwo));
    let mut raw = given(&["a"]);
    raw.blocksize = text("1000");
    assert_eq!(parse_opts(raw).err(), Some(ConfigError::BlockSizeNotPowerOfTwo));
    assert_eq!(check_bounds(1000, 0, 0, 0), Err(ConfigError::BlockSizeNotPowerOfTwo));
    assert_eq!(check_bounds(1024, 0, 0, 0), Ok(()));
}

#[test]
fn the_end_must_not_lie_before_the_start() {
    let mut raw = given(&["a"]);
    raw.startblock = text("10");
    raw.endblock = text("9");
    assert_eq!(parse_opts(raw).err(), Some(ConfigError::EndBeforeStart));
    let mut raw = given(&["a"]);
    raw.startblock = text("10");
    raw.endblock = text("10");
    assert!(parse_opts(raw).is_ok());
    // an end block of zero stands for the end of the target
    let mut raw = given(&["a"]);
    raw.startblock = text("10");
    assert!(parse_opts(raw).is_ok());
}

#[test]
fn the_first_broken_rule_is_named() {
    let mut raw = given(&[]);
    raw.mode = text("nonsense");
    raw.blocksize = text("x");
    assert_eq!(parse_opts(raw).err(), Some(ConfigError::MissingFile));
    let mut raw = given(&["a"]);
    raw.mode = text("nonsense");
    raw.data = text("nonsense");
    assert_eq!(parse_opts(raw).err(), Some(ConfigError::UnknownMode));
    let mut raw = given(&["a"]);
    raw.blocksize = text("100");
    raw.pagesize = text("300");
    assert_eq!(parse_opts(raw).err(), Some(ConfigError::PageSizeTooLarge));
    let mut raw = given(&["a"]);
    raw.blocksize = text("100");
    raw.pagesize = text("60");
    assert_eq!(parse_opts(raw).err(), Some(ConfigError::PageSizeNotPowerOfTwo));
}

#[test]
fn numbers_are_decimal_digits_with_an_optional_plus() {
    assert_eq!(parse_number("0"), Some(0));
    assert_eq!(parse_number("12"), Some(12));
    assert_eq!(parse_number("+12"), Some(12));
    assert_eq!(parse_number("007"), Some(7));
    assert_eq!(parse_number("18446744073709551615"), Some(u64::MAX));
    assert_eq!(parse_number("18446744073709551616"), None);
    assert_eq!(parse_number("99999999999999999999999"), None);
    assert_eq!(parse_number(""), None);
    assert_eq!(parse_number("+"), None);
    assert_eq!(parse_number("-1"), None);
    assert_eq!(parse_number("++1"), None);
    assert_eq!(parse_number("1+"), None);
    assert_eq!(parse_number(" 1"), None);
    assert_eq!(parse_number("1 "), None);
    assert_eq!(parse_number("1_000"), None);
    assert_eq!(parse_number("0x10"), None);
    assert_eq!(parse_number("١٢"), None);
}

#[test]
fn numbers_agree_with_the_standard_parser() {
    for text in ["0", "1", "+5", "512", "4096", "-0", "+", "", "abc", "12a", "18446744073709551615",
        "18446744073709551616", "000000000000000000000000001"]
    {
        assert_eq!(parse_number(text), text.parse::<u64>().ok());
    }
}

#[test]
fn a_number_that_is_not_given_is_the_default() {
    assert_eq!(number_from(&None, 512), Some(512));
    assert_eq!(number_from(&None, 0), Some(0));
    assert_eq!(number_from(&text("64"), 512), Some(64));
    assert_eq!(number_from(&text("0"), 512), None);
    assert_eq!(number_from(&text("sixty-four"), 512), None);
}

#[test]
fn every_error_has_its_message() {
    assert_eq!(ConfigError::MissingFile.message(), "File is a required parameter.");
    assert_eq!(
        ConfigError::UnknownMode.message(),
        "I/O Mode must be sequential or random or random100"
    );
    assert_eq!(ConfigError::UnknownDataType.message(), "Data type must be random or zero");
    assert_eq!(
        ConfigError::BadBlockSize.message(),
        "ERROR: Blocksize must be a positive power of 2."
    );
    assert_eq!(
        ConfigError::BadPageSize.message(),
        "ERROR: Pagesize must be a positive power of 2."
    );
    assert_eq!(ConfigError::BadStartBlock.message(), "ERROR: startblock must be a number.");
    assert_eq!(ConfigError::BadEndBlock.message(), "ERROR: endblock must be a number.");
    assert_eq!(ConfigError::BadInterval.message(), "ERROR: block skip interval must be number.");
    assert_eq!(
        ConfigError::PageSizeTooLarge.message(),
        "ERROR: Pagesize, if supplied, must be smaller than blocksize."
    );
    assert_eq!(
        ConfigError::PageSizeNotPowerOfTwo.message(),
        "ERROR: Pagesize must be a power of 2"
    );
    assert_eq!(
        ConfigError::BlockSizeNotPowerOfTwo.message(),
        "ERROR: Blocksize must be a power of 2"
    );
    assert_eq!(
        ConfigError::EndBeforeStart.message(),
        "ERROR: Endblock must be higher than startblock"
    );
}
