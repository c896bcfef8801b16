//! The configuration of a run, and the check that turns what was given on the
//! command line into one.
//!
//! A run has a block size, which is a power of two; a page size, which is zero
//! (the whole block is one page) or a power of two that does not exceed the block
//! size; an access mode and a kind of fill data; a first block and an end block,
//! where an end block of zero stands for the end of the target; and an interval
//! of blocks to skip between writes. Whatever breaks one of these rules is turned
//! down before a run starts.

use vstd::prelude::*;
use vstd::arithmetic::power2::is_pow2;
use vstd::string::{StrSliceExecFns, StringExecFns};
use crate::fill::DataType;
use crate::lcg::is_power_of_two;
use crate::sequencer::IOMode;

verus! {

/// Why a configuration was turned down.
#[derive(Debug, Clone, Copy, PartialEq, Eq, Structural)]
pub enum ConfigError {
    /// No target was named.
    MissingFile,
    /// The access mode is none of the four.
    UnknownMode,
    /// The kind of fill data is none of the two.
    UnknownDataType,
    /// The block size is not a positive number.
    BadBlockSize,
    /// The page size is not a positive number.
    BadPageSize,
    /// The first block is not a positive number.
    BadStartBlock,
    /// The end block is not a positive number.
    BadEndBlock,
    /// The interval is not a positive number.
    BadInterval,
    /// The page size exceeds the block size.
    PageSizeTooLarge,
    /// The page size is not a power of two.
    PageSizeNotPowerOfTwo,
    /// The block size is not a power of two.
    BlockSizeNotPowerOfTwo,
    /// The end block lies before the first block.
    EndBeforeStart,
}

/// What the operator is told about each error.
pub open spec fn message_text(e: ConfigError) -> Seq<char> {
    match e {
        ConfigError::MissingFile => "File is a required parameter."@,
        ConfigError::UnknownMode => "I/O Mode must be sequential or random or random100"@,
        ConfigError::UnknownDataType => "Data type must be random or zero"@,
        ConfigError::BadBlockSize => "ERROR: Blocksize must be a positive power of 2."@,
        ConfigError::BadPageSize => "ERROR: Pagesize must be a positive power of 2."@,
        ConfigError::BadStartBlock => "ERROR: startblock must be a number."@,
        ConfigError::BadEndBlock => "ERROR: endblock must be a number."@,
        ConfigError::BadInterval => "ERROR: block skip interval must be number."@,
        ConfigError::PageSizeTooLarge => "ERROR: Pagesize, if supplied, must be smaller than blocksize."@,
        ConfigError::PageSizeNotPowerOfTwo => "ERROR: Pagesize must be a power of 2"@,
        ConfigError::BlockSizeNotPowerOfTwo => "ERROR: Blocksize must be a power of 2"@,
        ConfigError::EndBeforeStart => "ERROR: Endblock must be higher than startblock"@,
    }
}

impl ConfigError {
    /// What the operator is told about this error.
    pub fn message(&self) -> (text: &'static str)
        ensures
            text@ == message_text(*self),
    {
        match self {
            ConfigError::MissingFile => "File is a required parameter.",
            ConfigError::UnknownMode => "I/O Mode must be sequential or random or random100",
            ConfigError::UnknownDataType => "Data type must be random or zero",
            ConfigError::BadBlockSize => "ERROR: Blocksize must be a positive power of 2.",
            ConfigError::BadPageSize => "ERROR: Pagesize must be a positive power of 2.",
            ConfigError::BadStartBlock => "ERROR: startblock must be a number.",
            ConfigError::BadEndBlock => "ERROR: endblock must be a number.",
            ConfigError::BadInterval => "ERROR: block skip interval must be number.",
            ConfigError::PageSizeTooLarge => "ERROR: Pagesize, if supplied, must be smaller than blocksize.",
            ConfigError::PageSizeNotPowerOfTwo => "ERROR: Pagesize must be a power of 2",
            ConfigError::BlockSizeNotPowerOfTwo => "ERROR: Blocksize must be a power of 2",
            ConfigError::EndBeforeStart => "ERROR: Endblock must be higher than startblock",
        }
    }
}

/// Whether `c` is a decimal digit.
pub open spec fn is_digit(c: char) -> bool {
    '0' <= c <= '9'
}

/// The number that a run of decimal digits stands for.
pub open spec fn digits_value(digits: Seq<char>) -> nat
    decreases digits.len(),
{
    if digits.len() == 0 {
        0
    } else {
        10 * digits_value(digits.drop_last()) + (digits.last() as nat - '0' as nat) as nat
    }
}

/// The text without a plus sign in front.
pub open spec fn unsigned_part(text: Seq<char>) -> Seq<char> {
    if text.len() > 0 && text[0] == '+' {
        text.subrange(1, text.len() as int)
    } else {
        text
    }
}

/// The number that `text` stands for: one or more decimal digits, with or without
/// a plus sign in front, and nothing else.
pub open spec fn decimal_value(text: Seq<char>) -> Option<nat> {
    let digits = unsigned_part(text);
    if digits.len() > 0 && (forall|i: int| 0 <= i < digits.len() ==> is_digit(#[trigger] digits[i])) {
        Some(digits_value(digits))
    } else {
        None
    }
}

/// The value of a run of digits is not below that of any shorter run it starts
/// with.
proof fn lemma_digits_value_grows(digits: Seq<char>, k: int)
    requires
        0 <= k <= digits.len(),
    ensures
        digits_value(digits.take(k)) <= digits_value(digits),
    decreases digits.len(),
{
    if k == digits.len() {
        assert(digits.take(k) =~= digits);
    } else {
        assert(digits.drop_last().take(k) =~= digits.take(k));
        lemma_digits_value_grows(digits.drop_last(), k);
    }
}

/// The number that `text` stands for, where it stands for one that fits the
/// machine word.
pub fn parse_number(text: &str) -> (number: Option<u64>)
    ensures
        number == (match decimal_value(text@) {
            Some(v) => if v <= u64::MAX {
                Some(v as u64)
            } else {
                None
            },
            None => None::<u64>,
        }),
{
    let n = text.unicode_len();
    let first: usize = if n > 0 && text.get_char(0) == '+' {
        1
    } else {
        0
    };
    if first == n {
        return None;
    }
    let ghost digits = unsigned_part(text@);
    let mut value: u64 = 0;
    let mut i: usize = first;
    assert(digits.take(0) =~= Seq::<char>::empty());
    while i < n
        invariant
            first <= i <= n,
            n == text@.len(),
            digits == unsigned_part(text@),
            digits.len() == n - first,
            forall|j: int| 0 <= j < digits.len() ==> digits[j] == text@[j + first],
            forall|j: int| 0 <= j < i - first ==> is_digit(#[trigger] digits[j]),
            value == digits_value(digits.take(i - first)),
        decreases n - i,
    {
        let c = text.get_char(i);
        if !(c >= '0' && c <= '9') {
            assert(!is_digit(digits[i - first]));
            return None;
        }
        let digit = (c as u32 - '0' as u32) as u64;
        proof {
            assert(digits.take(i - first + 1).drop_last() =~= digits.take(i - first));
            assert(digits.take(i - first + 1).last() == c);
            if decimal_value(text@) is Some {
                lemma_digits_value_grows(digits, i - first + 1);
            }
        }
        value = match value.checked_mul(10) {
            Some(tens) => match tens.checked_add(digit) {
                Some(sum) => sum,
                None => {
                    return None;
                },
            },
            None => {
                return None;
            },
        };
        i = i + 1;
    }
    assert(digits.take(n - first) =~= digits);
    Some(value)
}

/// The access mode of a name.
pub open spec fn mode_named(name: Seq<char>) -> Option<IOMode> {
    if name == "sequential"@ {
        Some(IOMode::Sequential)
    } else if name == "sequentialreverse"@ {
        Some(IOMode::SequentialReverse)
    } else if name == "random"@ {
        Some(IOMode::Random)
    } else if name == "random100"@ {
        Some(IOMode::Random100)
    } else {
        None
    }
}

/// The kind of fill data of a name.
pub open spec fn data_named(name: Seq<char>) -> Option<DataType> {
    if name == "random"@ {
        Some(DataType::Random)
    } else if name == "zero"@ {
        Some(DataType::Zero)
    } else {
        None
    }
}

/// The access mode of a name, if it names one.
pub fn mode_from_name(name: &String) -> (mode: Option<IOMode>)
    ensures
        mode == mode_named(name@),
{
    if *name == String::from_str("sequential") {
        Some(IOMode::Sequential)
    } else if *name == String::from_str("sequentialreverse") {
        Some(IOMode::SequentialReverse)
    } else if *name == String::from_str("random") {
        Some(IOMode::Random)
    } else if *name == String::from_str("random100") {
        Some(IOMode::Random100)
    } else {
        None
    }
}

/// The kind of fill data of a name, if it names one.
pub fn data_from_name(name: &String) -> (data: Option<DataType>)
    ensures
        data == data_named(name@),
{
    if *name == String::from_str("random") {
        Some(DataType::Random)
    } else if *name == String::from_str("zero") {
        Some(DataType::Zero)
    } else {
        None
    }
}

/// What was given on the command line, option by option, as text.
pub struct RawOptions {
    pub file: Vec<String>,
    pub mode: Option<String>,
    pub data: Option<String>,
    pub blocksize: Option<String>,
    pub pagesize: Option<String>,
    pub startblock: Option<String>,
    pub endblock: Option<String>,
    pub interval: Option<String>,
}

/// The configuration of a run.
pub struct ThermiteOptions {
    pub blocksize: u64,
    pub pagesize: u64,
    pub target: Vec<String>,
    pub mode: IOMode,
    pub startblock: u64,
    pub endblock: u64,
    pub data: DataType,
    pub interval: u64,
}

/// The access mode that was asked for: the random mode where none was named.
pub open spec fn mode_given(given: Option<String>) -> Option<IOMode> {
    match given {
        None => Some(IOMode::Random),
        Some(name) => mode_named(name@),
    }
}

/// The kind of fill data that was asked for: random data where none was named.
pub open spec fn data_given(given: Option<String>) -> Option<DataType> {
    match given {
        None => Some(DataType::Random),
        Some(name) => data_named(name@),
    }
}

/// The number that was asked for: `default` where none was given, and nothing
/// where what was given is not a number, is zero or does not fit the machine
/// word.
pub open spec fn number_given(given: Option<String>, default: u64) -> Option<u64> {
    match given {
        None => Some(default),
        Some(text) => match decimal_value(text@) {
            Some(v) => if 0 < v <= u64::MAX {
                Some(v as u64)
            } else {
                None
            },
            None => None,
        },
    }
}

/// The first rule that the sizes and bounds break, if they break one.
pub open spec fn bounds_error(blocksize: u64, pagesize: u64, startblock: u64, endblock: u64) -> Option<
    ConfigError,
> {
    if pagesize != 0 && pagesize > blocksize {
        Some(ConfigError::PageSizeTooLarge)
    } else if pagesize != 0 && !is_pow2(pagesize as int) {
        Some(ConfigError::PageSizeNotPowerOfTwo)
    } else if !is_pow2(blocksize as int) {
        Some(ConfigError::BlockSizeNotPowerOfTwo)
    } else if endblock != 0 && endblock < startblock {
        Some(ConfigError::EndBeforeStart)
    } else {
        None
    }
}

/// The first rule that what was given breaks, if it breaks one.
pub open spec fn config_error(raw: RawOptions) -> Option<ConfigError> {
    if raw.file@.len() == 0 {
        Some(ConfigError::MissingFile)
    } else if mode_given(raw.mode) is None {
        Some(ConfigError::UnknownMode)
    } else if data_given(raw.data) is None {
        Some(ConfigError::UnknownDataType)
    } else if number_given(raw.blocksize, 512) is None {
        Some(ConfigError::BadBlockSize)
    } else if number_given(raw.pagesize, 0) is None {
        Some(ConfigError::BadPageSize)
    } else if number_given(raw.startblock, 0) is None {
        Some(ConfigError::BadStartBlock)
    } else if number_given(raw.endblock, 0) is None {
        Some(ConfigError::BadEndBlock)
    } else if number_given(raw.interval, 0) is None {
        Some(ConfigError::BadInterval)
    } else {
        bounds_error(
            number_given(raw.blocksize, 512).unwrap(),
            number_given(raw.pagesize, 0).unwrap(),
            number_given(raw.startblock, 0).unwrap(),
            number_given(raw.endblock, 0).unwrap(),
        )
    }
}

/// The first rule that the sizes and bounds break, if they break one.
pub fn check_bounds(blocksize: u64, pagesize: u64, startblock: u64, endblock: u64) -> (checked: Result<
    (),
    ConfigError,
>)
    ensures
        checked == (match bounds_error(blocksize, pagesize, startblock, endblock) {
            Some(e) => Err(e),
            None => Ok::<(), ConfigError>(()),
        }),
{
    if pagesize != 0 && pagesize > blocksize {
        Err(ConfigError::PageSizeTooLarge)
    } else if pagesize != 0 && !is_power_of_two(pagesize) {
        Err(ConfigError::PageSizeNotPowerOfTwo)
    } else if !is_power_of_two(blocksize) {
        Err(ConfigError::BlockSizeNotPowerOfTwo)
    } else if endblock != 0 && endblock < startblock {
        Err(ConfigError::EndBeforeStart)
    } else {
        Ok(())
    }
}

/// The number that was asked for; see `number_given`.
pub fn number_from(given: &Option<String>, default: u64) -> (number: Option<u64>)
    ensures
        number == number_given(*given, default),
{
    match given {
        None => Some(default),
        Some(text) => match parse_number(text.as_str()) {
            Some(v) => if v == 0 {
                None
            } else {
                Some(v)
            },
            None => None,
        },
    }
}

impl ThermiteOptions {
    /// The first rule that the configuration breaks, if it breaks one.
    pub open spec fn flaw(self) -> Option<ConfigError> {
        if self.target@.len() == 0 {
            Some(ConfigError::MissingFile)
        } else {
            bounds_error(self.blocksize, self.pagesize, self.startblock, self.endblock)
        }
    }

    /// Whether a run can be made from the configuration: a target is named, the
    /// block size is a power of two, the page size is zero or a power of two
    /// that does not exceed the block size, and an end block that is set does
    /// not lie before the first block.
    pub open spec fn valid(self) -> bool {
        &&& self.target@.len() > 0
        &&& is_pow2(self.blocksize as int)
        &&& self.pagesize != 0 ==> is_pow2(self.pagesize as int) && self.pagesize <= self.blocksize
        &&& self.endblock != 0 ==> self.endblock >= self.startblock
    }

    /// A configuration is valid exactly when it breaks no rule.
    pub proof fn lemma_valid_is_flawless(self)
        ensures
            self.valid() <==> self.flaw() is None,
    {
    }

    /// Checks the configuration against the rules.
    pub fn check(&self) -> (checked: Result<(), ConfigError>)
        ensures
            checked == (match self.flaw() {
                Some(e) => Err(e),
                None => Ok::<(), ConfigError>(()),
            }),
    {
        if self.target.len() == 0 {
            Err(ConfigError::MissingFile)
        } else {
            check_bounds(self.blocksize, self.pagesize, self.startblock, self.endblock)
        }
    }
}

/// What the program was asked to do.
pub enum Invocation {
    /// To say how it is used, and nothing else.
    Help,
    /// To make a run.
    Run(ThermiteOptions),
}

/// What the program was asked to do. A call for help is answered whatever else
/// was given; everything else is a run, made as `parse_opts` makes it.
pub fn invocation(help: bool, raw: RawOptions) -> (asked: Result<Invocation, ConfigError>)
    ensures
        help ==> asked is Ok && asked->Ok_0 is Help,
        !help ==> (match asked {
            Ok(Invocation::Run(options)) => {
                &&& config_error(raw) is None
                &&& options.valid()
                &&& options.target == raw.file
                &&& Some(options.mode) == mode_given(raw.mode)
                &&& Some(options.data) == data_given(raw.data)
                &&& Some(options.blocksize) == number_given(raw.blocksize, 512)
                &&& Some(options.pagesize) == number_given(raw.pagesize, 0)
                &&& Some(options.startblock) == number_given(raw.startblock, 0)
                &&& Some(options.endblock) == number_given(raw.endblock, 0)
                &&& Some(options.interval) == number_given(raw.interval, 0)
            },
            Ok(Invocation::Help) => false,
            Err(e) => config_error(raw) == Some(e),
        }),
{
    if help {
        Ok(Invocation::Help)
    } else {
        match parse_opts(raw) {
            Ok(options) => Ok(Invocation::Run(options)),
            Err(e) => Err(e),
        }
    }
}

/// Makes the configuration of a run from what was given on the command line, or
/// says which rule it breaks first.
pub fn parse_opts(raw: RawOptions) -> (parsed: Result<ThermiteOptions, ConfigError>)
    ensures
        match parsed {
            Ok(options) => {
                &&& config_error(raw) is None
                &&& options.valid()
                &&& options.target == raw.file
                &&& Some(options.mode) == mode_given(raw.mode)
                &&& Some(options.data) == data_given(raw.data)
                &&& Some(options.blocksize) == number_given(raw.blocksize, 512)
                &&& Some(options.pagesize) == number_given(raw.pagesize, 0)
                &&& Some(options.startblock) == number_given(raw.startblock, 0)
                &&& Some(options.endblock) == number_given(raw.endblock, 0)
                &&& Some(options.interval) == number_given(raw.interval, 0)
            },
            Err(e) => config_error(raw) == Some(e),
        },
{
    if raw.file.len() == 0 {
        return Err(ConfigError::MissingFile);
    }
    let mode = match &raw.mode {
        None => IOMode::Random,
        Some(name) => match mode_from_name(name) {
            Some(mode) => mode,
            None => {
                return Err(ConfigError::UnknownMode);
            },
        },
    };
    let data = match &raw.data {
        None => DataType::Random,
        Some(name) => match data_from_name(name) {
            Some(data) => data,
            None => {
                return Err(ConfigError::UnknownDataType);
            },
        },
    };
    let blocksize = match number_from(&raw.blocksize, 512) {
        Some(n) => n,
        None => {
            return Err(ConfigError::BadBlockSize);
        },
    };
    let pagesize = match number_from(&raw.pagesize, 0) {
        Some(n) => n,
        None => {
            return Err(ConfigError::BadPageSize);
        },
    };
    let startblock = match number_from(&raw.startblock, 0) {
        Some(n) => n,
        None => {
            return Err(ConfigError::BadStartBlock);
        },
    };
    let endblock = match number_from(&raw.endblock, 0) {
        Some(n) => n,
        None => {
            return Err(ConfigError::BadEndBlock);
        },
    };
    let interval = match number_from(&raw.interval, 0) {
        Some(n) => n,
        None => {
            return Err(ConfigError::BadInterval);
        },
    };
    match check_bounds(blocksize, pagesize, startblock, endblock) {
        Err(e) => Err(e),
        Ok(()) => Ok(
            ThermiteOptions {
                blocksize,
                pagesize,
                target: raw.file,
                mode,
                startblock,
                endblock,
                data,
                interval,
            },
        ),
    }
}

} // verus!
