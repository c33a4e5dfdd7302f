use vstd::prelude::*;
use vstd::string::StringExecFns;

verus! {

/// Errors of encoding and decoding.
#[allow(inconsistent_fields)]
#[derive(Debug, Clone, PartialEq)]
pub enum Gsm7Error {
    /// A character has no code in the alphabet (strict mode).
    UnsupportedCharacter { character: char, code: u32 },
    /// The escape byte is followed by a byte that the extension table lacks
    /// (strict mode).
    InvalidEscapeSequence { code: u8 },
    /// A byte below 0x80 stands for no character (strict mode).
    InvalidByte { byte: u8 },
    /// The input is malformed: an escape byte at its end (strict mode), or it
    /// is longer than the configured limit.
    MalformedData { reason: String },
}

/// The replacement character of the default configuration.
pub const DEFAULT_REPLACEMENT: char = '\u{FFFD}';

/// Why an input over the length limit is refused.
pub open spec fn limit_reason() -> Seq<char> {
    "Input length exceeds maximum"@
}

/// Why an escape byte at the end of the input is refused.
pub open spec fn escape_at_end_reason() -> Seq<char> {
    "Escape byte at end of input"@
}

/// The error for an input over the length limit.
pub open spec fn is_limit_error(e: Gsm7Error) -> bool {
    e matches Gsm7Error::MalformedData { reason } && reason@ == limit_reason()
}

/// The error for an escape byte at the end of the input.
pub open spec fn is_escape_at_end_error(e: Gsm7Error) -> bool {
    e matches Gsm7Error::MalformedData { reason } && reason@ == escape_at_end_reason()
}

/// Builds the error for an input over the length limit.
pub(crate) fn limit_error() -> (e: Gsm7Error)
    ensures
        is_limit_error(e),
{
    Gsm7Error::MalformedData { reason: String::from_str("Input length exceeds maximum") }
}

/// Builds the error for an escape byte at the end of the input.
pub(crate) fn escape_at_end_error() -> (e: Gsm7Error)
    ensures
        is_escape_at_end_error(e),
{
    Gsm7Error::MalformedData { reason: String::from_str("Escape byte at end of input") }
}

/// How encoding and decoding treat what they cannot map.
#[derive(Debug, Clone, Copy, PartialEq, Eq, Structural)]
pub struct Gsm7Config {
    /// Fail on an unmapped symbol instead of substituting for it.
    pub strict: bool,
    /// What stands in for an unmapped symbol when not strict.
    pub replacement_char: char,
    /// The largest input accepted, in characters to encode and in bytes to
    /// decode; 0 sets no limit.
    pub max_input_length: usize,
    /// Check the whole input before decoding it.
    pub validate_input: bool,
}

/// The default configuration: lenient, with U+FFFD as replacement, no limit
/// and no validation pass.
pub open spec fn default_config() -> Gsm7Config {
    Gsm7Config {
        strict: false,
        replacement_char: DEFAULT_REPLACEMENT,
        max_input_length: 0,
        validate_input: false,
    }
}

impl Default for Gsm7Config {
    /// Lenient, with U+FFFD as replacement, no limit and no validation pass.
    fn default() -> (r: Self)
        ensures
            r == default_config(),
    {
        Gsm7Config {
            strict: false,
            replacement_char: DEFAULT_REPLACEMENT,
            max_input_length: 0,
            validate_input: false,
        }
    }
}

impl Gsm7Config {
    /// The default configuration in strict mode.
    pub fn strict() -> (r: Self)
        ensures
            r.strict,
            r.replacement_char == DEFAULT_REPLACEMENT,
            r.max_input_length == 0,
            !r.validate_input,
    {
        Gsm7Config {
            strict: true,
            replacement_char: DEFAULT_REPLACEMENT,
            max_input_length: 0,
            validate_input: false,
        }
    }

    /// Whether an input of `len` units is over the limit.
    pub open spec fn exceeds_limit(&self, len: nat) -> bool {
        self.max_input_length > 0 && len > self.max_input_length
    }
}

} // verus!
