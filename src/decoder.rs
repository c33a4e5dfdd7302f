use vstd::prelude::*;

use crate::config::{
    default_config, escape_at_end_error, is_escape_at_end_error, is_limit_error, limit_error,
    Gsm7Config, Gsm7Error,
};
use crate::tables::{base_char, base_char_of, ext_char, ext_char_of, ESCAPE};

verus! {

/// The character of a base-table byte, or `repl` where it stands for none.
pub open spec fn base_or(b: u8, repl: char) -> char {
    match base_char(b) {
        Some(c) => c,
        None => repl,
    }
}

/// The character of an escape sequence, or `repl` where it stands for none.
pub open spec fn ext_or(b: u8, repl: char) -> char {
    match ext_char(b) {
        Some(c) => c,
        None => repl,
    }
}

/// The text that `data` decodes to when nothing fails: an escape byte takes
/// the byte after it along, and whatever stands for no character becomes
/// `repl`, a trailing escape byte included.
pub open spec fn decoded(data: Seq<u8>, repl: char) -> Seq<char>
    decreases data.len(),
{
    if data.len() == 0 {
        Seq::empty()
    } else if data[0] == ESCAPE {
        if data.len() == 1 {
            seq![repl]
        } else {
            seq![ext_or(data[1], repl)] + decoded(data.subrange(2, data.len() as int), repl)
        }
    } else {
        seq![base_or(data[0], repl)] + decoded(data.subrange(1, data.len() as int), repl)
    }
}

/// What strict decoding stops at.
#[derive(Clone, Copy, Debug, PartialEq, Eq, Structural)]
pub enum DecodeFault {
    /// The escape byte followed by a byte outside the extension table.
    InvalidEscape(u8),
    /// A byte below 0x80 that stands for no character.
    InvalidByte(u8),
    /// The escape byte as the last byte.
    EscapeAtEnd,
}

/// The first fault of `data` in a left-to-right scan. Bytes from 0x80 up are
/// never a fault.
pub open spec fn first_fault(data: Seq<u8>) -> Option<DecodeFault>
    decreases data.len(),
{
    if data.len() == 0 {
        None
    } else if data[0] == ESCAPE {
        if data.len() == 1 {
            Some(DecodeFault::EscapeAtEnd)
        } else if ext_char(data[1]) is None {
            Some(DecodeFault::InvalidEscape(data[1]))
        } else {
            first_fault(data.subrange(2, data.len() as int))
        }
    } else if data[0] < 0x80 && base_char(data[0]) is None {
        Some(DecodeFault::InvalidByte(data[0]))
    } else {
        first_fault(data.subrange(1, data.len() as int))
    }
}

/// The error that reports a fault.
pub open spec fn reports(e: Gsm7Error, f: DecodeFault) -> bool {
    match f {
        DecodeFault::InvalidEscape(b) => e == Gsm7Error::InvalidEscapeSequence { code: b },
        DecodeFault::InvalidByte(b) => e == Gsm7Error::InvalidByte { byte: b },
        DecodeFault::EscapeAtEnd => is_escape_at_end_error(e),
    }
}

/// What decoding `data` under `config` returns, the length limit aside.
pub open spec fn decode_outcome(data: Seq<u8>, config: Gsm7Config, r: Result<String, Gsm7Error>) -> bool {
    if config.strict && first_fault(data) is Some {
        r matches Err(e) && reports(e, first_fault(data)->0)
    } else {
        r matches Ok(s) && s@ == decoded(data, config.replacement_char)
    }
}

/// Where the scan of the decoder stands between two bytes.
enum ScanState {
    Plain,
    EscapePending,
}

/// Decodes `data` with the default configuration, which is lenient: it
/// never fails.
pub fn decode(data: &[u8]) -> (r: Result<String, Gsm7Error>)
    ensures
        decode_outcome(data@, default_config(), r),
        r matches Ok(s) && s@ == decoded(data@, default_config().replacement_char),
{
    decode_with_config(data, &Gsm7Config::default())
}

/// Decodes `data` under `config`, scanning it left to right in two states:
/// plain, or just past an escape byte. An input of more bytes than a nonzero
/// `max_input_length` is refused first. In strict mode the scan fails at the
/// first escape sequence outside the extension table, the first byte below
/// 0x80 without a character, or an escape byte at the end; bytes from 0x80 up
/// always become the replacement character. When lenient, every such place
/// becomes the replacement character and decoding never fails. The optional
/// validation pass reaches the same verdict ahead of the scan.
pub fn decode_with_config(data: &[u8], config: &Gsm7Config) -> (r: Result<String, Gsm7Error>)
    ensures
        config.exceeds_limit(data@.len()) ==> (r matches Err(e) && is_limit_error(e)),
        !config.exceeds_limit(data@.len()) ==> decode_outcome(data@, *config, r),
        !config.strict && !config.exceeds_limit(data@.len()) ==> r is Ok,
{
    if config.max_input_length > 0 && data.len() > config.max_input_length {
        return Err(limit_error());
    }
    if config.validate_input {
        if let Err(e) = validate_encoded_data(data, config.strict) {
            return Err(e);
        }
    }
    let ghost d = data@;
    let ghost repl = config.replacement_char;
    let mut result = String::new();
    let mut state = ScanState::Plain;
    let mut i: usize = 0;
    assert(d.subrange(0, d.len() as int) =~= d);
    assert(result@ + decoded(d, repl) =~= decoded(d, repl));
    while i < data.len()
        invariant
            d == data@,
            repl == config.replacement_char,
            !config.exceeds_limit(d.len()),
            i <= d.len(),
            state matches ScanState::EscapePending ==> i >= 1 && d[i - 1] == ESCAPE,
            ({
                let k = if (state matches ScanState::EscapePending) { i - 1 } else { i as int };
                &&& result@ + decoded(d.subrange(k, d.len() as int), repl) == decoded(d, repl)
                &&& config.strict ==> first_fault(d) == first_fault(d.subrange(k, d.len() as int))
            }),
        decreases d.len() - i,
    {
        let b = data[i];
        let ghost k = if (state matches ScanState::EscapePending) { i - 1 } else { i as int };
        let ghost rest = d.subrange(k, d.len() as int);
        match state {
            ScanState::Plain => {
                if b == ESCAPE {
                    state = ScanState::EscapePending;
                } else {
                    assert(rest.subrange(1, rest.len() as int) =~= d.subrange(i + 1, d.len() as int));
                    match base_char_of(b) {
                        Some(c) => result.push(c),
                        None => {
                            if config.strict && b < 0x80 {
                                return Err(Gsm7Error::InvalidByte { byte: b });
                            }
                            result.push(config.replacement_char);
                        },
                    }
                    assert(result@ + decoded(d.subrange(i + 1, d.len() as int), repl) =~= decoded(d, repl));
                }
            },
            ScanState::EscapePending => {
                assert(rest.subrange(2, rest.len() as int) =~= d.subrange(i + 1, d.len() as int));
                match ext_char_of(b) {
                    Some(c) => result.push(c),
                    None => {
                        if config.strict {
                            return Err(Gsm7Error::InvalidEscapeSequence { code: b });
                        }
                        result.push(config.replacement_char);
                    },
                }
                state = ScanState::Plain;
                assert(result@ + decoded(d.subrange(i + 1, d.len() as int), repl) =~= decoded(d, repl));
            },
        }
        i = i + 1;
    }
    if let ScanState::EscapePending = state {
        if config.strict {
            return Err(escape_at_end_error());
        }
        result.push(config.replacement_char);
    }
    assert(result@ =~= decoded(d, repl));
    Ok(result)
}

/// Checks `data` ahead of decoding it. In strict mode it fails exactly where
/// the decoder would, with the same error; lenient decoding never fails, so
/// neither does this.
fn validate_encoded_data(data: &[u8], strict: bool) -> (r: Result<(), Gsm7Error>)
    ensures
        strict && first_fault(data@) is Some ==> (r matches Err(e) && reports(e, first_fault(data@)->0)),
        !(strict && first_fault(data@) is Some) ==> r is Ok,
{
    if !strict {
        return Ok(());
    }
    let ghost d = data@;
    let mut i: usize = 0;
    assert(d.subrange(0, d.len() as int) =~= d);
    while i < data.len()
        invariant
            d == data@,
            strict,
            i <= d.len(),
            first_fault(d) == first_fault(d.subrange(i as int, d.len() as int)),
        decreases d.len() - i,
    {
        let ghost rest = d.subrange(i as int, d.len() as int);
        let b = data[i];
        if b == ESCAPE {
            if i + 1 >= data.len() {
                return Err(escape_at_end_error());
            }
            let next = data[i + 1];
            if ext_char_of(next).is_none() {
                return Err(Gsm7Error::InvalidEscapeSequence { code: next });
            }
            assert(rest.subrange(2, rest.len() as int) =~= d.subrange(i + 2, d.len() as int));
            i = i + 2;
        } else {
            if b < 0x80 && base_char_of(b).is_none() {
                return Err(Gsm7Error::InvalidByte { byte: b });
            }
            assert(rest.subrange(1, rest.len() as int) =~= d.subrange(i + 1, d.len() as int));
            i = i + 1;
        }
    }
    Ok(())
}

} // verus!
