use vstd::prelude::*;
use vstd::string::StrSliceExecFns;

use crate::config::{default_config, is_limit_error, limit_error, Gsm7Config, Gsm7Error};
use crate::tables::{code_bytes, code_of, lookup_code, Code, ESCAPE};

verus! {

/// The byte written for a character that has no code and whose replacement
/// has none either.
pub const FALLBACK_BYTE: u8 = 0x20;

/// The bytes written for `c` when not strict: its own code, else the code of
/// the replacement, else the fallback byte.
pub open spec fn char_bytes(c: char, repl: char) -> Seq<u8> {
    match code_of(c) {
        Some(k) => code_bytes(k),
        None => match code_of(repl) {
            Some(k) => code_bytes(k),
            None => seq![FALLBACK_BYTE],
        },
    }
}

/// The encoding of `s`, each character in turn, with `repl` for those the
/// alphabet lacks.
pub open spec fn encoded(s: Seq<char>, repl: char) -> Seq<u8>
    decreases s.len(),
{
    if s.len() == 0 {
        Seq::empty()
    } else {
        encoded(s.drop_last(), repl) + char_bytes(s.last(), repl)
    }
}

/// Every character of `s` has a code.
pub open spec fn mappable(s: Seq<char>) -> bool {
    forall|i: int| 0 <= i < s.len() ==> code_of(#[trigger] s[i]) is Some
}

/// The first character of `s` that has no code, if any.
pub open spec fn first_unmapped(s: Seq<char>) -> Option<char>
    decreases s.len(),
{
    if s.len() == 0 {
        None
    } else {
        match first_unmapped(s.drop_last()) {
            Some(c) => Some(c),
            None => if code_of(s.last()) is None {
                Some(s.last())
            } else {
                None
            },
        }
    }
}

/// The number of bytes that a mappable `s` is written as.
pub open spec fn encoded_size(s: Seq<char>) -> nat
    decreases s.len(),
{
    if s.len() == 0 {
        0
    } else {
        encoded_size(s.drop_last()) + if code_of(s.last()) matches Some(Code::Escape(_)) {
            2nat
        } else {
            1nat
        }
    }
}

/// The error for an unmapped character.
pub open spec fn unsupported(c: char) -> Gsm7Error {
    Gsm7Error::UnsupportedCharacter { character: c, code: c as u32 }
}

/// What encoding `s` under `config` returns, the length limit aside.
pub open spec fn encode_outcome(s: Seq<char>, config: Gsm7Config, r: Result<Vec<u8>, Gsm7Error>) -> bool {
    if config.strict && first_unmapped(s) is Some {
        r == Err::<Vec<u8>, Gsm7Error>(unsupported(first_unmapped(s)->0))
    } else {
        r matches Ok(v) && v@ == encoded(s, config.replacement_char)
    }
}

/// Appends the bytes of a code.
fn push_code(bytes: &mut Vec<u8>, code: Code)
    ensures
        final(bytes)@ == old(bytes)@ + code_bytes(code),
{
    match code {
        Code::Single(b) => bytes.push(b),
        Code::Escape(b) => {
            bytes.push(ESCAPE);
            bytes.push(b);
        },
    }
    assert(final(bytes)@ =~= old(bytes)@ + code_bytes(code));
}

/// Encodes `content` with the default configuration: lenient, with U+FFFD as
/// replacement, which the alphabet lacks, so that an unmapped character
/// becomes a space.
pub fn encode(content: &str) -> (r: Result<Vec<u8>, Gsm7Error>)
    ensures
        encode_outcome(content@, default_config(), r),
{
    encode_with_config(content, &Gsm7Config::default())
}

/// Encodes `content` under `config`. An input of more characters than a
/// nonzero `max_input_length` is refused before anything is written. Each
/// character becomes its one or two bytes; one without a code is an error
/// in strict mode, and otherwise becomes the code of the replacement
/// character, or a space where that has none either.
pub fn encode_with_config(content: &str, config: &Gsm7Config) -> (r: Result<Vec<u8>, Gsm7Error>)
    ensures
        config.exceeds_limit(content@.len()) ==> (r matches Err(e) && is_limit_error(e)),
        !config.exceeds_limit(content@.len()) ==> encode_outcome(content@, *config, r),
        !config.strict && !config.exceeds_limit(content@.len()) ==> r is Ok,
{
    if config.max_input_length > 0 && content.unicode_len() > config.max_input_length {
        return Err(limit_error());
    }
    let ghost s = content@;
    let ghost repl = config.replacement_char;
    let mut bytes: Vec<u8> = Vec::new();
    for c in it: content.chars()
        invariant
            it.seq() == s,
            s == content@,
            repl == config.replacement_char,
            !config.exceeds_limit(s.len()),
            bytes@ == encoded(s.take(it.index() as int), repl),
            config.strict ==> first_unmapped(s.take(it.index() as int)) is None,
    {
        let ghost pre = s.take(it.index() as int);
        assert(c == s[it.index() as int]);
        assert(s.take(it.index() + 1).drop_last() =~= pre);
        match lookup_code(c) {
            Some(code) => push_code(&mut bytes, code),
            None => {
                if config.strict {
                    proof {
                        assert(first_unmapped(s.take(it.index() + 1)) == Some(c));
                        lemma_first_unmapped_extends(s, it.index() + 1);
                    }
                    return Err(Gsm7Error::UnsupportedCharacter { character: c, code: c as u32 });
                }
                match lookup_code(config.replacement_char) {
                    Some(code) => push_code(&mut bytes, code),
                    None => bytes.push(FALLBACK_BYTE),
                }
            },
        }
        assert(bytes@ =~= encoded(s.take(it.index() + 1), repl));
    }
    assert(s.take(s.len() as int) =~= s);
    Ok(bytes)
}

/// The number of bytes that `encode` would write for `content`, in strict
/// terms: an unmapped character is an error, never replaced.
pub fn encoded_len(content: &str) -> (r: Result<usize, Gsm7Error>)
    requires
        // a str of n characters holds at least n bytes, and at most isize::MAX
        content@.len() <= usize::MAX / 2,
    ensures
        match first_unmapped(content@) {
            None => r == Ok::<usize, Gsm7Error>(encoded_size(content@) as usize),
            Some(c) => r == Err::<usize, Gsm7Error>(unsupported(c)),
        },
{
    let ghost s = content@;
    let mut len: usize = 0;
    for c in it: content.chars()
        invariant
            it.seq() == s,
            s == content@,
            s.len() <= usize::MAX / 2,
            len == encoded_size(s.take(it.index() as int)),
            len <= 2 * it.index(),
            first_unmapped(s.take(it.index() as int)) is None,
    {
        let ghost pre = s.take(it.index() as int);
        assert(c == s[it.index() as int]);
        assert(s.take(it.index() + 1).drop_last() =~= pre);
        match lookup_code(c) {
            Some(Code::Single(_)) => len += 1,
            Some(Code::Escape(_)) => len += 2,
            None => {
                proof {
                    lemma_first_unmapped_extends(s, it.index() + 1);
                }
                return Err(Gsm7Error::UnsupportedCharacter { character: c, code: c as u32 });
            },
        }
    }
    assert(s.take(s.len() as int) =~= s);
    Ok(len)
}

/// Whether every character of `content` has a code, that is, whether
/// `encoded_len` succeeds on it.
pub fn is_gsm7_compatible(content: &str) -> (r: bool)
    ensures
        r == mappable(content@),
        r == (first_unmapped(content@) is None),
{
    let ghost s = content@;
    for c in it: content.chars()
        invariant
            it.seq() == s,
            s == content@,
            mappable(s.take(it.index() as int)),
    {
        assert(c == s[it.index() as int]);
        if lookup_code(c).is_none() {
            proof {
                lemma_mappable_first_unmapped(s);
            }
            return false;
        }
        assert(s.take(it.index() + 1) =~= s.take(it.index() as int).push(c));
    }
    assert(s.take(s.len() as int) =~= s);
    proof {
        lemma_mappable_first_unmapped(s);
    }
    true
}

/// A sequence has no unmapped character exactly when each of its characters
/// has a code.
pub proof fn lemma_mappable_first_unmapped(s: Seq<char>)
    ensures
        mappable(s) <==> first_unmapped(s) is None,
    decreases s.len(),
{
    if s.len() > 0 {
        let init = s.drop_last();
        lemma_mappable_first_unmapped(init);
        if mappable(s) {
            assert(mappable(init)) by {
                assert forall|i: int| 0 <= i < init.len() implies code_of(#[trigger] init[i]) is Some by {
                    assert(init[i] == s[i]);
                }
            }
            assert(code_of(s[s.len() - 1]) is Some);
        }
        if first_unmapped(s) is None {
            assert forall|i: int| 0 <= i < s.len() implies code_of(#[trigger] s[i]) is Some by {
                if i < s.len() - 1 {
                    assert(s[i] == init[i]);
                }
            }
        }
    }
}

/// Once a prefix has an unmapped character, so has the whole.
proof fn lemma_first_unmapped_extends(s: Seq<char>, k: int)
    requires
        0 <= k <= s.len(),
        first_unmapped(s.take(k)) is Some,
    ensures
        first_unmapped(s) == first_unmapped(s.take(k)),
    decreases s.len() - k,
{
    if k < s.len() {
        assert(s.take(k + 1).drop_last() =~= s.take(k));
        lemma_first_unmapped_extends(s, k + 1);
    } else {
        assert(s.take(k) =~= s);
    }
}

} // verus!
