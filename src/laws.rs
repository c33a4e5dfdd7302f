use vstd::prelude::*;

use crate::decoder::{decoded, first_fault, DecodeFault};
use crate::encoder::{char_bytes, encoded, encoded_size, mappable};
use crate::tables::{
    base_char, code_bytes, code_of, ext_char, lemma_code_of_base, lemma_code_of_ext,
    lemma_code_of_inverse, Code, ESCAPE,
};

verus! {

/// The scan of `data` ends outside an escape sequence: no escape byte is left
/// waiting for the byte after it.
pub open spec fn ends_plain(data: Seq<u8>) -> bool
    decreases data.len(),
{
    if data.len() == 0 {
        true
    } else if data[0] == ESCAPE {
        data.len() >= 2 && ends_plain(data.subrange(2, data.len() as int))
    } else {
        ends_plain(data.subrange(1, data.len() as int))
    }
}

/// Encoding a character in front of a text writes its bytes in front.
proof fn lemma_encoded_cons(c: char, s: Seq<char>, repl: char)
    ensures
        encoded(seq![c] + s, repl) == char_bytes(c, repl) + encoded(s, repl),
    decreases s.len(),
{
    if s.len() == 0 {
        let t = seq![c] + s;
        assert(t.last() == c);
        assert(t.drop_last() =~= Seq::<char>::empty());
        assert(encoded(t.drop_last(), repl) =~= Seq::<u8>::empty());
        assert(Seq::<u8>::empty() + char_bytes(c, repl) =~= char_bytes(c, repl));
        assert(encoded(s, repl) =~= Seq::<u8>::empty());
        assert(char_bytes(c, repl) + encoded(s, repl) =~= char_bytes(c, repl));
    } else {
        assert((seq![c] + s).drop_last() =~= seq![c] + s.drop_last());
        assert((seq![c] + s).last() == s.last());
        lemma_encoded_cons(c, s.drop_last(), repl);
        assert(encoded(seq![c] + s, repl) =~= char_bytes(c, repl) + encoded(s, repl));
    }
}

/// The bytes of a code of the tables decode to its character, whatever follows.
proof fn lemma_decoded_code(c: char, rest: Seq<u8>, repl: char)
    requires
        code_of(c) is Some,
    ensures
        decoded(code_bytes(code_of(c)->0) + rest, repl) == seq![c] + decoded(rest, repl),
        first_fault(code_bytes(code_of(c)->0) + rest) == first_fault(rest),
{
    lemma_code_of_inverse(c);
    let data = code_bytes(code_of(c)->0) + rest;
    match code_of(c)->0 {
        Code::Single(b) => {
            assert(data.subrange(1, data.len() as int) =~= rest);
        },
        Code::Escape(b) => {
            assert(data.subrange(2, data.len() as int) =~= rest);
        },
    }
}

/// Decoding undoes encoding on every text whose characters all have a code,
/// whatever the replacement characters of the two directions, and strict
/// decoding finds no fault in what was encoded.
pub proof fn lemma_round_trip(s: Seq<char>, repl: char, repl2: char)
    requires
        mappable(s),
    ensures
        decoded(encoded(s, repl), repl2) == s,
        first_fault(encoded(s, repl)) is None,
    decreases s.len(),
{
    if s.len() == 0 {
        assert(encoded(s, repl) =~= Seq::<u8>::empty());
        assert(decoded(Seq::<u8>::empty(), repl2) =~= s);
    } else {
        let tail = s.subrange(1, s.len() as int);
        assert(s =~= seq![s[0]] + tail);
        assert(code_of(s[0]) is Some);
        assert(mappable(tail)) by {
            assert forall|i: int| 0 <= i < tail.len() implies code_of(#[trigger] tail[i]) is Some by {
                assert(tail[i] == s[i + 1]);
            }
        }
        lemma_encoded_cons(s[0], tail, repl);
        lemma_round_trip(tail, repl, repl2);
        lemma_decoded_code(s[0], encoded(tail, repl), repl2);
        assert(decoded(encoded(s, repl), repl2) =~= s);
    }
}

/// Each character that the base table or the extension table reaches comes
/// back from decoding its own encoding.
pub proof fn lemma_round_trip_char(c: char, repl: char, repl2: char)
    requires
        (exists|b: u8| base_char(b) == Some(c)) || (exists|b: u8| ext_char(b) == Some(c)),
    ensures
        decoded(encoded(seq![c], repl), repl2) == seq![c],
{
    if exists|b: u8| base_char(b) == Some(c) {
        let b = choose|b: u8| base_char(b) == Some(c);
        lemma_code_of_base(b);
    } else {
        let b = choose|b: u8| ext_char(b) == Some(c);
        lemma_code_of_ext(b);
    }
    assert(mappable(seq![c]));
    lemma_round_trip(seq![c], repl, repl2);
}

/// On a text whose characters all have a code, the measured length is the
/// length of the encoding.
pub proof fn lemma_length_consistent(s: Seq<char>, repl: char)
    requires
        mappable(s),
    ensures
        encoded(s, repl).len() == encoded_size(s),
    decreases s.len(),
{
    if s.len() > 0 {
        let init = s.drop_last();
        assert(mappable(init)) by {
            assert forall|i: int| 0 <= i < init.len() implies code_of(#[trigger] init[i]) is Some by {
                assert(init[i] == s[i]);
            }
        }
        assert(code_of(s[s.len() - 1]) is Some);
        lemma_length_consistent(init, repl);
    }
}

/// Decoding a sequence that ends outside an escape, then more bytes, is
/// decoding each in turn; a strict scan stops in the first part if it has a
/// fault, else at the first fault of the second.
pub proof fn lemma_decoded_concat(p: Seq<u8>, q: Seq<u8>, repl: char)
    requires
        ends_plain(p),
    ensures
        decoded(p + q, repl) == decoded(p, repl) + decoded(q, repl),
        first_fault(p + q) == if first_fault(p) is Some {
            first_fault(p)
        } else {
            first_fault(q)
        },
    decreases p.len(),
{
    let d = p + q;
    if p.len() == 0 {
        assert(d =~= q);
        assert(decoded(p, repl) =~= Seq::<char>::empty());
        assert(decoded(p, repl) + decoded(q, repl) =~= decoded(q, repl));
    } else if p[0] == ESCAPE {
        let after_pair = p.subrange(2, p.len() as int);
        assert(d.subrange(2, d.len() as int) =~= after_pair + q);
        lemma_decoded_concat(after_pair, q, repl);
        assert(decoded(p + q, repl) =~= decoded(p, repl) + decoded(q, repl));
    } else {
        let after_byte = p.subrange(1, p.len() as int);
        assert(d.subrange(1, d.len() as int) =~= after_byte + q);
        lemma_decoded_concat(after_byte, q, repl);
        assert(decoded(p + q, repl) =~= decoded(p, repl) + decoded(q, repl));
    }
}

/// An escape byte at the end of an input whose scan would otherwise end
/// outside an escape decodes, when lenient, to the replacement character
/// after the decoding of the rest; when strict, and the rest has no fault,
/// it is the fault that stops the scan.
pub proof fn lemma_escape_at_end(p: Seq<u8>, repl: char)
    requires
        ends_plain(p),
    ensures
        decoded(p.push(ESCAPE), repl) == decoded(p, repl).push(repl),
        first_fault(p) is None ==> first_fault(p.push(ESCAPE)) == Some(DecodeFault::EscapeAtEnd),
{
    assert(p.push(ESCAPE) =~= p + seq![ESCAPE]);
    lemma_decoded_concat(p, seq![ESCAPE], repl);
    assert(decoded(p, repl) + seq![repl] =~= decoded(p, repl).push(repl));
}

/// A byte from 0x80 up decodes to the replacement character and is no fault
/// in either mode, wherever it stands in a scan.
pub proof fn lemma_out_of_range_byte(b: u8, rest: Seq<u8>, repl: char)
    requires
        b >= 0x80,
    ensures
        decoded(seq![b] + rest, repl) == seq![repl] + decoded(rest, repl),
        first_fault(seq![b] + rest) == first_fault(rest),
        decoded(seq![b], repl) == seq![repl],
        first_fault(seq![b]) is None,
{
    let d = seq![b] + rest;
    assert(base_char(b) is None);
    assert(d.subrange(1, d.len() as int) =~= rest);
    assert(seq![b].subrange(1, 1) =~= Seq::<u8>::empty());
    assert(decoded(Seq::<u8>::empty(), repl) =~= Seq::<char>::empty());
    assert(first_fault(Seq::<u8>::empty()) is None);
    assert(seq![b][0] == b);
    assert(seq![repl] + Seq::<char>::empty() =~= seq![repl]);
}

} // verus!
