//! Byte-level building blocks of the relay protocol: big-endian integers,
//! length-prefixed strings, and splitting of a string at a separator byte.

use vstd::prelude::*;
use vstd::utf8::*;
use vstd::string::*;
use vstd::slice::slice_subrange;

verus! {

/// The kind of grammar error that stopped a parse, as the outermost
/// construct that reported it.
#[derive(Debug, Clone, Copy, PartialEq, Eq, Structural)]
pub enum ErrorKind {
    /// A string did not hold valid UTF-8.
    MapRes,
    /// A repeated element failed.
    Count,
    /// A tagged alternative failed or no alternative matched its tag.
    Switch,
}

/// Why a parse stopped.
#[derive(Debug, Clone, Copy, PartialEq, Eq, Structural)]
pub enum ParseError {
    /// The buffer ended early; the parser that stopped needed this many bytes.
    Incomplete(usize),
    /// The bytes do not follow the grammar.
    Error(ErrorKind),
}

/// What a parser does on a byte sequence, as a spec value: it succeeds with a
/// value and the number of bytes it consumed, it fails with an error, or the
/// input is one the parser does not handle at all.
pub enum Step<T> {
    Done(T, nat),
    Failed(ParseError),
    Aborted,
}

/// The big-endian value of the first four bytes of `s`.
pub open spec fn be_u32_of(s: Seq<u8>) -> u32 {
    (s[0] as int * 0x1000000 + s[1] as int * 0x10000 + s[2] as int * 0x100 + s[3] as int) as u32
}

/// The grammar of a big-endian `u32`.
pub open spec fn spec_be_u32(s: Seq<u8>) -> Step<u32> {
    if s.len() < 4 {
        Step::Failed(ParseError::Incomplete(4))
    } else {
        Step::Done(be_u32_of(s), 4)
    }
}

/// The grammar of a single byte.
pub open spec fn spec_be_u8(s: Seq<u8>) -> Step<u8> {
    if s.len() < 1 {
        Step::Failed(ParseError::Incomplete(1))
    } else {
        Step::Done(s[0], 1)
    }
}

/// The grammar of `n` bytes that must form valid UTF-8; the value is the bytes.
pub open spec fn spec_take_str(s: Seq<u8>, n: nat) -> Step<Seq<u8>> {
    if s.len() < n {
        Step::Failed(ParseError::Incomplete(n as usize))
    } else if !valid_utf8(s.take(n as int)) {
        Step::Failed(ParseError::Error(ErrorKind::MapRes))
    } else {
        Step::Done(s.take(n as int), n)
    }
}

/// `rest` is what is left of `input` after a prefix was consumed.
pub open spec fn is_rest_of(rest: Seq<u8>, input: Seq<u8>) -> bool {
    &&& rest.len() <= input.len()
    &&& rest == input.skip(input.len() - rest.len())
}

/// What is left after what is left is what is left of the whole.
pub proof fn lemma_rest_of_rest(r2: Seq<u8>, r1: Seq<u8>, input: Seq<u8>)
    requires
        is_rest_of(r1, input),
        is_rest_of(r2, r1),
    ensures
        is_rest_of(r2, input),
{
    assert(r2 =~= input.skip(input.len() - r2.len()));
}

/// The step that an executed parser returning a plain value took on `input`.
pub open spec fn step_of<T>(input: Seq<u8>, res: Result<(&[u8], T), ParseError>) -> Step<T> {
    match res {
        Ok((rest, v)) => Step::Done(v, (input.len() - rest@.len()) as nat),
        Err(e) => Step::Failed(e),
    }
}

/// The step that an executed string parser took on `input`, the string taken
/// by its UTF-8 bytes.
pub open spec fn str_step_of(input: Seq<u8>, res: Result<(&[u8], &str), ParseError>) -> Step<Seq<u8>> {
    match res {
        Ok((rest, v)) => Step::Done(v.spec_bytes(), (input.len() - rest@.len()) as nat),
        Err(e) => Step::Failed(e),
    }
}

/// The remainder returned on success is a suffix of the input.
pub open spec fn rest_ok<T, E>(input: Seq<u8>, res: Result<(&[u8], T), E>) -> bool {
    res matches Ok((rest, _)) ==> is_rest_of(rest@, input)
}

/// `std::str::from_utf8`, its error dropped: the bytes as a string slice when
/// they are valid UTF-8, and nothing otherwise.  The contract states what the
/// documentation of `from_utf8` promises, in vstd's definition of UTF-8.
#[verifier::external_body]
fn str_from_utf8<'a>(v: &'a [u8]) -> (res: Option<&'a str>)
    ensures
        res is Some <==> valid_utf8(v@),
        res matches Some(s) ==> s.spec_bytes() == v@,
{
    std::str::from_utf8(v).ok()
}

/// Reads one byte.
pub fn be_u8<'a>(input: &'a [u8]) -> (res: Result<(&'a [u8], u8), ParseError>)
    ensures
        step_of(input@, res) == spec_be_u8(input@),
        rest_ok(input@, res),
{
    if input.len() < 1 {
        Err(ParseError::Incomplete(1))
    } else {
        let b: u8 = input[0];
        let rest = slice_subrange(input, 1, input.len());
        Ok((rest, b))
    }
}

/// Reads a big-endian `u32`.
pub fn be_u32<'a>(input: &'a [u8]) -> (res: Result<(&'a [u8], u32), ParseError>)
    ensures
        step_of(input@, res) == spec_be_u32(input@),
        rest_ok(input@, res),
{
    if input.len() < 4 {
        Err(ParseError::Incomplete(4))
    } else {
        let v: u32 = (input[0] as u32) * 0x1000000 + (input[1] as u32) * 0x10000
            + (input[2] as u32) * 0x100 + (input[3] as u32);
        let rest = slice_subrange(input, 4, input.len());
        Ok((rest, v))
    }
}

/// Reads `n` bytes that must form valid UTF-8, as a string slice.
pub fn take_str<'a>(input: &'a [u8], n: usize) -> (res: Result<(&'a [u8], &'a str), ParseError>)
    ensures
        str_step_of(input@, res) == spec_take_str(input@, n as nat),
        rest_ok(input@, res),
{
    if input.len() < n {
        Err(ParseError::Incomplete(n))
    } else {
        let head = slice_subrange(input, 0, n);
        match str_from_utf8(head) {
            Some(s) => {
                let rest = slice_subrange(input, n, input.len());
                Ok((rest, s))
            },
            None => Err(ParseError::Error(ErrorKind::MapRes)),
        }
    }
}

/// The pieces of `s` between the occurrences of `sep`, in order; a string
/// without `sep` is one piece, and the empty string is one empty piece.
pub open spec fn spec_split(s: Seq<u8>, sep: u8) -> Seq<Seq<u8>>
    decreases s.len(),
{
    if s.len() == 0 {
        seq![seq![]]
    } else {
        let p = spec_split(s.drop_last(), sep);
        if s.last() == sep {
            p.push(seq![])
        } else {
            p.update(p.len() - 1, p.last().push(s.last()))
        }
    }
}

/// The pieces joined back together with `sep` between each two of them.
pub open spec fn spec_join(pieces: Seq<Seq<u8>>, sep: u8) -> Seq<u8>
    decreases pieces.len(),
{
    if pieces.len() == 0 {
        seq![]
    } else if pieces.len() == 1 {
        pieces[0]
    } else {
        spec_join(pieces.drop_last(), sep) + seq![sep] + pieces.last()
    }
}

/// Splitting yields at least one piece.
pub proof fn lemma_split_nonempty(s: Seq<u8>, sep: u8)
    ensures
        spec_split(s, sep).len() >= 1,
    decreases s.len(),
{
    if s.len() > 0 {
        lemma_split_nonempty(s.drop_last(), sep);
    }
}

/// The pieces of `s` at the ASCII byte `sep`, as string slices of `s`.
pub fn split_str<'a>(s: &'a str, sep: u8) -> (res: Vec<&'a str>)
    requires
        sep < 0x80,
    ensures
        res@.len() == spec_split(s.spec_bytes(), sep).len(),
        forall|i: int| 0 <= i < res@.len() ==> #[trigger] res@[i].spec_bytes() == spec_split(s.spec_bytes(), sep)[i],
{
    broadcast use vstd::utf8::group_utf8_lib;
    let bytes = s.as_bytes();
    let ghost all = bytes@;
    let mut out: Vec<&'a str> = Vec::new();
    let mut rest: &'a str = s;
    let mut start: usize = 0;
    let mut i: usize = 0;
    proof {
        assert(all.take(0) =~= seq![]);
        assert(all.subrange(0, 0) =~= seq![]);
        assert(all.subrange(0, all.len() as int) =~= all);
    }
    while i < bytes.len()
        invariant
            start <= i <= bytes@.len(),
            bytes@ == all,
            all == s.spec_bytes(),
            sep < 0x80,
            rest.spec_bytes() == all.subrange(start as int, all.len() as int),
            out@.len() + 1 == spec_split(all.take(i as int), sep).len(),
            forall|j: int| 0 <= j < out@.len() ==> #[trigger] out@[j].spec_bytes() == spec_split(all.take(i as int), sep)[j],
            spec_split(all.take(i as int), sep).last() == all.subrange(start as int, i as int),
        decreases bytes@.len() - i,
    {
        proof {
            assert(all.take(i + 1).drop_last() =~= all.take(i as int));
            assert(all.take(i + 1).last() == all[i as int]);
        }
        if bytes[i] == sep {
            let ghost rb = rest.spec_bytes();
            proof {
                assert(rb[i - start] == all[i as int]);
                encode_utf8_valid_utf8(rest@);
                is_char_boundary_iff_not_is_continuation_byte(rb, i - start);
            }
            let (piece, tail) = rest.split_at(i - start);
            let ghost tb = tail.spec_bytes();
            proof {
                assert(tb[0] == sep);
                encode_utf8_valid_utf8(tail@);
                assert(is_char_boundary(tb, 1)) by {
                    reveal_with_fuel(is_char_boundary, 2);
                };
            }
            let (_sep, tail2) = tail.split_at(1);
            proof {
                assert(piece.spec_bytes() =~= all.subrange(start as int, i as int));
                assert(tail2.spec_bytes() =~= all.subrange(i + 1, all.len() as int));
                assert(all.subrange(i + 1, i + 1) =~= seq![]);
            }
            out.push(piece);
            rest = tail2;
            start = i + 1;
        } else {
            proof {
                assert(all.subrange(start as int, i + 1) =~= all.subrange(start as int, i as int).push(all[i as int]));
            }
        }
        i = i + 1;
    }
    proof {
        assert(all.take(i as int) =~= all);
    }
    out.push(rest);
    out
}

} // verus!
