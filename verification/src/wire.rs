//! The wire command format: a six-byte task identifier, one separator
//! byte, then a semicolon-separated argument payload.

use vstd::prelude::*;
use vstd::utf8::*;
use crate::codec::{split_byte, split_byte_exec, take_range};

verus! {

/// What `String::from_utf8_lossy` returns on the given bytes: a function
/// of the bytes alone.
pub uninterp spec fn lossy_of(b: Seq<u8>) -> Seq<char>;

/// Relies on `String::from_utf8_lossy`: the result depends on the bytes
/// alone, and is their decoding whenever they are valid UTF-8; invalid
/// sequences are replaced, not rejected.
#[verifier::external_body]
fn lossy_to_string(bytes: &Vec<u8>) -> (r: String)
    ensures
        r@ == lossy_of(bytes@),
        valid_utf8(bytes@) ==> r@ == decode_utf8(bytes@),
{
    String::from_utf8_lossy(bytes).into_owned()
}

/// The arguments carried by a command payload: the payload split on the
/// semicolon byte, every token but the last kept and decoded. A
/// well-formed payload ends its argument list with a semicolon, so the
/// dropped token holds only what trailed it in the read buffer; a payload
/// without that trailing semicolon loses its last argument.
pub open spec fn wire_args(payload: Seq<u8>) -> Seq<Seq<char>> {
    split_byte(payload, 59).drop_last().map_values(|t: Seq<u8>| lossy_of(t))
}

/// A parsed command: the six identifier bytes and the argument tokens.
pub struct Command {
    pub task: Vec<u8>,
    pub args: Vec<String>,
}

/// Reads one command buffer: bytes 0 to 5 name the task, byte 6 is a
/// separator, and the bytes from offset 7 carry the arguments.
pub fn parse_command(buffer: &[u8]) -> (c: Command)
    requires
        buffer@.len() >= 7,
    ensures
        c.task@ == buffer@.subrange(0, 6),
        c.args.deep_view() == wire_args(buffer@.skip(7)),
{
    let task = take_range(buffer, 0, 6);
    let payload = take_range(buffer, 7, buffer.len());
    proof {
        assert(payload@ =~= buffer@.skip(7));
    }
    let tokens = split_byte_exec(payload.as_slice(), 59);
    let ghost toks = split_byte(payload@, 59);
    proof {
        assert(toks.len() >= 1);
        assert(tokens@.len() == toks.len());
    }
    let mut args: Vec<String> = Vec::new();
    let m = tokens.len() - 1;
    let ghost kept = wire_args(buffer@.skip(7));
    proof {
        assert(kept.len() == m as int);
    }
    let mut i: usize = 0;
    while i < m
        invariant
            0 <= i <= m,
            m == tokens@.len() - 1,
            toks == tokens@.map_values(|v: Vec<u8>| v@),
            kept == toks.drop_last().map_values(|t: Seq<u8>| lossy_of(t)),
            kept.len() == m as int,
            args.deep_view() == kept.take(i as int),
        decreases m - i,
    {
        let s = lossy_to_string(&tokens[i]);
        proof {
            assert(tokens@[i as int]@ == toks[i as int]);
            assert(kept[i as int] == lossy_of(toks[i as int])) by {
                assert(toks.drop_last()[i as int] == toks[i as int]);
            }
        }
        let ghost prev = args.deep_view();
        args.push(s);
        proof {
            assert(args.deep_view() =~= prev.push(s@));
            assert(args.deep_view() =~= kept.take(i as int + 1));
        }
        i = i + 1;
    }
    proof {
        assert(kept.take(m as int) =~= kept);
    }
    Command { task, args }
}

} // verus!
