//! The disassembler: validates the container's length header, decodes the
//! `(opcode, operand)` byte pairs through the instruction table, and
//! renders one semicolon-terminated statement per line.
//!
//! The whole translation is specified by `spec_decompile`; `decompile` is
//! proved to return exactly what the model says, for every input.

use crate::ascii::{LF, SEMI, SP};
use crate::errors::DecompilerError;
use crate::lexer::{append_bytes, u8_dec, u8_dec_exec};
use crate::table::{instruction_name, spec_instruction_name};
use vstd::prelude::*;

verus! {

/// The rendered text of one decoded instruction: the mnemonic, a space and
/// the decimal operand when the instruction takes one, then `;` and a
/// newline. The operand byte of an instruction that takes none is ignored.
pub open spec fn render_stmt(name: Seq<u8>, needs: bool, arg: u8) -> Seq<u8> {
    if needs {
        name + seq![SP] + u8_dec(arg) + seq![SEMI, LF]
    } else {
        name + seq![SEMI, LF]
    }
}

/// The text decoded from the byte pairs of `data` at and after position
/// `i`, or the first unknown opcode.
pub open spec fn decode_from(data: Seq<u8>, i: int) -> Result<Seq<u8>, DecompilerError>
    decreases data.len() - i,
{
    if i < 0 || i + 2 > data.len() {
        Ok(Seq::empty())
    } else {
        match spec_instruction_name(data[i]) {
            None => Err(DecompilerError::UnknownInstruction(data[i])),
            Some((name, needs)) => match decode_from(data, i + 2) {
                Err(e) => Err(e),
                Ok(rest) => Ok(render_stmt(name, needs, data[i + 1]) + rest),
            },
        }
    }
}

/// The complete disassembler: the container must be at least two bytes,
/// of even length, and its big-endian length header must equal its actual
/// length; the byte pairs after the header are then decoded in order.
pub open spec fn spec_decompile(data: Seq<u8>) -> Result<Seq<u8>, DecompilerError> {
    if data.len() < 2 || data.len() % 2 == 1 {
        Err(DecompilerError::FileFormat)
    } else if data[0] * 256 + data[1] != data.len() {
        Err(DecompilerError::FileFormat)
    } else {
        decode_from(data, 2)
    }
}

/// Disassembles a binary container into mnemonic text, exactly as
/// `spec_decompile` describes. A container that is shorter than its
/// header, has odd length, or declares a length other than its actual
/// length is rejected as `FileFormat`; an opcode outside the table is
/// rejected as `UnknownInstruction`.
#[verifier::loop_isolation(false)]
pub fn decompile(data: &Vec<u8>) -> (r: Result<Vec<u8>, DecompilerError>)
    ensures
        match r {
            Ok(text) => spec_decompile(data@) == Ok::<Seq<u8>, DecompilerError>(text@),
            Err(e) => spec_decompile(data@) == Err::<Seq<u8>, DecompilerError>(e),
        },
        data@.len() < 2 || data@.len() % 2 == 1 || data@[0] * 256 + data@[1] != data@.len()
            ==> (r matches Err(e) && e == DecompilerError::FileFormat),
{
    let n = data.len();
    if n < 2 || n % 2 == 1 {
        return Err(DecompilerError::FileFormat);
    }
    let declared: usize = (data[0] as usize) * 256 + (data[1] as usize);
    if declared != n {
        return Err(DecompilerError::FileFormat);
    }
    let mut out: Vec<u8> = Vec::new();
    let mut i: usize = 2;
    proof {
        assert(out@ + decode_from(data@, 2)->Ok_0 =~= decode_from(data@, 2)->Ok_0);
    }
    while i + 2 <= n
        invariant
            2 <= i <= n,
            i % 2 == 0,
            match decode_from(data@, i as int) {
                Ok(rest) => decode_from(data@, 2) == Ok::<Seq<u8>, DecompilerError>(out@ + rest),
                Err(e) => decode_from(data@, 2) == Err::<Seq<u8>, DecompilerError>(e),
            },
        decreases n - i,
    {
        let opcode = data[i];
        let arg = data[i + 1];
        match instruction_name(opcode) {
            None => {
                return Err(DecompilerError::UnknownInstruction(opcode));
            },
            Some((name, needs)) => {
                let ghost prev = out@;
                append_bytes(&mut out, name.as_slice());
                if needs {
                    out.push(SP);
                    let dec = u8_dec_exec(arg);
                    append_bytes(&mut out, dec.as_slice());
                }
                out.push(SEMI);
                out.push(LF);
                proof {
                    assert(out@ =~= prev + render_stmt(name@, needs, arg));
                    match decode_from(data@, i + 2) {
                        Ok(rest2) => {
                            assert(prev + (render_stmt(name@, needs, arg) + rest2) =~= out@
                                + rest2);
                        },
                        Err(_) => {},
                    }
                }
            },
        }
        i = i + 2;
    }
    proof {
        assert(i == n);
        assert(decode_from(data@, n as int) == Ok::<Seq<u8>, DecompilerError>(
            Seq::<u8>::empty(),
        ));
        assert(out@ + Seq::<u8>::empty() =~= out@);
    }
    Ok(out)
}

} // verus!
