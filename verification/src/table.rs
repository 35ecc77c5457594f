//! The instruction table: a fixed bidirectional mapping between mnemonics
//! and `(opcode, has_operand)` pairs. Opcodes are unique on the encode side;
//! the decode side additionally accepts `0x61` as an alias for the `mar`
//! opcode `0x60`, so a flipped low bit still disassembles.

use crate::ascii::{
    L_A, L_B, L_C, L_D, L_E, L_F, L_G, L_I, L_L, L_M, L_N, L_O, L_R, L_S, L_T, L_V,
};
use vstd::prelude::*;

verus! {

/// The byte sequence `[a, b, c]`: every mnemonic is three bytes long.
pub open spec fn mn(a: u8, b: u8, c: u8) -> Seq<u8> {
    seq![a, b, c]
}

/// Does `m` spell exactly the three bytes `a`, `b`, `c`?
pub open spec fn is3(m: Seq<u8>, a: u8, b: u8, c: u8) -> bool {
    m.len() == 3 && m[0] == a && m[1] == b && m[2] == c
}

/// Encode-side lookup: the opcode and operand requirement of a mnemonic,
/// or `None` if the mnemonic is not in the table.
pub open spec fn spec_instruction_data(m: Seq<u8>) -> Option<(u8, bool)> {
    if is3(m, L_D, L_B, L_T) {
        Some((0x01u8, false))  // dbt
    } else if is3(m, L_A, L_T, L_T) {
        Some((0x02u8, true))  // att
    } else if is3(m, L_D, L_A, L_L) {
        Some((0x44u8, true))  // dal
    } else if is3(m, L_D, L_E, L_T) {
        Some((0x45u8, false))  // det
    } else if is3(m, L_S, L_G, L_O) {
        Some((0x48u8, true))  // sgo
    } else if is3(m, L_S, L_A, L_R) {
        Some((0x09u8, false))  // sar
    } else if is3(m, L_M, L_A, L_R) {
        Some((0x60u8, false))  // mar
    } else if is3(m, L_M, L_A, L_V) {
        Some((0x62u8, true))  // mav
    } else if is3(m, L_M, L_R, L_E) {
        Some((0x63u8, true))  // mre
    } else if is3(m, L_T, L_R, L_D) {
        Some((0x64u8, false))  // trd
    } else if is3(m, L_T, L_R, L_G) {
        Some((0x65u8, false))  // trg
    } else if is3(m, L_D, L_B, L_C) {
        Some((0xC0u8, true))  // dbc
    } else if is3(m, L_F, L_B, L_C) {
        Some((0xC1u8, false))  // fbc
    } else if is3(m, L_F, L_I, L_N) {
        Some((0xFFu8, false))  // fin
    } else {
        None
    }
}

/// Decode-side lookup: the mnemonic and operand requirement of an opcode,
/// or `None` if the opcode is not in the table.
pub open spec fn spec_instruction_name(code: u8) -> Option<(Seq<u8>, bool)> {
    if code == 0x01u8 {
        Some((mn(L_D, L_B, L_T), false))  // dbt
    } else if code == 0x02u8 {
        Some((mn(L_A, L_T, L_T), true))  // att
    } else if code == 0x44u8 {
        Some((mn(L_D, L_A, L_L), true))  // dal
    } else if code == 0x45u8 {
        Some((mn(L_D, L_E, L_T), false))  // det
    } else if code == 0x48u8 {
        Some((mn(L_S, L_G, L_O), true))  // sgo
    } else if code == 0x09u8 {
        Some((mn(L_S, L_A, L_R), false))  // sar
    } else if code == 0x60u8 {
        Some((mn(L_M, L_A, L_R), false))  // mar
    } else if code == 0x61u8 {
        Some((mn(L_M, L_A, L_R), false))  // mar, low-bit alias
    } else if code == 0x62u8 {
        Some((mn(L_M, L_A, L_V), true))  // mav
    } else if code == 0x63u8 {
        Some((mn(L_M, L_R, L_E), true))  // mre
    } else if code == 0x64u8 {
        Some((mn(L_T, L_R, L_D), false))  // trd
    } else if code == 0x65u8 {
        Some((mn(L_T, L_R, L_G), false))  // trg
    } else if code == 0xC0u8 {
        Some((mn(L_D, L_B, L_C), true))  // dbc
    } else if code == 0xC1u8 {
        Some((mn(L_F, L_B, L_C), false))  // fbc
    } else if code == 0xFFu8 {
        Some((mn(L_F, L_I, L_N), false))  // fin
    } else {
        None
    }
}

/// The program start marker.
pub open spec fn mn_dbt() -> Seq<u8> {
    mn(L_D, L_B, L_T)
}

/// The program end marker.
pub open spec fn mn_fin() -> Seq<u8> {
    mn(L_F, L_I, L_N)
}

/// The loop begin marker.
pub open spec fn mn_dbc() -> Seq<u8> {
    mn(L_D, L_B, L_C)
}

/// The loop end marker.
pub open spec fn mn_fbc() -> Seq<u8> {
    mn(L_F, L_B, L_C)
}

/// Within the table, each of the four structural mnemonics is recognized
/// exactly by its opcode.
pub proof fn lemma_opcode_identifies(m: Seq<u8>, code: u8, needs: bool)
    requires
        spec_instruction_data(m) == Some((code, needs)),
    ensures
        (m == mn_dbt()) <==> (code == 0x01u8),
        (m == mn_fin()) <==> (code == 0xFFu8),
        (m == mn_dbc()) <==> (code == 0xC0u8),
        (m == mn_fbc()) <==> (code == 0xC1u8),
{
    assert(mn_dbt()[0] == L_D && mn_dbt()[1] == L_B && mn_dbt()[2] == L_T);
    assert(mn_fin()[0] == L_F && mn_fin()[1] == L_I && mn_fin()[2] == L_N);
    assert(mn_dbc()[0] == L_D && mn_dbc()[1] == L_B && mn_dbc()[2] == L_C);
    assert(mn_fbc()[0] == L_F && mn_fbc()[1] == L_B && mn_fbc()[2] == L_C);
    if is3(m, L_D, L_B, L_T) {
        assert(m =~= mn_dbt());
    } else if is3(m, L_F, L_I, L_N) {
        assert(m =~= mn_fin());
    } else if is3(m, L_D, L_B, L_C) {
        assert(m =~= mn_dbc());
    } else if is3(m, L_F, L_B, L_C) {
        assert(m =~= mn_fbc());
    }
}

/// Name-to-code-to-name round trip: decoding the opcode of any known
/// mnemonic yields that same mnemonic with the same operand requirement.
pub proof fn lemma_table_round_trip(m: Seq<u8>, code: u8, needs: bool)
    requires
        spec_instruction_data(m) == Some((code, needs)),
    ensures
        spec_instruction_name(code) == Some((m, needs)),
{
    if is3(m, L_D, L_B, L_T) {
        assert(m =~= mn(L_D, L_B, L_T));
    } else if is3(m, L_A, L_T, L_T) {
        assert(m =~= mn(L_A, L_T, L_T));
    } else if is3(m, L_D, L_A, L_L) {
        assert(m =~= mn(L_D, L_A, L_L));
    } else if is3(m, L_D, L_E, L_T) {
        assert(m =~= mn(L_D, L_E, L_T));
    } else if is3(m, L_S, L_G, L_O) {
        assert(m =~= mn(L_S, L_G, L_O));
    } else if is3(m, L_S, L_A, L_R) {
        assert(m =~= mn(L_S, L_A, L_R));
    } else if is3(m, L_M, L_A, L_R) {
        assert(m =~= mn(L_M, L_A, L_R));
    } else if is3(m, L_M, L_A, L_V) {
        assert(m =~= mn(L_M, L_A, L_V));
    } else if is3(m, L_M, L_R, L_E) {
        assert(m =~= mn(L_M, L_R, L_E));
    } else if is3(m, L_T, L_R, L_D) {
        assert(m =~= mn(L_T, L_R, L_D));
    } else if is3(m, L_T, L_R, L_G) {
        assert(m =~= mn(L_T, L_R, L_G));
    } else if is3(m, L_D, L_B, L_C) {
        assert(m =~= mn(L_D, L_B, L_C));
    } else if is3(m, L_F, L_B, L_C) {
        assert(m =~= mn(L_F, L_B, L_C));
    } else if is3(m, L_F, L_I, L_N) {
        assert(m =~= mn(L_F, L_I, L_N));
    }
}

/// Encode-side lookup over a byte slice.
pub fn instruction_data(op: &[u8]) -> (r: Option<(u8, bool)>)
    ensures
        r == spec_instruction_data(op@),
{
    if op.len() != 3 {
        return None;
    }
    let a = op[0];
    let b = op[1];
    let c = op[2];
    if a == L_D && b == L_B && c == L_T {
        Some((0x01u8, false))
    } else if a == L_A && b == L_T && c == L_T {
        Some((0x02u8, true))
    } else if a == L_D && b == L_A && c == L_L {
        Some((0x44u8, true))
    } else if a == L_D && b == L_E && c == L_T {
        Some((0x45u8, false))
    } else if a == L_S && b == L_G && c == L_O {
        Some((0x48u8, true))
    } else if a == L_S && b == L_A && c == L_R {
        Some((0x09u8, false))
    } else if a == L_M && b == L_A && c == L_R {
        Some((0x60u8, false))
    } else if a == L_M && b == L_A && c == L_V {
        Some((0x62u8, true))
    } else if a == L_M && b == L_R && c == L_E {
        Some((0x63u8, true))
    } else if a == L_T && b == L_R && c == L_D {
        Some((0x64u8, false))
    } else if a == L_T && b == L_R && c == L_G {
        Some((0x65u8, false))
    } else if a == L_D && b == L_B && c == L_C {
        Some((0xC0u8, true))
    } else if a == L_F && b == L_B && c == L_C {
        Some((0xC1u8, false))
    } else if a == L_F && b == L_I && c == L_N {
        Some((0xFFu8, false))
    } else {
        None
    }
}

/// Builds the three-byte mnemonic `[a, b, c]`.
fn mnemonic_vec(a: u8, b: u8, c: u8) -> (r: Vec<u8>)
    ensures
        r@ == mn(a, b, c),
{
    let mut v: Vec<u8> = Vec::new();
    v.push(a);
    v.push(b);
    v.push(c);
    proof {
        assert(v@ =~= mn(a, b, c));
    }
    v
}

/// Decode-side lookup over an opcode byte.
pub fn instruction_name(code: u8) -> (r: Option<(Vec<u8>, bool)>)
    ensures
        match r {
            Some((name, needs)) => spec_instruction_name(code) == Some((name@, needs)),
            None => spec_instruction_name(code) is None,
        },
{
    if code == 0x01u8 {
        Some((mnemonic_vec(L_D, L_B, L_T), false))
    } else if code == 0x02u8 {
        Some((mnemonic_vec(L_A, L_T, L_T), true))
    } else if code == 0x44u8 {
        Some((mnemonic_vec(L_D, L_A, L_L), true))
    } else if code == 0x45u8 {
        Some((mnemonic_vec(L_D, L_E, L_T), false))
    } else if code == 0x48u8 {
        Some((mnemonic_vec(L_S, L_G, L_O), true))
    } else if code == 0x09u8 {
        Some((mnemonic_vec(L_S, L_A, L_R), false))
    } else if code == 0x60u8 {
        Some((mnemonic_vec(L_M, L_A, L_R), false))
    } else if code == 0x61u8 {
        Some((mnemonic_vec(L_M, L_A, L_R), false))
    } else if code == 0x62u8 {
        Some((mnemonic_vec(L_M, L_A, L_V), true))
    } else if code == 0x63u8 {
        Some((mnemonic_vec(L_M, L_R, L_E), true))
    } else if code == 0x64u8 {
        Some((mnemonic_vec(L_T, L_R, L_D), false))
    } else if code == 0x65u8 {
        Some((mnemonic_vec(L_T, L_R, L_G), false))
    } else if code == 0xC0u8 {
        Some((mnemonic_vec(L_D, L_B, L_C), true))
    } else if code == 0xC1u8 {
        Some((mnemonic_vec(L_F, L_B, L_C), false))
    } else if code == 0xFFu8 {
        Some((mnemonic_vec(L_F, L_I, L_N), false))
    } else {
        None
    }
}

} // verus!
