//! The assemble/disassemble round trip: a container produced by the
//! assembler always disassembles, and re-assembling the disassembled text
//! reproduces the container byte for byte, with no warnings.
//!
//! The proof factors through `body_ok`, a well-formedness predicate on the
//! emitted instruction bytes: every pair decodes through the table back to
//! the mnemonic that encoded it, and the structural flags step through the
//! pairs exactly as the validation state machine stepped through the
//! statements that emitted them.

use crate::ascii::{HASH, LF, PERCENT, SEMI, SLASH, SP};
use crate::compiler::{
    container, init_asm, lex_line, lex_stmts, run_lines, run_stmt, run_stmts, spec_compile,
    stmt_arg, stmt_mnemonic, AsmModel, StmtModel,
};
use crate::decompiler::{decode_from, render_stmt, spec_decompile};
use crate::errors::{DecompilerError, ErrModel, WarningModel};
use crate::lexer::{
    collapse_from, comment_at, comment_cut_from, find_from, is_digit_b,
    is_lower_b, is_space_b, is_upper_b, lemma_print_parse, mixed_case, skip_spaces_from,
    split_from, split_on, strip_comment, to_lower, to_lower_b, trim, trim_end_from, u8_dec,
};
use crate::table::{
    lemma_opcode_identifies, lemma_table_round_trip, spec_instruction_data, spec_instruction_name,
};
use vstd::prelude::*;

verus! {

/// The three structural flags of the validation state machine.
pub struct StructFlags {
    pub started: bool,
    pub ended: bool,
    pub in_loop: bool,
}

/// The flags of an assembler state.
pub open spec fn flags_of(st: AsmModel) -> StructFlags {
    StructFlags { started: st.started, ended: st.ended, in_loop: st.in_loop }
}

/// The flags before any statement has been processed.
pub open spec fn init_flags() -> StructFlags {
    StructFlags { started: false, ended: false, in_loop: false }
}

/// How one emitted opcode steps the structural flags.
pub open spec fn step_flags(f: StructFlags, c: u8) -> StructFlags {
    StructFlags {
        started: f.started || c == 0x01u8,
        ended: f.ended || (c == 0xFFu8 && f.started),
        in_loop: if c == 0xC0u8 {
            true
        } else if c == 0xC1u8 {
            false
        } else {
            f.in_loop
        },
    }
}

/// The loop-marker discipline an emitted opcode obeys at flags `f`.
pub open spec fn loop_ok(f: StructFlags, c: u8) -> bool {
    (c == 0xC0u8 ==> !f.in_loop) && (c == 0xC1u8 ==> f.in_loop)
}

/// An emitted `(opcode, operand)` pair: the opcode decodes to a mnemonic
/// that encodes back to this very opcode, and an instruction that takes no
/// operand carries the operand byte zero.
pub open spec fn pair_ok(c: u8, a: u8) -> bool {
    match spec_instruction_name(c) {
        None => false,
        Some((name, needs)) => spec_instruction_data(name) == Some((c, needs)) && (!needs ==> a
            == 0),
    }
}

/// A well-formed emitted body taking the structural flags from `f0` to
/// `f1`: a sequence of well-formed pairs obeying the loop discipline.
pub open spec fn body_ok(body: Seq<u8>, f0: StructFlags, f1: StructFlags) -> bool
    decreases body.len(),
{
    if body.len() == 0 {
        f1 == f0
    } else if body.len() == 1 {
        false
    } else {
        pair_ok(body[0], body[1]) && loop_ok(f0, body[0]) && body_ok(
            body.skip(2),
            step_flags(f0, body[0]),
            f1,
        )
    }
}

/// A well-formed body has even length.
pub proof fn lemma_body_ok_even(body: Seq<u8>, f0: StructFlags, f1: StructFlags)
    requires
        body_ok(body, f0, f1),
    ensures
        body.len() % 2 == 0,
    decreases body.len(),
{
    if body.len() >= 2 {
        lemma_body_ok_even(body.skip(2), step_flags(f0, body[0]), f1);
    }
}

/// Appending one well-formed pair to a well-formed body keeps it well
/// formed and steps the final flags.
pub proof fn lemma_body_ok_append(body: Seq<u8>, f0: StructFlags, f1: StructFlags, c: u8, a: u8)
    requires
        body_ok(body, f0, f1),
        pair_ok(c, a),
        loop_ok(f1, c),
    ensures
        body_ok(body + seq![c, a], f0, step_flags(f1, c)),
    decreases body.len(),
{
    if body.len() == 0 {
        assert(f1 == f0);
        assert(body + seq![c, a] =~= seq![c, a]);
        assert((body + seq![c, a]).skip(2) =~= Seq::<u8>::empty());
        assert(body_ok(
            (body + seq![c, a]).skip(2),
            step_flags(f0, c),
            step_flags(f1, c),
        ));
        assert((body + seq![c, a])[0] == c && (body + seq![c, a])[1] == a);
    } else if body.len() == 1 {
        assert(false);
    } else {
        assert(pair_ok(body[0], body[1]) && loop_ok(f0, body[0]));
        lemma_body_ok_append(body.skip(2), step_flags(f0, body[0]), f1, c, a);
        assert((body + seq![c, a]).skip(2) =~= body.skip(2) + seq![c, a]);
        assert((body + seq![c, a])[0] == body[0]);
        assert((body + seq![c, a])[1] == body[1]);
        assert(body_ok(
            (body + seq![c, a]).skip(2),
            step_flags(f0, (body + seq![c, a])[0]),
            step_flags(f1, c),
        ));
    }
}

/// A state whose body is well formed from the initial flags to its own.
pub open spec fn state_wf(st: AsmModel) -> bool {
    body_ok(st.body, init_flags(), flags_of(st))
}

/// One accepted statement either leaves the state unchanged (a discard
/// under `optimize`) or appends one well-formed pair and steps the flags.
pub proof fn lemma_run_stmt_wf(st: AsmModel, stmt: StmtModel, st2: AsmModel, optimize: bool)
    requires
        run_stmt(st, stmt, optimize) == Ok::<AsmModel, ErrModel>(st2),
        state_wf(st),
    ensures
        state_wf(st2),
        st2.warnings.len() >= st.warnings.len(),
{
    let m_raw = stmt_mnemonic(stmt.text);
    let m = to_lower(m_raw);
    match spec_instruction_data(m) {
        None => {},
        Some((opcode, needs)) => {
            lemma_opcode_identifies(m, opcode, needs);
            lemma_table_round_trip(m, opcode, needs);
            if st2.body != st.body {
                assert(pair_ok(opcode, st2.body[st.body.len() as int + 1]));
                assert(loop_ok(flags_of(st), opcode));
                assert(flags_of(st2) == step_flags(flags_of(st), opcode));
                lemma_body_ok_append(
                    st.body,
                    init_flags(),
                    flags_of(st),
                    opcode,
                    st2.body[st.body.len() as int + 1],
                );
                assert(st.body + seq![opcode, st2.body[st.body.len() as int + 1]] =~= st2.body);
            }
        },
    }
}

/// Running the statements of a line preserves body well-formedness.
pub proof fn lemma_run_stmts_wf(st: AsmModel, stmts: Seq<StmtModel>, st2: AsmModel, optimize: bool)
    requires
        run_stmts(st, stmts, optimize) == Ok::<AsmModel, ErrModel>(st2),
        state_wf(st),
    ensures
        state_wf(st2),
    decreases stmts.len(),
{
    if stmts.len() != 0 {
        let st1 = run_stmt(st, stmts.first(), optimize)->Ok_0;
        lemma_run_stmt_wf(st, stmts.first(), st1, optimize);
        lemma_run_stmts_wf(st1, stmts.drop_first(), st2, optimize);
    }
}

/// Running the state machine over the lines preserves body
/// well-formedness.
pub proof fn lemma_run_lines_wf(
    st: AsmModel,
    lines: Seq<Seq<u8>>,
    i: int,
    st2: AsmModel,
    optimize: bool,
)
    requires
        run_lines(st, lines, i, optimize) == Ok::<AsmModel, ErrModel>(st2),
        state_wf(st),
    ensures
        state_wf(st2),
    decreases lines.len() - i,
{
    if i >= lines.len() {
    } else if st.ended && optimize {
    } else {
        match lex_line(lines[i], i + 1) {
            Err(_) => {},
            Ok(stmts) => {
                let st1 = run_stmts(st, stmts, optimize)->Ok_0;
                lemma_run_stmts_wf(st, stmts, st1, optimize);
                lemma_run_lines_wf(st1, lines, i + 1, st2, optimize);
            },
        }
    }
}

/// The text that decoding a body yields: the rendered statements of its
/// pairs, in order.
pub open spec fn render_body(body: Seq<u8>) -> Seq<u8>
    decreases body.len(),
{
    if body.len() < 2 {
        Seq::empty()
    } else {
        match spec_instruction_name(body[0]) {
            None => Seq::empty(),
            Some((name, needs)) => render_stmt(name, needs, body[1]) + render_body(body.skip(2)),
        }
    }
}

/// Decoding a well-formed body succeeds and yields its rendered text.
pub proof fn lemma_decode_body(data: Seq<u8>, i: int, f0: StructFlags, f1: StructFlags)
    requires
        0 <= i <= data.len(),
        body_ok(data.skip(i), f0, f1),
    ensures
        decode_from(data, i) == Ok::<Seq<u8>, DecompilerError>(render_body(data.skip(i))),
    decreases data.len() - i,
{
    let rest = data.skip(i);
    if i + 2 > data.len() {
        if rest.len() == 1 {
            assert(false);
        }
        assert(rest.len() == 0);
    } else {
        assert(rest[0] == data[i] && rest[1] == data[i + 1]);
        assert(pair_ok(data[i], data[i + 1]) && body_ok(
            rest.skip(2),
            step_flags(f0, data[i]),
            f1,
        ));
        assert(data.skip(i + 2) =~= rest.skip(2));
        lemma_decode_body(data, i + 2, step_flags(f0, data[i]), f1);
    }
}

/// Every mnemonic in the decode table is three lower-case letters.
pub proof fn lemma_name_shape(c: u8, name: Seq<u8>, needs: bool)
    requires
        spec_instruction_name(c) == Some((name, needs)),
    ensures
        name.len() == 3,
        is_lower_b(name[0]),
        is_lower_b(name[1]),
        is_lower_b(name[2]),
{
}

/// A rendered operand is one to three decimal digits.
pub proof fn lemma_u8_dec_shape(n: u8)
    ensures
        1 <= u8_dec(n).len() <= 3,
        forall|k: int| 0 <= k < u8_dec(n).len() ==> is_digit_b(u8_dec(n)[k]),
{
}

/// A byte that may appear in a rendered statement before its semicolon: a
/// lower-case letter, a decimal digit, or a single space.
pub open spec fn plain_b(b: u8) -> bool {
    is_lower_b(b) || is_digit_b(b) || b == SP
}

/// The canonical statement text of one pair, without its terminating
/// semicolon: the mnemonic, then a space and the decimal operand when the
/// instruction takes one.
pub open spec fn canon_stem(c: u8, a: u8) -> Seq<u8> {
    match spec_instruction_name(c) {
        None => Seq::empty(),
        Some((name, needs)) => if needs {
            name + seq![SP] + u8_dec(a)
        } else {
            name
        },
    }
}

/// The canonical source line of one pair: its stem followed by `;`.
pub open spec fn unit_line(c: u8, a: u8) -> Seq<u8> {
    canon_stem(c, a) + seq![SEMI]
}

/// The stem of a well-formed pair is plain text: at least the three
/// mnemonic letters, no leading, trailing or doubled whitespace.
pub proof fn lemma_stem_shape(c: u8, a: u8)
    requires
        pair_ok(c, a),
    ensures
        canon_stem(c, a).len() >= 3,
        forall|k: int| 0 <= k < canon_stem(c, a).len() ==> plain_b(#[trigger] canon_stem(c, a)[k]),
        !is_space_b(canon_stem(c, a)[0]),
        !is_space_b(canon_stem(c, a)[canon_stem(c, a).len() - 1]),
        forall|k: int|
            0 <= k < canon_stem(c, a).len() - 1 ==> !(is_space_b(#[trigger] canon_stem(c, a)[k])
                && is_space_b(canon_stem(c, a)[k + 1])),
{
    let (name, needs) = spec_instruction_name(c)->Some_0;
    lemma_name_shape(c, name, needs);
    lemma_u8_dec_shape(a);
    let s = canon_stem(c, a);
    if needs {
        let d = u8_dec(a);
        assert(s == name + seq![SP] + d);
        assert forall|k: int| 0 <= k < s.len() implies plain_b(#[trigger] s[k]) by {
            if k < 3 {
                assert(s[k] == name[k]);
            } else if k == 3 {
                assert(s[k] == SP);
            } else {
                assert(s[k] == d[k - 4]);
            }
        }
        assert(s[0] == name[0]);
        assert(s[s.len() - 1] == d[d.len() - 1]);
        assert forall|k: int| 0 <= k < s.len() - 1 implies !(is_space_b(#[trigger] s[k])
            && is_space_b(s[k + 1])) by {
            if k < 3 {
                assert(s[k] == name[k]);
            } else if k == 3 {
                assert(s[k + 1] == d[0]);
            } else {
                assert(s[k] == d[k - 4]);
            }
        }
    } else {
        assert(s == name);
        assert forall|k: int| 0 <= k < s.len() implies plain_b(#[trigger] s[k]) by {
            assert(s[k] == name[k]);
        }
    }
}

/// A sequence without comment-marker bytes has no comment.
pub proof fn lemma_no_comment(s: Seq<u8>, i: int)
    requires
        0 <= i <= s.len(),
        forall|k: int| 0 <= k < s.len() ==> (#[trigger] s[k]) != HASH && s[k] != PERCENT && s[k]
            != SLASH,
    ensures
        comment_cut_from(s, i) == s.len(),
    decreases s.len() - i,
{
    if i < s.len() {
        assert(!comment_at(s, i));
        lemma_no_comment(s, i + 1);
    }
}

/// Trimming a sequence that neither starts nor ends with whitespace
/// changes nothing.
pub proof fn lemma_trim_id(s: Seq<u8>)
    requires
        s.len() > 0,
        !is_space_b(s[0]),
        !is_space_b(s[s.len() - 1]),
    ensures
        trim(s) == s,
{
    assert(skip_spaces_from(s, 0) == 0);
    assert(trim_end_from(s, s.len() as int) == s.len());
    assert(s.subrange(0, s.len() as int) =~= s);
}

/// Collapsing whitespace in a sequence whose only whitespace is single,
/// undoubled spaces changes nothing.
pub proof fn lemma_collapse_id(s: Seq<u8>, i: int)
    requires
        0 <= i <= s.len(),
        forall|k: int| 0 <= k < s.len() ==> (is_space_b(#[trigger] s[k]) ==> s[k] == SP),
        forall|k: int|
            0 <= k < s.len() - 1 ==> !(is_space_b(#[trigger] s[k]) && is_space_b(s[k + 1])),
    ensures
        collapse_from(s, i) == s.skip(i),
    decreases s.len() - i,
{
    if i >= s.len() {
        assert(s.skip(i) =~= Seq::<u8>::empty());
    } else {
        lemma_collapse_id(s, i + 1);
        if is_space_b(s[i]) {
            assert(seq![SP] + s.skip(i + 1) =~= s.skip(i));
        } else {
            assert(seq![s[i]] + s.skip(i + 1) =~= s.skip(i));
        }
    }
}

/// `find_from` finds the first occurrence: if nothing before `p` matches
/// and `p` matches or is the end, the answer is `p`.
pub proof fn lemma_find_at(s: Seq<u8>, sep: u8, i: int, p: int)
    requires
        0 <= i <= p <= s.len(),
        forall|k: int| i <= k < p ==> (#[trigger] s[k]) != sep,
        p == s.len() || s[p] == sep,
    ensures
        find_from(s, sep, i) == p,
    decreases p - i,
{
    if i < p {
        lemma_find_at(s, sep, i + 1, p);
    }
}

/// `split_from` expressed structurally on the remaining sequence.
pub open spec fn split_seq(s: Seq<u8>, sep: u8, cur: Seq<u8>) -> Seq<Seq<u8>>
    decreases s.len(),
{
    if s.len() == 0 {
        seq![cur]
    } else if s[0] == sep {
        seq![cur] + split_seq(s.skip(1), sep, Seq::empty())
    } else {
        split_seq(s.skip(1), sep, cur.push(s[0]))
    }
}

/// The index-based and the structural split agree.
pub proof fn lemma_split_from_seq(s: Seq<u8>, sep: u8, i: int, cur: Seq<u8>)
    requires
        0 <= i <= s.len(),
    ensures
        split_from(s, sep, i, cur) == split_seq(s.skip(i), sep, cur),
    decreases s.len() - i,
{
    if i >= s.len() {
        assert(s.skip(i) =~= Seq::<u8>::empty());
    } else {
        assert(s.skip(i)[0] == s[i]);
        assert(s.skip(i).skip(1) =~= s.skip(i + 1));
        if s[i] == sep {
            lemma_split_from_seq(s, sep, i + 1, Seq::empty());
        } else {
            lemma_split_from_seq(s, sep, i + 1, cur.push(s[i]));
        }
    }
}

/// Splitting `u ++ [sep] ++ rest`, with no separator in `u`, closes the
/// fragment `cur ++ u` and goes on with `rest`.
pub proof fn lemma_split_seq_concat(u: Seq<u8>, sep: u8, rest: Seq<u8>, cur: Seq<u8>)
    requires
        forall|k: int| 0 <= k < u.len() ==> (#[trigger] u[k]) != sep,
    ensures
        split_seq(u + seq![sep] + rest, sep, cur) == seq![cur + u] + split_seq(
            rest,
            sep,
            Seq::empty(),
        ),
    decreases u.len(),
{
    let s = u + seq![sep] + rest;
    if u.len() == 0 {
        assert(s[0] == sep);
        assert(s.skip(1) =~= rest);
        assert(cur + u =~= cur);
    } else {
        assert(s[0] == u[0]);
        assert(s.skip(1) =~= u.skip(1) + seq![sep] + rest);
        lemma_split_seq_concat(u.skip(1), sep, rest, cur.push(u[0]));
        assert(cur.push(u[0]) + u.skip(1) =~= cur + u);
    }
}

/// Lexing the canonical source line of a well-formed pair yields exactly
/// one statement: its stem, unchanged.
pub proof fn lemma_lex_unit(c: u8, a: u8, lineno: int)
    requires
        pair_ok(c, a),
    ensures
        lex_line(unit_line(c, a), lineno) == Ok::<Seq<StmtModel>, ErrModel>(
            seq![StmtModel { line: lineno, text: canon_stem(c, a) }],
        ),
{
    let stem = canon_stem(c, a);
    let line = unit_line(c, a);
    lemma_stem_shape(c, a);
    assert forall|k: int| 0 <= k < line.len() implies (#[trigger] line[k]) != HASH && line[k]
        != PERCENT && line[k] != SLASH by {
        if k < stem.len() {
            assert(line[k] == stem[k] && plain_b(stem[k]));
        } else {
            assert(line[k] == SEMI);
        }
    }
    lemma_no_comment(line, 0);
    assert(strip_comment(line) =~= line);
    assert(line.len() > 0);
    lemma_split_from_seq(line, SEMI, 0, Seq::empty());
    assert(line.skip(0) =~= line);
    assert forall|k: int| 0 <= k < stem.len() implies (#[trigger] stem[k]) != SEMI by {
        assert(plain_b(stem[k]));
    }
    assert(line =~= stem + seq![SEMI] + Seq::<u8>::empty());
    lemma_split_seq_concat(stem, SEMI, Seq::<u8>::empty(), Seq::<u8>::empty());
    assert(split_seq(Seq::<u8>::empty(), SEMI, Seq::<u8>::empty()) == seq![Seq::<u8>::empty()]);
    assert(Seq::<u8>::empty() + stem =~= stem);
    let frags = split_on(line, SEMI);
    assert(frags =~= seq![stem, Seq::<u8>::empty()]);
    assert(frags.last() == Seq::<u8>::empty());
    assert(trim(Seq::<u8>::empty()) == Seq::<u8>::empty());
    lemma_trim_id(stem);
    lemma_collapse_id(stem, 0);
    assert(stem.skip(0) =~= stem);
    assert(frags.first() == stem);
    assert(frags.drop_first() =~= seq![Seq::<u8>::empty()]);
    assert(seq![Seq::<u8>::empty()].first() == Seq::<u8>::empty());
    assert(seq![Seq::<u8>::empty()].drop_first() =~= Seq::<Seq<u8>>::empty());
    assert(lex_stmts(Seq::<Seq<u8>>::empty(), lineno) == Seq::<StmtModel>::empty());
    assert(lex_stmts(seq![Seq::<u8>::empty()], lineno) == Seq::<StmtModel>::empty());
    assert(lex_stmts(frags, lineno) =~= seq![StmtModel { line: lineno, text: stem }]);
}

/// Running the canonical statement of a well-formed pair from any state
/// whose flags admit it emits exactly that pair, steps the flags, and
/// collects no warning.
pub proof fn lemma_run_stmt_unit(st: AsmModel, c: u8, a: u8, lineno: int)
    requires
        pair_ok(c, a),
        loop_ok(flags_of(st), c),
    ensures
        run_stmt(st, StmtModel { line: lineno, text: canon_stem(c, a) }, false) == Ok::<
            AsmModel,
            ErrModel,
        >(
            AsmModel {
                started: step_flags(flags_of(st), c).started,
                ended: step_flags(flags_of(st), c).ended,
                in_loop: step_flags(flags_of(st), c).in_loop,
                body: st.body + seq![c, a],
                warnings: st.warnings,
            },
        ),
{
    let (name, needs) = spec_instruction_name(c)->Some_0;
    lemma_name_shape(c, name, needs);
    lemma_u8_dec_shape(a);
    lemma_stem_shape(c, a);
    let stem = canon_stem(c, a);
    if needs {
        assert forall|k: int| 0 <= k < 3 implies (#[trigger] stem[k]) != SP by {
            assert(stem[k] == name[k]);
        }
        assert(stem[3] == SP);
        lemma_find_at(stem, SP, 0, 3);
        assert(stmt_mnemonic(stem) =~= name);
        assert(stmt_arg(stem) == Some(stem.skip(4)));
        assert(stem.skip(4) =~= u8_dec(a));
        lemma_print_parse(a);
    } else {
        assert(stem == name);
        assert forall|k: int| 0 <= k < stem.len() implies (#[trigger] stem[k]) != SP by {
            assert(is_lower_b(name[k]));
        }
        lemma_find_at(stem, SP, 0, stem.len() as int);
        assert(stmt_mnemonic(stem) =~= name);
        assert(stmt_arg(stem) is None);
    }
    assert forall|k: int| 0 <= k < name.len() implies !is_upper_b(#[trigger] name[k]) by {
        assert(is_lower_b(name[k]));
    }
    assert(!mixed_case(name));
    assert forall|k: int| 0 <= k < name.len() implies to_lower(name)[k] == name[k] by {
        assert(to_lower(name)[k] == to_lower_b(name[k]));
        assert(is_lower_b(name[k]));
    }
    assert(to_lower(name) =~= name);
    lemma_opcode_identifies(name, c, needs);
}

/// The canonical source lines of the pairs of a body, in order.
pub open spec fn body_lines(body: Seq<u8>) -> Seq<Seq<u8>>
    decreases body.len(),
{
    if body.len() < 2 {
        Seq::empty()
    } else {
        seq![unit_line(body[0], body[1])] + body_lines(body.skip(2))
    }
}

/// Splitting the rendered text of a well-formed body on newlines yields
/// its canonical lines, followed by one empty line.
pub proof fn lemma_render_split_seq(body: Seq<u8>, f0: StructFlags, f1: StructFlags)
    requires
        body_ok(body, f0, f1),
    ensures
        split_seq(render_body(body), LF, Seq::<u8>::empty()) == body_lines(body) + seq![
            Seq::<u8>::empty(),
        ],
    decreases body.len(),
{
    if body.len() == 0 {
        assert(render_body(body) == Seq::<u8>::empty());
        assert(split_seq(Seq::<u8>::empty(), LF, Seq::<u8>::empty()) == seq![Seq::<u8>::empty()]);
        assert(body_lines(body) + seq![Seq::<u8>::empty()] =~= seq![Seq::<u8>::empty()]);
    } else if body.len() == 1 {
        assert(false);
    } else {
        let c = body[0];
        let a = body[1];
        assert(pair_ok(c, a));
        let (name, needs) = spec_instruction_name(c)->Some_0;
        lemma_stem_shape(c, a);
        let u = unit_line(c, a);
        assert(render_stmt(name, needs, a) =~= u + seq![LF]);
        assert(render_body(body) =~= u + seq![LF] + render_body(body.skip(2)));
        assert forall|k: int| 0 <= k < u.len() implies (#[trigger] u[k]) != LF by {
            if k < canon_stem(c, a).len() {
                assert(u[k] == canon_stem(c, a)[k] && plain_b(u[k]));
            } else {
                assert(u[k] == SEMI);
            }
        }
        lemma_split_seq_concat(u, LF, render_body(body.skip(2)), Seq::<u8>::empty());
        lemma_render_split_seq(body.skip(2), step_flags(f0, c), f1);
        assert(Seq::<u8>::empty() + u =~= u);
        assert(seq![u] + (body_lines(body.skip(2)) + seq![Seq::<u8>::empty()]) =~= body_lines(
            body,
        ) + seq![Seq::<u8>::empty()]);
    }
}

/// Re-running the assembler over the canonical lines of a well-formed
/// body, followed by the final empty line, emits exactly that body again,
/// ends at the body's final flags, and collects no warning.
pub proof fn lemma_replay(
    lines: Seq<Seq<u8>>,
    i: int,
    body: Seq<u8>,
    st: AsmModel,
    f1: StructFlags,
)
    requires
        0 <= i <= lines.len(),
        lines.skip(i) == body_lines(body) + seq![Seq::<u8>::empty()],
        body_ok(body, flags_of(st), f1),
    ensures
        run_lines(st, lines, i, false) == Ok::<AsmModel, ErrModel>(
            AsmModel {
                started: f1.started,
                ended: f1.ended,
                in_loop: f1.in_loop,
                body: st.body + body,
                warnings: st.warnings,
            },
        ),
    decreases body.len(),
{
    assert(lines.skip(i).len() >= 1);
    assert(i < lines.len());
    if body.len() == 0 {
        assert(lines.skip(i).len() == 1);
        assert(i + 1 == lines.len());
        assert(lines[i] == lines.skip(i)[0]);
        assert(lines[i] == Seq::<u8>::empty());
        assert(comment_cut_from(Seq::<u8>::empty(), 0) == 0);
        assert(strip_comment(lines[i]) =~= Seq::<u8>::empty());
        assert(lex_line(lines[i], i + 1) == Ok::<Seq<StmtModel>, ErrModel>(
            Seq::<StmtModel>::empty(),
        ));
        assert(run_stmts(st, Seq::<StmtModel>::empty(), false) == Ok::<AsmModel, ErrModel>(st));
        assert(run_lines(st, lines, i + 1, false) == Ok::<AsmModel, ErrModel>(st));
        assert(st.body + body =~= st.body);
        assert(AsmModel {
            started: f1.started,
            ended: f1.ended,
            in_loop: f1.in_loop,
            body: st.body + body,
            warnings: st.warnings,
        } =~= st);
    } else if body.len() == 1 {
        assert(false);
    } else {
        let c = body[0];
        let a = body[1];
        assert(pair_ok(c, a) && loop_ok(flags_of(st), c));
        assert(lines[i] == lines.skip(i)[0]);
        assert(body_lines(body)[0] == unit_line(c, a));
        assert(lines[i] == unit_line(c, a));
        lemma_lex_unit(c, a, i + 1);
        lemma_run_stmt_unit(st, c, a, i + 1);
        let st2 = AsmModel {
            started: step_flags(flags_of(st), c).started,
            ended: step_flags(flags_of(st), c).ended,
            in_loop: step_flags(flags_of(st), c).in_loop,
            body: st.body + seq![c, a],
            warnings: st.warnings,
        };
        let stmts = seq![StmtModel { line: i + 1, text: canon_stem(c, a) }];
        assert(stmts.first() == StmtModel { line: i + 1, text: canon_stem(c, a) });
        assert(stmts.drop_first() =~= Seq::<StmtModel>::empty());
        assert(run_stmts(st2, Seq::<StmtModel>::empty(), false) == Ok::<AsmModel, ErrModel>(st2));
        assert(run_stmts(st, stmts, false) == Ok::<AsmModel, ErrModel>(st2));
        assert(lines.skip(i + 1) =~= lines.skip(i).skip(1));
        assert(lines.skip(i).skip(1) =~= body_lines(body.skip(2)) + seq![Seq::<u8>::empty()]);
        assert(flags_of(st2) == step_flags(flags_of(st), c));
        assert(body_ok(body.skip(2), flags_of(st2), f1));
        lemma_replay(lines, i + 1, body.skip(2), st2, f1);
        assert(st2.body + body.skip(2) =~= st.body + body);
        assert(AsmModel {
            started: f1.started,
            ended: f1.ended,
            in_loop: f1.in_loop,
            body: st2.body + body.skip(2),
            warnings: st2.warnings,
        } =~= AsmModel {
            started: f1.started,
            ended: f1.ended,
            in_loop: f1.in_loop,
            body: st.body + body,
            warnings: st.warnings,
        });
    }
}

/// The round trip: a container assembled (without optimization) from any
/// accepted script always disassembles, and assembling the disassembled
/// text again reproduces the very same container, with no warnings — the
/// disassembly names exactly the instruction sequence that was encoded.
pub proof fn lemma_round_trip(lines: Seq<Seq<u8>>, bytes: Seq<u8>, warns: Seq<WarningModel>)
    requires
        spec_compile(lines, false) == Ok::<(Seq<u8>, Seq<WarningModel>), ErrModel>((bytes, warns)),
    ensures
        spec_decompile(bytes) is Ok,
        spec_compile(split_on(spec_decompile(bytes)->Ok_0, LF), false) == Ok::<
            (Seq<u8>, Seq<WarningModel>),
            ErrModel,
        >((bytes, Seq::<WarningModel>::empty())),
{
    let st = run_lines(init_asm(), lines, 0, false)->Ok_0;
    assert(body_ok(init_asm().body, init_flags(), flags_of(init_asm())));
    lemma_run_lines_wf(init_asm(), lines, 0, st, false);
    let body = st.body;
    let fend = flags_of(st);
    assert(fend == StructFlags { started: true, ended: true, in_loop: false });
    let total = body.len() + 2;
    assert(total <= 65535);
    assert(bytes == container(body));
    lemma_body_ok_even(body, init_flags(), fend);
    assert(bytes.len() == total);
    assert(bytes[0] == (total / 256) as u8 && bytes[1] == (total % 256) as u8);
    assert(total / 256 <= 255 && total % 256 <= 255);
    assert((total / 256) * 256 + total % 256 == total) by (nonlinear_arith);
    assert(bytes[0] * 256 + bytes[1] == bytes.len());
    assert(bytes.skip(2) =~= body);
    lemma_decode_body(bytes, 2, init_flags(), fend);
    let text = render_body(body);
    assert(spec_decompile(bytes) == Ok::<Seq<u8>, DecompilerError>(text));
    lemma_split_from_seq(text, LF, 0, Seq::<u8>::empty());
    assert(text.skip(0) =~= text);
    lemma_render_split_seq(body, init_flags(), fend);
    let newlines = split_on(text, LF);
    assert(newlines.skip(0) =~= newlines);
    assert(flags_of(init_asm()) == init_flags());
    lemma_replay(newlines, 0, body, init_asm(), fend);
    let fin_st = run_lines(init_asm(), newlines, 0, false)->Ok_0;
    assert(fin_st.body =~= body);
    assert(fin_st.started && fin_st.ended && !fin_st.in_loop);
    assert(fin_st.warnings =~= Seq::<WarningModel>::empty());
    assert(container(fin_st.body) == bytes);
}

} // verus!
