//! The assembler: lexing of semicolon-terminated statements, the
//! per-statement validation state machine, and the encoder that produces
//! the length-prefixed binary container.
//!
//! The whole translation is specified by `spec_compile`, a mathematical
//! model of the pipeline over sequences of byte lines; `compile` is proved
//! to return exactly what the model says, for every input.

use crate::ascii::SP;
use crate::ascii::SEMI;
use crate::errors::{CompilerError, ErrModel, Warning, WarningModel};
use crate::lexer::{
    collapse_bytes, collapse_spaces, comment_cut, comment_cut_from, copy_bytes, find_byte,
    find_from, mixed_case, mixed_case_exec, parse_u8, parse_u8_exec, split_bytes, split_on,
    strip_comment, subvec, to_lower, to_lower_exec, trim, trim_bytes,
};
use crate::table::{
    instruction_data, lemma_opcode_identifies, mn_dbc, mn_dbt, mn_fbc, mn_fin,
    spec_instruction_data,
};
use vstd::prelude::*;

verus! {

/// One lexed statement: its 1-based source line and its text with
/// whitespace collapsed.
pub struct Stmt {
    pub line: usize,
    pub text: Vec<u8>,
}

/// The mathematical view of a `Stmt`.
pub struct StmtModel {
    pub line: int,
    pub text: Seq<u8>,
}

impl View for Stmt {
    type V = StmtModel;

    open spec fn view(&self) -> StmtModel {
        StmtModel { line: self.line as int, text: self.text@ }
    }
}

/// The mnemonic of a statement: its text up to the first space.
pub open spec fn stmt_mnemonic(text: Seq<u8>) -> Seq<u8> {
    text.take(find_from(text, SP, 0))
}

/// The argument of a statement: everything after the first space, or
/// `None` when the statement is a bare mnemonic.
pub open spec fn stmt_arg(text: Seq<u8>) -> Option<Seq<u8>> {
    if find_from(text, SP, 0) < text.len() {
        Some(text.skip(find_from(text, SP, 0) + 1))
    } else {
        None
    }
}

/// The statements of the already split fragments of one line: each fragment
/// is trimmed, empty fragments are dropped, and whitespace is collapsed.
pub open spec fn lex_stmts(frags: Seq<Seq<u8>>, lineno: int) -> Seq<StmtModel>
    decreases frags.len(),
{
    if frags.len() == 0 {
        Seq::empty()
    } else {
        let t = trim(frags.first());
        let rest = lex_stmts(frags.drop_first(), lineno);
        if t.len() == 0 {
            rest
        } else {
            seq![StmtModel { line: lineno, text: collapse_spaces(t) }] + rest
        }
    }
}

/// The statements of one raw source line: the comment is stripped, an
/// entirely empty line yields no statements, and otherwise the line is
/// split on semicolons, whose last fragment must be empty — every
/// instruction must end with a semicolon.
pub open spec fn lex_line(line: Seq<u8>, lineno: int) -> Result<Seq<StmtModel>, ErrModel> {
    let stripped = strip_comment(line);
    if stripped.len() == 0 {
        Ok(Seq::empty())
    } else {
        let frags = split_on(stripped, SEMI);
        let tail = trim(frags.last());
        if tail.len() > 0 {
            Err(ErrModel::LackSemiColon(lineno, tail))
        } else {
            Ok(lex_stmts(frags, lineno))
        }
    }
}

/// The assembler's running state: the three structural flags, the encoded
/// instruction bytes (container header excluded), and the collected
/// warnings.
#[verifier::ext_equal]
pub struct AsmModel {
    pub started: bool,
    pub ended: bool,
    pub in_loop: bool,
    pub body: Seq<u8>,
    pub warnings: Seq<WarningModel>,
}

/// The state before any statement has been processed.
pub open spec fn init_asm() -> AsmModel {
    AsmModel {
        started: false,
        ended: false,
        in_loop: false,
        body: Seq::empty(),
        warnings: Seq::empty(),
    }
}

/// The executable assembler state.
pub struct AsmState {
    pub started: bool,
    pub ended: bool,
    pub in_loop: bool,
    pub body: Vec<u8>,
    pub warnings: Vec<Warning>,
}

impl View for AsmState {
    type V = AsmModel;

    open spec fn view(&self) -> AsmModel {
        AsmModel {
            started: self.started,
            ended: self.ended,
            in_loop: self.in_loop,
            body: self.body@,
            warnings: self.warnings@.map_values(|w: Warning| w@),
        }
    }
}

/// One step of the validation state machine. In order: the mnemonic must
/// not mix cases; folded to lower case it must be in the table; under
/// `optimize`, statements outside the live region and redundant restarts
/// are discarded; `dbt` starts the program and `fin` ends a started one;
/// loop markers must alternate; a required operand must parse as an
/// integer in `[0, 255]`, and a superfluous one is discarded with a
/// warning. A kept statement appends its `(opcode, operand)` byte pair.
pub open spec fn run_stmt(st: AsmModel, stmt: StmtModel, optimize: bool) -> Result<
    AsmModel,
    ErrModel,
> {
    let m_raw = stmt_mnemonic(stmt.text);
    if mixed_case(m_raw) {
        Err(ErrModel::CaseError(stmt.line, m_raw))
    } else {
        let m = to_lower(m_raw);
        match spec_instruction_data(m) {
            None => Err(ErrModel::UnknownInstruction(stmt.line, stmt.text)),
            Some((opcode, needs)) => {
                if optimize && (!st.started || st.ended) && m != mn_dbt() {
                    Ok(st)
                } else if m == mn_dbt() && st.started && optimize {
                    Ok(st)
                } else {
                    let started = st.started || m == mn_dbt();
                    let ended = st.ended || (m == mn_fin() && started);
                    if m == mn_dbc() && st.in_loop {
                        Err(ErrModel::MultipleLoop(stmt.line))
                    } else if m == mn_fbc() && !st.in_loop {
                        Err(ErrModel::NoLoop(stmt.line))
                    } else {
                        let in_loop = if m == mn_dbc() {
                            true
                        } else if m == mn_fbc() {
                            false
                        } else {
                            st.in_loop
                        };
                        let st1 = AsmModel { started, ended, in_loop, ..st };
                        match stmt_arg(stmt.text) {
                            None => if needs {
                                Err(ErrModel::MissingOperand(stmt.line, m))
                            } else {
                                Ok(AsmModel { body: st1.body + seq![opcode, 0u8], ..st1 })
                            },
                            Some(a) => if needs {
                                match parse_u8(a) {
                                    None => Err(ErrModel::InvalidOperand(stmt.line, m, a)),
                                    Some(v) => Ok(
                                        AsmModel { body: st1.body + seq![opcode, v], ..st1 },
                                    ),
                                }
                            } else {
                                Ok(
                                    AsmModel {
                                        body: st1.body + seq![opcode, 0u8],
                                        warnings: st1.warnings + seq![
                                            WarningModel { line: stmt.line, mnemonic: m },
                                        ],
                                        ..st1
                                    },
                                )
                            },
                        }
                    }
                }
            },
        }
    }
}

/// Runs the state machine over the statements of one line, in order,
/// stopping at the first error.
pub open spec fn run_stmts(st: AsmModel, stmts: Seq<StmtModel>, optimize: bool) -> Result<
    AsmModel,
    ErrModel,
> decreases stmts.len(),
{
    if stmts.len() == 0 {
        Ok(st)
    } else {
        match run_stmt(st, stmts.first(), optimize) {
            Err(e) => Err(e),
            Ok(st1) => run_stmts(st1, stmts.drop_first(), optimize),
        }
    }
}

/// Runs the state machine over the lines from index `i` on. Under
/// `optimize`, reading stops as soon as the program has ended: trailing
/// lines are not even lexed.
pub open spec fn run_lines(st: AsmModel, lines: Seq<Seq<u8>>, i: int, optimize: bool) -> Result<
    AsmModel,
    ErrModel,
> decreases lines.len() - i,
{
    if i >= lines.len() {
        Ok(st)
    } else if st.ended && optimize {
        Ok(st)
    } else {
        match lex_line(lines[i], i + 1) {
            Err(e) => Err(e),
            Ok(stmts) => match run_stmts(st, stmts, optimize) {
                Err(e) => Err(e),
                Ok(st1) => run_lines(st1, lines, i + 1, optimize),
            },
        }
    }
}

/// The binary container holding `body`: a big-endian 16-bit total length
/// (header included) followed by the instruction byte pairs.
pub open spec fn container(body: Seq<u8>) -> Seq<u8> {
    let total = body.len() + 2;
    seq![(total / 256) as u8, (total % 256) as u8] + body
}

/// The complete assembler: runs the state machine over all lines, then
/// checks that the program started, ended, and closed its loop, and that
/// the container length fits its 16-bit header.
pub open spec fn spec_compile(lines: Seq<Seq<u8>>, optimize: bool) -> Result<
    (Seq<u8>, Seq<WarningModel>),
    ErrModel,
> {
    match run_lines(init_asm(), lines, 0, optimize) {
        Err(e) => Err(e),
        Ok(st) => if !st.started {
            Err(ErrModel::MissingStart)
        } else if !st.ended {
            Err(ErrModel::MissingEnd)
        } else if st.in_loop {
            Err(ErrModel::MissingLoopEnd)
        } else if st.body.len() + 2 > 65535 {
            Err(ErrModel::Overflow)
        } else {
            Ok((container(st.body), st.warnings))
        },
    }
}

/// Lexes one raw source line into its statements.
pub fn lex_line_exec(line: &Vec<u8>, lineno: usize) -> (r: Result<Vec<Stmt>, CompilerError>)
    ensures
        match r {
            Ok(v) => lex_line(line@, lineno as int) == Ok::<Seq<StmtModel>, ErrModel>(
                v@.map_values(|s: Stmt| s@),
            ),
            Err(e) => lex_line(line@, lineno as int) == Err::<Seq<StmtModel>, ErrModel>(e@),
        },
{
    let cut = comment_cut(line.as_slice());
    let stripped = subvec(line.as_slice(), 0, cut);
    proof {
        assert(stripped@ =~= strip_comment(line@));
    }
    if stripped.len() == 0 {
        let empty: Vec<Stmt> = Vec::new();
        proof {
            assert(empty@.map_values(|s: Stmt| s@) =~= Seq::<StmtModel>::empty());
        }
        return Ok(empty);
    }
    let frags = split_bytes(stripped.as_slice(), SEMI);
    let ghost fm = split_on(stripped@, SEMI);
    let tail = trim_bytes(frags[frags.len() - 1].as_slice());
    proof {
        assert(fm[fm.len() - 1] == frags@.map_values(|v: Vec<u8>| v@)[fm.len() - 1]);
    }
    if tail.len() > 0 {
        return Err(CompilerError::LackSemiColon(lineno, tail));
    }
    let mut out: Vec<Stmt> = Vec::new();
    let mut j: usize = 0;
    proof {
        assert(fm.skip(0) =~= fm);
        assert(out@.map_values(|s: Stmt| s@) =~= Seq::<StmtModel>::empty());
    }
    while j < frags.len()
        invariant
            0 <= j <= frags@.len(),
            fm == frags@.map_values(|v: Vec<u8>| v@),
            lex_stmts(fm, lineno as int) == out@.map_values(|s: Stmt| s@) + lex_stmts(
                fm.skip(j as int),
                lineno as int,
            ),
        decreases frags@.len() - j,
    {
        let ghost prev = out@;
        proof {
            assert(fm.skip(j as int).first() == fm[j as int]);
            assert(fm.skip(j as int).drop_first() =~= fm.skip(j + 1));
            assert(fm[j as int] == frags@.map_values(|v: Vec<u8>| v@)[j as int]);
        }
        let t = trim_bytes(frags[j].as_slice());
        if t.len() > 0 {
            let c = collapse_bytes(t.as_slice());
            out.push(Stmt { line: lineno, text: c });
            proof {
                assert(out@.map_values(|s: Stmt| s@) =~= prev.map_values(|s: Stmt| s@) + seq![
                    out@[out@.len() - 1]@,
                ]);
            }
        }
        j = j + 1;
    }
    proof {
        assert(fm.skip(frags@.len() as int) =~= Seq::<Seq<u8>>::empty());
        assert(lex_stmts(fm, lineno as int) =~= out@.map_values(|s: Stmt| s@));
    }
    Ok(out)
}

/// Runs one statement through the validation state machine, updating the
/// assembler state in place.
pub fn run_stmt_exec(st: &mut AsmState, stmt: &Stmt, optimize: bool) -> (r: Result<
    (),
    CompilerError,
>)
    ensures
        match r {
            Ok(_) => run_stmt(old(st)@, stmt@, optimize) == Ok::<AsmModel, ErrModel>(final(st)@),
            Err(e) => run_stmt(old(st)@, stmt@, optimize) == Err::<AsmModel, ErrModel>(e@),
        },
{
    let text = &stmt.text;
    let msp = find_byte(text.as_slice(), SP);
    let m_raw = subvec(text.as_slice(), 0, msp);
    proof {
        assert(m_raw@ =~= stmt_mnemonic(text@));
    }
    if mixed_case_exec(m_raw.as_slice()) {
        return Err(CompilerError::CaseError(stmt.line, m_raw));
    }
    let m = to_lower_exec(m_raw.as_slice());
    let looked = instruction_data(m.as_slice());
    if looked.is_none() {
        return Err(CompilerError::UnknownInstruction(stmt.line, copy_bytes(text.as_slice())));
    }
    let (opcode, needs) = looked.unwrap();
    proof {
        lemma_opcode_identifies(m@, opcode, needs);
    }
    let is_dbt = opcode == 0x01u8;
    if optimize && (!st.started || st.ended) && !is_dbt {
        return Ok(());
    }
    if is_dbt && st.started && optimize {
        return Ok(());
    }
    if is_dbt {
        st.started = true;
    }
    if opcode == 0xFFu8 && st.started {
        st.ended = true;
    }
    if opcode == 0xC0u8 {
        if st.in_loop {
            return Err(CompilerError::MultipleLoop(stmt.line));
        }
        st.in_loop = true;
    }
    if opcode == 0xC1u8 {
        if !st.in_loop {
            return Err(CompilerError::NoLoop(stmt.line));
        }
        st.in_loop = false;
    }
    let ghost pre_body = st.body@;
    let ghost pre_warnings = st.warnings@;
    if needs {
        if msp >= text.len() {
            return Err(CompilerError::MissingOperand(stmt.line, m));
        }
        let argv = subvec(text.as_slice(), msp + 1, text.len());
        proof {
            assert(argv@ =~= stmt_arg(text@)->Some_0);
        }
        match parse_u8_exec(argv.as_slice()) {
            None => {
                return Err(CompilerError::InvalidOperand(stmt.line, m, argv));
            },
            Some(v) => {
                st.body.push(opcode);
                st.body.push(v);
                proof {
                    assert(st.body@ =~= pre_body + seq![opcode, v]);
                }
            },
        }
    } else {
        if msp < text.len() {
            st.warnings.push(Warning { line: stmt.line, mnemonic: m });
            proof {
                assert(st.warnings@.map_values(|w: Warning| w@) =~= pre_warnings.map_values(
                    |w: Warning| w@,
                ) + seq![st.warnings@[st.warnings@.len() - 1]@]);
            }
        }
        st.body.push(opcode);
        st.body.push(0);
        proof {
            assert(st.body@ =~= pre_body + seq![opcode, 0u8]);
        }
    }
    Ok(())
}

/// The result of a successful assembly: the binary container and the
/// collected warnings.
#[derive(Debug)]
pub struct CompileOutput {
    pub bytes: Vec<u8>,
    pub warnings: Vec<Warning>,
}

/// Assembles the source lines into a binary container, exactly as
/// `spec_compile` describes: `Ok` with the container and the collected
/// warnings on precisely the inputs the model accepts, and the model's
/// error on all others.
#[verifier::loop_isolation(false)]
pub fn compile(lines: &Vec<Vec<u8>>, optimize: bool) -> (r: Result<CompileOutput, CompilerError>)
    ensures
        match r {
            Ok(out) => spec_compile(lines.deep_view(), optimize) == Ok::<
                (Seq<u8>, Seq<WarningModel>),
                ErrModel,
            >((out.bytes@, out.warnings@.map_values(|w: Warning| w@))),
            Err(e) => spec_compile(lines.deep_view(), optimize) == Err::<
                (Seq<u8>, Seq<WarningModel>),
                ErrModel,
            >(e@),
        },
{
    let ghost ls = lines.deep_view();
    let mut st = AsmState {
        started: false,
        ended: false,
        in_loop: false,
        body: Vec::new(),
        warnings: Vec::new(),
    };
    proof {
        assert(st@.body =~= init_asm().body);
        assert(st@.warnings =~= init_asm().warnings);
        assert(st@ == init_asm());
    }
    let n = lines.len();
    let mut i: usize = 0;
    while i < n && !(optimize && st.ended)
        invariant
            0 <= i <= n == lines@.len(),
            ls == lines.deep_view(),
            run_lines(init_asm(), ls, 0, optimize) == run_lines(st@, ls, i as int, optimize),
        decreases n - i,
    {
        proof {
            assert(ls[i as int] =~= lines@[i as int]@);
        }
        let stmts = match lex_line_exec(&lines[i], i + 1) {
            Ok(v) => v,
            Err(e) => {
                proof {
                    assert(run_lines(st@, ls, i as int, optimize) == Err::<AsmModel, ErrModel>(
                        e@,
                    ));
                }
                return Err(e);
            },
        };
        let ghost sm = stmts@.map_values(|s: Stmt| s@);
        let ghost st0 = st@;
        let mut j: usize = 0;
        proof {
            assert(sm.skip(0) =~= sm);
            assert(run_lines(init_asm(), ls, 0, optimize) == run_lines(
                st0,
                ls,
                i as int,
                optimize,
            ));
        }
        while j < stmts.len()
            invariant
                0 <= j <= stmts@.len(),
                sm == stmts@.map_values(|s: Stmt| s@),
                run_stmts(st0, sm, optimize) == run_stmts(st@, sm.skip(j as int), optimize),
            decreases stmts@.len() - j,
        {
            proof {
                assert(sm.skip(j as int).first() == sm[j as int]);
                assert(sm.skip(j as int).drop_first() =~= sm.skip(j + 1));
                assert(sm[j as int] == stmts@.map_values(|s: Stmt| s@)[j as int]);
            }
            match run_stmt_exec(&mut st, &stmts[j], optimize) {
                Ok(_) => {},
                Err(e) => {
                    proof {
                        assert(run_stmts(st0, sm, optimize) == Err::<AsmModel, ErrModel>(e@));
                        assert(run_lines(st0, ls, i as int, optimize) == Err::<
                            AsmModel,
                            ErrModel,
                        >(e@));
                    }
                    return Err(e);
                },
            }
            j = j + 1;
        }
        proof {
            assert(sm.skip(stmts@.len() as int) =~= Seq::<StmtModel>::empty());
            assert(run_stmts(st0, sm, optimize) == Ok::<AsmModel, ErrModel>(st@));
            assert(run_lines(st0, ls, i as int, optimize) == run_lines(
                st@,
                ls,
                i + 1,
                optimize,
            ));
        }
        i = i + 1;
    }
    proof {
        assert(run_lines(st@, ls, i as int, optimize) == Ok::<AsmModel, ErrModel>(st@));
    }
    if !st.started {
        return Err(CompilerError::MissingStart);
    }
    if !st.ended {
        return Err(CompilerError::MissingEnd);
    }
    if st.in_loop {
        return Err(CompilerError::MissingLoopEnd);
    }
    if st.body.len() > 65533 {
        return Err(CompilerError::Overflow);
    }
    let total = st.body.len() + 2;
    let mut bytes: Vec<u8> = Vec::new();
    bytes.push((total / 256) as u8);
    bytes.push((total % 256) as u8);
    let m = st.body.len();
    let mut k: usize = 0;
    while k < m
        invariant
            0 <= k <= m == st.body@.len() <= 65533,
            total == st.body@.len() + 2,
            bytes@ == seq![((total / 256) as u8), ((total % 256) as u8)] + st.body@.take(k as int),
        decreases m - k,
    {
        bytes.push(st.body[k]);
        proof {
            assert(st.body@.take(k + 1) =~= st.body@.take(k as int).push(st.body@[k as int]));
            assert(bytes@ =~= seq![((total / 256) as u8), ((total % 256) as u8)] + st.body@.take(
                k + 1,
            ));
        }
        k = k + 1;
    }
    proof {
        assert(st.body@.take(m as int) =~= st.body@);
        assert(bytes@ =~= container(st.body@));
    }
    Ok(CompileOutput { bytes, warnings: st.warnings })
}

} // verus!
