//! jitvm: a toy language with a bytecode interpreter and an x86-64 code
//! generator. Source text goes through the lexer, the parser and the
//! lowering into stack bytecode; the bytecode runs on the interpreter or is
//! turned into machine code.

pub mod ast;
pub mod heap;
pub mod interp;
pub mod ir;
pub mod jit;
pub mod jit_sem;
pub mod lexer;
pub mod lowered;
pub mod parser;
pub mod repl;
pub mod text;
pub mod value;
pub mod x86;
pub mod x86_model;

use crate::ast::{span_text, Span};
use crate::interp::{run_ok, Run};
use crate::ir::SProgram;
use crate::lexer::{lex_err_msg, spec_tokenize, toks_view, Token};
use crate::parser::{spec_parse, wf_toks};
use crate::text::{concat, concat_lit, lit};
use vstd::prelude::*;
use vstd::string::StringSliceAdditionalSpecFns;

verus! {

/// Errors of every stage. Each carries its message text; a runtime error
/// may also carry the source position of the op that faulted.
#[derive(Debug)]
pub enum Error {
    Parse(String),
    Runtime(String, Option<Span>),
    Codegen(String),
    Io(String),
}

pub type Result<T> = std::result::Result<T, Error>;

/// The text of a runtime error: with a known position,
/// "runtime error at line N, col M: msg", else "runtime error: msg".
pub open spec fn runtime_text(m: Seq<char>, sp: Option<Span>) -> Seq<char> {
    match sp {
        Some(s) => if s.line != 0 {
            "runtime error at "@ + span_text(s) + ": "@ + m
        } else {
            "runtime error: "@ + m
        },
        None => "runtime error: "@ + m,
    }
}

impl Error {
    /// A runtime error without a source position.
    pub fn runtime(msg: &str) -> (e: Error)
        ensures
            e matches Error::Runtime(m, None) && m@ == msg@,
    {
        Error::Runtime(lit(msg), None)
    }

    /// A runtime error at the source position `span`.
    pub fn runtime_at(msg: String, span: Span) -> (e: Error)
        ensures
            e matches Error::Runtime(m, Some(s)) && m@ == msg@ && s == span,
    {
        Error::Runtime(msg, Some(span))
    }

    pub fn is_runtime(&self) -> (b: bool)
        ensures
            b == (self is Runtime),
    {
        match self {
            Error::Runtime(..) => true,
            _ => false,
        }
    }

    /// The message as it is shown to a user.
    pub fn to_string(&self) -> (s: String)
        ensures
            s@ == match self {
                Error::Parse(m) => "parse error: "@ + m@,
                Error::Runtime(m, sp) => runtime_text(m@, *sp),
                Error::Codegen(m) => "codegen error: "@ + m@,
                Error::Io(m) => "io: "@ + m@,
            },
    {
        match self {
            Error::Parse(m) => concat(lit("parse error: "), m),
            Error::Runtime(m, sp) => match sp {
                Some(s) => {
                    if s.is_known() {
                        let t = concat(lit("runtime error at "), &s.to_string());
                        let t = concat_lit(t, ": ");
                        concat(t, m)
                    } else {
                        concat(lit("runtime error: "), m)
                    }
                },
                None => concat(lit("runtime error: "), m),
            },
            Error::Codegen(m) => concat(lit("codegen error: "), m),
            Error::Io(m) => concat(lit("io: "), m),
        }
    }
}


/// Source text to bytecode: lexing, parsing, lowering; the first error
/// stops it.
pub open spec fn spec_load(b: Seq<u8>) -> std::result::Result<SProgram, Seq<char>> {
    match spec_front(b) {
        Err(m) => Err(m),
        Ok(ts) => spec_back(ts),
    }
}

/// Source text to tokens.
pub open spec fn spec_front(b: Seq<u8>) -> std::result::Result<Seq<crate::lexer::SToken>, Seq<char>> {
    if b.len() >= u32::MAX - 1 {
        Err("source too long"@)
    } else {
        match spec_tokenize(b) {
            Err(e) => Err(lex_err_msg(e)),
            Ok(ts) => if !wf_toks(ts) {
                Err("token stream without end"@)
            } else if ts.len() >= usize::MAX {
                Err("source too long"@)
            } else {
                Ok(ts)
            },
        }
    }
}

/// Tokens to bytecode.
pub open spec fn spec_back(ts: Seq<crate::lexer::SToken>) -> std::result::Result<SProgram, Seq<char>> {
    match spec_parse(ts) {
        Err(m) => Err(m),
        Ok(fs) => match crate::ir::spec_lower(fs) {
            Err(m) => Err(m),
            Ok((funcs, main_id, pool)) => Ok(SProgram { fns: funcs, main_id: main_id as u32, pool }),
        },
    }
}

/// Whether the token stream ends with `Eof`.
fn ends_with_eof(toks: &Vec<Token>) -> (b: bool)
    ensures
        b == wf_toks(toks_view(toks@)),
{
    let n = toks.len();
    if n == 0 {
        return false;
    }
    match toks[n - 1].tok {
        crate::lexer::Tok::Eof => true,
        _ => false,
    }
}

fn front(src: &str) -> (r: Result<Vec<Token>>)
    ensures
        match spec_front(src.spec_bytes()) {
            Ok(ts) => r matches Ok(t) && toks_view(t@) == ts && t@.len() < usize::MAX,
            Err(m) => r matches Err(Error::Parse(mm)) && mm@ == m,
        },
{
    if src.as_bytes().len() >= 0xffff_fffeusize {
        return Err(Error::Parse(lit("source too long")));
    }
    let toks = match lexer::tokenize(src) {
        Ok(t) => t,
        Err(e) => {
            return Err(e);
        },
    };
    if !ends_with_eof(&toks) {
        return Err(Error::Parse(lit("token stream without end")));
    }
    if toks.len() == usize::MAX {
        return Err(Error::Parse(lit("source too long")));
    }
    assert(toks_view(toks@).len() == toks@.len());
    Ok(toks)
}

fn back(toks: &Vec<Token>) -> (r: Result<ir::Program>)
    requires
        wf_toks(toks_view(toks@)),
        toks@.len() < usize::MAX,
    ensures
        match spec_back(toks_view(toks@)) {
            Ok(p) => r matches Ok(prog) && prog@ == p,
            Err(m) => r matches Err(Error::Parse(mm)) && mm@ == m,
        },
{
    let ast = match parser::parse(toks.as_slice()) {
        Ok(a) => a,
        Err(e) => {
            return Err(e);
        },
    };
    ir::lower(&ast)
}

/// A loaded program.
pub struct Engine {
    pub program: ir::Program,
}

impl Engine {
    /// Lex, parse and lower source text.
    pub fn load_str(src: &str) -> (r: Result<Engine>)
        ensures
            match spec_load(src.spec_bytes()) {
                Ok(p) => r matches Ok(e) && e.program@ == p,
                Err(m) => r matches Err(Error::Parse(mm)) && mm@ == m,
            },
    {
        let toks = match front(src) {
            Ok(t) => t,
            Err(e) => {
                return Err(e);
            },
        };
        match back(&toks) {
            Ok(program) => Ok(Engine { program }),
            Err(e) => Err(e),
        }
    }

    /// Run the program on the interpreter; the value `main` returned, or
    /// the error that stopped it.
    pub fn run_interp(&self) -> (r: Result<i64>)
        ensures
            exists|prints: Vec<String>| #[trigger] run_ok(self.program@, Run { value: r, prints }),
    {
        let run = interp::run(&self.program);
        let prints = run.prints;
        let value = run.value;
        assert(run_ok(self.program@, Run { value, prints }));
        value
    }
}

} // verus!
