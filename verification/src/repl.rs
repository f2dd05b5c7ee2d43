//! The interactive loop's decisions: what one line of input does to the
//! functions typed so far, and which source text to load for it. Reading
//! lines, loading, running and printing stay with the caller.

use crate::text::{concat, concat_lit, lit, str_is};
use vstd::prelude::*;
use vstd::string::StringSliceAdditionalSpecFns;

verus! {

/// The characters with the Unicode property White_Space.
pub open spec fn is_white_space(c: char) -> bool {
    let u = c as u32;
    ||| 0x09 <= u <= 0x0D
    ||| u == 0x20
    ||| u == 0x85
    ||| u == 0xA0
    ||| u == 0x1680
    ||| 0x2000 <= u <= 0x200A
    ||| u == 0x2028
    ||| u == 0x2029
    ||| u == 0x202F
    ||| u == 0x205F
    ||| u == 0x3000
}

/// `s` without its leading White_Space characters.
pub open spec fn trim_start(s: Seq<char>) -> Seq<char>
    decreases s.len(),
{
    if s.len() > 0 && is_white_space(s[0]) {
        trim_start(s.drop_first())
    } else {
        s
    }
}

/// `s` without its trailing White_Space characters.
pub open spec fn trim_end(s: Seq<char>) -> Seq<char>
    decreases s.len(),
{
    if s.len() > 0 && is_white_space(s.last()) {
        trim_end(s.drop_last())
    } else {
        s
    }
}

/// What `str::trim` makes of a line: it without leading and trailing
/// White_Space characters.
pub open spec fn spec_trim(s: Seq<char>) -> Seq<char> {
    trim_end(trim_start(s))
}

/// Calls `str::trim`, which removes leading and trailing whitespace as the
/// Unicode White_Space property defines it, and returns the result as a
/// `String`.
#[verifier::external_body]
fn trim_line(s: &str) -> (r: String)
    ensures
        r@ == spec_trim(s@),
{
    s.trim().to_string()
}

/// What the loop does after one line.
#[derive(Debug)]
pub enum ReplAction {
    /// Leave the loop.
    Quit,
    /// Nothing to run; read the next line.
    Skip,
    /// Load this source and list the bytecode of its functions, all but
    /// the placeholder `__n`.
    Disasm(String),
    /// Load this source and run it on the interpreter.
    Run(String),
}

/// `ReplAction` with its texts as character sequences.
pub enum SAction {
    Quit,
    Skip,
    Disasm(Seq<char>),
    Run(Seq<char>),
}

impl View for ReplAction {
    type V = SAction;

    open spec fn view(&self) -> SAction {
        match self {
            ReplAction::Quit => SAction::Quit,
            ReplAction::Skip => SAction::Skip,
            ReplAction::Disasm(s) => SAction::Disasm(s@),
            ReplAction::Run(s) => SAction::Run(s@),
        }
    }
}

/// The source loaded for `:disasm`: the functions so far and an empty
/// placeholder function.
pub open spec fn disasm_src(accum: Seq<char>) -> Seq<char> {
    accum + "\nfn __n() { return 0 }"@
}

/// The source loaded for an expression: the functions so far and a `main`
/// that prints it.
pub open spec fn run_src(accum: Seq<char>, l: Seq<char>) -> Seq<char> {
    accum + "\nfn main() { print "@ + l + " return 0 }"@
}

/// One trimmed line `l` with the functions typed so far `accum`: the
/// action, and the functions kept for the next line. An empty line does
/// nothing; `:q` and `:quit` leave; `:reset` forgets the functions;
/// `:disasm` lists them; a line starting with `fn ` is kept as a
/// function; anything else is printed through a synthesized `main`.
pub open spec fn spec_repl(accum: Seq<char>, l: Seq<char>) -> (SAction, Seq<char>) {
    if l.len() == 0 {
        (SAction::Skip, accum)
    } else if l == ":q"@ || l == ":quit"@ {
        (SAction::Quit, accum)
    } else if l == ":reset"@ {
        (SAction::Skip, Seq::empty())
    } else if l == ":disasm"@ {
        (SAction::Disasm(disasm_src(accum)), accum)
    } else if l.len() >= 3 && l.take(3) == "fn "@ {
        (SAction::Skip, accum + l + "\n"@)
    } else {
        (SAction::Run(run_src(accum, l)), accum)
    }
}

/// Whether `l` begins with `fn `.
fn starts_with_fn(l: &String) -> (b: bool)
    ensures
        b == (l@.len() >= 3 && l@.take(3) == "fn "@),
{
    proof {
        reveal_strlit("fn ");
    }
    let s = l.as_str();
    if s.unicode_len() < 3 {
        return false;
    }
    let b = s.get_char(0) == 'f' && s.get_char(1) == 'n' && s.get_char(2) == ' ';
    proof {
        if b {
            assert(l@.take(3) =~= "fn "@);
        }
        if l@.take(3) == "fn "@ {
            assert(l@[0] == l@.take(3)[0]);
            assert(l@[1] == l@.take(3)[1]);
            assert(l@[2] == l@.take(3)[2]);
        }
    }
    b
}

/// Decide what one input line does; `accum` holds the functions typed so
/// far and is updated as `spec_repl` says.
pub fn repl_step(accum: &mut String, line: &str) -> (a: ReplAction)
    ensures
        (a@, final(accum)@) == spec_repl(old(accum)@, spec_trim(line@)),
{
    let l = trim_line(line);
    if l.as_str().unicode_len() == 0 {
        return ReplAction::Skip;
    }
    if str_is(&l, ":q") || str_is(&l, ":quit") {
        return ReplAction::Quit;
    }
    if str_is(&l, ":reset") {
        *accum = lit("");
        proof {
            reveal_strlit("");
        }
        return ReplAction::Skip;
    }
    if str_is(&l, ":disasm") {
        let src = concat_lit(accum.clone(), "\nfn __n() { return 0 }");
        return ReplAction::Disasm(src);
    }
    if starts_with_fn(&l) {
        let a = concat(accum.clone(), &l);
        *accum = concat_lit(a, "\n");
        return ReplAction::Skip;
    }
    let head = concat_lit(accum.clone(), "\nfn main() { print ");
    let src = concat_lit(concat(head, &l), " return 0 }");
    ReplAction::Run(src)
}

} // verus!
