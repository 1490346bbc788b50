//! The command engine: interprets one raw input line at a time.
//!
//! Dispatch order: a leading line number makes the input a buffer insertion;
//! otherwise the trimmed input is matched against the commands `r`
//! (renumber), `w <path>` (save) and `p` (print); anything else is unknown.
//! A malformed number prefix is not an error — it simply falls through to
//! command matching.

use vstd::prelude::*;
use vstd::string::StrSliceExecFns;
use vstd::string::StringExecFns;

use crate::buffer::joined;
use crate::buffer::seq_upsert;
use crate::buffer::spec_renumber;
use crate::buffer::Buffer;
use crate::chars::back_run_len;
use crate::chars::char_is_space;
use crate::chars::digit_pred;
use crate::chars::digit_val;
use crate::chars::digit_value;
use crate::chars::digits_val;
use crate::chars::is_space;
use crate::chars::lemma_back_run_len_is;
use crate::chars::lemma_digits_val_prefix;
use crate::chars::lemma_run_len_is;
use crate::chars::not_space_pred;
use crate::chars::run_len;
use crate::chars::scan_digits;
use crate::chars::scan_not_space;
use crate::chars::scan_spaces;
use crate::chars::space_pred;
use crate::chars::str_eq;
use crate::token::spec_tokenize;
use crate::token::tokenize;
use crate::token::toks_view;
use crate::token::Token;

verus! {

/// The input with leading and trailing whitespace removed.
pub open spec fn spec_trim(s: Seq<char>) -> Seq<char> {
    let t = s.skip(run_len(s, space_pred()) as int);
    t.take((t.len() - back_run_len(t, space_pred())) as int)
}

/// The leading line number of an insertion: after any leading whitespace, a
/// maximal run of digits that is followed by whitespace or by the end of the
/// input. Anything else — including a run glued to other characters — is no
/// line number at all.
pub open spec fn spec_line_number(s: Seq<char>) -> Option<nat> {
    let u = s.skip(run_len(s, space_pred()) as int);
    let d = run_len(u, digit_pred()) as int;
    if d > 0 && (d == u.len() || is_space(u[d])) {
        Some(digits_val(u.take(d)))
    } else {
        None
    }
}

/// The line number under which the input is inserted, if its value fits the
/// key type; an overflowing number falls through to command matching.
pub open spec fn spec_insert_key(s: Seq<char>) -> Option<nat> {
    match spec_line_number(s) {
        Some(v) => if v <= usize::MAX {
            Some(v)
        } else {
            None
        },
        None => None,
    }
}

/// The path argument of a save command: the trimmed input must read `w`,
/// then whitespace, then the path (its first whitespace-delimited word).
pub open spec fn spec_save_path(t: Seq<char>) -> Option<Seq<char>> {
    if t.len() >= 2 && t[0] == 'w' && is_space(t[1]) {
        let u = t.skip(2);
        let v = u.skip(run_len(u, space_pred()) as int);
        let b = run_len(v, not_space_pred()) as int;
        if b > 0 {
            Some(v.take(b))
        } else {
            None
        }
    } else {
        None
    }
}

/// The parsed intent of one raw input line.
pub enum Command {
    /// Store the raw input under this line number.
    Insert(usize),
    /// Re-key the whole buffer to 10, 20, 30, ...
    Renumber,
    /// Write the buffer to the named file.
    Save(String),
    /// Show the buffer with token classification.
    Print,
    /// None of the recognised forms.
    Unknown,
}

/// A command's mathematical shape.
pub enum CommandModel {
    Insert(nat),
    Renumber,
    Save(Seq<char>),
    Print,
    Unknown,
}

impl View for Command {
    type V = CommandModel;

    open spec fn view(&self) -> CommandModel {
        match self {
            Command::Insert(n) => CommandModel::Insert(*n as nat),
            Command::Renumber => CommandModel::Renumber,
            Command::Save(p) => CommandModel::Save(p@),
            Command::Print => CommandModel::Print,
            Command::Unknown => CommandModel::Unknown,
        }
    }
}

/// How one raw input line is read, in priority order: an insertion if it
/// leads with a (fitting) line number, else `r`, `w <path>` or `p` on the
/// trimmed text, else unknown.
pub open spec fn spec_command(s: Seq<char>) -> CommandModel {
    match spec_insert_key(s) {
        Some(k) => CommandModel::Insert(k),
        None => {
            let t = spec_trim(s);
            if t == "r"@ {
                CommandModel::Renumber
            } else {
                match spec_save_path(t) {
                    Some(p) => CommandModel::Save(p),
                    None => if t == "p"@ {
                        CommandModel::Print
                    } else {
                        CommandModel::Unknown
                    },
                }
            }
        },
    }
}

/// Trims leading and trailing whitespace.
fn trim_str<'a>(s: &'a str) -> (r: &'a str)
    ensures
        r@ == spec_trim(s@),
{
    let len = s.unicode_len();
    let a = scan_spaces(s, 0);
    proof {
        lemma_run_len_is(s@, space_pred(), a as int);
    }
    let mut b = len;
    while b > a && char_is_space(s.get_char(b - 1))
        invariant
            a <= b <= len,
            len as nat == s@.len(),
            a as nat <= s@.len(),
            forall|m: int| b <= m < len ==> is_space(s@[m]),
        decreases b,
    {
        b -= 1;
    }
    let r = s.substring_char(a, b);
    proof {
        let t = s@.skip(a as int);
        assert forall|m: int| t.len() - (len - b) <= m < t.len() implies space_pred()(t[m]) by {
            assert(t[m] == s@[m + a]);
        }
        if b > a {
            assert(t[b - a - 1] == s@[b - 1]);
        }
        lemma_back_run_len_is(t, space_pred(), len - b);
        assert(r@ =~= t.take((t.len() - back_run_len(t, space_pred())) as int));
    }
    r
}

/// Parses the leading line number of an insertion, if any, rejecting values
/// beyond the key type.
pub fn get_ln(s: &str) -> (r: Option<usize>)
    ensures
        r matches Some(n) ==> spec_insert_key(s@) == Some(n as nat),
        r is None ==> spec_insert_key(s@) is None,
{
    let len = s.unicode_len();
    let st = scan_spaces(s, 0);
    proof {
        lemma_run_len_is(s@, space_pred(), st as int);
    }
    let ghost u = s@.skip(st as int);
    let e = scan_digits(s, st);
    proof {
        assert forall|m: int| 0 <= m < e - st implies digit_pred()(u[m]) by {
            assert(u[m] == s@[m + st]);
        }
        if e - st < u.len() {
            assert(u[e - st] == s@[e as int]);
        }
        lemma_run_len_is(u, digit_pred(), e - st);
    }
    if e == st {
        return None;
    }
    if e < len && !char_is_space(s.get_char(e)) {
        proof {
            assert(u[e - st] == s@[e as int]);
        }
        return None;
    }
    // The digit run is a well-formed line number; accumulate its value,
    // rejecting overflow.
    let ghost run = u.take(e - st);
    let mut acc: usize = 0;
    let mut i = st;
    while i < e
        invariant
            st <= i <= e,
            st < e,
            e as nat <= s@.len(),
            len as nat == s@.len(),
            u == s@.skip(st as int),
            run_len(s@, space_pred()) == st as nat,
            run_len(u, digit_pred()) == e - st,
            e - st == u.len() || is_space(u[e - st]),
            forall|m: int| st <= m < e ==> crate::chars::is_digit(s@[m]),
            run == u.take(e - st),
            acc as nat == digits_val(u.take(i - st)),
        decreases e - i,
    {
        let c = s.get_char(i);
        proof {
            assert(u[i - st] == s@[i as int]);
        }
        let d = digit_value(c);
        if acc > (usize::MAX - d as usize) / 10 {
            // The value scanned so far already exceeds the key type; the
            // full run can only be larger.
            proof {
                assert(acc as nat * 10 + d as nat > usize::MAX) by (nonlinear_arith)
                    requires
                        acc as nat > (usize::MAX - d as nat) / 10,
                        d < 10,
                ;
                assert(u.take(i - st + 1).drop_last() =~= u.take(i - st));
                assert(u.take(i - st + 1).last() == u[i - st]);
                assert(digits_val(u.take(i - st + 1)) == acc as nat * 10 + digit_val(u[i - st]));
                assert(run.take(i - st + 1) =~= u.take(i - st + 1));
                lemma_digits_val_prefix(run, i - st + 1);
            }
            return None;
        }
        proof {
            assert(acc as nat * 10 + d as nat <= usize::MAX) by (nonlinear_arith)
                requires
                    acc as nat <= (usize::MAX - d as nat) / 10,
                    d < 10,
            ;
            assert(u.take(i - st + 1).drop_last() =~= u.take(i - st));
            assert(u.take(i - st + 1).last() == u[i - st]);
        }
        acc = acc * 10 + d as usize;
        i += 1;
    }
    Some(acc)
}

/// Parses the save command's path from the trimmed input.
fn parse_save_path(t: &str) -> (r: Option<String>)
    ensures
        r matches Some(p) ==> spec_save_path(t@) == Some(p@),
        r is None ==> spec_save_path(t@) is None,
{
    let len = t.unicode_len();
    if len < 2 {
        return None;
    }
    if t.get_char(0) != 'w' || !char_is_space(t.get_char(1)) {
        return None;
    }
    let ghost u = t@.skip(2);
    let a = scan_spaces(t, 2);
    proof {
        assert forall|m: int| 0 <= m < a - 2 implies space_pred()(u[m]) by {
            assert(u[m] == t@[m + 2]);
        }
        if a - 2 < u.len() {
            assert(u[a - 2] == t@[a as int]);
        }
        lemma_run_len_is(u, space_pred(), a - 2);
    }
    let ghost v = u.skip(a - 2);
    let b = scan_not_space(t, a);
    proof {
        assert forall|m: int| 0 <= m < b - a implies not_space_pred()(v[m]) by {
            assert(v[m] == t@[m + a]);
        }
        if b - a < v.len() {
            assert(v[b - a] == t@[b as int]);
        }
        lemma_run_len_is(v, not_space_pred(), b - a);
    }
    if b == a {
        return None;
    }
    let p = t.substring_char(a, b).to_owned();
    proof {
        assert(p@ =~= v.take(b - a));
    }
    Some(p)
}

/// Parses one raw input line into its command.
pub fn parse_command(input: &str) -> (c: Command)
    ensures
        c@ == spec_command(input@),
{
    if let Some(n) = get_ln(input) {
        return Command::Insert(n);
    }
    let t = trim_str(input);
    if str_eq(t, "r") {
        return Command::Renumber;
    }
    if let Some(p) = parse_save_path(t) {
        return Command::Save(p);
    }
    if str_eq(t, "p") {
        return Command::Print;
    }
    Command::Unknown
}

/// What one processed input line asks of the surrounding shell: nothing
/// beyond the buffer change (insertion, renumber), a file write, a render
/// of classified text, or an unknown-command report.
pub enum Outcome {
    /// The input was stored in the buffer.
    Inserted,
    /// The buffer was renumbered.
    Renumbered,
    /// Write the second component — the buffer's joined text — to the file
    /// named by the first.
    Save(String, String),
    /// Render these tokens of the buffer's joined text.
    Print(Vec<Token>),
    /// Report an unknown command.
    Unknown,
}

/// Interprets one raw input line: mutates the buffer for an insertion or a
/// renumber, and otherwise reports what the shell should do, leaving the
/// buffer unchanged.
pub fn process_input(buf: &mut Buffer, input: String) -> (out: Outcome)
    requires
        old(buf).wf(),
        spec_command(input@) is Renumber ==> 10 * old(buf)@.len() <= usize::MAX,
    ensures
        final(buf).wf(),
        match spec_command(input@) {
            CommandModel::Insert(k) => final(buf)@ == seq_upsert(old(buf)@, k, input@)
                && out is Inserted,
            CommandModel::Renumber => final(buf)@ == spec_renumber(old(buf)@)
                && out is Renumbered,
            CommandModel::Save(p) => final(buf)@ == old(buf)@ && (out matches Outcome::Save(
                path,
                content,
            ) && path@ == p && content@ == joined(old(buf)@)),
            CommandModel::Print => final(buf)@ == old(buf)@ && (out matches Outcome::Print(toks)
                && toks_view(toks@) == spec_tokenize(joined(old(buf)@))),
            CommandModel::Unknown => final(buf)@ == old(buf)@ && out is Unknown,
        },
{
    let cmd = parse_command(input.as_str());
    match cmd {
        Command::Insert(n) => {
            buf.insert(n, input);
            Outcome::Inserted
        },
        Command::Renumber => {
            buf.renumber();
            Outcome::Renumbered
        },
        Command::Save(p) => {
            let content = buf.joined_text();
            Outcome::Save(p, content)
        },
        Command::Print => {
            let content = buf.joined_text();
            let toks = tokenize(content.as_str());
            Outcome::Print(toks)
        },
        Command::Unknown => Outcome::Unknown,
    }
}

} // verus!
