//! Support for an interactive front end: bracket balance checking for input
//! validation, and history-based hint suffixes. The front end renders these
//! results; the decisions are made here.

use vstd::prelude::*;
use vstd::string::StrSliceExecFns;

verus! {

/// An opening bracket character.
pub open spec fn is_open_bracket(c: char) -> bool {
    c == '(' || c == '[' || c == '{'
}

/// A closing bracket character.
pub open spec fn is_close_bracket(c: char) -> bool {
    c == ')' || c == ']' || c == '}'
}

/// The closer `c` matches the opener `o`.
pub open spec fn brackets_pair(o: char, c: char) -> bool {
    (o == '(' && c == ')') || (o == '[' && c == ']') || (o == '{' && c == '}')
}

/// How a line of input stands with respect to bracket balance.
#[derive(Clone, Copy, Debug, PartialEq, Eq, Structural)]
pub enum BracketValidation {
    /// Every bracket is properly closed.
    Valid,
    /// Some brackets are still open; the line is not finished yet.
    Incomplete,
    /// A closer arrived while this opener was waiting for its own match.
    Mismatched(char),
    /// This closer arrived with no opener waiting at all.
    Unpaired(char),
}

/// Runs the bracket stack over `s`, starting from the open brackets in
/// `st` (innermost last).
pub open spec fn spec_brackets(s: Seq<char>, st: Seq<char>) -> BracketValidation
    decreases s.len(),
{
    if s.len() == 0 {
        if st.len() == 0 {
            BracketValidation::Valid
        } else {
            BracketValidation::Incomplete
        }
    } else {
        let c = s[0];
        if is_open_bracket(c) {
            spec_brackets(s.drop_first(), st.push(c))
        } else if is_close_bracket(c) {
            if st.len() == 0 {
                BracketValidation::Unpaired(c)
            } else if brackets_pair(st.last(), c) {
                spec_brackets(s.drop_first(), st.drop_last())
            } else {
                BracketValidation::Mismatched(st.last())
            }
        } else {
            spec_brackets(s.drop_first(), st)
        }
    }
}

/// Bracket balance of a whole input line, from an empty stack.
pub open spec fn spec_validate_brackets(s: Seq<char>) -> BracketValidation {
    spec_brackets(s, Seq::empty())
}

/// Checks bracket balance of one input line.
pub fn validate_brackets(input: &str) -> (r: BracketValidation)
    ensures
        r == spec_validate_brackets(input@),
{
    let len = input.unicode_len();
    let mut stack: Vec<char> = Vec::new();
    let mut i: usize = 0;
    proof {
        assert(input@.skip(0) =~= input@);
    }
    while i < len
        invariant
            i <= len,
            len as nat == input@.len(),
            spec_validate_brackets(input@) == spec_brackets(input@.skip(i as int), stack@),
        decreases len - i,
    {
        let ghost sub = input@.skip(i as int);
        let ghost stk0 = stack@;
        proof {
            assert(sub[0] == input@[i as int]);
            assert(sub.drop_first() =~= input@.skip(i + 1));
        }
        let c = input.get_char(i);
        let u = c as u32;
        if u == 40 || u == 91 || u == 123 {
            stack.push(c);
        } else if u == 41 || u == 93 || u == 125 {
            if stack.len() == 0 {
                return BracketValidation::Unpaired(c);
            }
            let top = stack[stack.len() - 1];
            proof {
                assert(top == stk0.last());
            }
            let ok = (top == '(' && c == ')') || (top == '[' && c == ']') || (top == '{' && c
                == '}');
            if ok {
                stack.pop();
                proof {
                    assert(stack@ == stk0.drop_last());
                }
            } else {
                return BracketValidation::Mismatched(top);
            }
        }
        i += 1;
    }
    proof {
        assert(input@.skip(len as int) =~= Seq::<char>::empty());
    }
    if stack.len() == 0 {
        BracketValidation::Valid
    } else {
        BracketValidation::Incomplete
    }
}

/// The hint to offer after the cursor: when the history entry strictly
/// extends the line typed so far, the rest of the entry; otherwise nothing.
pub fn hint_suffix(entry: &str, line: &str) -> (r: Option<String>)
    ensures
        r matches Some(h) ==> line@.len() < entry@.len() && entry@ == line@ + h@,
        r is None ==> !(line@.len() < entry@.len() && entry@.take(line@.len() as int) == line@),
{
    let el = entry.unicode_len();
    let ll = line.unicode_len();
    if el <= ll {
        return None;
    }
    let mut m: usize = 0;
    while m < ll
        invariant
            m <= ll,
            ll < el,
            ll as nat == line@.len(),
            el as nat == entry@.len(),
            forall|q: int| 0 <= q < m ==> entry@[q] == line@[q],
        decreases ll - m,
    {
        if entry.get_char(m) != line.get_char(m) {
            proof {
                assert(entry@.take(ll as int)[m as int] == entry@[m as int]);
            }
            return None;
        }
        m += 1;
    }
    let h = entry.substring_char(ll, el).to_owned();
    proof {
        assert(entry@.take(ll as int) =~= line@);
        assert(entry@ =~= line@ + h@);
    }
    Some(h)
}

} // verus!
