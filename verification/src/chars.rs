//! Character classes, run lengths, and decimal digit strings: the shared
//! ground for the tokenizer, the line-number parser, and renumbering.

use vstd::prelude::*;
use vstd::string::StrSliceExecFns;
use vstd::string::StringExecFns;

verus! {

/// Whitespace as the editor understands it: the separators that can follow
/// a line number and that delimit command words.
pub open spec fn is_space(c: char) -> bool {
    c == ' ' || c == '\t' || c == '\n' || c == '\r'
}

/// Decimal digit.
pub open spec fn is_digit(c: char) -> bool {
    48 <= c as u32 && c as u32 <= 57
}

/// ASCII letter.
pub open spec fn is_letter(c: char) -> bool {
    (65 <= c as u32 && c as u32 <= 90) || (97 <= c as u32 && c as u32 <= 122)
}

/// The arithmetic operator characters the tokenizer recognises.
pub open spec fn is_operator(c: char) -> bool {
    c == '+' || c == '-' || c == '*' || c == '/' || c == '^'
}

pub open spec fn space_pred() -> spec_fn(char) -> bool {
    |c: char| is_space(c)
}

pub open spec fn not_space_pred() -> spec_fn(char) -> bool {
    |c: char| !is_space(c)
}

pub open spec fn digit_pred() -> spec_fn(char) -> bool {
    |c: char| is_digit(c)
}

pub open spec fn letter_pred() -> spec_fn(char) -> bool {
    |c: char| is_letter(c)
}

pub open spec fn not_quote_pred() -> spec_fn(char) -> bool {
    |c: char| c != '"'
}

/// Length of the maximal prefix of `s` whose characters all satisfy `p`.
pub open spec fn run_len(s: Seq<char>, p: spec_fn(char) -> bool) -> nat
    decreases s.len(),
{
    if s.len() > 0 && p(s[0]) {
        1 + run_len(s.drop_first(), p)
    } else {
        0
    }
}

/// Length of the maximal suffix of `s` whose characters all satisfy `p`.
pub open spec fn back_run_len(s: Seq<char>, p: spec_fn(char) -> bool) -> nat
    decreases s.len(),
{
    if s.len() > 0 && p(s[s.len() - 1]) {
        1 + back_run_len(s.drop_last(), p)
    } else {
        0
    }
}

pub proof fn lemma_run_len_props(s: Seq<char>, p: spec_fn(char) -> bool)
    ensures
        run_len(s, p) <= s.len(),
        forall|m: int| 0 <= m < run_len(s, p) ==> p(s[m]),
        run_len(s, p) < s.len() ==> !p(s[run_len(s, p) as int]),
    decreases s.len(),
{
    if s.len() > 0 && p(s[0]) {
        lemma_run_len_props(s.drop_first(), p);
        let r = run_len(s, p) as int;
        assert forall|m: int| 0 <= m < r implies p(s[m]) by {
            if m >= 1 {
                assert(s.drop_first()[m - 1] == s[m]);
            }
        }
        if r < s.len() {
            assert(s.drop_first()[r - 1] == s[r]);
        }
    }
}

pub proof fn lemma_run_len_is(s: Seq<char>, p: spec_fn(char) -> bool, i: int)
    requires
        0 <= i <= s.len(),
        forall|m: int| 0 <= m < i ==> p(s[m]),
        i < s.len() ==> !p(s[i]),
    ensures
        run_len(s, p) == i,
    decreases s.len(),
{
    if i == 0 {
    } else {
        assert(p(s[0]));
        let t = s.drop_first();
        assert forall|m: int| 0 <= m < i - 1 implies p(t[m]) by {
            assert(t[m] == s[m + 1]);
        }
        if i - 1 < t.len() {
            assert(t[i - 1] == s[i]);
        }
        lemma_run_len_is(t, p, i - 1);
    }
}

pub proof fn lemma_back_run_len_is(s: Seq<char>, p: spec_fn(char) -> bool, j: int)
    requires
        0 <= j <= s.len(),
        forall|m: int| s.len() - j <= m < s.len() ==> p(s[m]),
        j < s.len() ==> !p(s[s.len() - j - 1]),
    ensures
        back_run_len(s, p) == j,
    decreases s.len(),
{
    if j == 0 {
    } else {
        assert(p(s[s.len() - 1]));
        let t = s.drop_last();
        assert forall|m: int| t.len() - (j - 1) <= m < t.len() implies p(t[m]) by {
            assert(t[m] == s[m]);
        }
        if j - 1 < t.len() {
            assert(t[t.len() - (j - 1) - 1] == s[s.len() - j - 1]);
        }
        lemma_back_run_len_is(t, p, j - 1);
    }
}

/// Numeric value of a digit character.
pub open spec fn digit_val(c: char) -> nat
    recommends
        is_digit(c),
{
    (c as u32 - 48) as nat
}

/// The character for a digit value.
pub open spec fn digit_char(d: nat) -> char
    recommends
        d < 10,
{
    if d == 0 {
        '0'
    } else if d == 1 {
        '1'
    } else if d == 2 {
        '2'
    } else if d == 3 {
        '3'
    } else if d == 4 {
        '4'
    } else if d == 5 {
        '5'
    } else if d == 6 {
        '6'
    } else if d == 7 {
        '7'
    } else if d == 8 {
        '8'
    } else {
        '9'
    }
}

/// Value of a digit string read in base ten, most significant digit first.
pub open spec fn digits_val(s: Seq<char>) -> nat
    decreases s.len(),
{
    if s.len() == 0 {
        0
    } else {
        digits_val(s.drop_last()) * 10 + digit_val(s.last())
    }
}

/// Decimal representation of `n`, most significant digit first, no sign,
/// no leading zeros (except for `n == 0` itself).
pub open spec fn dec_rep(n: nat) -> Seq<char>
    decreases n,
{
    if n < 10 {
        seq![digit_char(n)]
    } else {
        dec_rep(n / 10).push(digit_char(n % 10))
    }
}

pub proof fn lemma_dec_rep_digits(n: nat)
    ensures
        dec_rep(n).len() >= 1,
        forall|i: int| 0 <= i < dec_rep(n).len() ==> is_digit(#[trigger] dec_rep(n)[i]),
    decreases n,
{
    if n < 10 {
        assert(is_digit(digit_char(n)));
    } else {
        lemma_dec_rep_digits(n / 10);
        assert(is_digit(digit_char(n % 10)));
        assert forall|i: int| 0 <= i < dec_rep(n).len() implies is_digit(#[trigger] dec_rep(n)[i]) by {
            if i < dec_rep(n / 10).len() {
                assert(dec_rep(n)[i] == dec_rep(n / 10)[i]);
            } else {
                assert(dec_rep(n)[i] == digit_char(n % 10));
            }
        }
    }
}

/// The value of a digit string dominates the value of each of its prefixes.
pub proof fn lemma_digits_val_prefix(s: Seq<char>, m: int)
    requires
        0 <= m <= s.len(),
    ensures
        digits_val(s.take(m)) <= digits_val(s),
    decreases s.len(),
{
    if m == s.len() {
        assert(s.take(m) =~= s);
    } else {
        let t = s.drop_last();
        assert(t.take(m) =~= s.take(m));
        lemma_digits_val_prefix(t, m);
    }
}

/// Decides `is_space`.
pub fn char_is_space(c: char) -> (r: bool)
    ensures
        r == is_space(c),
{
    let u = c as u32;
    u == 32 || u == 9 || u == 10 || u == 13
}

/// Decides `is_digit`.
pub fn char_is_digit(c: char) -> (r: bool)
    ensures
        r == is_digit(c),
{
    let u = c as u32;
    48 <= u && u <= 57
}

/// Decides `is_letter`.
pub fn char_is_letter(c: char) -> (r: bool)
    ensures
        r == is_letter(c),
{
    let u = c as u32;
    (65 <= u && u <= 90) || (97 <= u && u <= 122)
}

/// Numeric value of a digit character.
pub fn digit_value(c: char) -> (d: u8)
    requires
        is_digit(c),
    ensures
        d as nat == digit_val(c),
        d < 10,
{
    (c as u32 - 48) as u8
}

/// The one-character string for a digit value.
pub fn digit_literal(d: u8) -> (s: &'static str)
    requires
        d < 10,
    ensures
        s@ == seq![digit_char(d as nat)],
{
    proof {
        reveal_strlit("0");
        reveal_strlit("1");
        reveal_strlit("2");
        reveal_strlit("3");
        reveal_strlit("4");
        reveal_strlit("5");
        reveal_strlit("6");
        reveal_strlit("7");
        reveal_strlit("8");
        reveal_strlit("9");
        assert("0"@ =~= seq!['0']);
        assert("1"@ =~= seq!['1']);
        assert("2"@ =~= seq!['2']);
        assert("3"@ =~= seq!['3']);
        assert("4"@ =~= seq!['4']);
        assert("5"@ =~= seq!['5']);
        assert("6"@ =~= seq!['6']);
        assert("7"@ =~= seq!['7']);
        assert("8"@ =~= seq!['8']);
        assert("9"@ =~= seq!['9']);
    }
    if d == 0 {
        "0"
    } else if d == 1 {
        "1"
    } else if d == 2 {
        "2"
    } else if d == 3 {
        "3"
    } else if d == 4 {
        "4"
    } else if d == 5 {
        "5"
    } else if d == 6 {
        "6"
    } else if d == 7 {
        "7"
    } else if d == 8 {
        "8"
    } else {
        "9"
    }
}

/// Renders `n` in decimal.
pub fn usize_to_string(n: usize) -> (s: String)
    ensures
        s@ == dec_rep(n as nat),
    decreases n,
{
    if n < 10 {
        let lit = digit_literal(n as u8);
        String::from_str(lit)
    } else {
        let mut s = usize_to_string(n / 10);
        s.append(digit_literal((n % 10) as u8));
        proof {
            assert(dec_rep((n as nat) / 10).push(digit_char((n as nat) % 10)) =~= dec_rep(
                (n as nat) / 10,
            ) + seq![digit_char((n as nat) % 10)]);
        }
        s
    }
}

/// Character-wise string equality.
pub fn str_eq(a: &str, b: &str) -> (r: bool)
    ensures
        r == (a@ == b@),
{
    let la = a.unicode_len();
    let lb = b.unicode_len();
    if la != lb {
        proof {
            assert(a@ != b@) by {
                if a@ == b@ {
                    assert(a@.len() == b@.len());
                }
            }
        }
        return false;
    }
    let mut i: usize = 0;
    while i < la
        invariant
            i <= la,
            la as nat == a@.len(),
            lb as nat == b@.len(),
            la == lb,
            forall|m: int| 0 <= m < i ==> a@[m] == b@[m],
        decreases la - i,
    {
        if a.get_char(i) != b.get_char(i) {
            proof {
                assert(a@ != b@) by {
                    if a@ == b@ {
                        assert(a@[i as int] == b@[i as int]);
                    }
                }
            }
            return false;
        }
        i += 1;
    }
    proof {
        assert(a@ =~= b@);
    }
    true
}

/// First index at or after `from` whose character is not a decimal digit
/// (or the end of the string).
pub fn scan_digits(s: &str, from: usize) -> (j: usize)
    requires
        from as nat <= s@.len(),
    ensures
        from <= j <= s@.len(),
        forall|m: int| from <= m < j ==> is_digit(s@[m]),
        j < s@.len() ==> !is_digit(s@[j as int]),
{
    let len = s.unicode_len();
    let mut j = from;
    while j < len
        invariant
            from <= j <= len,
            len as nat == s@.len(),
            forall|m: int| from <= m < j ==> is_digit(s@[m]),
        decreases len - j,
    {
        if !char_is_digit(s.get_char(j)) {
            return j;
        }
        j += 1;
    }
    j
}

/// First index at or after `from` whose character is not an ASCII letter
/// (or the end of the string).
pub fn scan_letters(s: &str, from: usize) -> (j: usize)
    requires
        from as nat <= s@.len(),
    ensures
        from <= j <= s@.len(),
        forall|m: int| from <= m < j ==> is_letter(s@[m]),
        j < s@.len() ==> !is_letter(s@[j as int]),
{
    let len = s.unicode_len();
    let mut j = from;
    while j < len
        invariant
            from <= j <= len,
            len as nat == s@.len(),
            forall|m: int| from <= m < j ==> is_letter(s@[m]),
        decreases len - j,
    {
        if !char_is_letter(s.get_char(j)) {
            return j;
        }
        j += 1;
    }
    j
}

/// First index at or after `from` holding a double quote (or the end of the
/// string).
pub fn scan_to_quote(s: &str, from: usize) -> (j: usize)
    requires
        from as nat <= s@.len(),
    ensures
        from <= j <= s@.len(),
        forall|m: int| from <= m < j ==> s@[m] != '"',
        j < s@.len() ==> s@[j as int] == '"',
{
    let len = s.unicode_len();
    let mut j = from;
    while j < len
        invariant
            from <= j <= len,
            len as nat == s@.len(),
            forall|m: int| from <= m < j ==> s@[m] != '"',
        decreases len - j,
    {
        if s.get_char(j) == '"' {
            return j;
        }
        j += 1;
    }
    j
}

/// First index at or after `from` holding a non-whitespace character (or the
/// end of the string).
pub fn scan_spaces(s: &str, from: usize) -> (j: usize)
    requires
        from as nat <= s@.len(),
    ensures
        from <= j <= s@.len(),
        forall|m: int| from <= m < j ==> is_space(s@[m]),
        j < s@.len() ==> !is_space(s@[j as int]),
{
    let len = s.unicode_len();
    let mut j = from;
    while j < len
        invariant
            from <= j <= len,
            len as nat == s@.len(),
            forall|m: int| from <= m < j ==> is_space(s@[m]),
        decreases len - j,
    {
        if !char_is_space(s.get_char(j)) {
            return j;
        }
        j += 1;
    }
    j
}

/// First index at or after `from` holding a whitespace character (or the end
/// of the string).
pub fn scan_not_space(s: &str, from: usize) -> (j: usize)
    requires
        from as nat <= s@.len(),
    ensures
        from <= j <= s@.len(),
        forall|m: int| from <= m < j ==> !is_space(s@[m]),
        j < s@.len() ==> is_space(s@[j as int]),
{
    let len = s.unicode_len();
    let mut j = from;
    while j < len
        invariant
            from <= j <= len,
            len as nat == s@.len(),
            forall|m: int| from <= m < j ==> !is_space(s@[m]),
        decreases len - j,
    {
        if char_is_space(s.get_char(j)) {
            return j;
        }
        j += 1;
    }
    j
}

} // verus!
