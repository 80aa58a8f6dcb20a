//! Lexical-error records and diagnostic formatting.
//!
//! The scanner never aborts: each error it meets is recorded as a
//! `ScanError` and the scan continues. Rendering a record into the
//! one-line diagnostic text is pure string work and is verified here;
//! printing the text is left to the driver around the library.

use vstd::prelude::*;
use vstd::string::StringExecFns;

verus! {

/// The two lexical-error conditions the scanner can meet.
#[derive(Clone, Copy, Debug, PartialEq, Eq, Structural)]
pub enum ErrorKind {
    UnexpectedCharacter,
    UnterminatedString,
}

/// The fixed diagnostic message of an error kind.
pub open spec fn spec_message(kind: ErrorKind) -> Seq<char> {
    match kind {
        ErrorKind::UnexpectedCharacter => "Unexpected character."@,
        ErrorKind::UnterminatedString => "Unterminated String"@,
    }
}

/// One recorded lexical error: the 1-based source line where it was
/// detected and which of the two conditions it was.
#[derive(Clone, Copy, Debug, PartialEq, Eq, Structural)]
pub struct ScanError {
    pub line: usize,
    pub kind: ErrorKind,
}

/// The mathematical value of a `ScanError`.
pub struct ErrorValue {
    pub line: nat,
    pub kind: ErrorKind,
}

impl View for ScanError {
    type V = ErrorValue;

    open spec fn view(&self) -> ErrorValue {
        ErrorValue { line: self.line as nat, kind: self.kind }
    }
}

impl ScanError {
    /// The fixed diagnostic message for this error.
    pub fn message(&self) -> (m: String)
        ensures
            m@ == spec_message(self.kind),
    {
        match self.kind {
            ErrorKind::UnexpectedCharacter => String::from_str("Unexpected character."),
            ErrorKind::UnterminatedString => String::from_str("Unterminated String"),
        }
    }
}

/// The decimal digit character of a value below ten.
pub open spec fn digit_char(d: nat) -> char {
    if d == 0 {
        '0'
    } else if d == 1 {
        '1'
    } else if d == 2 {
        '2'
    } else if d == 3 {
        '3'
    } else if d == 4 {
        '4'
    } else if d == 5 {
        '5'
    } else if d == 6 {
        '6'
    } else if d == 7 {
        '7'
    } else if d == 8 {
        '8'
    } else {
        '9'
    }
}

/// The usual decimal rendering of a natural number, most significant
/// digit first, with no leading zeros (except for zero itself).
pub open spec fn spec_decimal(n: nat) -> Seq<char>
    decreases n,
{
    if n < 10 {
        seq![digit_char(n)]
    } else {
        spec_decimal(n / 10).push(digit_char(n % 10))
    }
}

/// The one-character text of a decimal digit.
fn digit_str(d: usize) -> (s: &'static str)
    requires
        d < 10,
    ensures
        s@ == seq![digit_char(d as nat)],
{
    proof {
        reveal_strlit("0");
        reveal_strlit("1");
        reveal_strlit("2");
        reveal_strlit("3");
        reveal_strlit("4");
        reveal_strlit("5");
        reveal_strlit("6");
        reveal_strlit("7");
        reveal_strlit("8");
        reveal_strlit("9");
        assert("0"@ =~= seq!['0']);
        assert("1"@ =~= seq!['1']);
        assert("2"@ =~= seq!['2']);
        assert("3"@ =~= seq!['3']);
        assert("4"@ =~= seq!['4']);
        assert("5"@ =~= seq!['5']);
        assert("6"@ =~= seq!['6']);
        assert("7"@ =~= seq!['7']);
        assert("8"@ =~= seq!['8']);
        assert("9"@ =~= seq!['9']);
    }
    if d == 0 {
        "0"
    } else if d == 1 {
        "1"
    } else if d == 2 {
        "2"
    } else if d == 3 {
        "3"
    } else if d == 4 {
        "4"
    } else if d == 5 {
        "5"
    } else if d == 6 {
        "6"
    } else if d == 7 {
        "7"
    } else if d == 8 {
        "8"
    } else {
        "9"
    }
}

/// Renders a number in decimal, digit by digit from the most significant.
pub fn decimal_string(n: usize) -> (s: String)
    ensures
        s@ == spec_decimal(n as nat),
    decreases n,
{
    if n < 10 {
        let s = String::from_str(digit_str(n));
        s
    } else {
        proof {
            assert(n / 10 < n) by (nonlinear_arith)
                requires
                    n >= 10,
            ;
        }
        let mut s = decimal_string(n / 10);
        s.append(digit_str(n % 10));
        proof {
            assert(spec_decimal((n / 10) as nat) + seq![digit_char((n % 10) as nat)] =~= spec_decimal(
                (n / 10) as nat,
            ).push(digit_char((n % 10) as nat)));
        }
        s
    }
}

/// The one-line diagnostic text for an error: the fixed prefix, the
/// message, then the line number and the offending source line.
pub open spec fn spec_error_text(line: nat, message: Seq<char>, content: Seq<char>) -> Seq<char> {
    "Error: "@ + message + "\n\t"@ + spec_decimal(line) + " | "@ + content
}

/// Namespace for diagnostic formatting, shared by every error report.
pub struct SyntaxError;

impl SyntaxError {
    /// Builds the diagnostic line shown for one lexical error.
    pub fn error(line: usize, message: String, line_content: String) -> (r: String)
        ensures
            r@ == spec_error_text(line as nat, message@, line_content@),
    {
        let mut r = String::new();
        r.append("Error: ");
        r.append(message.as_str());
        r.append("\n\t");
        let digits = decimal_string(line);
        r.append(digits.as_str());
        r.append(" | ");
        r.append(line_content.as_str());
        proof {
            assert(r@ =~= spec_error_text(line as nat, message@, line_content@));
        }
        r
    }
}

} // verus!
