use vstd::prelude::*;

verus! {

broadcast use vstd::string::group_string_axioms;

/// An error of the assembler or of the machine.
#[derive(Clone, Debug, PartialEq, Eq)]
pub enum MachinaError {
    UnterminatedString,
    Expected(String, String),
    InvalidCharacter(char),
    InvalidInstruction(String),
    TargetNotFound(String),
    FunctionNotFound(String),
    InvalidRegister(String),
    OutOfMemory,
}

/// What an error says, with its texts as character sequences.
pub ghost enum ErrorView {
    UnterminatedString,
    Expected(Seq<char>, Seq<char>),
    InvalidCharacter(char),
    InvalidInstruction(Seq<char>),
    TargetNotFound(Seq<char>),
    FunctionNotFound(Seq<char>),
    InvalidRegister(Seq<char>),
    OutOfMemory,
}

impl View for MachinaError {
    type V = ErrorView;

    open spec fn view(&self) -> ErrorView {
        match self {
            MachinaError::UnterminatedString => ErrorView::UnterminatedString,
            MachinaError::Expected(e, f) => ErrorView::Expected(e@, f@),
            MachinaError::InvalidCharacter(c) => ErrorView::InvalidCharacter(*c),
            MachinaError::InvalidInstruction(s) => ErrorView::InvalidInstruction(s@),
            MachinaError::TargetNotFound(s) => ErrorView::TargetNotFound(s@),
            MachinaError::FunctionNotFound(s) => ErrorView::FunctionNotFound(s@),
            MachinaError::InvalidRegister(s) => ErrorView::InvalidRegister(s@),
            MachinaError::OutOfMemory => ErrorView::OutOfMemory,
        }
    }
}

/// The text of an error, as a diagnostic shows it.
pub open spec fn message_of(e: ErrorView) -> Seq<char> {
    match e {
        ErrorView::UnterminatedString => "Unterminated string"@,
        ErrorView::Expected(x, f) => "Expected "@ + x + ", but found "@ + f,
        ErrorView::InvalidCharacter(c) => "Invalid character `"@ + seq![c] + "`"@,
        ErrorView::InvalidInstruction(s) => "Invalid instruction `"@ + s + "`"@,
        ErrorView::TargetNotFound(s) => "Target with label `"@ + s + "` not found"@,
        ErrorView::FunctionNotFound(s) => "Function with name `"@ + s + "` not found"@,
        ErrorView::InvalidRegister(s) => "Invalid register `%"@ + s + "`"@,
        ErrorView::OutOfMemory => "Out of Memory"@,
    }
}

/// Relies on std's `String::push`: the character is appended.
#[verifier::external_body]
pub(crate) fn push_char(s: &mut String, c: char)
    ensures
        final(s)@ == old(s)@.push(c),
{
    s.push(c);
}

impl MachinaError {
    /// A copy of this error that the contracts can speak of.
    pub fn duplicate(&self) -> (r: MachinaError)
        ensures
            r@ == self@,
    {
        match self {
            MachinaError::UnterminatedString => MachinaError::UnterminatedString,
            MachinaError::Expected(e, f) => MachinaError::Expected(e.clone(), f.clone()),
            MachinaError::InvalidCharacter(c) => MachinaError::InvalidCharacter(*c),
            MachinaError::InvalidInstruction(s) => MachinaError::InvalidInstruction(s.clone()),
            MachinaError::TargetNotFound(s) => MachinaError::TargetNotFound(s.clone()),
            MachinaError::FunctionNotFound(s) => MachinaError::FunctionNotFound(s.clone()),
            MachinaError::InvalidRegister(s) => MachinaError::InvalidRegister(s.clone()),
            MachinaError::OutOfMemory => MachinaError::OutOfMemory,
        }
    }

    /// The error's text, as `ERROR [line]: <message>` shows it.
    pub fn message(&self) -> (r: String)
        ensures
            r@ == message_of(self@),
    {
        match self {
            MachinaError::UnterminatedString => "Unterminated string".to_string(),
            MachinaError::Expected(e, f) => {
                let mut r = "Expected ".to_string();
                r.append(e.as_str());
                r.append(", but found ");
                r.append(f.as_str());
                r
            },
            MachinaError::InvalidCharacter(c) => {
                let mut r = "Invalid character `".to_string();
                push_char(&mut r, *c);
                r.append("`");
                r
            },
            MachinaError::InvalidInstruction(s) => {
                let mut r = "Invalid instruction `".to_string();
                r.append(s.as_str());
                r.append("`");
                r
            },
            MachinaError::TargetNotFound(s) => {
                let mut r = "Target with label `".to_string();
                r.append(s.as_str());
                r.append("` not found");
                r
            },
            MachinaError::FunctionNotFound(s) => {
                let mut r = "Function with name `".to_string();
                r.append(s.as_str());
                r.append("` not found");
                r
            },
            MachinaError::InvalidRegister(s) => {
                let mut r = "Invalid register `%".to_string();
                r.append(s.as_str());
                r.append("`");
                r
            },
            MachinaError::OutOfMemory => "Out of Memory".to_string(),
        }
    }
}

/// The source line an error was found on.
#[derive(Clone, Copy, Debug, PartialEq, Eq)]
pub struct ErrorMetaData {
    pub line: usize,
}

/// The errors collected while assembling, in the order they were found.
#[derive(Clone, Debug)]
pub struct Diagnostics {
    pub errors: Vec<(MachinaError, Option<ErrorMetaData>)>,
}

impl Diagnostics {
    /// The errors as views, with their lines.
    pub open spec fn entries(&self) -> Seq<(ErrorView, Option<usize>)> {
        self.errors@.map_values(
            |e: (MachinaError, Option<ErrorMetaData>)|
                (e.0@, match e.1 {
                    Some(m) => Some(m.line),
                    None => None,
                }),
        )
    }

    pub fn new() -> (r: Self)
        ensures
            r.entries() == Seq::<(ErrorView, Option<usize>)>::empty(),
    {
        Diagnostics { errors: Vec::new() }
    }

    pub fn empty(&self) -> (r: bool)
        ensures
            r == (self.entries().len() == 0),
    {
        self.errors.len() == 0
    }

    pub fn len(&self) -> (r: usize)
        ensures
            r == self.entries().len(),
    {
        self.errors.len()
    }

    /// Records an error without a line and hands it back.
    pub fn report<T>(&mut self, error: MachinaError) -> (r: Result<T, MachinaError>)
        ensures
            final(self).entries() == old(self).entries().push((error@, None)),
            r matches Err(e) && e@ == error@,
    {
        let copy = error.duplicate();
        self.errors.push((error, None));
        proof {
            assert(final(self).entries() =~= old(self).entries().push((error@, None)));
        }
        Err(copy)
    }

    /// Records an error found on `line` and hands it back.
    pub fn report_with_line<T>(&mut self, error: MachinaError, line: usize) -> (r: Result<
        T,
        MachinaError,
    >)
        ensures
            final(self).entries() == old(self).entries().push((error@, Some(line))),
            r matches Err(e) && e@ == error@,
    {
        let copy = error.duplicate();
        self.errors.push((error, Some(ErrorMetaData { line })));
        proof {
            assert(final(self).entries() =~= old(self).entries().push((error@, Some(line))));
        }
        Err(copy)
    }
}

} // verus!
