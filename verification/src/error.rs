use vstd::prelude::*;

verus! {

/// A failure that carries the process exit code the command line reports.
#[derive(Debug)]
pub struct AppExit {
    pub code: i32,
    message: String,
}

impl AppExit {
    /// The exit code, as contracts see it.
    pub closed spec fn exit_code(&self) -> i32 {
        self.code
    }

    /// The message, as contracts see it.
    pub closed spec fn text(&self) -> Seq<char> {
        self.message@
    }

    pub fn new(code: i32, message: String) -> (r: AppExit)
        ensures
            r.exit_code() == code,
            r.text() == message@,
    {
        AppExit { code, message }
    }

    /// The exit code.
    pub fn code(&self) -> (r: i32)
        ensures
            r == self.exit_code(),
    {
        self.code
    }

    /// The message shown to the user.
    pub fn message(&self) -> (r: &String)
        ensures
            r@ == self.text(),
    {
        &self.message
    }
}

/// Errors with a fixed wording.
#[derive(Debug)]
pub enum NbError {
    FileNotFound(String),
    InvalidFormat(String),
    IndexOutOfRange(usize, usize),
    UsageError(String),
}

/// The text of an [`NbError`].
pub open spec fn nb_error_text(e: NbError) -> Seq<char> {
    match e {
        NbError::FileNotFound(p) => "File not found: "@ + p@,
        NbError::InvalidFormat(m) => "Invalid notebook format: "@ + m@,
        NbError::IndexOutOfRange(i, n) => "Cell index "@ + crate::text::decimal(i as nat)
            + " is out of range (notebook has "@ + crate::text::decimal(n as nat) + " cells)"@,
        NbError::UsageError(m) => "Usage error: "@ + m@,
    }
}

impl NbError {
    /// The message shown to the user.
    pub fn message(&self) -> (r: String)
        ensures
            r@ == nb_error_text(*self),
    {
        let mut out: Vec<char> = Vec::new();
        match self {
            NbError::FileNotFound(p) => {
                crate::text::append_str(&mut out, "File not found: ");
                crate::text::append_str(&mut out, p.as_str());
            },
            NbError::InvalidFormat(m) => {
                crate::text::append_str(&mut out, "Invalid notebook format: ");
                crate::text::append_str(&mut out, m.as_str());
            },
            NbError::IndexOutOfRange(i, n) => {
                crate::text::append_str(&mut out, "Cell index ");
                crate::text::push_decimal(&mut out, *i);
                crate::text::append_str(&mut out, " is out of range (notebook has ");
                crate::text::push_decimal(&mut out, *n);
                crate::text::append_str(&mut out, " cells)");
            },
            NbError::UsageError(m) => {
                crate::text::append_str(&mut out, "Usage error: ");
                crate::text::append_str(&mut out, m.as_str());
            },
        }
        crate::text::string_of(out.as_slice())
    }
}

} // verus!
