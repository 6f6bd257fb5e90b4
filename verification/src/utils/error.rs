//! Error messages.
use crate::cxx::{Error, ErrorType};
use vstd::prelude::*;
use vstd::string::*;

verus! {

/// `s` between single quotes.
pub open spec fn quoted(s: Seq<char>) -> Seq<char> {
    "'"@ + s + "'"@
}

/// The quoted items of `items`, separated by commas.
pub open spec fn quoted_list(items: Seq<Seq<char>>) -> Seq<char>
    decreases items.len(),
{
    if items.len() == 0 {
        Seq::empty()
    } else if items.len() == 1 {
        quoted(items[0])
    } else {
        quoted_list(items.drop_last()) + ", "@ + quoted(items.last())
    }
}

/// The quoted options, the last one introduced by "or".
pub open spec fn options_text(options: Seq<Seq<char>>) -> Seq<char> {
    if options.len() == 1 {
        quoted(options[0])
    } else {
        quoted_list(options.drop_last()) + " or "@ + quoted(options.last())
    }
}

/// The explanation given when `value` is none of `options`.
pub open spec fn explain_text(value: Seq<char>, options: Seq<Seq<char>>) -> Seq<char> {
    "expected one of "@ + options_text(options) + ", found "@ + quoted(value)
}

/// The views of a sequence of strings.
pub open spec fn views(strs: Seq<&str>) -> Seq<Seq<char>> {
    strs.map_values(|s: &str| s@)
}

fn push_quoted(text: &mut String, s: &str)
    ensures
        final(text)@ == old(text)@ + quoted(s@),
{
    text.append("'");
    text.append(s);
    text.append("'");
    assert(final(text)@ =~= old(text)@ + quoted(s@));
}

/// Explains that `value` is none of the expected `options`.
pub fn variant_explain(value: &str, options: &[&str]) -> (r: String)
    requires
        options@.len() > 0,
    ensures
        r@ == explain_text(value@, views(options@)),
{
    let ghost opts = views(options@);
    let n = options.len();
    let mut text = String::from_str("expected one of ");
    if n == 1 {
        push_quoted(&mut text, options[0]);
        assert(opts[0] == options@[0]@);
    } else {
        let mut i: usize = 0;
        while i < n - 1
            invariant
                n == options@.len(),
                n >= 2,
                opts == views(options@),
                0 <= i <= n - 1,
                text@ == "expected one of "@ + quoted_list(opts.subrange(0, i as int)),
            decreases n - 1 - i,
        {
            if i > 0 {
                text.append(", ");
            }
            let ghost before = text@;
            push_quoted(&mut text, options[i]);
            proof {
                let s = opts.subrange(0, i + 1);
                assert(s.drop_last() =~= opts.subrange(0, i as int));
                assert(s.last() == options@[i as int]@);
                if i == 0 {
                    assert(quoted_list(opts.subrange(0, 0)) =~= Seq::<char>::empty());
                    assert(text@ =~= "expected one of "@ + quoted_list(s));
                } else {
                    assert(text@ =~= "expected one of "@ + quoted_list(s));
                }
            }
            i = i + 1;
        }
        text.append(" or ");
        push_quoted(&mut text, options[n - 1]);
        assert(opts.drop_last() =~= opts.subrange(0, n - 1));
        assert(opts.last() == options@[n - 1]@);
    }
    text.append(", found ");
    push_quoted(&mut text, value);
    assert(text@ =~= explain_text(value@, opts));
    text
}

/// The message of the error raised when `value` is none of `options`.
pub fn variant_error(header: &str, value: &str, options: &[&str]) -> (r: String)
    requires
        options@.len() > 0,
    ensures
        r@ == header@ + " ("@ + explain_text(value@, views(options@)) + ")"@,
{
    let explain = variant_explain(value, options);
    let mut message = String::from_str(header);
    message.append(" (");
    message.append(explain.as_str());
    message.append(")");
    assert(message@ =~= header@ + " ("@ + explain@ + ")"@);
    message
}

/// The kind of exception an engine error is raised as.
#[derive(Clone, Copy, PartialEq, Eq, Structural, Debug)]
pub enum ExceptionKind {
    FileNotFoundError,
    Geant4Exception,
    KeyboardInterrupt,
    MemoryError,
    ValueError,
}

/// The message of an engine error of kind `tp` reporting `message`, if it is
/// an error: interruptions and memory errors have messages of their own.
pub open spec fn error_value(tp: ErrorType, message: Seq<char>) -> Option<Seq<char>> {
    match tp {
        ErrorType::NoError => None,
        ErrorType::KeyboardInterrupt => Some("Ctrl+C catched"@),
        ErrorType::MemoryError => Some("could not allocate memory"@),
        _ => Some(message),
    }
}

/// The exception kind of an engine error of kind `tp`, if it is an error.
pub open spec fn error_kind(tp: ErrorType) -> Option<ExceptionKind> {
    match tp {
        ErrorType::NoError => None,
        ErrorType::FileNotFoundError => Some(ExceptionKind::FileNotFoundError),
        ErrorType::Geant4Exception => Some(ExceptionKind::Geant4Exception),
        ErrorType::KeyboardInterrupt => Some(ExceptionKind::KeyboardInterrupt),
        ErrorType::MemoryError => Some(ExceptionKind::MemoryError),
        _ => Some(ExceptionKind::ValueError),
    }
}

impl Error {
    /// The message of this error, if it is one. Index errors are not reported
    /// this way.
    pub fn value(&self) -> (r: Option<&str>)
        requires
            self.tp != ErrorType::IndexError,
        ensures
            match (r, error_value(self.tp, self.message@)) {
                (Some(m), Some(e)) => m@ == e,
                (None, None) => true,
                _ => false,
            },
    {
        match self.tp {
            ErrorType::NoError => None,
            ErrorType::KeyboardInterrupt => Some("Ctrl+C catched"),
            ErrorType::MemoryError => Some("could not allocate memory"),
            _ => Some(self.message.as_str()),
        }
    }

    /// This error as the exception to raise, with its message, if it is one.
    /// Index errors are not reported this way.
    pub fn to_result(&self) -> (r: Result<(), (ExceptionKind, String)>)
        requires
            self.tp != ErrorType::IndexError,
        ensures
            match r {
                Ok(()) => self.tp == ErrorType::NoError,
                Err((kind, message)) => error_kind(self.tp) == Some(kind)
                    && error_value(self.tp, self.message@) == Some(message@),
            },
    {
        let kind = match self.tp {
            ErrorType::NoError => return Ok(()),
            ErrorType::FileNotFoundError => ExceptionKind::FileNotFoundError,
            ErrorType::Geant4Exception => ExceptionKind::Geant4Exception,
            ErrorType::KeyboardInterrupt => ExceptionKind::KeyboardInterrupt,
            ErrorType::MemoryError => ExceptionKind::MemoryError,
            _ => ExceptionKind::ValueError,
        };
        match self.value() {
            Some(message) => Err((kind, String::from_str(message))),
            None => Ok(()),
        }
    }
}

} // verus!
