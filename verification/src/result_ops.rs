//! Optional values, fallible results and the errors they carry.

use vstd::prelude::*;

verus! {

/// An error that can say what went wrong in words.
pub trait DisplayableError {
    /// The characters of the error's message.
    spec fn message_spec(&self) -> Seq<char>;

    /// The error's message.
    fn message(&self) -> (text: String)
        ensures
            text@ == self.message_spec(),
    ;
}

/// The error of a custom operation: no fields, one fixed message.
#[derive(Debug, Clone, Copy, PartialEq, Eq, Structural)]
pub struct MyCustomError;

impl DisplayableError for MyCustomError {
    open spec fn message_spec(&self) -> Seq<char> {
        "Something went wrong in custom operation!"@
    }

    fn message(&self) -> (text: String) {
        "Something went wrong in custom operation!".to_owned()
    }
}

/// How a file-system failure is classified.
#[derive(Debug, Clone, Copy, PartialEq, Eq, Structural)]
pub enum IoErrorKind {
    /// The path names nothing.
    NotFound,
    /// The caller may not read what the path names.
    PermissionDenied,
    /// Any other failure.
    Other,
}

/// A file-system failure: its classification and the message that came with it.
#[derive(Debug, PartialEq, Eq)]
pub struct IoError {
    pub kind: IoErrorKind,
    pub detail: String,
}

impl DisplayableError for IoError {
    open spec fn message_spec(&self) -> Seq<char> {
        self.detail@
    }

    fn message(&self) -> (text: String) {
        self.detail.clone()
    }
}

/// Fails with `MyCustomError` exactly when `my_value` is true.
pub fn custom_error_demo(my_value: bool) -> (result: Result<(), MyCustomError>)
    ensures
        my_value ==> result == Err::<(), MyCustomError>(MyCustomError),
        !my_value ==> result == Ok::<(), MyCustomError>(()),
{
    if my_value {
        Err(MyCustomError)
    } else {
        Ok(())
    }
}

/// The value inside `optional`, or `fallback` where there is none.
pub fn unwrap_or<T>(optional: Option<T>, fallback: T) -> (value: T)
    ensures
        value == match optional {
            Some(inner) => inner,
            None => fallback,
        },
{
    match optional {
        Some(inner) => inner,
        None => fallback,
    }
}

/// What reading a file yields, given how opening it went and a reader `read`
/// for the handle: the failure to open, or else whatever `read` returned for
/// the handle, contents or failure.
pub open spec fn read_outcome<H, F: FnOnce(H) -> Result<String, IoError>>(
    opened: Result<H, IoError>,
    read: F,
    result: Result<String, IoError>,
) -> bool {
    match opened {
        Ok(handle) => call_ensures(read, (handle,), result),
        Err(e) => result == Err::<String, IoError>(e),
    }
}

/// A reader is single-valued when it can return only one result for a handle.
pub open spec fn single_valued<H, F: FnOnce(H) -> Result<String, IoError>>(read: F) -> bool {
    forall|handle: H, a: Result<String, IoError>, b: Result<String, IoError>|
        call_ensures(read, (handle,), a) && call_ensures(read, (handle,), b) ==> a == b
}

/// Reads a file's contents, branching on the result of opening it.
///
/// `opened` is the result of opening the file; `read` reads the whole
/// contents from the handle and is called only where opening succeeded.
pub fn read_function<H, F: FnOnce(H) -> Result<String, IoError>>(
    opened: Result<H, IoError>,
    read: F,
) -> (result: Result<String, IoError>)
    requires
        opened matches Ok(handle) ==> call_requires(read, (handle,)),
    ensures
        read_outcome(opened, read, result),
{
    match opened {
        Ok(handle) => {
            let content: String = read(handle)?;
            Ok(content)
        },
        Err(e) => Err(e),
    }
}

/// Reads a file's contents, leaving at the first step that fails.
///
/// Takes what `read_function` takes and yields what it yields.
pub fn read_function_2<H, F: FnOnce(H) -> Result<String, IoError>>(
    opened: Result<H, IoError>,
    read: F,
) -> (result: Result<String, IoError>)
    requires
        opened matches Ok(handle) ==> call_requires(read, (handle,)),
    ensures
        read_outcome(opened, read, result),
{
    let handle: H = opened?;
    let content: String = read(handle)?;
    Ok(content)
}

/// The two ways of reading agree: with a single-valued reader, any result of
/// one is the result of the other.
pub proof fn lemma_read_conventions_agree<H, F: FnOnce(H) -> Result<String, IoError>>(
    opened: Result<H, IoError>,
    read: F,
    first: Result<String, IoError>,
    second: Result<String, IoError>,
)
    requires
        single_valued(read),
        read_outcome(opened, read, first),
        read_outcome(opened, read, second),
    ensures
        first == second,
{
}

} // verus!
