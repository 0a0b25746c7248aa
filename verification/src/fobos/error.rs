//! Errors, written for the operator who has to act on them.
//!
//! "No library" and "no board" look identical from a distance and need
//! different fixes, so each is its own variant with the fix in the text.
use vstd::prelude::*;

verus! {

#[derive(Debug)]
pub enum Error {
    /// `libfobos` is not installed, or not findable.
    LibMissing(String),
    /// No board matched what the configuration asked for.
    NotFound(String),
    /// Opening failed on a device the enumeration just listed: almost always
    /// another program already has it open.
    InUse(String),
    /// Any other API failure: the call that failed, and its numeric code
    /// translated.
    Api { call: &'static str, text: String },
}

/// Whether this is what a call came to.
pub open spec fn came_to(
    call: &'static str,
    code: i32,
    text: String,
    r: Result<(), Error>,
) -> bool {
    &&& r is Ok <==> code == 0
    &&& r matches Err(e) ==> e == (Error::Api { call, text })
}

impl Error {
    pub fn api(call: &'static str, text: String) -> (r: Error)
        ensures
            r == (Error::Api { call, text }),
    {
        Error::Api { call, text }
    }

    /// What a call came to, by the code that it returned: nought is success, and
    /// `text` is the library's own text for any other.
    pub fn check(call: &'static str, code: i32, text: String) -> (r: Result<(), Error>)
        ensures
            code == 0 ==> r is Ok,
            code != 0 ==> r == Err::<(), Error>(Error::Api { call, text }),
            came_to(call, code, text, r),
    {
        if code == 0 {
            Ok(())
        } else {
            Err(Error::api(call, text))
        }
    }

    /// The sentence for the operator.
    pub open spec fn says(self) -> Seq<char> {
        match self {
            Error::LibMissing(s) => s@,
            Error::NotFound(s) => s@,
            Error::InUse(s) => s@ + " may be held by another program — close it and try again"@,
            Error::Api { call, text } => "libfobos "@ + call@ + " failed: "@ + text@,
        }
    }

    /// The sentence for the operator.
    pub fn message(&self) -> (r: String)
        ensures
            r@ == self.says(),
    {
        match self {
            Error::LibMissing(s) => s.clone(),
            Error::NotFound(s) => s.clone(),
            Error::InUse(x) => {
                let mut s: String = x.clone();
                s.append(" may be held by another program — close it and try again");
                s
            },
            Error::Api { call, text } => {
                let mut s: String = String::from_str("libfobos ");
                s.append(call);
                s.append(" failed: ");
                s.append(text.as_str());
                s
            },
        }
    }
}

} // verus!
