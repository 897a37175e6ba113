use vstd::prelude::*;
use vstd::string::StringExecFns;
use crate::error::{ThrillerError, ThrillerResult};

verus! {

/// What an emission call returned, with the fragment taken by its view.
pub open spec fn emitted(r: ThrillerResult<String>) -> Result<Seq<char>, ThrillerError> {
    match r {
        Ok(code) => Ok(code@),
        Err(e) => Err(e),
    }
}

/// The code so far with one more outcome: a fragment is appended, a failure
/// takes the place of the code, and after a failure nothing changes any
/// more.
pub open spec fn after_fragment(
    so_far: Result<Seq<char>, ThrillerError>,
    outcome: Result<Seq<char>, ThrillerError>,
) -> Result<Seq<char>, ThrillerError> {
    match so_far {
        Err(e) => Err(e),
        Ok(code) => match outcome {
            Err(e) => Err(e),
            Ok(fragment) => Ok(code + fragment),
        },
    }
}

/// Takes in what a task returned from `emit`: a fragment is appended to
/// `code`; a failure is handed back as it came, and `code` stays as it was.
pub fn append_fragment(
    code: &mut String,
    outcome: ThrillerResult<String>,
) -> (r: ThrillerResult<()>)
    ensures
        match r {
            Ok(()) => after_fragment(Ok(old(code)@), emitted(outcome)) == Ok::<
                Seq<char>,
                ThrillerError,
            >(final(code)@),
            Err(e) => outcome == Err::<String, ThrillerError>(e) && final(code)@ == old(code)@,
        },
{
    match outcome {
        Ok(fragment) => {
            code.append(fragment.as_str());
            Ok(())
        },
        Err(e) => Err(e),
    }
}

/// A unit of work that can generate its own code.
///
/// Emission is a function of the value alone: `emission` names the
/// fragment, or the failure, that every call of `emit` on it returns. What
/// is proved about a graph's code is proved from that.
///
/// An implementation that leaves `emission` as it is here says only that
/// its `emit` is such a function, and nothing of what it returns. Nothing
/// holds an implementation outside verified code to it.
pub trait Task {
    /// What `emit` returns: the fragment, or the error.
    open spec fn emission(&self) -> Result<Seq<char>, ThrillerError> {
        arbitrary::<spec_fn(&Self) -> Result<Seq<char>, ThrillerError>>()(self)
    }

    /// Generates the code.
    fn emit(&self) -> (r: ThrillerResult<String>)
        ensures
            emitted(r) == self.emission(),
    ;
}

} // verus!
