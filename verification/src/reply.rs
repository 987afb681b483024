//! What a command answers: lines for the two output streams, and whether
//! the session ends.

use crate::error::{message_of, Error};
use crate::text::{error_line, texts};
use vstd::prelude::*;

verus! {

/// The answer to a command.
#[derive(Debug)]
pub struct Reply {
    /// The lines for standard output.
    pub out: Vec<String>,
    /// The lines for standard error.
    pub err: Vec<String>,
    /// The exit code, if the session ends with this command.
    pub exit: Option<i32>,
}

/// An answer as a mathematical value.
pub ghost struct ReplyView {
    pub out: Seq<Seq<char>>,
    pub err: Seq<Seq<char>>,
    pub exit: Option<i32>,
}

impl View for Reply {
    type V = ReplyView;

    open spec fn view(&self) -> ReplyView {
        ReplyView { out: texts(self.out@), err: texts(self.err@), exit: self.exit }
    }
}

/// The answer that says nothing.
pub open spec fn silence() -> ReplyView {
    ReplyView { out: Seq::empty(), err: Seq::empty(), exit: None }
}

/// The answer that gives lines on standard output and goes on.
pub open spec fn output_of(lines: Seq<Seq<char>>) -> ReplyView {
    ReplyView { out: lines, err: Seq::empty(), exit: None }
}

/// The answer that reports the message `message` and goes on.
pub open spec fn complaint_of(message: Seq<char>) -> ReplyView {
    ReplyView { out: Seq::empty(), err: seq!["[ERROR]"@ + message], exit: None }
}

/// The answer to a command that failed with the error `e`: the error is
/// reported, and a fatal one ends the session with the exit code 1.
pub open spec fn failure_of(e: Error) -> ReplyView {
    ReplyView {
        out: Seq::empty(),
        err: seq!["[ERROR]"@ + message_of(e)],
        exit: if e.is_fatal() {
            Some(1i32)
        } else {
            None
        },
    }
}

impl Reply {
    /// The answer that says nothing.
    pub fn silent() -> (reply: Reply)
        ensures
            reply@ == silence(),
    {
        let reply = Reply { out: Vec::new(), err: Vec::new(), exit: None };
        assert(reply@.out =~= Seq::<Seq<char>>::empty());
        assert(reply@.err =~= Seq::<Seq<char>>::empty());
        reply
    }

    /// The answer that gives `lines` on standard output and goes on.
    pub fn output(lines: Vec<String>) -> (reply: Reply)
        ensures
            reply@ == output_of(texts(lines@)),
    {
        let reply = Reply { out: lines, err: Vec::new(), exit: None };
        assert(reply@.err =~= Seq::<Seq<char>>::empty());
        reply
    }

    /// The answer that reports `message` and goes on.
    pub fn complaint(message: &str) -> (reply: Reply)
        ensures
            reply@ == complaint_of(message@),
    {
        let mut err: Vec<String> = Vec::new();
        err.push(error_line(message));
        let reply = Reply { out: Vec::new(), err, exit: None };
        assert(reply@.out =~= Seq::<Seq<char>>::empty());
        assert(reply@.err =~= seq!["[ERROR]"@ + message@]);
        reply
    }

    /// The answer to a command that failed with the error `e`.
    pub fn failure(e: Error) -> (reply: Reply)
        ensures
            reply@ == failure_of(e),
    {
        let mut err: Vec<String> = Vec::new();
        err.push(error_line(e.message().as_str()));
        let exit = if e.fatal() {
            Some(1i32)
        } else {
            None
        };
        let reply = Reply { out: Vec::new(), err, exit };
        assert(reply@.out =~= Seq::<Seq<char>>::empty());
        assert(reply@.err =~= seq!["[ERROR]"@ + message_of(e)]);
        reply
    }
}

} // verus!
