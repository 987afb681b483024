//! The buffer that holds one line of input.

use crate::text::{trim_end, trimmed_end};
use vstd::prelude::*;
use vstd::string::StringExecFns;

verus! {

/// One line of input, as it was read.
#[derive(Debug)]
pub struct InputBuffer {
    buffer: String,
    input_length: usize,
}

impl View for InputBuffer {
    type V = Seq<char>;

    closed spec fn view(&self) -> Seq<char> {
        self.buffer@
    }
}

impl InputBuffer {
    /// An empty buffer.
    pub fn new() -> (buffer: InputBuffer)
        ensures
            buffer@ == Seq::<char>::empty(),
    {
        InputBuffer { buffer: String::new(), input_length: 0 }
    }

    /// Takes in a line that was read, after what the buffer holds already.
    pub fn push_line(&mut self, line: &str)
        ensures
            final(self)@ == old(self)@ + line@,
    {
        self.buffer.append(line);
        let length = self.buffer.as_str().as_bytes().len();
        if length != 0 {
            self.input_length = length;
        }
    }

    /// The line without the whitespace at its end, if anything was read.
    pub fn get_input(&self) -> (input: Option<&str>)
        ensures
            self@.len() == 0 ==> input is None,
            self@.len() > 0 ==> input is Some && ({
                let line = input->0@;
                &&& line == trimmed_end(self@)
                &&& line.len() <= self@.len()
                &&& line == self@.subrange(0, line.len() as int)
            }),
    {
        if self.buffer.as_str().is_empty() {
            None
        } else {
            Some(trim_end(self.buffer.as_str()))
        }
    }
}

} // verus!
