//! Meta-commands: the lines that start with a dot.

use crate::pager::MAX_PAGES;
use crate::reply::{complaint_of, output_of, Reply, ReplyView};
use crate::statement::first_word;
use crate::table::{constants_lines, Table};
use crate::text::{same_text, split_words, words_of};
use vstd::prelude::*;
use vstd::string::StringExecFns;

verus! {

/// A meta-command.
#[derive(Debug)]
pub enum MetaCommand {
    /// Close the table and end the session.
    Exit,
    /// Show the tree.
    BTree,
    /// Show the layout constants.
    Constants,
    /// The line was no meta-command; the text says why.
    Error(String),
}

/// A meta-command as a mathematical value.
pub ghost enum MetaCommandView {
    Exit,
    BTree,
    Constants,
    Error(Seq<char>),
}

impl View for MetaCommand {
    type V = MetaCommandView;

    open spec fn view(&self) -> MetaCommandView {
        match self {
            MetaCommand::Exit => MetaCommandView::Exit,
            MetaCommand::BTree => MetaCommandView::BTree,
            MetaCommand::Constants => MetaCommandView::Constants,
            MetaCommand::Error(message) => MetaCommandView::Error(message@),
        }
    }
}

/// What the line `input` asks for: its first word is the meta-command.
pub open spec fn meta_command_of(input: Seq<char>) -> MetaCommandView {
    let word = first_word(words_of(input));
    if word == ".exit"@ {
        MetaCommandView::Exit
    } else if word == ".btree"@ {
        MetaCommandView::BTree
    } else if word == ".constants"@ {
        MetaCommandView::Constants
    } else {
        MetaCommandView::Error("unknown metacommand: '"@ + word + "'"@)
    }
}

/// The answer to `.exit`: a farewell, and the exit code 0.
pub open spec fn farewell() -> ReplyView {
    ReplyView { out: seq!["exitting..."@], err: Seq::empty(), exit: Some(0i32) }
}

impl MetaCommand {
    /// Reads the line `input` as a meta-command.
    pub fn parse(input: &str) -> (command: MetaCommand)
        ensures
            command@ == meta_command_of(input@),
    {
        let words = split_words(input);
        let empty = String::new();
        let word: &str = if words.len() > 0 {
            words[0].as_str()
        } else {
            empty.as_str()
        };
        if same_text(word, ".exit") {
            MetaCommand::Exit
        } else if same_text(word, ".btree") {
            MetaCommand::BTree
        } else if same_text(word, ".constants") {
            MetaCommand::Constants
        } else {
            let mut message = String::from_str("unknown metacommand: '");
            message.append(word);
            message.append("'");
            MetaCommand::Error(message)
        }
    }

    /// Reads the line `input` as a meta-command, carries it out on `table`
    /// and gives the answer. `.exit` closes the table and ends the session;
    /// `.btree` shows the tree from the root down, for which the table has
    /// to be well-formed; `.constants` shows the layout constants; anything
    /// else is reported.
    pub fn process(input: &str, table: &mut Table) -> (reply: Reply)
        requires
            old(table).pager.wf(),
            old(table).pager.num_pages <= MAX_PAGES,
            meta_command_of(input@) is BTree ==> old(table).wf(),
        ensures
            final(table).pager.wf(),
            final(table).pager.num_pages == old(table).pager.num_pages,
            forall|n: int| #[trigger] final(table).pager.page(n) == old(table).pager.page(n),
            old(table).wf() ==> final(table).wf() && final(table).contents() == old(
                table,
            ).contents(),
            meta_command_of(input@) is Exit ==> reply@ == farewell() && final(table).flushed(),
            meta_command_of(input@) is BTree ==> reply@ == output_of(
                old(table).pager.lines(0, 0),
            ),
            meta_command_of(input@) is Constants ==> reply@ == output_of(constants_lines()),
            meta_command_of(input@) matches MetaCommandView::Error(message) ==> reply@
                == complaint_of(message),
            !(meta_command_of(input@) is Exit) ==> final(table).pager.file@ == old(
                table,
            ).pager.file@,
    {
        let result = Self::parse(input);
        match &result {
            MetaCommand::Exit => {
                table.close();
                let mut out: Vec<String> = Vec::new();
                out.push(String::from_str("exitting..."));
                let reply = Reply { out, err: Vec::new(), exit: Some(0) };
                assert(reply@.out =~= seq!["exitting..."@]);
                assert(reply@.err =~= Seq::<Seq<char>>::empty());
                reply
            },
            MetaCommand::BTree => {
                proof {
                    old(table).lemma_printable();
                }
                let root_page_num = table.root_page_num;
                match table.pager.print(root_page_num, 0) {
                    Ok(lines) => {
                        proof {
                            old(table).lemma_same_pages(table);
                        }
                        Reply::output(lines)
                    },
                    Err(e) => Reply::failure(e),
                }
            },
            MetaCommand::Constants => Reply::output(Table::print_constants()),
            MetaCommand::Error(message) => Reply::complaint(message.as_str()),
        }
    }
}

} // verus!
