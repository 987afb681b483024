//! Statements: what a line of input asks of the table.

use crate::error::Error;
use crate::reply::{complaint_of, failure_of, output_of, silence, Reply};
use crate::row::{decoding, line_of, Row, RowView, MAX_EMAIL, MAX_USERNAME};
use crate::table::Table;
use crate::text::{parse_number, parse_u32, same_text, split_words, texts, words_of};
use vstd::prelude::*;
use vstd::string::StringExecFns;
use vstd::utf8::encode_utf8;

verus! {

/// A statement, ready to be executed.
#[derive(Debug)]
pub enum Statement {
    /// Insert the record.
    Insert(Row),
    /// Show every record.
    Select,
    /// The line was no statement; the text says why.
    Error(String),
}

/// A statement as a mathematical value.
pub ghost enum StatementView {
    Insert(RowView),
    Select,
    Error(Seq<char>),
}

impl View for Statement {
    type V = StatementView;

    open spec fn view(&self) -> StatementView {
        match self {
            Statement::Insert(row) => StatementView::Insert(row@),
            Statement::Select => StatementView::Select,
            Statement::Error(message) => StatementView::Error(message@),
        }
    }
}

/// What the words after `insert` ask for: the record of the first three, an
/// id and two texts, if the id is a number and the texts are short enough.
pub open spec fn insert_of(args: Seq<Seq<char>>) -> StatementView {
    if args.len() < 3 {
        StatementView::Error("syntax error"@)
    } else if parse_u32(args[0]) is None {
        StatementView::Error("can't parse '"@ + args[0] + "' to u32"@)
    } else if encode_utf8(args[1]).len() > MAX_USERNAME {
        StatementView::Error("'"@ + args[1] + "' is too long for username"@)
    } else if encode_utf8(args[2]).len() > MAX_EMAIL {
        StatementView::Error("'"@ + args[2] + "' is too long for email"@)
    } else {
        StatementView::Insert(
            RowView { id: parse_u32(args[0])->0, username: args[1], email: args[2] },
        )
    }
}

/// The first word of a line, or nothing if the line has no word.
pub open spec fn first_word(words: Seq<Seq<char>>) -> Seq<char> {
    if words.len() > 0 {
        words[0]
    } else {
        Seq::empty()
    }
}

/// What the line `input` asks for: its first word is the command, the words
/// after it are the arguments.
pub open spec fn statement_of(input: Seq<char>) -> StatementView {
    let words = words_of(input);
    if first_word(words) == "insert"@ {
        insert_of(words.subrange(1, words.len() as int))
    } else if first_word(words) == "select"@ {
        StatementView::Select
    } else {
        StatementView::Error("unknown command: '"@ + first_word(words) + "'"@)
    }
}

/// The lines that show the records stored in `cells`, one for each.
pub open spec fn lines_of(cells: Seq<(usize, Seq<u8>)>) -> Seq<Seq<char>> {
    Seq::new(cells.len(), |i: int| line_of(decoding(cells[i].1)))
}

/// The text `before`, the text `word` and the text `after`, one after the
/// other.
fn wrapped(before: &str, word: &str, after: &str) -> (s: String)
    ensures
        s@ == before@ + word@ + after@,
{
    let mut s = String::from_str(before);
    s.append(word);
    s.append(after);
    s
}

impl Statement {
    /// Reads the line `input` as a statement.
    pub fn prepare(input: &str) -> (statement: Statement)
        ensures
            statement@ == statement_of(input@),
            statement matches Statement::Insert(row) ==> row@.fits(),
    {
        let words = split_words(input);
        let empty = String::new();
        let command: &str = if words.len() > 0 {
            words[0].as_str()
        } else {
            empty.as_str()
        };
        if same_text(command, "insert") {
            proof {
                reveal_strlit("insert");
                assert("insert"@.len() == 6);
                assert(command@.len() == 6);
            }
            Self::parse(&words)
        } else if same_text(command, "select") {
            Statement::Select
        } else {
            Statement::Error(wrapped("unknown command: '", command, "'"))
        }
    }

    /// Reads the words after the command `insert` as a record to insert.
    fn parse(words: &Vec<String>) -> (statement: Statement)
        requires
            words@.len() > 0,
        ensures
            statement@ == insert_of(texts(words@).subrange(1, words@.len() as int)),
            statement matches Statement::Insert(row) ==> row@.fits(),
    {
        let ghost args = texts(words@).subrange(1, words@.len() as int);
        if words.len() < 4 {
            return Statement::Error(String::from_str("syntax error"));
        }
        assert(args[0] == words@[1]@ && args[1] == words@[2]@ && args[2] == words@[3]@);
        let id = match parse_number(words[1].as_str()) {
            Some(id) => id,
            None => {
                return Statement::Error(wrapped("can't parse '", words[1].as_str(), "' to u32"));
            },
        };
        if words[2].as_str().as_bytes().len() > MAX_USERNAME {
            return Statement::Error(wrapped("'", words[2].as_str(), "' is too long for username"));
        }
        if words[3].as_str().as_bytes().len() > MAX_EMAIL {
            return Statement::Error(wrapped("'", words[3].as_str(), "' is too long for email"));
        }
        Statement::Insert(
            Row {
                id,
                username: String::from_str(words[2].as_str()),
                email: String::from_str(words[3].as_str()),
            },
        )
    }

    /// Executes the statement on `table` and gives the answer. An insert
    /// says nothing when it succeeds; a select shows the records in order; a
    /// line that was no statement is reported. An insert and a select want a
    /// well-formed table.
    pub fn execute(&self, table: &mut Table) -> (reply: Reply)
        requires
            old(table).pager.wf(),
            !(self is Error) ==> old(table).wf(),
            self matches Statement::Insert(row) ==> row@.fits(),
        ensures
            final(table).pager.wf(),
            reply@.exit is None && old(table).wf() ==> final(table).wf(),
            self@ matches StatementView::Insert(row) ==> {
                let key = row.id as usize;
                &&& old(table).insert_error(key) matches Some(e) ==> reply@ == failure_of(e)
                &&& old(table).insert_error(key) is None ==> reply@ == silence() && old(
                    table,
                ).inserted(final(table), key, row.encoding())
                &&& old(table).contains_key(key) ==> final(table).same_pages(old(table))
            },
            self@ is Select ==> {
                &&& final(table).same_pages(old(table))
                &&& old(table).all_decodable() ==> reply@ == output_of(
                    lines_of(old(table).contents()),
                )
                &&& !old(table).all_decodable() ==> reply@ == failure_of(Error::Decode)
            },
            self@ matches StatementView::Error(message) ==> reply@ == complaint_of(message)
                && *final(table) == *old(table),
    {
        match self {
            Statement::Insert(row) => match table.insert(row) {
                Ok(()) => Reply::silent(),
                Err(e) => Reply::failure(e),
            },
            Statement::Select => match table.select() {
                Ok(rows) => {
                    let mut lines: Vec<String> = Vec::new();
                    let mut i: usize = 0;
                    while i < rows.len()
                        invariant
                            i <= rows@.len(),
                            old(table).is_scan(rows@),
                            lines@.len() == i,
                            forall|k: int|
                                0 <= k < i ==> (#[trigger] lines@[k])@ == line_of(
                                    decoding(old(table).contents()[k].1),
                                ),
                        decreases rows@.len() - i,
                    {
                        lines.push(rows[i].to_line());
                        i += 1;
                    }
                    assert(texts(lines@) =~= lines_of(old(table).contents()));
                    Reply::output(lines)
                },
                Err(e) => Reply::failure(e),
            },
            Statement::Error(message) => Reply::complaint(message.as_str()),
        }
    }
}

} // verus!
