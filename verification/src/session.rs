//! The commands of an interactive session: what a line that was typed asks
//! for.

use crate::history::same_text;
use crate::text::{char_is_space, chars_of, is_space, string_of, trim_chars, trimmed};
use vstd::prelude::*;

verus! {

/// The ways in which results are put out.
#[derive(Debug, Clone, Copy, PartialEq, Eq, Structural)]
pub enum OutputFormat {
    /// As text
    Text,
    /// As JSON
    Json,
    /// As a table
    Table,
}

/// The format that a word names, if it names one.
pub open spec fn format_named(word: Seq<char>) -> Option<OutputFormat> {
    if word == seq!['t', 'e', 'x', 't'] {
        Some(OutputFormat::Text)
    } else if word == seq!['j', 's', 'o', 'n'] {
        Some(OutputFormat::Json)
    } else if word == seq!['t', 'a', 'b', 'l', 'e'] {
        Some(OutputFormat::Table)
    } else {
        None
    }
}

/// The words of a text: its longest runs of characters that are no white
/// space, in order.
pub open spec fn words(t: Seq<char>) -> Seq<Seq<char>>
    decreases t.len(),
{
    if t.len() == 0 {
        Seq::empty()
    } else {
        let before = words(t.drop_last());
        if is_space(t.last()) {
            before
        } else if t.len() >= 2 && !is_space(t[t.len() - 2]) && before.len() > 0 {
            before.drop_last().push(before.last().push(t.last()))
        } else {
            before.push(seq![t.last()])
        }
    }
}

/// What a line of an interactive session asks for.
#[derive(Debug, PartialEq, Eq)]
pub enum LineCommand {
    /// Nothing: the line holds white space only
    Nothing,
    /// Show the help
    Help,
    /// Leave the session
    Exit,
    /// Open the database at a place; the place may be missing
    Connect(Option<String>),
    /// List the paths, under a prefix where one is given
    List(Option<String>),
    /// Put results out in another format; the word may be missing
    Format(Option<String>),
    /// Show the history, searched for a text where one is given
    History(Option<String>),
    /// A command that is not known, as it was typed behind the dot
    Unknown(String),
    /// A query, without the white space around it
    Query(String),
}

/// What a line asks for, as a value of plain texts.
pub enum LineModel {
    Nothing,
    Help,
    Exit,
    Connect(Option<Seq<char>>),
    List(Option<Seq<char>>),
    Format(Option<Seq<char>>),
    History(Option<Seq<char>>),
    Unknown(Seq<char>),
    Query(Seq<char>),
}

/// The text of an optional string.
pub open spec fn word_model(word: Option<String>) -> Option<Seq<char>> {
    match word {
        Some(w) => Some(w@),
        None => None,
    }
}

impl View for LineCommand {
    type V = LineModel;

    open spec fn view(&self) -> LineModel {
        match self {
            LineCommand::Nothing => LineModel::Nothing,
            LineCommand::Help => LineModel::Help,
            LineCommand::Exit => LineModel::Exit,
            LineCommand::Connect(w) => LineModel::Connect(word_model(*w)),
            LineCommand::List(w) => LineModel::List(word_model(*w)),
            LineCommand::Format(w) => LineModel::Format(word_model(*w)),
            LineCommand::History(w) => LineModel::History(word_model(*w)),
            LineCommand::Unknown(t) => LineModel::Unknown(t@),
            LineCommand::Query(t) => LineModel::Query(t@),
        }
    }
}

/// The second of the words, if there is one.
pub open spec fn argument(parts: Seq<Seq<char>>) -> Option<Seq<char>> {
    if parts.len() >= 2 {
        Some(parts[1])
    } else {
        None
    }
}

/// What a command behind a dot asks for: its first word names it, its
/// second word is its argument.
pub open spec fn dot_command(typed: Seq<char>) -> LineModel {
    let parts = words(typed);
    if parts.len() == 0 {
        LineModel::Unknown(typed)
    } else if parts[0] == seq!['h', 'e', 'l', 'p'] {
        LineModel::Help
    } else if parts[0] == seq!['e', 'x', 'i', 't'] || parts[0] == seq!['q', 'u', 'i', 't'] {
        LineModel::Exit
    } else if parts[0] == seq!['c', 'o', 'n', 'n', 'e', 'c', 't'] {
        LineModel::Connect(argument(parts))
    } else if parts[0] == seq!['l', 'i', 's', 't'] {
        LineModel::List(argument(parts))
    } else if parts[0] == seq!['f', 'o', 'r', 'm', 'a', 't'] {
        LineModel::Format(argument(parts))
    } else if parts[0] == seq!['h', 'i', 's', 't', 'o', 'r', 'y'] {
        LineModel::History(argument(parts))
    } else {
        LineModel::Unknown(typed)
    }
}

/// What a line asks for. White space around it does not count. A line
/// that starts with a dot is a command of the session; any other line is a
/// query.
pub open spec fn line_command(line: Seq<char>) -> LineModel {
    let text = trimmed(line);
    if text.len() == 0 {
        LineModel::Nothing
    } else if text[0] == '.' {
        dot_command(text.skip(1))
    } else {
        LineModel::Query(text)
    }
}

/// The texts of a list of character vectors, in order.
pub open spec fn texts(v: Seq<Vec<char>>) -> Seq<Seq<char>> {
    v.map_values(|w: Vec<char>| w@)
}

/// The words of the characters from `from` on.
pub fn split_words(v: &Vec<char>, from: usize) -> (r: Vec<Vec<char>>)
    requires
        from <= v.len(),
    ensures
        texts(r@) == words(v@.skip(from as int)),
{
    let ghost t = v@.skip(from as int);
    let mut done: Vec<Vec<char>> = Vec::new();
    let mut current: Vec<char> = Vec::new();
    let mut i: usize = from;
    assert(t.take(0).len() == 0);
    assert(texts(done@) =~= Seq::<Seq<char>>::empty());
    while i < v.len()
        invariant
            from <= i <= v.len(),
            t == v@.skip(from as int),
            current@.len() > 0 <==> i > from && !is_space(v@[i - 1]),
            words(t.take(i - from)) == (if current@.len() > 0 {
                texts(done@).push(current@)
            } else {
                texts(done@)
            }),
        decreases v.len() - i,
    {
        let c = v[i];
        let ghost head = t.take(i - from);
        let ghost next = t.take(i - from + 1);
        proof {
            assert(next.drop_last() == head);
            assert(next.last() == c);
            if i > from {
                assert(next[next.len() - 2] == v@[i - 1]);
            }
        }
        if char_is_space(c) {
            if current.len() > 0 {
                let ghost listed = texts(done@);
                done.push(current);
                assert(texts(done@) =~= listed.push(current@));
                current = Vec::new();
            }
        } else {
            let ghost before = current@;
            current.push(c);
            proof {
                if before.len() > 0 {
                    assert(words(head).drop_last() =~= texts(done@));
                    assert(words(head).last() == before);
                } else {
                    assert(current@ =~= seq![c]);
                    if i > from {
                        assert(is_space(v@[i - 1]));
                    } else {
                        assert(next.len() == 1);
                    }
                }
            }
        }
        i += 1;
    }
    assert(t.take(i - from) == t);
    if current.len() > 0 {
        let ghost listed = texts(done@);
        done.push(current);
        assert(texts(done@) =~= listed.push(current@));
    }
    done
}

/// The second of the words as a string, if there is one.
fn argument_of(parts: &Vec<Vec<char>>) -> (r: Option<String>)
    ensures
        word_model(r) == argument(texts(parts@)),
{
    if parts.len() >= 2 {
        assert(texts(parts@)[1] == parts@[1]@);
        Some(string_of(&parts[1]))
    } else {
        None
    }
}

/// Whether a word is the given text.
fn word_is(word: &Vec<char>, text: &str) -> (r: bool)
    ensures
        r == (word@ == text@),
{
    let other = chars_of(text);
    same_text(word, &other)
}

/// What a line asks for.
pub fn classify_line(line: &str) -> (r: LineCommand)
    ensures
        r@ == line_command(line@),
{
    let text = trim_chars(line);
    if text.len() == 0 {
        return LineCommand::Nothing;
    }
    if text[0] != '.' {
        return LineCommand::Query(string_of(&text));
    }
    let parts = split_words(&text, 1);
    let ghost typed = text@.skip(1);
    if parts.len() == 0 {
        return LineCommand::Unknown(crate::text::string_of_range(&text, 1, text.len()));
    }
    assert(texts(parts@)[0] == parts@[0]@);
    proof {
        reveal_strlit("help");
        reveal_strlit("exit");
        reveal_strlit("quit");
        reveal_strlit("connect");
        reveal_strlit("list");
        reveal_strlit("format");
        reveal_strlit("history");
        assert("help"@ =~= seq!['h', 'e', 'l', 'p']);
        assert("exit"@ =~= seq!['e', 'x', 'i', 't']);
        assert("quit"@ =~= seq!['q', 'u', 'i', 't']);
        assert("connect"@ =~= seq!['c', 'o', 'n', 'n', 'e', 'c', 't']);
        assert("list"@ =~= seq!['l', 'i', 's', 't']);
        assert("format"@ =~= seq!['f', 'o', 'r', 'm', 'a', 't']);
        assert("history"@ =~= seq!['h', 'i', 's', 't', 'o', 'r', 'y']);
    }
    let name = &parts[0];
    if word_is(name, "help") {
        LineCommand::Help
    } else if word_is(name, "exit") || word_is(name, "quit") {
        LineCommand::Exit
    } else if word_is(name, "connect") {
        LineCommand::Connect(argument_of(&parts))
    } else if word_is(name, "list") {
        LineCommand::List(argument_of(&parts))
    } else if word_is(name, "format") {
        LineCommand::Format(argument_of(&parts))
    } else if word_is(name, "history") {
        LineCommand::History(argument_of(&parts))
    } else {
        LineCommand::Unknown(crate::text::string_of_range(&text, 1, text.len()))
    }
}

/// The format that a word names, if it names one.
pub fn parse_format(word: &str) -> (r: Option<OutputFormat>)
    ensures
        r == format_named(word@),
{
    let w = chars_of(word);
    proof {
        reveal_strlit("text");
        reveal_strlit("json");
        reveal_strlit("table");
        assert("text"@ =~= seq!['t', 'e', 'x', 't']);
        assert("json"@ =~= seq!['j', 's', 'o', 'n']);
        assert("table"@ =~= seq!['t', 'a', 'b', 'l', 'e']);
    }
    if word_is(&w, "text") {
        Some(OutputFormat::Text)
    } else if word_is(&w, "json") {
        Some(OutputFormat::Json)
    } else if word_is(&w, "table") {
        Some(OutputFormat::Table)
    } else {
        None
    }
}

} // verus!
