//! The commands of the store's command line: a line's words decide the command.

use vstd::prelude::*;

verus! {

/// A command that takes a fixed number of arguments.
#[derive(PartialEq, Eq, Structural, Clone, Copy, Debug)]
pub enum Verb {
    Insert,
    Delete,
    Lookup,
}

/// What a command line asks for.
#[derive(Debug)]
pub enum Command {
    /// Map a key to a value.
    Insert(String, String),
    /// Remove a key.
    Delete(String),
    /// Look a key up.
    Lookup(String),
    /// List every entry.
    List,
    /// The `logic` command, which has no implementation.
    Logic,
    /// A known command with the wrong number of arguments.
    WrongArity(Verb),
    /// A word that names no command.
    Unknown,
}

/// The command that the words `ws` of a line ask for: the first word names it,
/// the rest are its arguments.
pub open spec fn command_matches(ws: Seq<Seq<char>>, c: Command) -> bool {
    let verb = ws[0];
    if verb == "insert"@ {
        if ws.len() == 3 {
            c matches Command::Insert(k, v) && k@ == ws[1] && v@ == ws[2]
        } else {
            c == Command::WrongArity(Verb::Insert)
        }
    } else if verb == "delete"@ {
        if ws.len() == 2 {
            c matches Command::Delete(k) && k@ == ws[1]
        } else {
            c == Command::WrongArity(Verb::Delete)
        }
    } else if verb == "lookup"@ {
        if ws.len() == 2 {
            c matches Command::Lookup(k) && k@ == ws[1]
        } else {
            c == Command::WrongArity(Verb::Lookup)
        }
    } else if verb == "list"@ {
        c is List
    } else if verb == "logic"@ {
        c is Logic
    } else {
        c is Unknown
    }
}

/// The views of a line's words.
pub open spec fn word_views(words: Seq<String>) -> Seq<Seq<char>> {
    words.map_values(|w: String| w@)
}

/// Decides the command that a line's words ask for. A line has at least one word.
pub fn parse_command(words: &Vec<String>) -> (c: Command)
    requires
        words@.len() >= 1,
    ensures
        command_matches(word_views(words@), c),
{
    let ghost ws = word_views(words@);
    proof {
        reveal_strlit("insert");
        reveal_strlit("delete");
        reveal_strlit("lookup");
        reveal_strlit("list");
        reveal_strlit("logic");
        assert(ws[0] == words@[0]@);
    }
    let verb = &words[0];
    let n = words.len();
    if verb.eq(&"insert".to_owned()) {
        if n == 3 {
            proof {
                assert(ws[1] == words@[1]@ && ws[2] == words@[2]@);
            }
            Command::Insert(words[1].clone(), words[2].clone())
        } else {
            Command::WrongArity(Verb::Insert)
        }
    } else if verb.eq(&"delete".to_owned()) {
        if n == 2 {
            proof {
                assert(ws[1] == words@[1]@);
            }
            Command::Delete(words[1].clone())
        } else {
            Command::WrongArity(Verb::Delete)
        }
    } else if verb.eq(&"lookup".to_owned()) {
        if n == 2 {
            proof {
                assert(ws[1] == words@[1]@);
            }
            Command::Lookup(words[1].clone())
        } else {
            Command::WrongArity(Verb::Lookup)
        }
    } else if verb.eq(&"list".to_owned()) {
        Command::List
    } else if verb.eq(&"logic".to_owned()) {
        Command::Logic
    } else {
        Command::Unknown
    }
}

/// The message printed for a command given the wrong number of arguments.
pub fn usage(v: Verb) -> (m: &'static str)
    ensures
        m@ == match v {
            Verb::Insert => "insert requires 2 parameters: Key and Value"@,
            Verb::Delete => "delete requires 1 parameter: Key"@,
            Verb::Lookup => "lookup requires 1 parameter: Key"@,
        },
{
    match v {
        Verb::Insert => "insert requires 2 parameters: Key and Value",
        Verb::Delete => "delete requires 1 parameter: Key",
        Verb::Lookup => "lookup requires 1 parameter: Key",
    }
}

/// The five command words differ from one another.
proof fn lemma_command_words_differ()
    ensures
        "insert"@ != "delete"@,
        "insert"@ != "lookup"@,
        "insert"@ != "list"@,
        "insert"@ != "logic"@,
        "delete"@ != "lookup"@,
        "delete"@ != "list"@,
        "delete"@ != "logic"@,
        "lookup"@ != "list"@,
        "lookup"@ != "logic"@,
        "list"@ != "logic"@,
{
    reveal_strlit("insert");
    reveal_strlit("delete");
    reveal_strlit("lookup");
    reveal_strlit("list");
    reveal_strlit("logic");
    assert("insert"@[0] != "delete"@[0]);
    assert("insert"@[0] != "lookup"@[0]);
    assert("insert"@.len() != "list"@.len());
    assert("insert"@.len() != "logic"@.len());
    assert("delete"@[0] != "lookup"@[0]);
    assert("delete"@.len() != "list"@.len());
    assert("delete"@.len() != "logic"@.len());
    assert("lookup"@.len() != "list"@.len());
    assert("lookup"@.len() != "logic"@.len());
    assert("list"@.len() != "logic"@.len());
}

/// A line whose first word is `insert` is an insertion exactly when it has
/// three words, of the second word as key and the third as value; with any
/// other number of words it is a usage error of `insert`, never an insertion.
pub proof fn law_insert_needs_two_arguments(ws: Seq<Seq<char>>, c: Command)
    requires
        ws.len() >= 1,
        ws[0] == "insert"@,
        command_matches(ws, c),
    ensures
        (c is Insert) <==> ws.len() == 3,
        c matches Command::Insert(k, v) ==> k@ == ws[1] && v@ == ws[2],
        ws.len() != 3 ==> c == Command::WrongArity(Verb::Insert),
{
}

/// A line whose first word is `delete` is a deletion exactly when it has two
/// words, of the second word; with any other number of words it is a usage
/// error of `delete`, never a deletion.
pub proof fn law_delete_needs_one_argument(ws: Seq<Seq<char>>, c: Command)
    requires
        ws.len() >= 1,
        ws[0] == "delete"@,
        command_matches(ws, c),
    ensures
        (c is Delete) <==> ws.len() == 2,
        c matches Command::Delete(k) ==> k@ == ws[1],
        ws.len() != 2 ==> c == Command::WrongArity(Verb::Delete),
        !(c is Insert) && !(c is Lookup),
{
    lemma_command_words_differ();
}

/// A line whose first word is `lookup` is a lookup exactly when it has two
/// words, of the second word; with any other number of words it is a usage
/// error of `lookup`, never a lookup.
pub proof fn law_lookup_needs_one_argument(ws: Seq<Seq<char>>, c: Command)
    requires
        ws.len() >= 1,
        ws[0] == "lookup"@,
        command_matches(ws, c),
    ensures
        (c is Lookup) <==> ws.len() == 2,
        c matches Command::Lookup(k) ==> k@ == ws[1],
        ws.len() != 2 ==> c == Command::WrongArity(Verb::Lookup),
        !(c is Insert) && !(c is Delete),
{
    lemma_command_words_differ();
}

/// `list` and `logic` ignore any further words; a first word that names no
/// command gives `Unknown`, and only the three commands with arguments can
/// change the store.
pub proof fn law_other_commands(ws: Seq<Seq<char>>, c: Command)
    requires
        ws.len() >= 1,
        command_matches(ws, c),
    ensures
        ws[0] == "list"@ ==> c is List,
        ws[0] == "logic"@ ==> c is Logic,
        ws[0] != "insert"@ && ws[0] != "delete"@ && ws[0] != "lookup"@ && ws[0] != "list"@ && ws[0] != "logic"@
            ==> c is Unknown,
        c is Insert ==> ws[0] == "insert"@,
        c is Delete ==> ws[0] == "delete"@,
{
    lemma_command_words_differ();
}

} // verus!
