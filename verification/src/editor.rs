//! What the user's editor command asks to run: the program and its
//! leading arguments. Spawning it is the binary's work.
use vstd::prelude::*;

use crate::config::{shell_split, shell_words};
use crate::text::joined as concat;

verus! {

/// The message given when no editor command names a program.
pub const NO_EDITOR: &'static str =
    "no editor configured: set the `editor` config key or the VISUAL or EDITOR environment variable";

/// The words a command splits into; a missing command splits as blank.
pub open spec fn command_words(command: Option<&str>) -> Option<Seq<Seq<char>>> {
    match command {
        Some(c) => shell_words(c@),
        None => shell_words(Seq::empty()),
    }
}

/// The program and leading arguments the editor `command` names, parsed
/// with shell quoting rules: the first word is the program, the rest its
/// leading arguments. A missing, blank or empty-program command names no
/// editor; an unclosed quote cannot be parsed.
pub fn invocation(command: Option<&str>) -> (r: Result<(String, Vec<String>), String>)
    ensures
        command_words(command) is None ==> (r matches Err(m) && m@
            == "cannot parse editor command: missing closing quote"@),
        command_words(command) matches Some(w) ==> ((w.len() == 0 || w[0].len() == 0) ==> (
        r matches Err(m) && m@ == NO_EDITOR@)),
        command_words(command) matches Some(w) ==> (w.len() > 0 && w[0].len() > 0 ==> (
        r matches Ok((p, a)) && p@ == w[0] && a@.map_values(|s: String| s@) == w.skip(1))),
{
    proof {
        reveal_strlit("");
    }
    let text = match command {
        Some(c) => c,
        None => "",
    };
    proof {
        if command is None {
            assert(text@ =~= Seq::<char>::empty());
        }
        assert(command_words(command) == shell_words(text@));
    }
    let words = match shell_split(text) {
        Ok(words) => words,
        Err(cause) => {
            proof {
                reveal_strlit("cannot parse editor command: ");
                reveal_strlit("missing closing quote");
                reveal_strlit("cannot parse editor command: missing closing quote");
                assert("cannot parse editor command: "@ + cause@ + ""@
                    =~= "cannot parse editor command: missing closing quote"@);
            }
            return Err(concat("cannot parse editor command: ", cause.as_str(), ""));
        },
    };
    let ghost w = words@.map_values(|s: String| s@);
    if words.len() == 0 || words[0].as_str().is_empty() {
        proof {
            if words.len() > 0 {
                assert(w[0] == words@[0]@);
            }
        }
        return Err(concat(NO_EDITOR, "", ""));
    }
    assert(w[0] == words@[0]@);
    let program = words[0].clone();
    let mut rest: Vec<String> = Vec::new();
    let mut i: usize = 1;
    while i < words.len()
        invariant
            1 <= i <= words@.len(),
            w == words@.map_values(|s: String| s@),
            rest@.map_values(|s: String| s@) == w.subrange(1, i as int),
        decreases words@.len() - i,
    {
        let ghost before = rest@.map_values(|s: String| s@);
        let word = words[i].clone();
        rest.push(word);
        assert(rest@.map_values(|s: String| s@) =~= before.push(w[i as int]));
        assert(w.subrange(1, i + 1) =~= w.subrange(1, i as int).push(w[i as int]));
        i += 1;
    }
    assert(w.subrange(1, words@.len() as int) =~= w.skip(1));
    Ok((program, rest))
}

} // verus!
