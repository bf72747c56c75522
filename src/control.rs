//! The data carried by the moderation buttons of a document: which edit, of which
//! document, in which language.

use crate::text::{int_in_range, lemma_signed_decimal_reads_back, parse_int, signed_decimal, signed_decimal_string};
use vstd::prelude::*;
use vstd::string::{StrSliceExecFns, StringExecFns};

verus! {

/// An edit that a moderator can start on a document.
#[derive(Clone, Copy, Debug, PartialEq, Eq, Structural)]
pub enum MemeEditAction {
    Ai,
    Slug,
    Title,
    Caption,
    Description,
    Text,
    Source,
    Publish,
    Draft,
    Trash,
    File,
}

/// The character that stands for an action in button data.
pub open spec fn action_char(a: MemeEditAction) -> char {
    match a {
        MemeEditAction::Ai => 'a',
        MemeEditAction::Title => 't',
        MemeEditAction::Slug => 's',
        MemeEditAction::Caption => 'c',
        MemeEditAction::Description => 'd',
        MemeEditAction::Text => 'e',
        MemeEditAction::Source => 'm',
        MemeEditAction::Publish => 'p',
        MemeEditAction::Draft => 'r',
        MemeEditAction::Trash => 'h',
        MemeEditAction::File => 'f',
    }
}

/// Why button data could not be read.
#[derive(Clone, Copy, Debug, PartialEq, Eq, Structural)]
pub enum CallbackError {
    /// The data is empty.
    Empty,
    /// The first character names no action.
    UnknownAction,
    /// What follows the language is not a document id.
    BadId,
}

impl MemeEditAction {
    /// The action's character.
    pub fn to_char(&self) -> (r: char)
        ensures
            r == action_char(*self),
    {
        match self {
            MemeEditAction::Ai => 'a',
            MemeEditAction::Title => 't',
            MemeEditAction::Slug => 's',
            MemeEditAction::Caption => 'c',
            MemeEditAction::Description => 'd',
            MemeEditAction::Text => 'e',
            MemeEditAction::Source => 'm',
            MemeEditAction::Publish => 'p',
            MemeEditAction::Draft => 'r',
            MemeEditAction::Trash => 'h',
            MemeEditAction::File => 'f',
        }
    }

    /// The action that a character stands for.
    pub fn from_char(c: char) -> (r: Result<MemeEditAction, CallbackError>)
        ensures
            r matches Ok(a) ==> action_char(a) == c,
            r is Err ==> r == Err::<MemeEditAction, CallbackError>(CallbackError::UnknownAction)
                && forall|a: MemeEditAction| action_char(a) != c,
    {
        let r = if c == 'a' {
            MemeEditAction::Ai
        } else if c == 't' {
            MemeEditAction::Title
        } else if c == 's' {
            MemeEditAction::Slug
        } else if c == 'c' {
            MemeEditAction::Caption
        } else if c == 'd' {
            MemeEditAction::Description
        } else if c == 'e' {
            MemeEditAction::Text
        } else if c == 'm' {
            MemeEditAction::Source
        } else if c == 'p' {
            MemeEditAction::Publish
        } else if c == 'r' {
            MemeEditAction::Draft
        } else if c == 'h' {
            MemeEditAction::Trash
        } else if c == 'f' {
            MemeEditAction::File
        } else {
            return Err(CallbackError::UnknownAction);
        };
        Ok(r)
    }
}

/// The data of one moderation button.
#[derive(Debug)]
pub struct MemeEditCallback {
    pub action: MemeEditAction,
    pub meme_id: i32,
    pub language: String,
}

/// The button data of a callback: the action's character, the language, the document id.
pub open spec fn callback_text(c: MemeEditCallback) -> Seq<char> {
    seq![action_char(c.action)] + c.language@ + signed_decimal(c.meme_id as int)
}

/// What reading `s` as button data gives: the action from the first character, the
/// language from the next two (fewer when `s` is shorter), the id from the rest.
pub open spec fn callback_of(s: Seq<char>) -> Result<(MemeEditAction, Seq<char>, i32), CallbackError> {
    if s.len() == 0 {
        Err(CallbackError::Empty)
    } else if forall|a: MemeEditAction| action_char(a) != s[0] {
        Err(CallbackError::UnknownAction)
    } else {
        let lang_end: int = if s.len() < 3 { s.len() as int } else { 3 };
        match int_in_range(s.subrange(lang_end, s.len() as int), i32::MIN as int, i32::MAX as int) {
            Some(id) => Ok(
                (choose|a: MemeEditAction| action_char(a) == s[0], s.subrange(1, lang_end), id as i32),
            ),
            None => Err(CallbackError::BadId),
        }
    }
}

proof fn lemma_action_char_injective(a: MemeEditAction, b: MemeEditAction)
    requires
        action_char(a) == action_char(b),
    ensures
        a == b,
{
}

fn action_str(a: MemeEditAction) -> (r: &'static str)
    ensures
        r@ == seq![action_char(a)],
{
    proof {
        reveal_strlit("a");
        reveal_strlit("t");
        reveal_strlit("s");
        reveal_strlit("c");
        reveal_strlit("d");
        reveal_strlit("e");
        reveal_strlit("m");
        reveal_strlit("p");
        reveal_strlit("r");
        reveal_strlit("h");
        reveal_strlit("f");
    }
    let r = match a {
        MemeEditAction::Ai => "a",
        MemeEditAction::Title => "t",
        MemeEditAction::Slug => "s",
        MemeEditAction::Caption => "c",
        MemeEditAction::Description => "d",
        MemeEditAction::Text => "e",
        MemeEditAction::Source => "m",
        MemeEditAction::Publish => "p",
        MemeEditAction::Draft => "r",
        MemeEditAction::Trash => "h",
        MemeEditAction::File => "f",
    };
    assert(r@ =~= seq![action_char(a)]);
    r
}

/// Button data reads back as the callback it was made from, when the language has the two
/// characters that reading takes.
pub proof fn lemma_callback_round_trip(c: MemeEditCallback)
    requires
        c.language@.len() == 2,
    ensures
        callback_of(callback_text(c)) == Ok::<(MemeEditAction, Seq<char>, i32), CallbackError>(
            (c.action, c.language@, c.meme_id),
        ),
{
    let t = callback_text(c);
    let d = signed_decimal(c.meme_id as int);
    lemma_signed_decimal_reads_back(c.meme_id as int);
    assert(t[0] == action_char(c.action));
    assert(t.subrange(3, t.len() as int) =~= d);
    assert(t.subrange(1, 3) =~= c.language@);
    assert forall|b: MemeEditAction| action_char(b) == t[0] implies b == c.action by {
        lemma_action_char_injective(b, c.action);
    }
    assert(!(forall|a: MemeEditAction| action_char(a) != t[0]));
}

impl MemeEditCallback {
    /// The button data.
    pub fn to_callback_data(&self) -> (r: String)
        ensures
            r@ == callback_text(*self),
    {
        let id = signed_decimal_string(self.meme_id as i64);
        let r = String::from_str(action_str(self.action)).concat(self.language.as_str()).concat(id.as_str());
        assert(r@ =~= callback_text(*self));
        r
    }

    /// Reads button data.
    pub fn from_str(s: &str) -> (r: Result<MemeEditCallback, CallbackError>)
        ensures
            r matches Ok(c) ==> callback_of(s@) == Ok::<(MemeEditAction, Seq<char>, i32), CallbackError>(
                (c.action, c.language@, c.meme_id),
            ),
            r matches Err(e) ==> callback_of(s@) == Err::<(MemeEditAction, Seq<char>, i32), CallbackError>(e),
    {
        let n = s.unicode_len();
        if n == 0 {
            return Err(CallbackError::Empty);
        }
        let action = match MemeEditAction::from_char(s.get_char(0)) {
            Ok(a) => a,
            Err(e) => return Err(e),
        };
        proof {
            assert forall|b: MemeEditAction| action_char(b) == s@[0] implies b == action by {
                lemma_action_char_injective(b, action);
            }
        }
        let lang_end: usize = if n < 3 { n } else { 3 };
        let language = String::from_str(s.substring_char(1, lang_end));
        match parse_int(s, lang_end, n, i32::MIN as i64, i32::MAX as i64) {
            Some(id) => Ok(MemeEditCallback { action, meme_id: id as i32, language }),
            None => Err(CallbackError::BadId),
        }
    }
}

} // verus!
