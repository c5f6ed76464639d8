//! The result items of the Alfred Workflow output.
use vstd::prelude::*;
use crate::strings::{copy_str, join, spec_join, views};

verus! {

/// The whole output: a list of items.
pub struct AlfredOutput {
    pub items: Vec<AlfredItem>,
}

/// One result: what Alfred shows, and what it copies or pastes.
pub struct AlfredItem {
    pub uid: String,
    pub title: String,
    pub subtitle: String,
    pub arg: String,
    pub text: AlfredText,
    pub icon: AlfredIcon,
}

/// The text that Alfred copies and shows in large type.
pub struct AlfredText {
    pub copy: String,
    pub largetype: String,
}

/// The item's icon.
pub struct AlfredIcon {
    pub icon_type: String,
}

/// `item` has these four fields, copies and shows `arg` in large type, and
/// has the default icon.
pub open spec fn item_is(
    item: AlfredItem,
    uid: Seq<char>,
    title: Seq<char>,
    subtitle: Seq<char>,
    arg: Seq<char>,
) -> bool {
    &&& item.uid@ == uid
    &&& item.title@ == title
    &&& item.subtitle@ == subtitle
    &&& item.arg@ == arg
    &&& item.text.copy@ == arg
    &&& item.text.largetype@ == arg
    &&& item.icon.icon_type@ == "default"@
}

impl AlfredItem {
    /// An item whose copied and large-type text is its `arg`.
    pub fn new(uid: &str, title: &str, subtitle: &str, arg: &str) -> (r: Self)
        ensures
            item_is(r, uid@, title@, subtitle@, arg@),
    {
        AlfredItem {
            uid: copy_str(uid),
            title: copy_str(title),
            subtitle: copy_str(subtitle),
            arg: copy_str(arg),
            text: AlfredText { copy: copy_str(arg), largetype: copy_str(arg) },
            icon: AlfredIcon { icon_type: copy_str("default") },
        }
    }
}

/// The output holding `items`.
pub fn alfred_output(items: Vec<AlfredItem>) -> (r: AlfredOutput)
    ensures
        r.items@ == items@,
{
    AlfredOutput { items }
}


/// Whether to answer with Alfred items: when asked to, or when the output
/// goes to something other than a terminal.
pub fn is_alfred_env(flag: bool, stdout_is_terminal: bool) -> (r: bool)
    ensures
        r == (flag || !stdout_is_terminal),
{
    flag || !stdout_is_terminal
}


/// The input given on the command line: its words joined by spaces, or
/// nothing when no word was given (the input is then read from a pipe).
pub fn joined_input(input: &Option<Vec<String>>) -> (r: Option<String>)
    ensures
        match input {
            Some(v) if v@.len() > 0 => r is Some && r->0@ == spec_join(views(v@), seq![' ']),
            _ => r is None,
        },
{
    match input {
        Some(v) => {
            if v.len() > 0 {
                let sp = " ";
                proof {
                    reveal_strlit(" ");
                    assert(sp@ =~= seq![' ']);
                }
                Some(join(v.as_slice(), sp))
            } else {
                None
            }
        },
        None => None,
    }
}

} // verus!
