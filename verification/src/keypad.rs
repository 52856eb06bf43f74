//! Editing the equation with the calculator's buttons.

use vstd::prelude::*;
use crate::term::{classify, function_name, law_name_then_argument, Function};
use crate::text::string_push;

verus! {

/// A button of the keypad.
#[derive(Clone, Copy, Debug, PartialEq, Eq, Structural)]
pub enum Key {
    /// Types one character.
    Char(char),
    /// Types the name of a function.
    Word(Function),
    /// Removes the last character, if there is one.
    Backspace,
    /// Removes everything.
    Clear,
}

/// The equation after a button is pressed.
pub open spec fn after_key(equ: Seq<char>, key: Key) -> Seq<char> {
    match key {
        Key::Char(c) => equ.push(c),
        Key::Word(f) => equ + function_name(f),
        Key::Backspace => if equ.len() == 0 { equ } else { equ.drop_last() },
        Key::Clear => Seq::empty(),
    }
}

/// `String::pop` removes the last character of the string and returns it,
/// or returns `None` and leaves the string as it is when it is empty.
#[verifier::external_body]
fn string_pop(s: &mut String) -> (r: Option<char>)
    ensures
        old(s)@.len() == 0 ==> r is None && final(s)@ == old(s)@,
        old(s)@.len() > 0 ==> r == Some(old(s)@.last()) && final(s)@ == old(s)@.drop_last(),
{
    s.pop()
}

/// Applies a button to the equation, as `after_key` says.
pub fn press(equ: &mut String, key: Key)
    ensures
        final(equ)@ == after_key(old(equ)@, key),
{
    match key {
        Key::Char(c) => string_push(equ, c),
        Key::Word(f) => {
            let word = match f {
                Function::Asin => "asin",
                Function::Acos => "acos",
                Function::Atan => "atan",
                Function::Acsc => "acsc",
                Function::Asec => "asec",
                Function::Acot => "acot",
                Function::Sin => "sin",
                Function::Cos => "cos",
                Function::Tan => "tan",
                Function::Csc => "csc",
                Function::Sec => "sec",
                Function::Cot => "cot",
            };
            proof {
                reveal_strlit("asin");
                reveal_strlit("acos");
                reveal_strlit("atan");
                reveal_strlit("acsc");
                reveal_strlit("asec");
                reveal_strlit("acot");
                reveal_strlit("sin");
                reveal_strlit("cos");
                reveal_strlit("tan");
                reveal_strlit("csc");
                reveal_strlit("sec");
                reveal_strlit("cot");
            }
            assert(word@ =~= function_name(f));
            equ.append(word);
        },
        Key::Backspace => {
            string_pop(equ);
        },
        Key::Clear => {
            *equ = String::new();
        },
    }
}

/// Backspace takes back the character just typed.
pub proof fn law_backspace_undoes_char(equ: Seq<char>, c: char)
    ensures
        after_key(after_key(equ, Key::Char(c)), Key::Backspace) == equ,
{
    assert(equ.push(c).drop_last() =~= equ);
}

/// Pressing a function's button keeps the equation as it was and types
/// that function's name after it: what was typed, followed by a number, is
/// read as that function applied to the number.
pub proof fn law_word_key_types_function(equ: Seq<char>, f: Function, a: Seq<char>)
    requires
        a.len() >= 1,
    ensures
        after_key(equ, Key::Word(f)).take(equ.len() as int) == equ,
        classify(after_key(equ, Key::Word(f)).skip(equ.len() as int) + a) == (Some(f), a),
{
    let r = after_key(equ, Key::Word(f));
    assert(r.take(equ.len() as int) =~= equ);
    assert(r.skip(equ.len() as int) =~= function_name(f));
    law_name_then_argument(f, a);
}

/// A character key adds just that character at the end; Clear leaves
/// nothing; Backspace on an empty equation leaves it empty.
pub proof fn law_keys_edit_the_end(equ: Seq<char>, c: char)
    ensures
        after_key(equ, Key::Char(c)).len() == equ.len() + 1,
        after_key(equ, Key::Char(c)).take(equ.len() as int) == equ,
        after_key(equ, Key::Char(c))[equ.len() as int] == c,
        after_key(equ, Key::Clear).len() == 0,
        equ.len() == 0 ==> after_key(equ, Key::Backspace).len() == 0,
        equ.len() > 0 ==> after_key(equ, Key::Backspace).len() == equ.len() - 1
            && equ.take(equ.len() - 1) == after_key(equ, Key::Backspace),
{
    assert(equ.push(c).take(equ.len() as int) =~= equ);
    if equ.len() > 0 {
        assert(equ.take(equ.len() - 1) =~= equ.drop_last());
    }
}

} // verus!
