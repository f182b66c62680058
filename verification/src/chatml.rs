//! ChatML turn framing for the chat template the models were trained on.

use vstd::prelude::*;

verus! {

/// The text that opens the assistant's turn.
pub const ASSISTANT_OPEN: &'static str = "<|im_start|>assistant\n";

/// A complete turn: `<|im_start|>{role}\n{message}<|im_end|>\n`.
pub open spec fn turn(role: Seq<char>, message: Seq<char>) -> Seq<char> {
    "<|im_start|>"@ + role + "\n"@ + message + "<|im_end|>\n"@
}

fn make_turn(role: &str, message: &str) -> (s: String)
    ensures
        s@ == turn(role@, message@),
{
    let mut s = String::new();
    s.append("<|im_start|>");
    s.append(role);
    s.append("\n");
    s.append(message);
    s.append("<|im_end|>\n");
    assert(s@ =~= turn(role@, message@));
    s
}

/// The system turn holding `message`.
pub fn system_turn(message: &str) -> (s: String)
    ensures
        s@ == turn("system"@, message@),
{
    make_turn("system", message)
}

/// The user turn holding `message`.
pub fn user_turn(message: &str) -> (s: String)
    ensures
        s@ == turn("user"@, message@),
{
    make_turn("user", message)
}

/// The tool turn holding a tool's output.
pub fn tool_turn(content: &str) -> (s: String)
    ensures
        s@ == turn("tool"@, content@),
{
    make_turn("tool", content)
}

} // verus!
