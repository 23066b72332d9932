//! What the statistics writer records about graph requests.

use vstd::prelude::*;

verus! {

/// How a graph was asked for.
#[derive(Debug, Clone, Copy, PartialEq, Eq, Structural)]
pub enum CommandType {
    Chat,
    Slash,
}

/// The per-guild counter that a graph request of this kind adds to.
pub fn graph_counter_column(kind: CommandType) -> (r: &'static str)
    ensures
        r@ == (match kind {
            CommandType::Chat => "chat_graphs"@,
            CommandType::Slash => "slash_graphs"@,
        }),
{
    match kind {
        CommandType::Chat => "chat_graphs",
        CommandType::Slash => "slash_graphs",
    }
}

} // verus!
