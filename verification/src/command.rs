use vstd::prelude::*;

verus! {

/// The unit of mutation and query, shared by the client, the server and the
/// on-disk log. `Set` and `Rm` are the only commands ever appended to the
/// log; `Get` travels over the wire but is never persisted.
pub enum Command {
    Put { key: String, value: String },
    Rm { key: String },
    Get { key: String },
}

/// The mathematical shape of a [`Command`]: the same three variants over
/// character sequences.
pub enum CommandView {
    Put { key: Seq<char>, value: Seq<char> },
    Rm { key: Seq<char> },
    Get { key: Seq<char> },
}

impl View for Command {
    type V = CommandView;

    open spec fn view(&self) -> CommandView {
        match self {
            Command::Put { key, value } => CommandView::Put { key: key@, value: value@ },
            Command::Rm { key } => CommandView::Rm { key: key@ },
            Command::Get { key } => CommandView::Get { key: key@ },
        }
    }
}

} // verus!
