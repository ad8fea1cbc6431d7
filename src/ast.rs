use vstd::prelude::*;

verus! {

/// One typed element of a document tree.
pub enum Node {
    Text { value: String },
    Emphasis { text: String },
    ExternalLink { title: Option<String>, url: String },
    InternalLink { title: String },
    HashTag { value: String },
    Heading { text: String, level: u8 },
    Paragraph { children: Vec<Node> },
    List { items: Vec<ListItem> },
    Table { name: String, cells: Vec<Vec<String>> },
    CodeBlock { file_name: String, lines: Vec<String> },
    BlockQuote { value: String },
    Math { value: String },
    Image { uri: String },
}

/// One item of a list: an ordered sequence of nodes.
pub struct ListItem {
    pub children: Vec<Node>,
}

/// The root of a document: its top-level nodes in order.
pub struct Page {
    pub nodes: Vec<Node>,
}

/// What a handler asks the traversal to do with the node it was given.
pub enum TransformCommand {
    /// Put this node in place of the visited one; it is not walked itself.
    Replace(Node),
}

/// Applies a handler's command to the visited node: a replacement takes its
/// place, no command keeps it.
pub fn apply_command(node: Node, command: Option<TransformCommand>) -> (r: Node)
    ensures
        r == (match command {
            Some(TransformCommand::Replace(n)) => n,
            None => node,
        }),
{
    match command {
        Some(TransformCommand::Replace(n)) => n,
        None => node,
    }
}

} // verus!
