//! Dialogue trees: named nodes of what an NPC says, with the player's choices.
use vstd::prelude::*;
use vstd::string::StringSliceAdditionalSpecFns;

verus! {

/// One response option the player can pick.
pub struct DialogueChoice {
    /// Button label shown to the player.
    pub text: &'static str,
    /// Name of the next node, or `None` to end the conversation.
    pub next: Option<&'static str>,
}

/// One node of a dialogue tree: a name, what the NPC says, and the player's choices.
pub struct DialogueNode {
    pub name: &'static str,
    pub text: &'static str,
    pub choices: Vec<DialogueChoice>,
}

/// A conversation: its nodes, the first being where it starts.
pub struct DialogueTree {
    pub nodes: Vec<DialogueNode>,
}

/// A tree of the given nodes.
pub fn dialogue_tree(nodes: Vec<DialogueNode>) -> (t: DialogueTree)
    ensures
        t.nodes@ == nodes@,
{
    DialogueTree { nodes }
}

/// A named node.
pub fn node(name: &'static str, text: &'static str, choices: Vec<DialogueChoice>) -> (n: DialogueNode)
    ensures
        n.name == name,
        n.text == text,
        n.choices@ == choices@,
{
    DialogueNode { name, text, choices }
}

/// A choice that advances to the node named `next`.
pub fn go(text: &'static str, next: &'static str) -> (c: DialogueChoice)
    ensures
        c.text == text,
        c.next == Some(next),
{
    DialogueChoice { text, next: Some(next) }
}

/// A choice that ends the conversation.
pub fn end(text: &'static str) -> (c: DialogueChoice)
    ensures
        c.text == text,
        c.next is None,
{
    DialogueChoice { text, next: None }
}

/// Whether two strings are equal, byte for byte.
pub fn same_str(a: &str, b: &str) -> (r: bool)
    ensures
        r == (a.spec_bytes() == b.spec_bytes()),
{
    let x = a.as_bytes();
    let y = b.as_bytes();
    if x.len() != y.len() {
        return false;
    }
    let mut i: usize = 0;
    while i < x.len()
        invariant
            x@ == a.spec_bytes(),
            y@ == b.spec_bytes(),
            x@.len() == y@.len(),
            i <= x@.len(),
            forall|j: int| 0 <= j < i ==> x@[j] == y@[j],
        decreases x@.len() - i,
    {
        if x[i] != y[i] {
            return false;
        }
        i = i + 1;
    }
    assert(x@ =~= y@);
    true
}

/// Node `i` of `nodes` is the first named `name`.
pub open spec fn first_named(nodes: Seq<DialogueNode>, name: &str, i: int) -> bool {
    &&& 0 <= i < nodes.len()
    &&& nodes[i].name.spec_bytes() == name.spec_bytes()
    &&& forall|j: int| 0 <= j < i ==> (#[trigger] nodes[j]).name.spec_bytes() != name.spec_bytes()
}

impl DialogueTree {
    /// The first node named `name`, or the first node of the tree when none is.
    pub fn find(&self, name: &str) -> (n: &DialogueNode)
        requires
            self.nodes@.len() > 0,
        ensures
            (exists|i: int| first_named(self.nodes@, name, i) && *n == self.nodes@[i])
                || ((forall|j: int| 0 <= j < self.nodes@.len() ==> (#[trigger] self.nodes@[j]).name.spec_bytes() != name.spec_bytes())
                    && *n == self.nodes@[0]),
    {
        let mut i: usize = 0;
        while i < self.nodes.len()
            invariant
                i <= self.nodes@.len(),
                forall|j: int| 0 <= j < i ==> (#[trigger] self.nodes@[j]).name.spec_bytes() != name.spec_bytes(),
            decreases self.nodes@.len() - i,
        {
            if same_str(self.nodes[i].name, name) {
                assert(first_named(self.nodes@, name, i as int));
                return &self.nodes[i];
            }
            i = i + 1;
        }
        &self.nodes[0]
    }
}

} // verus!
