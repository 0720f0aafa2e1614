//! The menu navigation state machine. Nodes live in an arena and refer to
//! their children by index, which makes the cyclic navigation graph (the
//! working branches loop back to the root menu) explicit and safe. The
//! interactive effects of an action happen outside the library; the
//! dispatcher only decides, from the index an action selected, which node
//! runs next.

use vstd::prelude::*;

verus! {

/// What a node's action does when the node is visited.
#[derive(Clone, Copy, PartialEq, Eq, Structural, Debug)]
pub enum Action {
    /// Present the main menu and return the chosen branch index.
    Menu,
    /// List the recorded transactions with the running total.
    List,
    /// Build one transaction interactively and append it to the store.
    Touch,
    /// Terminate the session.
    Quit,
}

/// One menu node: its action tag and the arena indices of its children.
pub struct Node {
    pub action: Action,
    pub children: Vec<usize>,
}

impl Node {
    /// A node with no children yet.
    pub fn new(action: Action) -> (n: Node)
        ensures
            n.action == action,
            n.children@ == Seq::<usize>::empty(),
    {
        let n = Node { action, children: Vec::new() };
        proof {
            assert(n.children@ =~= Seq::<usize>::empty());
        }
        n
    }

    /// Links the node at arena index `child` as this node's next child.
    pub fn add_child(&mut self, child: usize)
        ensures
            final(self).action == old(self).action,
            final(self).children@ == old(self).children@.push(child),
    {
        self.children.push(child);
    }

    /// One dispatch step: the node's action selected index `choice`; the
    /// child at that position runs next, and a choice past the last child
    /// ends the traversal successfully.
    pub fn run(&self, choice: usize) -> (r: Option<usize>)
        ensures
            r == (if choice < self.children@.len() {
                Some(self.children@[choice as int])
            } else {
                None::<usize>
            }),
    {
        if choice < self.children.len() {
            Some(self.children[choice])
        } else {
            None
        }
    }
}

/// The arena of menu nodes.
pub struct Tree {
    pub nodes: Vec<Node>,
}

impl Tree {
    /// Every child index points into the arena, so a traversal can never
    /// step outside it.
    pub open spec fn wf(self) -> bool {
        forall|i: int, j: int|
            0 <= i < self.nodes@.len() && 0 <= j < self.nodes@[i].children@.len()
                ==> #[trigger] self.nodes@[i].children@[j] < self.nodes@.len()
    }

    /// One traversal step from node `at`, given the index its action
    /// selected; the next node index stays inside the arena.
    pub fn step(&self, at: usize, choice: usize) -> (r: Option<usize>)
        requires
            self.wf(),
            at < self.nodes@.len(),
        ensures
            r == (if choice < self.nodes@[at as int].children@.len() {
                Some(self.nodes@[at as int].children@[choice as int])
            } else {
                None::<usize>
            }),
            match r {
                Some(nxt) => nxt < self.nodes@.len(),
                None => true,
            },
    {
        self.nodes[at].run(choice)
    }
}

} // verus!
