use crate::text::append_decimal;
use crate::text::decimal_text;
use vstd::prelude::*;
use vstd::string::StringExecFns;

verus! {

/// Operations that only the optimizer introduces.
#[derive(Debug, Clone, Copy, PartialEq, Eq, Structural)]
pub enum OptimizedOp {
    /// Sets the current cell to zero; stands for `[+]` or `[-]`.
    ClearCell,
}

/// One operation of a program.
#[derive(Debug, PartialEq, Eq)]
pub enum BfOp {
    /// Net pointer shift of a run of `>` and `<`.
    PointerIncrement(isize),
    /// Net cell change of a run of `+` and `-`, applied modulo 256.
    Increment(i8),
    /// `.`
    OutputByte,
    /// `,`
    InputByte,
    /// `[ ... ]`
    Loop(Vec<BfOp>),
    /// An operation introduced by the optimizer.
    Optimized(OptimizedOp),
}

/// The mathematical syntax tree that a `BfOp` denotes.
pub enum Node {
    Move(isize),
    Add(i8),
    Output,
    Input,
    Loop(Seq<Node>),
    Clear,
}

/// The syntax tree of one operation.
pub open spec fn node_of(op: BfOp) -> Node
    decreases op,
{
    match op {
        BfOp::PointerIncrement(delta) => Node::Move(delta),
        BfOp::Increment(delta) => Node::Add(delta),
        BfOp::OutputByte => Node::Output,
        BfOp::InputByte => Node::Input,
        BfOp::Loop(body) => Node::Loop(
            Seq::new(
                body.len() as nat,
                |i: int|
                    if 0 <= i < body.len() {
                        node_of(body[i])
                    } else {
                        Node::Clear
                    },
            ),
        ),
        BfOp::Optimized(OptimizedOp::ClearCell) => Node::Clear,
    }
}

impl View for BfOp {
    type V = Node;

    open spec fn view(&self) -> Node {
        node_of(*self)
    }
}

/// The syntax trees of a sequence of operations, in order.
pub open spec fn nodes(ops: Seq<BfOp>) -> Seq<Node> {
    Seq::new(ops.len(), |i: int| ops[i]@)
}

/// No move and no cell change in the tree is by zero.
pub open spec fn well_formed(program: Seq<Node>) -> bool
    decreases program,
{
    forall|i: int|
        0 <= i < program.len() ==> match #[trigger] program[i] {
            Node::Move(delta) => delta != 0,
            Node::Add(delta) => delta != 0,
            Node::Loop(body) => well_formed(body),
            _ => true,
        }
}

/// The body of a loop denotes the trees of its operations.
pub proof fn lemma_loop_view(body: Vec<BfOp>)
    ensures
        BfOp::Loop(body)@ == Node::Loop(nodes(body@)),
{
    let op = BfOp::Loop(body);
    let tree = op.view();
    assert(tree is Loop);
    let inner = tree->Loop_0;
    assert(inner.len() == body@.len());
    assert forall|i: int| 0 <= i < inner.len() implies inner[i] == nodes(body@)[i] by {}
    assert(inner =~= nodes(body@));
}

impl Clone for BfOp {
    fn clone(&self) -> (copy: Self)
        ensures
            copy@ == self@,
    {
        clone_op(self)
    }
}

/// A copy of one operation.
pub fn clone_op(op: &BfOp) -> (copy: BfOp)
    ensures
        copy@ == op@,
    decreases op,
{
    match op {
        BfOp::PointerIncrement(delta) => BfOp::PointerIncrement(*delta),
        BfOp::Increment(delta) => BfOp::Increment(*delta),
        BfOp::OutputByte => BfOp::OutputByte,
        BfOp::InputByte => BfOp::InputByte,
        BfOp::Loop(body) => {
            let copy = clone_ops(body.as_slice());
            proof {
                lemma_loop_view(*body);
                lemma_loop_view(copy);
            }
            BfOp::Loop(copy)
        },
        BfOp::Optimized(OptimizedOp::ClearCell) => BfOp::Optimized(OptimizedOp::ClearCell),
    }
}

/// A copy of a sequence of operations.
pub fn clone_ops(ops: &[BfOp]) -> (copy: Vec<BfOp>)
    ensures
        nodes(copy@) == nodes(ops@),
    decreases ops@,
{
    let mut copy: Vec<BfOp> = Vec::new();
    let mut i: usize = 0;
    while i < ops.len()
        invariant
            i <= ops.len(),
            copy.len() == i,
            forall|j: int| 0 <= j < i ==> copy[j]@ == ops[j]@,
        decreases ops.len() - i,
    {
        copy.push(clone_op(&ops[i]));
        i += 1;
    }
    assert(nodes(copy@) =~= nodes(ops@));
    copy
}

/// A symbol for a run of `count`: the symbol alone for one, else the symbol
/// and the count in decimal.
pub open spec fn counted_text(symbol: Seq<char>, count: nat) -> Seq<char> {
    if count == 1 {
        symbol
    } else {
        symbol + decimal_text(count)
    }
}

/// The text of one operation.
///
/// A move or a change by zero is written as nothing, one by `n` as its
/// symbol, followed by `n` unless `n` is one. A loop is its body in
/// brackets, and the cleared cell is written `[0]`.
pub open spec fn node_text(node: Node) -> Seq<char>
    decreases node, 0int,
{
    match node {
        Node::Move(delta) => if delta == 0 {
            Seq::empty()
        } else if delta > 0 {
            counted_text(">"@, delta as nat)
        } else {
            counted_text("<"@, (-delta) as nat)
        },
        Node::Add(delta) => if delta == 0 {
            Seq::empty()
        } else if delta > 0 {
            counted_text("+"@, delta as nat)
        } else {
            counted_text("-"@, (-delta) as nat)
        },
        Node::Output => "."@,
        Node::Input => ","@,
        Node::Loop(body) => "["@ + nodes_text(body) + "]"@,
        Node::Clear => "[0]"@,
    }
}

/// The text of a sequence of operations: their texts one after the other.
pub open spec fn nodes_text(program: Seq<Node>) -> Seq<char>
    decreases program, 1int,
{
    if program.len() == 0 {
        Seq::empty()
    } else {
        nodes_text(program.drop_last()) + node_text(program.last())
    }
}

/// Appends a symbol for a run of `count` to `text`.
fn append_counted(text: &mut String, symbol: &str, count: usize)
    ensures
        final(text)@ == old(text)@ + counted_text(symbol@, count as nat),
{
    text.append(symbol);
    if count != 1 {
        append_decimal(text, count);
        assert(text@ =~= old(text)@ + counted_text(symbol@, count as nat));
    }
}

/// Appends the text of `ops` to `text`.
pub fn append_ops_text(ops: &[BfOp], text: &mut String)
    ensures
        final(text)@ == old(text)@ + nodes_text(nodes(ops@)),
    decreases ops@,
{
    let ghost all = nodes(ops@);
    let mut i: usize = 0;
    assert(text@ + nodes_text(all.take(0)) =~= text@);
    while i < ops.len()
        invariant
            i <= ops.len(),
            all == nodes(ops@),
            text@ == old(text)@ + nodes_text(all.take(i as int)),
        decreases ops.len() - i,
    {
        let ghost before = text@;
        ops[i].append_text(text);
        i += 1;
        proof {
            let upto = all.take(i as int);
            assert(upto.drop_last() =~= all.take(i - 1));
            assert(upto.last() == ops@[i - 1]@);
            assert(old(text)@ + nodes_text(upto.drop_last()) + node_text(upto.last()) =~= old(
                text,
            )@ + nodes_text(upto));
        }
    }
    assert(all.take(ops.len() as int) =~= all);
}

impl BfOp {
    /// Appends the text of the operation to `text`.
    pub fn append_text(&self, text: &mut String)
        ensures
            final(text)@ == old(text)@ + node_text(self@),
        decreases self,
    {
        match self {
            BfOp::PointerIncrement(offset) => {
                if *offset > 0 {
                    append_counted(text, ">", *offset as usize);
                } else if *offset < 0 {
                    let distance: usize = if *offset == isize::MIN {
                        (isize::MAX as usize) + 1
                    } else {
                        (-*offset) as usize
                    };
                    append_counted(text, "<", distance);
                } else {
                    assert(text@ + Seq::<char>::empty() =~= text@);
                }
            },
            BfOp::Increment(count) => {
                if *count > 0 {
                    append_counted(text, "+", *count as usize);
                } else if *count < 0 {
                    let distance: usize = (-(*count as i16)) as usize;
                    append_counted(text, "-", distance);
                } else {
                    assert(text@ + Seq::<char>::empty() =~= text@);
                }
            },
            BfOp::OutputByte => {
                text.append(".");
            },
            BfOp::InputByte => {
                text.append(",");
            },
            BfOp::Loop(body) => {
                proof {
                    lemma_loop_view(*body);
                }
                text.append("[");
                append_ops_text(body.as_slice(), text);
                text.append("]");
                assert(text@ =~= old(text)@ + ("["@ + nodes_text(nodes(body@)) + "]"@));
            },
            BfOp::Optimized(OptimizedOp::ClearCell) => {
                text.append("[0]");
            },
        }
    }

    /// The operation as text.
    pub fn to_string(&self) -> (text: String)
        ensures
            text@ == node_text(self@),
    {
        let mut text = String::new();
        self.append_text(&mut text);
        assert(Seq::<char>::empty() + node_text(self@) =~= node_text(self@));
        text
    }
}

impl OptimizedOp {
    /// The operation as text: `[0]` for the cleared cell.
    pub fn to_string(&self) -> (text: String)
        ensures
            text@ == node_text(Node::Clear),
    {
        String::from_str("[0]")
    }
}

} // verus!
