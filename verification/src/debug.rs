//! Diagnostics on a finished program: how often each kind of operation
//! occurs in it, and an indented listing of it.

use crate::parser::lemma_loop_view;
use crate::parser::node_text;
use crate::parser::nodes;
use crate::parser::BfOp;
use crate::parser::Node;
use crate::parser::OptimizedOp;
use crate::text::append_spaces;
use crate::text::spaces_text;
use vstd::prelude::*;
use vstd::string::StringExecFns;

verus! {

/// The kinds of operation that are counted.
#[derive(Debug, Clone, Copy, PartialEq, Eq, Structural)]
pub enum OpKind {
    IncrementPointer,
    DecrementPointer,
    IncrementByte,
    DecrementByte,
    OutputByte,
    InputByte,
    Loop,
    ClearCell,
}

/// The kind under which a node is counted. A move or a change by zero is
/// counted under none.
pub open spec fn kind_of(node: Node) -> Option<OpKind> {
    match node {
        Node::Move(delta) => if delta > 0 {
            Some(OpKind::IncrementPointer)
        } else if delta < 0 {
            Some(OpKind::DecrementPointer)
        } else {
            None
        },
        Node::Add(delta) => if delta > 0 {
            Some(OpKind::IncrementByte)
        } else if delta < 0 {
            Some(OpKind::DecrementByte)
        } else {
            None
        },
        Node::Output => Some(OpKind::OutputByte),
        Node::Input => Some(OpKind::InputByte),
        Node::Loop(_) => Some(OpKind::Loop),
        Node::Clear => Some(OpKind::ClearCell),
    }
}

/// How many nodes of kind `kind` the tree of `node` holds, itself included.
pub open spec fn count_node(node: Node, kind: OpKind) -> nat
    decreases node, 0int,
{
    let own: nat = if kind_of(node) == Some(kind) {
        1
    } else {
        0
    };
    match node {
        Node::Loop(body) => own + count_nodes(body, kind),
        _ => own,
    }
}

/// How many nodes of kind `kind` a program holds, loop bodies included.
pub open spec fn count_nodes(program: Seq<Node>, kind: OpKind) -> nat
    decreases program, 1int,
{
    if program.len() == 0 {
        0
    } else {
        count_nodes(program.drop_last(), kind) + count_node(program.last(), kind)
    }
}

/// `value`, or the largest count where it is larger.
pub open spec fn saturated(value: int) -> usize {
    if value > usize::MAX {
        usize::MAX
    } else {
        value as usize
    }
}

/// How often each kind of operation occurs. A count that has reached
/// `usize::MAX` stays there.
#[derive(Debug, Clone, Copy, PartialEq, Eq, Structural)]
pub struct OpStats {
    pub increment_pointer: usize,
    pub decrement_pointer: usize,
    pub increment_byte: usize,
    pub decrement_byte: usize,
    pub output_byte: usize,
    pub input_byte: usize,
    pub loops: usize,
    pub clear_cell: usize,
}

impl OpStats {
    /// The count of one kind.
    pub open spec fn count(self, kind: OpKind) -> usize {
        match kind {
            OpKind::IncrementPointer => self.increment_pointer,
            OpKind::DecrementPointer => self.decrement_pointer,
            OpKind::IncrementByte => self.increment_byte,
            OpKind::DecrementByte => self.decrement_byte,
            OpKind::OutputByte => self.output_byte,
            OpKind::InputByte => self.input_byte,
            OpKind::Loop => self.loops,
            OpKind::ClearCell => self.clear_cell,
        }
    }

    /// Counts that are all zero.
    pub fn new() -> (stats: Self)
        ensures
            forall|kind: OpKind| stats.count(kind) == 0,
    {
        OpStats {
            increment_pointer: 0,
            decrement_pointer: 0,
            increment_byte: 0,
            decrement_byte: 0,
            output_byte: 0,
            input_byte: 0,
            loops: 0,
            clear_cell: 0,
        }
    }

    /// The sum of the counts of the operations of the language itself: all
    /// but the cleared cell.
    pub fn basic_total(&self) -> (total: usize)
        ensures
            total == saturated(
                self.increment_pointer + self.decrement_pointer + self.increment_byte
                    + self.decrement_byte + self.output_byte + self.input_byte + self.loops,
            ),
    {
        self.increment_pointer.saturating_add(self.decrement_pointer).saturating_add(
            self.increment_byte,
        ).saturating_add(self.decrement_byte).saturating_add(self.output_byte).saturating_add(
            self.input_byte,
        ).saturating_add(self.loops)
    }

    /// The sum of the counts of the operations that the optimizer introduces.
    pub fn optimized_total(&self) -> (total: usize)
        ensures
            total == self.clear_cell,
    {
        self.clear_cell
    }

    /// Counts one more operation of kind `kind`.
    fn bump(&mut self, kind: OpKind)
        ensures
            final(self).count(kind) == saturated(old(self).count(kind) + 1),
            forall|other: OpKind| other != kind ==> final(self).count(other) == old(self).count(other),
    {
        match kind {
            OpKind::IncrementPointer => {
                self.increment_pointer = self.increment_pointer.saturating_add(1);
            },
            OpKind::DecrementPointer => {
                self.decrement_pointer = self.decrement_pointer.saturating_add(1);
            },
            OpKind::IncrementByte => {
                self.increment_byte = self.increment_byte.saturating_add(1);
            },
            OpKind::DecrementByte => {
                self.decrement_byte = self.decrement_byte.saturating_add(1);
            },
            OpKind::OutputByte => {
                self.output_byte = self.output_byte.saturating_add(1);
            },
            OpKind::InputByte => {
                self.input_byte = self.input_byte.saturating_add(1);
            },
            OpKind::Loop => {
                self.loops = self.loops.saturating_add(1);
            },
            OpKind::ClearCell => {
                self.clear_cell = self.clear_cell.saturating_add(1);
            },
        }
    }
}

/// The kind under which `op` is counted.
fn op_kind(op: &BfOp) -> (kind: Option<OpKind>)
    ensures
        kind == kind_of(op@),
{
    match op {
        BfOp::PointerIncrement(offset) => if *offset > 0 {
            Some(OpKind::IncrementPointer)
        } else if *offset < 0 {
            Some(OpKind::DecrementPointer)
        } else {
            None
        },
        BfOp::Increment(count) => if *count > 0 {
            Some(OpKind::IncrementByte)
        } else if *count < 0 {
            Some(OpKind::DecrementByte)
        } else {
            None
        },
        BfOp::OutputByte => Some(OpKind::OutputByte),
        BfOp::InputByte => Some(OpKind::InputByte),
        BfOp::Loop(_) => Some(OpKind::Loop),
        BfOp::Optimized(OptimizedOp::ClearCell) => Some(OpKind::ClearCell),
    }
}

/// Adds the operations of `ops`, loop bodies included, to the counts.
pub fn count_ops(ops: &[BfOp], stats: &mut OpStats)
    ensures
        forall|kind: OpKind|
            final(stats).count(kind) == saturated(
                old(stats).count(kind) + #[trigger] count_nodes(nodes(ops@), kind),
            ),
    decreases ops@,
{
    let ghost all = nodes(ops@);
    let mut i: usize = 0;
    while i < ops.len()
        invariant
            i <= ops.len(),
            all == nodes(ops@),
            forall|kind: OpKind|
                stats.count(kind) == saturated(
                    old(stats).count(kind) + #[trigger] count_nodes(all.take(i as int), kind),
                ),
        decreases ops.len() - i,
    {
        let ghost before = *stats;
        match op_kind(&ops[i]) {
            Some(kind) => stats.bump(kind),
            None => {},
        }
        let ghost bumped = *stats;
        if let BfOp::Loop(body) = &ops[i] {
            proof {
                lemma_loop_view(*body);
            }
            count_ops(body.as_slice(), stats);
        }
        i += 1;
        proof {
            let upto = all.take(i as int);
            assert(upto.drop_last() =~= all.take(i - 1));
            assert(upto.last() == ops@[i - 1]@);
            assert forall|kind: OpKind|
                stats.count(kind) == saturated(
                    old(stats).count(kind) + #[trigger] count_nodes(upto, kind),
                ) by {
                let node = all[i - 1];
                let own: nat = if kind_of(node) == Some(kind) {
                    1
                } else {
                    0
                };
                assert(before.count(kind) == saturated(
                    old(stats).count(kind) + count_nodes(all.take(i - 1), kind),
                ));
                assert(bumped.count(kind) == saturated(before.count(kind) + own));
                assert(count_nodes(upto, kind) == count_nodes(upto.drop_last(), kind) + count_node(
                    node,
                    kind,
                ));
                match ops@[i - 1] {
                    BfOp::Loop(body) => {
                        lemma_loop_view(body);
                        assert(stats.count(kind) == saturated(
                            bumped.count(kind) + count_nodes(nodes(body@), kind),
                        ));
                        assert(count_node(node, kind) == own + count_nodes(nodes(body@), kind));
                    },
                    _ => {
                        assert(stats.count(kind) == bumped.count(kind));
                        assert(count_node(node, kind) == own);
                    },
                }
            }
        }
    }
    assert(all.take(ops.len() as int) =~= all);
}

/// How deep the loops of `node` are nested, itself included.
pub open spec fn node_depth(node: Node) -> nat
    decreases node, 0int,
{
    match node {
        Node::Loop(body) => 1 + nesting(body),
        _ => 0,
    }
}

/// How deep the loops of a program are nested at most.
pub open spec fn nesting(program: Seq<Node>) -> nat
    decreases program, 1int,
{
    if program.len() == 0 {
        0
    } else if nesting(program.drop_last()) >= node_depth(program.last()) {
        nesting(program.drop_last())
    } else {
        node_depth(program.last())
    }
}

/// No node of a program is nested deeper than the program.
pub proof fn lemma_nesting_bounds(program: Seq<Node>, i: int)
    requires
        0 <= i < program.len(),
    ensures
        node_depth(program[i]) <= nesting(program),
    decreases program.len(),
{
    if i < program.len() - 1 {
        lemma_nesting_bounds(program.drop_last(), i);
    }
}

/// How deep the loops of `ops` are nested at most, or `usize::MAX` where
/// that is deeper.
pub fn nesting_of(ops: &[BfOp]) -> (depth: usize)
    ensures
        depth == saturated(nesting(nodes(ops@)) as int),
    decreases ops@,
{
    let ghost all = nodes(ops@);
    let mut depth: usize = 0;
    let mut i: usize = 0;
    while i < ops.len()
        invariant
            i <= ops.len(),
            all == nodes(ops@),
            depth == saturated(nesting(all.take(i as int)) as int),
        decreases ops.len() - i,
    {
        let here: usize = match &ops[i] {
            BfOp::Loop(body) => {
                proof {
                    lemma_loop_view(*body);
                }
                nesting_of(body.as_slice()).saturating_add(1)
            },
            _ => 0,
        };
        if here > depth {
            depth = here;
        }
        i += 1;
        proof {
            let upto = all.take(i as int);
            assert(upto.drop_last() =~= all.take(i - 1));
            assert(upto.last() == ops@[i - 1]@);
            assert(here == saturated(node_depth(upto.last()) as int));
        }
    }
    assert(all.take(ops.len() as int) =~= all);
    depth
}

/// The lines that list one node at the indentation `indent`.
///
/// A loop is listed as a line with `[`, its body two columns further in, and
/// a line with `]`. Any other node is one line with its text.
pub open spec fn node_listing(node: Node, indent: nat) -> Seq<char>
    decreases node, 0int,
{
    match node {
        Node::Loop(body) => spaces_text(indent) + "[\n"@ + listing(body, indent + 2) + spaces_text(
            indent,
        ) + "]\n"@,
        other => spaces_text(indent) + node_text(other) + "\n"@,
    }
}

/// The lines that list a program at the indentation `indent`.
pub open spec fn listing(program: Seq<Node>, indent: nat) -> Seq<char>
    decreases program, 1int,
{
    if program.len() == 0 {
        Seq::empty()
    } else {
        listing(program.drop_last(), indent) + node_listing(program.last(), indent)
    }
}

/// Appends a listing of `ops` to `file`, each operation on a line of its own
/// behind `indent_level` spaces, the body of a loop two columns further in.
pub fn write_ops_to_file(ops: &[BfOp], file: &mut String, indent_level: usize)
    requires
        indent_level + 2 * nesting(nodes(ops@)) <= usize::MAX,
    ensures
        final(file)@ == old(file)@ + listing(nodes(ops@), indent_level as nat),
    decreases ops@,
{
    let ghost all = nodes(ops@);
    let ghost indent = indent_level as nat;
    let mut i: usize = 0;
    assert(file@ + listing(all.take(0), indent) =~= file@);
    while i < ops.len()
        invariant
            i <= ops.len(),
            all == nodes(ops@),
            indent == indent_level,
            indent_level + 2 * nesting(all) <= usize::MAX,
            file@ == old(file)@ + listing(all.take(i as int), indent),
        decreases ops.len() - i,
    {
        let ghost before = file@;
        proof {
            lemma_nesting_bounds(all, i as int);
        }
        match &ops[i] {
            BfOp::Loop(body) => {
                proof {
                    lemma_loop_view(*body);
                }
                append_spaces(file, indent_level);
                file.append("[\n");
                write_ops_to_file(body.as_slice(), file, indent_level + 2);
                append_spaces(file, indent_level);
                file.append("]\n");
                assert(file@ =~= before + node_listing(all[i as int], indent));
            },
            op => {
                append_spaces(file, indent_level);
                op.append_text(file);
                file.append("\n");
                assert(file@ =~= before + node_listing(all[i as int], indent));
            },
        }
        i += 1;
        proof {
            let upto = all.take(i as int);
            assert(upto.drop_last() =~= all.take(i - 1));
            assert(upto.last() == all[i - 1]);
            assert(old(file)@ + listing(upto.drop_last(), indent) + node_listing(
                upto.last(),
                indent,
            ) =~= old(file)@ + listing(upto, indent));
        }
    }
    assert(all.take(ops.len() as int) =~= all);
}

} // verus!
