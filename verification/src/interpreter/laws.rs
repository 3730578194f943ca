use crate::interpreter::error::InterpreterError;
use crate::interpreter::semantics::effect;
use crate::interpreter::semantics::perform;
use crate::interpreter::semantics::react;
use crate::interpreter::semantics::run;
use crate::interpreter::semantics::Config;
use crate::interpreter::semantics::Incoming;
use crate::interpreter::semantics::Outcome;
use crate::interpreter::semantics::World;
use crate::interpreter::interpreter::Action;
use crate::interpreter::interpreter::Event;
use crate::parser::Node;
use vstd::prelude::*;

verus! {

/// `w` with its current cell set to `value`.
pub open spec fn with_cell(w: World, value: u8) -> World {
    World { cells: w.cells.update(w.pointer, value), ..w }
}

/// Executing an operation leaves the pointer on a cell of the tape.
pub proof fn lemma_perform_well_formed(node: Node, w: World)
    requires
        w.well_formed(),
    ensures
        perform(node, w) matches Ok(next) ==> next.well_formed(),
{
}

/// Whether the tape `after` has at least as many cells as the tape
/// `before`: tapes grow and never shrink.
pub open spec fn extends(after: Seq<u8>, before: Seq<u8>) -> bool {
    before.len() <= after.len()
}

/// No step of the machine takes a cell from the tape or the pointer off it,
/// whatever the host reports.
pub proof fn lemma_step_keeps_tape(c: Config, event: Event)
    requires
        c.well_formed(),
    ensures
        react(c, event).0.well_formed(),
        extends(react(c, event).0.cells, c.cells),
        react(c, event).1 is Some ==> react(c, event).0 == c,
{
}

/// A run that starts with the pointer on the tape ends with it there.
pub proof fn lemma_run_well_formed(code: Seq<Node>, w: World, fuel: nat)
    requires
        w.well_formed(),
    ensures
        run(code, w, fuel) matches Outcome::Finished(end) ==> end.well_formed(),
        run(code, w, fuel) matches Outcome::Failed(end, _) ==> end.well_formed(),
    decreases fuel,
{
    if code.len() > 0 && fuel > 0 {
        match code[0] {
            Node::Loop(body) => {
                if w.cell() != 0 {
                    lemma_run_well_formed(body + code, w, (fuel - 1) as nat);
                } else {
                    lemma_run_well_formed(code.skip(1), w, (fuel - 1) as nat);
                }
            },
            node => {
                lemma_perform_well_formed(node, w);
                if let Ok(next) = perform(node, w) {
                    lemma_run_well_formed(code.skip(1), next, (fuel - 1) as nat);
                }
            },
        }
    }
}

/// More fuel does not change how a run ends once it ends.
pub proof fn lemma_run_more_fuel(code: Seq<Node>, w: World, fuel: nat, more: nat)
    requires
        !(run(code, w, fuel) is OutOfFuel),
    ensures
        run(code, w, fuel + more) == run(code, w, fuel),
    decreases fuel,
{
    if code.len() > 0 && fuel > 0 {
        match code[0] {
            Node::Loop(body) => {
                if w.cell() != 0 {
                    lemma_run_more_fuel(body + code, w, (fuel - 1) as nat, more);
                } else {
                    lemma_run_more_fuel(code.skip(1), w, (fuel - 1) as nat, more);
                }
            },
            node => {
                if let Ok(next) = perform(node, w) {
                    lemma_run_more_fuel(code.skip(1), next, (fuel - 1) as nat, more);
                }
            },
        }
    }
}

/// However much fuel a run is given, it ends in one way.
pub proof fn lemma_run_deterministic(code: Seq<Node>, w: World, fuel: nat, other: nat)
    requires
        !(run(code, w, fuel) is OutOfFuel),
        !(run(code, w, other) is OutOfFuel),
    ensures
        run(code, w, fuel) == run(code, w, other),
{
    lemma_run_more_fuel(code, w, fuel, other);
    lemma_run_more_fuel(code, w, other, fuel);
}

/// A run of `front + back` is a run of `front` and then, where that
/// finishes, a run of `back` from where it ended. A failure of `front` is
/// the failure of the whole.
pub proof fn lemma_run_split(front: Seq<Node>, back: Seq<Node>, w: World, fuel: nat)
    requires
        !(run(front + back, w, fuel) is OutOfFuel),
    ensures
        !(run(front, w, fuel) is OutOfFuel),
        run(front, w, fuel) matches Outcome::Finished(middle) ==> run(back, middle, fuel) == run(
            front + back,
            w,
            fuel,
        ),
        run(front, w, fuel) is Failed ==> run(front, w, fuel) == run(front + back, w, fuel),
    decreases fuel,
{
    let whole = front + back;
    if front.len() == 0 {
        assert(whole =~= back);
    } else {
        assert(whole[0] == front[0]);
        assert(whole.skip(1) =~= front.skip(1) + back);
        let less = (fuel - 1) as nat;
        match front[0] {
            Node::Loop(body) => {
                if w.cell() != 0 {
                    assert(body + whole =~= (body + front) + back);
                    lemma_run_split(body + front, back, w, less);
                    if let Outcome::Finished(middle) = run(body + front, w, less) {
                        lemma_run_more_fuel(back, middle, less, 1);
                    }
                } else {
                    lemma_run_split(front.skip(1), back, w, less);
                    if let Outcome::Finished(middle) = run(front.skip(1), w, less) {
                        lemma_run_more_fuel(back, middle, less, 1);
                    }
                }
            },
            node => {
                if let Ok(next) = perform(node, w) {
                    lemma_run_split(front.skip(1), back, next, less);
                    if let Outcome::Finished(middle) = run(front.skip(1), next, less) {
                        lemma_run_more_fuel(back, middle, less, 1);
                    }
                }
            },
        }
    }
}

/// Where `front` finishes and `back` then ends in some way, `front + back`
/// ends in that way.
pub proof fn lemma_run_join(
    front: Seq<Node>,
    back: Seq<Node>,
    w: World,
    fuel: nat,
    middle: World,
    more: nat,
)
    requires
        run(front, w, fuel) == Outcome::Finished(middle),
        !(run(back, middle, more) is OutOfFuel),
    ensures
        run(front + back, w, fuel + more) == run(back, middle, more),
    decreases fuel,
{
    let whole = front + back;
    if front.len() == 0 {
        assert(whole =~= back);
        lemma_run_more_fuel(back, middle, more, fuel);
    } else {
        assert(whole[0] == front[0]);
        assert(whole.skip(1) =~= front.skip(1) + back);
        let less = (fuel - 1) as nat;
        match front[0] {
            Node::Loop(body) => {
                if w.cell() != 0 {
                    assert(body + whole =~= (body + front) + back);
                    lemma_run_join(body + front, back, w, less, middle, more);
                } else {
                    lemma_run_join(front.skip(1), back, w, less, middle, more);
                }
            },
            node => {
                if let Ok(next) = perform(node, w) {
                    lemma_run_join(front.skip(1), back, next, less, middle, more);
                }
            },
        }
    }
}

/// Where `front` fails, `front + back` fails in the same way.
pub proof fn lemma_run_join_failed(front: Seq<Node>, back: Seq<Node>, w: World, fuel: nat)
    requires
        run(front, w, fuel) is Failed,
    ensures
        run(front + back, w, fuel) == run(front, w, fuel),
    decreases fuel,
{
    let whole = front + back;
    if front.len() > 0 && fuel > 0 {
        assert(whole[0] == front[0]);
        assert(whole.skip(1) =~= front.skip(1) + back);
        let less = (fuel - 1) as nat;
        match front[0] {
            Node::Loop(body) => {
                if w.cell() != 0 {
                    assert(body + whole =~= (body + front) + back);
                    lemma_run_join_failed(body + front, back, w, less);
                } else {
                    lemma_run_join_failed(front.skip(1), back, w, less);
                }
            },
            node => {
                if let Ok(next) = perform(node, w) {
                    lemma_run_join_failed(front.skip(1), back, next, less);
                }
            },
        }
    }
}

/// The loop `[-]` finishes from every cell value `v`, within `2 * v + 1`
/// steps, and leaves the cell at zero and everything else as it was.
pub proof fn lemma_minus_loop_clears(w: World)
    requires
        w.well_formed(),
    ensures
        run(seq![Node::Loop(seq![Node::Add(-1i8)])], w, (2 * w.cell() + 1) as nat)
            == Outcome::Finished(with_cell(w, 0)),
    decreases w.cell(),
{
    let body = seq![Node::Add(-1i8)];
    let code = seq![Node::Loop(body)];
    assert(code[0] == Node::Loop(body));
    let fuel = (2 * w.cell() + 1) as nat;
    if w.cell() == 0 {
        assert(code.skip(1) =~= Seq::<Node>::empty());
        assert(with_cell(w, 0).cells =~= w.cells);
        assert(with_cell(w, 0) == w);
        assert(run(code.skip(1), w, 0) == Outcome::Finished(w));
        assert(run(code, w, 1) == run(code.skip(1), w, 0));
    } else {
        let next = with_cell(w, (w.cell() - 1) as u8);
        let unrolled = body + code;
        assert(unrolled[0] == Node::Add(-1i8));
        assert(unrolled.skip(1) =~= code);
        assert(perform(Node::Add(-1i8), w) == Ok::<World, InterpreterError>(next));
        lemma_minus_loop_clears(next);
        assert(with_cell(next, 0).cells =~= with_cell(w, 0).cells);
        assert(with_cell(next, 0) == with_cell(w, 0));
        assert(run(code, w, fuel) == run(unrolled, w, (fuel - 1) as nat));
        assert(run(unrolled, w, (fuel - 1) as nat) == run(
            unrolled.skip(1),
            next,
            (fuel - 2) as nat,
        ));
    }
}

/// How often `[+]` runs its body from the cell value `value`.
pub open spec fn steps_up(value: u8) -> nat {
    if value == 0 {
        0
    } else {
        (256 - value) as nat
    }
}

/// The loop `[+]` finishes from every cell value, and leaves the cell at
/// zero and everything else as it was.
pub proof fn lemma_plus_loop_clears(w: World)
    requires
        w.well_formed(),
    ensures
        run(seq![Node::Loop(seq![Node::Add(1i8)])], w, 2 * steps_up(w.cell()) + 1)
            == Outcome::Finished(with_cell(w, 0)),
    decreases steps_up(w.cell()),
{
    let body = seq![Node::Add(1i8)];
    let code = seq![Node::Loop(body)];
    assert(code[0] == Node::Loop(body));
    let value = w.cell();
    let fuel = 2 * steps_up(value) + 1;
    if value == 0 {
        assert(code.skip(1) =~= Seq::<Node>::empty());
        assert(with_cell(w, 0).cells =~= w.cells);
        assert(with_cell(w, 0) == w);
        assert(run(code.skip(1), w, 0) == Outcome::Finished(w));
        assert(run(code, w, 1) == run(code.skip(1), w, 0));
    } else {
        let raised: u8 = if value == 255 {
            0
        } else {
            (value + 1) as u8
        };
        assert(crate::interpreter::semantics::wrap_cell(value, 1i8) == raised);
        let next = with_cell(w, raised);
        assert(next.cell() == raised);
        assert(2 * steps_up(raised) + 1 == fuel - 2);
        let unrolled = body + code;
        assert(unrolled[0] == Node::Add(1i8));
        assert(unrolled.skip(1) =~= code);
        assert(perform(Node::Add(1i8), w) == Ok::<World, InterpreterError>(next));
        lemma_plus_loop_clears(next);
        assert(with_cell(next, 0).cells =~= with_cell(w, 0).cells);
        assert(with_cell(next, 0) == with_cell(w, 0));
        assert(run(code, w, fuel) == run(unrolled, w, (fuel - 1) as nat));
        assert(run(unrolled, w, (fuel - 1) as nat) == run(
            unrolled.skip(1),
            next,
            (fuel - 2) as nat,
        ));
    }
}

/// A move to the right by `delta` succeeds wherever the tape can hold the
/// cell it leads to. The tape keeps its cells and loses none, and a cell
/// that was not there before is zero.
pub proof fn lemma_move_right_grows(cells: Seq<u8>, pointer: int, delta: isize)
    requires
        0 <= pointer < cells.len(),
        0 <= delta,
        pointer + delta < isize::MAX,
    ensures
        effect(Node::Move(delta), cells, pointer) matches Ok((after, target)) && {
            &&& target == pointer + delta
            &&& target < after.len()
            &&& cells.len() <= after.len()
            &&& after.len() == if target < cells.len() {
                cells.len() as int
            } else {
                target + 1
            }
            &&& forall|i: int| 0 <= i < cells.len() ==> after[i] == cells[i]
            &&& forall|i: int| cells.len() <= i < after.len() ==> after[i] == 0
        },
{
}

/// An input against an exhausted input leaves the world as it is and the
/// run finishes; the machine, told of the end of the input, goes on behind
/// the input with the tape unchanged.
pub proof fn lemma_input_at_end(w: World, c: Config)
    requires
        w.input.len() == 0,
        c.code.len() > 0,
        c.code[0] == Node::Input,
    ensures
        run(seq![Node::Input], w, 1) == Outcome::Finished(w),
        react(c, Event::EndOfInput) == (c.advanced(), None::<Action>),
        react(c, Event::EndOfInput).0.cells == c.cells,
{
    let code = seq![Node::Input];
    assert(code[0] == Node::Input);
    assert(code.skip(1) =~= Seq::<Node>::empty());
    assert(run(code.skip(1), w, 0) == Outcome::Finished(w));
    assert(run(code, w, 1) == run(code.skip(1), w, 0));
}

/// Every way in which `a` ends is a way in which `b` ends: from each world
/// with the pointer on the tape, where a run of `a` finishes or fails, a run
/// of `b` ends in the same world, with the same output behind it and the
/// same answers of the host left, and with the same error if any.
pub open spec fn refines(a: Seq<Node>, b: Seq<Node>) -> bool {
    forall|w: World, fuel: nat|
        w.well_formed() && !(#[trigger] run(a, w, fuel) is OutOfFuel) ==> exists|other: nat|
            run(b, w, other) == run(a, w, fuel)
}

/// `a` and `b` cannot be told apart by running them: each ends in every way
/// in which the other does, and so neither ends where the other does not.
pub open spec fn equivalent(a: Seq<Node>, b: Seq<Node>) -> bool {
    refines(a, b) && refines(b, a)
}

/// Every sequence is equivalent to itself.
pub proof fn lemma_equivalent_reflexive(a: Seq<Node>)
    ensures
        equivalent(a, a),
{
}

/// Sequences made of parts that refine each other refine each other.
pub proof fn lemma_refines_concat(
    front: Seq<Node>,
    front2: Seq<Node>,
    back: Seq<Node>,
    back2: Seq<Node>,
)
    requires
        refines(front, front2),
        refines(back, back2),
    ensures
        refines(front + back, front2 + back2),
{
    assert forall|w: World, fuel: nat|
        w.well_formed() && !(#[trigger] run(front + back, w, fuel) is OutOfFuel) implies exists|
        other: nat,
    |
        run(front2 + back2, w, other) == run(front + back, w, fuel) by {
        lemma_run_split(front, back, w, fuel);
        let first = run(front, w, fuel);
        let g1 = choose|g: nat| run(front2, w, g) == first;
        match first {
            Outcome::Finished(middle) => {
                lemma_run_well_formed(front, w, fuel);
                let second = run(back, middle, fuel);
                let g2 = choose|g: nat| run(back2, middle, g) == second;
                lemma_run_join(front2, back2, w, g1, middle, g2);
                assert(run(front2 + back2, w, g1 + g2) == run(front + back, w, fuel));
            },
            Outcome::Failed(_, _) => {
                lemma_run_join_failed(front2, back2, w, g1);
                assert(run(front2 + back2, w, g1) == run(front + back, w, fuel));
            },
            Outcome::OutOfFuel => {},
        }
    }
}

/// Sequences made of equivalent parts are equivalent.
pub proof fn lemma_equivalent_concat(
    front: Seq<Node>,
    front2: Seq<Node>,
    back: Seq<Node>,
    back2: Seq<Node>,
)
    requires
        equivalent(front, front2),
        equivalent(back, back2),
    ensures
        equivalent(front + back, front2 + back2),
{
    lemma_refines_concat(front, front2, back, back2);
    lemma_refines_concat(front2, front, back2, back);
}

/// One run of a loop whose body refines another's, matched by a run of the
/// loop with that other body. The result is the fuel of the matching run.
pub proof fn lemma_loop_refines_at(body: Seq<Node>, body2: Seq<Node>, w: World, fuel: nat) -> (other:
    nat)
    requires
        refines(body, body2),
        w.well_formed(),
        !(run(seq![Node::Loop(body)], w, fuel) is OutOfFuel),
    ensures
        run(seq![Node::Loop(body2)], w, other) == run(seq![Node::Loop(body)], w, fuel),
    decreases fuel,
{
    let code = seq![Node::Loop(body)];
    let code2 = seq![Node::Loop(body2)];
    assert(code[0] == Node::Loop(body));
    assert(code2[0] == Node::Loop(body2));
    assert(code.skip(1) =~= Seq::<Node>::empty());
    assert(code2.skip(1) =~= Seq::<Node>::empty());
    let less = (fuel - 1) as nat;
    if w.cell() == 0 {
        assert(run(code, w, fuel) == run(code.skip(1), w, less));
        assert(run(code2.skip(1), w, 0) == Outcome::Finished(w));
        assert(run(code2, w, 1) == run(code2.skip(1), w, 0));
        1
    } else {
        assert(run(code, w, fuel) == run(body + code, w, less));
        lemma_run_split(body, code, w, less);
        let first = run(body, w, less);
        let g1 = choose|g: nat| run(body2, w, g) == first;
        match first {
            Outcome::Finished(middle) => {
                lemma_run_well_formed(body, w, less);
                let g2 = lemma_loop_refines_at(body, body2, middle, less);
                lemma_run_join(body2, code2, w, g1, middle, g2);
                assert(run(code2, w, g1 + g2 + 1) == run(body2 + code2, w, g1 + g2));
                g1 + g2 + 1
            },
            Outcome::Failed(_, _) => {
                lemma_run_join_failed(body2, code2, w, g1);
                assert(run(code2, w, g1 + 1) == run(body2 + code2, w, g1));
                g1 + 1
            },
            Outcome::OutOfFuel => 0,
        }
    }
}

/// Loops with equivalent bodies are equivalent.
pub proof fn lemma_equivalent_loop(body: Seq<Node>, body2: Seq<Node>)
    requires
        equivalent(body, body2),
    ensures
        equivalent(seq![Node::Loop(body)], seq![Node::Loop(body2)]),
{
    let code = seq![Node::Loop(body)];
    let code2 = seq![Node::Loop(body2)];
    assert forall|w: World, fuel: nat|
        w.well_formed() && !(#[trigger] run(code, w, fuel) is OutOfFuel) implies exists|
        other: nat,
    |
        run(code2, w, other) == run(code, w, fuel) by {
        let other = lemma_loop_refines_at(body, body2, w, fuel);
    }
    assert forall|w: World, fuel: nat|
        w.well_formed() && !(#[trigger] run(code2, w, fuel) is OutOfFuel) implies exists|
        other: nat,
    |
        run(code, w, other) == run(code2, w, fuel) by {
        let other = lemma_loop_refines_at(body2, body, w, fuel);
    }
}

/// The clear loops `[-]` and `[+]` are equivalent to setting the cell to
/// zero: from every cell value they finish, with the cell at zero and
/// everything else as it was.
pub proof fn lemma_clear_loop_equivalent(delta: i8)
    requires
        delta == 1 || delta == -1,
    ensures
        equivalent(seq![Node::Loop(seq![Node::Add(delta)])], seq![Node::Clear]),
        forall|w: World|
            w.well_formed() ==> exists|fuel: nat| #[trigger]
                run(seq![Node::Loop(seq![Node::Add(delta)])], w, fuel) == Outcome::Finished(
                    with_cell(w, 0),
                ),
{
    let code = seq![Node::Loop(seq![Node::Add(delta)])];
    let clear = seq![Node::Clear];
    assert(clear[0] == Node::Clear);
    assert(clear.skip(1) =~= Seq::<Node>::empty());
    assert forall|w: World| w.well_formed() implies exists|fuel: nat| #[trigger]
        run(code, w, fuel) == Outcome::Finished(with_cell(w, 0)) by {
        if delta == -1 {
            lemma_minus_loop_clears(w);
        } else {
            lemma_plus_loop_clears(w);
        }
    }
    assert forall|w: World, fuel: nat|
        w.well_formed() && !(#[trigger] run(code, w, fuel) is OutOfFuel) implies exists|
        other: nat,
    |
        run(clear, w, other) == run(code, w, fuel) by {
        let enough = choose|g: nat| run(code, w, g) == Outcome::Finished(with_cell(w, 0));
        lemma_run_deterministic(code, w, fuel, enough);
        assert(run(clear.skip(1), with_cell(w, 0), 0) == Outcome::Finished(with_cell(w, 0)));
        assert(run(clear, w, 1) == run(clear.skip(1), with_cell(w, 0), 0));
    }
    assert forall|w: World, fuel: nat|
        w.well_formed() && !(#[trigger] run(clear, w, fuel) is OutOfFuel) implies exists|
        other: nat,
    |
        run(code, w, other) == run(clear, w, fuel) by {
        let enough = choose|g: nat| run(code, w, g) == Outcome::Finished(with_cell(w, 0));
        assert(run(clear, w, fuel) == run(clear.skip(1), with_cell(w, 0), (fuel - 1) as nat));
        assert(run(code, w, enough) == run(clear, w, fuel));
    }
}

/// The world of the machine `c` with the surroundings of `w`.
pub open spec fn world_of(c: Config, w: World) -> World {
    World { cells: c.cells, pointer: c.pointer, ..w }
}

/// The machine that executes `code` on the tape of `w`.
pub open spec fn machine_of(code: Seq<Node>, w: World) -> Config {
    Config { code, cells: w.cells, pointer: w.pointer }
}

/// A run of the machine `c` for at most `fuel` operations, served by the
/// host of `w`.
///
/// Where the machine asks for a write, the host reports the write or its
/// failure, as `w` has it, and a byte written is appended to the output.
/// Where the machine asks for a read, the host hands it the byte or the
/// failure that `w` has for it, or the end of the input once nothing is
/// left.
pub open spec fn hosted(c: Config, w: World, fuel: nat) -> Outcome
    decreases fuel,
{
    if c.code.len() == 0 {
        Outcome::Finished(world_of(c, w))
    } else if fuel == 0 {
        Outcome::OutOfFuel
    } else {
        match react(c, Event::Idle) {
            (_, Some(Action::Fail(e))) => Outcome::Failed(world_of(c, w), e),
            (_, Some(Action::Write(byte))) => match w.next_write() {
                Some(cause) => match react(c, Event::WriteFailed(cause)).1 {
                    Some(Action::Fail(e)) => Outcome::Failed(world_of(c, w), e),
                    _ => Outcome::OutOfFuel,
                },
                None => hosted(react(c, Event::Written).0, w.written(byte), (fuel - 1) as nat),
            },
            (_, Some(Action::Read)) => if w.input.len() > 0 {
                match w.input[0] {
                    Incoming::Byte(byte) => hosted(
                        react(c, Event::Byte(byte)).0,
                        World { input: w.input.skip(1), ..w },
                        (fuel - 1) as nat,
                    ),
                    Incoming::Failure(cause) => match react(c, Event::ReadFailed(cause)).1 {
                        Some(Action::Fail(e)) => Outcome::Failed(world_of(c, w), e),
                        _ => Outcome::OutOfFuel,
                    },
                }
            } else {
                hosted(react(c, Event::EndOfInput).0, w, (fuel - 1) as nat)
            },
            (after, _) => hosted(after, w, (fuel - 1) as nat),
        }
    }
}

/// The meaning of a program is what the machine does when it is served by
/// the host of the world: a run of `code` in world `w` ends as the machine
/// does that executes `code` on the tape of `w` with that host.
pub proof fn lemma_run_is_hosted_machine(code: Seq<Node>, w: World, fuel: nat)
    ensures
        run(code, w, fuel) == hosted(machine_of(code, w), w, fuel),
    decreases fuel,
{
    let c = machine_of(code, w);
    assert(world_of(c, w) == w);
    if code.len() > 0 && fuel > 0 {
        let less = (fuel - 1) as nat;
        match code[0] {
            Node::Loop(body) => {
                if w.cell() != 0 {
                    lemma_run_is_hosted_machine(body + code, w, less);
                } else {
                    lemma_run_is_hosted_machine(code.skip(1), w, less);
                }
            },
            node => {
                if let Ok(next) = perform(node, w) {
                    lemma_run_is_hosted_machine(code.skip(1), next, less);
                    let after = machine_of(code.skip(1), next);
                    match node {
                        Node::Output => {
                            assert(react(c, Event::Written).0 == after);
                            assert(world_of(after, w.written(w.cell())) == next);
                            assert(hosted(after, next, less) == hosted(
                                after,
                                w.written(w.cell()),
                                less,
                            ));
                        },
                        Node::Input => {
                            if w.input.len() > 0 {
                                let byte = w.input[0]->Byte_0;
                                let served = World { input: w.input.skip(1), ..w };
                                assert(react(c, Event::Byte(byte)).0 == after);
                                lemma_hosted_reads_tape_of_machine(after, served, next, less);
                            } else {
                                assert(react(c, Event::EndOfInput).0 == after);
                            }
                        },
                        _ => {
                            assert(react(c, Event::Idle).0 == after);
                            lemma_hosted_reads_tape_of_machine(after, w, next, less);
                        },
                    }
                }
            },
        }
    }
}

/// A hosted run takes the tape and the pointer from the machine, not from
/// the world it is given.
pub proof fn lemma_hosted_reads_tape_of_machine(c: Config, w: World, other: World, fuel: nat)
    requires
        w.input == other.input,
        w.sink == other.sink,
        w.output == other.output,
    ensures
        hosted(c, w, fuel) == hosted(c, other, fuel),
    decreases fuel,
{
    assert(world_of(c, w) == world_of(c, other));
    if c.code.len() > 0 && fuel > 0 {
        let less = (fuel - 1) as nat;
        match react(c, Event::Idle) {
            (_, Some(Action::Fail(e))) => {},
            (_, Some(Action::Write(byte))) => {
                if w.next_write() is None {
                    lemma_hosted_reads_tape_of_machine(
                        react(c, Event::Written).0,
                        w.written(byte),
                        other.written(byte),
                        less,
                    );
                }
            },
            (_, Some(Action::Read)) => {
                if w.input.len() > 0 {
                    if let Incoming::Byte(byte) = w.input[0] {
                        lemma_hosted_reads_tape_of_machine(
                            react(c, Event::Byte(byte)).0,
                            World { input: w.input.skip(1), ..w },
                            World { input: other.input.skip(1), ..other },
                            less,
                        );
                    }
                } else {
                    lemma_hosted_reads_tape_of_machine(
                        react(c, Event::EndOfInput).0,
                        w,
                        other,
                        less,
                    );
                }
            },
            (after, _) => {
                lemma_hosted_reads_tape_of_machine(after, w, other, less);
            },
        }
    }
}

/// Sequences that, from every world with the pointer on the tape, end in
/// the same way within given numbers of steps are equivalent.
pub proof fn lemma_equivalent_when_both_end(a: Seq<Node>, b: Seq<Node>, steps_a: nat, steps_b: nat)
    requires
        forall|w: World|
            w.well_formed() ==> !(#[trigger] run(a, w, steps_a) is OutOfFuel) && run(a, w, steps_a)
                == run(b, w, steps_b),
    ensures
        equivalent(a, b),
{
    assert forall|w: World, fuel: nat|
        w.well_formed() && !(#[trigger] run(a, w, fuel) is OutOfFuel) implies exists|other: nat|
        run(b, w, other) == run(a, w, fuel) by {
        assert(!(run(a, w, steps_a) is OutOfFuel));
        lemma_run_deterministic(a, w, fuel, steps_a);
        assert(run(b, w, steps_b) == run(a, w, fuel));
    }
    assert forall|w: World, fuel: nat|
        w.well_formed() && !(#[trigger] run(b, w, fuel) is OutOfFuel) implies exists|other: nat|
        run(a, w, other) == run(b, w, fuel) by {
        assert(!(run(a, w, steps_a) is OutOfFuel));
        lemma_run_deterministic(b, w, fuel, steps_b);
        assert(run(a, w, steps_a) == run(b, w, fuel));
    }
}

} // verus!
