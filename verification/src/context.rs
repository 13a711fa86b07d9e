//! The execution context: the grid, the shared stack, the emitted output
//! and the ordered collection of live pointers, driven tick by tick. Every
//! tick steps each pointer once, in collection order, against the shared
//! stack — later pointers see the stack writes of earlier ones — and then
//! applies the structural results: removed pointers leave the collection,
//! spawned ones are appended and first step on the next tick.
use vstd::prelude::*;

use crate::definitions::PRINT_STACK_CHAR;
use crate::definitions::REMOVE_IP;
use crate::definitions::STRING_ESCAPE;
use crate::definitions::TOGGLE_STRING_MODE;
use crate::grid::CodeGrid;
use crate::grid::GridError;
use crate::grid::Vec2;
use crate::grid::code_lines;
use crate::grid::grid_parsed;
use crate::grid::max_line_len;
use crate::pointer::IPMode;
use crate::pointer::IPUpdateResult;
use crate::pointer::InstructionPointer;
use crate::pointer::initial_ip;
use crate::pointer::lemma_step_wf;
use crate::pointer::print_char_of;
use crate::pointer::spec_step;

verus! {

/// The mutable half of an execution: the live pointers in order, the shared
/// stack, and everything printed so far.
pub struct MachineState {
    pub ips: Seq<InstructionPointer>,
    pub stack: Seq<i32>,
    pub output: Seq<char>,
}

/// What stepping a row of pointers in order yields: each pointer afterwards,
/// each pointer's structural result, and the stack and output threaded
/// through every step.
pub struct TickSteps {
    pub ips: Seq<InstructionPointer>,
    pub results: Seq<IPUpdateResult>,
    pub stack: Seq<i32>,
    pub output: Seq<char>,
}

/// Steps every pointer once, in order. The stack and output of each step
/// are handed to the next: there is no snapshot isolation inside a tick.
pub open spec fn spec_run_steps(
    ips: Seq<InstructionPointer>,
    g: CodeGrid,
    stack: Seq<i32>,
    output: Seq<char>,
) -> TickSteps
    decreases ips.len(),
{
    if ips.len() == 0 {
        TickSteps {
            ips: Seq::<InstructionPointer>::empty(),
            results: Seq::<IPUpdateResult>::empty(),
            stack,
            output,
        }
    } else {
        let prefix = spec_run_steps(ips.drop_last(), g, stack, output);
        let e = spec_step(ips.last(), g, prefix.stack, prefix.output);
        TickSteps {
            ips: prefix.ips.push(e.ip),
            results: prefix.results.push(e.result),
            stack: e.stack,
            output: e.output,
        }
    }
}

/// The stepped pointers that stay after the structural pass: those whose
/// result did not ask for removal, in their original order.
pub open spec fn spec_survivors(
    ips: Seq<InstructionPointer>,
    results: Seq<IPUpdateResult>,
) -> Seq<InstructionPointer>
    decreases results.len(),
{
    if results.len() == 0 {
        Seq::<InstructionPointer>::empty()
    } else {
        let rest = spec_survivors(ips.drop_last(), results.drop_last());
        if results.last() is DeleteSelf {
            rest
        } else {
            rest.push(ips.last())
        }
    }
}

/// The pointers spawned during a tick, in the order of the steps that
/// spawned them.
pub open spec fn spec_spawned(results: Seq<IPUpdateResult>) -> Seq<InstructionPointer>
    decreases results.len(),
{
    if results.len() == 0 {
        Seq::<InstructionPointer>::empty()
    } else {
        let rest = spec_spawned(results.drop_last());
        match results.last() {
            IPUpdateResult::AddIP(ip) => rest.push(ip),
            _ => rest,
        }
    }
}

/// One whole tick: step every pointer in order, then apply the structural
/// results — survivors keep their order, spawned pointers go to the end.
pub open spec fn spec_tick(g: CodeGrid, s: MachineState) -> MachineState {
    let stepped = spec_run_steps(s.ips, g, s.stack, s.output);
    MachineState {
        ips: spec_survivors(stepped.ips, stepped.results) + spec_spawned(stepped.results),
        stack: stepped.stack,
        output: stepped.output,
    }
}

/// The state after `n` ticks.
pub open spec fn spec_ticks(g: CodeGrid, s: MachineState, n: nat) -> MachineState
    decreases n,
{
    if n == 0 {
        s
    } else {
        spec_ticks(g, spec_tick(g, s), (n - 1) as nat)
    }
}

/// Every pointer of a state names a cell of the grid and moves one cell per
/// step.
pub open spec fn ips_wf(ips: Seq<InstructionPointer>, g: CodeGrid) -> bool {
    forall|i: int| 0 <= i < ips.len() ==> (#[trigger] ips[i]).wf(&g)
}

/// Stepping a row of well-formed pointers yields as many stepped pointers
/// and results, all of them well formed.
pub proof fn lemma_run_steps_wf(
    ips: Seq<InstructionPointer>,
    g: CodeGrid,
    stack: Seq<i32>,
    output: Seq<char>,
)
    requires
        g.wf(),
        ips_wf(ips, g),
    ensures
        spec_run_steps(ips, g, stack, output).ips.len() == ips.len(),
        spec_run_steps(ips, g, stack, output).results.len() == ips.len(),
        ips_wf(spec_run_steps(ips, g, stack, output).ips, g),
        forall|i: int|
            0 <= i < ips.len() ==> (#[trigger] spec_run_steps(ips, g, stack, output).results[i]
                matches IPUpdateResult::AddIP(p) ==> p.wf(&g)),
    decreases ips.len(),
{
    if ips.len() > 0 {
        assert(ips_wf(ips.drop_last(), g));
        lemma_run_steps_wf(ips.drop_last(), g, stack, output);
        let prefix = spec_run_steps(ips.drop_last(), g, stack, output);
        lemma_step_wf(ips.last(), g, prefix.stack, prefix.output);
    }
}

/// Survivors and spawned pointers of well-formed steps are well formed, and
/// there are never more survivors than stepped pointers.
pub proof fn lemma_structural_wf(ips: Seq<InstructionPointer>, results: Seq<IPUpdateResult>, g: CodeGrid)
    requires
        ips.len() == results.len(),
        ips_wf(ips, g),
        forall|i: int|
            0 <= i < results.len() ==> (#[trigger] results[i] matches IPUpdateResult::AddIP(p)
                ==> p.wf(&g)),
    ensures
        ips_wf(spec_survivors(ips, results), g),
        ips_wf(spec_spawned(results), g),
        spec_survivors(ips, results).len() <= ips.len(),
    decreases results.len(),
{
    if results.len() > 0 {
        assert(ips_wf(ips.drop_last(), g));
        lemma_structural_wf(ips.drop_last(), results.drop_last(), g);
        let rest = spec_survivors(ips.drop_last(), results.drop_last());
        let rests = spec_spawned(results.drop_last());
        assert forall|i: int|
            0 <= i < spec_survivors(ips, results).len() implies (#[trigger] spec_survivors(
            ips,
            results,
        )[i]).wf(&g) by {
            if i < rest.len() {
                assert(spec_survivors(ips, results)[i] == rest[i]);
            }
        }
        assert forall|i: int|
            0 <= i < spec_spawned(results).len() implies (#[trigger] spec_spawned(results)[i]).wf(
            &g,
        ) by {
            if i < rests.len() {
                assert(spec_spawned(results)[i] == rests[i]);
            }
        }
    }
}

/// A whole tick of a well-formed state leaves every pointer well formed.
pub proof fn lemma_tick_wf(g: CodeGrid, s: MachineState)
    requires
        g.wf(),
        ips_wf(s.ips, g),
    ensures
        ips_wf(spec_tick(g, s).ips, g),
{
    lemma_run_steps_wf(s.ips, g, s.stack, s.output);
    let stepped = spec_run_steps(s.ips, g, s.stack, s.output);
    lemma_structural_wf(stepped.ips, stepped.results, g);
    let survivors = spec_survivors(stepped.ips, stepped.results);
    let spawned = spec_spawned(stepped.results);
    assert forall|i: int| 0 <= i < spec_tick(g, s).ips.len() implies (#[trigger] spec_tick(
        g,
        s,
    ).ips[i]).wf(&g) by {
        if i < survivors.len() {
            assert(spec_tick(g, s).ips[i] == survivors[i]);
        } else {
            assert(spec_tick(g, s).ips[i] == spawned[i - survivors.len()]);
        }
    }
}

/// Owns the grid, the shared stack, the output and the ordered collection
/// of live pointers, and drives the step loop.
pub struct ExecutionContext {
    pub code_grid: CodeGrid,
    pub instruction_pointers: Vec<InstructionPointer>,
    pub stack: Vec<i32>,
    pub output: Vec<char>,
}

impl ExecutionContext {
    /// The mutable half of this context as one mathematical value.
    pub open spec fn state(&self) -> MachineState {
        MachineState { ips: self.instruction_pointers@, stack: self.stack@, output: self.output@ }
    }

    /// The grid is a well-formed rectangle and every live pointer sits on
    /// it.
    pub open spec fn wf(&self) -> bool {
        &&& self.code_grid.wf()
        &&& ips_wf(self.instruction_pointers@, self.code_grid)
    }

    /// Builds a context from source text: the parsed grid, an empty shared
    /// stack, no output yet, and one pointer at the origin moving downward.
    /// Fails exactly when the text holds no characters at all.
    pub fn new(code: &str) -> (result: Result<ExecutionContext, GridError>)
        requires
            code@.len() < isize::MAX,
        ensures
            match result {
                Ok(ec) => {
                    &&& ec.wf()
                    &&& grid_parsed(code@, ec.code_grid)
                    &&& ec.state().ips == seq![initial_ip()]
                    &&& ec.state().stack == Seq::<i32>::empty()
                    &&& ec.state().output == Seq::<char>::empty()
                },
                Err(e) => e == GridError::Empty,
            },
            result is Err <==> max_line_len(code_lines(code@)) == 0,
    {
        let code_grid = match CodeGrid::from_str(code) {
            Ok(g) => g,
            Err(e) => {
                return Err(e);
            },
        };
        let mut instruction_pointers: Vec<InstructionPointer> = Vec::new();
        instruction_pointers.push(InstructionPointer::default());
        let ec = ExecutionContext {
            code_grid,
            instruction_pointers,
            stack: Vec::new(),
            output: Vec::new(),
        };
        proof {
            assert(ec.instruction_pointers@ =~= seq![initial_ip()]);
            assert(ec.stack@ =~= Seq::<i32>::empty());
            assert(ec.output@ =~= Seq::<char>::empty());
        }
        Ok(ec)
    }

    /// One tick: step every live pointer once, in collection order, against
    /// the shared stack and output, then apply the structural results —
    /// pointers whose step asked for removal leave, spawned pointers are
    /// appended at the end and take no step before the next tick.
    pub fn tick(&mut self)
        requires
            old(self).wf(),
        ensures
            final(self).wf(),
            final(self).code_grid == old(self).code_grid,
            final(self).state() == spec_tick(old(self).code_grid, old(self).state()),
    {
        let ghost g = self.code_grid;
        let ghost s0 = self.state();
        let n = self.instruction_pointers.len();
        let mut stepped: Vec<InstructionPointer> = Vec::new();
        let mut results: Vec<IPUpdateResult> = Vec::new();
        let mut i: usize = 0;
        while i < n
            invariant
                self.code_grid == g,
                g.wf(),
                self.instruction_pointers@ == s0.ips,
                n == s0.ips.len(),
                ips_wf(s0.ips, g),
                i <= n,
                stepped@.len() == i,
                results@.len() == i,
                spec_run_steps(s0.ips.take(i as int), g, s0.stack, s0.output) == (TickSteps {
                    ips: stepped@,
                    results: results@,
                    stack: self.stack@,
                    output: self.output@,
                }),
                ips_wf(stepped@, g),
                forall|t: int|
                    0 <= t < i ==> (#[trigger] results@[t] matches IPUpdateResult::AddIP(p)
                        ==> p.wf(&g)),
            decreases n - i,
        {
            proof {
                assert(s0.ips.take(i + 1).drop_last() =~= s0.ips.take(i as int));
                assert(s0.ips.take(i + 1).last() == s0.ips[i as int]);
            }
            let mut ip = self.instruction_pointers[i];
            let result = ip.update(&self.code_grid, &mut self.stack, &mut self.output);
            stepped.push(ip);
            results.push(result);
            i += 1;
        }
        proof {
            assert(s0.ips.take(n as int) =~= s0.ips);
        }
        let ghost all = spec_run_steps(s0.ips, g, s0.stack, s0.output);

        let mut survivors: Vec<InstructionPointer> = Vec::new();
        let mut spawned: Vec<InstructionPointer> = Vec::new();
        let mut j: usize = 0;
        while j < n
            invariant
                stepped@.len() == n,
                results@.len() == n,
                j <= n,
                survivors@ == spec_survivors(stepped@.take(j as int), results@.take(j as int)),
                spawned@ == spec_spawned(results@.take(j as int)),
            decreases n - j,
        {
            proof {
                assert(stepped@.take(j + 1).drop_last() =~= stepped@.take(j as int));
                assert(results@.take(j + 1).drop_last() =~= results@.take(j as int));
                assert(stepped@.take(j + 1).last() == stepped@[j as int]);
                assert(results@.take(j + 1).last() == results@[j as int]);
            }
            let result = results[j];
            match result {
                IPUpdateResult::Normal => {
                    survivors.push(stepped[j]);
                },
                IPUpdateResult::DeleteSelf => {},
                IPUpdateResult::AddIP(ip) => {
                    survivors.push(stepped[j]);
                    spawned.push(ip);
                },
            }
            j += 1;
        }
        proof {
            assert(stepped@.take(n as int) =~= stepped@);
            assert(results@.take(n as int) =~= results@);
        }

        let ghost base = survivors@;
        let mut k: usize = 0;
        let spawned_len = spawned.len();
        while k < spawned_len
            invariant
                spawned@.len() == spawned_len,
                k <= spawned_len,
                survivors@ == base + spawned@.take(k as int),
            decreases spawned_len - k,
        {
            proof {
                assert((base + spawned@.take(k + 1)) =~= (base + spawned@.take(k as int)).push(
                    spawned@[k as int],
                ));
            }
            survivors.push(spawned[k]);
            k += 1;
        }
        proof {
            assert(base + spawned@.take(spawned_len as int) =~= base + spawned@);
        }

        self.instruction_pointers = survivors;
        proof {
            lemma_run_steps_wf(s0.ips, g, s0.stack, s0.output);
            lemma_structural_wf(all.ips, all.results, g);
            assert(self.state().ips == spec_tick(g, s0).ips);
            assert forall|t: int|
                0 <= t < self.instruction_pointers@.len() implies (
            #[trigger] self.instruction_pointers@[t]).wf(&self.code_grid) by {
                let sv = spec_survivors(all.ips, all.results);
                if t < sv.len() {
                    assert(self.instruction_pointers@[t] == sv[t]);
                } else {
                    assert(self.instruction_pointers@[t] == spec_spawned(all.results)[t
                        - sv.len()]);
                }
            }
        }
    }
}

/// A tick of a single live pointer whose step carries on normally is just
/// that one step.
proof fn lemma_singleton_tick(g: CodeGrid, s: MachineState)
    requires
        s.ips.len() == 1,
        spec_step(s.ips[0], g, s.stack, s.output).result is Normal,
    ensures
        spec_tick(g, s).ips == seq![spec_step(s.ips[0], g, s.stack, s.output).ip],
        spec_tick(g, s).stack == spec_step(s.ips[0], g, s.stack, s.output).stack,
        spec_tick(g, s).output == spec_step(s.ips[0], g, s.stack, s.output).output,
{
    reveal_with_fuel(spec_run_steps, 2);
    reveal_with_fuel(spec_survivors, 2);
    reveal_with_fuel(spec_spawned, 2);
    let e = spec_step(s.ips[0], g, s.stack, s.output);
    assert(s.ips.drop_last() =~= Seq::<InstructionPointer>::empty());
    assert(s.ips.last() == s.ips[0]);
    let stepped = spec_run_steps(s.ips, g, s.stack, s.output);
    assert(stepped.ips =~= seq![e.ip]);
    assert(stepped.results =~= seq![e.result]);
    assert(stepped.ips.drop_last() =~= Seq::<InstructionPointer>::empty());
    assert(stepped.results.drop_last() =~= Seq::<IPUpdateResult>::empty());
    assert(spec_survivors(stepped.ips, stepped.results) =~= seq![e.ip]);
    assert(spec_spawned(stepped.results) =~= Seq::<InstructionPointer>::empty());
    assert(spec_tick(g, s).ips =~= seq![e.ip]);
}

/// A pointer in string mode that crosses a run of ordinary characters — no
/// string-mode toggle and no escape among them — pushes exactly their code
/// points onto the shared stack, in grid order, prints nothing, and comes
/// out still in string mode just past the run.
pub proof fn lemma_string_mode_run(g: CodeGrid, s: MachineState, k: nat)
    requires
        g.wf(),
        s.ips.len() == 1,
        s.ips[0].wf(&g),
        s.ips[0].mode == IPMode::String,
        s.ips[0].movement == (Vec2 { x: 1isize, y: 0isize }),
        s.ips[0].position.x + k <= g.width,
        forall|j: int|
            0 <= j < k ==> #[trigger] g@[s.ips[0].position.y as int][s.ips[0].position.x + j]
                != TOGGLE_STRING_MODE,
        forall|j: int|
            0 <= j < k ==> #[trigger] g@[s.ips[0].position.y as int][s.ips[0].position.x + j]
                != STRING_ESCAPE,
    ensures
        spec_ticks(g, s, k).ips.len() == 1,
        spec_ticks(g, s, k).ips[0].wf(&g),
        spec_ticks(g, s, k).ips[0].mode == IPMode::String,
        spec_ticks(g, s, k).ips[0].movement == s.ips[0].movement,
        spec_ticks(g, s, k).ips[0].position.y == s.ips[0].position.y,
        spec_ticks(g, s, k).ips[0].position.x as int == (s.ips[0].position.x + k) % (
        g.width as int),
        spec_ticks(g, s, k).output == s.output,
        spec_ticks(g, s, k).stack == s.stack + Seq::new(
            k,
            |j: int| g@[s.ips[0].position.y as int][s.ips[0].position.x + j] as i32,
        ),
    decreases k,
{
    let ip = s.ips[0];
    let w = g.width as int;
    let x0 = ip.position.x as int;
    let y0 = ip.position.y as int;
    let codes = Seq::new(k, |j: int| g@[y0][x0 + j] as i32);
    if k == 0 {
        vstd::arithmetic::div_mod::lemma_small_mod(x0 as nat, g.width as nat);
        assert(s.stack + codes =~= s.stack);
    } else {
        assert(g@[y0][x0 + 0] != TOGGLE_STRING_MODE);
        assert(g@[y0][x0 + 0] != STRING_ESCAPE);
        let c = g.char_at(ip.position);
        let e = spec_step(ip, g, s.stack, s.output);
        lemma_step_wf(ip, g, s.stack, s.output);
        lemma_singleton_tick(g, s);
        let s1 = spec_tick(g, s);
        assert(s1.ips[0] == e.ip);
        assert(spec_ticks(g, s, k) == spec_ticks(g, s1, (k - 1) as nat));
        assert(e.ip.position.x as int == (x0 + 1) % w);
        vstd::arithmetic::div_mod::lemma_small_mod(y0 as nat, g.height as nat);
        assert(e.ip.position.y as int == y0);
        if k == 1 {
            assert(spec_ticks(g, s1, 0) == s1);
            assert(s1.stack =~= s.stack + codes);
        } else {
            assert(x0 + 1 < w);
            vstd::arithmetic::div_mod::lemma_small_mod((x0 + 1) as nat, g.width as nat);
            assert(e.ip.position.x as int == x0 + 1);
            assert forall|j: int|
                0 <= j < k - 1 implies #[trigger] g@[s1.ips[0].position.y as int][s1.ips[0].position.x
                + j] != TOGGLE_STRING_MODE by {
                assert(g@[y0][x0 + (j + 1)] != TOGGLE_STRING_MODE);
            }
            assert forall|j: int|
                0 <= j < k - 1 implies #[trigger] g@[s1.ips[0].position.y as int][s1.ips[0].position.x
                + j] != STRING_ESCAPE by {
                assert(g@[y0][x0 + (j + 1)] != STRING_ESCAPE);
            }
            lemma_string_mode_run(g, s1, (k - 1) as nat);
            assert((x0 + 1 + (k - 1)) % w == (x0 + k) % w);
            let tail = Seq::new((k - 1) as nat, |j: int| g@[y0][x0 + 1 + j] as i32);
            assert(spec_ticks(g, s1, (k - 1) as nat).stack == s1.stack + tail);
            assert(s1.stack + tail =~= s.stack + codes) by {
                assert forall|t: int| 0 <= t < s.stack.len() + k implies (s1.stack + tail)[t] == (
                s.stack + codes)[t] by {
                    if t < s.stack.len() {
                    } else if t == s.stack.len() {
                        assert((s1.stack + tail)[t] == c as i32);
                        assert(codes[0] == g@[y0][x0 + 0] as i32);
                    } else {
                        let j = t - s.stack.len();
                        assert((s1.stack + tail)[t] == tail[j - 1]);
                        assert(tail[j - 1] == g@[y0][x0 + 1 + (j - 1)] as i32);
                        assert(codes[j] == g@[y0][x0 + j] as i32);
                    }
                }
            }
        }
    }
}

/// A pointer in normal mode that crosses a run of print-and-pop cells, with
/// at least as many values on the shared stack as cells in the run, pops one
/// value per cell from the top down and emits their characters in that
/// order: the most recently pushed value prints first.
pub proof fn lemma_print_run(g: CodeGrid, s: MachineState, k: nat)
    requires
        g.wf(),
        s.ips.len() == 1,
        s.ips[0].wf(&g),
        s.ips[0].mode == IPMode::Normal,
        s.ips[0].movement == (Vec2 { x: 1isize, y: 0isize }),
        s.ips[0].position.x + k <= g.width,
        forall|j: int|
            0 <= j < k ==> #[trigger] g@[s.ips[0].position.y as int][s.ips[0].position.x + j]
                == PRINT_STACK_CHAR,
        s.stack.len() >= k,
    ensures
        spec_ticks(g, s, k).ips.len() == 1,
        spec_ticks(g, s, k).ips[0].wf(&g),
        spec_ticks(g, s, k).ips[0].mode == IPMode::Normal,
        spec_ticks(g, s, k).ips[0].movement == s.ips[0].movement,
        spec_ticks(g, s, k).ips[0].position.y == s.ips[0].position.y,
        spec_ticks(g, s, k).ips[0].position.x as int == (s.ips[0].position.x + k) % (
        g.width as int),
        spec_ticks(g, s, k).stack == s.stack.take(s.stack.len() - k),
        spec_ticks(g, s, k).output == s.output + Seq::new(
            k,
            |i: int| print_char_of(s.stack[s.stack.len() - 1 - i]),
        ),
    decreases k,
{
    let ip = s.ips[0];
    let w = g.width as int;
    let x0 = ip.position.x as int;
    let y0 = ip.position.y as int;
    let emitted = Seq::new(k, |i: int| print_char_of(s.stack[s.stack.len() - 1 - i]));
    if k == 0 {
        vstd::arithmetic::div_mod::lemma_small_mod(x0 as nat, g.width as nat);
        assert(s.stack.take(s.stack.len() as int) =~= s.stack);
        assert(s.output + emitted =~= s.output);
    } else {
        assert(g@[y0][x0 + 0] == PRINT_STACK_CHAR);
        let e = spec_step(ip, g, s.stack, s.output);
        lemma_step_wf(ip, g, s.stack, s.output);
        lemma_singleton_tick(g, s);
        let s1 = spec_tick(g, s);
        assert(s1.ips[0] == e.ip);
        assert(spec_ticks(g, s, k) == spec_ticks(g, s1, (k - 1) as nat));
        assert(e.ip.position.x as int == (x0 + 1) % w);
        vstd::arithmetic::div_mod::lemma_small_mod(y0 as nat, g.height as nat);
        assert(e.ip.position.y as int == y0);
        assert(s1.stack == s.stack.drop_last());
        assert(s1.output == s.output.push(print_char_of(s.stack.last())));
        if k == 1 {
            assert(spec_ticks(g, s1, 0) == s1);
            assert(s1.stack =~= s.stack.take(s.stack.len() - 1));
            assert(s1.output =~= s.output + emitted);
        } else {
            assert(x0 + 1 < w);
            vstd::arithmetic::div_mod::lemma_small_mod((x0 + 1) as nat, g.width as nat);
            assert(e.ip.position.x as int == x0 + 1);
            assert forall|j: int|
                0 <= j < k - 1 implies #[trigger] g@[s1.ips[0].position.y as int][s1.ips[0].position.x
                + j] == PRINT_STACK_CHAR by {
                assert(g@[y0][x0 + (j + 1)] == PRINT_STACK_CHAR);
            }
            lemma_print_run(g, s1, (k - 1) as nat);
            assert((x0 + 1 + (k - 1)) % w == (x0 + k) % w);
            assert(s1.stack.take(s1.stack.len() - (k - 1)) =~= s.stack.take(s.stack.len() - k));
            let tail = Seq::new((k - 1) as nat, |i: int| print_char_of(s1.stack[s1.stack.len() - 1
                - i]));
            assert(spec_ticks(g, s1, (k - 1) as nat).output == s1.output + tail);
            assert(s1.output + tail =~= s.output + emitted) by {
                assert forall|t: int| 0 <= t < s.output.len() + k implies (s1.output + tail)[t] == (
                s.output + emitted)[t] by {
                    if t < s.output.len() {
                    } else if t == s.output.len() {
                        assert((s1.output + tail)[t] == print_char_of(s.stack.last()));
                        assert(emitted[0] == print_char_of(s.stack[s.stack.len() - 1]));
                    } else {
                        let i = t - s.output.len();
                        assert((s1.output + tail)[t] == tail[i - 1]);
                        assert(tail[i - 1] == print_char_of(s1.stack[s1.stack.len() - 1 - (i
                            - 1)]));
                        assert(s1.stack[s1.stack.len() - 1 - (i - 1)] == s.stack[s.stack.len() - 1
                            - i]);
                        assert(emitted[i] == print_char_of(s.stack[s.stack.len() - 1 - i]));
                    }
                }
            }
        }
    }
}

/// The grid holds no remove instruction anywhere.
pub open spec fn no_remove(g: CodeGrid) -> bool {
    forall|y: int, x: int|
        0 <= y < g@.len() && 0 <= x < g@[y].len() ==> #[trigger] g@[y][x] != REMOVE_IP
}

/// On a grid without the remove instruction, no step ever asks for removal.
proof fn lemma_step_no_remove(ip: InstructionPointer, g: CodeGrid, stack: Seq<i32>, output: Seq<
    char,
>)
    requires
        g.wf(),
        ip.wf(&g),
        no_remove(g),
    ensures
        !(spec_step(ip, g, stack, output).result is DeleteSelf),
{
    assert(g.char_at(ip.position) != REMOVE_IP);
}

/// Without removals every stepped pointer survives.
proof fn lemma_survivors_full(ips: Seq<InstructionPointer>, results: Seq<IPUpdateResult>)
    requires
        ips.len() == results.len(),
        forall|i: int| 0 <= i < results.len() ==> !((#[trigger] results[i]) is DeleteSelf),
    ensures
        spec_survivors(ips, results).len() == ips.len(),
    decreases results.len(),
{
    if results.len() > 0 {
        lemma_survivors_full(ips.drop_last(), results.drop_last());
    }
}

/// On a grid without removals, every result of a tick's step pass lets its
/// pointer live.
proof fn lemma_run_steps_no_remove(
    ips: Seq<InstructionPointer>,
    g: CodeGrid,
    stack: Seq<i32>,
    output: Seq<char>,
)
    requires
        g.wf(),
        ips_wf(ips, g),
        no_remove(g),
    ensures
        forall|i: int|
            0 <= i < spec_run_steps(ips, g, stack, output).results.len() ==> !((
            #[trigger] spec_run_steps(ips, g, stack, output).results[i]) is DeleteSelf),
    decreases ips.len(),
{
    if ips.len() > 0 {
        assert(ips_wf(ips.drop_last(), g));
        lemma_run_steps_no_remove(ips.drop_last(), g, stack, output);
        let prefix = spec_run_steps(ips.drop_last(), g, stack, output);
        lemma_step_no_remove(ips.last(), g, prefix.stack, prefix.output);
    }
}

/// A program whose grid holds no remove instruction never loses a pointer:
/// after any number of ticks at least as many pointers are live as at the
/// start, so the step loop never terminates.
pub proof fn lemma_no_remove_never_terminates(g: CodeGrid, s: MachineState, n: nat)
    requires
        g.wf(),
        ips_wf(s.ips, g),
        no_remove(g),
    ensures
        spec_ticks(g, s, n).ips.len() >= s.ips.len(),
        ips_wf(spec_ticks(g, s, n).ips, g),
    decreases n,
{
    if n > 0 {
        lemma_run_steps_wf(s.ips, g, s.stack, s.output);
        let stepped = spec_run_steps(s.ips, g, s.stack, s.output);
        lemma_run_steps_no_remove(s.ips, g, s.stack, s.output);
        lemma_survivors_full(stepped.ips, stepped.results);
        lemma_tick_wf(g, s);
        let s1 = spec_tick(g, s);
        assert(s1.ips.len() >= s.ips.len());
        lemma_no_remove_never_terminates(g, s1, (n - 1) as nat);
    }
}

} // verus!
