//! The command-stream interception and hook-chaining engine.
//!
//! A frame's command buffer is a concatenation of variable-length commands;
//! byte 0 of each command is its opcode. [`CommandLengths`] computes each
//! command's byte length, [`ingame_hook`] walks a buffer and applies replay
//! filtering, and the chain runner dispatches every visible command through
//! the ordered list of registered hooks, ending at the game's own command
//! processor.

use vstd::prelude::*;

verus! {

// ---------------------------------------------------------------------------
// Replay-exempt opcodes
// ---------------------------------------------------------------------------

/// The fixed set of opcodes that stay visible during replay playback and are
/// never written to the outgoing replay data.
pub open spec fn spec_is_replay_command(byte: u8) -> bool {
    byte == 0x5 || byte == 0x8 || byte == 0x10 || byte == 0x11 || byte == 0x55 || byte == 0x56
        || byte == 0x5d
}

pub fn is_replay_command(byte: u8) -> (r: bool)
    ensures
        r == spec_is_replay_command(byte),
{
    match byte {
        0x5 | 0x8 | 0x10 | 0x11 | 0x55 | 0x56 | 0x5d => true,
        _ => false,
    }
}

// ---------------------------------------------------------------------------
// Command lengths
// ---------------------------------------------------------------------------

/// A caller-supplied dynamic length rule: computes the byte length of the
/// command at the start of `cmd`, where `cmd` extends to the end of the
/// containing buffer.
pub trait CommandLength {
    fn command_length(&self, cmd: &[u8]) -> usize;
}

/// A stand-in rule type for tables that install no dynamic rules; as a
/// rule it always yields the maximal sentinel.
pub struct NoLengthOverride;

impl CommandLength for NoLengthOverride {
    fn command_length(&self, _cmd: &[u8]) -> (r: usize)
        ensures
            r == usize::MAX,
    {
        usize::MAX
    }
}

/// The rule used to compute one opcode's command length.
pub enum LengthRule<F> {
    /// No length was installed; lookups yield a maximal sentinel, which the
    /// dispatch loop treats as a malformed command.
    Unset,
    /// A fixed byte count, always below 0x400.
    Fixed(u16),
    /// Save/load commands: scan from offset 5 for a NUL terminator and use
    /// its offset plus one, or the maximal sentinel when none is in reach.
    SaveLength,
    /// Legacy selection commands: `payload_byte[1] * 2 + 2`.
    SelectLegacy,
    /// Extended selection commands: `payload_byte[1] * 4 + 2`.
    SelectExtended,
    /// A caller-supplied dynamic rule.
    Dynamic(F),
}

/// Per-opcode table of length rules, indexed by the command's first byte.
///
/// The table is built during initialization (`set_default_command_lengths`,
/// `add_length_override`) and then shared immutably with the dispatch loop;
/// a table reached only through shared references can no longer change.
pub struct CommandLengths<F> {
    data: Vec<LengthRule<F>>,
}

/// Opcode of a command buffer: its first byte, or 0 for an empty buffer.
pub open spec fn spec_opcode(cmd: Seq<u8>) -> u8 {
    if cmd.len() == 0 {
        0
    } else {
        cmd[0]
    }
}

/// Length computed by the NUL-scan rule: the offset of the first zero byte at
/// or past offset 5, plus one; the maximal sentinel when there is none.
pub open spec fn spec_save_command_length(cmd: Seq<u8>, pos: int) -> int
    decreases cmd.len() - pos,
{
    if pos < 0 || pos >= cmd.len() {
        usize::MAX as int
    } else if cmd[pos] == 0 {
        pos + 1
    } else {
        spec_save_command_length(cmd, pos + 1)
    }
}

/// The length a rule assigns to the command starting `cmd`, when the rule is
/// static; `None` for caller-supplied dynamic rules.
pub open spec fn spec_static_len<F>(rule: LengthRule<F>, cmd: Seq<u8>) -> Option<int> {
    match rule {
        LengthRule::Unset => Some(usize::MAX as int),
        LengthRule::Fixed(n) => Some(n as int),
        LengthRule::SaveLength => Some(spec_save_command_length(cmd, 5)),
        LengthRule::SelectLegacy => Some(
            if cmd.len() < 2 {
                usize::MAX as int
            } else {
                cmd[1] * 2 + 2
            },
        ),
        LengthRule::SelectExtended => Some(
            if cmd.len() < 2 {
                usize::MAX as int
            } else {
                cmd[1] * 4 + 2
            },
        ),
        LengthRule::Dynamic(_) => None,
    }
}

impl<F> CommandLengths<F> {
    /// One rule per opcode.
    pub closed spec fn wf(&self) -> bool {
        self.data@.len() == 256
    }

    /// The rule installed for an opcode.
    pub closed spec fn spec_rule(&self, op: u8) -> LengthRule<F> {
        self.data@[op as int]
    }

    pub fn new() -> (r: CommandLengths<F>)
        ensures
            r.wf(),
            forall|op: u8| r.spec_rule(op) is Unset,
    {
        let mut data: Vec<LengthRule<F>> = Vec::new();
        let mut i: usize = 0;
        while i < 256
            invariant
                i <= 256,
                data@.len() == i,
                forall|j: int| 0 <= j < i ==> data@[j] is Unset,
            decreases 256 - i,
        {
            data.push(LengthRule::Unset);
            i = i + 1;
        }
        CommandLengths { data }
    }
}

impl<F: CommandLength> CommandLengths<F> {
    /// Byte length of the command at the start of `cmd` under this table.
    ///
    /// A result exceeding `cmd.len()` signals a malformed command; unset
    /// opcodes and failed scans yield `usize::MAX`.
    pub fn command_len(&self, cmd: &[u8]) -> (r: usize)
        requires
            self.wf(),
        ensures
            match spec_static_len(self.spec_rule(spec_opcode(cmd@)), cmd@) {
                Some(l) => r == l,
                None => true,
            },
    {
        let id: u8 = if cmd.len() == 0 {
            0
        } else {
            cmd[0]
        };
        match &self.data[id as usize] {
            LengthRule::Unset => usize::MAX,
            LengthRule::Fixed(n) => *n as usize,
            LengthRule::SaveLength => {
                let mut pos: usize = 5;
                while pos < cmd.len()
                    invariant
                        5 <= pos,
                        self.wf(),
                        spec_static_len(self.spec_rule(spec_opcode(cmd@)), cmd@) == Some(
                            spec_save_command_length(cmd@, 5),
                        ),
                        spec_save_command_length(cmd@, 5) == spec_save_command_length(
                            cmd@,
                            pos as int,
                        ),
                    decreases cmd@.len() - pos,
                {
                    if cmd[pos] == 0 {
                        proof {
                            assert(spec_save_command_length(cmd@, pos as int) == pos + 1);
                        }
                        return pos + 1;
                    }
                    proof {
                        assert(spec_save_command_length(cmd@, pos as int)
                            == spec_save_command_length(cmd@, pos as int + 1));
                    }
                    pos = pos + 1;
                }
                proof {
                    assert(spec_save_command_length(cmd@, pos as int) == usize::MAX as int);
                }
                usize::MAX
            },
            LengthRule::SelectLegacy => {
                if cmd.len() < 2 {
                    usize::MAX
                } else {
                    (cmd[1] as usize) * 2 + 2
                }
            },
            LengthRule::SelectExtended => {
                if cmd.len() < 2 {
                    usize::MAX
                } else {
                    (cmd[1] as usize) * 4 + 2
                }
            },
            LengthRule::Dynamic(f) => f.command_length(cmd),
        }
    }
}

/// The rule `set_default_command_lengths` leaves installed for one opcode:
/// built-in rules override the caller-supplied defaults for the special
/// opcode groups, other in-range entries below 0x400 become fixed lengths,
/// and everything else keeps its previous rule.
pub open spec fn spec_default_rule<F>(
    prev: LengthRule<F>,
    lengths: Seq<u32>,
    op: u8,
) -> LengthRule<F> {
    if op == 0x6 || op == 0x7 {
        LengthRule::SaveLength
    } else if op == 0x9 || op == 0xa || op == 0xb {
        LengthRule::SelectLegacy
    } else if op == 0x63 || op == 0x64 || op == 0x65 {
        LengthRule::SelectExtended
    } else if op == 0x37 {
        LengthRule::Fixed(7)
    } else if (op as int) < lengths.len() && lengths[op as int] < 0x400 {
        LengthRule::Fixed(lengths[op as int] as u16)
    } else {
        prev
    }
}

/// Seeds the table from a caller-supplied default-length array and installs
/// the built-in special-case rules on top of it.
///
/// Should be called before any dynamic overrides are added for the opcodes
/// whose rules it installs, since it replaces their entries.
pub fn set_default_command_lengths<F>(table: &mut CommandLengths<F>, lengths: &[u32])
    requires
        old(table).wf(),
    ensures
        final(table).wf(),
        forall|op: u8|
            final(table).spec_rule(op) == spec_default_rule(
                old(table).spec_rule(op),
                lengths@,
                op,
            ),
{
    let ghost orig = *old(table);
    let mut i: usize = 0;
    while i < lengths.len() && i < 256
        invariant
            table.wf(),
            i <= 256,
            i <= lengths@.len(),
            forall|op: u8|
                #![trigger orig.spec_rule(op)]
                (op as int) < i && lengths@[op as int] < 0x400 ==> table.spec_rule(op)
                    == LengthRule::<F>::Fixed(lengths@[op as int] as u16),
            forall|op: u8|
                #![trigger orig.spec_rule(op)]
                !((op as int) < i && lengths@[op as int] < 0x400) ==> table.spec_rule(op)
                    == orig.spec_rule(op),
        decreases lengths@.len() - i,
    {
        let ghost t0 = *table;
        let value = lengths[i];
        if value < 0x400 {
            table.data[i] = LengthRule::Fixed(value as u16);
        }
        proof {
            assert forall|op: u8| (op as int) < i + 1 && lengths@[op as int] < 0x400 implies
                table.spec_rule(op) == LengthRule::<F>::Fixed(lengths@[op as int] as u16) by {
                assert(orig.spec_rule(op) == orig.data@[op as int]);
                assert(t0.spec_rule(op) == t0.data@[op as int]);
                assert(table.spec_rule(op) == table.data@[op as int]);
            }
            assert forall|op: u8| !((op as int) < i + 1 && lengths@[op as int] < 0x400) implies
                table.spec_rule(op) == orig.spec_rule(op) by {
                assert(orig.spec_rule(op) == orig.data@[op as int]);
                assert(t0.spec_rule(op) == t0.data@[op as int]);
                assert(table.spec_rule(op) == table.data@[op as int]);
            }
        }
        i = i + 1;
    }
    let ghost t1 = *table;
    table.data[0x6] = LengthRule::SaveLength;
    table.data[0x7] = LengthRule::SaveLength;
    table.data[0x9] = LengthRule::SelectLegacy;
    table.data[0xa] = LengthRule::SelectLegacy;
    table.data[0xb] = LengthRule::SelectLegacy;
    table.data[0x63] = LengthRule::SelectExtended;
    table.data[0x64] = LengthRule::SelectExtended;
    table.data[0x65] = LengthRule::SelectExtended;
    table.data[0x37] = LengthRule::Fixed(7);
    proof {
        assert forall|op: u8|
            table.spec_rule(op) == spec_default_rule(orig.spec_rule(op), lengths@, op) by {
            assert(orig.spec_rule(op) == orig.data@[op as int]);
            assert(t1.spec_rule(op) == t1.data@[op as int]);
            assert(table.spec_rule(op) == table.data@[op as int]);
            if op == 0x6 || op == 0x7 {
                assert(table.data@[op as int] == LengthRule::<F>::SaveLength);
            } else if op == 0x9 || op == 0xa || op == 0xb {
                assert(table.data@[op as int] == LengthRule::<F>::SelectLegacy);
            } else if op == 0x63 || op == 0x64 || op == 0x65 {
                assert(table.data@[op as int] == LengthRule::<F>::SelectExtended);
            } else if op == 0x37 {
                assert(table.data@[op as int] == LengthRule::<F>::Fixed(7u16));
            } else {
                assert(table.data@[op as int] == t1.data@[op as int]);
                if (op as int) < lengths@.len() && lengths@[op as int] < 0x400 {
                    assert((op as int) < i);
                    assert(t1.spec_rule(op) == LengthRule::<F>::Fixed(
                        lengths@[op as int] as u16,
                    ));
                } else {
                    assert(t1.spec_rule(op) == orig.spec_rule(op));
                }
            }
        }
    }
}

// ---------------------------------------------------------------------------
// Hook registry
// ---------------------------------------------------------------------------

/// An in-game command interceptor registered by an extension.
///
/// `on_command` receives one command's bytes together with the acting and
/// unique player ids. Returning `Some(bytes)` forwards `bytes` to the rest of
/// the chain (the next hook for the same opcode, a fresh chain for a changed
/// opcode, or the fallback handler); returning `None` or empty bytes ends the
/// chain without reaching the fallback handler.
pub trait IngameCommandHook {
    fn on_command(&self, data: &[u8], player: u32, unique_player: u32) -> Option<Vec<u8>>;
}

/// The ordered, append-only list of registered hooks, each tagged with the
/// opcode it intercepts.
pub struct IngameHooks<H> {
    hooks: Vec<(u8, H)>,
}

/// Index of the first entry at or past `from` whose opcode is `op`.
pub open spec fn first_match(ops: Seq<u8>, op: u8, from: int) -> Option<int>
    decreases ops.len() - from,
{
    if from < 0 || from >= ops.len() {
        None
    } else if ops[from] == op {
        Some(from)
    } else {
        first_match(ops, op, from + 1)
    }
}

impl<H> IngameHooks<H> {
    /// The registered `(opcode, hook)` pairs, in registration order.
    pub closed spec fn spec_hooks(&self) -> Seq<(u8, H)> {
        self.hooks@
    }

    /// The registered opcodes, in registration order.
    pub open spec fn spec_opcodes(&self) -> Seq<u8> {
        self.spec_hooks().map_values(|p: (u8, H)| p.0)
    }

    pub fn new() -> (r: IngameHooks<H>)
        ensures
            r.spec_hooks() == Seq::<(u8, H)>::empty(),
    {
        IngameHooks { hooks: Vec::new() }
    }

    /// Scan for the next entry at or past `from` matching `op`.
    fn find_from(&self, op: u8, from: usize) -> (r: Option<usize>)
        ensures
            self.spec_opcodes().len() <= usize::MAX,
            match r {
                Some(i) => from <= i && (i as int) < self.spec_opcodes().len() && first_match(
                    self.spec_opcodes(),
                    op,
                    from as int,
                ) == Some(i as int),
                None => first_match(self.spec_opcodes(), op, from as int) is None,
            },
    {
        let ghost ops = self.spec_opcodes();
        let mut i: usize = from;
        while i < self.hooks.len()
            invariant
                from <= i,
                ops == self.spec_opcodes(),
                ops.len() == self.hooks@.len(),
                first_match(ops, op, from as int) == first_match(ops, op, i as int),
            decreases self.hooks@.len() - i,
        {
            let pair = &self.hooks[i];
            if pair.0 == op {
                proof {
                    assert(ops[i as int] == self.hooks@[i as int].0);
                    assert(first_match(ops, op, i as int) == Some(i as int));
                }
                return Some(i);
            }
            proof {
                assert(ops[i as int] == self.hooks@[i as int].0);
                assert(first_match(ops, op, i as int) == first_match(ops, op, i as int + 1));
            }
            i = i + 1;
        }
        let n = self.hooks.len();
        proof {
            assert(n == self.spec_opcodes().len());
            assert(first_match(ops, op, i as int) is None);
        }
        None
    }
}

/// Appends a hook for `cmd` to the registry; hooks are never reordered or
/// removed.
pub fn add_ingame_hook<H>(hooks: &mut IngameHooks<H>, cmd: u8, hook: H)
    ensures
        final(hooks).spec_hooks() == old(hooks).spec_hooks().push((cmd, hook)),
        final(hooks).spec_opcodes() == old(hooks).spec_opcodes().push(cmd),
{
    hooks.hooks.push((cmd, hook));
    proof {
        assert(hooks.spec_opcodes() =~= old(hooks).spec_opcodes().push(cmd));
    }
}

// ---------------------------------------------------------------------------
// Dispatch context
// ---------------------------------------------------------------------------

/// Session-global facts consulted while dispatching one command buffer.
pub struct IngameHookGlobals {
    /// Nonzero while a recorded replay is being played back.
    pub is_replay: u32,
    /// The player the commands act for.
    pub command_user: u32,
    /// The unique id of that player across the session.
    pub unique_command_user: u32,
}

/// The surrounding engine's side of a dispatch: the real command processor
/// that unclaimed commands fall back to, and the sink that records
/// locally-issued commands for the outgoing replay data.
pub trait CommandHandler {
    fn process_command(&mut self, data: &[u8], replayed_command: u32);

    fn add_to_replay_data(&mut self, data: &[u8]);
}

/// One observable action taken while running a hook chain.
#[derive(Debug)]
pub enum DispatchEvent {
    /// The hook at `index` in the registry was invoked with `data`.
    Hook { index: usize, data: Vec<u8> },
    /// The fallback handler was invoked with `data`; always the last event of
    /// a chain.
    Orig { data: Vec<u8> },
}

/// The bytes an event carried.
pub open spec fn spec_event_data(e: DispatchEvent) -> Seq<u8> {
    match e {
        DispatchEvent::Hook { index, data } => data@,
        DispatchEvent::Orig { data } => data@,
    }
}

// ---------------------------------------------------------------------------
// The chain automaton
// ---------------------------------------------------------------------------

/// Validity of the events that follow one hook invocation, in a frame whose
/// active opcode is `active` and whose remaining-hooks cursor is `from`.
///
/// An empty tail means the hook declined to forward anything. Otherwise the
/// next event carries the forwarded bytes: a forward that keeps the active
/// opcode consults the remaining suffix of the registry, while a forward
/// that changes the opcode restarts the search from the head of the full
/// list; the fallback handler runs exactly when no matching hook is found,
/// and ends the chain.
pub open spec fn chain_cont_ok(
    ops: Seq<u8>,
    active: u8,
    from: int,
    events: Seq<DispatchEvent>,
) -> bool
    decreases events.len(),
{
    if events.len() == 0 {
        true
    } else {
        match events[0] {
            DispatchEvent::Hook { index, data } => {
                &&& data@.len() >= 1
                &&& first_match(
                    ops,
                    data@[0],
                    if data@[0] == active {
                        from
                    } else {
                        0
                    },
                ) == Some(index as int)
                &&& chain_cont_ok(
                    ops,
                    data@[0],
                    index + 1,
                    events.subrange(1, events.len() as int),
                )
            },
            DispatchEvent::Orig { data } => {
                &&& events.len() == 1
                &&& data@.len() >= 1
                &&& first_match(
                    ops,
                    data@[0],
                    if data@[0] == active {
                        from
                    } else {
                        0
                    },
                ) is None
            },
        }
    }
}

/// Validity of a whole chain run for the incoming command `cmd`: the first
/// event carries `cmd` itself, and the run starts searching the full
/// registry from its head.
pub open spec fn chain_ok(ops: Seq<u8>, cmd: Seq<u8>, events: Seq<DispatchEvent>) -> bool {
    &&& events.len() >= 1
    &&& spec_event_data(events[0]) == cmd
    &&& chain_cont_ok(ops, spec_opcode(cmd), 0, events)
}

proof fn lemma_chain_cont_step_hook(
    ops: Seq<u8>,
    active: u8,
    from: int,
    e: DispatchEvent,
    suffix: Seq<DispatchEvent>,
)
    requires
        e matches DispatchEvent::Hook { index, data } && data@.len() >= 1 && first_match(
            ops,
            data@[0],
            if data@[0] == active {
                from
            } else {
                0
            },
        ) == Some(index as int) && chain_cont_ok(ops, data@[0], index + 1, suffix),
    ensures
        chain_cont_ok(ops, active, from, seq![e] + suffix),
{
    let all = seq![e] + suffix;
    assert(all[0] == e);
    assert(all.subrange(1, all.len() as int) =~= suffix);
}

proof fn lemma_chain_cont_step_orig(
    ops: Seq<u8>,
    active: u8,
    from: int,
    e: DispatchEvent,
)
    requires
        e matches DispatchEvent::Orig { data } && data@.len() >= 1 && first_match(
            ops,
            data@[0],
            if data@[0] == active {
                from
            } else {
                0
            },
        ) is None,
    ensures
        chain_cont_ok(ops, active, from, seq![e]),
{
    let all = seq![e];
    assert(all[0] == e);
}

// ---------------------------------------------------------------------------
// The chain runner
// ---------------------------------------------------------------------------

/// Runs the hook chain for one already-sliced command.
///
/// The first hook registered for the command's opcode is invoked; whatever a
/// hook forwards is routed as [`chain_cont_ok`] describes, and a command
/// that no hook claims goes to `handler.process_command` unchanged. The
/// returned events are the complete, ordered record of the run.
pub fn handle_ingame_hooks<H: IngameCommandHook, E: CommandHandler>(
    hooks: &IngameHooks<H>,
    cmd: &[u8],
    replayed_command: u32,
    globals: &IngameHookGlobals,
    handler: &mut E,
) -> (events: Vec<DispatchEvent>)
    requires
        cmd@.len() >= 1,
    ensures
        chain_ok(hooks.spec_opcodes(), cmd@, events@),
{
    let ghost ops = hooks.spec_opcodes();
    let mut events: Vec<DispatchEvent> = Vec::new();
    let opcode = cmd[0];
    match hooks.find_from(opcode, 0) {
        None => {
            handler.process_command(cmd, replayed_command);
            let data = vstd::slice::slice_to_vec(cmd);
            let ghost e = DispatchEvent::Orig { data };
            events.push(DispatchEvent::Orig { data });
            proof {
                lemma_chain_cont_step_orig(ops, opcode, 0, e);
                assert(events@ =~= seq![e]);
            }
            events
        },
        Some(first) => {
            let pair = &hooks.hooks[first];
            let mut decision = pair.1.on_command(
                cmd,
                globals.command_user,
                globals.unique_command_user,
            );
            let data = vstd::slice::slice_to_vec(cmd);
            let ghost e0 = DispatchEvent::Hook { index: first, data };
            events.push(DispatchEvent::Hook { index: first, data });
            let mut active: u8 = opcode;
            let mut from: usize = first + 1;
            let mut fuel: usize = usize::MAX;
            proof {
                assert forall|suffix: Seq<DispatchEvent>|
                    #[trigger] chain_cont_ok(ops, active, from as int, suffix) implies chain_ok(
                    ops,
                    cmd@,
                    events@ + suffix,
                ) by {
                    lemma_chain_cont_step_hook(ops, opcode, 0, e0, suffix);
                    assert(events@ + suffix =~= seq![e0] + suffix);
                    assert((events@ + suffix)[0] == e0);
                }
            }
            loop
                invariant_except_break
                    ops == hooks.spec_opcodes(),
                    cmd@.len() >= 1,
                    forall|suffix: Seq<DispatchEvent>|
                        #[trigger] chain_cont_ok(ops, active, from as int, suffix) ==> chain_ok(
                            ops,
                            cmd@,
                            events@ + suffix,
                        ),
                ensures
                    chain_ok(ops, cmd@, events@),
                decreases fuel,
            {
                let ghost events0 = events@;
                let ghost active0 = active;
                let ghost from0 = from;
                if fuel == 0 {
                    // Out of forwarding budget: end the chain as if the hook
                    // had declined, rather than rewriting without bound.
                    proof {
                        assert(chain_cont_ok(ops, active, from as int, Seq::empty()));
                        assert(events@ + Seq::<DispatchEvent>::empty() =~= events@);
                    }
                    break;
                }
                fuel = fuel - 1;
                let cur = decision;
                match cur {
                    None => {
                        proof {
                            assert(chain_cont_ok(ops, active, from as int, Seq::empty()));
                            assert(events@ + Seq::<DispatchEvent>::empty() =~= events@);
                        }
                        break;
                    },
                    Some(d) => {
                        if d.len() == 0 {
                            proof {
                                assert(chain_cont_ok(ops, active, from as int, Seq::empty()));
                                assert(events@ + Seq::<DispatchEvent>::empty() =~= events@);
                            }
                            break;
                        }
                        let d0 = d[0];
                        let search_from = if d0 == active {
                            from
                        } else {
                            0
                        };
                        match hooks.find_from(d0, search_from) {
                            None => {
                                handler.process_command(d.as_slice(), replayed_command);
                                let ghost e = DispatchEvent::Orig { data: d };
                                events.push(DispatchEvent::Orig { data: d });
                                proof {
                                    lemma_chain_cont_step_orig(ops, active0, from0 as int, e);
                                    assert(events@ =~= events0 + seq![e]);
                                }
                                break;
                            },
                            Some(j) => {
                                let pair = &hooks.hooks[j];
                                let next = pair.1.on_command(
                                    d.as_slice(),
                                    globals.command_user,
                                    globals.unique_command_user,
                                );
                                let ghost e = DispatchEvent::Hook { index: j, data: d };
                                events.push(DispatchEvent::Hook { index: j, data: d });
                                proof {
                                    assert forall|suffix: Seq<DispatchEvent>|
                                        #[trigger] chain_cont_ok(
                                            ops,
                                            d0,
                                            j + 1,
                                            suffix,
                                        ) implies chain_ok(ops, cmd@, events@ + suffix) by {
                                        lemma_chain_cont_step_hook(
                                            ops,
                                            active0,
                                            from0 as int,
                                            e,
                                            suffix,
                                        );
                                        assert(chain_cont_ok(
                                            ops,
                                            active0,
                                            from0 as int,
                                            seq![e] + suffix,
                                        ));
                                        assert(events@ + suffix =~= events0 + (seq![e] + suffix));
                                    }
                                }
                                active = d0;
                                from = j + 1;
                                decision = next;
                            },
                        }
                    },
                }
            }
            events
        },
    }
}

// ---------------------------------------------------------------------------
// Laws of the chain automaton
// ---------------------------------------------------------------------------

/// Opcode of the bytes an event carried.
pub open spec fn spec_event_opcode(e: DispatchEvent) -> u8 {
    spec_opcode(spec_event_data(e))
}

/// All indices at or past `from` whose registered opcode is `op`, in order.
pub open spec fn spec_matches_from(ops: Seq<u8>, op: u8, from: int) -> Seq<int>
    decreases ops.len() - from,
{
    if from < 0 || from >= ops.len() {
        Seq::empty()
    } else if ops[from] == op {
        seq![from] + spec_matches_from(ops, op, from + 1)
    } else {
        spec_matches_from(ops, op, from + 1)
    }
}

/// `spec_matches_from` lists exactly the registry indexes at or past
/// `from` whose opcode is `op`, each once, in increasing order—so a chain
/// that follows it runs every hook registered for the opcode exactly once,
/// in registration order.
pub proof fn lemma_matches_from_characterize(ops: Seq<u8>, op: u8, from: int)
    requires
        0 <= from,
    ensures
        forall|k: int|
            0 <= k < spec_matches_from(ops, op, from).len() ==> {
                let idx = #[trigger] spec_matches_from(ops, op, from)[k];
                from <= idx < ops.len() && ops[idx] == op
            },
        forall|k: int|
            0 <= k < spec_matches_from(ops, op, from).len() - 1
                ==> #[trigger] spec_matches_from(ops, op, from)[k] < spec_matches_from(
                ops,
                op,
                from,
            )[k + 1],
        forall|idx: int|
            from <= idx < ops.len() && ops[idx] == op ==> spec_matches_from(
                ops,
                op,
                from,
            ).contains(idx),
    decreases ops.len() - from,
{
    let ms = spec_matches_from(ops, op, from);
    if from >= ops.len() {
    } else {
        lemma_matches_from_characterize(ops, op, from + 1);
        let m1 = spec_matches_from(ops, op, from + 1);
        if ops[from] == op {
            assert(ms == seq![from] + m1);
            assert forall|k: int| 0 <= k < ms.len() implies {
                let idx = #[trigger] ms[k];
                from <= idx < ops.len() && ops[idx] == op
            } by {
                if k > 0 {
                    assert(ms[k] == m1[k - 1]);
                }
            }
            assert forall|k: int| 0 <= k < ms.len() - 1 implies #[trigger] ms[k] < ms[k + 1] by {
                if k == 0 {
                    assert(ms[1] == m1[0]);
                } else {
                    assert(ms[k] == m1[k - 1] && ms[k + 1] == m1[k]);
                }
            }
            assert forall|idx: int|
                from <= idx < ops.len() && ops[idx] == op implies ms.contains(idx) by {
                if idx == from {
                    assert(ms[0] == idx);
                } else {
                    assert(m1.contains(idx));
                    let j = choose|j: int| 0 <= j < m1.len() && m1[j] == idx;
                    assert(ms[j + 1] == idx);
                }
            }
        } else {
            assert(ms == m1);
        }
    }
}

proof fn lemma_first_match_matches(ops: Seq<u8>, op: u8, from: int)
    ensures
        match first_match(ops, op, from) {
            Some(i) => from <= i && i < ops.len() && ops[i] == op && spec_matches_from(
                ops,
                op,
                from,
            ) == seq![i] + spec_matches_from(ops, op, i + 1),
            None => spec_matches_from(ops, op, from) == Seq::<int>::empty(),
        },
    decreases ops.len() - from,
{
    if from < 0 || from >= ops.len() {
    } else if ops[from] == op {
    } else {
        lemma_first_match_matches(ops, op, from + 1);
    }
}

proof fn lemma_chain_cont_ordering(ops: Seq<u8>, active: u8, from: int, events: Seq<DispatchEvent>)
    requires
        chain_cont_ok(ops, active, from, events),
        events.len() >= 1,
        events.last() is Orig,
        forall|k: int| 0 <= k < events.len() ==> spec_event_opcode(#[trigger] events[k]) == active,
    ensures
        events.len() == spec_matches_from(ops, active, from).len() + 1,
        forall|k: int|
            0 <= k < events.len() - 1 ==> ((#[trigger] events[k]) matches DispatchEvent::Hook {
                index,
                ..
            } && index == spec_matches_from(ops, active, from)[k]),
    decreases events.len(),
{
    let ms = spec_matches_from(ops, active, from);
    lemma_first_match_matches(ops, active, from);
    match events[0] {
        DispatchEvent::Hook { index, data } => {
            assert(spec_event_opcode(events[0]) == active);
            assert(data@[0] == active);
            assert(first_match(ops, active, from) == Some(index as int));
            let tail = events.subrange(1, events.len() as int);
            assert(events.len() >= 2);
            assert(tail.last() == events.last());
            assert forall|k: int| 0 <= k < tail.len() implies spec_event_opcode(
                #[trigger] tail[k],
            ) == active by {
                assert(tail[k] == events[k + 1]);
            }
            lemma_chain_cont_ordering(ops, active, index + 1, tail);
            let ms_tail = spec_matches_from(ops, active, index + 1);
            assert(ms == seq![index as int] + ms_tail);
            assert forall|k: int|
                0 <= k < events.len() - 1 implies (#[trigger] events[k])
                matches DispatchEvent::Hook { index: idx, .. } && idx == ms[k] by {
                if k == 0 {
                    assert(ms[0] == index as int);
                } else {
                    assert(events[k] == tail[k - 1]);
                    assert(ms[k] == ms_tail[k - 1]);
                }
            }
        },
        DispatchEvent::Orig { data } => {
            assert(events.len() == 1);
            assert(data@[0] == active);
            assert(first_match(ops, active, from) is None);
            assert(ms.len() == 0);
        },
    }
}

/// Chain ordering: for one incoming command, when every forwarded command
/// keeps the incoming opcode and no hook declines, the hooks registered for
/// that opcode fire in registration order, exactly once each, and the
/// fallback handler fires exactly once, after the last of them.
pub proof fn lemma_chain_ordering(ops: Seq<u8>, cmd: Seq<u8>, events: Seq<DispatchEvent>)
    requires
        cmd.len() >= 1,
        chain_ok(ops, cmd, events),
        events.last() is Orig,
        forall|k: int| 0 <= k < events.len() ==> spec_event_opcode(#[trigger] events[k]) == cmd[0],
    ensures
        events.len() == spec_matches_from(ops, cmd[0], 0).len() + 1,
        forall|k: int|
            0 <= k < events.len() - 1 ==> ((#[trigger] events[k]) matches DispatchEvent::Hook {
                index,
                ..
            } && index == spec_matches_from(ops, cmd[0], 0)[k]),
{
    assert(spec_opcode(cmd) == cmd[0]);
    lemma_chain_cont_ordering(ops, cmd[0], 0, events);
}

/// Cross-opcode re-entry: when a hook forwards a command whose opcode
/// differs from the frame's active opcode, the next hook is the first match
/// in the full registry, searched from its head; the old frame's
/// remaining-hooks cursor plays no part, and the fallback handler runs only
/// when the full registry has no hook for the new opcode.
pub proof fn lemma_cross_opcode_reentry(
    ops: Seq<u8>,
    active: u8,
    from: int,
    events: Seq<DispatchEvent>,
)
    requires
        chain_cont_ok(ops, active, from, events),
        events.len() >= 1,
        spec_event_opcode(events[0]) != active,
    ensures
        events[0] matches DispatchEvent::Hook { index, .. } ==> first_match(
            ops,
            spec_event_opcode(events[0]),
            0,
        ) == Some(index as int),
        events[0] is Orig ==> first_match(ops, spec_event_opcode(events[0]), 0) is None,
{
    match events[0] {
        DispatchEvent::Hook { index, data } => {
            assert(data@[0] == spec_event_opcode(events[0]));
        },
        DispatchEvent::Orig { data } => {
            assert(data@[0] == spec_event_opcode(events[0]));
        },
    }
}

// ---------------------------------------------------------------------------
// The dispatch loop
// ---------------------------------------------------------------------------

/// One command walked by the dispatch loop: the byte range it occupied in
/// the buffer, whether replay filtering skipped it, whether it was added to
/// the outgoing replay data, and the chain events it produced.
pub struct CommandRecord {
    pub offset: usize,
    pub length: usize,
    pub skipped: bool,
    pub recorded: bool,
    pub events: Vec<DispatchEvent>,
}

/// A malformed command: its computed length was zero or exceeded the
/// remaining buffer, ending the dispatch call.
pub struct LengthError {
    pub opcode: u8,
    pub length: usize,
}

/// Everything one dispatch call did, in buffer order.
pub struct DispatchResult {
    pub records: Vec<CommandRecord>,
    pub error: Option<LengthError>,
}

/// Replay filtering: while a replay plays back, commands that did not come
/// from the replay stream are dropped unless their opcode is exempt.
pub open spec fn spec_skip_command(
    globals: IngameHookGlobals,
    replayed_command: u32,
    op: u8,
) -> bool {
    globals.is_replay != 0 && replayed_command == 0 && !spec_is_replay_command(op)
}

/// Replay recording: live, non-exempt commands are added to the outgoing
/// replay data.
pub open spec fn spec_record_command(globals: IngameHookGlobals, op: u8) -> bool {
    globals.is_replay == 0 && !spec_is_replay_command(op)
}

/// First buffer offset not covered by the walked commands.
pub open spec fn spec_end_offset(records: Seq<CommandRecord>) -> int {
    if records.len() == 0 {
        0
    } else {
        records.last().offset + records.last().length
    }
}

/// Validity of one walked command against the dispatch inputs: its length is
/// the one the table computes for the buffer suffix at its offset (when that
/// rule is static), replay filtering and recording went by the opcode at its
/// offset, and a processed command ran a valid hook chain on exactly its own
/// bytes.
pub open spec fn record_ok<F>(
    table: CommandLengths<F>,
    ops: Seq<u8>,
    globals: IngameHookGlobals,
    replayed_command: u32,
    data: Seq<u8>,
    rec: CommandRecord,
) -> bool {
    let op = data[rec.offset as int];
    &&& rec.offset + rec.length <= data.len()
    &&& rec.length >= 1
    &&& (match spec_static_len(table.spec_rule(op), data.skip(rec.offset as int)) {
        Some(l) => rec.length == l,
        None => true,
    })
    &&& rec.skipped == spec_skip_command(globals, replayed_command, op)
    &&& rec.recorded == (!rec.skipped && spec_record_command(globals, op))
    &&& (rec.skipped ==> rec.events@.len() == 0)
    &&& (!rec.skipped ==> chain_ok(
        ops,
        data.subrange(rec.offset as int, rec.offset + rec.length),
        rec.events@,
    ))
}

/// The full contract of one dispatch call: the walked commands tile the
/// buffer from its start with no gap or overlap, each one is valid under
/// [`record_ok`], and the walk covers the whole buffer unless it stopped at
/// a malformed command, which the error then identifies.
pub open spec fn dispatch_ok<F>(
    table: CommandLengths<F>,
    ops: Seq<u8>,
    globals: IngameHookGlobals,
    replayed_command: u32,
    data: Seq<u8>,
    r: DispatchResult,
) -> bool {
    &&& forall|i: int|
        0 <= i < r.records@.len() ==> record_ok(
            table,
            ops,
            globals,
            replayed_command,
            data,
            #[trigger] r.records@[i],
        )
    &&& (r.records@.len() > 0 ==> r.records@[0].offset == 0)
    &&& forall|i: int|
        0 <= i < r.records@.len() - 1 ==> (#[trigger] r.records@[i + 1]).offset == r.records@[i].offset
            + r.records@[i].length
    &&& match r.error {
        None => spec_end_offset(r.records@) == data.len(),
        Some(e) => {
            let end = spec_end_offset(r.records@);
            &&& end < data.len()
            &&& e.opcode == data[end]
            &&& (match spec_static_len(table.spec_rule(data[end]), data.skip(end)) {
                Some(l) => e.length == l,
                None => true,
            })
            &&& (e.length == 0 || e.length > data.len() - end)
        },
    }
}

/// Walks one command buffer: computes each command's length, applies replay
/// filtering, runs the hook chain for every visible command, and records
/// live non-exempt commands—each with exactly its own bytes—to the replay
/// data, exactly once. A command whose computed length is zero or overruns
/// the buffer ends the call; commands already walked stay walked.
pub fn ingame_hook<F: CommandLength, H: IngameCommandHook, E: CommandHandler>(
    data: &[u8],
    replayed_command: u32,
    globals: &IngameHookGlobals,
    lengths: &CommandLengths<F>,
    hooks: &IngameHooks<H>,
    handler: &mut E,
) -> (r: DispatchResult)
    requires
        lengths.wf(),
    ensures
        dispatch_ok(*lengths, hooks.spec_opcodes(), *globals, replayed_command, data@, r),
{
    let ghost ops = hooks.spec_opcodes();
    let mut records: Vec<CommandRecord> = Vec::new();
    let mut error: Option<LengthError> = None;
    let mut pos: usize = 0;
    while pos < data.len()
        invariant_except_break
            lengths.wf(),
            ops == hooks.spec_opcodes(),
            pos <= data@.len(),
            error is None,
            spec_end_offset(records@) == pos,
            records@.len() > 0 ==> records@[0].offset == 0,
            forall|i: int|
                0 <= i < records@.len() ==> record_ok(
                    *lengths,
                    ops,
                    *globals,
                    replayed_command,
                    data@,
                    #[trigger] records@[i],
                ),
            forall|i: int|
                0 <= i < records@.len() - 1 ==> (#[trigger] records@[i + 1]).offset == records@[i].offset
                    + records@[i].length,
        ensures
            pos <= data@.len(),
            spec_end_offset(records@) == pos,
            records@.len() > 0 ==> records@[0].offset == 0,
            forall|i: int|
                0 <= i < records@.len() ==> record_ok(
                    *lengths,
                    ops,
                    *globals,
                    replayed_command,
                    data@,
                    #[trigger] records@[i],
                ),
            forall|i: int|
                0 <= i < records@.len() - 1 ==> (#[trigger] records@[i + 1]).offset == records@[i].offset
                    + records@[i].length,
            match error {
                None => pos >= data@.len(),
                Some(e) => pos < data@.len() && e.opcode == data@[pos as int] && (match spec_static_len(
                    lengths.spec_rule(data@[pos as int]),
                    data@.skip(pos as int),
                ) {
                    Some(l) => e.length == l,
                    None => true,
                }) && (e.length == 0 || e.length > data@.len() - pos),
            },
        decreases data@.len() - pos,
    {
        let remaining = vstd::slice::slice_subrange(data, pos, data.len());
        proof {
            assert(remaining@ =~= data@.skip(pos as int));
        }
        let op = remaining[0];
        let skip = globals.is_replay != 0 && replayed_command == 0 && !is_replay_command(op);
        let len = lengths.command_len(remaining);
        if len == 0 || len > remaining.len() {
            error = Some(LengthError { opcode: op, length: len });
            break;
        }
        let cmd = vstd::slice::slice_subrange(remaining, 0, len);
        proof {
            assert(cmd@ =~= data@.subrange(pos as int, pos + len));
        }
        let mut events: Vec<DispatchEvent> = Vec::new();
        let mut recorded = false;
        if !skip {
            events = handle_ingame_hooks(hooks, cmd, replayed_command, globals, handler);
            if globals.is_replay == 0 && !is_replay_command(op) {
                handler.add_to_replay_data(cmd);
                recorded = true;
            }
        }
        let ghost records0 = records@;
        records.push(
            CommandRecord { offset: pos, length: len, skipped: skip, recorded, events },
        );
        proof {
            assert(records@ =~= records0.push(records@.last()));
            assert(record_ok(
                *lengths,
                ops,
                *globals,
                replayed_command,
                data@,
                records@.last(),
            ));
        }
        pos = pos + len;
    }
    DispatchResult { records, error }
}

// ---------------------------------------------------------------------------
// Laws of the dispatch loop
// ---------------------------------------------------------------------------

/// The buffer offset where record `j` starts; for `j` past the last record,
/// the first uncovered offset.
pub open spec fn spec_offset_at(records: Seq<CommandRecord>, j: int) -> int {
    if j == records.len() {
        spec_end_offset(records)
    } else {
        records[j].offset as int
    }
}

proof fn lemma_bounds_monotone(bounds: Seq<int>, a: int, b: int)
    requires
        forall|k: int| 0 <= k < bounds.len() - 1 ==> #[trigger] bounds[k] < bounds[k + 1],
        0 <= a <= b < bounds.len(),
    ensures
        bounds[a] <= bounds[b],
    decreases b - a,
{
    if a < b {
        lemma_bounds_monotone(bounds, a + 1, b);
        assert(bounds[a] < bounds[a + 1]);
    }
}

proof fn lemma_framing_align<F>(
    table: CommandLengths<F>,
    ops: Seq<u8>,
    globals: IngameHookGlobals,
    replayed_command: u32,
    data: Seq<u8>,
    r: DispatchResult,
    bounds: Seq<int>,
    j: int,
)
    requires
        dispatch_ok(table, ops, globals, replayed_command, data, r),
        bounds.len() >= 1,
        bounds[0] == 0,
        bounds.last() == data.len(),
        forall|k: int| 0 <= k < bounds.len() - 1 ==> #[trigger] bounds[k] < bounds[k + 1],
        forall|k: int|
            0 <= k < bounds.len() - 1 ==> spec_static_len(
                table.spec_rule(data[#[trigger] bounds[k]]),
                data.skip(bounds[k]),
            ) == Some(bounds[k + 1] - bounds[k]),
        0 <= j <= r.records@.len(),
        j <= bounds.len() - 1,
        spec_offset_at(r.records@, j) == bounds[j],
    ensures
        r.error is None,
        r.records@.len() == bounds.len() - 1,
        forall|k: int|
            j <= k < r.records@.len() ==> (#[trigger] r.records@[k]).offset == bounds[k]
                && r.records@[k].offset + r.records@[k].length == bounds[k + 1],
    decreases bounds.len() - 1 - j,
{
    let records = r.records@;
    if j == bounds.len() - 1 {
        assert(spec_offset_at(records, j) == data.len());
        if j < records.len() {
            assert(record_ok(table, ops, globals, replayed_command, data, records[j]));
            assert(records[j].offset + records[j].length <= data.len());
            assert(false);
        }
        assert(j == records.len());
        assert(spec_end_offset(records) == data.len());
        if r.error is Some {
            assert(false);
        }
    } else {
        lemma_bounds_monotone(bounds, j + 1, bounds.len() - 1);
        assert(bounds[j] < bounds[j + 1]);
        assert(bounds[j + 1] <= data.len());
        if j == records.len() {
            // The walk would have stopped at offset bounds[j] with a valid
            // in-bounds length, which dispatch_ok rules out.
            assert(spec_end_offset(records) == bounds[j]);
            match r.error {
                None => {
                    assert(spec_end_offset(records) == data.len());
                    assert(false);
                },
                Some(e) => {
                    assert(e.length == bounds[j + 1] - bounds[j]);
                    assert(e.length >= 1);
                    assert(e.length <= data.len() - bounds[j]);
                    assert(false);
                },
            }
        }
        assert(j < records.len());
        assert(record_ok(table, ops, globals, replayed_command, data, records[j]));
        assert(records[j].offset == bounds[j]);
        assert(records[j].length == bounds[j + 1] - bounds[j]);
        assert(spec_offset_at(records, j + 1) == records[j].offset + records[j].length);
        lemma_framing_align(
            table,
            ops,
            globals,
            replayed_command,
            data,
            r,
            bounds,
            j + 1,
        );
    }
}

/// Framing round-trip: a buffer formed by concatenating commands whose
/// lengths the table derives from the buffer is walked back into exactly
/// those commands: the dispatch records reproduce the concatenation
/// boundaries, with no gap, overlap or leftover, and no length error.
/// `bounds` lists the boundaries, from 0 to the buffer's length.
pub proof fn lemma_framing_round_trip<F>(
    table: CommandLengths<F>,
    ops: Seq<u8>,
    globals: IngameHookGlobals,
    replayed_command: u32,
    data: Seq<u8>,
    r: DispatchResult,
    bounds: Seq<int>,
)
    requires
        dispatch_ok(table, ops, globals, replayed_command, data, r),
        bounds.len() >= 1,
        bounds[0] == 0,
        bounds.last() == data.len(),
        forall|k: int| 0 <= k < bounds.len() - 1 ==> #[trigger] bounds[k] < bounds[k + 1],
        forall|k: int|
            0 <= k < bounds.len() - 1 ==> spec_static_len(
                table.spec_rule(data[#[trigger] bounds[k]]),
                data.skip(bounds[k]),
            ) == Some(bounds[k + 1] - bounds[k]),
    ensures
        r.error is None,
        r.records@.len() == bounds.len() - 1,
        forall|k: int|
            0 <= k < r.records@.len() ==> (#[trigger] r.records@[k]).offset == bounds[k]
                && r.records@[k].offset + r.records@[k].length == bounds[k + 1],
{
    lemma_framing_align(table, ops, globals, replayed_command, data, r, bounds, 0);
}

/// Replay filtering: while a replay plays back, a dispatched command that
/// did not come from the replay stream is skipped outright unless its opcode
/// is exempt—no hook runs, the fallback handler is not reached, nothing is
/// recorded—while exempt commands are processed normally.
pub proof fn lemma_replay_filtering<F>(
    table: CommandLengths<F>,
    ops: Seq<u8>,
    globals: IngameHookGlobals,
    replayed_command: u32,
    data: Seq<u8>,
    r: DispatchResult,
    i: int,
)
    requires
        dispatch_ok(table, ops, globals, replayed_command, data, r),
        globals.is_replay != 0,
        replayed_command == 0,
        0 <= i < r.records@.len(),
    ensures
        !spec_is_replay_command(data[r.records@[i].offset as int]) ==> r.records@[i].skipped
            && r.records@[i].events@.len() == 0 && !r.records@[i].recorded,
        spec_is_replay_command(data[r.records@[i].offset as int]) ==> !r.records@[i].skipped
            && chain_ok(
            ops,
            data.subrange(
                r.records@[i].offset as int,
                r.records@[i].offset + r.records@[i].length,
            ),
            r.records@[i].events@,
        ),
{
    assert(record_ok(table, ops, globals, replayed_command, data, r.records@[i]));
}

/// Replay recording: a dispatched command is added to the outgoing replay
/// data exactly when the session is live and its opcode is not exempt; the
/// record's offset and length name exactly the command's own bytes, and
/// each walked command is recorded at most once.
pub proof fn lemma_replay_recording<F>(
    table: CommandLengths<F>,
    ops: Seq<u8>,
    globals: IngameHookGlobals,
    replayed_command: u32,
    data: Seq<u8>,
    r: DispatchResult,
    i: int,
)
    requires
        dispatch_ok(table, ops, globals, replayed_command, data, r),
        0 <= i < r.records@.len(),
    ensures
        r.records@[i].recorded <==> (globals.is_replay == 0 && !spec_is_replay_command(
            data[r.records@[i].offset as int],
        )),
{
    assert(record_ok(table, ops, globals, replayed_command, data, r.records@[i]));
}

/// Installs a caller-supplied dynamic length rule for one opcode, replacing
/// whatever rule that opcode had.
pub fn add_length_override<F>(table: &mut CommandLengths<F>, cmd: u8, fun: F)
    requires
        old(table).wf(),
    ensures
        final(table).wf(),
        final(table).spec_rule(cmd) == LengthRule::Dynamic(fun),
        forall|op: u8| op != cmd ==> final(table).spec_rule(op) == old(table).spec_rule(op),
{
    table.data[cmd as usize] = LengthRule::Dynamic(fun);
}

} // verus!
