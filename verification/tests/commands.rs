use samase_plugin::commands::{
    add_ingame_hook, add_length_override, ingame_hook, is_replay_command,
    set_default_command_lengths, CommandHandler, CommandLength, CommandLengths, DispatchEvent,
    IngameCommandHook, IngameHookGlobals, IngameHooks, NoLengthOverride,
};

enum TestHook {
    H1,
    H2,
    H3,
}

impl IngameCommandHook for TestHook {
    fn on_command(&self, data: &[u8], _player: u32, _unique_player: u32) -> Option<Vec<u8>> {
        match self {
            TestHook::H1 => {
                assert_eq!(data.len(), 2);
                Some(vec![1, data[1] + 1])
            }
            TestHook::H2 => {
                assert_eq!(data.len(), 2);
                Some(vec![1, data[1] + 2])
            }
            TestHook::H3 => {
                assert_eq!(data.len(), 3);
                Some(vec![1, data[1] - 3])
            }
        }
    }
}

struct TestHandler {
    orig_calls: Vec<(Vec<u8>, u32)>,
    replay_data: Vec<Vec<u8>>,
}

impl TestHandler {
    fn new() -> TestHandler {
        TestHandler {
            orig_calls: Vec::new(),
            replay_data: Vec::new(),
        }
    }
}

impl CommandHandler for TestHandler {
    fn process_command(&mut self, data: &[u8], replayed_command: u32) {
        self.orig_calls.push((data.to_vec(), replayed_command));
    }

    fn add_to_replay_data(&mut self, data: &[u8]) {
        self.replay_data.push(data.to_vec());
    }
}

fn default_table() -> CommandLengths<NoLengthOverride> {
    let mut table = CommandLengths::new();
    set_default_command_lengths(&mut table, &[1, 2, 3]);
    table
}

fn test_hooks() -> IngameHooks<TestHook> {
    let mut hooks = IngameHooks::new();
    add_ingame_hook(&mut hooks, 1, TestHook::H1);
    add_ingame_hook(&mut hooks, 2, TestHook::H3);
    add_ingame_hook(&mut hooks, 1, TestHook::H2);
    hooks
}

fn globals(is_replay: u32) -> IngameHookGlobals {
    IngameHookGlobals {
        is_replay,
        unique_command_user: 0,
        command_user: 0,
    }
}

#[test]
fn cmds() {
    let table = default_table();
    let hooks = test_hooks();
    let globals = globals(0);
    let mut handler = TestHandler::new();
    let data = vec![1u8, 2];
    ingame_hook(&data, 0, &globals, &table, &hooks, &mut handler);
    let data = vec![2u8, 5, 0];
    ingame_hook(&data, 0, &globals, &table, &hooks, &mut handler);
    for (data, replay) in &handler.orig_calls {
        assert_eq!(data.len(), 2);
        assert_eq!(*replay, 0);
        assert_eq!(data[1], 5);
    }
    assert_eq!(handler.orig_calls.len(), 2);
}

#[test]
fn same_opcode_chain_runs_in_registration_order() {
    let table = default_table();
    let hooks = test_hooks();
    let globals = globals(0);
    let mut handler = TestHandler::new();
    let r = ingame_hook(&[1u8, 2], 0, &globals, &table, &hooks, &mut handler);
    assert!(r.error.is_none());
    assert_eq!(r.records.len(), 1);
    let rec = &r.records[0];
    assert_eq!((rec.offset, rec.length), (0, 2));
    assert!(!rec.skipped);
    assert!(rec.recorded);
    assert_eq!(rec.events.len(), 3);
    match &rec.events[0] {
        DispatchEvent::Hook { index, data } => {
            assert_eq!(*index, 0);
            assert_eq!(data, &vec![1u8, 2]);
        }
        _ => panic!("expected a hook event"),
    }
    match &rec.events[1] {
        DispatchEvent::Hook { index, data } => {
            assert_eq!(*index, 2);
            assert_eq!(data, &vec![1u8, 3]);
        }
        _ => panic!("expected a hook event"),
    }
    match &rec.events[2] {
        DispatchEvent::Orig { data } => assert_eq!(data, &vec![1u8, 5]),
        _ => panic!("expected the fallback event"),
    }
    assert_eq!(handler.orig_calls, vec![(vec![1u8, 5], 0)]);
    assert_eq!(handler.replay_data, vec![vec![1u8, 2]]);
}

#[test]
fn changed_opcode_restarts_chain_from_head() {
    let table = default_table();
    let hooks = test_hooks();
    let globals = globals(0);
    let mut handler = TestHandler::new();
    let r = ingame_hook(&[2u8, 5, 0], 0, &globals, &table, &hooks, &mut handler);
    assert!(r.error.is_none());
    assert_eq!(r.records.len(), 1);
    let rec = &r.records[0];
    assert_eq!((rec.offset, rec.length), (0, 3));
    let expected: Vec<(Option<usize>, Vec<u8>)> = vec![
        (Some(1), vec![2, 5, 0]),
        (Some(0), vec![1, 2]),
        (Some(2), vec![1, 3]),
        (None, vec![1, 5]),
    ];
    assert_eq!(rec.events.len(), expected.len());
    for (event, (index, bytes)) in rec.events.iter().zip(expected.iter()) {
        match event {
            DispatchEvent::Hook { index: i, data } => {
                assert_eq!(Some(*i), *index);
                assert_eq!(data, bytes);
            }
            DispatchEvent::Orig { data } => {
                assert_eq!(*index, None);
                assert_eq!(data, bytes);
            }
        }
    }
    assert_eq!(handler.orig_calls, vec![(vec![1u8, 5], 0)]);
    assert_eq!(handler.replay_data, vec![vec![2u8, 5, 0]]);
}

#[test]
fn replay_filtering_skips_non_exempt_commands() {
    let mut table: CommandLengths<NoLengthOverride> = CommandLengths::new();
    set_default_command_lengths(&mut table, &[1u32; 0x100]);
    let hooks: IngameHooks<TestHook> = IngameHooks::new();
    let globals = globals(1);
    let mut handler = TestHandler::new();
    let r = ingame_hook(&[0x14u8, 0x05, 0x20], 0, &globals, &table, &hooks, &mut handler);
    assert!(r.error.is_none());
    assert_eq!(r.records.len(), 3);
    assert!(r.records[0].skipped);
    assert!(r.records[0].events.is_empty());
    assert!(!r.records[0].recorded);
    assert!(!r.records[1].skipped);
    assert_eq!(r.records[1].events.len(), 1);
    assert!(r.records[2].skipped);
    // Only the exempt command reaches the fallback handler; nothing is
    // recorded while a replay plays back.
    assert_eq!(handler.orig_calls, vec![(vec![0x05u8], 0)]);
    assert!(handler.replay_data.is_empty());
}

#[test]
fn replay_origin_commands_are_not_filtered() {
    let mut table: CommandLengths<NoLengthOverride> = CommandLengths::new();
    set_default_command_lengths(&mut table, &[1u32; 0x100]);
    let hooks: IngameHooks<TestHook> = IngameHooks::new();
    let globals = globals(1);
    let mut handler = TestHandler::new();
    let r = ingame_hook(&[0x14u8, 0x20], 1, &globals, &table, &hooks, &mut handler);
    assert!(r.error.is_none());
    assert!(r.records.iter().all(|rec| !rec.skipped));
    assert_eq!(handler.orig_calls.len(), 2);
    assert!(handler.replay_data.is_empty());
}

#[test]
fn live_commands_are_recorded_exactly_once() {
    let mut table: CommandLengths<NoLengthOverride> = CommandLengths::new();
    set_default_command_lengths(&mut table, &[1u32; 0x100]);
    let hooks: IngameHooks<TestHook> = IngameHooks::new();
    let globals = globals(0);
    let mut handler = TestHandler::new();
    let r = ingame_hook(&[0x14u8, 0x05, 0x20], 0, &globals, &table, &hooks, &mut handler);
    assert!(r.error.is_none());
    assert_eq!(
        r.records.iter().map(|rec| rec.recorded).collect::<Vec<_>>(),
        vec![true, false, true]
    );
    // Each recorded command carries exactly its own bytes.
    assert_eq!(handler.replay_data, vec![vec![0x14u8], vec![0x20u8]]);
}

#[test]
fn oversized_command_stops_dispatch_without_panic() {
    let table = default_table();
    let hooks = test_hooks();
    let globals = globals(0);
    let mut handler = TestHandler::new();
    // Opcode 40 has no installed length; the first command is still walked.
    let r = ingame_hook(&[1u8, 9, 40], 0, &globals, &table, &hooks, &mut handler);
    assert_eq!(r.records.len(), 1);
    assert_eq!((r.records[0].offset, r.records[0].length), (0, 2));
    let err = r.error.expect("expected a length error");
    assert_eq!(err.opcode, 40);
    assert_eq!(err.length, usize::MAX);
}

#[test]
fn oversized_first_command_processes_nothing() {
    let table = default_table();
    let hooks = test_hooks();
    let globals = globals(0);
    let mut handler = TestHandler::new();
    let r = ingame_hook(&[40u8, 1, 2], 0, &globals, &table, &hooks, &mut handler);
    assert!(r.records.is_empty());
    assert!(r.error.is_some());
    assert!(handler.orig_calls.is_empty());
    assert!(handler.replay_data.is_empty());
}

#[test]
fn zero_length_rule_is_malformed() {
    let mut table: CommandLengths<NoLengthOverride> = CommandLengths::new();
    set_default_command_lengths(&mut table, &[1, 0]);
    let hooks = test_hooks();
    let globals = globals(0);
    let mut handler = TestHandler::new();
    let r = ingame_hook(&[1u8, 1], 0, &globals, &table, &hooks, &mut handler);
    assert!(r.records.is_empty());
    let err = r.error.expect("expected a length error");
    assert_eq!(err.opcode, 1);
    assert_eq!(err.length, 0);
}

#[test]
fn command_len_builtin_rules() {
    let table = default_table();
    // Save commands scan for a NUL from offset 5.
    assert_eq!(table.command_len(&[6, 0, 0, 0, 0, 9, 0]), 7);
    assert_eq!(table.command_len(&[7, 0, 0, 0, 0, 0]), 6);
    assert_eq!(table.command_len(&[6, 1, 2]), usize::MAX);
    // Selection commands compute from their count byte.
    assert_eq!(table.command_len(&[0x9, 3]), 8);
    assert_eq!(table.command_len(&[0xa, 0]), 2);
    assert_eq!(table.command_len(&[0xb]), usize::MAX);
    assert_eq!(table.command_len(&[0x63, 2]), 10);
    assert_eq!(table.command_len(&[0x64]), usize::MAX);
    // The fixed compatibility length for opcode 0x37.
    assert_eq!(table.command_len(&[0x37]), 7);
    // Caller-supplied defaults and unset opcodes.
    assert_eq!(table.command_len(&[0, 5]), 1);
    assert_eq!(table.command_len(&[1, 5]), 2);
    assert_eq!(table.command_len(&[2, 5]), 3);
    assert_eq!(table.command_len(&[3, 5]), usize::MAX);
    assert_eq!(table.command_len(&[]), 1);
}

#[test]
fn default_lengths_ignore_out_of_range_values() {
    let mut table: CommandLengths<NoLengthOverride> = CommandLengths::new();
    set_default_command_lengths(&mut table, &[1, 0x400, 3]);
    assert_eq!(table.command_len(&[1, 2]), usize::MAX);
    assert_eq!(table.command_len(&[2, 2]), 3);
}

#[test]
fn opcode_0x37_overrides_caller_default() {
    let mut table: CommandLengths<NoLengthOverride> = CommandLengths::new();
    let mut lengths = vec![1u32; 0x100];
    lengths[0x37] = 5;
    set_default_command_lengths(&mut table, &lengths);
    assert_eq!(table.command_len(&[0x37, 0, 0]), 7);
}

struct FixedLen(usize);

impl CommandLength for FixedLen {
    fn command_length(&self, _cmd: &[u8]) -> usize {
        self.0
    }
}

#[test]
fn length_override_replaces_rule() {
    let mut table: CommandLengths<FixedLen> = CommandLengths::new();
    set_default_command_lengths(&mut table, &[1, 2, 3]);
    add_length_override(&mut table, 1, FixedLen(4));
    assert_eq!(table.command_len(&[1, 0, 0, 0, 9]), 4);
    assert_eq!(table.command_len(&[2, 0]), 3);

    let hooks: IngameHooks<TestHook> = IngameHooks::new();
    let globals = globals(0);
    let mut handler = TestHandler::new();
    let r = ingame_hook(&[1u8, 8, 8, 8, 2, 0, 0], 0, &globals, &table, &hooks, &mut handler);
    assert!(r.error.is_none());
    assert_eq!(r.records.len(), 2);
    assert_eq!((r.records[0].offset, r.records[0].length), (0, 4));
    assert_eq!((r.records[1].offset, r.records[1].length), (4, 3));
}

#[test]
fn replay_exempt_opcode_set() {
    let exempt = [0x5u8, 0x8, 0x10, 0x11, 0x55, 0x56, 0x5d];
    for op in 0u16..=0xff {
        let op = op as u8;
        assert_eq!(is_replay_command(op), exempt.contains(&op));
    }
}

#[test]
fn declining_hook_ends_chain_without_fallback() {
    struct Decline;
    impl IngameCommandHook for Decline {
        fn on_command(&self, _data: &[u8], _player: u32, _unique: u32) -> Option<Vec<u8>> {
            None
        }
    }
    let table = default_table();
    let mut hooks = IngameHooks::new();
    add_ingame_hook(&mut hooks, 1, Decline);
    let globals = globals(0);
    let mut handler = TestHandler::new();
    let r = ingame_hook(&[1u8, 2], 0, &globals, &table, &hooks, &mut handler);
    assert!(r.error.is_none());
    assert_eq!(r.records.len(), 1);
    assert_eq!(r.records[0].events.len(), 1);
    assert!(handler.orig_calls.is_empty());
    // The incoming command is still recorded even when a hook consumes it.
    assert_eq!(handler.replay_data, vec![vec![1u8, 2]]);
}
