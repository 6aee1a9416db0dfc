use valkey_timeseries::fanout::{
    register_fanout_operations, FanoutError, FanoutOperation, FanoutRegistry,
};
use valkey_timeseries::module::{
    deinitialize, initialize, is_module_initialized, preload, valid_server_version, InitStep,
    LoadStatus, LogLine, ModuleState, StepReply, Version, MODULE_NAME, VK_TIMESERIES_VERSION,
};

fn version(major: i32, minor: i32, patch: i32) -> Version {
    Version { major, minor, patch }
}

#[test]
fn test_register_fanout_operations() {
    let mut registry = FanoutRegistry::new();
    let result = register_fanout_operations(&mut registry);
    assert!(result.is_ok());
    assert_eq!(registry.operations.len(), 8);
    assert_eq!(registry.operations[0], FanoutOperation::Stats);
    assert_eq!(registry.operations[7], FanoutOperation::QueryIndex);
}

#[test]
fn an_operation_is_registered_once() {
    let mut registry = FanoutRegistry::new();
    registry.register(FanoutOperation::LabelNames).unwrap();
    assert_eq!(
        register_fanout_operations(&mut registry),
        Err(FanoutError::AlreadyRegistered(FanoutOperation::LabelNames))
    );
    assert_eq!(
        registry.operations,
        vec![FanoutOperation::LabelNames, FanoutOperation::Stats, FanoutOperation::Card]
    );
}

#[test]
fn servers_from_8_on_are_supported() {
    assert!(valid_server_version(version(8, 0, 0)));
    assert!(valid_server_version(version(8, 1, 0)));
    assert!(valid_server_version(version(9, 0, 0)));
    assert!(!valid_server_version(version(7, 9, 9)));
    assert!(!valid_server_version(version(7, 2, 4)));
    assert_eq!(MODULE_NAME, "ts");
    assert_eq!(VK_TIMESERIES_VERSION, 1);
}

#[test]
fn an_old_server_is_refused_with_a_warning() {
    let (status, line) = preload(version(8, 0, 1));
    assert_eq!(status, LoadStatus::Accepted);
    assert!(line.is_none());
    let (status, line) = preload(version(7, 0, 0));
    assert_eq!(status, LoadStatus::Refused);
    match line {
        Some(LogLine::Warning(text)) => assert_eq!(
            text,
            "The minimum supported Valkey server version for the valkey-timeseries module is [8, 0, 0]"
        ),
        other => panic!("{other:?}"),
    }
}

fn run(clustered: bool, fails_at: Option<InitStep>) -> (Vec<InitStep>, LoadStatus, bool, Vec<String>) {
    let mut state = ModuleState { initialized: false };
    let mut step = InitStep::InitAllocator;
    let mut done = Vec::new();
    let mut log = Vec::new();
    loop {
        if let InitStep::Finished(status) = step {
            return (done, status, is_module_initialized(&state), log);
        }
        done.push(step);
        let reply = if Some(step) == fails_at {
            StepReply::Failed("no luck".to_string())
        } else if step == InitStep::AskClustered {
            StepReply::Clustered(clustered)
        } else {
            StepReply::Done
        };
        let (next, line) = initialize(&mut state, step, reply);
        match line {
            Some(LogLine::Notice(text)) => log.push(format!("notice: {text}")),
            Some(LogLine::Warning(text)) => log.push(format!("warning: {text}")),
            None => {}
        }
        step = next;
    }
}

#[test]
fn a_server_on_its_own_is_set_up_without_fanout() {
    let (done, status, initialized, log) = run(false, None);
    assert_eq!(
        done,
        vec![
            InitStep::InitAllocator,
            InitStep::SetLogLevel,
            InitStep::RegisterConfig,
            InitStep::AskClustered,
            InitStep::RegisterServerEvents,
            InitStep::InitThreadPool,
            InitStep::InitBackgroundTasks,
        ]
    );
    assert_eq!(status, LoadStatus::Accepted);
    assert!(initialized);
    assert_eq!(log, vec!["notice: valkey-timeseries module initialized"]);
}

#[test]
fn a_cluster_is_set_up_with_fanout() {
    let (done, status, initialized, _) = run(true, None);
    assert_eq!(done.len(), 9);
    assert_eq!(done[4], InitStep::InitFanout);
    assert_eq!(done[5], InitStep::RegisterFanoutOperations);
    assert_eq!(status, LoadStatus::Accepted);
    assert!(initialized);
}

#[test]
fn a_failure_refuses_the_module() {
    for (step, text) in [
        (InitStep::RegisterConfig, "warning: Failed to register config: no luck"),
        (
            InitStep::RegisterFanoutOperations,
            "warning: Failed to register fanout operations: no luck",
        ),
        (InitStep::RegisterServerEvents, "warning: Failed to register server events: no luck"),
    ] {
        let (done, status, initialized, log) = run(true, Some(step));
        assert_eq!(*done.last().unwrap(), step);
        assert_eq!(status, LoadStatus::Refused);
        assert!(!initialized);
        assert_eq!(log, vec![text]);
    }
}

#[test]
fn unloading_resets_the_module() {
    let mut state = ModuleState { initialized: true };
    let (status, line) = deinitialize(&mut state);
    assert_eq!(status, LoadStatus::Accepted);
    assert!(!is_module_initialized(&state));
    assert!(matches!(line, LogLine::Notice(text) if text == "deinitialize"));
}

#[test]
fn the_module_is_set_up_since_the_last_accepted_setup() {
    let mut state = ModuleState { initialized: false };
    let mut load = |state: &mut ModuleState, fail: bool| {
        let mut step = InitStep::InitAllocator;
        while !matches!(step, InitStep::Finished(_)) {
            let reply = match step {
                InitStep::AskClustered => StepReply::Clustered(false),
                InitStep::RegisterConfig if fail => StepReply::Failed("no".to_string()),
                _ => StepReply::Done,
            };
            step = initialize(state, step, reply).0;
        }
        step == InitStep::Finished(LoadStatus::Accepted)
    };
    assert!(!is_module_initialized(&state));
    assert!(!load(&mut state, true));
    assert!(!is_module_initialized(&state));
    assert!(load(&mut state, false));
    assert!(is_module_initialized(&state));
    assert!(!load(&mut state, true));
    assert!(is_module_initialized(&state));
    deinitialize(&mut state);
    assert!(!is_module_initialized(&state));
    assert!(!load(&mut state, true));
    assert!(!is_module_initialized(&state));
    assert!(load(&mut state, false));
    assert!(is_module_initialized(&state));
}
