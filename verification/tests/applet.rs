use wlight::applet::{
    daemon_call, list_order, refusal_message, worker_event, DaemonCall, DaemonReply, DisplayDraft, Handover, ListEntry,
    WlightApplet, WorkerCommand, WorkerEvent, WriteKind, WriteValue, BUSY_DELAY, WRITE_DEBOUNCE,
};
use wlight::binary64::Binary64;
use wlight::brightness::DisplayInfo;

fn number(value: f64) -> Binary64 {
    Binary64 {
        bits: value.to_bits(),
    }
}

fn value(number: Binary64) -> f64 {
    f64::from_bits(number.bits)
}

fn display(id: &str, name: &str, ddc: u16, gamma: f64) -> DisplayInfo {
    DisplayInfo {
        id: id.to_owned(),
        name: name.to_owned(),
        connector: "DP-1".to_owned(),
        ddc_brightness: ddc,
        ddc_supported: true,
        gamma_brightness: number(gamma),
        gamma_supported: true,
        last_error: String::new(),
    }
}

fn snapshot(request_id: u64, displays: Vec<DisplayInfo>) -> WorkerEvent {
    WorkerEvent::Snapshot {
        request_id,
        displays,
    }
}

fn applet() -> WlightApplet {
    let mut applet = WlightApplet::new(None);
    applet.apply_worker_event(snapshot(
        0,
        vec![display("a", "zeta", 50, 1.0), display("b", "Alpha", 20, 0.5)],
    ));
    applet
}

fn ddc(applet: &WlightApplet, id: &str) -> u16 {
    applet.draft(id).expect("draft").info.ddc_brightness
}

#[test]
fn drafts_show_what_a_display_is() {
    let mut draft = DisplayDraft::new(display("a", " ", 120, 0.5), 3);
    assert_eq!(draft.ddc_percent, 100);
    assert_eq!(value(draft.gamma_percent), 50.0);
    assert_eq!(value(draft.effective_percent), 60.0);
    assert_eq!(draft.latest_request_id, 3);
    assert_eq!(draft.title(), "a");
    draft.ddc_percent = 40;
    draft.gamma_percent = number(25.0);
    draft.recompute_effective();
    assert_eq!(value(draft.effective_percent), 10.0);
    assert_eq!(draft.unified_write(), WriteValue::Unified(number(0.1)));
    assert_eq!(draft.ddc_write(), WriteValue::Ddc(40));
    assert_eq!(draft.gamma_write(), WriteValue::Gamma(number(0.25)));
    draft.synchronize(display("a", "Panel", 7, 1.0), 9);
    assert_eq!(draft.title(), "Panel");
    assert_eq!(draft.ddc_percent, 7);
    assert_eq!(draft.latest_request_id, 9);
}

#[test]
fn moved_sliders_ask_for_their_value() {
    let mut draft = DisplayDraft::new(display("a", "A", 50, 0.5), 1);
    draft.effective_percent = number(80.0);
    assert_eq!(
        draft.moved(WriteKind::Unified),
        WriteValue::Unified(number(0.8))
    );
    assert_eq!(value(draft.effective_percent), 80.0);
    assert_eq!(draft.moved(WriteKind::Ddc), WriteValue::Ddc(50));
    assert_eq!(value(draft.effective_percent), 25.0);
    draft.gamma_percent = number(100.0);
    assert_eq!(draft.moved(WriteKind::Gamma), WriteValue::Gamma(number(1.0)));
    assert_eq!(value(draft.effective_percent), 50.0);
}

#[test]
fn displays_are_listed_by_lower_case_name() {
    let mut applet = applet();
    assert_eq!(applet.display_order(), ["b", "a"]);
    assert!(!applet.is_loading());
    applet.apply_worker_event(WorkerEvent::DisplayUpdated {
        request_id: 1,
        display: display("c", "\u{c9}t\u{e9}", 1, 1.0),
    });
    applet.apply_worker_event(WorkerEvent::DisplayUpdated {
        request_id: 1,
        display: display("d", "ALPHA", 1, 1.0),
    });
    assert_eq!(applet.display_order(), ["b", "d", "a", "c"]);
}

#[test]
fn list_entries_are_ordered_by_name_and_id() {
    let entry = |name: &str, id: &str| ListEntry {
        name: name.to_owned(),
        id: id.to_owned(),
    };
    assert_eq!(
        list_order(vec![
            entry("b", "1"),
            entry("a", "3"),
            entry("a", "2"),
            entry("", "4"),
        ]),
        ["4", "2", "3", "1"]
    );
}

#[test]
fn an_applet_without_a_worker_says_so() {
    let mut applet = WlightApplet::new(Some("no thread".to_owned()));
    assert!(!applet.is_worker_running());
    assert_eq!(applet.last_error().as_deref(), Some("no thread"));
    applet.queue_write("a", WriteKind::Ddc, WriteValue::Ddc(1), 0);
    assert!(!applet.display_is_busy("a"));
    assert!(applet.request_refresh().is_none());
    assert!(applet.next_due_write(u64::MAX).is_none());
}

#[test]
fn request_numbers_rise() {
    let mut applet = WlightApplet::new(None);
    assert_eq!(applet.allocate_request_id(), 1);
    assert_eq!(applet.allocate_request_id(), 2);
}

#[test]
fn writes_wait_for_the_slider_to_rest() {
    let mut applet = applet();
    applet.queue_write("a", WriteKind::Ddc, WriteValue::Ddc(10), 0);
    applet.queue_write("a", WriteKind::Ddc, WriteValue::Ddc(20), 1000);
    assert!(applet.display_is_busy("a"));
    assert!(!applet.display_is_busy("b"));
    assert!(!applet.can_refresh());
    assert_eq!(applet.next_due_at(), Some(1000 + WRITE_DEBOUNCE));
    assert!(applet.next_due_write(999 + WRITE_DEBOUNCE).is_none());
    let due = applet.next_due_write(1000 + WRITE_DEBOUNCE).expect("due");
    match due.command {
        WorkerCommand::Write {
            request_id,
            ref display_id,
            value,
        } => {
            assert_eq!(request_id, 2);
            assert_eq!(display_id, "a");
            assert_eq!(value, WriteValue::Ddc(20));
        }
        ref other => panic!("{other:?}"),
    }
    assert!(applet.write_handed_over(due.key, Handover::Sent, 1000 + WRITE_DEBOUNCE));
    assert!(applet.display_is_busy("a"));
    assert_eq!(applet.next_due_at(), None);
    applet.apply_worker_event(WorkerEvent::DisplayUpdated {
        request_id: 2,
        display: display("a", "zeta", 20, 1.0),
    });
    assert!(!applet.display_is_busy("a"));
    assert_eq!(ddc(&applet, "a"), 20);
    assert!(applet.can_refresh());
}

#[test]
fn controls_of_one_display_are_written_in_order() {
    let mut applet = applet();
    applet.queue_write("a", WriteKind::Gamma, WriteValue::Gamma(number(0.5)), 0);
    applet.queue_write("a", WriteKind::Ddc, WriteValue::Ddc(10), 10);
    let due = applet.next_due_write(10).expect("hastened");
    assert_eq!(due.key.kind, WriteKind::Gamma);
    assert!(applet.write_handed_over(due.key, Handover::Sent, 10));
    assert!(applet.next_due_write(10).is_none());
    let due = applet.next_due_write(10 + WRITE_DEBOUNCE).expect("rested");
    assert_eq!(due.key.kind, WriteKind::Ddc);
}

#[test]
fn due_writes_go_out_in_the_order_of_requests() {
    let mut applet = applet();
    applet.queue_write("b", WriteKind::Ddc, WriteValue::Ddc(1), 0);
    applet.queue_write("a", WriteKind::Ddc, WriteValue::Ddc(2), 0);
    let late = WRITE_DEBOUNCE + 5;
    let first = applet.next_due_write(late).expect("first");
    assert_eq!(first.key.display_id, "b");
    assert!(applet.write_handed_over(first.key, Handover::Sent, late));
    let second = applet.next_due_write(late).expect("second");
    assert_eq!(second.key.display_id, "a");
}

#[test]
fn a_busy_worker_gets_the_write_later() {
    let mut applet = applet();
    applet.queue_write("a", WriteKind::Ddc, WriteValue::Ddc(1), 0);
    let due = applet.next_due_write(WRITE_DEBOUNCE).expect("due");
    assert!(!applet.write_handed_over(due.key, Handover::Full, WRITE_DEBOUNCE));
    assert!(applet.next_due_write(WRITE_DEBOUNCE).is_none());
    assert_eq!(applet.next_due_at(), Some(WRITE_DEBOUNCE + BUSY_DELAY));
    let due = applet.next_due_write(WRITE_DEBOUNCE + BUSY_DELAY).expect("due");
    assert!(!applet.write_handed_over(due.key, Handover::Disconnected, 0));
    assert!(!applet.is_worker_running());
    assert!(!applet.display_is_busy("a"));
    assert_eq!(
        applet.last_error().as_deref(),
        Some("The D-Bus worker is no longer available.")
    );
}

#[test]
fn stale_answers_do_not_overwrite_edits() {
    let mut applet = applet();
    applet.queue_write("a", WriteKind::Ddc, WriteValue::Ddc(10), 0);
    applet.queue_write("a", WriteKind::Ddc, WriteValue::Ddc(11), 0);
    applet.apply_worker_event(WorkerEvent::DisplayUpdated {
        request_id: 1,
        display: display("a", "zeta", 99, 1.0),
    });
    assert_eq!(ddc(&applet, "a"), 50);
    applet.apply_worker_event(snapshot(1, vec![display("a", "zeta", 98, 1.0)]));
    assert_eq!(ddc(&applet, "a"), 50);
    assert!(applet.draft("b").is_none());
    applet.apply_worker_event(WorkerEvent::Failed {
        request_id: 1,
        display_id: Some("a".to_owned()),
        message: "old".to_owned(),
    });
    assert_eq!(applet.draft("a").expect("draft").info.last_error, "");
    assert_eq!(applet.last_error().as_deref(), Some("old"));
    applet.apply_worker_event(WorkerEvent::Failed {
        request_id: 2,
        display_id: Some("a".to_owned()),
        message: "new".to_owned(),
    });
    assert_eq!(applet.draft("a").expect("draft").info.last_error, "new");
}

#[test]
fn snapshots_drop_what_is_gone_and_idle() {
    let mut applet = applet();
    applet.queue_write("b", WriteKind::Ddc, WriteValue::Ddc(10), 0);
    applet.apply_worker_event(snapshot(5, vec![display("c", "New", 1, 1.0)]));
    assert_eq!(applet.display_order(), ["b", "c"]);
    let due = applet.next_due_write(WRITE_DEBOUNCE).expect("due");
    applet.write_handed_over(due.key, Handover::Sent, WRITE_DEBOUNCE);
    applet.apply_worker_event(snapshot(6, Vec::new()));
    assert_eq!(applet.display_order(), ["b"]);
    applet.apply_worker_event(WorkerEvent::Failed {
        request_id: 1,
        display_id: Some("b".to_owned()),
        message: "gone".to_owned(),
    });
    applet.apply_worker_event(snapshot(7, Vec::new()));
    assert!(applet.display_order().is_empty());
}

#[test]
fn one_refresh_is_waited_for_at_a_time() {
    let mut applet = applet();
    let command = applet.request_refresh().expect("refresh");
    let request_id = match command {
        WorkerCommand::Refresh {
            request_id,
            rescan: true,
        } => request_id,
        other => panic!("{other:?}"),
    };
    applet.refresh_handed_over(request_id, Handover::Full);
    assert_eq!(
        applet.last_error().as_deref(),
        Some("The D-Bus worker is busy; try refreshing again.")
    );
    assert!(!applet.is_refreshing());
    let again = applet.request_refresh().expect("refresh");
    assert_eq!(again.request_context(), Some((request_id + 1, None)));
    applet.refresh_handed_over(request_id + 1, Handover::Sent);
    assert!(applet.is_refreshing());
    assert!(applet.request_refresh().is_none());
    applet.apply_worker_event(snapshot(request_id + 1, Vec::new()));
    assert!(!applet.is_refreshing());
    applet.refresh_handed_over(9, Handover::Disconnected);
    assert!(!applet.is_worker_running());
}

#[test]
fn a_worker_that_stops_is_noticed_once() {
    let mut applet = applet();
    applet.queue_write("a", WriteKind::Ddc, WriteValue::Ddc(10), 0);
    applet.worker_stopped();
    assert!(!applet.is_worker_running());
    assert!(!applet.display_is_busy("a"));
    assert_eq!(
        applet.last_error().as_deref(),
        Some("The D-Bus worker stopped unexpectedly.")
    );
    applet.apply_worker_event(snapshot(0, Vec::new()));
    applet.worker_stopped();
    assert_eq!(applet.last_error(), None);
}

#[test]
fn answers_become_events() {
    let write = |value| WorkerCommand::Write {
        request_id: 4,
        display_id: "a".to_owned(),
        value,
    };
    let list = WorkerCommand::Refresh {
        request_id: 3,
        rescan: false,
    };
    assert_eq!(
        refusal_message(&list, "no bus"),
        "Could not list displays: no bus"
    );
    assert_eq!(
        refusal_message(&write(WriteValue::Unified(number(0.5))), "x"),
        "Could not set brightness for a: x"
    );
    assert_eq!(
        refusal_message(&write(WriteValue::Ddc(5)), "x"),
        "Could not set DDC brightness for a: x"
    );
    assert_eq!(
        refusal_message(&write(WriteValue::Gamma(number(0.5))), "x"),
        "Could not set gamma brightness for a: x"
    );
    assert_eq!(
        refusal_message(
            &WorkerCommand::Refresh {
                request_id: 1,
                rescan: true
            },
            "x"
        ),
        "Could not refresh displays: x"
    );
    assert!(worker_event(&WorkerCommand::Shutdown, Err(String::new())).is_none());
    assert_eq!(WorkerCommand::Shutdown.request_context(), None);
    match worker_event(&list, Ok(DaemonReply::Displays(Vec::new()))) {
        Some(WorkerEvent::Snapshot { request_id, .. }) => assert_eq!(request_id, 3),
        other => panic!("{other:?}"),
    }
    match worker_event(
        &write(WriteValue::Ddc(5)),
        Ok(DaemonReply::Display(display("a", "zeta", 5, 1.0))),
    ) {
        Some(WorkerEvent::DisplayUpdated { request_id, display }) => {
            assert_eq!(request_id, 4);
            assert_eq!(display.ddc_brightness, 5);
        }
        other => panic!("{other:?}"),
    }
    match worker_event(&write(WriteValue::Ddc(5)), Err("refused".to_owned())) {
        Some(WorkerEvent::Failed {
            request_id,
            display_id,
            message,
        }) => {
            assert_eq!(request_id, 4);
            assert_eq!(display_id.as_deref(), Some("a"));
            assert_eq!(message, "refused");
        }
        other => panic!("{other:?}"),
    }
}

#[test]
fn moved_sliders_are_put_back() {
    let mut applet = applet();
    let mut draft = applet.draft("a").expect("draft");
    draft.ddc_percent = 33;
    applet.put_draft("a", draft.clone());
    assert_eq!(applet.draft("a").expect("draft").ddc_percent, 33);
    applet.put_draft("x", draft);
    assert!(applet.draft("x").is_none());
    assert_eq!(applet.display_order().len(), 2);
}

#[test]
fn commands_become_calls() {
    let write = |value| WorkerCommand::Write {
        request_id: 4,
        display_id: "a".to_owned(),
        value,
    };
    let refresh = |rescan| WorkerCommand::Refresh {
        request_id: 1,
        rescan,
    };
    assert!(matches!(
        daemon_call(&refresh(true)),
        Some(DaemonCall::Refresh)
    ));
    assert!(matches!(
        daemon_call(&refresh(false)),
        Some(DaemonCall::ListDisplays)
    ));
    assert!(matches!(
        daemon_call(&write(WriteValue::Ddc(7))),
        Some(DaemonCall::SetDdcBrightness { id, percent: 7 }) if id == "a"
    ));
    assert!(matches!(
        daemon_call(&write(WriteValue::Unified(number(0.5)))),
        Some(DaemonCall::SetBrightness { brightness, .. }) if value(brightness) == 0.5
    ));
    assert!(matches!(
        daemon_call(&write(WriteValue::Gamma(number(0.25)))),
        Some(DaemonCall::SetGammaBrightness { brightness, .. }) if value(brightness) == 0.25
    ));
    assert!(daemon_call(&WorkerCommand::Shutdown).is_none());
}
