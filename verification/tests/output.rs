use concerto::output::{
    event_message, format_millis, package_count, select_output_mode, summary_message, InstallEvent,
    InstallEventKind, OutputMode, SelectedOutputMode, TuiState, MAX_RENDERED_EVENTS,
};
use std::time::Duration;

#[test]
fn auto_mode_uses_tui_for_interactive_terminal() {
    let mode = select_output_mode(OutputMode::Auto, true, false, "xterm-256color");

    assert_eq!(mode, SelectedOutputMode::Tui);
}

#[test]
fn auto_mode_uses_plain_output_in_ci() {
    let mode = select_output_mode(OutputMode::Auto, true, true, "xterm-256color");

    assert_eq!(mode, SelectedOutputMode::Plain);
}

#[test]
fn auto_mode_uses_plain_output_without_terminal() {
    let mode = select_output_mode(OutputMode::Auto, false, false, "xterm-256color");

    assert_eq!(mode, SelectedOutputMode::Plain);
}

#[test]
fn auto_mode_uses_plain_output_for_dumb_terminal() {
    let mode = select_output_mode(OutputMode::Auto, true, false, "dumb");

    assert_eq!(mode, SelectedOutputMode::Plain);
}

#[test]
fn explicit_ui_overrides_ci_detection() {
    let mode = select_output_mode(OutputMode::Tui, false, true, "dumb");

    assert_eq!(mode, SelectedOutputMode::Tui);
}

#[test]
fn formats_lockfile_event() {
    let event = InstallEvent { kind: InstallEventKind::LockfileMatched { packages: 12 } };

    assert_eq!(event_message(&event), "Installing from lockfile with 12 packages");
}

#[test]
fn formats_summary_from_authoritative_install_result() {
    let duration = Duration::from_millis(1_234);
    let duration_text = format!("{:.2}s", duration.as_secs_f64());

    assert_eq!(summary_message(26, &duration_text), "Install complete: 26 packages in 1.23s");
}

#[test]
fn formats_short_duration_as_milliseconds() {
    assert_eq!(format_millis(Duration::from_millis(42).as_millis()), "42ms");
}

#[test]
fn formats_singular_package_count() {
    assert_eq!(package_count(1), "1 package");
}

#[test]
fn formats_plural_package_count() {
    assert_eq!(package_count(0), "0 packages");
    assert_eq!(package_count(26), "26 packages");
}

#[test]
fn records_final_summary_stats() {
    let mut app = TuiState::new();

    app.record_event(&InstallEvent {
        kind: InstallEventKind::SourceReused {
            package: "psr/log".to_string(),
            path: "/store/psr/log".to_string(),
        },
    });
    app.record_event(&InstallEvent {
        kind: InstallEventKind::VendorLinked {
            package: "psr/log".to_string(),
            version: "3.0.2".to_string(),
            path: "/vendor/psr/log".to_string(),
        },
    });
    app.record_event(&InstallEvent { kind: InstallEventKind::AutoloadWritten { packages: 1 } });
    app.record_event(&InstallEvent { kind: InstallEventKind::LockfileWritten });

    assert_eq!(app.autoload_count(), "1 package");
    assert_eq!(app.store_hit_rate(1), 100);
    assert_eq!(app.lockfile_status(), "updated");
    assert_eq!(app.linked_packages, 1);
}

#[test]
fn shows_recent_events_before_summary() {
    let mut app = TuiState::new();

    for index in 0..10 {
        app.record_event(&InstallEvent {
            kind: InstallEventKind::MetadataFetched { package: format!("package/{index}"), bytes: index },
        });
    }

    let lines = app.visible_lines();

    assert_eq!(lines.len(), MAX_RENDERED_EVENTS);
    assert_eq!(lines[0], "package/6: fetched 6 bytes");
    assert_eq!(lines[3], "package/9: fetched 9 bytes");
}

#[test]
fn drains_remaining_events_before_summary() {
    let mut app = TuiState::new();

    app.record_event(&InstallEvent {
        kind: InstallEventKind::SourcePrepared {
            package: "psr/log".to_string(),
            path: "/store/psr/log".to_string(),
        },
    });

    assert_eq!(app.autoload_count(), "not written");
    assert_eq!(app.store_hit_rate(1), 0);
    assert_eq!(app.lockfile_status(), "unchanged");
    assert_eq!(app.prepared_sources, 1);
}

#[test]
fn store_hit_rate_is_zero_without_packages() {
    let mut app = TuiState::new();
    app.record_event(&InstallEvent {
        kind: InstallEventKind::SourceReused { package: "a/b".to_string(), path: "/s".to_string() },
    });

    assert_eq!(app.store_hit_rate(0), 0);
    assert_eq!(app.store_hit_rate(3), 33);
}
