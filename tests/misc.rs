use xadb::cache::Cache;
use xadb::cli::{is_tui, Args, Command};
use xadb::devices::{AdbDeviceLiveProperties, AdbDeviceProperties};
use xadb::init_shell::{init_shell, shell_function, Error, Shell};
use xadb::battery::battery_level;
use xadb::widgets::{Anchor, Control, FpsOverlayState, LogScroll, StatefulList};

fn props(state: &str, product: Option<&str>) -> AdbDeviceProperties {
    AdbDeviceProperties {
        connection_state: state.to_string(),
        devpath: "usb:1".to_string(),
        live: product.map(|p| AdbDeviceLiveProperties {
            product: p.to_string(),
            model: "m".to_string(),
            device: "d".to_string(),
            transport_id: 3,
        }),
    }
}

#[test]
fn cache_save_merges_and_keeps_live() {
    let mut c = Cache::new("1.0".to_string());
    c.save_device("a", &props("device", Some("first")));
    c.save_device("b", &props("fastboot", None));
    c.save_device("a", &props("offline", None));
    assert_eq!(c.devices.len(), 2);
    assert_eq!(c.devices[0].0, "a");
    assert_eq!(c.devices[0].1.connection_state, "offline");
    assert_eq!(c.devices[0].1.live.as_ref().unwrap().product, "first");
    c.save_device("a", &props("device", Some("second")));
    assert_eq!(c.devices[0].1.live.as_ref().unwrap().product, "second");
}

#[test]
fn cache_remove() {
    let mut c = Cache::new("1.0".to_string());
    c.save_device("a", &props("device", None));
    c.save_device("b", &props("device", None));
    c.remove_device("a");
    c.remove_device("zzz");
    assert_eq!(c.devices.len(), 1);
    assert_eq!(c.devices[0].0, "b");
}

#[test]
fn init_shell_picks_shell() {
    assert_eq!(init_shell("bash"), Ok(Shell::Bash));
    assert_eq!(init_shell("zsh"), Ok(Shell::Zsh));
    assert_eq!(init_shell("fish"), Err(Error::ShellNotSupported));
    let f = shell_function(Shell::Zsh, "/bin/xadb");
    assert!(f.contains("export XADB_INIT_SHELL=zsh"));
    assert!(f.contains("    /bin/xadb $@\n"));
}

#[test]
fn tui_commands() {
    assert!(is_tui(&Args { command: Command::List }));
    assert!(is_tui(&Args { command: Command::Logcat }));
    assert!(!is_tui(&Args { command: Command::InitShell { shell: "bash".to_string() } }));
}

#[test]
fn fps_window() {
    let mut s = FpsOverlayState::new(3);
    assert_eq!(s.fps(), None);
    s.record_frame(0);
    s.record_frame(500_000_000);
    assert_eq!(s.fps(), Some(4));
    s.record_frame(1_000_000_000);
    s.record_frame(1_250_000_000);
    assert_eq!(s.frames, vec![500_000_000, 1_000_000_000, 1_250_000_000]);
    assert_eq!(s.fps(), Some(4));
}

#[test]
fn stateful_list_wraps_and_deletes() {
    let mut l = StatefulList::with_items(vec!["a", "b", "c"]);
    assert_eq!(l.selected(), None);
    l.next();
    assert_eq!(l.selected(), Some(&"a"));
    l.previous();
    assert_eq!(l.selected(), Some(&"c"));
    l.next();
    assert_eq!(l.selected, Some(0));
    l.next();
    l.delete_selected();
    assert_eq!(l.items, vec!["a", "c"]);
    assert_eq!(l.selected(), Some(&"a"));
    l.delete_selected();
    assert_eq!(l.selected(), Some(&"c"));
    l.delete_selected();
    assert!(l.items.is_empty());
    assert_eq!(l.selected, None);
    l.unselect();
    l.next();
    assert_eq!(l.selected, None);
}

#[test]
fn log_scroll_controls_and_rows() {
    let mut s = LogScroll::new();
    s.control(Control::Down, 10);
    assert_eq!(s.selected, None);
    s.control(Control::Up, 10);
    assert_eq!(s.selected, Some(9));
    s.control(Control::Down, 10);
    assert_eq!(s.selected, Some(9));
    s.control(Control::Top, 10);
    assert_eq!(s.selected, Some(0));
    s.control(Control::Up, 10);
    assert_eq!(s.selected, Some(0));
    assert_eq!(s.rows_to_display(10, 4), (6, 10));
    s.follow_selection(10, 4);
    assert_eq!(s.anchor, Anchor::Top(0));
    assert_eq!(s.rows_to_display(10, 4), (0, 4));
    s.selected = Some(7);
    s.follow_selection(10, 4);
    assert_eq!(s.anchor, Anchor::Bottom(7));
    assert_eq!(s.rows_to_display(10, 4), (4, 8));
    assert_eq!(s.rows_to_display(3, 4), (0, 3));
    s.control(Control::Bottom, 10);
    assert_eq!(s.selected, None);
    assert_eq!(s.anchor, Anchor::Autoscroll);
}

#[test]
fn battery_level_line() {
    assert_eq!(battery_level("  level: 87"), Some(87));
    assert_eq!(battery_level("  level: 100 extra"), Some(100));
    assert_eq!(battery_level("  level: 8a"), None);
    assert_eq!(battery_level("  scale: 100"), None);
    assert_eq!(battery_level(" level: 87"), None);
    assert_eq!(battery_level("  level: 99999999999"), None);
    assert_eq!(battery_level("  level: "), None);
}
