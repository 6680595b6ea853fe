use tcp::log_once::{debug_panic, Level, LogOnce};

#[test]
fn debug_panic_macro() {
    let message = format!("Hello {}", "World");
    let outcome = debug_panic(false);
    assert_eq!(outcome.level, Level::Warn);
    assert!(!outcome.abort);
    assert_eq!(message, "Hello World");
}

#[test]
fn macros_debug_panic_macro() {
    let message = format!("Hello {}", "World");
    let outcome = debug_panic(true);
    assert_eq!(outcome.level, Level::Warn);
    assert!(outcome.abort);
    assert_eq!(message, "Hello World");
}

#[test]
fn log_once_at_level() {
    let mut site = LogOnce::new();
    let mut seen = Vec::new();
    for x in 0..10 {
        let message = format!("{x}");
        let level = site.log_once_at_level(Level::Warn, Level::Debug, true, true);
        seen.push((level, message));
    }
    assert_eq!(seen[0], (Some(Level::Warn), "0".to_string()));
    for x in 1..10 {
        assert_eq!(seen[x], (Some(Level::Debug), format!("{x}")));
    }

    // two sites with the same message are loud once each
    let mut first = LogOnce::new();
    let mut second = LogOnce::new();
    assert_eq!(first.log_once_at_level(Level::Warn, Level::Debug, true, true), Some(Level::Warn));
    assert_eq!(second.log_once_at_level(Level::Warn, Level::Debug, true, true), Some(Level::Warn));
}

#[test]
fn warn_once() {
    let mut trace_site = LogOnce::new();
    let mut debug_site = LogOnce::new();
    assert_eq!(trace_site.warn_once_then_trace(), Level::Warn);
    assert_eq!(debug_site.warn_once_then_debug(), Level::Warn);
    assert_eq!(trace_site.warn_once_then_trace(), Level::Trace);
    assert_eq!(debug_site.warn_once_then_debug(), Level::Debug);
}

#[test]
fn log_once_disabled_levels_do_not_use_up_the_first_message() {
    let mut site = LogOnce::new();
    assert_eq!(site.log_once_at_level(Level::Warn, Level::Debug, false, false), None);
    assert_eq!(site.log_once_at_level(Level::Warn, Level::Debug, true, false), Some(Level::Warn));
    assert_eq!(site.log_once_at_level(Level::Warn, Level::Debug, false, true), Some(Level::Debug));
}
