use sensor_pipeline::pages::{
    inject_shutdown_watcher, load_template, shutdown_response, shutdown_watch_response,
    template_path, ShutdownAction, ShutdownState, TemplateRead, SHUTDOWN_WATCHER,
};

const NOTICE: &str = "Dashboard is shutting down. Program has stopped.";

#[test]
fn watcher_goes_before_last_body_end() {
    let page = inject_shutdown_watcher("<p></body>\u{e9}</body></html>".to_string());
    assert_eq!(page, format!("<p></body>\u{e9}{}</body></html>", SHUTDOWN_WATCHER));
}

#[test]
fn watcher_goes_to_the_end_without_body() {
    assert_eq!(inject_shutdown_watcher("<p>".to_string()), format!("<p>{}", SHUTDOWN_WATCHER));
    assert_eq!(inject_shutdown_watcher(String::new()), SHUTDOWN_WATCHER);
    assert_eq!(
        inject_shutdown_watcher("</BODY>".to_string()),
        format!("</BODY>{}", SHUTDOWN_WATCHER)
    );
}

#[test]
fn watcher_is_a_script_that_polls_the_status() {
    assert!(SHUTDOWN_WATCHER.starts_with("\n<script>\n"));
    assert!(SHUTDOWN_WATCHER.ends_with("</script>\n"));
    assert!(SHUTDOWN_WATCHER.contains("fetch(\"/api/shutdown/status\", { cache: \"no-store\" })"));
    assert!(!SHUTDOWN_WATCHER.contains("</body>"));
}

#[test]
fn templates_fall_back_to_comments() {
    let tail = SHUTDOWN_WATCHER;
    assert_eq!(template_path("index.html"), "templates/index.html");
    assert_eq!(
        load_template("a.html", TemplateRead::Found("x</body>".to_string())),
        format!("x{}</body>", tail)
    );
    assert_eq!(
        load_template("a.html", TemplateRead::Missing),
        format!("<!-- Template not found: templates/a.html -->{}", tail)
    );
    assert_eq!(
        load_template("a.html", TemplateRead::Unreadable("denied".to_string())),
        format!("<!-- Failed to read template templates/a.html: denied -->{}", tail)
    );
    assert_eq!(
        load_template("a.html", TemplateRead::NotLoaded),
        format!("<!-- Failed to load template: a.html -->{}", tail)
    );
}

#[test]
fn shutdown_acts_once() {
    let mut s = ShutdownState::new();
    assert!(!s.server_is_up());
    assert_eq!(s.request_shutdown(), ShutdownAction { notify: true, stop_server: true });
    assert_eq!(s.request_shutdown(), ShutdownAction { notify: false, stop_server: false });
}

#[test]
fn shutdown_before_start_stops_server_at_start() {
    let mut s = ShutdownState::new();
    assert_eq!(s.request_shutdown(), ShutdownAction { notify: true, stop_server: false });
    assert!(s.server_is_up());
}

#[test]
fn shutdown_status_tells_clients() {
    let mut s = ShutdownState::new();
    let before = s.status();
    assert_eq!((before.shutting_down, before.message.as_str()), (false, ""));
    s.request_shutdown();
    let after = s.status();
    assert_eq!((after.shutting_down, after.message.as_str()), (true, NOTICE));
    assert!(shutdown_response().ok);
    assert_eq!(shutdown_response().message, NOTICE);
    assert!(shutdown_watch_response().shutting_down);
    assert_eq!(shutdown_watch_response().message, NOTICE);
}
