//! The pages of the dashboard, and how it is shut down.
use vstd::prelude::*;
use vstd::string::{StrSliceExecFns, StringExecFns};
use crate::text::chars_of;

verus! {

/// The script that every page carries: it polls for a shutdown and announces it.
pub const SHUTDOWN_WATCHER: &'static str = r#"
<script>
(() => {
    const bannerId = "dashboard-shutdown-banner";
    let announced = false;

    function showShutdownNotice(message) {
        if (announced) return;
        announced = true;
        const text = message || "Dashboard is shutting down. Program has stopped.";
        alert(text);

        if (!document.getElementById(bannerId)) {
            const banner = document.createElement("div");
            banner.id = bannerId;
            banner.textContent = text;
            banner.style.cssText = [
                "position:fixed",
                "left:0",
                "right:0",
                "bottom:0",
                "padding:12px 16px",
                "background:#b91c1c",
                "color:#fff",
                "font-size:14px",
                "font-weight:600",
                "text-align:center",
                "z-index:2147483647",
                "box-shadow:0 -6px 20px rgba(0,0,0,0.25)"
            ].join(";");
            document.body.appendChild(banner);
        }
    }

    // Short polling avoids holding an HTTP/1.1 connection open forever (long-poll would
    // compete with document navigation and page refresh fetches under per-host conn limits).
    async function pollOnce() {
        try {
            const resp = await fetch("/api/shutdown/status", { cache: "no-store" });
            if (!resp.ok) return;
            const data = await resp.json();
            if (data && data.shutting_down) {
                showShutdownNotice(data.message);
            }
        } catch (_) {
            /* tab closing / navigation */
        }
    }
    pollOnce();
    setInterval(pollOnce, 2000);
})();
</script>
"#;

/// Whether `part` stands in `s` at position `k`.
pub open spec fn occurs_at(s: Seq<char>, part: Seq<char>, k: int) -> bool {
    0 <= k && k + part.len() <= s.len() && s.subrange(k, k + part.len()) == part
}

/// Whether `k` is the last position at which `part` stands in `s`.
pub open spec fn is_last_at(s: Seq<char>, part: Seq<char>, k: int) -> bool {
    occurs_at(s, part, k) && forall|j: int| k < j ==> !#[trigger] occurs_at(s, part, j)
}

/// Whether `page` is `html` with `script` put in before the last end of a body, or at the end
/// where there is none.
pub open spec fn carries(page: Seq<char>, html: Seq<char>, script: Seq<char>) -> bool {
    ||| exists|k: int| #[trigger]
        is_last_at(html, "</body>"@, k) && page == html.take(k) + script + html.skip(k)
    ||| (forall|k: int| !#[trigger] occurs_at(html, "</body>"@, k)) && page == html + script
}

/// A page and a script give one result only.
pub proof fn lemma_carries_unique(a: Seq<char>, b: Seq<char>, html: Seq<char>, script: Seq<char>)
    requires
        carries(a, html, script),
        carries(b, html, script),
    ensures
        a == b,
{
    if exists|k: int| #[trigger] occurs_at(html, "</body>"@, k) {
        let i = choose|k: int| #[trigger]
            is_last_at(html, "</body>"@, k) && a == html.take(k) + script + html.skip(k);
        let j = choose|k: int| #[trigger]
            is_last_at(html, "</body>"@, k) && b == html.take(k) + script + html.skip(k);
        assert(i == j);
    }
}

/// Whether `part` stands in `s` at position `k`.
fn stands_at(s: &Vec<char>, part: &Vec<char>, k: usize) -> (b: bool)
    requires
        k + part@.len() <= s@.len(),
    ensures
        b == occurs_at(s@, part@, k as int),
{
    let mut i: usize = 0;
    while i < part.len()
        invariant
            i <= part.len(),
            k + part.len() <= s.len(),
            forall|j: int| 0 <= j < i ==> s@[k + j] == #[trigger] part@[j],
        decreases part.len() - i,
    {
        if s[k + i] != part[i] {
            assert(s@.subrange(k as int, k + part@.len())[i as int] != part@[i as int]);
            return false;
        }
        i = i + 1;
    }
    assert(s@.subrange(k as int, k + part@.len()) =~= part@);
    true
}

/// The last position at which `part` stands in `s`.
fn last_position(s: &Vec<char>, part: &Vec<char>) -> (r: Option<usize>)
    ensures
        match r {
            Some(k) => is_last_at(s@, part@, k as int),
            None => forall|k: int| !#[trigger] occurs_at(s@, part@, k),
        },
{
    if part.len() > s.len() {
        return None;
    }
    let mut k: usize = s.len() - part.len();
    loop
        invariant
            k + part@.len() <= s@.len(),
            forall|j: int| k < j ==> !#[trigger] occurs_at(s@, part@, j),
        decreases k,
    {
        if stands_at(s, part, k) {
            return Some(k);
        }
        if k == 0 {
            return None;
        }
        k = k - 1;
    }
}

/// Puts the shutdown watcher into a page.
pub fn inject_shutdown_watcher(html: String) -> (r: String)
    ensures
        carries(r@, html@, SHUTDOWN_WATCHER@),
{
    let s = chars_of(html.as_str());
    let part = chars_of("</body>");
    match last_position(&s, &part) {
        Some(k) => {
            let mut r = html.as_str().substring_char(0, k).to_string();
            r.append(SHUTDOWN_WATCHER);
            r.append(html.as_str().substring_char(k, s.len()));
            proof {
                assert(html@.subrange(0, k as int) =~= html@.take(k as int));
                assert(html@.subrange(k as int, html@.len() as int) =~= html@.skip(k as int));
                assert(r@ =~= html@.take(k as int) + SHUTDOWN_WATCHER@ + html@.skip(k as int));
                assert(is_last_at(html@, "</body>"@, k as int));
            }
            r
        },
        None => {
            let mut r = html;
            r.append(SHUTDOWN_WATCHER);
            r
        },
    }
}

/// What came of an attempt to read a template.
pub enum TemplateRead {
    /// Its text.
    Found(String),
    /// It is there, but cannot be read, for this reason.
    Unreadable(String),
    /// It is not there.
    Missing,
    /// The attempt itself failed.
    NotLoaded,
}

/// Where a template is, below the resource directory.
pub fn template_path(name: &str) -> (r: String)
    ensures
        r@ == "templates/"@ + name@,
{
    let mut r = "templates/".to_string();
    r.append(name);
    r
}

/// The text of a page before the watcher is put in; where there is no template, a comment that
/// says why.
pub open spec fn template_text(name: Seq<char>, read: TemplateRead) -> Seq<char> {
    match read {
        TemplateRead::Found(text) => text@,
        TemplateRead::Unreadable(reason) => "<!-- Failed to read template templates/"@ + name
            + ": "@ + reason@ + " -->"@,
        TemplateRead::Missing => "<!-- Template not found: templates/"@ + name + " -->"@,
        TemplateRead::NotLoaded => "<!-- Failed to load template: "@ + name + " -->"@,
    }
}

/// Makes a page of what was read of its template.
pub fn load_template(name: &str, read: TemplateRead) -> (r: String)
    ensures
        carries(r@, template_text(name@, read), SHUTDOWN_WATCHER@),
{
    let html = match read {
        TemplateRead::Found(text) => text,
        TemplateRead::Unreadable(reason) => {
            let mut t = "<!-- Failed to read template templates/".to_string();
            t.append(name);
            t.append(": ");
            t.append(reason.as_str());
            t.append(" -->");
            t
        },
        TemplateRead::Missing => {
            let mut t = "<!-- Template not found: templates/".to_string();
            t.append(name);
            t.append(" -->");
            t
        },
        TemplateRead::NotLoaded => {
            let mut t = "<!-- Failed to load template: ".to_string();
            t.append(name);
            t.append(" -->");
            t
        },
    };
    inject_shutdown_watcher(html)
}

/// Whether the dashboard is shutting down, and whether its server runs.
#[derive(Clone, Copy, Debug, PartialEq, Eq, Structural)]
pub struct ShutdownState {
    pub shutting_down: bool,
    pub server_started: bool,
}

/// What a request to shut down sets off.
#[derive(Clone, Copy, Debug, PartialEq, Eq, Structural)]
pub struct ShutdownAction {
    /// Wake the clients that wait for a shutdown.
    pub notify: bool,
    /// Stop the server, once clients had time to see the notice.
    pub stop_server: bool,
}

/// The answer to a request to shut down.
#[derive(Debug)]
pub struct ShutdownResponse {
    pub ok: bool,
    pub message: String,
}

/// Whether the dashboard is shutting down, for its clients.
#[derive(Debug)]
pub struct ShutdownWatchResponse {
    pub shutting_down: bool,
    pub message: String,
}

/// What clients are told once the dashboard is shutting down.
pub open spec fn shutdown_notice() -> Seq<char> {
    "Dashboard is shutting down. Program has stopped."@
}

/// The state after a request to shut down.
pub open spec fn after_shutdown_request(s: ShutdownState) -> ShutdownState {
    ShutdownState { shutting_down: true, ..s }
}

/// What a request to shut down sets off: something the first time only.
pub open spec fn shutdown_request_action(s: ShutdownState) -> ShutdownAction {
    ShutdownAction {
        notify: !s.shutting_down,
        stop_server: !s.shutting_down && s.server_started,
    }
}

/// The state once the server has started.
pub open spec fn after_server_start(s: ShutdownState) -> ShutdownState {
    ShutdownState { server_started: true, ..s }
}

impl ShutdownState {
    /// Neither shutting down nor started.
    pub fn new() -> (r: Self)
        ensures
            !r.shutting_down,
            !r.server_started,
    {
        ShutdownState { shutting_down: false, server_started: false }
    }

    /// Takes a request to shut down.
    pub fn request_shutdown(&mut self) -> (r: ShutdownAction)
        ensures
            *final(self) == after_shutdown_request(*old(self)),
            r == shutdown_request_action(*old(self)),
    {
        let first = !self.shutting_down;
        self.shutting_down = true;
        ShutdownAction { notify: first, stop_server: first && self.server_started }
    }

    /// Notes that the server has started; says whether to stop it at once.
    pub fn server_is_up(&mut self) -> (stop: bool)
        ensures
            *final(self) == after_server_start(*old(self)),
            stop == old(self).shutting_down,
    {
        self.server_started = true;
        self.shutting_down
    }

    /// The status for clients.
    pub fn status(&self) -> (r: ShutdownWatchResponse)
        ensures
            r.shutting_down == self.shutting_down,
            r.message@ == if self.shutting_down {
                shutdown_notice()
            } else {
                Seq::empty()
            },
    {
        let message = if self.shutting_down {
            "Dashboard is shutting down. Program has stopped.".to_string()
        } else {
            String::new()
        };
        ShutdownWatchResponse { shutting_down: self.shutting_down, message }
    }
}

/// The answer to a client that asked for a shutdown.
pub fn shutdown_response() -> (r: ShutdownResponse)
    ensures
        r.ok,
        r.message@ == shutdown_notice(),
{
    ShutdownResponse {
        ok: true,
        message: "Dashboard is shutting down. Program has stopped.".to_string(),
    }
}

/// The answer to a client that waited for a shutdown.
pub fn shutdown_watch_response() -> (r: ShutdownWatchResponse)
    ensures
        r.shutting_down,
        r.message@ == shutdown_notice(),
{
    ShutdownWatchResponse {
        shutting_down: true,
        message: "Dashboard is shutting down. Program has stopped.".to_string(),
    }
}

/// What happens to a dashboard.
pub enum ShutdownEvent {
    Requested,
    ServerStarted,
}

/// The state after a sequence of events, with how often clients were woken and the server was
/// told to stop.
pub open spec fn after_events(events: Seq<ShutdownEvent>) -> (ShutdownState, nat, nat)
    decreases events.len(),
{
    if events.len() == 0 {
        (ShutdownState { shutting_down: false, server_started: false }, 0, 0)
    } else {
        let (s, woken, stopped) = after_events(events.drop_last());
        match events.last() {
            ShutdownEvent::Requested => {
                let action = shutdown_request_action(s);
                (
                    after_shutdown_request(s),
                    if action.notify {
                        woken + 1
                    } else {
                        woken
                    },
                    if action.stop_server {
                        stopped + 1
                    } else {
                        stopped
                    },
                )
            },
            ShutdownEvent::ServerStarted => (
                after_server_start(s),
                woken,
                if s.shutting_down {
                    stopped + 1
                } else {
                    stopped
                },
            ),
        }
    }
}

/// A shutdown runs once: however often it is asked for, and whether the server started before or
/// after, clients are woken once and a server that starts once is stopped once; without a request
/// neither happens.
pub proof fn lemma_shutdown_runs_once(events: Seq<ShutdownEvent>)
    requires
        forall|a: int, b: int|
            0 <= a < b < events.len() && (#[trigger] events[a]) is ServerStarted ==> (
            #[trigger] events[b]) is Requested,
    ensures
        ({
            let (s, woken, stopped) = after_events(events);
            let requested = exists|k: int| 0 <= k < events.len() && (#[trigger] events[k]) is Requested;
            let started = exists|k: int|
                0 <= k < events.len() && (#[trigger] events[k]) is ServerStarted;
            &&& s.shutting_down == requested
            &&& s.server_started == started
            &&& woken == if requested {
                1nat
            } else {
                0
            }
            &&& stopped == if requested && started {
                1nat
            } else {
                0
            }
        }),
    decreases events.len(),
{
    if events.len() > 0 {
        let init = events.drop_last();
        assert forall|a: int, b: int|
            0 <= a < b < init.len() && (#[trigger] init[a]) is ServerStarted implies (
        #[trigger] init[b]) is Requested by {
            assert(events[a] is ServerStarted);
            assert(events[b] is Requested);
        }
        lemma_shutdown_runs_once(init);
        let last = events[events.len() - 1];
        assert(last == events.last());
        assert forall|k: int| 0 <= k < init.len() implies #[trigger] init[k] == events[k] by {}
        if exists|k: int| 0 <= k < init.len() && (#[trigger] init[k]) is Requested {
            let k = choose|k: int| 0 <= k < init.len() && (#[trigger] init[k]) is Requested;
            assert(events[k] is Requested);
        }
        if exists|k: int| 0 <= k < init.len() && (#[trigger] init[k]) is ServerStarted {
            let k = choose|k: int| 0 <= k < init.len() && (#[trigger] init[k]) is ServerStarted;
            assert(events[k] is ServerStarted);
        }
        if exists|k: int| 0 <= k < events.len() && (#[trigger] events[k]) is Requested {
            let k = choose|k: int| 0 <= k < events.len() && (#[trigger] events[k]) is Requested;
            assert(k == events.len() - 1 || init[k] is Requested);
        }
        if exists|k: int| 0 <= k < events.len() && (#[trigger] events[k]) is ServerStarted {
            let k = choose|k: int| 0 <= k < events.len() && (#[trigger] events[k]) is ServerStarted;
            assert(k == events.len() - 1 || init[k] is ServerStarted);
        }
    }
}

/// The text of a page is its template's where that was read, and else a comment that says what
/// went wrong and with which template.
pub proof fn lemma_text_of_a_page(name: Seq<char>, text: String, reason: String)
    ensures
        template_text(name, TemplateRead::Found(text)) == text@,
        template_text(name, TemplateRead::Unreadable(reason))
            == "<!-- Failed to read template templates/"@ + name + ": "@ + reason@ + " -->"@,
        template_text(name, TemplateRead::Missing) == "<!-- Template not found: templates/"@ + name
            + " -->"@,
        template_text(name, TemplateRead::NotLoaded) == "<!-- Failed to load template: "@ + name
            + " -->"@,
{
}

/// A page carries the whole of its text and the script, and nothing else; the script stands before
/// the last end of a body, if there is one, and else at the end.
pub proof fn lemma_page_keeps_its_text(page: Seq<char>, html: Seq<char>, script: Seq<char>) -> (k:
    int)
    requires
        carries(page, html, script),
    ensures
        0 <= k <= html.len(),
        page == html.take(k) + script + html.skip(k),
        k < html.len() ==> k + 7 <= html.len() && html.subrange(k, k + 7) == "</body>"@,
        forall|j: int|
            k < j && j + 7 <= html.len() ==> #[trigger] html.subrange(j, j + 7) != "</body>"@,
        k == html.len() ==> forall|j: int|
            0 <= j && j + 7 <= html.len() ==> #[trigger] html.subrange(j, j + 7) != "</body>"@,
{
    reveal_strlit("</body>");
    if exists|k: int| #[trigger] occurs_at(html, "</body>"@, k) {
        let k = choose|k: int| #[trigger]
            is_last_at(html, "</body>"@, k) && page == html.take(k) + script + html.skip(k);
        assert forall|j: int| k < j && j + 7 <= html.len() implies #[trigger] html.subrange(
            j,
            j + 7,
        ) != "</body>"@ by {
            assert(!occurs_at(html, "</body>"@, j));
        }
        k
    } else {
        let k = html.len() as int;
        assert(page =~= html.take(k) + script + html.skip(k));
        assert forall|j: int| 0 <= j && j + 7 <= html.len() implies #[trigger] html.subrange(
            j,
            j + 7,
        ) != "</body>"@ by {
            assert(!occurs_at(html, "</body>"@, j));
        }
        k
    }
}

/// A request to shut down takes effect; it wakes clients the first time only, and stops a server
/// only where one runs. A server that starts is known to run.
pub proof fn lemma_steps_of_a_shutdown(s: ShutdownState)
    ensures
        after_shutdown_request(s).shutting_down,
        after_shutdown_request(s).server_started == s.server_started,
        shutdown_request_action(s).notify <==> !s.shutting_down,
        shutdown_request_action(s).stop_server <==> !s.shutting_down && s.server_started,
        after_server_start(s).server_started,
        after_server_start(s).shutting_down == s.shutting_down,
        shutdown_notice() == "Dashboard is shutting down. Program has stopped."@,
{
}

} // verus!
