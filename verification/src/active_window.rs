//! The active-window context: which window/application had focus when a
//! clipboard value was captured.  Providers and their parsers fill this in.

use vstd::prelude::*;

use crate::json::{jlookup, json_get, jview, parse_json, sp_parse_json, Json, JsonV};
use crate::text::{
    chars_of, copy_range, find_char_idx, lemma_find_char_props, parse_i64, parse_i64_spec,
    range_eq_str, string_from_chars, trim_spec, trim_str,
};

verus! {

/// Mathematical model of an [`ActiveWindowContext`]: every text field as a
/// sequence of characters.
pub struct WindowV {
    pub backend: Seq<char>,
    pub title: Seq<char>,
    pub app_id: Option<Seq<char>>,
    pub initial_app_id: Option<Seq<char>>,
    pub initial_title: Option<Seq<char>>,
    pub window_id: Option<Seq<char>>,
    pub pid: Option<i64>,
    pub workspace_id: Option<i64>,
    pub workspace_name: Option<Seq<char>>,
    pub is_xwayland: Option<bool>,
}

/// The window/application that had focus at capture time.  `backend` names the
/// capture method that produced it; `title` is required and non-empty, all
/// other fields are optional metadata.
#[derive(Debug, PartialEq, Eq)]
pub struct ActiveWindowContext {
    pub backend: String,
    pub title: String,
    pub app_id: Option<String>,
    pub initial_app_id: Option<String>,
    pub initial_title: Option<String>,
    pub window_id: Option<String>,
    pub pid: Option<i64>,
    pub workspace_id: Option<i64>,
    pub workspace_name: Option<String>,
    pub is_xwayland: Option<bool>,
}

pub open spec fn opt_str_view(o: Option<String>) -> Option<Seq<char>> {
    match o {
        Some(s) => Some(s@),
        None => None,
    }
}

impl View for ActiveWindowContext {
    type V = WindowV;

    open spec fn view(&self) -> WindowV {
        WindowV {
            backend: self.backend@,
            title: self.title@,
            app_id: opt_str_view(self.app_id),
            initial_app_id: opt_str_view(self.initial_app_id),
            initial_title: opt_str_view(self.initial_title),
            window_id: opt_str_view(self.window_id),
            pid: self.pid,
            workspace_id: self.workspace_id,
            workspace_name: opt_str_view(self.workspace_name),
            is_xwayland: self.is_xwayland,
        }
    }
}

pub open spec fn opt_win_view(o: Option<ActiveWindowContext>) -> Option<WindowV> {
    match o {
        Some(w) => Some(w@),
        None => None,
    }
}

fn clone_opt_string(o: &Option<String>) -> (r: Option<String>)
    ensures
        opt_str_view(r) == opt_str_view(*o),
{
    match o {
        Some(s) => Some(s.clone()),
        None => None,
    }
}

impl Clone for ActiveWindowContext {
    /// A clone carries the same model.
    fn clone(&self) -> (r: Self)
        ensures
            r@ == self@,
    {
        ActiveWindowContext {
            backend: self.backend.clone(),
            title: self.title.clone(),
            app_id: clone_opt_string(&self.app_id),
            initial_app_id: clone_opt_string(&self.initial_app_id),
            initial_title: clone_opt_string(&self.initial_title),
            window_id: clone_opt_string(&self.window_id),
            pid: self.pid,
            workspace_id: self.workspace_id,
            workspace_name: clone_opt_string(&self.workspace_name),
            is_xwayland: self.is_xwayland,
        }
    }
}

pub fn clone_opt_window(o: &Option<ActiveWindowContext>) -> (r: Option<ActiveWindowContext>)
    ensures
        opt_win_view(r) == opt_win_view(*o),
{
    match o {
        Some(w) => Some(w.clone()),
        None => None,
    }
}


/// The minimal parse: the whole trimmed text is the title.
pub open spec fn title_parse_spec(backend: Seq<char>, raw: Seq<char>) -> Option<WindowV> {
    if trim_spec(raw).len() == 0 {
        None
    } else {
        Some(
            WindowV {
                backend,
                title: trim_spec(raw),
                app_id: None,
                initial_app_id: None,
                initial_title: None,
                window_id: None,
                pid: None,
                workspace_id: None,
                workspace_name: None,
                is_xwayland: None,
            },
        )
    }
}

/// Treats the trimmed raw text as the window title; a blank text yields
/// nothing.
pub fn parse_title_with_backend(backend: &str, raw: &str) -> (r: Option<ActiveWindowContext>)
    ensures
        opt_win_view(r) == title_parse_spec(backend@, raw@),
{
    let title = trim_str(raw);
    if title.as_str().is_empty() {
        return None;
    }
    Some(
        ActiveWindowContext {
            backend: backend.to_owned(),
            title,
            app_id: None,
            initial_app_id: None,
            initial_title: None,
            window_id: None,
            pid: None,
            workspace_id: None,
            workspace_name: None,
            is_xwayland: None,
        },
    )
}

/// The parser for a user-supplied command backend.
pub fn parse_command_active_window(raw: &str) -> (r: Option<ActiveWindowContext>)
    ensures
        opt_win_view(r) == title_parse_spec("command"@, raw@),
{
    parse_title_with_backend("command", raw)
}

/// Accumulator of the line-oriented (`key=value`) window parser.
pub struct XdState {
    pub title: Option<Seq<char>>,
    pub app_id: Option<Seq<char>>,
    pub window_id: Option<Seq<char>>,
    pub pid: Option<i64>,
    pub workspace_id: Option<i64>,
}

pub open spec fn xd_init() -> XdState {
    XdState { title: None, app_id: None, window_id: None, pid: None, workspace_id: None }
}

/// A line as `str::lines` hands it out: without a trailing carriage return.
pub open spec fn strip_cr(line: Seq<char>) -> Seq<char> {
    if line.len() > 0 && line.last() == '\r' {
        line.drop_last()
    } else {
        line
    }
}

/// One `key=value` line folded into the accumulator: the known keys set
/// their field (text fields only when the trimmed value is non-empty, the
/// numeric fields to whatever the trimmed value parses to), unknown keys
/// and lines without `=` change nothing.
pub open spec fn xd_apply(st: XdState, line0: Seq<char>) -> XdState {
    let line = strip_cr(line0);
    let i = find_char_idx(line, '=');
    if !(0 <= i < line.len()) {
        st
    } else {
        let k = line.subrange(0, i);
        let v = trim_spec(line.subrange(i + 1, line.len() as int));
        if k == "title"@ {
            if v.len() > 0 {
                XdState { title: Some(v), ..st }
            } else {
                st
            }
        } else if k == "app_id"@ {
            if v.len() > 0 {
                XdState { app_id: Some(v), ..st }
            } else {
                st
            }
        } else if k == "window_id"@ {
            if v.len() > 0 {
                XdState { window_id: Some(v), ..st }
            } else {
                st
            }
        } else if k == "pid"@ {
            XdState { pid: parse_i64_spec(v), ..st }
        } else if k == "workspace_id"@ {
            XdState { workspace_id: parse_i64_spec(v), ..st }
        } else {
            st
        }
    }
}

/// The whole text folded line by line.
pub open spec fn xd_fold(s: Seq<char>, st: XdState) -> XdState
    decreases s.len(),
{
    if s.len() == 0 {
        st
    } else {
        let i = find_char_idx(s, '\n');
        if 0 <= i < s.len() {
            xd_fold(s.subrange(i + 1, s.len() as int), xd_apply(st, s.subrange(0, i)))
        } else {
            xd_apply(st, s)
        }
    }
}

/// What the line-oriented parser yields: nothing without a title, else a
/// context tagged "xdotool" with whatever fields the lines set.
pub open spec fn xdotool_spec(raw: Seq<char>) -> Option<WindowV> {
    let st = xd_fold(raw, xd_init());
    match st.title {
        None => None,
        Some(t) => Some(
            WindowV {
                backend: "xdotool"@,
                title: t,
                app_id: st.app_id,
                initial_app_id: None,
                initial_title: None,
                window_id: st.window_id,
                pid: st.pid,
                workspace_id: st.workspace_id,
                workspace_name: None,
                is_xwayland: None,
            },
        ),
    }
}

/// Parses newline-delimited `key=value` pairs (keys `title`, `app_id`,
/// `window_id`, `pid`, `workspace_id`; unknown keys ignored) into a window
/// context tagged "xdotool"; without a non-empty title the whole parse
/// yields nothing.
#[verifier::loop_isolation(false)]
#[verifier::rlimit(100)]
pub fn parse_xdotool_active_window(raw: &str) -> (r: Option<ActiveWindowContext>)
    ensures
        opt_win_view(r) == xdotool_spec(raw@),
{
    let s = chars_of(raw);
    let n = s.len();
    let mut title: Option<String> = None;
    let mut app_id: Option<String> = None;
    let mut window_id: Option<String> = None;
    let mut pid: Option<i64> = None;
    let mut workspace_id: Option<i64> = None;
    let mut pos: usize = 0;
    proof {
        assert(s@.subrange(0, n as int) =~= s@);
    }
    while pos < n
        invariant
            0 <= pos <= n,
            xd_fold(
                s@.subrange(pos as int, n as int),
                XdState {
                    title: opt_str_view(title),
                    app_id: opt_str_view(app_id),
                    window_id: opt_str_view(window_id),
                    pid,
                    workspace_id,
                },
            ) == xd_fold(s@, xd_init()),
        decreases n - pos,
    {
        let ghost pre_st = XdState {
            title: opt_str_view(title),
            app_id: opt_str_view(app_id),
            window_id: opt_str_view(window_id),
            pid,
            workspace_id,
        };
        let ghost suffix = s@.subrange(pos as int, n as int);
        let mut j = pos;
        while j < n && s[j] != '\n'
            invariant
                pos <= j <= n,
                forall|k: int| pos <= k < j ==> s@[k] != '\n',
            decreases n - j,
        {
            j = j + 1;
        }
        proof {
            lemma_find_char_props(suffix, '\n');
            let fi = find_char_idx(suffix, '\n');
            if fi < j - pos {
                assert(suffix[fi] == '\n');
                assert(suffix[fi] == s@[pos + fi]);
                assert(false);
            }
            if fi > j - pos {
                assert(j < n);
                assert(suffix[j - pos] == s@[j as int]);
                assert(suffix[j - pos] != '\n');
                assert(false);
            }
            assert(fi == j - pos);
        }
        let ghost line0 = suffix.subrange(0, j - pos);
        let mut lend = j;
        if lend > pos && s[lend - 1] == '\r' {
            lend = lend - 1;
        }
        let ghost line = strip_cr(line0);
        proof {
            assert(line0 =~= s@.subrange(pos as int, j as int));
            if line0.len() > 0 && line0.last() == '\r' {
                assert(line =~= s@.subrange(pos as int, lend as int));
            } else {
                assert(line =~= s@.subrange(pos as int, lend as int));
            }
        }
        let mut e = pos;
        while e < lend && s[e] != '='
            invariant
                pos <= e <= lend,
                lend <= n,
                forall|k: int| pos <= k < e ==> s@[k] != '=',
            decreases lend - e,
        {
            e = e + 1;
        }
        proof {
            lemma_find_char_props(line, '=');
            let fe = find_char_idx(line, '=');
            assert(line.len() == lend - pos);
            if fe < e - pos {
                assert(line[fe] == '=');
                assert(line[fe] == s@[pos + fe]);
                assert(false);
            }
            if fe > e - pos {
                assert(e < lend);
                assert(line[e - pos] == s@[e as int]);
                assert(line[e - pos] != '=');
                assert(false);
            }
            assert(fe == e - pos);
        }
        if e < lend {
            let sub = copy_range(&s, e + 1, lend);
            let vs = string_from_chars(&sub);
            let tv = trim_str(vs.as_str());
            proof {
                assert(line.subrange(e - pos + 1, line.len() as int) =~= s@.subrange(
                    e + 1,
                    lend as int,
                ));
                assert(tv@ == trim_spec(line.subrange(e - pos + 1, line.len() as int)));
                assert(line.subrange(0, e - pos) =~= s@.subrange(pos as int, e as int));
            }
            let nonblank = !tv.as_str().is_empty();
            if range_eq_str(&s, pos, e, "title") {
                if nonblank {
                    title = Some(tv);
                }
            } else if range_eq_str(&s, pos, e, "app_id") {
                if nonblank {
                    app_id = Some(tv);
                }
            } else if range_eq_str(&s, pos, e, "window_id") {
                if nonblank {
                    window_id = Some(tv);
                }
            } else if range_eq_str(&s, pos, e, "pid") {
                pid = parse_i64(tv.as_str());
            } else if range_eq_str(&s, pos, e, "workspace_id") {
                workspace_id = parse_i64(tv.as_str());
            }
        }
        let ghost new_st = XdState {
            title: opt_str_view(title),
            app_id: opt_str_view(app_id),
            window_id: opt_str_view(window_id),
            pid,
            workspace_id,
        };
        proof {
            assert(new_st == xd_apply(pre_st, line0));
            assert(suffix.len() > 0);
            if j < n {
                assert(suffix.subrange(j - pos + 1, suffix.len() as int) =~= s@.subrange(
                    j + 1,
                    n as int,
                ));
                assert(xd_fold(suffix, pre_st) == xd_fold(
                    s@.subrange(j + 1, n as int),
                    new_st,
                ));
            } else {
                assert(line0 =~= suffix);
                assert(xd_fold(suffix, pre_st) == new_st);
                assert(s@.subrange(n as int, n as int) =~= Seq::<char>::empty());
                assert(xd_fold(s@.subrange(n as int, n as int), new_st) == new_st);
            }
        }
        if j < n {
            pos = j + 1;
        } else {
            pos = n;
        }
    }
    proof {
        assert(s@.subrange(n as int, n as int) =~= Seq::<char>::empty());
    }
    match title {
        None => None,
        Some(t) => Some(
            ActiveWindowContext {
                backend: "xdotool".to_owned(),
                title: t,
                app_id,
                initial_app_id: None,
                initial_title: None,
                window_id,
                pid,
                workspace_id,
                workspace_name: None,
                is_xwayland: None,
            },
        ),
    }
}


/// An optional string member, trimmed, kept only when non-blank: how the
/// compositor's optional fields are read.
pub open spec fn opt_trim_json_str(o: Option<JsonV>) -> Option<Seq<char>> {
    match o {
        Some(JsonV::Str(s)) => if trim_spec(s).len() > 0 {
            Some(trim_spec(s))
        } else {
            None
        },
        _ => None,
    }
}

pub open spec fn opt_json_i64(o: Option<JsonV>) -> Option<i64> {
    match o {
        Some(JsonV::Int(i)) => Some(i),
        _ => None,
    }
}

pub open spec fn opt_json_bool(o: Option<JsonV>) -> Option<bool> {
    match o {
        Some(JsonV::Bool(b)) => Some(b),
        _ => None,
    }
}

/// What the structured (JSON) window parser reads out of a parsed document:
/// a non-blank `title` is required; `class`, `initialClass`, `initialTitle`
/// and `address` are optional trimmed strings; `pid` an integer;
/// `workspace.id` and `workspace.name` come from the nested object;
/// `xwayland` a boolean.  Wrong types just leave a field absent.
pub open spec fn hyprctl_of_json(v: JsonV) -> Option<WindowV> {
    match jlookup(v, "title"@) {
        Some(JsonV::Str(ts)) => {
            let t = trim_spec(ts);
            if t.len() == 0 {
                None
            } else {
                let wsj = jlookup(v, "workspace"@);
                Some(
                    WindowV {
                        backend: "hyprctl"@,
                        title: t,
                        app_id: opt_trim_json_str(jlookup(v, "class"@)),
                        initial_app_id: opt_trim_json_str(jlookup(v, "initialClass"@)),
                        initial_title: opt_trim_json_str(jlookup(v, "initialTitle"@)),
                        window_id: opt_trim_json_str(jlookup(v, "address"@)),
                        pid: opt_json_i64(jlookup(v, "pid"@)),
                        workspace_id: match wsj {
                            Some(w) => opt_json_i64(jlookup(w, "id"@)),
                            None => None,
                        },
                        workspace_name: match wsj {
                            Some(w) => opt_trim_json_str(jlookup(w, "name"@)),
                            None => None,
                        },
                        is_xwayland: opt_json_bool(jlookup(v, "xwayland"@)),
                    },
                )
            }
        },
        _ => None,
    }
}

fn opt_trim_str_of(j: Option<&Json>) -> (r: Option<String>)
    ensures
        opt_str_view(r) == opt_trim_json_str(
            match j {
                Some(c) => Some(jview(*c)),
                None => None,
            },
        ),
{
    match j {
        Some(c) => match c.as_chars() {
            Some(v) => {
                let s = string_from_chars(v);
                let t = trim_str(s.as_str());
                if t.as_str().is_empty() {
                    None
                } else {
                    Some(t)
                }
            },
            None => None,
        },
        None => None,
    }
}

/// The structured parser applied to a parsed document.
pub fn hyprctl_from_json(j: &Json) -> (r: Option<ActiveWindowContext>)
    ensures
        opt_win_view(r) == hyprctl_of_json(jview(*j)),
{
    let title = match json_get(j, "title") {
        Some(c) => match c.as_chars() {
            Some(v) => {
                let s = string_from_chars(v);
                let t = trim_str(s.as_str());
                if t.as_str().is_empty() {
                    return None;
                }
                t
            },
            None => {
                return None;
            },
        },
        None => {
            return None;
        },
    };
    let app_id = opt_trim_str_of(json_get(j, "class"));
    let initial_app_id = opt_trim_str_of(json_get(j, "initialClass"));
    let initial_title = opt_trim_str_of(json_get(j, "initialTitle"));
    let window_id = opt_trim_str_of(json_get(j, "address"));
    let pid = match json_get(j, "pid") {
        Some(c) => c.as_i64(),
        None => None,
    };
    let ws = json_get(j, "workspace");
    let workspace_id = match ws {
        Some(w) => match json_get(w, "id") {
            Some(c) => c.as_i64(),
            None => None,
        },
        None => None,
    };
    let workspace_name = match ws {
        Some(w) => opt_trim_str_of(json_get(w, "name")),
        None => None,
    };
    let is_xwayland = match json_get(j, "xwayland") {
        Some(c) => c.as_bool(),
        None => None,
    };
    Some(
        ActiveWindowContext {
            backend: "hyprctl".to_owned(),
            title,
            app_id,
            initial_app_id,
            initial_title,
            window_id,
            pid,
            workspace_id,
            workspace_name,
            is_xwayland,
        },
    )
}

/// What the structured parser yields for given raw text: the text must
/// parse as one JSON document, which [`hyprctl_of_json`] then reads.
pub open spec fn hyprctl_parse_spec(raw: Seq<char>) -> Option<WindowV> {
    match sp_parse_json(raw) {
        Some(doc) => hyprctl_of_json(doc),
        None => None,
    }
}

/// Parses the compositor's JSON description of the focused window; any
/// result carries a non-blank title and is tagged "hyprctl".
pub fn parse_hyprctl_active_window(raw: &str) -> (r: Option<ActiveWindowContext>)
    ensures
        opt_win_view(r) == hyprctl_parse_spec(raw@),
{
    let doc = match parse_json(raw) {
        Some(d) => d,
        None => {
            return None;
        },
    };
    hyprctl_from_json(&doc)
}

/// Which parse function a command provider feeds its output to.
#[derive(Debug, Clone, Copy, PartialEq, Eq)]
pub enum ParserKind {
    Hyprctl,
    Xdotool,
    Command,
}

/// The provider that never reports a window.
pub struct DisabledActiveWindowProvider;

impl DisabledActiveWindowProvider {
    /// Capturing while disabled yields nothing.
    pub fn capture(&self) -> (r: Option<ActiveWindowContext>)
        ensures
            r is None,
    {
        None
    }
}

/// A provider that runs one fixed external program and feeds its raw
/// standard output to a parse function.  Running the program is the
/// caller's (I/O) side; `parse_output` is the verified half.
pub struct CommandActiveWindowProvider {
    program: String,
    args: Vec<String>,
    parser: ParserKind,
}

fn clone_string_vec(v: &Vec<String>) -> (r: Vec<String>)
    ensures
        r@.map_values(|s: String| s@) == v@.map_values(|s: String| s@),
{
    let n = v.len();
    let mut r: Vec<String> = Vec::new();
    let mut i: usize = 0;
    while i < n
        invariant
            n == v.len(),
            0 <= i <= n,
            r@.len() == i,
            r@.map_values(|s: String| s@) == v@.subrange(0, i as int).map_values(
                |s: String| s@,
            ),
        decreases n - i,
    {
        let ghost pre = r@;
        r.push(v[i].clone());
        proof {
            assert(r@.map_values(|s: String| s@) =~= v@.subrange(0, i + 1).map_values(
                |s: String| s@,
            )) by {
                assert forall|k: int| #![trigger r@[k]]
                    0 <= k < r@.len() implies r@.map_values(|s: String| s@)[k] == v@.subrange(
                    0,
                    i + 1,
                ).map_values(|s: String| s@)[k] by {
                    assert(r@.map_values(|s: String| s@)[k] == r@[k]@);
                    if k < i {
                        assert(r@[k] == pre[k]);
                        assert(pre.map_values(|s: String| s@)[k] == pre[k]@);
                    }
                }
            }
        }
        i = i + 1;
    }
    proof {
        assert(v@.subrange(0, n as int) =~= v@);
    }
    r
}

impl CommandActiveWindowProvider {
    pub closed spec fn spec_program(self) -> Seq<char> {
        self.program@
    }

    pub closed spec fn spec_args(self) -> Seq<Seq<char>> {
        self.args@.map_values(|s: String| s@)
    }

    pub closed spec fn spec_parser(self) -> ParserKind {
        self.parser
    }

    pub fn new(program: String, args: Vec<String>, parser: ParserKind) -> (r: Self)
        ensures
            r.spec_program() == program@,
            r.spec_args() == args@.map_values(|s: String| s@),
            r.spec_parser() == parser,
    {
        CommandActiveWindowProvider { program, args, parser }
    }

    /// The program to run.
    pub fn program(&self) -> (r: &String)
        ensures
            r@ == self.spec_program(),
    {
        &self.program
    }

    /// Its fixed arguments, exactly as the provider was built with them.
    pub fn args(&self) -> (r: &Vec<String>)
        ensures
            r@.map_values(|s: String| s@) == self.spec_args(),
    {
        &self.args
    }

    /// The verified half of a capture: what the provider makes of the
    /// program's raw output.
    pub fn parse_output(&self, raw: &str) -> (r: Option<ActiveWindowContext>)
        ensures
            self.spec_parser() is Xdotool ==> opt_win_view(r) == xdotool_spec(raw@),
            self.spec_parser() is Command ==> opt_win_view(r) == title_parse_spec(
                "command"@,
                raw@,
            ),
            self.spec_parser() is Hyprctl ==> opt_win_view(r) == hyprctl_parse_spec(raw@),
    {
        match self.parser {
            ParserKind::Hyprctl => parse_hyprctl_active_window(raw),
            ParserKind::Xdotool => parse_xdotool_active_window(raw),
            ParserKind::Command => parse_command_active_window(raw),
        }
    }
}

/// The shell pipeline the generic provider hands to `sh -c`: it queries the
/// focused window with the X11 tools and prints the `key=value` lines the
/// line-oriented parser reads.
pub open spec fn xdotool_pipeline_script() -> Seq<char> {
    "window_id=$(xdotool getactivewindow 2>/dev/null) || exit 1; title=$(xdotool getwindowname \"$window_id\" 2>/dev/null || true); app_id=$(xdotool getwindowclassname \"$window_id\" 2>/dev/null || true); pid=$(xdotool getwindowpid \"$window_id\" 2>/dev/null || true); workspace_id=$(xdotool get_desktop_for_window \"$window_id\" 2>/dev/null || true); printf 'window_id=%s\\n' \"$window_id\"; printf 'title=%s\\n' \"$title\"; printf 'app_id=%s\\n' \"$app_id\"; printf 'pid=%s\\n' \"$pid\"; printf 'workspace_id=%s\\n' \"$workspace_id\";"@
}

/// The automatic chain: the structured compositor query first, then the
/// generic shell pipeline; the first provider that yields a context wins.
pub struct AutoActiveWindowProvider {
    providers: Vec<CommandActiveWindowProvider>,
}

impl AutoActiveWindowProvider {
    pub closed spec fn spec_providers(self) -> Seq<CommandActiveWindowProvider> {
        self.providers@
    }

    pub fn new() -> (r: Self)
        ensures
            r.spec_providers().len() == 2,
            r.spec_providers()[0].spec_program() == "hyprctl"@,
            r.spec_providers()[0].spec_args() == seq!["activewindow"@, "-j"@],
            r.spec_providers()[0].spec_parser() is Hyprctl,
            r.spec_providers()[1].spec_program() == "sh"@,
            r.spec_providers()[1].spec_args() == seq!["-c"@, xdotool_pipeline_script()],
            r.spec_providers()[1].spec_parser() is Xdotool,
    {
        let mut providers: Vec<CommandActiveWindowProvider> = Vec::new();
        let mut hypr_args: Vec<String> = Vec::new();
        hypr_args.push("activewindow".to_owned());
        hypr_args.push("-j".to_owned());
        proof {
            assert(hypr_args@.map_values(|s: String| s@) =~= seq!["activewindow"@, "-j"@]);
        }
        providers.push(
            CommandActiveWindowProvider::new(
                "hyprctl".to_owned(),
                hypr_args,
                ParserKind::Hyprctl,
            ),
        );
        let mut sh_args: Vec<String> = Vec::new();
        sh_args.push("-c".to_owned());
        sh_args.push(
            "window_id=$(xdotool getactivewindow 2>/dev/null) || exit 1; title=$(xdotool getwindowname \"$window_id\" 2>/dev/null || true); app_id=$(xdotool getwindowclassname \"$window_id\" 2>/dev/null || true); pid=$(xdotool getwindowpid \"$window_id\" 2>/dev/null || true); workspace_id=$(xdotool get_desktop_for_window \"$window_id\" 2>/dev/null || true); printf 'window_id=%s\\n' \"$window_id\"; printf 'title=%s\\n' \"$title\"; printf 'app_id=%s\\n' \"$app_id\"; printf 'pid=%s\\n' \"$pid\"; printf 'workspace_id=%s\\n' \"$workspace_id\";".to_owned(),
        );
        proof {
            assert(sh_args@.map_values(|s: String| s@) =~= seq!["-c"@, xdotool_pipeline_script()]);
        }
        providers.push(
            CommandActiveWindowProvider::new("sh".to_owned(), sh_args, ParserKind::Xdotool),
        );
        AutoActiveWindowProvider { providers }
    }

    /// The chain, in order.
    pub fn providers(&self) -> (r: &Vec<CommandActiveWindowProvider>)
        ensures
            r@ == self.spec_providers(),
    {
        &self.providers
    }
}

/// A provider as configuration selects it: a small closed set of variants.
pub enum ActiveWindowProvider {
    Disabled(DisabledActiveWindowProvider),
    Command(CommandActiveWindowProvider),
    Auto(AutoActiveWindowProvider),
}

/// Maps the configuration selection to the provider it names: `Disabled`
/// and `Auto` to theirs, `Command` to a provider running that program with
/// those arguments and the minimal title parser.
pub fn provider_from_config(config: &crate::config::ActiveWindowBackend) -> (r:
    ActiveWindowProvider)
    ensures
        match config {
            crate::config::ActiveWindowBackend::Disabled => r is Disabled,
            crate::config::ActiveWindowBackend::Command { program, args } => r matches
                ActiveWindowProvider::Command(c) && c.spec_program() == program@
                && c.spec_args() == args@.map_values(|s: String| s@)
                && c.spec_parser() is Command,
            crate::config::ActiveWindowBackend::Auto => r matches ActiveWindowProvider::Auto(a)
                && a.spec_providers().len() == 2 && a.spec_providers()[0].spec_program()
                == "hyprctl"@ && a.spec_providers()[0].spec_args() == seq![
                "activewindow"@,
                "-j"@,
            ] && a.spec_providers()[0].spec_parser() is Hyprctl && a.spec_providers()[1].spec_program()
                == "sh"@ && a.spec_providers()[1].spec_args() == seq![
                "-c"@,
                xdotool_pipeline_script(),
            ] && a.spec_providers()[1].spec_parser() is Xdotool,
        },
{
    match config {
        crate::config::ActiveWindowBackend::Disabled => ActiveWindowProvider::Disabled(
            DisabledActiveWindowProvider,
        ),
        crate::config::ActiveWindowBackend::Command { program, args } => {
            ActiveWindowProvider::Command(
                CommandActiveWindowProvider::new(
                    program.clone(),
                    clone_string_vec(args),
                    ParserKind::Command,
                ),
            )
        },
        crate::config::ActiveWindowBackend::Auto => ActiveWindowProvider::Auto(
            AutoActiveWindowProvider::new(),
        ),
    }
}

} // verus!
