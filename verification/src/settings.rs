//! Application shell settings: autostart, silent start and close-to-tray, the
//! command-line switch for a silent start, and the XDG autostart entry.

use vstd::prelude::*;
use crate::text::{is_whitespace, is_ws, push_char, push_str, str_eq};

verus! {

broadcast use vstd::string::group_string_axioms;

/// The directory under the XDG configuration home that holds the settings.
pub const SETTINGS_DIR: &'static str = "wireguard-gui";

/// The settings file inside `SETTINGS_DIR`.
pub const SETTINGS_FILE: &'static str = "settings.json";

/// The desktop entry under `$XDG_CONFIG_HOME/autostart`.
pub const AUTOSTART_FILE: &'static str = "wireguard-gui.desktop";

/// The switch that asks for a start without a window.
pub const SILENT_FLAG: &'static str = "--silent";

#[derive(Clone, Copy, Debug, PartialEq, Eq, Structural)]
pub struct AppSettings {
    pub autostart: bool,
    pub silent_start: bool,
    pub close_to_tray: bool,
}

impl Default for AppSettings {
    fn default() -> (r: Self)
        ensures
            r == (AppSettings { autostart: false, silent_start: false, close_to_tray: false }),
    {
        AppSettings { autostart: false, silent_start: false, close_to_tray: false }
    }
}

/// `--silent` or its short form `-s`.
pub open spec fn is_silent_arg(arg: Seq<char>) -> bool {
    arg == "--silent"@ || arg == "-s"@
}

/// Whether the command line asks for a silent start.
pub fn wants_silent_start(args: &[&str]) -> (r: bool)
    ensures
        r == exists|i: int| 0 <= i < args@.len() && #[trigger] is_silent_arg(args@[i]@),
{
    let n = args.len();
    let mut i: usize = 0;
    while i < n
        invariant
            i <= n,
            n == args@.len(),
            forall|j: int| 0 <= j < i ==> !#[trigger] is_silent_arg(args@[j]@),
        decreases n - i,
    {
        if str_eq(args[i], "--silent") || str_eq(args[i], "-s") {
            assert(is_silent_arg(args@[i as int]@));
            return true;
        }
        i = i + 1;
    }
    false
}

/// `s` with each double quote preceded by a backslash.
pub open spec fn escape_quotes(s: Seq<char>) -> Seq<char>
    decreases s.len(),
{
    if s.len() == 0 {
        Seq::empty()
    } else {
        let rest = escape_quotes(s.drop_last());
        if s.last() == '"' {
            rest + seq!['\\', '"']
        } else {
            rest.push(s.last())
        }
    }
}

/// A launch command as a desktop entry's `Exec` key takes it: in double quotes, with
/// its own double quotes escaped, when it holds whitespace; as it is otherwise.
pub open spec fn quoted_command(path: Seq<char>) -> Seq<char> {
    if exists|i: int| 0 <= i < path.len() && #[trigger] is_ws(path[i]) {
        seq!['"'] + escape_quotes(path) + seq!['"']
    } else {
        path
    }
}

pub fn quote_command(path: &str) -> (r: String)
    ensures
        r@ == quoted_command(path@),
{
    let chars = crate::text::to_chars(path);
    let n = chars.len();
    let mut spaced = false;
    let mut i: usize = 0;
    while i < n
        invariant
            i <= n,
            n == path@.len(),
            chars@ == path@,
            spaced == exists|j: int| 0 <= j < i && #[trigger] is_ws(path@[j]),
        decreases n - i,
    {
        if is_whitespace(chars[i]) {
            spaced = true;
        }
        i = i + 1;
    }
    if !spaced {
        return crate::text::string_from_chars(chars.as_slice());
    }
    let mut r = String::new();
    push_char(&mut r, '"');
    let mut k: usize = 0;
    assert(path@.take(0) =~= Seq::<char>::empty());
    while k < n
        invariant
            k <= n,
            n == path@.len(),
            chars@ == path@,
            r@ == seq!['"'] + escape_quotes(path@.take(k as int)),
        decreases n - k,
    {
        assert(path@.take(k + 1).drop_last() =~= path@.take(k as int));
        if chars[k] == '"' {
            push_char(&mut r, '\\');
            push_char(&mut r, '"');
        } else {
            push_char(&mut r, chars[k]);
        }
        assert(r@ =~= seq!['"'] + escape_quotes(path@.take(k + 1)));
        k = k + 1;
    }
    assert(path@.take(n as int) =~= path@);
    push_char(&mut r, '"');
    r
}

/// The `Exec` value: the command, followed by the silent switch when asked for.
pub open spec fn exec_line(command: Seq<char>, silent: bool) -> Seq<char> {
    if silent {
        command + " "@ + SILENT_FLAG@
    } else {
        command
    }
}

/// The XDG desktop entry that starts the application after login.
pub open spec fn desktop_entry(command: Seq<char>, silent: bool) -> Seq<char> {
    "[Desktop Entry]\nType=Application\nVersion=1.0\nName=WireGuard 控制台\nComment=登录后启动 WireGuard 控制台\nExec="@
        + exec_line(command, silent)
        + "\nIcon=wireguard-gui\nTerminal=false\nCategories=Utility;Network;\nX-GNOME-Autostart-enabled=true\nStartupNotify=false\n"@
}

pub fn autostart_desktop_contents(command: &str, silent: bool) -> (r: String)
    ensures
        r@ == desktop_entry(command@, silent),
{
    let mut r = String::new();
    push_str(
        &mut r,
        "[Desktop Entry]\nType=Application\nVersion=1.0\nName=WireGuard 控制台\nComment=登录后启动 WireGuard 控制台\nExec=",
    );
    push_str(&mut r, command);
    if silent {
        push_str(&mut r, " ");
        push_str(&mut r, SILENT_FLAG);
    }
    push_str(
        &mut r,
        "\nIcon=wireguard-gui\nTerminal=false\nCategories=Utility;Network;\nX-GNOME-Autostart-enabled=true\nStartupNotify=false\n",
    );
    r
}

/// What the autostart entry should hold for these settings: nothing (the entry is
/// removed) when autostart is off, the desktop entry for the quoted launch command
/// otherwise.
pub fn autostart_entry(command: &str, settings: &AppSettings) -> (r: Option<String>)
    ensures
        !settings.autostart <==> r is None,
        r matches Some(text) ==> text@ == desktop_entry(
            quoted_command(command@),
            settings.silent_start,
        ),
{
    if !settings.autostart {
        None
    } else {
        let quoted = quote_command(command);
        Some(autostart_desktop_contents(quoted.as_str(), settings.silent_start))
    }
}

/// `Path::join` with a relative segment: a separator goes between the two unless the
/// base is empty or already ends with one.
pub open spec fn joined(base: Seq<char>, segment: Seq<char>) -> Seq<char> {
    if base.len() == 0 || base.last() == '/' {
        base + segment
    } else {
        base + seq!['/'] + segment
    }
}

pub fn join_path(base: &str, segment: &str) -> (r: String)
    ensures
        r@ == joined(base@, segment@),
{
    let chars = crate::text::to_chars(base);
    let mut r = crate::text::string_from_chars(chars.as_slice());
    if chars.len() > 0 && chars[chars.len() - 1] != '/' {
        push_char(&mut r, '/');
    }
    push_str(&mut r, segment);
    r
}

/// The XDG configuration home: `$XDG_CONFIG_HOME` when it is set and not empty,
/// otherwise `.config` under `$HOME` (under `.` when `$HOME` is not set).
pub open spec fn config_home_spec(xdg_config_home: Option<Seq<char>>, home: Option<Seq<char>>) -> Seq<char> {
    if xdg_config_home is Some && xdg_config_home->0.len() > 0 {
        xdg_config_home->0
    } else {
        match home {
            Some(h) => joined(h, ".config"@),
            None => joined("."@, ".config"@),
        }
    }
}

pub fn config_home(xdg_config_home: Option<String>, home: Option<String>) -> (r: String)
    ensures
        r@ == config_home_spec(xdg_config_home.deep_view(), home.deep_view()),
{
    match xdg_config_home {
        Some(dir) => {
            if !dir.as_str().is_empty() {
                return dir;
            }
        },
        None => {},
    }
    match home {
        Some(h) => join_path(h.as_str(), ".config"),
        None => join_path(".", ".config"),
    }
}

/// `<config home>/wireguard-gui/settings.json`.
pub fn settings_file(config_home: &str) -> (r: String)
    ensures
        r@ == joined(joined(config_home@, SETTINGS_DIR@), SETTINGS_FILE@),
{
    let dir = join_path(config_home, SETTINGS_DIR);
    join_path(dir.as_str(), SETTINGS_FILE)
}

/// `<config home>/autostart/wireguard-gui.desktop`.
pub fn autostart_file(config_home: &str) -> (r: String)
    ensures
        r@ == joined(joined(config_home@, "autostart"@), AUTOSTART_FILE@),
{
    let dir = join_path(config_home, "autostart");
    join_path(dir.as_str(), AUTOSTART_FILE)
}

/// The command that starts this application: the AppImage when running from one
/// (its path set and not empty), otherwise the running executable.
pub fn launch_command_from(appimage: Option<String>, executable: Result<String, String>) -> (r:
    Result<String, String>)
    ensures
        r == if appimage is Some && appimage->0@.len() > 0 {
            Ok::<String, String>(appimage->0)
        } else {
            executable
        },
{
    match appimage {
        Some(a) => {
            if !a.as_str().is_empty() {
                return Ok(a);
            }
        },
        None => {},
    }
    executable
}

} // verus!
