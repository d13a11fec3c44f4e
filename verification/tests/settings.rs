use wireguard_gui::settings::{
    autostart_desktop_contents, autostart_entry, quote_command, wants_silent_start, AppSettings,
};
use wireguard_gui::settings::{autostart_file, config_home, join_path, settings_file};
use wireguard_gui::settings::launch_command_from;

#[test]
fn silent_flag_is_detected() {
    assert!(wants_silent_start(&["wireguard-gui", "--silent"]));
    assert!(wants_silent_start(&["-s"]));
    assert!(!wants_silent_start(&["wireguard-gui"]));
}

#[test]
fn desktop_file_includes_silent_flag_only_when_requested() {
    let silent = autostart_desktop_contents("/usr/bin/wireguard-gui", true);
    let visible = autostart_desktop_contents("/usr/bin/wireguard-gui", false);
    assert!(silent.contains("Exec=/usr/bin/wireguard-gui --silent\n"));
    assert!(visible.contains("Exec=/usr/bin/wireguard-gui\n"));
    assert!(!visible.contains("--silent"));
}

#[test]
fn silent_switch_must_match_exactly() {
    assert!(!wants_silent_start(&[]));
    assert!(!wants_silent_start(&["--silently", "-S", "s"]));
    assert!(wants_silent_start(&["a", "b", "-s", "c"]));
}

#[test]
fn commands_with_whitespace_are_quoted() {
    assert_eq!(quote_command("/usr/bin/wireguard-gui"), "/usr/bin/wireguard-gui");
    assert_eq!(
        quote_command("/opt/WireGuard GUI/wireguard-gui"),
        "\"/opt/WireGuard GUI/wireguard-gui\""
    );
    assert_eq!(quote_command("/opt/a\"b c"), "\"/opt/a\\\"b c\"");
    assert_eq!(quote_command("/opt/a\"b"), "/opt/a\"b");
    assert_eq!(quote_command("/opt/tab\there"), "\"/opt/tab\there\"");
}

#[test]
fn desktop_entry_has_the_full_text() {
    assert_eq!(
        autostart_desktop_contents("/usr/bin/wireguard-gui", false),
        "[Desktop Entry]\nType=Application\nVersion=1.0\nName=WireGuard 控制台\n\
         Comment=登录后启动 WireGuard 控制台\nExec=/usr/bin/wireguard-gui\n\
         Icon=wireguard-gui\nTerminal=false\nCategories=Utility;Network;\n\
         X-GNOME-Autostart-enabled=true\nStartupNotify=false\n"
    );
}

#[test]
fn autostart_entry_follows_the_settings() {
    let enabled = AppSettings {
        autostart: true,
        silent_start: true,
        close_to_tray: true,
    };
    let text = autostart_entry("/opt/WireGuard GUI/wireguard-gui", &enabled).unwrap();
    assert!(text.contains("Exec=\"/opt/WireGuard GUI/wireguard-gui\" --silent\n"));
    assert_eq!(autostart_entry("/opt/app", &AppSettings::default()), None);
    let visible = AppSettings {
        silent_start: false,
        ..enabled
    };
    let text = autostart_entry("/opt/app", &visible).unwrap();
    assert!(text.contains("Exec=/opt/app\n"));
}

#[test]
fn default_settings_are_all_off() {
    let settings = AppSettings::default();
    assert!(!settings.autostart);
    assert!(!settings.silent_start);
    assert!(!settings.close_to_tray);
}

#[test]
fn settings_live_under_the_xdg_configuration_home() {
    assert_eq!(
        config_home(Some("/xdg".to_string()), Some("/home/a".to_string())),
        "/xdg"
    );
    assert_eq!(
        config_home(Some(String::new()), Some("/home/a".to_string())),
        "/home/a/.config"
    );
    assert_eq!(config_home(None, Some("/home/a/".to_string())), "/home/a/.config");
    assert_eq!(config_home(None, None), "./.config");
    assert_eq!(join_path("", "x"), "x");
    assert_eq!(
        settings_file("/home/a/.config"),
        "/home/a/.config/wireguard-gui/settings.json"
    );
    assert_eq!(
        autostart_file("/home/a/.config/"),
        "/home/a/.config/autostart/wireguard-gui.desktop"
    );
}

#[test]
fn launch_command_prefers_a_set_appimage() {
    assert_eq!(
        launch_command_from(Some("/opt/app.AppImage".to_string()), Err("no exe".to_string())),
        Ok("/opt/app.AppImage".to_string())
    );
    assert_eq!(
        launch_command_from(Some(String::new()), Ok("/usr/bin/wireguard-gui".to_string())),
        Ok("/usr/bin/wireguard-gui".to_string())
    );
    assert_eq!(
        launch_command_from(None, Err("no exe".to_string())),
        Err("no exe".to_string())
    );
}
