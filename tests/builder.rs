use appctrl::command::{build_launch, command_parent, parse_env_block, Platform};

#[test]
fn env_block_lines_are_trimmed_and_filtered() {
    let env = parse_env_block("  A = 1 \nnoequals\n\nB=x=y\r\n=v\n");
    assert_eq!(
        env,
        vec![
            ("A".to_string(), "1".to_string()),
            ("B".to_string(), "x=y".to_string()),
            ("".to_string(), "v".to_string()),
        ]
    );
    assert!(parse_env_block("").is_empty());
}

#[test]
fn windows_launch_switches_code_page() {
    let spec = build_launch(Platform::Windows, "app.exe --x", "C:\\work", None, "PYTHONUTF8=0");
    assert_eq!(spec.program, "cmd.exe");
    assert_eq!(spec.args, vec!["/C".to_string(), "chcp 65001 >nul && app.exe --x".to_string()]);
    assert_eq!(spec.working_dir, Some("C:\\work".to_string()));
    assert_eq!(spec.notice, Some("📁 Working dir: C:\\work".to_string()));
    assert_eq!(spec.env.len(), 4);
    assert_eq!(spec.env[0], ("PYTHONIOENCODING".to_string(), "utf-8".to_string()));
    assert_eq!(spec.env[3], ("PYTHONUTF8".to_string(), "0".to_string()));
}

#[test]
fn unix_launch_uses_parent_directory() {
    let spec = build_launch(Platform::Unix, "/opt/app/run.sh", "", Some("/opt/app"), "");
    assert_eq!(spec.program, "sh");
    assert_eq!(spec.args, vec!["-c".to_string(), "/opt/app/run.sh".to_string()]);
    assert_eq!(spec.working_dir, Some("/opt/app".to_string()));
    assert_eq!(spec.notice, None);
    assert_eq!(spec.env.len(), 3);
    let spec = build_launch(Platform::Unix, "run.sh", "", Some(""), "");
    assert_eq!(spec.working_dir, None);
    assert_eq!(command_parent("/opt/app/run.sh"), Some("/opt/app".to_string()));
    assert_eq!(command_parent("run.sh"), Some("".to_string()));
    assert_eq!(command_parent("/"), None);
}
