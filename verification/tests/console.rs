use logitray::console::should_attach_parent_console;

#[test]
fn redirected_cli_output_must_keep_the_existing_pipe() {
    assert!(!should_attach_parent_console(true, true, false));
}

#[test]
fn explorer_cli_launch_may_attach_to_parent_console() {
    assert!(should_attach_parent_console(true, false, false));
}

#[test]
fn tray_mode_never_attaches_a_console() {
    assert!(!should_attach_parent_console(false, false, false));
}

#[test]
fn inherited_stdout_is_kept() {
    assert!(!should_attach_parent_console(true, false, true));
}

#[test]
fn startup_flags_with_std_handles_bit() {
    assert!(logitray::console::uses_std_handles(0x100));
    assert!(logitray::console::uses_std_handles(0x101));
    assert!(!logitray::console::uses_std_handles(0x001));
    assert!(!logitray::console::uses_std_handles(0x200));
    assert_eq!(logitray::console::STARTF_USESTDHANDLES, 0x100);
}
