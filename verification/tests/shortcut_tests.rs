use discord_shortcut::shortcut::{Desktop, ShortcutDescriptor};

#[test]
fn descriptor_strips_quotes_and_sets_fixed_argument() {
    let d = ShortcutDescriptor::new("C:\\dir\\Disc\"ord.exe", "C:\\di\"r");
    assert_eq!(d.target, "C:\\dir\\Discord.exe");
    assert_eq!(d.working_dir, "C:\\dir");
    assert_eq!(d.arguments, "--multi-instance");
}

#[test]
fn descriptor_leaves_clean_paths_alone() {
    let d = ShortcutDescriptor::new("C:\\dir\\Discord.exe", "C:\\dir");
    assert_eq!(d.target, "C:\\dir\\Discord.exe");
    assert_eq!(d.working_dir, "C:\\dir");
}

#[test]
fn created_link_reads_back_the_stripped_target() {
    let mut desk = Desktop::new();
    assert!(desk.stored_target().is_none());
    desk.create_shortcut("C:\\dir\\Disc\"ord.exe", "C:\\di\"r");
    assert_eq!(desk.stored_target(), Some("C:\\dir\\Discord.exe"));
    assert_eq!(desk.stored_arguments(), Some("--multi-instance"));
}

#[test]
fn second_write_overwrites_the_first() {
    let mut desk = Desktop::new();
    desk.create_shortcut("C:\\old\\Discord.exe", "C:\\old");
    desk.create_shortcut("C:\\new\\Discord.exe", "C:\\new");
    assert_eq!(desk.stored_target(), Some("C:\\new\\Discord.exe"));
}

#[test]
fn save_replaces_whole_link() {
    let mut desk = Desktop::new();
    desk.save_shortcut(ShortcutDescriptor::new("a.exe", "a"));
    desk.save_shortcut(ShortcutDescriptor::new("b.exe", "b"));
    match desk.link {
        Some(l) => {
            assert_eq!(l.target, "b.exe");
            assert_eq!(l.working_dir, "b");
            assert_eq!(l.arguments, "--multi-instance");
        },
        None => panic!("link missing"),
    }
}
