use pyroxene::desktop::DesktopEntry;
use pyroxene::desktop::DesktopEntryErr;

#[test]
fn parses_name_and_exec() {
    let e = DesktopEntry::new("[Desktop Entry]\nName=X\nExec=Y\n").unwrap();
    assert_eq!(e.name, "X");
    assert_eq!(e.command_line, "Y");
    assert_eq!(e.icon, None);
    assert_eq!(e.generic_name, None);
    assert_eq!(e.comment, None);
    assert_eq!(e.path, None);
    assert!(!e.terminal);
    assert!(e.categories.is_empty());
    assert!(e.keywords.is_empty());
}

#[test]
fn parses_all_optional_fields() {
    let text = "[Desktop Entry]\nType=Application\nName=Editor\nIcon=edit\nGenericName=Text Editor\nComment=Edits text\nExec=editor %U\nPath=/tmp\nTerminal=true\nKeywords=text;editing\n";
    let e = DesktopEntry::new(text).unwrap();
    assert_eq!(e.name, "Editor");
    assert_eq!(e.icon.as_deref(), Some("edit"));
    assert_eq!(e.generic_name.as_deref(), Some("Text Editor"));
    assert_eq!(e.comment.as_deref(), Some("Edits text"));
    assert_eq!(e.command_line, "editor %U");
    assert_eq!(e.path.as_deref(), Some("/tmp"));
    assert!(e.terminal);
    assert_eq!(e.keywords, vec!["text".to_string(), "editing".to_string()]);
}

#[test]
fn first_occurrence_wins() {
    let e = DesktopEntry::new("[Desktop Entry]\nName=A\nExec=run\nName=B\n").unwrap();
    assert_eq!(e.name, "A");
}

#[test]
fn first_occurrence_wins_for_lists() {
    let e = DesktopEntry::new(
        "[Desktop Entry]\nName=A\nExec=run\nCategories=Network\nCategories=Office\n",
    )
    .unwrap();
    assert_eq!(e.categories, vec!["Network".to_string()]);
}

#[test]
fn hidden_true_rejects() {
    let r = DesktopEntry::new("[Desktop Entry]\nName=A\nExec=run\nHidden=true\n");
    assert!(matches!(r, Err(DesktopEntryErr::Hidden)));
}

#[test]
fn hidden_false_is_kept() {
    let e = DesktopEntry::new("[Desktop Entry]\nName=A\nExec=run\nHidden=false\n").unwrap();
    assert_eq!(e.name, "A");
}

#[test]
fn only_show_in_without_environment_rejects() {
    let r = DesktopEntry::new("[Desktop Entry]\nName=A\nExec=run\nOnlyShowIn=Other;Thing\n");
    assert!(matches!(r, Err(DesktopEntryErr::OnlyShowIn)));
}

#[test]
fn only_show_in_with_environment_is_kept() {
    let e = DesktopEntry::new("[Desktop Entry]\nName=A\nExec=run\nOnlyShowIn=Sway;Other\n").unwrap();
    assert_eq!(e.name, "A");
}

#[test]
fn not_show_in_with_environment_rejects() {
    let r = DesktopEntry::new("[Desktop Entry]\nName=A\nExec=run\nNotShowIn=Sway\n");
    assert!(matches!(r, Err(DesktopEntryErr::NotShowIn)));
}

#[test]
fn not_show_in_without_environment_is_kept() {
    let e = DesktopEntry::new("[Desktop Entry]\nName=A\nExec=run\nNotShowIn=Gnome;KDE\n").unwrap();
    assert_eq!(e.name, "A");
}

#[test]
fn missing_exec_fails() {
    let r = DesktopEntry::new("[Desktop Entry]\nName=A\n");
    assert!(matches!(r, Err(DesktopEntryErr::MissingExec)));
}

#[test]
fn missing_name_fails() {
    let r = DesktopEntry::new("[Desktop Entry]\nExec=run\n");
    assert!(matches!(r, Err(DesktopEntryErr::MissingName)));
}

#[test]
fn missing_both_reports_name_first() {
    let r = DesktopEntry::new("[Desktop Entry]\nIcon=x\n");
    assert!(matches!(r, Err(DesktopEntryErr::MissingName)));
}

#[test]
fn empty_segments_are_dropped() {
    let e = DesktopEntry::new("[Desktop Entry]\nName=A\nExec=run\nCategories=Network;;Internet\n")
        .unwrap();
    assert_eq!(e.categories, vec!["Network".to_string(), "Internet".to_string()]);
}

#[test]
fn trailing_separator_is_dropped() {
    let e = DesktopEntry::new("[Desktop Entry]\nName=A\nExec=run\nCategories=Network;\n").unwrap();
    assert_eq!(e.categories, vec!["Network".to_string()]);
}

#[test]
fn type_other_than_application_rejects() {
    let r = DesktopEntry::new("[Desktop Entry]\nType=Link\nName=A\nExec=run\n");
    assert!(matches!(r, Err(DesktopEntryErr::NotApplication)));
}

#[test]
fn type_application_is_kept() {
    let e = DesktopEntry::new("[Desktop Entry]\nType=Application\nName=A\nExec=run\n").unwrap();
    assert_eq!(e.name, "A");
}

#[test]
fn short_group_header_rejects_whole_file() {
    let r = DesktopEntry::new("[Desktop Entry]\nName=A\nExec=run\n[]\n");
    assert!(matches!(r, Err(DesktopEntryErr::InvalidGroupHeader)));
}

#[test]
fn keys_in_other_sections_are_ignored() {
    let text = "[Other Section]\nName=Bad\nExec=bad\n[Desktop Entry]\nName=Good\nExec=good\n";
    let e = DesktopEntry::new(text).unwrap();
    assert_eq!(e.name, "Good");
    assert_eq!(e.command_line, "good");
}

#[test]
fn keys_before_any_section_are_ignored() {
    let r = DesktopEntry::new("Name=A\nExec=run\n");
    assert!(matches!(r, Err(DesktopEntryErr::MissingName)));
}

#[test]
fn terminal_requires_exact_true() {
    let e = DesktopEntry::new("[Desktop Entry]\nName=A\nExec=run\nTerminal=True\n").unwrap();
    assert!(!e.terminal);
}

#[test]
fn carriage_returns_are_stripped() {
    let e = DesktopEntry::new("[Desktop Entry]\r\nName=X\r\nExec=Y\r\n").unwrap();
    assert_eq!(e.name, "X");
    assert_eq!(e.command_line, "Y");
}

#[test]
fn silent_skips_are_classified() {
    assert!(DesktopEntryErr::NotApplication.is_silent());
    assert!(DesktopEntryErr::Hidden.is_silent());
    assert!(DesktopEntryErr::OnlyShowIn.is_silent());
    assert!(DesktopEntryErr::NotShowIn.is_silent());
    assert!(!DesktopEntryErr::InvalidGroupHeader.is_silent());
    assert!(!DesktopEntryErr::MissingName.is_silent());
    assert!(!DesktopEntryErr::MissingExec.is_silent());
    assert!(!DesktopEntryErr::IOFailure.is_silent());
}

#[test]
fn launch_command_strips_file_and_url_codes() {
    let e = DesktopEntry::new("[Desktop Entry]\nName=A\nExec=run %f|%F|%u|%U|%k now\n").unwrap();
    assert_eq!(e.launch_command(), "run |||| now");
}

#[test]
fn launch_command_substitutes_icon_and_name() {
    let e = DesktopEntry::new("[Desktop Entry]\nName=App\nIcon=pic\nExec=run --icon %i --title %c\n")
        .unwrap();
    assert_eq!(e.launch_command(), "run --icon pic --title App");
}

#[test]
fn launch_command_without_icon_substitutes_nothing() {
    let e = DesktopEntry::new("[Desktop Entry]\nName=App\nExec=run %i end\n").unwrap();
    assert_eq!(e.launch_command(), "run  end");
}

#[test]
fn launch_command_keeps_unknown_codes_and_lone_percent() {
    let e = DesktopEntry::new("[Desktop Entry]\nName=A\nExec=run %x 50%\n").unwrap();
    assert_eq!(e.launch_command(), "run %x 50%");
}

#[test]
fn launch_command_percent_escaping_single_pass() {
    let e = DesktopEntry::new("[Desktop Entry]\nName=A\nExec=a%%fb\n").unwrap();
    assert_eq!(e.launch_command(), "a%b");
}
