use xnip::output::globals::Flags;

#[test]
fn default_flags_are_all_false() {
    let f = Flags::default();
    assert!(!f.quiet);
    assert!(!f.no_color);
    assert!(!f.trace);
}

#[test]
fn flags_copy() {
    let f = Flags { quiet: true, no_color: true, trace: true };
    let g = f;
    assert!(g.quiet && g.no_color && g.trace);
}
