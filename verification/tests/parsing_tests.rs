use raur::config::{parse_config, serialize_config, Config};
use raur::dependency::{classify_dependencies, clean_dependency};
use raur::pacman::parse_search_output;
use raur::selection::{parse_selection, render_selection};
use raur::srcinfo::parse_srcinfo;

#[test]
fn clean_name_stops_at_first_constraint() {
    assert_eq!(clean_dependency("foo>=1.2"), "foo");
    assert_eq!(clean_dependency("bar<2"), "bar");
    assert_eq!(clean_dependency("baz=3"), "baz");
    assert_eq!(clean_dependency("plain"), "plain");
    assert_eq!(clean_dependency(""), "");
}

#[test]
fn clean_name_is_idempotent_and_constraint_free() {
    let once = clean_dependency("gtk3>=3.24<4");
    let twice = clean_dependency(&once);
    assert_eq!(once, twice);
    assert!(!once.contains('<') && !once.contains('>') && !once.contains('='));
}

#[test]
fn classification_splits_on_repo_membership() {
    let missing = vec!["foo>=1".to_string(), "bar".to_string()];
    let repo = vec!["foo".to_string()];
    let st = classify_dependencies(&missing, &repo);
    assert_eq!(st.repo_install, vec!["foo".to_string()]);
    assert_eq!(st.aur_build, vec!["bar".to_string()]);
}

#[test]
fn selection_plain_indices() {
    assert_eq!(parse_selection("1 2 3", 5).unwrap(), vec![0, 1, 2]);
}

#[test]
fn selection_range_and_reversed_range() {
    assert_eq!(parse_selection("1-3", 5).unwrap(), vec![0, 1, 2]);
    assert_eq!(parse_selection("3-1", 5).unwrap(), vec![0, 1, 2]);
}

#[test]
fn selection_discards_out_of_range_numbers() {
    assert_eq!(parse_selection("0 7 2", 5).unwrap(), vec![1]);
    assert_eq!(parse_selection("", 5).unwrap(), Vec::<usize>::new());
    assert_eq!(parse_selection("9-12", 5).unwrap(), Vec::<usize>::new());
}

#[test]
fn selection_rejects_malformed_tokens() {
    assert_eq!(parse_selection("abc 2", 5).unwrap_err(), "abc");
    assert_eq!(
        parse_selection("999999999999999999999999999 2", 5).unwrap_err(),
        "999999999999999999999999999"
    );
    assert!(parse_selection("1-x", 5).is_err());
    assert!(parse_selection("-5", 5).is_err());
}

#[test]
fn selection_ignores_tokens_with_several_dashes() {
    assert_eq!(parse_selection("1-2-3 2", 5).unwrap(), vec![1]);
}

#[test]
fn selection_dedups_and_sorts() {
    assert_eq!(parse_selection("3 1 3 2-3", 5).unwrap(), vec![0, 1, 2]);
}

#[test]
fn selection_clips_range_to_max() {
    assert_eq!(parse_selection("2-9", 4).unwrap(), vec![1, 2, 3]);
}

#[test]
fn selection_is_idempotent_through_rendering() {
    let first = parse_selection("3 1-2 9", 5).unwrap();
    let text = render_selection(&first);
    assert_eq!(text, "1 2 3");
    let second = parse_selection(&text, 5).unwrap();
    assert_eq!(first, second);
}

#[test]
fn config_reads_tab_escapes() {
    let c = parse_config("editor = \"a\\tb\"\n");
    assert_eq!(c.editor, Some("a\tb".to_string()));
}

#[test]
fn config_round_trip_keeps_special_characters() {
    let c = Config {
        build_dir: Some("a\nb\tc \"quoted\" back\\slash".to_string()),
        editor: None,
        clean_build: false,
        show_news: true,
        diff_viewer: false,
    };
    let back = parse_config(&serialize_config(&c));
    assert_eq!(back.build_dir, c.build_dir);
    assert_eq!(back.diff_viewer, c.diff_viewer);
}

#[test]
fn config_defaults_from_empty_text() {
    let c = parse_config("");
    assert_eq!(c.build_dir, None);
    assert_eq!(c.editor, None);
    assert!(!c.clean_build);
    assert!(c.show_news);
    assert!(c.diff_viewer);
}

#[test]
fn config_serialization_has_exact_shape() {
    let c = Config::default();
    assert_eq!(
        serialize_config(&c),
        "clean_build = false\nshow_news = true\ndiff_viewer = true\n"
    );
}

#[test]
fn config_round_trip_restores_every_field() {
    let c = Config {
        build_dir: Some("/var/cache/builds".to_string()),
        editor: Some("vim -u NONE".to_string()),
        clean_build: true,
        show_news: false,
        diff_viewer: true,
    };
    let back = parse_config(&serialize_config(&c));
    assert_eq!(back.build_dir, c.build_dir);
    assert_eq!(back.editor, c.editor);
    assert_eq!(back.clean_build, c.clean_build);
    assert_eq!(back.show_news, c.show_news);
    assert_eq!(back.diff_viewer, c.diff_viewer);
}

#[test]
fn config_tolerates_unknown_keys_and_noise() {
    let text = "# comment\n\nunknown = 5\nclean_build = true\nbroken line\n";
    let c = parse_config(text);
    assert!(c.clean_build);
    assert_eq!(c.build_dir, None);
    assert!(c.show_news);
}

#[test]
fn config_last_line_wins() {
    let c = parse_config("show_news = false\nshow_news = true\n");
    assert!(c.show_news);
}

#[test]
fn srcinfo_filters_arch_tagged_sections() {
    let text = "pkgbase = gcc\n\
                pkgver = 13.2\n\
                pkgrel = 1\n\
                arch = x86_64\n\
                pkgname = gcc\n\
                pkgname = gcc-libs\n\
                depends = glibc\n\
                depends_x86_64 = libx\n\
                depends_aarch64 = liby\n\
                makedepends = make\n\
                makedepends_aarch64 = cross-tools\n\
                validpgpkeys = ABC123\n";
    let m = parse_srcinfo(text, "x86_64");
    assert_eq!(m.pkgbase, "gcc");
    assert_eq!(m.version, "13.2-1");
    assert_eq!(m.pkgnames, vec!["gcc".to_string(), "gcc-libs".to_string()]);
    assert_eq!(m.depends, vec!["glibc".to_string(), "libx".to_string()]);
    assert_eq!(m.make_depends, vec!["make".to_string()]);
    assert_eq!(m.validpgpkeys, vec!["ABC123".to_string()]);
    assert_eq!(m.arch, vec!["x86_64".to_string()]);
}

#[test]
fn srcinfo_keeps_repeated_depends_once() {
    let text = "pkgbase = x\ndepends = a\ndepends = a\ndepends = b\n";
    let m = parse_srcinfo(text, "x86_64");
    assert_eq!(m.depends, vec!["a".to_string(), "b".to_string()]);
}

#[test]
fn search_output_reads_pairs() {
    let raw = "core/git 2.43.0-1 [installed]\n    fast version control\nextra/vim 9.0-1\n    an editor\n";
    let pkgs = parse_search_output(raw);
    assert_eq!(pkgs.len(), 2);
    assert_eq!(pkgs[0].repo, "core");
    assert_eq!(pkgs[0].name, "git");
    assert_eq!(pkgs[0].version, "2.43.0-1");
    assert_eq!(pkgs[0].description, "fast version control");
    assert!(pkgs[0].installed);
    assert_eq!(pkgs[1].repo, "extra");
    assert_eq!(pkgs[1].name, "vim");
    assert!(!pkgs[1].installed);
}

#[test]
fn search_output_skips_malformed_pairs() {
    let raw = "no-slash-here 1.0\n    desc\nlonely trailing line";
    let pkgs = parse_search_output(raw);
    assert_eq!(pkgs.len(), 0);
}
