use raur::builder::{build_args, choose_editor, select_artifacts};
use raur::driver::{InstallDriver, Phase};
use raur::interactive::{select_names, ErrorAction, SearchResult};
use raur::resolver::{
    arch_ok, build_graph, is_vcs_name, make_plan, plan_order, prune_fresh, BaseState, Resolver,
    VerCmp,
};
use raur::srcinfo::PackageMetaData;
use raur::upgrade::{plan_upgrades, RemoteCmp, VcsCheck};

fn meta(pkgbase: &str, pkgnames: &[&str], depends: &[&str]) -> PackageMetaData {
    PackageMetaData {
        pkgbase: pkgbase.to_string(),
        version: "1.0-1".to_string(),
        depends: depends.iter().map(|s| s.to_string()).collect(),
        make_depends: Vec::new(),
        validpgpkeys: Vec::new(),
        arch: Vec::new(),
        pkgnames: pkgnames.iter().map(|s| s.to_string()).collect(),
    }
}

#[test]
fn pure_repo_install_plan() {
    let mut res = Resolver::new(vec!["git".to_string()]);
    let n = res.next_name().unwrap();
    assert_eq!(n, "git");
    res.mark_repo(&n);
    assert!(res.next_name().is_none());
    let g = build_graph(&res.aur_meta);
    let order = plan_order(&g);
    let plan = make_plan(res.repo_deps, order);
    assert_eq!(plan.repo_deps, vec!["git".to_string()]);
    assert!(plan.build_order.is_empty());
}

#[test]
fn simple_aur_leaf_plan() {
    let mut res = Resolver::new(vec!["yay".to_string()]);
    let n = res.next_name().unwrap();
    assert_eq!(n, "yay");
    res.mark_aur(&n, meta("yay", &["yay"], &["pacman", "git"]));
    while let Some(dep) = res.next_name() {
        res.mark_repo(&dep);
    }
    let g = build_graph(&res.aur_meta);
    let order = plan_order(&g);
    let plan = make_plan(res.repo_deps, order);
    let mut repo = plan.repo_deps.clone();
    repo.sort();
    assert_eq!(repo, vec!["git".to_string(), "pacman".to_string()]);
    assert_eq!(plan.build_order, vec!["yay".to_string()]);
}

#[test]
fn split_package_base_appears_once() {
    let mut res = Resolver::new(vec!["gcc-libs".to_string()]);
    let n = res.next_name().unwrap();
    res.mark_aur(&n, meta("gcc", &["gcc", "gcc-libs"], &[]));
    assert!(res.next_name().is_none());
    let g = build_graph(&res.aur_meta);
    let order = plan_order(&g);
    assert_eq!(order, vec!["gcc".to_string()]);
}

#[test]
fn aur_dependency_builds_before_dependent() {
    let metas = vec![
        meta("a", &["a"], &["b>=1"]),
        meta("b", &["b"], &[]),
    ];
    let g = build_graph(&metas);
    let order = plan_order(&g);
    let pos = |n: &str| order.iter().position(|x| x == n).unwrap();
    assert!(pos("b") < pos("a"));
}

#[test]
fn split_package_dependency_resolves_through_index() {
    let metas = vec![
        meta("app", &["app"], &["gcc-libs"]),
        meta("gcc", &["gcc", "gcc-libs"], &[]),
    ];
    let g = build_graph(&metas);
    let order = plan_order(&g);
    let pos = |n: &str| order.iter().position(|x| x == n).unwrap();
    assert!(pos("gcc") < pos("app"));
}

#[test]
fn cyclic_metadata_falls_back_to_sorted_order() {
    let metas = vec![
        meta("zeta", &["zeta"], &["alpha"]),
        meta("alpha", &["alpha"], &["zeta"]),
    ];
    let g = build_graph(&metas);
    let order = plan_order(&g);
    assert_eq!(order, vec!["alpha".to_string(), "zeta".to_string()]);
}

#[test]
fn plan_sets_are_disjoint() {
    let plan = make_plan(
        vec!["git".to_string(), "yay".to_string()],
        vec!["yay".to_string()],
    );
    assert_eq!(plan.repo_deps, vec!["git".to_string()]);
    assert_eq!(plan.build_order, vec!["yay".to_string()]);
}

#[test]
fn fresh_base_is_pruned() {
    let states = vec![
        BaseState {
            name: "pkg-x".to_string(),
            installed_cmp: vec![Some(VerCmp::Equal)],
            upstream_ahead: false,
        },
        BaseState {
            name: "pkg-y".to_string(),
            installed_cmp: vec![Some(VerCmp::Less)],
            upstream_ahead: false,
        },
        BaseState {
            name: "pkg-z".to_string(),
            installed_cmp: vec![None],
            upstream_ahead: false,
        },
    ];
    let kept = prune_fresh(&states);
    assert_eq!(kept, vec!["pkg-y".to_string(), "pkg-z".to_string()]);
}

#[test]
fn version_bump_survives_prune() {
    let states = vec![BaseState {
        name: "pkg-x".to_string(),
        installed_cmp: vec![Some(VerCmp::Equal), Some(VerCmp::Less)],
        upstream_ahead: false,
    }];
    assert_eq!(prune_fresh(&states), vec!["pkg-x".to_string()]);
}

#[test]
fn vcs_base_follows_upstream_not_versions() {
    let states = vec![
        BaseState {
            name: "foo-git".to_string(),
            installed_cmp: vec![Some(VerCmp::Equal)],
            upstream_ahead: true,
        },
        BaseState {
            name: "bar-git".to_string(),
            installed_cmp: vec![Some(VerCmp::Less)],
            upstream_ahead: false,
        },
    ];
    assert_eq!(prune_fresh(&states), vec!["foo-git".to_string()]);
}

#[test]
fn vcs_suffixes_exclude_bin() {
    assert!(is_vcs_name("foo-git"));
    assert!(is_vcs_name("foo-hg"));
    assert!(is_vcs_name("foo-svn"));
    assert!(is_vcs_name("foo-bzr"));
    assert!(is_vcs_name("foo-darcs"));
    assert!(is_vcs_name("foo-cvs"));
    assert!(!is_vcs_name("foo-bin"));
    assert!(!is_vcs_name("git"));
}

#[test]
fn arch_check_admits_any_and_current() {
    let mut m = meta("x", &["x"], &[]);
    assert!(arch_ok(&m, "x86_64"));
    m.arch = vec!["any".to_string()];
    assert!(arch_ok(&m, "x86_64"));
    m.arch = vec!["x86_64".to_string()];
    assert!(arch_ok(&m, "x86_64"));
    m.arch = vec!["aarch64".to_string()];
    assert!(!arch_ok(&m, "x86_64"));
}

#[test]
fn upgrades_follow_vercmp_and_vcs() {
    let remote = vec![
        RemoteCmp { name: "old".to_string(), cmp: VerCmp::Less },
        RemoteCmp { name: "same".to_string(), cmp: VerCmp::Equal },
        RemoteCmp { name: "newer".to_string(), cmp: VerCmp::Greater },
    ];
    let vcs = vec![
        VcsCheck { name: "foo-git".to_string(), upstream_ahead: true },
        VcsCheck { name: "idle-git".to_string(), upstream_ahead: false },
        VcsCheck { name: "static-bin".to_string(), upstream_ahead: true },
    ];
    let ups = plan_upgrades(&remote, &vcs);
    assert_eq!(ups, vec!["old".to_string(), "foo-git".to_string()]);
}

#[test]
fn upgrades_keep_first_occurrence_only() {
    let remote = vec![RemoteCmp { name: "x-git".to_string(), cmp: VerCmp::Less }];
    let vcs = vec![VcsCheck { name: "x-git".to_string(), upstream_ahead: true }];
    assert_eq!(plan_upgrades(&remote, &vcs), vec!["x-git".to_string()]);
}

#[test]
fn editor_precedence_is_config_env_nano() {
    let cfg = Some("kak".to_string());
    let env = Some("emacs".to_string());
    assert_eq!(choose_editor(&cfg, &env), "kak");
    assert_eq!(choose_editor(&None, &env), "emacs");
    assert_eq!(choose_editor(&None, &None), "nano");
}

#[test]
fn artifact_selection_matches_split_package() {
    let paths = vec![
        "gcc-13.2-1-x86_64.pkg.tar.zst".to_string(),
        "gcc-libs-13.2-1-x86_64.pkg.tar.zst".to_string(),
    ];
    let picked = select_artifacts(&paths, "gcc-libs", "13.2-1");
    assert_eq!(picked, vec!["gcc-libs-13.2-1-x86_64.pkg.tar.zst".to_string()]);
    let picked_base = select_artifacts(&paths, "gcc", "13.2-1");
    assert_eq!(picked_base, vec!["gcc-13.2-1-x86_64.pkg.tar.zst".to_string()]);
}

#[test]
fn build_flags_add_signature_skip_on_demand() {
    assert_eq!(build_args(false), vec!["-s", "-r", "-f"]);
    assert_eq!(build_args(true), vec!["-s", "-r", "-f", "--skippgpcheck"]);
}

#[test]
fn driver_runs_batch_then_each_base() {
    let plan = make_plan(vec!["git".to_string()], vec!["yay".to_string()]);
    let mut d = InstallDriver::new(plan);
    assert_eq!(d.phase, Phase::RepoBatch);
    d.on_repo_result(true);
    assert_eq!(d.phase, Phase::Build);
    assert_eq!(d.current_base(), "yay");
    d.on_build_result(true, ErrorAction::Abort);
    assert_eq!(d.phase, Phase::InstallFiles);
    d.on_install_result(true, ErrorAction::Abort);
    assert_eq!(d.phase, Phase::Done);
    assert_eq!(d.built, vec!["yay".to_string()]);
    assert!(d.skipped.is_empty());
}

#[test]
fn driver_skip_and_retry_and_abort() {
    let plan = make_plan(Vec::new(), vec!["a".to_string(), "b".to_string()]);
    let mut d = InstallDriver::new(plan);
    d.on_repo_result(true);
    d.on_build_result(false, ErrorAction::Retry);
    assert_eq!(d.phase, Phase::Build);
    d.on_build_result(false, ErrorAction::Skip);
    assert_eq!(d.phase, Phase::Build);
    assert_eq!(d.skipped, vec!["a".to_string()]);
    assert_eq!(d.current_base(), "b");
    d.on_build_result(true, ErrorAction::Abort);
    d.on_install_result(false, ErrorAction::Abort);
    assert_eq!(d.phase, Phase::Aborted);
}

#[test]
fn driver_aborts_on_failed_repo_batch() {
    let plan = make_plan(vec!["git".to_string()], Vec::new());
    let mut d = InstallDriver::new(plan);
    d.on_repo_result(false);
    assert_eq!(d.phase, Phase::Aborted);
}

#[test]
fn base_without_known_names_stays_buildable() {
    let states = vec![BaseState {
        name: "mystery".to_string(),
        installed_cmp: Vec::new(),
        upstream_ahead: false,
    }];
    assert_eq!(prune_fresh(&states), vec!["mystery".to_string()]);
}

#[test]
fn selected_indices_map_to_names() {
    let results = vec![
        SearchResult::Repo(raur::pacman::Package {
            repo: "core".to_string(),
            name: "git".to_string(),
            version: "1".to_string(),
            description: "d".to_string(),
            installed: false,
        }),
        SearchResult::Aur(raur::api::AurPackage {
            name: "yay".to_string(),
            version: "1".to_string(),
            _maintainer: None,
            description: None,
            num_votes: None,
        }),
    ];
    let names = select_names(&results, &vec![1]);
    assert_eq!(names, vec!["yay".to_string()]);
}

#[test]
fn vcs_first_install_is_kept() {
    let states = vec![
        BaseState {
            name: "new-git".to_string(),
            installed_cmp: vec![None],
            upstream_ahead: false,
        },
        BaseState {
            name: "bare-git".to_string(),
            installed_cmp: Vec::new(),
            upstream_ahead: false,
        },
        BaseState {
            name: "partial-git".to_string(),
            installed_cmp: vec![Some(VerCmp::Equal), None],
            upstream_ahead: false,
        },
    ];
    assert_eq!(
        prune_fresh(&states),
        vec![
            "new-git".to_string(),
            "bare-git".to_string(),
            "partial-git".to_string()
        ]
    );
}

#[test]
fn repo_names_are_recorded_clean() {
    let mut res = Resolver::new(vec!["git>=2.40".to_string()]);
    let n = res.next_name().unwrap();
    assert_eq!(n, "git>=2.40");
    res.mark_repo(&n);
    assert_eq!(res.repo_deps, vec!["git".to_string()]);
}
