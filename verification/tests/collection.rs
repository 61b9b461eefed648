//! Collection: naming modules after their paths, reading the two snapshots the
//! way the collection does, and the pure parts of locating the package. Plus
//! `report`, the text rendering of both views.

use watch_floor::app::{settle, App, View, SETTLE_MS};
use watch_floor::collection::{
    absorb, baseline_label, candidate_name, head_from, in_skipped_dir, missing_message, module_of, pick_package,
    python_paths, several_message, skipped_dir, target_of, PackageSearch, Target, TargetError,
};
use watch_floor::dossier::Dossier;
use watch_floor::intercept::Interceptor;
use watch_floor::network::Network;
use watch_floor::report;
use watch_floor::sitrep::Status;
use watch_floor::structure::Structure;

// ---------------------------------------------------------------- fixture --

/// A package named `pkg` held in memory: the files of the working tree, and
/// those committed as the baseline once `commit` has run.
struct Fixture {
    baseline: Option<Vec<(String, String)>>,
    tree: Vec<(String, String)>,
}

#[allow(dead_code)]
impl Fixture {
    fn new() -> Fixture {
        Fixture { baseline: None, tree: Vec::new() }
    }

    /// Write a file, relative to the repository root.
    fn write(&mut self, rel: &str, contents: &str) -> &mut Self {
        self.tree.retain(|(path, _)| path != rel);
        self.tree.push((rel.to_string(), contents.to_string()));
        self
    }

    fn remove(&mut self, rel: &str) -> &mut Self {
        self.tree.retain(|(path, _)| path != rel);
        self
    }

    /// Commit everything in the working tree: it becomes the baseline.
    fn commit(&mut self) -> &mut Self {
        self.baseline = Some(self.tree.clone());
        self
    }

    /// Both snapshots: `(baseline, current)`.
    fn snapshots(&self) -> (Dossier, Dossier) {
        let mut interceptor = Interceptor::new().expect("interceptor");
        let baseline = match &self.baseline {
            Some(files) => survey(&baseline_label(&Some(HEAD.to_string())), files, &mut interceptor),
            None => Dossier::new(&baseline_label(&None)),
        };
        let current = survey("working tree", &self.tree, &mut interceptor);
        (baseline, current)
    }

    fn structure(&self) -> Structure {
        let (baseline, current) = self.snapshots();
        Structure::compile(&baseline, &current)
    }

    fn network(&self) -> Network {
        let (baseline, current) = self.snapshots();
        Network::compile(&baseline, &current)
    }
}

/// The short object id the baseline is committed under.
const HEAD: &str = "0000000";

/// Read the Python files of `pkg/` the way the collection does: in path
/// order, skipping the directories the walk skips, then wiring the calls.
fn survey(label: &str, files: &[(String, String)], interceptor: &mut Interceptor) -> Dossier {
    let mut files: Vec<&(String, String)> = files.iter().collect();
    files.sort();
    let mut dossier = Dossier::new(label);
    for (path, source) in files {
        let Some(rel) = path.strip_prefix("pkg/") else {
            continue;
        };
        if !rel.ends_with(".py") || in_skipped_dir(rel) {
            continue;
        }
        let module = module_of(rel, "pkg");
        absorb(&mut dossier, interceptor, source, &module, path);
    }
    dossier.wire();
    dossier
}

/// A one-file package, committed, with the working tree then replaced.
/// Returns the compiled views for the before/after pair.
#[allow(dead_code)]
fn diff_one_file(before: &str, after: &str) -> (Structure, Network) {
    let mut fx = Fixture::new();
    fx.write("pkg/__init__.py", "");
    fx.write("pkg/mod.py", before);
    fx.commit();
    fx.write("pkg/mod.py", after);
    let (baseline, current) = fx.snapshots();
    (Structure::compile(&baseline, &current), Network::compile(&baseline, &current))
}

/// Subject keys of a dossier, so tests can assert on exact module naming.
fn class_names(dossier: &Dossier) -> Vec<String> {
    dossier.subjects.keys()
}

fn target(pkg_rel: &str) -> Target {
    Target {
        repo_root: "/work/repo".to_string(),
        pkg_dir: if pkg_rel.is_empty() {
            "/work/repo".to_string()
        } else {
            format!("/work/repo/{pkg_rel}")
        },
        pkg_rel: pkg_rel.to_string(),
        pkg_name: "pkg".to_string(),
    }
}

fn app_on(fx: &Fixture, view: View) -> App {
    let (baseline, current) = fx.snapshots();
    let mut app = App::new(target("pkg"), Interceptor::new().expect("interceptor"), view, false);
    app.take_baseline(baseline, Some(HEAD.to_string()));
    app.take_current(current);
    app.recompile(0);
    app
}

// ------------------------------------------------------------- locating

#[test]
fn a_single_candidate_is_the_package_and_none_or_several_are_refused() {
    assert!(matches!(pick_package(vec!["pkg".to_string()]), Ok(p) if p == "pkg"));
    assert!(matches!(pick_package(vec![]), Err(PackageSearch::Missing)));
    match pick_package(vec!["alpha".to_string(), "beta".to_string()]) {
        Err(PackageSearch::Several(names)) => assert_eq!(names, ["alpha", "beta"]),
        _ => panic!("two candidates must be refused, naming both"),
    }
}

#[test]
fn hidden_and_cache_directories_are_never_package_candidates() {
    assert!(candidate_name("pkg"));
    assert!(!candidate_name(".venv"));
    assert!(!candidate_name("__pycache__"));
    assert!(candidate_name("node_modules"), "only the walk skips node_modules");
}

#[test]
fn package_and_repository_paths_convert_both_ways() {
    let nested = target("src/pkg");
    assert_eq!(nested.package_path("src/pkg/core.py"), "core.py");
    assert_eq!(nested.package_path("elsewhere/core.py"), "elsewhere/core.py");
    assert_eq!(nested.repo_path("core.py"), "src/pkg/core.py");
    let root = target("");
    assert_eq!(root.package_path("mod.py"), "mod.py", "the repository is the package");
    assert_eq!(root.repo_path("mod.py"), "mod.py");
}

#[test]
fn head_id_is_the_trimmed_output_or_none_when_there_is_none() {
    assert_eq!(head_from("ca2f2b2\n"), Some("ca2f2b2".to_string()));
    assert_eq!(head_from("  \n"), None);
    assert_eq!(head_from(""), None);
    assert_eq!(baseline_label(&Some("ca2f2b2".to_string())), "HEAD @ ca2f2b2");
    assert_eq!(baseline_label(&None), "HEAD (unborn)");
}

#[test]
fn head_id_trims_unicode_whitespace_as_well() {
    assert_eq!(head_from("\u{a0}ca2f2b2\u{3000}\u{2028}"), Some("ca2f2b2".to_string()));
    assert_eq!(head_from("\u{85}\u{2003}\u{b}"), None);
    assert_eq!(head_from("ca2f\u{2009}2b2"), Some("ca2f\u{2009}2b2".to_string()));
}

#[test]
fn a_listing_yields_only_its_python_paths_in_order() {
    assert_eq!(
        python_paths("pkg/__init__.py\0pkg/notes.txt\0pkg/sub/deep.py\0"),
        ["pkg/__init__.py", "pkg/sub/deep.py"]
    );
    assert!(python_paths("").is_empty());
}

#[test]
fn skipped_directories_are_caches_and_dot_directories_but_never_the_file_itself() {
    assert!(skipped_dir("__pycache__") && skipped_dir("node_modules") && skipped_dir(".git"));
    assert!(!skipped_dir("sub"));
    assert!(in_skipped_dir("__pycache__/real.py"));
    assert!(in_skipped_dir("sub/.hidden/secret.py"));
    assert!(!in_skipped_dir(".hidden.py"), "the file name itself is exempt");
    assert!(!in_skipped_dir("sub/deep.py"));
}

// -------------------------------------------------------------- module naming

#[test]
fn module_of_drops_the_extension_and_init() {
    assert_eq!(module_of("__init__.py", "pkg"), "pkg");
    assert_eq!(module_of("mod.py", "pkg"), "pkg.mod");
    assert_eq!(module_of("sub/__init__.py", "pkg"), "pkg.sub");
    assert_eq!(module_of("sub/deep.py", "pkg"), "pkg.sub.deep");
}

#[test]
fn module_names_follow_the_path_below_the_package_root() {
    let mut fx = Fixture::new();
    fx.write("pkg/__init__.py", "class Root: ...\n");
    fx.write("pkg/mod.py", "class Flat: ...\n");
    fx.write("pkg/sub/__init__.py", "class Nested: ...\n");
    fx.write("pkg/sub/deep.py", "class Deep: ...\n");
    fx.commit();

    let (baseline, current) = fx.snapshots();
    let expected = vec![
        "pkg.Root".to_string(),          // pkg/__init__.py    -> pkg
        "pkg.mod.Flat".to_string(),      // pkg/mod.py         -> pkg.mod
        "pkg.sub.Nested".to_string(),    // pkg/sub/__init__.py -> pkg.sub
        "pkg.sub.deep.Deep".to_string(), // pkg/sub/deep.py    -> pkg.sub.deep
    ];
    assert_eq!(class_names(&current), expected);
    assert_eq!(
        class_names(&baseline),
        expected,
        "git-side paths name modules the same way as disk-side ones"
    );
}

// ------------------------------------------------------------ the two sources

#[test]
fn survey_baseline_reads_committed_content_rather_than_disk() {
    let mut fx = Fixture::new();
    fx.write("pkg/__init__.py", "");
    fx.write("pkg/mod.py", "class Alpha:\n    def a(self): ...\n");
    fx.commit();
    fx.write("pkg/mod.py", "class Beta:\n    def b(self): ...\n");

    let (baseline, current) = fx.snapshots();

    assert_eq!(
        class_names(&baseline),
        vec!["pkg.mod.Alpha".to_string()],
        "the baseline is the blob at HEAD, not the file on disk"
    );
    assert_eq!(class_names(&current), vec!["pkg.mod.Beta".to_string()]);
    assert_eq!(baseline.files, 2);
    assert_eq!(current.files, 2);
    assert_eq!(
        baseline.label,
        format!("HEAD @ {HEAD}"),
        "the baseline is labelled with the commit it came from"
    );
    assert_eq!(current.label, "working tree");
}

#[test]
fn unborn_head_yields_an_empty_baseline_and_no_error() {
    let mut fx = Fixture::new();
    fx.write("pkg/__init__.py", "");
    fx.write("pkg/mod.py", "class Alpha: ...\n");
    // Deliberately no commit: the branch has no HEAD yet.

    let (baseline, current) = fx.snapshots();

    assert_eq!(baseline.label, "HEAD (unborn)");
    assert_eq!(baseline.files, 0);
    assert_eq!(baseline.subjects.len(), 0);
    assert_eq!(baseline.operations.len(), 0);
    assert_eq!(
        class_names(&current),
        vec!["pkg.mod.Alpha".to_string()],
        "the working tree is still readable with nothing committed"
    );
}

#[test]
fn a_file_deleted_from_the_working_tree_burns_its_classes() {
    let mut fx = Fixture::new();
    fx.write("pkg/__init__.py", "");
    fx.write("pkg/kept.py", "class Kept: ...\n");
    fx.write("pkg/gone.py", "class Ghost:\n    def haunt(self): ...\n");
    fx.commit();
    fx.remove("pkg/gone.py");

    let (baseline, current) = fx.snapshots();
    assert!(
        baseline.subjects.contains_key("pkg.gone.Ghost"),
        "the deleted file is still committed, so it is still at baseline"
    );
    assert!(!current.subjects.contains_key("pkg.gone.Ghost"));
    assert_eq!(baseline.files, 3);
    assert_eq!(current.files, 2);

    let structure = fx.structure();
    let ghost = structure
        .entries
        .get("pkg.gone.Ghost")
        .expect("a burned class still has an entry");
    assert_eq!(ghost.status, Status::Burned);
    assert_eq!(ghost.subject.module, "pkg.gone");
    assert_eq!(
        structure.entries.get("pkg.kept.Kept").map(|e| e.status),
        Some(Status::Nominal),
        "the untouched file is unaffected by the deletion"
    );
    assert_eq!(structure.counts.of(Status::Burned), 1);
}

#[test]
fn pycache_and_dot_directories_are_skipped_by_the_working_tree_walk() {
    let mut fx = Fixture::new();
    fx.write("pkg/__init__.py", "");
    fx.write("pkg/real.py", "class Real: ...\n");
    fx.commit();
    fx.write("pkg/__pycache__/real.py", "class Cached: ...\n");
    fx.write("pkg/sub/__pycache__/stale.py", "class Stale: ...\n");
    fx.write("pkg/.hidden/secret.py", "class Secret: ...\n");
    fx.write("pkg/.venv/lib/vendored.py", "class Vendored: ...\n");

    let (_, current) = fx.snapshots();

    assert_eq!(
        class_names(&current),
        vec!["pkg.real.Real".to_string()],
        "caches and dot-directories are not source"
    );
    assert_eq!(
        current.files, 2,
        "only pkg/__init__.py and pkg/real.py are read"
    );
}

#[test]
fn the_baseline_skips_the_same_directories_as_the_working_tree() {
    let mut fx = Fixture::new();
    fx.write("pkg/__init__.py", "");
    fx.write("pkg/real.py", "class Real: ...\n");
    // Jupyter checkpoints and caches do occasionally get committed.
    fx.write(
        "pkg/.ipynb_checkpoints/real-checkpoint.py",
        "class Real: ...\n",
    );
    fx.write("pkg/__pycache__/real.py", "class Cached: ...\n");
    fx.commit();

    let (baseline, current) = fx.snapshots();

    assert_eq!(
        class_names(&baseline),
        class_names(&current),
        "nothing changed on disk, so the two snapshots must agree"
    );
    assert_eq!(
        baseline.files, 2,
        "caches and dot-directories are not source"
    );

    let structure = fx.structure();
    let burned: Vec<String> = structure
        .entries
        .keys()
        .into_iter()
        .filter(|k| structure.entries.get(k).map(|e| e.status) == Some(Status::Burned))
        .collect();
    assert!(
        burned.is_empty(),
        "an unmodified tree cannot have burned classes, got {burned:?}"
    );
}

// -------------------------------------------------------------------- reports

/// A package with one changed class and one changed call, so both sections of
/// the report have something to say.
fn reporting_fixture() -> Fixture {
    let mut fx = Fixture::new();
    fx.write("pkg/__init__.py", "");
    fx.write(
        "pkg/core.py",
        "class Channel:\n    def open(self): ...\n\n\ndef transmit():\n    pass\n",
    );
    fx.commit();
    fx.write(
        "pkg/core.py",
        "class Channel:\n    def open(self): ...\n\n\nclass Secure(Channel):\n    def seal(self): ...\n\n\ndef transmit():\n    encode()\n\n\ndef encode():\n    pass\n",
    );
    fx
}

#[test]
fn report_without_a_filter_contains_both_views() {
    let fx = reporting_fixture();
    let app = app_on(&fx, View::Structure);

    let text = report::render(&app, None);

    assert!(text.contains("INHERITANCE STRUCTURE"), "got:\n{text}");
    assert!(text.contains("CALL TRAFFIC"), "got:\n{text}");
    assert!(text.contains("SITREP · structure ·"), "got:\n{text}");
    assert!(text.contains("SITREP · traffic ·"), "got:\n{text}");
    assert!(
        text.ends_with('\n'),
        "every line, including the last, is terminated"
    );
}

#[test]
fn report_restricted_to_structure_omits_the_traffic_view() {
    let fx = reporting_fixture();
    let app = app_on(&fx, View::Network);

    let text = report::render(&app, Some(View::Structure));

    assert!(text.contains("INHERITANCE STRUCTURE"), "got:\n{text}");
    assert!(text.contains("SITREP · structure ·"), "got:\n{text}");
    assert!(
        !text.contains("CALL TRAFFIC"),
        "the filter, not app.view, decides what is rendered; got:\n{text}"
    );
    assert!(!text.contains("SITREP · traffic ·"), "got:\n{text}");
}

#[test]
fn report_restricted_to_network_omits_the_structure_view() {
    let fx = reporting_fixture();
    let app = app_on(&fx, View::Structure);

    let text = report::render(&app, Some(View::Network));

    assert!(text.contains("CALL TRAFFIC"), "got:\n{text}");
    assert!(text.contains("SITREP · traffic ·"), "got:\n{text}");
    assert!(
        !text.contains("INHERITANCE STRUCTURE"),
        "the filter, not app.view, decides what is rendered; got:\n{text}"
    );
    assert!(!text.contains("SITREP · structure ·"), "got:\n{text}");
}

#[test]
fn report_header_names_the_target_and_both_snapshots() {
    let fx = reporting_fixture();
    let app = app_on(&fx, View::Structure);

    let text = report::render(&app, Some(View::Structure));
    let mut lines = text.lines();

    assert_eq!(lines.next(), Some("WATCH FLOOR · target pkg (pkg/)"));
    let head = HEAD;
    let provenance = lines.next().expect("second line");
    assert!(
        provenance.starts_with(&format!(
            "  baseline HEAD @ {head} (2 files)   current working tree (2 files)   "
        )) && provenance.ends_with("ms"),
        "got: {provenance}"
    );
}

#[test]
fn report_structure_section_counts_and_lists_the_new_class() {
    let fx = reporting_fixture();
    let app = app_on(&fx, View::Structure);

    let text = report::render(&app, Some(View::Structure));

    assert!(
        text.contains("INHERITANCE STRUCTURE  + 1 ACTIVATED  - 0 BURNED  ~ 0 REALIGNED  → 0 RELOCATED  * 0 AMENDED  · 2 classes"),
        "got:\n{text}"
    );
    assert!(
        text.lines().any(|l| l.contains("+ Secure")
            && l.contains("pkg.core:5")
            && l.ends_with("ACTIVATED")),
        "the activated class is drawn under Channel with its location; got:\n{text}"
    );
    assert!(
        text.contains(" + ACTIVATED Secure  (pkg.core)"),
        "the sitrep feed reports it too; got:\n{text}"
    );
    assert!(
        text.contains("            inherits Channel"),
        "got:\n{text}"
    );
}

#[test]
fn report_traffic_section_reports_the_new_call() {
    let fx = reporting_fixture();
    let app = app_on(&fx, View::Structure);

    let text = report::render(&app, Some(View::Network));

    assert!(
        text.lines().any(|l| l.starts_with("CALL TRAFFIC  ")
            && l.contains("+ 2 ACTIVATED")
            && l.contains("~ 1 REROUTED")
            && l.contains("· 4 operations · 1 links (0 inferred) ·")),
        "got:\n{text}"
    );
    assert!(
        text.contains(" ~ REROUTED  transmit()  (pkg.core)"),
        "transmit gained a call, so it is rerouted; got:\n{text}"
    );
    assert!(text.contains("            +encode"), "got:\n{text}");
}

/// Read `files` (paths relative to the repository root) as the snapshot of
/// `target`'s package, the way the baseline is read out of a listing.
fn survey_target(target: &Target, label: &str, files: &[(&str, &str)]) -> Dossier {
    let mut interceptor = Interceptor::new().expect("interceptor");
    let mut dossier = Dossier::new(label);
    for (path, source) in files {
        let rel = target.package_path(path);
        if in_skipped_dir(&rel) {
            continue;
        }
        let module = module_of(&rel, &target.pkg_name);
        absorb(&mut dossier, &mut interceptor, source, &module, path);
    }
    dossier.wire();
    dossier
}

#[test]
fn a_repository_that_is_itself_the_package_still_has_a_baseline() {
    let files = [("__init__.py", ""), ("mod.py", "class Alpha: ...\n")];
    let mut target = target("");
    target.pkg_name = "repo".to_string();
    assert_eq!(target.pkg_rel, "", "the package is the repository root");

    let baseline = survey_target(&target, &baseline_label(&Some(HEAD.to_string())), &files);
    let current = survey_target(&target, "working tree", &files);

    assert_eq!(
        class_names(&current),
        vec![format!("{}.mod.Alpha", target.pkg_name)]
    );
    assert_eq!(
        class_names(&baseline),
        class_names(&current),
        "nothing has changed since the commit"
    );
}

#[test]
fn a_target_names_the_package_by_its_directory_and_places_it_in_the_repository() {
    let t = target_of("/repo".to_string(), "/repo/src/pkg".to_string()).expect("inside");
    assert_eq!(t.pkg_rel, "src/pkg");
    assert_eq!(t.pkg_name, "pkg");
    assert_eq!(t.repo_root, "/repo");
    assert_eq!(t.pkg_dir, "/repo/src/pkg");

    let at_root = target_of("/repo".to_string(), "/repo".to_string()).expect("the repository itself");
    assert_eq!(at_root.pkg_rel, "");
    assert_eq!(at_root.pkg_name, "repo");

    let under_slash = target_of("/".to_string(), "/pkg".to_string()).expect("under the filesystem root");
    assert_eq!(under_slash.pkg_rel, "pkg");

    assert_eq!(
        target_of("/repo".to_string(), "/repository/pkg".to_string()).err(),
        Some(TargetError::Outside),
        "a shared prefix is not a parent directory"
    );
    assert_eq!(target_of("/".to_string(), "/".to_string()).err(), Some(TargetError::Unnamed));
}

#[test]
fn package_search_messages_name_the_place_and_the_candidates() {
    let found = vec!["/work/alpha".to_string(), "/work/src/beta".to_string()];
    assert_eq!(
        several_message("/work", &found),
        "several packages under /work (alpha, beta) — name the one to watch"
    );
    assert_eq!(
        missing_message("/work"),
        "no Python package under /work (looked for __init__.py here, in ./*/ and in ./src/*/)"
    );
}

#[test]
fn a_burst_of_writes_settles_into_one_resync() {
    assert_eq!(SETTLE_MS, 150);
    assert_eq!(settle(None, 1000, false), (None, false), "nothing pending, nothing to do");
    assert_eq!(settle(None, 1000, true), (Some(1000), false), "a write starts the wait");
    assert_eq!(settle(Some(1000), 1100, true), (Some(1100), false), "another write restarts it");
    assert_eq!(settle(Some(1100), 1249, false), (Some(1100), false), "still settling");
    assert_eq!(settle(Some(1100), 1250, false), (None, true), "quiet for long enough: resync");
}
