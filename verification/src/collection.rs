//! Collection: the package under observation, and what is read off each of
//! the two channels we compare — the working tree, and the baseline held in
//! git HEAD. The reading itself (directories, git) is the front end's; the
//! rules for what to read and how to file it are here.

use vstd::prelude::*;

use crate::dossier::{Binding, Dossier, Operation, Subject};
use crate::intercept::{Interceptor, Sweep};
use crate::sitrep::names;
use crate::strmap::StrMap;
use crate::text::{
    spec_starts_with, dot, ends_with, joined, joined3, owned, spec_join, split_char, spec_split, strip_prefix, join,
};

verus! {

/// The package under observation, plus the repository it lives in.
pub struct Target {
    /// Repository root (the git toplevel).
    pub repo_root: String,
    /// Absolute path to the package directory.
    pub pkg_dir: String,
    /// Package directory relative to `repo_root`, with `/` separators.
    pub pkg_rel: String,
    /// Top-level module name, e.g. `mypkg`.
    pub pkg_name: String,
}

impl Clone for Target {
    fn clone(&self) -> (r: Self)
        ensures
            r.repo_root@ == self.repo_root@,
            r.pkg_dir@ == self.pkg_dir@,
            r.pkg_rel@ == self.pkg_rel@,
            r.pkg_name@ == self.pkg_name@,
    {
        Target {
            repo_root: self.repo_root.clone(),
            pkg_dir: self.pkg_dir.clone(),
            pkg_rel: self.pkg_rel.clone(),
            pkg_name: self.pkg_name.clone(),
        }
    }
}

/// A path relative to the package directory, given one relative to the
/// repository root.
pub open spec fn spec_package_path(pkg_rel: Seq<char>, repo_rel: Seq<char>) -> Seq<char> {
    let prefix = pkg_rel + seq!['/'];
    if pkg_rel.len() == 0 {
        repo_rel
    } else if prefix.len() <= repo_rel.len() && repo_rel.subrange(0, prefix.len() as int) == prefix {
        repo_rel.subrange(prefix.len() as int, repo_rel.len() as int)
    } else {
        repo_rel
    }
}

/// A path relative to the repository root, given one relative to the
/// package directory.
pub open spec fn spec_repo_path(pkg_rel: Seq<char>, path: Seq<char>) -> Seq<char> {
    if pkg_rel.len() == 0 {
        path
    } else {
        pkg_rel + seq!['/'] + path
    }
}

impl Target {
    pub fn package_path(&self, repo_rel: &str) -> (r: String)
        ensures
            r@ == spec_package_path(self.pkg_rel@, repo_rel@),
    {
        if self.pkg_rel.as_str().unicode_len() == 0 {
            return owned(repo_rel);
        }
        let prefix = joined(self.pkg_rel.as_str(), "/");
        proof {
            reveal_strlit("/");
            assert("/"@ =~= seq!['/']);
        }
        match strip_prefix(repo_rel, prefix.as_str()) {
            Some(rest) => {
                assert(repo_rel@.subrange(0, prefix@.len() as int) =~= prefix@);
                assert(repo_rel@.subrange(prefix@.len() as int, repo_rel@.len() as int) =~= rest@);
                rest
            },
            None => owned(repo_rel),
        }
    }

    pub fn repo_path(&self, path: &str) -> (r: String)
        ensures
            r@ == spec_repo_path(self.pkg_rel@, path@),
    {
        if self.pkg_rel.as_str().unicode_len() == 0 {
            owned(path)
        } else {
            let r = joined3(self.pkg_rel.as_str(), "/", path);
            proof {
                reveal_strlit("/");
                assert("/"@ =~= seq!['/']);
            }
            r
        }
    }
}

// ------------------------------------------------------------ the package --

/// The last `/`-separated segment of a path: its file name.
pub open spec fn spec_base_name(p: Seq<char>) -> Seq<char> {
    p.subrange(crate::text::after_last(p, '/', p.len() as int), p.len() as int)
}

/// The file name of a path, or an empty string when it ends in `/`.
pub fn base_name(p: &str) -> (r: String)
    ensures
        r@ == spec_base_name(p@),
{
    let cs = crate::text::chars_of(p);
    let start = crate::text::find_after_last(&cs, '/');
    proof {
        crate::text::lemma_after_last_bounds(cs@, '/', cs.len() as int);
    }
    crate::text::string_of_range(&cs, start, cs.len())
}

/// Where `dir` lies under `root`: what follows `root` and the `/` after it,
/// nothing when the two are the same, none when `dir` is not under `root`.
pub open spec fn spec_rel_path(root: Seq<char>, dir: Seq<char>) -> Option<Seq<char>> {
    if dir == root {
        Some(Seq::empty())
    } else if root.len() > 0 && root.last() == '/' && spec_starts_with(dir, root) {
        Some(dir.subrange(root.len() as int, dir.len() as int))
    } else if spec_starts_with(dir, root.push('/')) {
        Some(dir.subrange(root.len() as int + 1, dir.len() as int))
    } else {
        None
    }
}

/// `s` with every `\` turned into `/`.
pub open spec fn spec_slashed(s: Seq<char>) -> Seq<char> {
    s.map_values(|c: char| if c == '\\' { '/' } else { c })
}

/// Why a package directory cannot be watched.
#[derive(Debug, Clone, Copy, PartialEq, Eq)]
pub enum TargetError {
    /// The package directory is not inside the repository.
    Outside,
    /// The package directory has no name of its own.
    Unnamed,
}

/// The target for the package at `pkg_dir` in the repository at `repo_root`:
/// its path relative to the root with `/` separators, and its directory name
/// as the top-level module name.
pub fn target_of(repo_root: String, pkg_dir: String) -> (r: Result<Target, TargetError>)
    ensures
        match r {
            Ok(t) => {
                &&& spec_rel_path(repo_root@, pkg_dir@) matches Some(rel)
                &&& t.pkg_rel@ == spec_slashed(rel)
                &&& spec_base_name(pkg_dir@).len() > 0
                &&& t.pkg_name@ == spec_base_name(pkg_dir@)
                &&& t.repo_root@ == repo_root@
                &&& t.pkg_dir@ == pkg_dir@
            },
            Err(TargetError::Outside) => spec_rel_path(repo_root@, pkg_dir@) is None,
            Err(TargetError::Unnamed) => spec_rel_path(repo_root@, pkg_dir@) is Some && spec_base_name(pkg_dir@).len()
                == 0,
        },
{
    let rel = if crate::text::same(pkg_dir.as_str(), repo_root.as_str()) {
        String::new()
    } else {
        let cs = crate::text::chars_of(repo_root.as_str());
        let n = cs.len();
        let ends_slash = n > 0 && cs[n - 1] == '/';
        let with_slash = if ends_slash {
            owned(repo_root.as_str())
        } else {
            let mut w = owned(repo_root.as_str());
            w.push('/');
            w
        };
        match crate::text::strip_prefix(pkg_dir.as_str(), with_slash.as_str()) {
            Some(rest) => {
                proof {
                    assert(pkg_dir@.subrange(0, with_slash@.len() as int) =~= with_slash@);
                    assert(pkg_dir@.subrange(with_slash@.len() as int, pkg_dir@.len() as int) =~= rest@);
                    if ends_slash {
                        assert(repo_root@.last() == '/');
                    } else {
                        assert(with_slash@ =~= repo_root@.push('/'));
                    }
                }
                rest
            },
            None => {
                proof {
                    assert(cs@ == repo_root@);
                    if !ends_slash {
                        assert(with_slash@ =~= repo_root@.push('/'));
                    } else {
                        assert(with_slash@ == repo_root@);
                        let root = repo_root@;
                        let pushed = root.push('/');
                        if spec_starts_with(pkg_dir@, pushed) {
                            assert(pkg_dir@.subrange(0, root.len() as int) =~= pushed.subrange(0, root.len() as int));
                            assert(pushed.subrange(0, root.len() as int) =~= root);
                        }
                    }
                }
                return Err(TargetError::Outside);
            },
        }
    };
    let name = base_name(pkg_dir.as_str());
    if name.as_str().unicode_len() == 0 {
        return Err(TargetError::Unnamed);
    }
    let pkg_rel = slashed(rel.as_str());
    Ok(Target { repo_root, pkg_dir, pkg_rel, pkg_name: name })
}

/// `s` with every `\` turned into `/`.
fn slashed(s: &str) -> (r: String)
    ensures
        r@ == spec_slashed(s@),
{
    let cs = crate::text::chars_of(s);
    let mut out = String::new();
    let mut i: usize = 0;
    while i < cs.len()
        invariant
            cs@ == s@,
            i <= cs.len(),
            out@ == spec_slashed(s@.take(i as int)),
        decreases cs.len() - i,
    {
        let c = if cs[i] == '\\' { '/' } else { cs[i] };
        out.push(c);
        proof {
            assert(spec_slashed(s@.take(i + 1)) =~= spec_slashed(s@.take(i as int)).push(c));
        }
        i = i + 1;
    }
    assert(s@.take(cs.len() as int) =~= s@);
    out
}

/// The file names of the paths found, those that have one, in order.
pub open spec fn found_names(found: Seq<Seq<char>>) -> Seq<Seq<char>>
    decreases found.len(),
{
    if found.len() == 0 {
        Seq::empty()
    } else {
        let rest = found_names(found.drop_last());
        if spec_base_name(found.last()).len() > 0 {
            rest.push(spec_base_name(found.last()))
        } else {
            rest
        }
    }
}

/// What the operator is told when several packages sit under `path`.
pub open spec fn spec_several_message(path: Seq<char>, found: Seq<Seq<char>>) -> Seq<char> {
    "several packages under "@ + path + " ("@ + spec_join(found_names(found), ", "@) + ") — name the one to watch"@
}

pub fn several_message(path: &str, found: &Vec<String>) -> (r: String)
    ensures
        r@ == spec_several_message(path@, found@.map_values(|s: String| s@)),
{
    let ghost fv = found@.map_values(|s: String| s@);
    let mut names: Vec<String> = Vec::new();
    let mut i: usize = 0;
    while i < found.len()
        invariant
            fv == found@.map_values(|s: String| s@),
            i <= found.len(),
            names@.map_values(|s: String| s@) == found_names(fv.take(i as int)),
        decreases found.len() - i,
    {
        let name = base_name(found[i].as_str());
        let ghost before = names@;
        let ghost nv = name@;
        proof {
            assert(fv.take(i + 1).drop_last() =~= fv.take(i as int));
            assert(fv.take(i + 1).last() == found@[i as int]@);
        }
        if name.as_str().unicode_len() > 0 {
            names.push(name);
            proof {
                assert(names@.map_values(|s: String| s@) =~= before.map_values(|s: String| s@).push(nv));
            }
        }
        i = i + 1;
    }
    proof {
        assert(fv.take(found.len() as int) =~= fv);
    }
    let listed = crate::text::join(&names, ", ");
    let mut r = owned("several packages under ");
    r.append(path);
    r.append(" (");
    r.append(listed.as_str());
    r.append(") — name the one to watch");
    proof {
        reveal_strlit(", ");
    }
    r
}

/// What the operator is told when no package sits under `path`.
pub open spec fn spec_missing_message(path: Seq<char>) -> Seq<char> {
    "no Python package under "@ + path + " (looked for __init__.py here, in ./*/ and in ./src/*/)"@
}

pub fn missing_message(path: &str) -> (r: String)
    ensures
        r@ == spec_missing_message(path@),
{
    let mut r = owned("no Python package under ");
    r.append(path);
    r.append(" (looked for __init__.py here, in ./*/ and in ./src/*/)");
    r
}

/// Directories the walk refuses to descend into.
pub open spec fn spec_skipped_dir(name: Seq<char>) -> bool {
    (name.len() > 0 && name[0] == '.') || name == "__pycache__"@ || name == "node_modules"@
}

pub fn skipped_dir(name: &str) -> (r: bool)
    ensures
        r == spec_skipped_dir(name@),
{
    let n = name.unicode_len();
    (n > 0 && name.get_char(0) == '.') || crate::text::same(name, "__pycache__") || crate::text::same(
        name,
        "node_modules",
    )
}

/// Whether any directory component of a package-relative path is one the
/// working-tree walk refuses to descend into. The file name itself is exempt.
pub open spec fn spec_in_skipped_dir(rel: Seq<char>) -> bool {
    let parts = spec_split(rel, '/');
    exists|i: int| 0 <= i < parts.len() - 1 && spec_skipped_dir(#[trigger] parts[i])
}

pub fn in_skipped_dir(rel: &str) -> (r: bool)
    ensures
        r == spec_in_skipped_dir(rel@),
{
    let parts = split_char(rel, '/');
    let ghost ps = names(parts@);
    let n = parts.len();
    let last = if n > 0 {
        n - 1
    } else {
        0
    };
    let mut i: usize = 0;
    while i < last
        invariant
            ps == names(parts@),
            ps == spec_split(rel@, '/'),
            n == parts.len(),
            last == (if n > 0 { n - 1 } else { 0 }),
            i <= last,
            forall|j: int| 0 <= j < i ==> !spec_skipped_dir(#[trigger] ps[j]),
        decreases n - i,
    {
        if skipped_dir(parts[i].as_str()) {
            assert(spec_skipped_dir(ps[i as int]));
            return true;
        }
        i = i + 1;
    }
    false
}

/// One segment of a path as it appears in a module path: without `.py`.
pub open spec fn module_part(p: Seq<char>) -> Seq<char> {
    if 3 <= p.len() && p.subrange(p.len() - 3, p.len() as int) == ".py"@ {
        p.subrange(0, p.len() - 3)
    } else {
        p
    }
}

/// The module path segments a list of path segments contributes: package
/// initialisers and empty segments contribute nothing.
pub open spec fn module_parts(ps: Seq<Seq<char>>) -> Seq<Seq<char>>
    decreases ps.len(),
{
    if ps.len() == 0 {
        Seq::empty()
    } else {
        let rest = module_parts(ps.drop_last());
        let q = module_part(ps.last());
        if q == "__init__"@ || q.len() == 0 {
            rest
        } else {
            rest.push(q)
        }
    }
}

/// A path within the package becomes a dotted module path:
/// `sub/mod.py` is `pkg.sub.mod`, `sub/__init__.py` is `pkg.sub`.
pub open spec fn spec_module_of(rel: Seq<char>, pkg_name: Seq<char>) -> Seq<char> {
    spec_join(seq![pkg_name] + module_parts(spec_split(rel, '/')), "."@)
}

pub fn module_of(rel: &str, pkg_name: &str) -> (r: String)
    ensures
        r@ == spec_module_of(rel@, pkg_name@),
{
    let parts = split_char(rel, '/');
    let ghost ps = names(parts@);
    let mut out: Vec<String> = Vec::new();
    out.push(owned(pkg_name));
    let mut i: usize = 0;
    proof {
        reveal_strlit(".py");
        reveal_strlit("__init__");
        assert(ps.take(0) =~= Seq::<Seq<char>>::empty());
        assert(names(out@) =~= seq![pkg_name@] + module_parts(ps.take(0)));
    }
    while i < parts.len()
        invariant
            ps == names(parts@),
            i <= parts.len(),
            names(out@) == seq![pkg_name@] + module_parts(ps.take(i as int)),
        decreases parts.len() - i,
    {
        let p = parts[i].as_str();
        proof {
            reveal_strlit(".py");
            reveal_strlit("__init__");
            assert(p@ == ps[i as int]);
        }
        let part = if ends_with(p, ".py") {
            let n = p.unicode_len();
            p.substring_char(0, n - 3).to_string()
        } else {
            owned(p)
        };
        proof {
            assert(ps.take(i + 1).drop_last() =~= ps.take(i as int));
            assert(ps.take(i + 1).last() == ps[i as int]);
            assert(part@ == module_part(ps[i as int]));
        }
        let ghost before = names(out@);
        if !(crate::text::same(part.as_str(), "__init__") || part.as_str().unicode_len() == 0) {
            out.push(part);
            assert(names(out@) =~= before.push(part@));
        }
        i = i + 1;
    }
    assert(ps.take(i as int) =~= ps);
    let r = join(&out, ".");
    r
}

/// The label of a baseline read at HEAD `head`, or at an unborn HEAD.
pub open spec fn spec_baseline_label(head: Option<Seq<char>>) -> Seq<char> {
    match head {
        Some(h) => "HEAD @ "@ + h,
        None => "HEAD (unborn)"@,
    }
}

pub fn baseline_label(head: &Option<String>) -> (r: String)
    ensures
        r@ == spec_baseline_label(crate::dossier::opt_view(*head)),
{
    match head {
        Some(h) => joined("HEAD @ ", h.as_str()),
        None => owned("HEAD (unborn)"),
    }
}

// ---------------------------------------------------------------- filing --

/// The last class in `ss` filed under `k`.
pub open spec fn last_subject(ss: Seq<Subject>, k: Seq<char>) -> Option<Subject>
    decreases ss.len(),
{
    if ss.len() == 0 {
        None
    } else if ss.last().qualname@ == k {
        Some(ss.last())
    } else {
        last_subject(ss.drop_last(), k)
    }
}

/// The last operation in `os` filed under `k`.
pub open spec fn last_operation(os: Seq<Operation>, k: Seq<char>) -> Option<Operation>
    decreases os.len(),
{
    if os.len() == 0 {
        None
    } else if os.last().callsign@ == k {
        Some(os.last())
    } else {
        last_operation(os.drop_last(), k)
    }
}

/// What the last binding of `l` in `bs` points at.
pub open spec fn last_binding(bs: Seq<Binding>, l: Seq<char>) -> Option<Seq<char>>
    decreases bs.len(),
{
    if bs.len() == 0 {
        None
    } else if bs.last().local@ == l {
        Some(bs.last().target@)
    } else {
        last_binding(bs.drop_last(), l)
    }
}

/// `after` is `before` with the classes of `ss` filed in order, a later one
/// replacing an earlier one of the same name.
pub open spec fn subjects_filed(before: StrMap<Subject>, after: StrMap<Subject>, ss: Seq<Subject>) -> bool {
    &&& forall|k: Seq<char>| #[trigger] after.has(k) <==> (before.has(k) || last_subject(ss, k) is Some)
    &&& forall|k: Seq<char>| #[trigger] after.has(k) ==> after.value_of(k) == match last_subject(ss, k) {
        Some(v) => v,
        None => before.value_of(k),
    }
}

pub open spec fn operations_filed(before: StrMap<Operation>, after: StrMap<Operation>, os: Seq<Operation>) -> bool {
    &&& forall|k: Seq<char>| #[trigger] after.has(k) <==> (before.has(k) || last_operation(os, k) is Some)
    &&& forall|k: Seq<char>| #[trigger] after.has(k) ==> after.value_of(k) == match last_operation(os, k) {
        Some(v) => v,
        None => before.value_of(k),
    }
}

/// `after` holds the bindings of `bs` under `module`, on top of what `before`
/// held; other modules are untouched.
pub open spec fn imports_filed(
    before: StrMap<StrMap<String>>,
    after: StrMap<StrMap<String>>,
    module: Seq<char>,
    bs: Seq<Binding>,
) -> bool {
    &&& forall|m: Seq<char>| m != module ==> (#[trigger] after.has(m) <==> before.has(m))
    &&& forall|m: Seq<char>| m != module && before.has(m) ==> #[trigger] after.value_of(m) == before.value_of(m)
    &&& after.has(module) <==> (before.has(module) || bs.len() > 0)
    &&& bs.len() == 0 && before.has(module) ==> after.value_of(module) == before.value_of(module)
    &&& bs.len() > 0 ==> forall|l: Seq<char>| #[trigger] after.value_of(module).has(l) <==> ((before.has(module)
        && before.value_of(module).has(l)) || last_binding(bs, l) is Some)
    &&& bs.len() > 0 ==> forall|l: Seq<char>| #[trigger] after.value_of(module).has(l) ==> after.value_of(
        module,
    ).value_of(l)@ == match last_binding(bs, l) {
        Some(t) => t,
        None => before.value_of(module).value_of(l)@,
    }
}

/// `after` is `before` with one swept file filed into it.
pub open spec fn absorbed(before: Dossier, after: Dossier, sweep: Sweep, module: Seq<char>) -> bool {
    &&& after.label == before.label
    &&& after.files == before.files + 1
    &&& subjects_filed(before.subjects, after.subjects, sweep.subjects@)
    &&& operations_filed(before.operations, after.operations, sweep.operations@)
    &&& imports_filed(before.imports, after.imports, module, sweep.imports@)
}

/// File everything one source file yielded: its classes, its operations,
/// and the names it imported.
pub fn absorb_sweep(dossier: &mut Dossier, sweep: Sweep, module: &str)
    requires
        old(dossier).files < usize::MAX,
    ensures
        absorbed(*old(dossier), *final(dossier), sweep, module@),
{
    let ghost start = *dossier;
    let ghost sw = sweep;
    dossier.files = dossier.files + 1;
    let Sweep { subjects, operations, imports } = sweep;
    let ghost ss = subjects@;
    let mut subjects = subjects;
    let n = subjects.len();
    let mut i: usize = 0;
    assert(ss.take(0) =~= Seq::<Subject>::empty());
    assert(subjects@ =~= ss.skip(0));
    while i < n
        invariant
            n == ss.len(),
            subjects@ == ss.skip(i as int),
            i <= n,
            dossier.label == start.label,
            dossier.files == start.files + 1,
            dossier.operations == start.operations,
            dossier.imports == start.imports,
            subjects_filed(start.subjects, dossier.subjects, ss.take(i as int)),
        decreases n - i,
    {
        let s = subjects.remove(0);
        proof {
            assert(s == ss[i as int]);
            assert(subjects@ =~= ss.skip(i + 1));
            assert(ss.take(i + 1).drop_last() =~= ss.take(i as int));
            assert(ss.take(i + 1).last() == s);
        }
        dossier.insert_subject(s);
        i = i + 1;
    }
    assert(ss.take(n as int) =~= ss);
    let ghost os = operations@;
    let mut operations = operations;
    let m = operations.len();
    let mut j: usize = 0;
    assert(os.take(0) =~= Seq::<Operation>::empty());
    assert(operations@ =~= os.skip(0));
    while j < m
        invariant
            m == os.len(),
            operations@ == os.skip(j as int),
            j <= m,
            dossier.label == start.label,
            dossier.files == start.files + 1,
            subjects_filed(start.subjects, dossier.subjects, ss),
            dossier.imports == start.imports,
            operations_filed(start.operations, dossier.operations, os.take(j as int)),
        decreases m - j,
    {
        let o = operations.remove(0);
        proof {
            assert(o == os[j as int]);
            assert(operations@ =~= os.skip(j + 1));
            assert(os.take(j + 1).drop_last() =~= os.take(j as int));
            assert(os.take(j + 1).last() == o);
        }
        dossier.insert_operation(o);
        j = j + 1;
    }
    assert(os.take(m as int) =~= os);
    let ghost bs = imports@;
    let mut imports = imports;
    let q = imports.len();
    let mut k: usize = 0;
    assert(bs.take(0) =~= Seq::<Binding>::empty());
    assert(imports@ =~= bs.skip(0));
    while k < q
        invariant
            q == bs.len(),
            imports@ == bs.skip(k as int),
            k <= q,
            dossier.label == start.label,
            dossier.files == start.files + 1,
            subjects_filed(start.subjects, dossier.subjects, ss),
            operations_filed(start.operations, dossier.operations, os),
            imports_filed(start.imports, dossier.imports, module@, bs.take(k as int)),
        decreases q - k,
    {
        let b = imports.remove(0);
        proof {
            assert(b == bs[k as int]);
            assert(imports@ =~= bs.skip(k + 1));
            assert(bs.take(k + 1).drop_last() =~= bs.take(k as int));
            assert(bs.take(k + 1).last() == b);
        }
        let ghost pre = dossier.imports;
        let ghost bv = b;
        dossier.insert_binding(module, b);
        proof {
            let post = dossier.imports;
            let bk = bs.take(k as int);
            let bk1 = bs.take(k + 1);
            assert(bk1.len() > 0);
            assert forall|l: Seq<char>| #[trigger] post.value_of(module@).has(l) <==> ((start.imports.has(module@)
                && start.imports.value_of(module@).has(l)) || last_binding(bk1, l) is Some) by {
                if l != bv.local@ {
                    assert(last_binding(bk1, l) == last_binding(bk, l));
                    if k == 0 {
                        assert(last_binding(bk, l) is None);
                    }
                }
            }
            assert forall|l: Seq<char>| #[trigger] post.value_of(module@).has(l) implies post.value_of(module@).value_of(l)@
                == match last_binding(bk1, l) {
                Some(t) => t,
                None => start.imports.value_of(module@).value_of(l)@,
            } by {
                if l != bv.local@ {
                    assert(last_binding(bk1, l) == last_binding(bk, l));
                    if k == 0 {
                        assert(last_binding(bk, l) is None);
                    }
                }
            }
        }
        k = k + 1;
    }
    assert(bs.take(q as int) =~= bs);
}

/// Sweep one source file and file what it yields. `shown` is the path the
/// definitions are stamped with, relative to the repository root.
pub fn absorb(dossier: &mut Dossier, interceptor: &mut Interceptor, source: &str, module: &str, shown: &str)
    requires
        old(dossier).files < usize::MAX,
    ensures
        exists|sweep: Sweep| #[trigger] crate::intercept::sweep_of(sweep@, source@, module@, shown@) && absorbed(
            *old(dossier),
            *final(dossier),
            sweep,
            module@,
        ),
{
    let sweep = interceptor.sweep(source, module, shown);
    let ghost sw = sweep;
    absorb_sweep(dossier, sweep, module);
    assert(crate::intercept::sweep_of(sw@, source@, module@, shown@));
}

// ---------------------------------------------------------------- listing --

/// The Python files of a NUL-separated listing, as `git ls-tree -z` prints it.
pub open spec fn spec_python_paths(parts: Seq<Seq<char>>) -> Seq<Seq<char>>
    decreases parts.len(),
{
    if parts.len() == 0 {
        Seq::empty()
    } else {
        let rest = spec_python_paths(parts.drop_last());
        let p = parts.last();
        if 3 <= p.len() && p.subrange(p.len() - 3, p.len() as int) == ".py"@ {
            rest.push(p)
        } else {
            rest
        }
    }
}

pub fn python_paths(listing: &str) -> (r: Vec<String>)
    ensures
        names(r@) == spec_python_paths(spec_split(listing@, '\0')),
{
    let parts = split_char(listing, '\0');
    let ghost ps = names(parts@);
    let mut r: Vec<String> = Vec::new();
    let mut i: usize = 0;
    assert(ps.take(0) =~= Seq::<Seq<char>>::empty());
    while i < parts.len()
        invariant
            ps == names(parts@),
            i <= parts.len(),
            names(r@) == spec_python_paths(ps.take(i as int)),
        decreases parts.len() - i,
    {
        proof {
            reveal_strlit(".py");
            assert(ps.take(i + 1).drop_last() =~= ps.take(i as int));
            assert(ps.take(i + 1).last() == parts@[i as int]@);
        }
        let ghost before = names(r@);
        if ends_with(parts[i].as_str(), ".py") {
            r.push(parts[i].clone());
            assert(names(r@) =~= before.push(parts@[i as int]@));
        }
        i = i + 1;
    }
    assert(ps.take(i as int) =~= ps);
    r
}

/// Whitespace as `str::trim` removes it: the characters with the Unicode
/// `White_Space` property.
pub open spec fn spec_blank(c: char) -> bool {
    let u = c as u32;
    ||| 0x09 <= u <= 0x0d
    ||| u == 0x20
    ||| u == 0x85
    ||| u == 0xa0
    ||| u == 0x1680
    ||| 0x2000 <= u <= 0x200a
    ||| u == 0x2028
    ||| u == 0x2029
    ||| u == 0x202f
    ||| u == 0x205f
    ||| u == 0x3000
}

fn is_blank(c: char) -> (r: bool)
    ensures
        r == spec_blank(c),
{
    let u = c as u32;
    (0x09 <= u && u <= 0x0d) || u == 0x20 || u == 0x85 || u == 0xa0 || u == 0x1680 || (0x2000 <= u && u <= 0x200a)
        || u == 0x2028 || u == 0x2029 || u == 0x202f || u == 0x205f || u == 0x3000
}

/// The first non-blank position of `s`, from `i` on.
pub open spec fn first_solid(s: Seq<char>, i: int) -> int
    decreases s.len() - i,
{
    if i >= s.len() || !spec_blank(s[i]) {
        i
    } else {
        first_solid(s, i + 1)
    }
}

/// One past the last non-blank position of `s` at or after `lo`, below `j`.
pub open spec fn last_solid(s: Seq<char>, lo: int, j: int) -> int
    decreases j - lo,
{
    if j <= lo || !spec_blank(s[j - 1]) {
        j
    } else {
        last_solid(s, lo, j - 1)
    }
}

/// `s` without blanks at either end.
pub open spec fn spec_trim(s: Seq<char>) -> Seq<char> {
    let lo = first_solid(s, 0);
    s.subrange(lo, last_solid(s, lo, s.len() as int))
}

proof fn lemma_first_solid(s: Seq<char>, i: int)
    requires
        0 <= i <= s.len(),
    ensures
        i <= first_solid(s, i) <= s.len(),
    decreases s.len() - i,
{
    if i < s.len() && spec_blank(s[i]) {
        lemma_first_solid(s, i + 1);
    }
}

proof fn lemma_last_solid(s: Seq<char>, lo: int, j: int)
    requires
        0 <= lo <= j <= s.len(),
    ensures
        lo <= last_solid(s, lo, j) <= j,
    decreases j - lo,
{
    if j > lo && spec_blank(s[j - 1]) {
        lemma_last_solid(s, lo, j - 1);
    }
}

/// The short object id git printed, or none when it printed nothing.
pub open spec fn spec_head(out: Seq<char>) -> Option<Seq<char>> {
    if spec_trim(out).len() == 0 {
        None
    } else {
        Some(spec_trim(out))
    }
}

pub fn head_from(out: &str) -> (r: Option<String>)
    ensures
        crate::dossier::opt_view(r) == spec_head(out@),
{
    let cs = crate::text::chars_of(out);
    let n = cs.len();
    let mut lo: usize = 0;
    while lo < n && is_blank(cs[lo])
        invariant
            cs@ == out@,
            n == cs.len(),
            lo <= n,
            first_solid(cs@, 0) == first_solid(cs@, lo as int),
        decreases n - lo,
    {
        lo = lo + 1;
    }
    let mut hi: usize = n;
    proof {
        lemma_first_solid(cs@, 0);
    }
    while hi > lo && is_blank(cs[hi - 1])
        invariant
            cs@ == out@,
            n == cs.len(),
            lo <= hi <= n,
            lo == first_solid(cs@, 0),
            last_solid(cs@, lo as int, n as int) == last_solid(cs@, lo as int, hi as int),
        decreases hi,
    {
        hi = hi - 1;
    }
    if hi == lo {
        None
    } else {
        Some(crate::text::string_of_range(&cs, lo, hi))
    }
}

/// How a search for the package came out when it did not find exactly one.
pub enum PackageSearch {
    /// No candidate at all.
    Missing,
    /// Several candidates, by directory name.
    Several(Vec<String>),
}

/// A directory entry that may hold the package: not hidden, not a cache.
pub open spec fn spec_candidate_name(name: Seq<char>) -> bool {
    !(name.len() > 0 && name[0] == '.') && name != "__pycache__"@
}

pub fn candidate_name(name: &str) -> (r: bool)
    ensures
        r == spec_candidate_name(name@),
{
    let n = name.unicode_len();
    !(n > 0 && name.get_char(0) == '.') && !crate::text::same(name, "__pycache__")
}

/// The one package among the candidates, or why there is not one.
pub fn pick_package(candidates: Vec<String>) -> (r: Result<String, PackageSearch>)
    ensures
        candidates.len() == 1 ==> (r matches Ok(p) && p@ == candidates@[0]@),
        candidates.len() == 0 ==> r matches Err(PackageSearch::Missing),
        candidates.len() > 1 ==> (r matches Err(PackageSearch::Several(names_found)) && names(names_found@) == names(
            candidates@,
        )),
{
    let mut candidates = candidates;
    if candidates.len() == 1 {
        Ok(candidates.remove(0))
    } else if candidates.len() == 0 {
        Err(PackageSearch::Missing)
    } else {
        Err(PackageSearch::Several(candidates))
    }
}

} // verus!
