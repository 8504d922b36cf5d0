//! Checks of a gathered project: identifiers, qualified names and references.
use crate::model::{BuildDoc, DeployDoc, Environment, FunctionDoc, Import, Step};
use crate::project::{
    has_build, has_build_exec, has_function, has_function_exec, Project, ProjectView,
};
use crate::text::{
    chars_eq_range, chars_of, has_single_slash, is_identifier, is_identifier_range,
    is_identifier_str, is_qualified_name, single_slash_at, slash_prefix, slash_suffix, split_qualified, step_crumb,
    step_crumb_exec, string_from_chars,
};
use crate::util::{ErrorView, LocView, Located, ORError, ORResult, YamlLocation};
use vstd::prelude::*;

verus! {

/// The first error that `f` finds among the items of `s`, in order.
pub open spec fn first_error<T>(s: Seq<T>, f: spec_fn(int, T) -> Option<ErrorView>) -> Option<
    ErrorView,
>
    decreases s.len(),
{
    if s.len() == 0 {
        None
    } else {
        match first_error(s.drop_last(), f) {
            Some(e) => Some(e),
            None => f(s.len() - 1, s.last()),
        }
    }
}

pub proof fn lemma_first_error_step<T>(s: Seq<T>, f: spec_fn(int, T) -> Option<ErrorView>, i: int)
    requires
        0 <= i < s.len(),
        first_error(s.take(i), f) is None,
    ensures
        first_error(s.take(i + 1), f) == f(i, s[i]),
{
    assert(s.take(i + 1).drop_last() =~= s.take(i));
}

pub proof fn lemma_first_error_prefix<T>(
    s: Seq<T>,
    f: spec_fn(int, T) -> Option<ErrorView>,
    k: int,
)
    requires
        0 <= k <= s.len(),
        first_error(s.take(k), f) is Some,
    ensures
        first_error(s, f) == first_error(s.take(k), f),
    decreases s.len() - k,
{
    if k < s.len() {
        assert(s.take(k + 1).drop_last() =~= s.take(k));
        lemma_first_error_prefix(s, f, k + 1);
    } else {
        assert(s.take(k) =~= s);
    }
}

pub proof fn lemma_first_error_all<T>(s: Seq<T>, f: spec_fn(int, T) -> Option<ErrorView>)
    ensures
        first_error(s.take(s.len() as int), f) == first_error(s, f),
{
    assert(s.take(s.len() as int) =~= s);
}

pub open spec fn has_import(p: ProjectView, name: Seq<char>) -> bool {
    exists|i: int| 0 <= i < p.imports.len() && (#[trigger] p.imports[i]).1.require@ == name
}

pub open spec fn with_crumb(loc: LocView, crumb: Seq<char>) -> LocView {
    LocView { path: loc.path.push(crumb), ..loc }
}

/// What is wrong with one step, if anything.
pub open spec fn step_error(p: ProjectView, loc: LocView, s: Step) -> Option<ErrorView> {
    match s {
        Step::Null => Some(ErrorView::GenericInvalid(loc)),
        Step::EnvironmentStep(e) => if !is_identifier(e.action@) {
            Some(ErrorView::InvalidCharacter(loc))
        } else {
            None
        },
        Step::InvokeFunctionStep(f) => if !is_identifier(f.invoke_fn@) {
            Some(ErrorView::InvalidCharacter(loc))
        } else if !has_function(p, f.invoke_fn@) {
            Some(ErrorView::ImportNotFound(loc, f.invoke_fn@))
        } else {
            None
        },
    }
}

/// The first bad step of a list, each located under its `step #i` crumb.
pub open spec fn steps_error(p: ProjectView, loc: LocView, steps: Seq<Step>) -> Option<ErrorView> {
    first_error(steps, step_rule(p, loc))
}

pub open spec fn step_rule(p: ProjectView, loc: LocView) -> spec_fn(int, Step) -> Option<
    ErrorView,
> {
    |i: int, s: Step| step_error(p, with_crumb(loc, step_crumb(i as nat)), s)
}

pub open spec fn dep_rule(p: ProjectView, loc: LocView) -> spec_fn(int, String) -> Option<
    ErrorView,
> {
    |i: int, d: String| build_ref_error(p, loc, d@)
}

pub open spec fn env_rule(p: ProjectView, loc: LocView) -> spec_fn(int, Environment) -> Option<
    ErrorView,
> {
    |i: int, e: Environment| env_error(p, loc, e)
}

pub open spec fn import_rule() -> spec_fn(int, (LocView, Import)) -> Option<ErrorView> {
    |i: int, x: (LocView, Import)| import_error(x.0, x.1)
}

pub open spec fn function_rule(p: ProjectView) -> spec_fn(int, (LocView, FunctionDoc)) -> Option<
    ErrorView,
> {
    |i: int, x: (LocView, FunctionDoc)| function_error(p, x.0, x.1)
}

pub open spec fn build_rule(p: ProjectView) -> spec_fn(int, (LocView, BuildDoc)) -> Option<
    ErrorView,
> {
    |i: int, x: (LocView, BuildDoc)| build_error(p, x.0, x.1)
}

pub open spec fn deploy_rule(p: ProjectView) -> spec_fn(int, (LocView, DeployDoc)) -> Option<
    ErrorView,
> {
    |i: int, x: (LocView, DeployDoc)| deploy_error(p, x.0, x.1)
}

/// A plugin requirement is an identifier, optionally behind one namespace.
pub open spec fn import_error(loc: LocView, i: Import) -> Option<ErrorView> {
    if is_identifier(i.require@) || is_qualified_name(i.require@) {
        None
    } else {
        Some(ErrorView::InvalidCharacter(loc))
    }
}

pub open spec fn function_error(p: ProjectView, loc: LocView, f: FunctionDoc) -> Option<ErrorView> {
    if !is_identifier(f.name@) {
        Some(ErrorView::InvalidCharacter(loc))
    } else {
        steps_error(p, loc, f.steps@)
    }
}

/// An environment block: `plugin/env_kind` with an imported plugin, and good steps.
/// Errors are located under the block's name.
pub open spec fn env_error(p: ProjectView, loc: LocView, e: Environment) -> Option<ErrorView> {
    let l = with_crumb(loc, e.name@);
    if !has_single_slash(e.name@) {
        Some(ErrorView::InvalidEnvironmentName(l))
    } else if !is_identifier(slash_prefix(e.name@)) || !is_identifier(slash_suffix(e.name@)) {
        Some(ErrorView::InvalidCharacter(l))
    } else if !has_import(p, slash_prefix(e.name@)) {
        Some(ErrorView::ImportNotFound(l, slash_prefix(e.name@)))
    } else {
        steps_error(p, l, e.steps@)
    }
}

pub open spec fn build_ref_error(p: ProjectView, loc: LocView, name: Seq<char>) -> Option<ErrorView> {
    if has_build(p, name) {
        None
    } else {
        Some(ErrorView::ImportNotFound(loc, name))
    }
}

pub open spec fn build_error(p: ProjectView, loc: LocView, b: BuildDoc) -> Option<ErrorView> {
    if !is_identifier(b.name@) {
        Some(ErrorView::InvalidCharacter(loc))
    } else if b.from is Some && !has_build(p, b.from->0@) {
        Some(ErrorView::ImportNotFound(loc, b.from->0@))
    } else if b.depends is Some && first_error(b.depends->0@, dep_rule(p, loc)) is Some {
        first_error(b.depends->0@, dep_rule(p, loc))
    } else {
        first_error(b.envs@, env_rule(p, loc))
    }
}

/// A deploy: identifiers, an existing artifact, and a target `plugin/provider` whose
/// plugin is imported.
pub open spec fn deploy_error(p: ProjectView, loc: LocView, d: DeployDoc) -> Option<ErrorView> {
    if !is_identifier(d.name@) || !is_identifier(d.artifact@) {
        Some(ErrorView::InvalidCharacter(loc))
    } else if !has_build(p, d.artifact@) {
        Some(ErrorView::ImportNotFound(loc, d.artifact@))
    } else if !has_single_slash(d.deploy_to@) {
        Some(ErrorView::GenericInvalid(loc))
    } else if !is_identifier(slash_prefix(d.deploy_to@)) || !is_identifier(
        slash_suffix(d.deploy_to@),
    ) {
        Some(ErrorView::InvalidCharacter(loc))
    } else if !has_import(p, slash_prefix(d.deploy_to@)) {
        Some(ErrorView::ImportNotFound(loc, slash_prefix(d.deploy_to@)))
    } else {
        None
    }
}

/// The first error of a project: imports, then functions, then builds, then deploys,
/// each in order.
pub open spec fn project_error(p: ProjectView) -> Option<ErrorView> {
    match first_error(p.imports, import_rule()) {
        Some(e) => Some(e),
        None => match first_error(p.functions, function_rule(p)) {
            Some(e) => Some(e),
            None => match first_error(p.builds, build_rule(p)) {
                Some(e) => Some(e),
                None => first_error(p.deploys, deploy_rule(p)),
            },
        },
    }
}

/// A project that passes every check.
pub open spec fn project_valid(p: ProjectView) -> bool {
    project_error(p) is None
}

} // verus!

verus! {

/// `r` is the outcome that the check `e` calls for.
pub open spec fn reports(r: ORResult<()>, e: Option<ErrorView>) -> bool {
    match e {
        None => r is Ok,
        Some(x) => r is Err && r->Err_0@ == x,
    }
}

pub fn validate_step(p: &Project, loc: &YamlLocation, s: &Step) -> (r: ORResult<()>)
    ensures
        reports(r, step_error(p@, loc@, *s)),
{
    match s {
        Step::Null => Err(ORError::GenericInvalid(loc.duplicate())),
        Step::EnvironmentStep(e) => {
            if !is_identifier_str(e.action.as_str()) {
                Err(ORError::InvalidCharacter(loc.duplicate()))
            } else {
                Ok(())
            }
        },
        Step::InvokeFunctionStep(f) => {
            if !is_identifier_str(f.invoke_fn.as_str()) {
                Err(ORError::InvalidCharacter(loc.duplicate()))
            } else if !has_function_exec(p, &f.invoke_fn) {
                Err(ORError::ImportNotFound(loc.duplicate(), f.invoke_fn.clone()))
            } else {
                Ok(())
            }
        },
    }
}

pub fn validate_steps(p: &Project, loc: &YamlLocation, steps: &Vec<Step>) -> (r: ORResult<()>)
    ensures
        reports(r, steps_error(p@, loc@, steps@)),
{
    let ghost f = step_rule(p@, loc@);
    let mut i: usize = 0;
    assert(steps@.take(0) =~= Seq::<Step>::empty());
    while i < steps.len()
        invariant
            0 <= i <= steps@.len(),
            f == step_rule(p@, loc@),
            first_error(steps@.take(i as int), f) is None,
        decreases steps@.len() - i,
    {
        let mut l = loc.duplicate();
        l.push(step_crumb_exec(i));
        assert(l@ == with_crumb(loc@, step_crumb(i as nat)));
        let res = validate_step(p, &l, &steps[i]);
        proof {
            lemma_first_error_step(steps@, f, i as int);
        }
        if res.is_err() {
            proof {
                lemma_first_error_prefix(steps@, f, i + 1);
            }
            return res;
        }
        i = i + 1;
    }
    proof {
        lemma_first_error_all(steps@, f);
    }
    Ok(())
}

/// Whether some import requires exactly the characters `c[lo..hi]`.
pub fn has_import_range(p: &Project, c: &Vec<char>, lo: usize, hi: usize) -> (r: bool)
    requires
        lo <= hi <= c@.len(),
    ensures
        r == has_import(p@, c@.subrange(lo as int, hi as int)),
{
    let mut i: usize = 0;
    while i < p.imports.len()
        invariant
            0 <= i <= p.imports@.len(),
            lo <= hi <= c@.len(),
            forall|j: int|
                0 <= j < i ==> (#[trigger] p@.imports[j]).1.require@ != c@.subrange(
                    lo as int,
                    hi as int,
                ),
        decreases p.imports@.len() - i,
    {
        let rc = chars_of(p.imports[i].obj.require.as_str());
        if chars_eq_range(&rc, c, lo, hi) {
            assert(p@.imports[i as int].1.require@ == c@.subrange(lo as int, hi as int));
            return true;
        }
        i = i + 1;
    }
    false
}

pub fn validate_env(p: &Project, loc: &YamlLocation, e: &Environment) -> (r: ORResult<()>)
    ensures
        reports(r, env_error(p@, loc@, *e)),
{
    let mut l = loc.duplicate();
    l.push(e.name.clone());
    assert(l@ == with_crumb(loc@, e.name@));
    let c = chars_of(e.name.as_str());
    match split_qualified(&c) {
        None => Err(ORError::InvalidEnvironmentName(l)),
        Some(k) => {
            assert(c@.take(k as int) =~= c@.subrange(0, k as int));
            assert(c@.skip(k + 1) =~= c@.subrange(k + 1, c@.len() as int));
            let n = c.len();
            assert(single_slash_at(c@, k as int) && k < n);
            let k1 = k + 1;
            if !is_identifier_range(&c, 0, k) || !is_identifier_range(&c, k1, c.len()) {
                Err(ORError::InvalidCharacter(l))
            } else if !has_import_range(p, &c, 0, k) {
                Err(ORError::ImportNotFound(l, string_from_chars(&c, 0, k)))
            } else {
                validate_steps(p, &l, &e.steps)
            }
        },
    }
}

pub fn validate_function(p: &Project, f: &Located<FunctionDoc>) -> (r: ORResult<()>)
    ensures
        reports(r, function_error(p@, f.location@, f.obj)),
{
    if !is_identifier_str(f.obj.name.as_str()) {
        Err(ORError::InvalidCharacter(f.location.duplicate()))
    } else {
        validate_steps(p, &f.location, &f.obj.steps)
    }
}

pub fn validate_build(p: &Project, b: &Located<BuildDoc>) -> (r: ORResult<()>)
    ensures
        reports(r, build_error(p@, b.location@, b.obj)),
{
    let loc = &b.location;
    let doc = &b.obj;
    if !is_identifier_str(doc.name.as_str()) {
        return Err(ORError::InvalidCharacter(loc.duplicate()));
    }
    if let Some(from) = &doc.from {
        if !has_build_exec(p, from) {
            return Err(ORError::ImportNotFound(loc.duplicate(), from.clone()));
        }
    }
    if let Some(deps) = &doc.depends {
        let ghost f = dep_rule(p@, loc@);
        let mut i: usize = 0;
        assert(deps@.take(0) =~= Seq::<String>::empty());
        while i < deps.len()
            invariant
                0 <= i <= deps@.len(),
                f == dep_rule(p@, loc@),
                *doc == b.obj,
                *loc == b.location,
                doc.depends == Some(*deps),
                is_identifier(doc.name@),
                doc.from is Some ==> has_build(p@, doc.from->0@),
                first_error(deps@.take(i as int), f) is None,
            decreases deps@.len() - i,
        {
            proof {
                lemma_first_error_step(deps@, f, i as int);
            }
            if !has_build_exec(p, &deps[i]) {
                proof {
                    lemma_first_error_prefix(deps@, f, i + 1);
                }
                return Err(ORError::ImportNotFound(loc.duplicate(), deps[i].clone()));
            }
            i = i + 1;
        }
        proof {
            lemma_first_error_all(deps@, f);
        }
    }
    let ghost g = env_rule(p@, loc@);
    let mut j: usize = 0;
    assert(doc.envs@.take(0) =~= Seq::<Environment>::empty());
    while j < doc.envs.len()
        invariant
            0 <= j <= doc.envs@.len(),
            g == env_rule(p@, loc@),
            *doc == b.obj,
            *loc == b.location,
            is_identifier(doc.name@),
            doc.from is Some ==> has_build(p@, doc.from->0@),
            doc.depends is Some ==> first_error(doc.depends->0@, dep_rule(p@, loc@)) is None,
            first_error(doc.envs@.take(j as int), g) is None,
        decreases doc.envs@.len() - j,
    {
        let res = validate_env(p, loc, &doc.envs[j]);
        proof {
            lemma_first_error_step(doc.envs@, g, j as int);
        }
        if res.is_err() {
            proof {
                lemma_first_error_prefix(doc.envs@, g, j + 1);
            }
            return res;
        }
        j = j + 1;
    }
    proof {
        lemma_first_error_all(doc.envs@, g);
    }
    Ok(())
}

pub fn validate_deploy(p: &Project, d: &Located<DeployDoc>) -> (r: ORResult<()>)
    ensures
        reports(r, deploy_error(p@, d.location@, d.obj)),
{
    let loc = &d.location;
    let doc = &d.obj;
    if !is_identifier_str(doc.name.as_str()) || !is_identifier_str(doc.artifact.as_str()) {
        return Err(ORError::InvalidCharacter(loc.duplicate()));
    }
    if !has_build_exec(p, &doc.artifact) {
        return Err(ORError::ImportNotFound(loc.duplicate(), doc.artifact.clone()));
    }
    let c = chars_of(doc.deploy_to.as_str());
    match split_qualified(&c) {
        None => Err(ORError::GenericInvalid(loc.duplicate())),
        Some(k) => {
            assert(c@.take(k as int) =~= c@.subrange(0, k as int));
            assert(c@.skip(k + 1) =~= c@.subrange(k + 1, c@.len() as int));
            let n = c.len();
            assert(single_slash_at(c@, k as int) && k < n);
            let k1 = k + 1;
            if !is_identifier_range(&c, 0, k) || !is_identifier_range(&c, k1, c.len()) {
                Err(ORError::InvalidCharacter(loc.duplicate()))
            } else if !has_import_range(p, &c, 0, k) {
                Err(ORError::ImportNotFound(loc.duplicate(), string_from_chars(&c, 0, k)))
            } else {
                Ok(())
            }
        },
    }
}

pub fn validate_import(i: &Located<Import>) -> (r: ORResult<()>)
    ensures
        reports(r, import_error(i.location@, i.obj)),
{
    let c = chars_of(i.obj.require.as_str());
    if is_identifier_range(&c, 0, c.len()) {
        assert(c@.subrange(0, c@.len() as int) =~= c@);
        return Ok(());
    }
    assert(c@.subrange(0, c@.len() as int) =~= c@);
    match split_qualified(&c) {
        None => Err(ORError::InvalidCharacter(i.location.duplicate())),
        Some(k) => {
            assert(c@.take(k as int) =~= c@.subrange(0, k as int));
            assert(c@.skip(k + 1) =~= c@.subrange(k + 1, c@.len() as int));
            if is_identifier_range(&c, 0, k) && is_identifier_range(&c, k + 1, c.len()) {
                Ok(())
            } else {
                Err(ORError::InvalidCharacter(i.location.duplicate()))
            }
        },
    }
}

} // verus!

verus! {

/// Checks a project: every import's requirement, every function, every build with
/// its references and environment blocks, and every deploy, stopping at the first
/// error.
pub fn validate_project(project: &Project) -> (r: ORResult<()>)
    ensures
        reports(r, project_error(project@)),
        r is Ok <==> project_valid(project@),
{
    let ghost pv = project@;
    let ghost fi = import_rule();
    let mut i: usize = 0;
    assert(pv.imports.take(0) =~= Seq::<(LocView, Import)>::empty());
    while i < project.imports.len()
        invariant
            0 <= i <= project.imports@.len(),
            pv == project@,
            fi == import_rule(),
            first_error(pv.imports.take(i as int), fi) is None,
        decreases project.imports@.len() - i,
    {
        let res = validate_import(&project.imports[i]);
        proof {
            lemma_first_error_step(pv.imports, fi, i as int);
        }
        if res.is_err() {
            proof {
                lemma_first_error_prefix(pv.imports, fi, i + 1);
            }
            return res;
        }
        i = i + 1;
    }
    proof {
        lemma_first_error_all(pv.imports, fi);
    }
    let ghost ff = function_rule(pv);
    let mut i: usize = 0;
    assert(pv.functions.take(0) =~= Seq::<(LocView, FunctionDoc)>::empty());
    while i < project.functions.len()
        invariant
            0 <= i <= project.functions@.len(),
            pv == project@,
            ff == function_rule(pv),
            first_error(pv.imports, import_rule()) is None,
            first_error(pv.functions.take(i as int), ff) is None,
        decreases project.functions@.len() - i,
    {
        let res = validate_function(project, &project.functions[i]);
        proof {
            lemma_first_error_step(pv.functions, ff, i as int);
        }
        if res.is_err() {
            proof {
                lemma_first_error_prefix(pv.functions, ff, i + 1);
            }
            return res;
        }
        i = i + 1;
    }
    proof {
        lemma_first_error_all(pv.functions, ff);
    }
    let ghost fb = build_rule(pv);
    let mut i: usize = 0;
    assert(pv.builds.take(0) =~= Seq::<(LocView, BuildDoc)>::empty());
    while i < project.builds.len()
        invariant
            0 <= i <= project.builds@.len(),
            pv == project@,
            fb == build_rule(pv),
            first_error(pv.imports, import_rule()) is None,
            first_error(pv.functions, function_rule(pv)) is None,
            first_error(pv.builds.take(i as int), fb) is None,
        decreases project.builds@.len() - i,
    {
        let res = validate_build(project, &project.builds[i]);
        proof {
            lemma_first_error_step(pv.builds, fb, i as int);
        }
        if res.is_err() {
            proof {
                lemma_first_error_prefix(pv.builds, fb, i + 1);
            }
            return res;
        }
        i = i + 1;
    }
    proof {
        lemma_first_error_all(pv.builds, fb);
    }
    let ghost fd = deploy_rule(pv);
    let mut i: usize = 0;
    assert(pv.deploys.take(0) =~= Seq::<(LocView, DeployDoc)>::empty());
    while i < project.deploys.len()
        invariant
            0 <= i <= project.deploys@.len(),
            pv == project@,
            fd == deploy_rule(pv),
            first_error(pv.imports, import_rule()) is None,
            first_error(pv.functions, function_rule(pv)) is None,
            first_error(pv.builds, build_rule(pv)) is None,
            first_error(pv.deploys.take(i as int), fd) is None,
        decreases project.deploys@.len() - i,
    {
        let res = validate_deploy(project, &project.deploys[i]);
        proof {
            lemma_first_error_step(pv.deploys, fd, i as int);
        }
        if res.is_err() {
            proof {
                lemma_first_error_prefix(pv.deploys, fd, i + 1);
            }
            return res;
        }
        i = i + 1;
    }
    proof {
        lemma_first_error_all(pv.deploys, fd);
    }
    Ok(())
}

} // verus!

verus! {

/// Where no item has an error, each item passes its check.
pub proof fn lemma_first_error_none<T>(s: Seq<T>, f: spec_fn(int, T) -> Option<ErrorView>, i: int)
    requires
        first_error(s, f) is None,
        0 <= i < s.len(),
    ensures
        f(i, s[i]) is None,
    decreases s.len(),
{
    if i < s.len() - 1 {
        assert(s.drop_last()[i] == s[i]);
        lemma_first_error_none(s.drop_last(), f, i);
    }
}

/// In a valid project every environment block is named `plugin/env_kind`, with both
/// parts identifiers and the plugin imported, and every invoked function exists.
pub proof fn lemma_valid_env(p: ProjectView, b: int, e: int)
    requires
        project_valid(p),
        0 <= b < p.builds.len(),
        0 <= e < p.builds[b].1.envs@.len(),
    ensures
        has_single_slash(p.builds[b].1.envs@[e].name@),
        has_import(p, slash_prefix(p.builds[b].1.envs@[e].name@)),
        env_error(p, p.builds[b].0, p.builds[b].1.envs@[e]) is None,
{
    lemma_first_error_none(p.builds, build_rule(p), b);
    let loc = p.builds[b].0;
    lemma_first_error_none(p.builds[b].1.envs@, env_rule(p, loc), e);
}

/// In a valid project every build's `from` and `depends` name existing builds.
pub proof fn lemma_valid_build_refs(p: ProjectView, b: int)
    requires
        project_valid(p),
        0 <= b < p.builds.len(),
    ensures
        p.builds[b].1.from is Some ==> has_build(p, p.builds[b].1.from->0@),
        p.builds[b].1.depends is Some ==> forall|j: int|
            0 <= j < p.builds[b].1.depends->0@.len() ==> has_build(
                p,
                (#[trigger] p.builds[b].1.depends->0@[j])@,
            ),
{
    lemma_first_error_none(p.builds, build_rule(p), b);
    let loc = p.builds[b].0;
    if p.builds[b].1.depends is Some {
        let ds = p.builds[b].1.depends->0@;
        assert forall|j: int| 0 <= j < ds.len() implies has_build(p, (#[trigger] ds[j])@) by {
            lemma_first_error_none(ds, dep_rule(p, loc), j);
        }
    }
}

/// In a valid project every deploy names an existing build.
pub proof fn lemma_valid_deploy(p: ProjectView, d: int)
    requires
        project_valid(p),
        0 <= d < p.deploys.len(),
    ensures
        has_build(p, p.deploys[d].1.artifact@),
{
    lemma_first_error_none(p.deploys, deploy_rule(p), d);
}

} // verus!
