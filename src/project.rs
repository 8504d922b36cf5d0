//! A project: the documents of all its files, gathered by kind, with unique names.
use crate::model::{BuildDoc, DeployDoc, Document, FunctionDoc, Import};
use crate::util::{ErrorView, LocView, Located, ORError, ORResult, YamlLocation};
use vstd::prelude::*;

verus! {

/// The validated aggregate of a project's documents.
#[derive(Debug)]
pub struct Project {
    pub imports: Vec<Located<Import>>,
    pub functions: Vec<Located<FunctionDoc>>,
    pub builds: Vec<Located<BuildDoc>>,
    pub deploys: Vec<Located<DeployDoc>>,
}

/// The content of a project: each record with the location it came from.
pub struct ProjectView {
    pub imports: Seq<(LocView, Import)>,
    pub functions: Seq<(LocView, FunctionDoc)>,
    pub builds: Seq<(LocView, BuildDoc)>,
    pub deploys: Seq<(LocView, DeployDoc)>,
}

pub open spec fn located_view<T>(s: Seq<Located<T>>) -> Seq<(LocView, T)> {
    s.map_values(|l: Located<T>| (l.location@, l.obj))
}

impl View for Project {
    type V = ProjectView;

    open spec fn view(&self) -> ProjectView {
        ProjectView {
            imports: located_view(self.imports@),
            functions: located_view(self.functions@),
            builds: located_view(self.builds@),
            deploys: located_view(self.deploys@),
        }
    }
}

pub open spec fn empty_project() -> ProjectView {
    ProjectView {
        imports: Seq::empty(),
        functions: Seq::empty(),
        builds: Seq::empty(),
        deploys: Seq::empty(),
    }
}

pub open spec fn has_function(p: ProjectView, name: Seq<char>) -> bool {
    exists|i: int| 0 <= i < p.functions.len() && (#[trigger] p.functions[i]).1.name@ == name
}

pub open spec fn has_build(p: ProjectView, name: Seq<char>) -> bool {
    exists|i: int| 0 <= i < p.builds.len() && (#[trigger] p.builds[i]).1.name@ == name
}

pub open spec fn has_deploy(p: ProjectView, name: Seq<char>) -> bool {
    exists|i: int| 0 <= i < p.deploys.len() && (#[trigger] p.deploys[i]).1.name@ == name
}

/// Names are unique within each of the three namespaces.
pub open spec fn names_unique(p: ProjectView) -> bool {
    &&& forall|i: int, j: int|
        0 <= i < j < p.functions.len() ==> (#[trigger] p.functions[i]).1.name@ != (
        #[trigger] p.functions[j]).1.name@
    &&& forall|i: int, j: int|
        0 <= i < j < p.builds.len() ==> (#[trigger] p.builds[i]).1.name@ != (
        #[trigger] p.builds[j]).1.name@
    &&& forall|i: int, j: int|
        0 <= i < j < p.deploys.len() ==> (#[trigger] p.deploys[i]).1.name@ != (
        #[trigger] p.deploys[j]).1.name@
}

/// Adds one document, read at `loc`, to a project.
pub open spec fn add_document(p: ProjectView, loc: LocView, doc: Document) -> Result<
    ProjectView,
    ErrorView,
> {
    match doc {
        Document::Import(list) => Ok(
            ProjectView { imports: p.imports + list@.map_values(|i: Import| (loc, i)), ..p },
        ),
        Document::Function(f) => if has_function(p, f.name@) {
            Err(ErrorView::DuplicateSymbol(loc, "function"@, f.name@))
        } else {
            Ok(ProjectView { functions: p.functions.push((loc, f)), ..p })
        },
        Document::Build(b) => if has_build(p, b.name@) {
            Err(ErrorView::DuplicateSymbol(loc, "artifact"@, b.name@))
        } else {
            Ok(ProjectView { builds: p.builds.push((loc, b)), ..p })
        },
        Document::Deploy(d) => if has_deploy(p, d.name@) {
            Err(ErrorView::DuplicateSymbol(loc, "deploy"@, d.name@))
        } else {
            Ok(ProjectView { deploys: p.deploys.push((loc, d)), ..p })
        },
    }
}

/// Adds one entry of a file: a document, or the reason it could not be read.
pub open spec fn add_entry(p: ProjectView, loc: LocView, entry: Result<Document, String>) -> Result<
    ProjectView,
    ErrorView,
> {
    match entry {
        Ok(doc) => add_document(p, loc, doc),
        Err(msg) => Err(ErrorView::YamlError(loc, msg@)),
    }
}

pub open spec fn doc_location(file: Seq<char>, i: int) -> LocView {
    LocView { file, document_id: i as nat, path: Seq::empty() }
}

/// Reads the entries of one file, in order, stopping at the first error.
pub open spec fn parse_entries(
    acc: Result<ProjectView, ErrorView>,
    file: Seq<char>,
    entries: Seq<Result<Document, String>>,
) -> Result<ProjectView, ErrorView>
    decreases entries.len(),
{
    if entries.len() == 0 {
        acc
    } else {
        match parse_entries(acc, file, entries.drop_last()) {
            Err(e) => Err(e),
            Ok(p) => add_entry(p, doc_location(file, entries.len() - 1), entries.last()),
        }
    }
}

/// Reads the files, in order, stopping at the first error.
pub open spec fn parse_files(files: Seq<(String, Vec<Result<Document, String>>)>) -> Result<
    ProjectView,
    ErrorView,
>
    decreases files.len(),
{
    if files.len() == 0 {
        Ok(empty_project())
    } else {
        parse_entries(parse_files(files.drop_last()), files.last().0@, files.last().1@)
    }
}

proof fn lemma_entries_err(
    e: ErrorView,
    file: Seq<char>,
    entries: Seq<Result<Document, String>>,
)
    ensures
        parse_entries(Err(e), file, entries) == Err::<ProjectView, ErrorView>(e),
    decreases entries.len(),
{
    if entries.len() > 0 {
        lemma_entries_err(e, file, entries.drop_last());
    }
}

proof fn lemma_files_err(files: Seq<(String, Vec<Result<Document, String>>)>, k: int)
    requires
        0 <= k <= files.len(),
        parse_files(files.take(k)) is Err,
    ensures
        parse_files(files) == parse_files(files.take(k)),
    decreases files.len() - k,
{
    if k < files.len() {
        let e = parse_files(files.take(k))->Err_0;
        assert(files.take(k + 1).drop_last() =~= files.take(k));
        lemma_entries_err(e, files[k].0@, files[k].1@);
        lemma_files_err(files, k + 1);
    } else {
        assert(files.take(k) =~= files);
    }
}

} // verus!

verus! {

proof fn lemma_entries_prefix_err(
    acc: Result<ProjectView, ErrorView>,
    file: Seq<char>,
    entries: Seq<Result<Document, String>>,
    k: int,
)
    requires
        0 <= k <= entries.len(),
        parse_entries(acc, file, entries.take(k)) is Err,
    ensures
        parse_entries(acc, file, entries) == parse_entries(acc, file, entries.take(k)),
    decreases entries.len() - k,
{
    if k < entries.len() {
        assert(entries.take(k + 1).drop_last() =~= entries.take(k));
        lemma_entries_prefix_err(acc, file, entries, k + 1);
    } else {
        assert(entries.take(k) =~= entries);
    }
}

pub fn has_function_exec(p: &Project, name: &String) -> (r: bool)
    ensures
        r == has_function(p@, name@),
{
    let mut i: usize = 0;
    while i < p.functions.len()
        invariant
            0 <= i <= p.functions@.len(),
            forall|j: int| 0 <= j < i ==> (#[trigger] p@.functions[j]).1.name@ != name@,
        decreases p.functions@.len() - i,
    {
        if p.functions[i].obj.name == *name {
            assert(p@.functions[i as int].1.name@ == name@);
            return true;
        }
        i = i + 1;
    }
    false
}

pub fn has_build_exec(p: &Project, name: &String) -> (r: bool)
    ensures
        r == has_build(p@, name@),
{
    let mut i: usize = 0;
    while i < p.builds.len()
        invariant
            0 <= i <= p.builds@.len(),
            forall|j: int| 0 <= j < i ==> (#[trigger] p@.builds[j]).1.name@ != name@,
        decreases p.builds@.len() - i,
    {
        if p.builds[i].obj.name == *name {
            assert(p@.builds[i as int].1.name@ == name@);
            return true;
        }
        i = i + 1;
    }
    false
}

pub fn has_deploy_exec(p: &Project, name: &String) -> (r: bool)
    ensures
        r == has_deploy(p@, name@),
{
    let mut i: usize = 0;
    while i < p.deploys.len()
        invariant
            0 <= i <= p.deploys@.len(),
            forall|j: int| 0 <= j < i ==> (#[trigger] p@.deploys[j]).1.name@ != name@,
        decreases p.deploys@.len() - i,
    {
        if p.deploys[i].obj.name == *name {
            assert(p@.deploys[i as int].1.name@ == name@);
            return true;
        }
        i = i + 1;
    }
    false
}

/// Adds one document, read at `loc`, to the project; a second record of a kind
/// under a name already taken is refused.
pub fn add_document_exec(project: &mut Project, loc: YamlLocation, doc: Document) -> (r: ORResult<()>)
    requires
        names_unique(old(project)@),
    ensures
        names_unique(final(project)@),
        match r {
            Ok(_) => add_document(old(project)@, loc@, doc) == Ok::<ProjectView, ErrorView>(
                final(project)@,
            ),
            Err(e) => add_document(old(project)@, loc@, doc) == Err::<ProjectView, ErrorView>(
                e@,
            ),
        },
{
    let ghost start = project@;
    let ghost l = loc@;
    let ghost d = doc;
    match doc {
        Document::Import(list) => {
            let ghost items = list@;
            let n = list.len();
            let mut k: usize = 0;
            for imp in it: list.into_iter()
                invariant
                    it.seq() == items,
                    k == it.index(),
                    items.len() == n,
                    loc@ == l,
                    project@ == (ProjectView {
                        imports: start.imports + items.take(k as int).map_values(|i: Import| (l, i)),
                        ..start
                    }),
            {
                let ghost before = project@;
                project.imports.push(Located::new(loc.duplicate(), imp));
                proof {
                    assert(items.take(k + 1) =~= items.take(k as int).push(imp));
                    assert(located_view(project.imports@) =~= before.imports.push((l, imp)));
                    assert(project@.imports =~= start.imports + items.take(k + 1).map_values(
                        |i: Import| (l, i),
                    ));
                }
                k = k + 1;
            }
            proof {
                assert(items.take(k as int) =~= items);
            }
            Ok(())
        },
        Document::Function(f) => {
            if has_function_exec(project, &f.name) {
                let name = f.name;
                Err(ORError::DuplicateSymbol(loc, "function".to_string(), name))
            } else {
                let ghost before = project@;
                project.functions.push(Located::new(loc, f));
                proof {
                    assert(located_view(project.functions@) =~= before.functions.push((l, d->Function_0)));
                }
                Ok(())
            }
        },
        Document::Build(b) => {
            if has_build_exec(project, &b.name) {
                let name = b.name;
                Err(ORError::DuplicateSymbol(loc, "artifact".to_string(), name))
            } else {
                let ghost before = project@;
                project.builds.push(Located::new(loc, b));
                proof {
                    assert(located_view(project.builds@) =~= before.builds.push((l, d->Build_0)));
                }
                Ok(())
            }
        },
        Document::Deploy(x) => {
            if has_deploy_exec(project, &x.name) {
                let name = x.name;
                Err(ORError::DuplicateSymbol(loc, "deploy".to_string(), name))
            } else {
                let ghost before = project@;
                project.deploys.push(Located::new(loc, x));
                proof {
                    assert(located_view(project.deploys@) =~= before.deploys.push((l, d->Deploy_0)));
                }
                Ok(())
            }
        },
    }
}

} // verus!

verus! {

impl Project {
    /// A project with no records.
    pub fn empty() -> (r: Project)
        ensures
            r@ == empty_project(),
    {
        let r = Project {
            imports: Vec::new(),
            functions: Vec::new(),
            builds: Vec::new(),
            deploys: Vec::new(),
        };
        assert(r@.imports =~= Seq::empty());
        assert(r@.functions =~= Seq::empty());
        assert(r@.builds =~= Seq::empty());
        assert(r@.deploys =~= Seq::empty());
        r
    }
}

/// Gathers the documents of each file, in order, into a project. Each entry is a
/// document or the reason it could not be read; the first unreadable entry or the
/// first duplicate name ends the reading with its error.
pub fn parse_project(files: Vec<(String, Vec<Result<Document, String>>)>) -> (r: ORResult<Project>)
    ensures
        r is Ok ==> parse_files(files@) == Ok::<ProjectView, ErrorView>(r->Ok_0@) && names_unique(
            r->Ok_0@,
        ),
        r is Err ==> parse_files(files@) == Err::<ProjectView, ErrorView>(r->Err_0@),
{
    let ghost all = files@;
    let n = files.len();
    let mut project = Project::empty();
    let mut fi: usize = 0;
    let files_iter = files.into_iter();
    assert(files@ == all);
    for file in it: files_iter
        invariant
            it.seq() == all,
            files@ == all,
            fi == it.index(),
            all.len() == n,
            parse_files(all.take(fi as int)) == Ok::<ProjectView, ErrorView>(project@),
            names_unique(project@),
    {
        assert(fi < all.len());
        let ghost before = project@;
        let ghost fname = file.0@;
        let ghost entries = file.1@;
        proof {
            assert(all.take(fi + 1).drop_last() =~= all.take(fi as int));
            assert(entries.take(0) =~= Seq::<Result<Document, String>>::empty());
        }
        let (filename, docs) = file;
        let m = docs.len();
        let mut di: usize = 0;
        for entry in jt: docs.into_iter()
            invariant
                jt.seq() == entries,
                files@ == all,
                di == jt.index(),
                entries.len() == m,
                filename@ == fname,
                fi < all.len(),
                all[fi as int].0@ == fname,
                all[fi as int].1@ == entries,
                parse_files(all.take(fi as int)) == Ok::<ProjectView, ErrorView>(before),
                parse_entries(Ok(before), fname, entries.take(di as int)) == Ok::<
                    ProjectView,
                    ErrorView,
                >(project@),
                names_unique(project@),
        {
            let loc = YamlLocation::new(filename.clone(), di, Vec::new());
            let ghost this_entry = entry;
            let ghost pre = project@;
            proof {
                assert(this_entry == entries[di as int]);
                assert(entries.take(di + 1).drop_last() =~= entries.take(di as int));
                assert(loc@.path =~= Seq::<Seq<char>>::empty());
                assert(loc@ == doc_location(fname, di as int));
            }
            let step = match entry {
                Ok(doc) => add_document_exec(&mut project, loc, doc),
                Err(msg) => Err(ORError::YamlError(loc, msg)),
            };
            if let Err(e) = step {
                proof {
                    assert(entries.take(di + 1).last() == entries[di as int]);
                    assert(add_entry(pre, loc@, this_entry) is Err);
                    assert(parse_entries(Ok(before), fname, entries.take(di + 1)) is Err);
                    lemma_entries_prefix_err(Ok(before), fname, entries, di + 1);
                    assert(all.take(fi + 1).drop_last() =~= all.take(fi as int));
                    assert(all.take(fi + 1).last() == all[fi as int]);
                    assert(parse_files(all.take(fi + 1)) is Err);
                    lemma_files_err(all, fi + 1);
                    assert(add_entry(pre, loc@, this_entry) == Err::<ProjectView, ErrorView>(e@));
                    assert(parse_entries(Ok(before), fname, entries.take(di + 1)) == Err::<ProjectView, ErrorView>(e@));
                    assert(parse_files(all.take(fi + 1)) == parse_entries(Ok(before), fname, entries));
                    assert(parse_files(all) == Err::<ProjectView, ErrorView>(e@));
                }
                return Err(e);
            }
            di = di + 1;
        }
        proof {
            assert(entries.take(di as int) =~= entries);
        }
        fi = fi + 1;
    }
    proof {
        assert(all.take(fi as int) =~= all);
    }
    Ok(project)
}

} // verus!
