//! The project registry: the only mutable shared state of the service. It
//! owns every `ProjectInfo`, creates records with fresh unique identifiers,
//! and resolves file requests against the template root captured at creation
//! time. Records are immutable after insertion and live for the process
//! lifetime.

use vstd::prelude::*;

use crate::boards::{board_views, find_board, get_board_by_id, BoardConfig};
use crate::errors::ScaffoldError;
use crate::paths::{resolve_template_file, resolved_path};
use crate::templates::{forest_wf, generate_file_tree, FileNode};

verus! {

/// What a caller asks for: a display name and the chosen board.
#[derive(Debug)]
pub struct CreateProjectRequest {
    pub project_name: String,
    pub board_id: String,
}

/// What a successful creation returns: the fresh identifiers, the template
/// snapshot, and a derived workspace reference.
#[derive(Debug)]
pub struct CreateProjectResponse {
    pub project_id: String,
    pub container_id: String,
    pub file_tree: Vec<FileNode>,
    pub workspace_url: String,
}

/// One live scaffolded project. `container_id` is an opaque secondary
/// identifier for an external workspace handle; nothing here consumes it.
#[derive(Debug)]
pub struct ProjectInfo {
    pub project_id: String,
    pub container_id: String,
    pub project_name: String,
    pub board_id: String,
    pub template_path: String,
}

/// Mathematical image of a `ProjectInfo`.
pub struct ProjectView {
    pub project_id: Seq<char>,
    pub container_id: Seq<char>,
    pub project_name: Seq<char>,
    pub board_id: Seq<char>,
    pub template_path: Seq<char>,
}

impl View for ProjectInfo {
    type V = ProjectView;

    open spec fn view(&self) -> ProjectView {
        ProjectView {
            project_id: self.project_id@,
            container_id: self.container_id@,
            project_name: self.project_name@,
            board_id: self.board_id@,
            template_path: self.template_path@,
        }
    }
}

/// Whether some record in `s` carries the project id `id`.
pub open spec fn contains_id(s: Seq<ProjectView>, id: Seq<char>) -> bool {
    exists|i: int| 0 <= i < s.len() && #[trigger] s[i].project_id == id
}

/// Whether some record in `s` carries the secondary (container) id `id`.
pub open spec fn contains_container_id(s: Seq<ProjectView>, id: Seq<char>) -> bool {
    exists|i: int| 0 <= i < s.len() && #[trigger] s[i].container_id == id
}

/// The first record in `s` whose project id is `id`, if any.
pub open spec fn project_for(s: Seq<ProjectView>, id: Seq<char>) -> Option<ProjectView>
    decreases s.len(),
{
    if s.len() == 0 {
        Option::<ProjectView>::None
    } else if s[0].project_id == id {
        Option::Some(s[0])
    } else {
        project_for(s.drop_first(), id)
    }
}

/// `project_for` finds a record exactly when one with the id is registered.
pub proof fn lemma_project_for_characterizes(s: Seq<ProjectView>, id: Seq<char>)
    ensures
        (project_for(s, id) is Some) <==> contains_id(s, id),
        project_for(s, id) matches Some(p) ==> p.project_id == id && exists|i: int|
            0 <= i < s.len() && #[trigger] s[i] == p,
    decreases s.len(),
{
    if s.len() == 0 {
    } else if s[0].project_id == id {
    } else {
        lemma_project_for_characterizes(s.drop_first(), id);
        assert(forall|i: int| 0 <= i < s.drop_first().len() ==> #[trigger] s.drop_first()[i]
            == s[i + 1]);
        if contains_id(s, id) {
            let w = choose|i: int| 0 <= i < s.len() && #[trigger] s[i].project_id == id;
            assert(w > 0);
            assert(s.drop_first()[w - 1].project_id == id);
        }
    }
}

/// Appending a record neither hides nor changes any registered project: an
/// id registered before is registered after, and resolves to the very same
/// record.
pub proof fn lemma_insert_preserves_lookup(s: Seq<ProjectView>, p: ProjectView, id: Seq<char>)
    requires
        contains_id(s, id),
    ensures
        contains_id(s.push(p), id),
        project_for(s.push(p), id) == project_for(s, id),
    decreases s.len(),
{
    let w = choose|i: int| 0 <= i < s.len() && #[trigger] s[i].project_id == id;
    assert(s.push(p)[w] == s[w]);
    if s[0].project_id == id {
        assert(s.push(p)[0] == s[0]);
    } else {
        assert(s.push(p)[0] == s[0]);
        assert(s.push(p).drop_first() =~= s.drop_first().push(p));
        assert(w > 0);
        assert(s.drop_first()[w - 1].project_id == id);
        lemma_insert_preserves_lookup(s.drop_first(), p, id);
    }
}

/// Two successive successful creations, whatever their inputs, yield
/// distinct project ids and distinct secondary ids, and afterwards both
/// records are registered.
pub proof fn lemma_successive_creates_distinct(
    s0: Seq<ProjectView>,
    s1: Seq<ProjectView>,
    s2: Seq<ProjectView>,
    p1: ProjectView,
    p2: ProjectView,
)
    requires
        !contains_id(s0, p1.project_id),
        s1 == s0.push(p1),
        !contains_id(s1, p2.project_id),
        !contains_container_id(s1, p2.container_id),
        s2 == s1.push(p2),
    ensures
        p1.project_id != p2.project_id,
        p1.container_id != p2.container_id,
        contains_id(s2, p1.project_id),
        contains_id(s2, p2.project_id),
{
    assert(s1[s0.len() as int] == p1);
    assert(s2[s1.len() as int] == p2);
    assert(s2[s0.len() as int] == p1);
}

/// The in-memory project registry. Constructed explicitly and passed to its
/// callers; a process wanting concurrent access wraps it in a
/// readers-writer lock, which is sound because records never change after
/// insertion.
pub struct ProjectManager {
    projects: Vec<ProjectInfo>,
}

impl View for ProjectManager {
    type V = Seq<ProjectView>;

    closed spec fn view(&self) -> Seq<ProjectView> {
        self.projects@.map_values(|p: ProjectInfo| p@)
    }
}

/// The resolved target of a project file request: where to read, what name
/// to substitute, and the template root the path was contained in, so a
/// caller with filesystem access can re-check containment on the resolved
/// (canonical) location as well.
#[derive(Debug)]
pub struct ResolvedFile {
    pub full_path: String,
    pub project_name: String,
    pub template_path: String,
}

/// Relies on `uuid::Uuid::new_v4` and its `Display` form: a freshly drawn
/// random identifier. A random value promises nothing, so nothing is
/// ensured; the registry checks freshness itself.
#[verifier::external_body]
fn fresh_uuid() -> String {
    uuid::Uuid::new_v4().to_string()
}

impl ProjectManager {
    /// No two registered records share a project id.
    pub open spec fn inv(&self) -> bool {
        forall|i: int, j: int|
            0 <= i < j < self@.len() ==> (#[trigger] self@[i].project_id) != (
            #[trigger] self@[j].project_id)
    }

    /// A fresh, empty registry.
    pub fn new() -> (r: Self)
        ensures
            r@ == Seq::<ProjectView>::empty(),
            r.inv(),
    {
        let r = ProjectManager { projects: Vec::new() };
        proof {
            assert(r@ =~= Seq::<ProjectView>::empty());
        }
        r
    }

    /// Whether a project with this id is registered.
    pub fn contains_project(&self, project_id: &str) -> (r: bool)
        ensures
            r == contains_id(self@, project_id@),
    {
        let mut i: usize = 0;
        while i < self.projects.len()
            invariant
                i <= self.projects@.len(),
                forall|k: int| 0 <= k < i ==> (#[trigger] self@[k].project_id) != project_id@,
            decreases self.projects@.len() - i,
        {
            if crate::text::str_eq(self.projects[i].project_id.as_str(), project_id) {
                proof {
                    assert(self@[i as int].project_id == project_id@);
                }
                return true;
            }
            i = i + 1;
        }
        false
    }

    /// An identifier one character longer than any registered one, hence
    /// certainly fresh; the last resort when random draws keep colliding.
    fn synthetic_fresh_id(&self) -> (id: String)
        ensures
            !contains_id(self@, id@),
    {
        let mut maxlen: usize = 0;
        let mut i: usize = 0;
        while i < self.projects.len()
            invariant
                i <= self.projects@.len(),
                forall|k: int| 0 <= k < i ==> (#[trigger] self@[k].project_id).len() <= maxlen,
            decreases self.projects@.len() - i,
        {
            let l = self.projects[i].project_id.as_str().unicode_len();
            if l > maxlen {
                maxlen = l;
            }
            i = i + 1;
        }
        let mut id = String::new();
        let mut k: usize = 0;
        while k < maxlen
            invariant
                k <= maxlen,
                id@.len() == k,
            decreases maxlen - k,
        {
            proof {
                reveal_strlit("x");
            }
            id.append("x");
            k = k + 1;
        }
        id.append("x");
        proof {
            reveal_strlit("x");
            assert(id@.len() == maxlen + 1);
        }
        id
    }

    /// Draws identifiers until one not yet registered comes up; with random
    /// identifiers the first draw is all but certain to do. Should every
    /// draw collide, falls back to a synthetic identifier that cannot.
    fn fresh_id(&self) -> (id: String)
        ensures
            !contains_id(self@, id@),
    {
        let mut t: usize = 0;
        while t < 8
            invariant
                t <= 8,
            decreases 8 - t,
        {
            let id = fresh_uuid();
            if !self.contains_project(id.as_str()) {
                return id;
            }
            t = t + 1;
        }
        self.synthetic_fresh_id()
    }

    /// Whether a registered record carries this secondary id.
    fn contains_container(&self, container_id: &str) -> (r: bool)
        ensures
            r == contains_container_id(self@, container_id@),
    {
        let mut i: usize = 0;
        while i < self.projects.len()
            invariant
                i <= self.projects@.len(),
                forall|k: int|
                    0 <= k < i ==> (#[trigger] self@[k].container_id) != container_id@,
            decreases self.projects@.len() - i,
        {
            if crate::text::str_eq(self.projects[i].container_id.as_str(), container_id) {
                proof {
                    assert(self@[i as int].container_id == container_id@);
                }
                return true;
            }
            i = i + 1;
        }
        false
    }

    /// A secondary id one character longer than any registered one, hence
    /// certainly fresh; the last resort when random draws keep colliding.
    fn synthetic_fresh_container_id(&self) -> (id: String)
        ensures
            !contains_container_id(self@, id@),
    {
        let mut maxlen: usize = 0;
        let mut i: usize = 0;
        while i < self.projects.len()
            invariant
                i <= self.projects@.len(),
                forall|k: int|
                    0 <= k < i ==> (#[trigger] self@[k].container_id).len() <= maxlen,
            decreases self.projects@.len() - i,
        {
            let l = self.projects[i].container_id.as_str().unicode_len();
            if l > maxlen {
                maxlen = l;
            }
            i = i + 1;
        }
        let mut id = String::new();
        let mut k: usize = 0;
        while k < maxlen
            invariant
                k <= maxlen,
                id@.len() == k,
            decreases maxlen - k,
        {
            proof {
                reveal_strlit("x");
            }
            id.append("x");
            k = k + 1;
        }
        id.append("x");
        proof {
            reveal_strlit("x");
            assert(id@.len() == maxlen + 1);
        }
        id
    }

    /// Draws secondary identifiers until one not yet registered comes up,
    /// falling back to a synthetic one that cannot collide.
    fn fresh_container_id(&self) -> (id: String)
        ensures
            !contains_container_id(self@, id@),
    {
        let mut t: usize = 0;
        while t < 8
            invariant
                t <= 8,
            decreases 8 - t,
        {
            let id = fresh_uuid();
            if !self.contains_container(id.as_str()) {
                return id;
            }
            t = t + 1;
        }
        self.synthetic_fresh_container_id()
    }

    /// Registers a project whose board and template snapshot the caller has
    /// already resolved: generates the two fresh identifiers, appends
    /// exactly one record, and returns the response carrying the snapshot
    /// unchanged. This is the only step that needs exclusive access, so a
    /// concurrent caller can do the fallible filesystem work first and hold
    /// its write lock only across this call.
    pub fn register_project(
        &mut self,
        project_name: &str,
        board_id: &str,
        template_path: &str,
        file_tree: Vec<FileNode>,
    ) -> (resp: CreateProjectResponse)
        requires
            old(self).inv(),
        ensures
            final(self).inv(),
            !contains_id(old(self)@, resp.project_id@),
            !contains_container_id(old(self)@, resp.container_id@),
            final(self)@ == old(self)@.push(
                ProjectView {
                    project_id: resp.project_id@,
                    container_id: resp.container_id@,
                    project_name: project_name@,
                    board_id: board_id@,
                    template_path: template_path@,
                },
            ),
            resp.workspace_url@ == "/workspace/"@ + resp.project_id@,
            resp.file_tree == file_tree,
    {
        let project_id = self.fresh_id();
        let container_id = self.fresh_container_id();
        let mut workspace_url = String::from_str("/workspace/");
        workspace_url.append(project_id.as_str());
        let info = ProjectInfo {
            project_id: project_id.clone(),
            container_id: container_id.clone(),
            project_name: String::from_str(project_name),
            board_id: String::from_str(board_id),
            template_path: String::from_str(template_path),
        };
        let ghost pre = self@;
        let ghost pv = info@;
        self.projects.push(info);
        proof {
            assert(self@ =~= pre.push(pv));
            assert forall|i: int, j: int| 0 <= i < j < self@.len() implies (
            #[trigger] self@[i].project_id) != (#[trigger] self@[j].project_id) by {
                if j == self@.len() - 1 {
                    assert(!contains_id(pre, pv.project_id));
                    assert(self@[i] == pre[i]);
                }
            }
        }
        CreateProjectResponse { project_id, container_id, file_tree, workspace_url }
    }

    /// Creates a project: resolves the board, snapshots its template,
    /// registers a record under two fresh identifiers, and returns the
    /// identifiers with the snapshot and a derived workspace reference.
    ///
    /// The registry changes only on success, and only by appending the new
    /// record: a failed creation leaves no partial record behind.
    pub fn create_project(
        &mut self,
        project_name: &str,
        board_id: &str,
        boards: &Vec<BoardConfig>,
    ) -> (r: Result<CreateProjectResponse, ScaffoldError>)
        requires
            old(self).inv(),
        ensures
            final(self).inv(),
            (r matches Err(e) && e == ScaffoldError::BoardNotFound) <==> find_board(
                board_views(boards@),
                board_id@,
            ) is None,
            r matches Err(e) ==> (e == ScaffoldError::BoardNotFound || e
                == ScaffoldError::TemplateNotFound) && final(self)@ == old(self)@,
            r matches Ok(resp) ==> (find_board(board_views(boards@), board_id@) matches Some(b)
                && !contains_id(old(self)@, resp.project_id@) && !contains_container_id(
                old(self)@,
                resp.container_id@,
            ) && final(self)@ == old(
                self,
            )@.push(
                ProjectView {
                    project_id: resp.project_id@,
                    container_id: resp.container_id@,
                    project_name: project_name@,
                    board_id: board_id@,
                    template_path: b.template_path,
                },
            ) && resp.workspace_url@ == "/workspace/"@ + resp.project_id@ && forest_wf(
                resp.file_tree@,
                Seq::<char>::empty(),
            )),
    {
        let board = match get_board_by_id(boards, board_id) {
            Option::Some(b) => b,
            Option::None => {
                return Err(ScaffoldError::BoardNotFound);
            },
        };
        let file_tree = match generate_file_tree(board.template_path.as_str()) {
            Ok(t) => t,
            Err(_) => {
                return Err(ScaffoldError::TemplateNotFound);
            },
        };
        Ok(self.register_project(project_name, board_id, board.template_path.as_str(), file_tree))
    }

    /// Resolves a project file request: looks the project up, then resolves
    /// the requested path against the project's captured template root,
    /// rejecting paths that escape it. The caller reads the file at the
    /// resolved location and renders it with the returned project name.
    pub fn resolve_project_file(&self, project_id: &str, file_path: &str) -> (r: Result<
        ResolvedFile,
        ScaffoldError,
    >)
        ensures
            !contains_id(self@, project_id@) ==> (r matches Err(e) && e
                == ScaffoldError::ProjectNotFound),
            contains_id(self@, project_id@) ==> (project_for(self@, project_id@) matches Some(p)
                && (match resolved_path(p.template_path, file_path@) {
                Option::Some(fp) => r matches Ok(rf) && rf.full_path@ == fp && rf.project_name@
                    == p.project_name && rf.template_path@ == p.template_path,
                Option::None => r matches Err(e) && e == ScaffoldError::FileReadError,
            })),
    {
        proof {
            lemma_project_for_characterizes(self@, project_id@);
            assert(self@.skip(0) =~= self@);
        }
        let mut i: usize = 0;
        while i < self.projects.len()
            invariant
                i <= self.projects@.len(),
                project_for(self@, project_id@) == project_for(
                    self@.skip(i as int),
                    project_id@,
                ),
            decreases self.projects@.len() - i,
        {
            proof {
                assert(self@.skip(i as int)[0] == self@[i as int]);
                assert(self@.skip(i as int).drop_first() =~= self@.skip(i as int + 1));
            }
            if crate::text::str_eq(self.projects[i].project_id.as_str(), project_id) {
                let full_path = match resolve_template_file(
                    self.projects[i].template_path.as_str(),
                    file_path,
                ) {
                    Ok(p) => p,
                    Err(e) => {
                        return Err(e);
                    },
                };
                return Ok(
                    ResolvedFile {
                        full_path,
                        project_name: self.projects[i].project_name.clone(),
                        template_path: self.projects[i].template_path.clone(),
                    },
                );
            }
            i = i + 1;
        }
        proof {
            assert(self@.skip(self.projects@.len() as int).len() == 0);
        }
        Err(ScaffoldError::ProjectNotFound)
    }
}

} // verus!
