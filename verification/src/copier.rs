//! The decisions of the tree copy.
//!
//! The copy mirrors an addon into the output folder and leaves out what the
//! packer put there: the loader, the packaging folder with its container
//! files, hidden entries and the manifest. The container files are not
//! copied but remembered, each under its stream. The walk itself, with its
//! reads and writes, is the caller's; what to do with each entry is decided
//! here.

use crate::patterns::{
    glob_match_str, glob_matches, lemma_glob_literal, lemma_glob_prefix, lemma_glob_star,
    lemma_glob_suffix, tail_matches, CHUNK_DIR_GLOB, CHUNK_FILE_GLOB, CL_CHUNK_SUFFIX,
    GLUAPACK_DIR, HIDDEN_PREFIX, LOADER_GLOB, MANIFEST_FILE_NAME, SH_CHUNK_SUFFIX,
    SV_PACKED_FILE_NAME, WILDCARD,
};
use crate::scan::{bytes_eq, contains_bytes, contents_of, ends_with, starts_with};
use vstd::prelude::*;
use vstd::slice::slice_to_vec;
use vstd::string::{is_ascii_spec_bytes, StringSliceAdditionalSpecFns};

verus! {

/// The stream that a container file belongs to.
#[derive(Clone, Copy, Debug, PartialEq, Eq, Structural)]
pub enum ContainerKind {
    /// The one legacy container, with the server-side files.
    Legacy,
    /// A chunk file of the shared stream.
    Shared,
    /// A chunk file of the client-side stream.
    Client,
}

/// What the copy does with one entry of a folder.
#[derive(Clone, Copy, Debug, PartialEq, Eq, Structural)]
pub enum CopyAction {
    /// Nothing: the entry is left out.
    Skip,
    /// The entry is a container file: it is remembered and not copied.
    Collect { kind: ContainerKind },
    /// The entry is a file and is copied.
    CopyFile,
    /// The entry is a folder and is walked; it is made in the output first
    /// where `create` holds.
    Descend { create: bool },
}

/// The path, relative to the script folder, names the loader.
pub open spec fn is_loader(rel: Seq<u8>) -> bool {
    glob_matches(LOADER_GLOB.spec_bytes(), rel)
}

/// The path, relative to the script folder, names a file of the packaging
/// folder that lies where container files lie.
pub open spec fn is_chunk_file(rel: Seq<u8>) -> bool {
    glob_matches(CHUNK_FILE_GLOB.spec_bytes(), rel)
}

/// The path, relative to the script folder, names the packaging folder or
/// a folder below it.
pub open spec fn is_chunk_dir(rel: Seq<u8>) -> bool {
    rel == GLUAPACK_DIR.spec_bytes() || glob_matches(CHUNK_DIR_GLOB.spec_bytes(), rel)
}

/// The stream of a container file, by its name; `None` for a name that
/// belongs to no stream.
pub open spec fn container_kind_spec(file_name: Seq<u8>) -> Option<ContainerKind> {
    if file_name == SV_PACKED_FILE_NAME.spec_bytes() {
        Some(ContainerKind::Legacy)
    } else if SH_CHUNK_SUFFIX.spec_bytes().is_suffix_of(file_name) {
        Some(ContainerKind::Shared)
    } else if CL_CHUNK_SUFFIX.spec_bytes().is_suffix_of(file_name) {
        Some(ContainerKind::Client)
    } else {
        None
    }
}

/// The name is that of a hidden entry or of the manifest.
pub open spec fn is_left_out(file_name: Seq<u8>) -> bool {
    HIDDEN_PREFIX.spec_bytes().is_prefix_of(file_name) || file_name
        == MANIFEST_FILE_NAME.spec_bytes()
}

/// What the copy does with an entry.
///
/// `rel` is the entry's path relative to the script folder, where it lies
/// in it; `hidden` says that the file system marks the entry as hidden.
/// Inside the script folder a file that is the loader is left out, and a
/// file that lies where container files lie is remembered under its stream,
/// or left out where its name belongs to none. Every other entry is left
/// out where its name marks it as hidden or as the manifest, or where the
/// file system does. What is left is walked if it is a folder, and made in
/// the output unless it is the packaging folder or lies below it; it is
/// copied if it is a file; and is left out if it is neither.
pub open spec fn classify_spec(
    rel: Option<Seq<u8>>,
    file_name: Seq<u8>,
    is_dir: bool,
    is_file: bool,
    hidden: bool,
) -> CopyAction {
    if rel is Some && !is_dir && is_loader(rel->0) {
        CopyAction::Skip
    } else if rel is Some && !is_dir && is_chunk_file(rel->0) {
        match container_kind_spec(file_name) {
            Some(kind) => CopyAction::Collect { kind },
            None => CopyAction::Skip,
        }
    } else if is_left_out(file_name) || hidden {
        CopyAction::Skip
    } else if is_dir {
        CopyAction::Descend { create: !(rel is Some && is_chunk_dir(rel->0)) }
    } else if is_file {
        CopyAction::CopyFile
    } else {
        CopyAction::Skip
    }
}

/// The bytes of a path that may be missing.
pub open spec fn rel_view(rel: Option<&[u8]>) -> Option<Seq<u8>> {
    match rel {
        Some(path) => Some(path@),
        None => None,
    }
}

/// The stream of a container file, by its name.
pub fn container_kind(file_name: &[u8]) -> (kind: Option<ContainerKind>)
    ensures
        kind == container_kind_spec(file_name@),
{
    if bytes_eq(file_name, SV_PACKED_FILE_NAME.as_bytes()) {
        Some(ContainerKind::Legacy)
    } else if ends_with(file_name, SH_CHUNK_SUFFIX.as_bytes()) {
        Some(ContainerKind::Shared)
    } else if ends_with(file_name, CL_CHUNK_SUFFIX.as_bytes()) {
        Some(ContainerKind::Client)
    } else {
        None
    }
}

/// Decides what the copy does with an entry.
pub fn classify(
    rel: Option<&[u8]>,
    file_name: &[u8],
    is_dir: bool,
    is_file: bool,
    hidden: bool,
) -> (action: CopyAction)
    ensures
        action == classify_spec(rel_view(rel), file_name@, is_dir, is_file, hidden),
{
    let mut create = true;
    if let Some(path) = rel {
        if is_dir {
            create = !(bytes_eq(path, GLUAPACK_DIR.as_bytes()) || glob_match_str(
                CHUNK_DIR_GLOB,
                path,
            ));
        } else if glob_match_str(LOADER_GLOB, path) {
            return CopyAction::Skip;
        } else if glob_match_str(CHUNK_FILE_GLOB, path) {
            return match container_kind(file_name) {
                Some(kind) => CopyAction::Collect { kind },
                None => CopyAction::Skip,
            };
        }
    }
    if starts_with(file_name, HIDDEN_PREFIX.as_bytes()) || bytes_eq(
        file_name,
        MANIFEST_FILE_NAME.as_bytes(),
    ) || hidden {
        CopyAction::Skip
    } else if is_dir {
        CopyAction::Descend { create }
    } else if is_file {
        CopyAction::CopyFile
    } else {
        CopyAction::Skip
    }
}

/// The container files that were found, each under its stream, in the
/// order in which they were found.
#[derive(Clone, Debug, PartialEq, Eq)]
pub struct Discovered {
    /// The legacy container, if there is one.
    pub sv_packed_file: Option<Vec<u8>>,
    /// The chunk files of the client-side stream.
    pub cl_chunk_files: Vec<Vec<u8>>,
    /// The chunk files of the shared stream.
    pub sh_chunk_files: Vec<Vec<u8>>,
}

/// The container files that were found, as mathematics sees them.
pub struct Found {
    pub sv: Option<Seq<u8>>,
    pub cl: Seq<Seq<u8>>,
    pub sh: Seq<Seq<u8>>,
}

impl Found {
    /// Nothing found.
    pub open spec fn empty() -> Found {
        Found { sv: None, cl: Seq::empty(), sh: Seq::empty() }
    }

    /// What is found once the file at `path` has joined the stream `kind`.
    /// A chunk file goes behind those of its stream; a legacy container
    /// takes the place of one found before.
    pub open spec fn with(self, kind: ContainerKind, path: Seq<u8>) -> Found {
        match kind {
            ContainerKind::Legacy => Found { sv: Some(path), ..self },
            ContainerKind::Shared => Found { sh: self.sh.push(path), ..self },
            ContainerKind::Client => Found { cl: self.cl.push(path), ..self },
        }
    }

    /// What is found once `action` was decided for the entry at `path`.
    pub open spec fn after(self, action: CopyAction, path: Seq<u8>) -> Found {
        match action {
            CopyAction::Collect { kind } => self.with(kind, path),
            _ => self,
        }
    }
}

impl View for Discovered {
    type V = Found;

    open spec fn view(&self) -> Found {
        Found {
            sv: match self.sv_packed_file {
                Some(path) => Some(path@),
                None => None,
            },
            cl: contents_of(self.cl_chunk_files@),
            sh: contents_of(self.sh_chunk_files@),
        }
    }
}

impl Discovered {
    /// Nothing found yet.
    pub fn new() -> (found: Discovered)
        ensures
            found@ == Found::empty(),
    {
        let found = Discovered {
            sv_packed_file: None,
            cl_chunk_files: Vec::new(),
            sh_chunk_files: Vec::new(),
        };
        assert(found@.cl =~= Seq::<Seq<u8>>::empty());
        assert(found@.sh =~= Seq::<Seq<u8>>::empty());
        found
    }

    /// Remembers the container file at `path` under the stream `kind`.
    pub fn record(&mut self, kind: ContainerKind, path: &[u8])
        ensures
            final(self)@ == old(self)@.with(kind, path@),
    {
        let owned = slice_to_vec(path);
        match kind {
            ContainerKind::Legacy => {
                self.sv_packed_file = Some(owned);
            },
            ContainerKind::Shared => {
                self.sh_chunk_files.push(owned);
                assert(self@.sh =~= old(self)@.sh.push(path@));
            },
            ContainerKind::Client => {
                self.cl_chunk_files.push(owned);
                assert(self@.cl =~= old(self)@.cl.push(path@));
            },
        }
    }

    /// Looks at a file that was found without a copy: it is remembered
    /// under its stream where it lies where container files lie and its
    /// name belongs to a stream. `rel` is the path of the file relative to
    /// the script folder.
    pub fn discover(&mut self, path: &[u8], rel: &[u8], file_name: &[u8]) -> (kind: Option<
        ContainerKind,
    >)
        ensures
            kind == (if is_chunk_file(rel@) {
                container_kind_spec(file_name@)
            } else {
                None
            }),
            final(self)@ == (match kind {
                Some(k) => old(self)@.with(k, path@),
                None => old(self)@,
            }),
    {
        if !glob_match_str(CHUNK_FILE_GLOB, rel) {
            return None;
        }
        let kind = container_kind(file_name);
        if let Some(k) = kind {
            self.record(k, path);
        }
        kind
    }
}

/// The state of one copy: where the links that were met lead to, and the
/// container files that were found.
pub struct CopyPass {
    /// The targets of the links met so far, each once.
    pub visited_symlinks: Vec<Vec<u8>>,
    /// The container files found so far.
    pub found: Discovered,
}

impl CopyPass {
    /// The targets of the links that were met so far.
    pub open spec fn visited(&self) -> Set<Seq<u8>> {
        Set::new(|path: Seq<u8>| contents_of(self.visited_symlinks@).contains(path))
    }

    /// A copy that has met no link and found no container.
    pub fn new() -> (pass: CopyPass)
        ensures
            pass.visited() == Set::<Seq<u8>>::empty(),
            pass.found@ == Found::empty(),
    {
        let pass = CopyPass { visited_symlinks: Vec::new(), found: Discovered::new() };
        assert(pass.visited() =~= Set::<Seq<u8>>::empty());
        pass
    }

    /// Meets a link that leads to `target`, and tells whether to follow
    /// it: a target is walked when a link leads to it for the first time,
    /// and never again.
    pub fn visit_symlink(&mut self, target: &[u8]) -> (follow: bool)
        ensures
            follow == !old(self).visited().contains(target@),
            final(self).visited() == old(self).visited().insert(target@),
            final(self).found == old(self).found,
    {
        if contains_bytes(&self.visited_symlinks, target) {
            assert(self.visited() =~= old(self).visited().insert(target@));
            return false;
        }
        self.visited_symlinks.push(slice_to_vec(target));
        proof {
            let before = contents_of(old(self).visited_symlinks@);
            let after = contents_of(self.visited_symlinks@);
            assert(after =~= before.push(target@));
            assert forall|p: Seq<u8>| after.contains(p) <==> (before.contains(p) || p
                == target@) by {
                if before.contains(p) {
                    let i = choose|i: int| 0 <= i < before.len() && before[i] == p;
                    assert(after[i] == p);
                }
                if p == target@ {
                    assert(after[before.len() as int] == p);
                }
            }
            assert(self.visited() =~= old(self).visited().insert(target@));
        }
        true
    }

    /// Decides what the copy does with the entry at `path`, and remembers
    /// the entry where it is a container file.
    pub fn copy_addon_entry(
        &mut self,
        path: &[u8],
        rel: Option<&[u8]>,
        file_name: &[u8],
        is_dir: bool,
        is_file: bool,
        hidden: bool,
    ) -> (action: CopyAction)
        ensures
            action == classify_spec(rel_view(rel), file_name@, is_dir, is_file, hidden),
            final(self).found@ == old(self).found@.after(action, path@),
            final(self).visited() == old(self).visited(),
    {
        let action = classify(rel, file_name, is_dir, is_file, hidden);
        if let CopyAction::Collect { kind } = action {
            self.found.record(kind, path);
        }
        action
    }
}

/// Exclusion: of the files of an addon the copy leaves out the loader,
/// the files that lie where container files lie, the hidden ones and the
/// manifest, and copies every other one. A file that lies where container
/// files lie is remembered if its name belongs to a stream, and only then.
pub proof fn lemma_exclusion(rel: Option<Seq<u8>>, file_name: Seq<u8>, hidden: bool)
    ensures
        ({
            let action = classify_spec(rel, file_name, false, true, hidden);
            let packed = rel is Some && (is_loader(rel->0) || is_chunk_file(rel->0));
            &&& action == CopyAction::CopyFile <==> !packed && !is_left_out(file_name) && !hidden
            &&& action is Collect <==> rel is Some && !is_loader(rel->0) && is_chunk_file(rel->0)
                && container_kind_spec(file_name) is Some
            &&& action is Collect ==> container_kind_spec(file_name) == Some(action->kind)
            &&& action == CopyAction::CopyFile || action == CopyAction::Skip || action is Collect
        }),
{
}

/// Exclusion of folders: a folder is walked unless it is hidden or named
/// as the manifest is, the packaging folder and what lies below it too;
/// but these are not made in the output.
pub proof fn lemma_exclusion_of_folders(
    rel: Option<Seq<u8>>,
    file_name: Seq<u8>,
    is_file: bool,
    hidden: bool,
)
    ensures
        ({
            let action = classify_spec(rel, file_name, true, is_file, hidden);
            &&& action is Descend <==> !is_left_out(file_name) && !hidden
            &&& action is Descend ==> action->create == !(rel is Some && is_chunk_dir(rel->0))
            &&& action is Descend || action == CopyAction::Skip
        }),
{
}

/// The targets that a copy has met once links have led it to those of
/// `met` in order, having met those of `start` before.
pub open spec fn visited_after(start: Set<Seq<u8>>, met: Seq<Seq<u8>>) -> Set<Seq<u8>>
    decreases met.len(),
{
    if met.len() == 0 {
        start
    } else {
        visited_after(start, met.drop_last()).insert(met.last())
    }
}

/// Whether the copy follows the link that leads it to the `i`-th of `met`.
pub open spec fn follows(start: Set<Seq<u8>>, met: Seq<Seq<u8>>, i: int) -> bool {
    !visited_after(start, met.take(i)).contains(met[i])
}

/// The number of links that the copy follows as they lead it to `met`.
pub open spec fn follow_count(start: Set<Seq<u8>>, met: Seq<Seq<u8>>) -> nat
    decreases met.len(),
{
    if met.len() == 0 {
        0
    } else {
        let before = follow_count(start, met.drop_last());
        if visited_after(start, met.drop_last()).contains(met.last()) {
            before
        } else {
            before + 1
        }
    }
}

/// The targets that a copy has met are those it had met before and those
/// it met since.
pub proof fn lemma_visited_after(start: Set<Seq<u8>>, met: Seq<Seq<u8>>)
    ensures
        forall|path: Seq<u8>|
            visited_after(start, met).contains(path) <==> start.contains(path) || met.contains(
                path,
            ),
    decreases met.len(),
{
    if met.len() > 0 {
        let before = met.drop_last();
        lemma_visited_after(start, before);
        assert forall|path: Seq<u8>|
            visited_after(start, met).contains(path) <==> start.contains(path) || met.contains(
                path,
            ) by {
            if before.contains(path) {
                let i = choose|i: int| 0 <= i < before.len() && before[i] == path;
                assert(met[i] == path);
            }
            if met.contains(path) {
                let i = choose|i: int| 0 <= i < met.len() && met[i] == path;
                if i < before.len() {
                    assert(before[i] == path);
                }
            }
            if path == met.last() {
                assert(met[met.len() - 1] == path);
            }
        }
    }
}

/// Cycle safety: a link is not followed where it leads to a target that a
/// link has led to before, however the walk came back to it.
pub proof fn lemma_followed_once(start: Set<Seq<u8>>, met: Seq<Seq<u8>>, i: int, j: int)
    requires
        0 <= i < j < met.len(),
        met[i] == met[j],
    ensures
        !follows(start, met, j),
{
    let before = met.take(j);
    lemma_visited_after(start, before);
    assert(before[i] == met[j]);
    assert(before.contains(met[j]));
    assert(visited_after(start, before).contains(met[j]));
}

/// Cycle safety, counted: every link that is followed adds a target to
/// those met. So a copy follows no more links than there are targets to
/// lead to, and a walk through links that lead back comes to an end.
pub proof fn lemma_follow_count(start: Set<Seq<u8>>, met: Seq<Seq<u8>>)
    requires
        start.finite(),
    ensures
        visited_after(start, met).finite(),
        visited_after(start, met).len() == start.len() + follow_count(start, met),
    decreases met.len(),
{
    if met.len() > 0 {
        lemma_follow_count(start, met.drop_last());
    }
}

/// The folders that are not made in the output are the packaging folder
/// and whatever lies below it.
pub proof fn lemma_chunk_dir(rel: Seq<u8>)
    ensures
        is_chunk_dir(rel) == (rel == "gluapack".spec_bytes() || "gluapack/".spec_bytes().is_prefix_of(
            rel,
        )),
{
    reveal_strlit("gluapack/*");
    reveal_strlit("gluapack/");
    reveal_strlit("gluapack");
    is_ascii_spec_bytes("gluapack/*");
    is_ascii_spec_bytes("gluapack/");
    let literal = "gluapack/".spec_bytes();
    assert(CHUNK_DIR_GLOB.spec_bytes() =~= literal.push(WILDCARD));
    lemma_glob_prefix(literal, rel);
}

/// In plain terms, where container files lie: below the packaging folder
/// and at least one folder deeper, in a file whose name ends as a
/// script's does.
pub open spec fn lies_with_chunks(rel: Seq<u8>) -> bool {
    &&& "gluapack/".spec_bytes().is_prefix_of(rel)
    &&& ".lua".spec_bytes().is_suffix_of(rel)
    &&& exists|i: int| 9 <= i <= rel.len() - 5 && #[trigger] rel[i] == 0x2f
}

/// In plain terms, the name of a loader: in the folder of scripts that
/// run by themselves, a script whose name holds the packer's mark.
pub open spec fn named_as_loader(rel: Seq<u8>) -> bool {
    &&& "autorun/".spec_bytes().is_prefix_of(rel)
    &&& ".lua".spec_bytes().is_suffix_of(rel)
    &&& exists|i: int|
        8 <= i <= rel.len() - 14 && #[trigger] rel.subrange(i, i + 10)
            == "_gluapack_".spec_bytes()
}

/// The pattern of the container files says what `lies_with_chunks` says.
pub proof fn lemma_chunk_file(rel: Seq<u8>)
    ensures
        is_chunk_file(rel) == lies_with_chunks(rel),
{
    reveal_strlit("gluapack/*/*.lua");
    reveal_strlit("gluapack/");
    reveal_strlit(".lua");
    is_ascii_spec_bytes("gluapack/*/*.lua");
    is_ascii_spec_bytes("gluapack/");
    is_ascii_spec_bytes(".lua");
    let folder = "gluapack/".spec_bytes();
    let slash = seq![0x2fu8];
    let script = ".lua".spec_bytes();
    let star = seq![WILDCARD];
    let inner = slash + (star + script);
    assert(CHUNK_FILE_GLOB.spec_bytes() =~= folder + (star + inner));
    lemma_glob_literal(folder, star + inner, rel);
    if folder.is_prefix_of(rel) {
        let below = rel.skip(9);
        lemma_glob_star(inner, below);
        assert forall|k: int| 0 <= k <= below.len() implies (tail_matches(inner, below, k) <==> k
            < below.len() && below[k] == 0x2f && script.is_suffix_of(below.skip(k + 1))) by {
            let rest = below.skip(k);
            lemma_glob_literal(slash, star + script, rest);
            lemma_glob_suffix(script, rest.skip(1));
            if slash.is_prefix_of(rest) {
                assert(rest.subrange(0, 1)[0] == rest[0]);
                assert(rest.skip(1) =~= below.skip(k + 1));
            }
            if k < below.len() && below[k] == 0x2f {
                assert(slash =~= rest.subrange(0, 1));
                assert(rest.skip(1) =~= below.skip(k + 1));
            }
        }
        if is_chunk_file(rel) {
            let k = choose|k: int| #[trigger] tail_matches(inner, below, k);
            let deeper = below.skip(k + 1);
            assert(rel[k + 9] == 0x2f);
            assert(script =~= rel.subrange(rel.len() - 4, rel.len() as int)) by {
                assert(deeper.subrange(deeper.len() - 4, deeper.len() as int) =~= rel.subrange(
                    rel.len() - 4,
                    rel.len() as int,
                ));
            }
        }
        if lies_with_chunks(rel) {
            let i = choose|i: int| 9 <= i <= rel.len() - 5 && #[trigger] rel[i] == 0x2f;
            let k = i - 9;
            let deeper = below.skip(k + 1);
            assert(below[k] == rel[i]);
            assert(script =~= deeper.subrange(deeper.len() - 4, deeper.len() as int)) by {
                assert(deeper.subrange(deeper.len() - 4, deeper.len() as int) =~= rel.subrange(
                    rel.len() - 4,
                    rel.len() as int,
                ));
            }
            assert(tail_matches(inner, below, k));
        }
    }
}

/// The pattern of the loader says what `named_as_loader` says.
pub proof fn lemma_loader(rel: Seq<u8>)
    ensures
        is_loader(rel) == named_as_loader(rel),
{
    reveal_strlit("autorun/*_gluapack_*.lua");
    reveal_strlit("autorun/");
    reveal_strlit("_gluapack_");
    reveal_strlit(".lua");
    is_ascii_spec_bytes("autorun/*_gluapack_*.lua");
    is_ascii_spec_bytes("autorun/");
    is_ascii_spec_bytes("_gluapack_");
    is_ascii_spec_bytes(".lua");
    let folder = "autorun/".spec_bytes();
    let mark = "_gluapack_".spec_bytes();
    let script = ".lua".spec_bytes();
    let star = seq![WILDCARD];
    let inner = mark + (star + script);
    assert(LOADER_GLOB.spec_bytes() =~= folder + (star + inner));
    lemma_glob_literal(folder, star + inner, rel);
    if folder.is_prefix_of(rel) {
        let below = rel.skip(8);
        lemma_glob_star(inner, below);
        assert forall|k: int| 0 <= k <= below.len() implies (tail_matches(inner, below, k) <==> k
            + 10 <= below.len() && below.subrange(k, k + 10) == mark && script.is_suffix_of(
            below.skip(k + 10),
        )) by {
            let rest = below.skip(k);
            lemma_glob_literal(mark, star + script, rest);
            lemma_glob_suffix(script, rest.skip(10));
            if k + 10 <= below.len() {
                assert(rest.subrange(0, 10) =~= below.subrange(k, k + 10));
                assert(rest.skip(10) =~= below.skip(k + 10));
            }
        }
        if is_loader(rel) {
            let k = choose|k: int| #[trigger] tail_matches(inner, below, k);
            let behind = below.skip(k + 10);
            assert(rel.subrange(k + 8, k + 8 + 10) =~= below.subrange(k, k + 10));
            assert(script =~= rel.subrange(rel.len() - 4, rel.len() as int)) by {
                assert(behind.subrange(behind.len() - 4, behind.len() as int) =~= rel.subrange(
                    rel.len() - 4,
                    rel.len() as int,
                ));
            }
        }
        if named_as_loader(rel) {
            let i = choose|i: int|
                8 <= i <= rel.len() - 14 && #[trigger] rel.subrange(i, i + 10) == mark;
            let k = i - 8;
            let behind = below.skip(k + 10);
            assert(below.subrange(k, k + 10) =~= rel.subrange(i, i + 10));
            assert(script =~= behind.subrange(behind.len() - 4, behind.len() as int)) by {
                assert(behind.subrange(behind.len() - 4, behind.len() as int) =~= rel.subrange(
                    rel.len() - 4,
                    rel.len() as int,
                ));
            }
            assert(tail_matches(inner, below, k));
        }
    }
}

} // verus!
