use std::cell::{Cell, RefCell};
use std::collections::{BTreeMap, HashMap};
use std::path::PathBuf;

use ferralk::classify::{classify_entry, Answer, EntryAction, Question};
use ferralk::failure::{Failure, FailureKind};
use ferralk::gitignore::{
    present_ignore_files, read_bounded, read_repository_config, DirectoryReads,
    GitIgnoreAdaptation, IgnoreRead, IgnoreScope, RepositoryReads, GIT_IGNORE_FILE, IGNORE_FILE,
    MAX_IGNORE_FILE_BYTES, REPOSITORY_EXCLUDE_FILE,
};
use ferralk::git_config::GitConfig;
use ferralk::listing::{defer_entry_stat_error, ListedEntry, Listing};
use ferralk::literal::{literal_extension, literal_pattern_root, Syntax};
use ferralk::options::{
    CancellationToken, ErrorPolicy, Metadata, Timestamp, Verdict, WalkEntry, WalkEntryKind,
    WalkError, WalkOptions, WalkResult, WildcardMode,
};
use ferralk::paths::{basename, push_name};
use ferralk::pattern::{
    walker_pattern_for_root, PathShape, TraversalPattern, WalkerPathViability,
};
use ferralk::pattern_error::PatternError;
use ferralk::repository::{
    ancestor_directories, place_of_root, private_directory, repository_layout_at, repository_step,
    CommonDir,
    DotGit, RepositoryLayout, RepositoryStep,
};
use ferralk::stream::{Identified, Turn, WalkStream};
use ferralk::walk::{
    Acted, CycleKey, DirectoryFrame, DirectoryOpen, DirectoryTask, FrameStep, SerialTask, Start,
    WalkState,
};
use ferralk::walker::{Host, NewRoot, Walker, MAX_WORKERS};

/// What a walk asks of a filesystem.
trait World {
    fn list(&self, path: &[u8]) -> Result<Listing, Failure>;

    fn target(&self, _path: &[u8]) -> Result<Metadata, Failure> {
        Err(failure(FailureKind::NotFound))
    }

    fn own(&self, _path: &[u8]) -> Result<Metadata, Failure> {
        Err(failure(FailureKind::NotFound))
    }

    /// Reads a file, through a link only where `follow` says so.
    fn read(&self, _path: &[u8], _follow: bool) -> Result<Vec<u8>, Failure> {
        Err(failure(FailureKind::NotFound))
    }

    /// The directory that relative paths start from.
    fn current(&self) -> Vec<u8> {
        b"/".to_vec()
    }

    /// The path without links and dots.
    fn canonical(&self, _path: &[u8]) -> Option<Vec<u8>> {
        None
    }

    fn key(&self, path: &[u8]) -> Result<CycleKey, Failure> {
        let metadata = self.target(path)?;
        Ok(CycleKey::Inode(metadata.device, metadata.inode))
    }
}

fn failure(kind: FailureKind) -> Failure {
    Failure::new(kind, "injected")
}

fn parent(path: &[u8]) -> Option<Vec<u8>> {
    let mut end = path.len();
    while end > 1 && path[end - 1] == b'/' {
        end -= 1;
    }
    let path = &path[..end];
    if path.is_empty() || path == b"/" {
        return None;
    }
    match path.iter().rposition(|&byte| byte == b'/') {
        Some(0) => Some(b"/".to_vec()),
        Some(at) => Some(path[..at].to_vec()),
        None => Some(Vec::new()),
    }
}

fn attempt(world: &dyn World, path: Vec<u8>, follow: bool) -> IgnoreRead {
    let outcome = world.read(&path, follow).and_then(read_bounded);
    IgnoreRead { path, outcome }
}

fn directory_reads(world: &dyn World, directory: &[u8], files: &[&str]) -> DirectoryReads {
    DirectoryReads {
        directory: directory.to_vec(),
        reads: files
            .iter()
            .map(|file| attempt(world, push_name(directory, file.as_bytes(), Syntax::Posix), false))
            .collect(),
    }
}

fn layout(world: &dyn World, root: &[u8]) -> Option<RepositoryLayout> {
    let dot_git = push_name(root, b".git", Syntax::Posix);
    let found = match world.target(&dot_git) {
        Ok(metadata) if metadata.is_dir => DotGit::Directory,
        Ok(_) => DotGit::File,
        Err(error) if error.kind() == FailureKind::NotFound => DotGit::Missing,
        Err(_) => DotGit::Unreadable,
    };
    match repository_step(found) {
        RepositoryStep::Plain => Some(RepositoryLayout {
            private_directory: dot_git.clone(),
            common_directory: dot_git,
        }),
        RepositoryStep::ReadPointer => {
            let pointer = world.read(&dot_git, true).and_then(read_bounded).ok()?;
            let private = private_directory(root, &pointer, Syntax::Posix)?;
            let common = match world.read(&push_name(&private, b"commondir", Syntax::Posix), true) {
                Ok(contents) => CommonDir::Contents(contents),
                Err(error) if error.kind() == FailureKind::NotFound => CommonDir::Missing,
                Err(_) => CommonDir::Unreadable,
            };
            repository_layout_at(private, common, Syntax::Posix)
        }
        RepositoryStep::AskParent | RepositoryStep::Nothing => None,
    }
}

fn root_task(world: &dyn World, walker: &Walker, index: usize) -> DirectoryTask<()> {
    let root = walker.roots()[index].to_vec();
    let mut adaptation = GitIgnoreAdaptation::default();
    let mut repository = None;
    let mut place = root.clone();
    if walker.respects_git_ignore() {
        place = place_of_root(&root, &world.current(), walker.syntax())
            .or_else(|| world.canonical(&root))
            .unwrap_or(place);
        let mut above = vec![place.clone()];
        while let Some(next) = parent(above.last().expect("a root")) {
            above.push(next);
        }
        let mut config = GitConfig::default();
        for candidate in &above {
            let missing = matches!(
                world.target(&push_name(candidate, b".git", Syntax::Posix)),
                Err(ref error) if error.kind() == FailureKind::NotFound
            );
            if missing {
                continue;
            }
            if let Some(layout) = layout(world, candidate) {
                let common = world.read(&push_name(&layout.common_directory, b"config", Syntax::Posix), true).ok();
                let worktree = world
                    .read(&push_name(&layout.private_directory, b"config.worktree", Syntax::Posix), true)
                    .ok();
                config = read_repository_config(common.as_deref(), worktree.as_deref());
                let exclude = push_name(&layout.common_directory, REPOSITORY_EXCLUDE_FILE.as_bytes(), Syntax::Posix);
                let ancestors = ancestor_directories(&above, candidate);
                repository = Some(RepositoryReads {
                    root: candidate.clone(),
                    exclude: attempt(world, exclude, true),
                    ancestors: ancestors
                        .iter()
                        .map(|directory| {
                            directory_reads(world, directory, &[GIT_IGNORE_FILE, IGNORE_FILE])
                        })
                        .collect(),
                });
            }
            break;
        }
        let (case, precompose) = walker.git_overrides();
        adaptation = GitIgnoreAdaptation::effective(case, precompose, config, false);
    }
    let (ignores, errors) = IgnoreScope::for_root(
        walker.respects_git_ignore(),
        &root,
        place,
        adaptation,
        repository,
        walker.syntax(),
    );
    DirectoryTask::for_root(root, index, ignores, errors)
}

fn root_tasks(world: &dyn World, walker: &Walker) -> Vec<DirectoryTask<()>> {
    (0..walker.root_count()).map(|index| root_task(world, walker, index)).collect()
}

fn own_reads(world: &dyn World, walker: &Walker, path: &[u8], listing: &Listing) -> DirectoryReads {
    if !walker.respects_git_ignore() {
        return DirectoryReads { directory: path.to_vec(), reads: Vec::new() };
    }
    directory_reads(world, path, &present_ignore_files(listing))
}

fn settle(
    world: &dyn World,
    walker: &Walker,
    root: usize,
    path: &[u8],
    entry: &ListedEntry,
    ignores: &IgnoreScope,
    depth: usize,
) -> (EntryAction, Option<Failure>) {
    let mut target: Answer = None;
    let mut own: Answer = None;
    loop {
        let action = classify_entry(walker, root, path, entry, ignores, depth, &target, &own);
        match action {
            EntryAction::Ask(Question::Target) => target = Some(world.target(path)),
            EntryAction::Ask(Question::Own) => own = Some(world.own(path)),
            EntryAction::Failed { question, .. } => {
                let answer = match question {
                    Question::Target => target,
                    Question::Own => own,
                };
                return (action, answer.and_then(|answer| answer.err()));
            }
            _ => return (action, None),
        }
    }
}

fn start(
    world: &dyn World,
    walker: &Walker,
    state: &mut WalkState<()>,
    task: DirectoryTask<()>,
) -> Result<(), WalkError> {
    let task = match state.start_directory(walker, task, walker.is_cancelled())? {
        Start::Cancelled => return Ok(()),
        Start::Read(task) => task,
        Start::Identify(task) => {
            let key = world.key(&task.path);
            match state.enter_directory(walker, task, key)? {
                Some(task) => task,
                None => return Ok(()),
            }
        }
    };
    match world.list(&task.path) {
        Ok(listing) => {
            let own = own_reads(world, walker, &task.path, &listing);
            state.open_directory(walker, task, listing, own)
        }
        Err(source) => state.fail_directory(walker, task, source),
    }
}

fn resume(
    world: &dyn World,
    walker: &Walker,
    state: &mut WalkState<()>,
    frame: DirectoryFrame<()>,
    visit: &mut dyn FnMut(&WalkEntry) -> Verdict,
) -> Result<(), WalkError> {
    let Some(mut frame) = frame.resume(true) else {
        return Ok(());
    };
    loop {
        let requested = frame.polls() && walker.is_cancelled();
        match state.step_frame(&mut frame, requested) {
            FrameStep::Cancelled => return Ok(()),
            FrameStep::Drained => return state.drain_directory(walker, frame),
            FrameStep::Classify(index) => {
                let entry = &frame.listing.entries()[index];
                let path = push_name(&frame.task.path, entry.name(), Syntax::Posix);
                let (action, problem) = settle(
                    world,
                    walker,
                    frame.task.root,
                    &path,
                    entry,
                    &frame.ignores,
                    frame.task.depth,
                );
                let open = DirectoryOpen::ByPath;
                match state.act(walker, frame, path, action, problem, open, None)? {
                    Acted::Continue(next) => frame = next,
                    Acted::Visit(next, entry) => {
                        let verdict = visit(&entry);
                        state.emit_owned(entry, verdict);
                        frame = next;
                    }
                    Acted::Left => return Ok(()),
                }
            }
        }
    }
}

fn visit(
    world: &dyn World,
    walker: &Walker,
    visitor: &mut dyn FnMut(&WalkEntry) -> Verdict,
) -> Result<WalkResult, WalkError> {
    let mut state = WalkState::new(root_tasks(world, walker));
    while let Some(task) = state.next_task() {
        match task {
            SerialTask::Directory(task) => start(world, walker, &mut state, task)?,
            SerialTask::Resume(frame) => resume(world, walker, &mut state, frame, visitor)?,
            SerialTask::Emit(entry) => {
                let verdict = visitor(&entry);
                state.emit_owned(entry, verdict);
            }
        }
    }
    Ok(state.finish(walker))
}

fn collect(world: &dyn World, walker: &Walker) -> Result<WalkResult, WalkError> {
    visit(world, walker, &mut |_| Verdict::Keep)
}

/// One turn after another, until something is said.
fn next(
    world: &dyn World,
    walker: &Walker,
    stream: &mut WalkStream<()>,
) -> Option<Result<WalkEntry, WalkError>> {
    loop {
        match stream.turn(walker.policy(), walker.is_cancelled()) {
            Turn::End => return None,
            Turn::Yield(error) => return Some(Err(error)),
            Turn::Again => {}
            Turn::Classify(index) => {
                let (depth, root) = stream.place();
                let entry = &stream.listing().entries()[index];
                let path = push_name(stream.directory(), entry.name(), Syntax::Posix);
                let (action, problem) =
                    settle(world, walker, root, &path, entry, stream.ignores(), depth);
                let open = DirectoryOpen::ByPath;
                if let Some(item) = stream.process_entry(walker, path, action, problem, open) {
                    return Some(item);
                }
            }
            Turn::Prepare(task) => {
                let task = if walker.walk_options().follow_symlinks {
                    let key = world.key(&task.path);
                    match stream.identify(walker, task, key) {
                        Identified::Entered(task) => task,
                        Identified::Cycle(None) | Identified::Failed(None) => continue,
                        Identified::Cycle(Some(error)) | Identified::Failed(Some(error)) => {
                            return Some(Err(error));
                        }
                    }
                } else {
                    task
                };
                let said = match world.list(&task.path) {
                    Ok(listing) => {
                        let own = own_reads(world, walker, &task.path, &listing);
                        stream.prepare_directory(walker, task, listing, own)
                    }
                    Err(source) => stream.fail_directory(walker, task, source),
                };
                if let Some(error) = said {
                    return Some(Err(error));
                }
            }
        }
    }
}

fn streamed(world: &dyn World, walker: &Walker) -> Vec<Result<WalkEntry, WalkError>> {
    let mut stream = WalkStream::new(root_tasks(world, walker));
    let mut items = Vec::new();
    while let Some(item) = next(world, walker, &mut stream) {
        items.push(item);
    }
    items
}

fn streamed_entries(world: &dyn World, walker: &Walker) -> Vec<WalkEntry> {
    streamed(world, walker)
        .into_iter()
        .map(|item| item.expect("stream succeeds"))
        .collect()
}

enum Node {
    File(Vec<u8>),
    Directory,
    Link(Vec<u8>),
}

/// A tree held in memory, listed in the order of its names.
struct Tree {
    nodes: BTreeMap<Vec<u8>, Node>,
    reads: RefCell<Vec<String>>,
    ignore_reads: RefCell<HashMap<Vec<u8>, usize>>,
    targets: Cell<usize>,
    owns: RefCell<Vec<Vec<u8>>>,
    refused: BTreeMap<Vec<u8>, FailureKind>,
    current: Vec<u8>,
}

const ROOT: &str = "/fixture";

impl Tree {
    fn new() -> Self {
        let mut tree = Tree {
            nodes: BTreeMap::new(),
            reads: RefCell::new(Vec::new()),
            ignore_reads: RefCell::new(HashMap::new()),
            targets: Cell::new(0),
            owns: RefCell::new(Vec::new()),
            refused: BTreeMap::new(),
            current: b"/".to_vec(),
        };
        tree.nodes.insert(b"/".to_vec(), Node::Directory);
        tree.directory("");
        tree
    }

    fn at(relative: &str) -> Vec<u8> {
        if relative.is_empty() {
            ROOT.as_bytes().to_vec()
        } else {
            format!("{ROOT}/{relative}").into_bytes()
        }
    }

    fn place(&mut self, path: Vec<u8>, node: Node) {
        let mut above = parent(&path);
        while let Some(directory) = above {
            above = parent(&directory);
            self.nodes.entry(directory).or_insert(Node::Directory);
        }
        self.nodes.insert(path, node);
    }

    fn write(&mut self, relative: &str) {
        self.contents(relative, b"fixture");
    }

    fn contents(&mut self, relative: &str, contents: &[u8]) {
        self.place(Tree::at(relative), Node::File(contents.to_vec()));
    }

    fn directory(&mut self, relative: &str) {
        self.place(Tree::at(relative), Node::Directory);
    }

    fn link(&mut self, target: &str, relative: &str) {
        self.place(Tree::at(relative), Node::Link(target.as_bytes().to_vec()));
    }

    /// The path without links, or why there is none.
    fn resolve(&self, path: &[u8], follow_last: bool) -> Result<Vec<u8>, FailureKind> {
        let mut left = path
            .split(|&byte| byte == b'/')
            .filter(|name| !name.is_empty())
            .map(|name| name.to_vec())
            .collect::<Vec<_>>();
        left.reverse();
        let mut at = if path.starts_with(b"/") {
            b"/".to_vec()
        } else {
            self.current.clone()
        };
        let mut links = 0;
        while let Some(name) = left.pop() {
            if name == b"." {
                continue;
            }
            if name == b".." {
                at = parent(&at).unwrap_or_else(|| b"/".to_vec());
                continue;
            }
            if !matches!(self.nodes.get(&at), Some(Node::Directory)) {
                return Err(FailureKind::NotADirectory);
            }
            let next = push_name(&at, &name, Syntax::Posix);
            match self.nodes.get(&next) {
                None => return Err(FailureKind::NotFound),
                Some(Node::Link(target)) if follow_last || !left.is_empty() => {
                    links += 1;
                    if links > 40 {
                        return Err(FailureKind::FilesystemLoop);
                    }
                    if target.starts_with(b"/") {
                        at = b"/".to_vec();
                    }
                    for part in target.split(|&byte| byte == b'/').rev() {
                        if !part.is_empty() {
                            left.push(part.to_vec());
                        }
                    }
                }
                Some(_) => at = next,
            }
        }
        Ok(at)
    }

    fn describe(&self, path: &[u8]) -> Metadata {
        let inode = self.nodes.keys().position(|key| key == path).expect("a node") as u64 + 1;
        let (is_dir, is_symlink, len) = match &self.nodes[path] {
            Node::File(contents) => (false, false, contents.len() as u64),
            Node::Directory => (true, false, 0),
            Node::Link(target) => (false, true, target.len() as u64),
        };
        let modified = Some(Timestamp { seconds: 1_700_000_000, nanoseconds: 250 });
        let mode = Some(if is_dir { 0o40755 } else { 0o100644 });
        Metadata { is_dir, is_symlink, len, device: 1, inode, modified, mode }
    }

    fn directories_read(&self) -> Vec<String> {
        self.reads.borrow().clone()
    }
}

impl World for Tree {
    fn list(&self, path: &[u8]) -> Result<Listing, Failure> {
        let relative = String::from_utf8(path.to_vec())
            .expect("a directory of the fixture")
            .trim_start_matches(ROOT)
            .trim_start_matches('/')
            .to_owned();
        self.reads.borrow_mut().push(relative);
        if let Some(kind) = self.refused.get(path) {
            return Err(failure(*kind));
        }
        let directory = self.resolve(path, true).map_err(failure)?;
        if !matches!(self.nodes[&directory], Node::Directory) {
            return Err(failure(FailureKind::NotADirectory));
        }
        let mut listing = Listing::default();
        for (child, node) in &self.nodes {
            if parent(child).as_deref() == Some(&directory[..]) {
                let name = basename(child, Syntax::Posix).expect("a child has a name");
                let is_dir = matches!(node, Node::Directory);
                listing.push(name, is_dir, matches!(node, Node::Link(_)));
            }
        }
        Ok(listing)
    }

    fn current(&self) -> Vec<u8> {
        self.current.clone()
    }

    fn canonical(&self, path: &[u8]) -> Option<Vec<u8>> {
        self.resolve(path, true).ok()
    }

    fn target(&self, path: &[u8]) -> Result<Metadata, Failure> {
        self.targets.set(self.targets.get() + 1);
        if let Some(kind) = self.refused.get(path) {
            return Err(failure(*kind));
        }
        let resolved = self.resolve(path, true).map_err(failure)?;
        Ok(self.describe(&resolved))
    }

    fn own(&self, path: &[u8]) -> Result<Metadata, Failure> {
        self.owns.borrow_mut().push(path.to_vec());
        if let Some(kind) = self.refused.get(path) {
            return Err(failure(*kind));
        }
        let resolved = self.resolve(path, false).map_err(failure)?;
        Ok(self.describe(&resolved))
    }

    fn read(&self, path: &[u8], follow: bool) -> Result<Vec<u8>, Failure> {
        *self.ignore_reads.borrow_mut().entry(path.to_vec()).or_default() += 1;
        if let Some(kind) = self.refused.get(path) {
            return Err(failure(*kind));
        }
        let resolved = self.resolve(path, follow).map_err(failure)?;
        match &self.nodes[&resolved] {
            Node::File(contents) => Ok(contents.clone()),
            Node::Link(_) => Err(failure(FailureKind::FilesystemLoop)),
            Node::Directory => Err(failure(FailureKind::Other)),
        }
    }
}

fn host() -> Host {
    Host { syntax: Syntax::Posix, parallelism: 1 }
}

fn walker() -> Walker {
    walker_at(ROOT)
}

fn walker_at(root: &str) -> Walker {
    Walker::new(root.as_bytes().to_vec(), host())
}

/// The shape of a pattern that names entries of a walk.
fn shape(pattern: &str) -> PathShape {
    let bytes = pattern.as_bytes();
    let reaches_hidden = bytes.iter().enumerate().any(|(at, &byte)| {
        byte == b'.'
            && bytes.get(at + 1).is_some_and(|&next| next != b'/')
            && (at == 0 || matches!(bytes[at - 1], b'/' | b'{' | b',' | b'(' | b'|'))
    });
    PathShape { viability: WalkerPathViability::Viable, problem: None, reaches_hidden }
}

fn unwalkable(viability: WalkerPathViability, problem: Option<usize>) -> PathShape {
    PathShape { viability, problem, reaches_hidden: false }
}

fn select(walker: Walker, pattern: &str) -> Result<Walker, PatternError> {
    let shapes = vec![shape(pattern); walker.root_count()];
    walker.including(pattern.as_bytes(), &shapes)
}

fn reject(walker: Walker, pattern: &str) -> Result<Walker, PatternError> {
    let shapes = vec![shape(pattern); walker.root_count()];
    walker.exclude(pattern.as_bytes(), &shapes)
}

fn shapes_of(sources: &[Vec<u8>]) -> Vec<PathShape> {
    sources
        .iter()
        .map(|source| shape(std::str::from_utf8(source).expect("a written pattern")))
        .collect()
}

fn another_root(walker: Walker, root: &str) -> Result<Walker, PatternError> {
    let selected = shapes_of(walker.include_sources());
    let rejected = shapes_of(walker.exclude_sources());
    walker.add_root(root.as_bytes().to_vec(), &selected, &rejected)
}

fn sorted() -> WalkOptions {
    WalkOptions::default().sort(true)
}

fn text(path: &[u8]) -> String {
    String::from_utf8(path.to_vec()).expect("a path of the fixture")
}

fn relative_to(entries: &[WalkEntry], root: &str) -> Vec<String> {
    entries
        .iter()
        .map(|entry| {
            text(entry.path())
                .strip_prefix(root)
                .expect("entry is rooted in the fixture")
                .trim_start_matches('/')
                .to_owned()
        })
        .collect()
}

fn relative(entries: &[WalkEntry]) -> Vec<String> {
    relative_to(entries, ROOT)
}

fn by_path(mut entries: Vec<WalkEntry>) -> Vec<WalkEntry> {
    entries.sort_by_key(|entry| PathBuf::from(text(entry.path())));
    entries
}

fn found(world: &dyn World, walker: &Walker) -> Vec<String> {
    relative(collect(world, walker).expect("walk succeeds").entries())
}

/// What one frontend observed of a walk. An aborted walk is comparable by the
/// operation that ended it alone.
#[derive(Debug, PartialEq, Eq)]
enum Outcome {
    Completed { entries: Vec<String>, errors: Vec<(&'static str, String)> },
    Aborted(&'static str),
}

fn errors_of(errors: &[WalkError]) -> Vec<(&'static str, String)> {
    let mut errors = errors
        .iter()
        .map(|error| (error.operation(), text(error.path())))
        .collect::<Vec<_>>();
    errors.sort_unstable();
    errors
}

fn outcome(result: Result<WalkResult, WalkError>) -> Outcome {
    match result {
        Ok(result) => {
            let mut entries = relative(result.entries());
            entries.sort_unstable();
            Outcome::Completed { entries, errors: errors_of(result.errors()) }
        }
        Err(error) => Outcome::Aborted(error.operation()),
    }
}

fn stream_outcome(items: Vec<Result<WalkEntry, WalkError>>, policy: ErrorPolicy) -> Outcome {
    let mut entries = Vec::new();
    let mut errors = Vec::new();
    for item in items {
        match item {
            Ok(entry) => entries.push(entry),
            Err(error) => {
                if policy == ErrorPolicy::Abort {
                    return Outcome::Aborted(error.operation());
                }
                errors.push(error);
            }
        }
    }
    let mut entries = relative(&entries);
    entries.sort_unstable();
    Outcome::Completed { entries, errors: errors_of(&errors) }
}

fn keeps(entry: &WalkEntry) -> bool {
    entry.path().iter().filter(|&&byte| byte == b'a').count() % 2 == 0
}

/// Collecting, visiting and streaming report the same entries and the same
/// errors for the same tree under every policy, and a filter in the visitor
/// finds what the same filter finds in the result.
fn assert_frontends_agree(label: &str, world: &dyn World, build: &dyn Fn() -> Walker) {
    for policy in [ErrorPolicy::Collect, ErrorPolicy::Skip, ErrorPolicy::Abort] {
        let walker = build().error_policy(policy);
        let serial = outcome(collect(world, &walker));
        let stream = stream_outcome(streamed(world, &walker), policy);
        assert_eq!(stream, serial, "{label}: stream and collect disagree under {policy:?}");
        let kept = outcome(visit(world, &walker, &mut |_| Verdict::Keep));
        assert_eq!(kept, serial, "{label}: visit disagrees under {policy:?}");
        let filtered = outcome(visit(world, &walker, &mut |entry| {
            if keeps(entry) {
                Verdict::Keep
            } else {
                Verdict::Skip
            }
        }));
        let expected = match collect(world, &walker) {
            Err(error) => Outcome::Aborted(error.operation()),
            Ok(result) => {
                let (entries, errors) = result.into_parts();
                let entries = entries.into_iter().filter(keeps).collect::<Vec<_>>();
                let mut entries = relative(&entries);
                entries.sort_unstable();
                Outcome::Completed { entries, errors: errors_of(&errors) }
            }
        };
        assert_eq!(filtered, expected, "{label}: a filtering visit disagrees under {policy:?}");
    }
}

fn strings(names: &[&str]) -> Vec<String> {
    names.iter().map(|name| (*name).to_owned()).collect()
}

#[test]
fn worker_budget_is_bounded_at_both_ends() {
    assert_eq!(walker_at(".").threads(0).worker_count(), 1);
    assert_eq!(walker_at(".").threads(usize::MAX).worker_count(), MAX_WORKERS);
}

#[test]
fn descriptor_relative_descent_requires_path_independent_options() {
    assert!(walker_at(".").allows_descriptor_relative_descent());
    assert!(
        walker_at(".")
            .options(WalkOptions::default().files_only(true))
            .allows_descriptor_relative_descent(),
        "kind filters use the listing unless symlink resolution is requested"
    );
    assert!(!walker_at(".").respect_git_ignore(true).allows_descriptor_relative_descent());
    for options in [
        WalkOptions::default().follow_symlinks(true),
        WalkOptions::default().metadata(true),
        WalkOptions::default().resolve_symlink_kind(true),
    ] {
        assert!(!walker_at(".").options(options).allows_descriptor_relative_descent());
    }
}

/// Every directory down to a depth holds one directory.
struct DeepChain {
    depth: usize,
}

impl World for DeepChain {
    fn list(&self, path: &[u8]) -> Result<Listing, Failure> {
        let mut listing = Listing::default();
        let depth = path.iter().filter(|&&byte| byte == b'/').count() - 1;
        if depth < self.depth {
            listing.push(b"child", true, false);
        }
        Ok(listing)
    }
}

#[test]
fn serial_collect_handles_a_deep_directory_chain_without_recursion() {
    let world = DeepChain { depth: 4_096 };
    let walker = walker_at("/serial-deep-chain")
        .threads(1)
        .options(WalkOptions::default().files_only(true));
    let result = collect(&world, &walker).expect("no call frame per directory is needed");

    assert!(result.entries().is_empty(), "the tree has only directories");
    assert!(result.errors().is_empty());
}

/// Directories with listings in a given order.
struct Mock {
    listings: HashMap<Vec<u8>, Vec<(&'static str, bool, bool)>>,
    reads: RefCell<Vec<String>>,
    target: Option<FailureKind>,
    own: Option<FailureKind>,
    targets: Cell<usize>,
    unknown: Option<(FailureKind, usize)>,
}

impl Mock {
    fn new(listings: &[(&str, &[(&'static str, bool, bool)])]) -> Self {
        Mock {
            listings: listings
                .iter()
                .map(|(path, listing)| (path.as_bytes().to_vec(), listing.to_vec()))
                .collect(),
            reads: RefCell::new(Vec::new()),
            target: None,
            own: None,
            targets: Cell::new(0),
            unknown: None,
        }
    }
}

fn some_metadata() -> Metadata {
    Metadata { is_dir: true, is_symlink: false, len: 0, device: 1, inode: 1, modified: None, mode: None }
}

impl World for Mock {
    fn list(&self, path: &[u8]) -> Result<Listing, Failure> {
        self.reads.borrow_mut().push(text(path));
        let mut listing = Listing::default();
        for (index, &(name, is_dir, is_symlink)) in
            self.listings.get(path).into_iter().flatten().enumerate()
        {
            if let Some((kind, at)) = self.unknown {
                if at == index {
                    let unknown = push_name(path, b"unknown", Syntax::Posix);
                    defer_entry_stat_error(&mut listing, unknown, failure(kind))?;
                }
            }
            listing.push(name.as_bytes(), is_dir, is_symlink);
        }
        Ok(listing)
    }

    fn target(&self, _path: &[u8]) -> Result<Metadata, Failure> {
        self.targets.set(self.targets.get() + 1);
        match self.target {
            Some(kind) => Err(failure(kind)),
            None => Ok(some_metadata()),
        }
    }

    fn own(&self, _path: &[u8]) -> Result<Metadata, Failure> {
        match self.own {
            Some(kind) => Err(failure(kind)),
            None => Ok(some_metadata()),
        }
    }
}

#[test]
fn serial_unsorted_directories_are_emitted_after_their_own_subtrees() {
    let root = "/serial-emission-order";
    let world = Mock::new(&[
        ("/serial-emission-order", &[("b", true, false), ("a", true, false)]),
        ("/serial-emission-order/b", &[("f2.txt", false, false)]),
        ("/serial-emission-order/a", &[("f1.txt", false, false)]),
    ]);
    let result = collect(&world, &walker_at(root).threads(1)).expect("walk succeeds");

    assert_eq!(relative_to(result.entries(), root), strings(&["b/f2.txt", "b", "a/f1.txt", "a"]));
}

#[test]
fn stream_discards_partial_listing_after_a_directory_read_error() {
    let tree = Tree::new();
    let missing = format!("{ROOT}/missing");
    let walker = walker_at(&missing).error_policy(ErrorPolicy::Collect);
    let mut stream: WalkStream<()> = WalkStream::new(root_tasks(&tree, &walker));

    // The stream holds a listing already when the next directory fails.
    let mut stale = Listing::default();
    stale.push(b"must-not-leak", false, false);
    let nothing = DirectoryReads { directory: Vec::new(), reads: Vec::new() };
    let held = root_task(&tree, &walker, 0);
    assert!(stream.prepare_directory(&walker, held, stale, nothing).is_none());
    assert_eq!(stream.listing().entries().len(), 1);

    let task = root_task(&tree, &walker, 0);
    let source = tree.list(missing.as_bytes()).expect_err("nothing is there");
    let error = stream
        .fail_directory(&walker, task, source)
        .expect("the failed root produces an error");
    assert_eq!(error.operation(), "read_dir");
    assert!(stream.listing().entries().is_empty());

    // What is left is the queued root, which fails in its own turn.
    let again = next(&tree, &walker, &mut stream).expect("the queued root is read");
    assert_eq!(again.expect_err("it is missing, too").operation(), "read_dir");
    assert!(next(&tree, &walker, &mut stream).is_none(), "partial entries must not leak");
}

#[test]
fn include_exclude_and_sort_are_applied_to_relative_paths() {
    let mut tree = Tree::new();
    tree.write("src/main.rs");
    tree.write("src/lib.txt");
    tree.write("target/generated.rs");

    let walker = reject(select(walker(), "**/*.rs").expect("valid"), "**/target/**")
        .expect("valid")
        .options(sorted());
    let result = collect(&tree, &walker).expect("walk succeeds");

    assert_eq!(relative(result.entries()), strings(&["src/main.rs"]));
    assert!(result.errors().is_empty());
}

fn configured_filter_sources(walker: &Walker) -> Vec<(Vec<Vec<u8>>, Vec<Vec<u8>>)> {
    (0..walker.root_count())
        .map(|root| {
            let plan = walker.plan(root);
            let sources = |patterns: &Vec<TraversalPattern>| {
                patterns.iter().map(|pattern| pattern.source().to_vec()).collect::<Vec<_>>()
            };
            (sources(plan.includes()), sources(plan.excludes()))
        })
        .collect()
}

fn rooted_relative(entries: &[WalkEntry]) -> Vec<(String, String)> {
    let mut paths = entries
        .iter()
        .map(|entry| {
            let root = text(entry.root());
            let path = text(entry.path());
            let below = path.strip_prefix(&root).expect("entry is rooted in its declared root");
            let below = below.trim_start_matches('/').to_owned();
            (root, below)
        })
        .collect::<Vec<_>>();
    paths.sort_unstable();
    paths
}

#[test]
fn borrowed_pattern_lists_keep_the_builder_and_filter_every_frontend() {
    let mut tree = Tree::new();
    for root in ["alpha", "beta"] {
        tree.write(&format!("{root}/src/keep.rs"));
        tree.write(&format!("{root}/src/remove.rs"));
        tree.write(&format!("{root}/src/ignore.txt"));
        tree.write(&format!("{root}/.hidden.rs"));
    }
    let alpha = format!("{ROOT}/alpha");
    let beta = format!("{ROOT}/beta");

    let mut walker = another_root(walker_at(&alpha), &beta)
        .expect("valid second root")
        .match_hidden(true)
        .wildcard_mode(WildcardMode::SeparatorCrossing)
        .options(WalkOptions::default().files_only(true).sort(true));
    let both = |pattern: &str| vec![shape(pattern); 2];

    walker.try_include(b"*.rs", &both("*.rs")).expect("the first pattern is valid");
    let before_bad = walker.clone();
    assert!(walker.try_include(b"[a", &both("[a")).is_err());
    assert_eq!(walker.include_sources(), before_bad.include_sources());
    assert_eq!(walker.exclude_sources(), before_bad.exclude_sources());
    assert_eq!(
        configured_filter_sources(&walker),
        configured_filter_sources(&before_bad),
        "a rejected pattern must not update any root"
    );
    walker
        .try_include(b"**/also.rs", &both("**/also.rs"))
        .expect("a later pattern still composes");

    walker.try_exclude(b"**/remove.rs", &both("**/remove.rs")).expect("the pattern is valid");
    let before_bad = walker.clone();
    assert!(walker.try_exclude(b"[a", &both("[a")).is_err());
    assert_eq!(walker.include_sources(), before_bad.include_sources());
    assert_eq!(walker.exclude_sources(), before_bad.exclude_sources());
    assert_eq!(
        configured_filter_sources(&walker),
        configured_filter_sources(&before_bad),
        "a rejected exclude must not update any root"
    );
    walker
        .try_exclude(b"**/generated/**", &both("**/generated/**"))
        .expect("a later exclude still composes");

    let expected = vec![
        (alpha.clone(), ".hidden.rs".to_owned()),
        (alpha.clone(), "src/keep.rs".to_owned()),
        (beta.clone(), ".hidden.rs".to_owned()),
        (beta.clone(), "src/keep.rs".to_owned()),
    ];
    for threads in [1, 4] {
        let walker = walker.clone().threads(threads);
        let collected = collect(&tree, &walker).expect("collect succeeds");
        assert_eq!(rooted_relative(collected.entries()), expected);
        let visited = visit(&tree, &walker, &mut |_| Verdict::Keep).expect("visit succeeds");
        assert_eq!(rooted_relative(visited.entries()), expected);
    }
    assert_eq!(rooted_relative(&streamed_entries(&tree, &walker)), expected);
}

#[test]
fn source_walk_glob_patterns_filter_recursive_anchored_and_brace_paths() {
    let mut tree = Tree::new();
    for path in ["src/a.rs", "src/b.txt", "src/deep/e.rs", "lib/c.rs", "docs/d.md", "top.rs"] {
        tree.write(path);
    }
    let paths_for =
        |pattern: &str| found(&tree, &select(walker(), pattern).expect("valid").options(sorted()));

    assert_eq!(
        paths_for("**/*.rs"),
        strings(&["lib/c.rs", "src/a.rs", "src/deep/e.rs", "top.rs"])
    );
    assert_eq!(
        paths_for("src/**"),
        strings(&["src", "src/a.rs", "src/b.txt", "src/deep", "src/deep/e.rs"])
    );
    assert_eq!(paths_for("**/*.{md,txt}"), strings(&["docs/d.md", "src/b.txt"]));
}

const MODES: [WildcardMode; 2] =
    [WildcardMode::ComponentScoped, WildcardMode::SeparatorCrossing];

#[test]
fn relative_patterns_that_name_no_candidate_are_rejected_with_guidance() {
    let mut tree = Tree::new();
    for path in ["src/main.rs", "src/a.rs", "src/].rs", "prefix../bar", "foo/..suffix/bar"] {
        tree.write(path);
    }

    for mode in MODES {
        for (pattern, viability) in [
            (".", WalkerPathViability::Root),
            ("./", WalkerPathViability::Root),
            ("src/.", WalkerPathViability::TrailingDot),
            ("src/./main.rs", WalkerPathViability::DotComponent),
            ("././src/**", WalkerPathViability::DotComponent),
            ("src/../main.rs", WalkerPathViability::ParentComponent),
            ("+(dead/../branch)", WalkerPathViability::ParentComponent),
        ] {
            let shapes = [unwalkable(viability, None)];
            let walker = || walker().wildcard_mode(mode);
            for refused in [
                walker().including(pattern.as_bytes(), &shapes),
                walker().exclude(pattern.as_bytes(), &shapes),
            ] {
                let error = refused.expect_err("an unwalkable relative pattern is refused");
                assert!(
                    error.message().contains("select")
                        || error.message().contains("not normalized")
                        || error.message().starts_with("`..`"),
                    "the rejection explains why the pattern cannot select: {}",
                    error.message()
                );
            }
        }
        assert!(select(walker_at(".").wildcard_mode(mode), "/bar").is_err());
        assert!(reject(walker_at(".").wildcard_mode(mode), "/bar").is_err());
    }

    for pattern in [
        "./src/**",
        "...",
        ".hidden",
        r"\.\.",
        r"src\..\main.rs",
        "[.]",
        "@(..)",
        "src/[[:alpha:]/../].rs",
        "src/[]/../].rs",
        "@(dead/../branch|src/main.rs)",
        "src/[{],a}/../].rs",
        "@(dead/{),x}/../branch|src/main.rs)",
        "prefix@(../bar)",
        "@(foo/..)suffix/bar",
        "@(.)",
        "@(..)/x",
        "?(.)/x",
    ] {
        for mode in MODES {
            assert!(
                select(walker().wildcard_mode(mode), pattern).is_ok(),
                "{pattern} must stay matcher text"
            );
        }
    }

    let scoped_and_crossing: [(&str, &[&str], &[&str]); 7] = [
        ("@(dead/../branch|src/main.rs)", &["src/main.rs"], &[]),
        ("src/[[:alpha:]/../].rs", &["src/a.rs"], &["src/a.rs"]),
        ("src/[]/../].rs", &["src/].rs"], &["src/].rs"]),
        ("src/[{],a}/../].rs", &["src/].rs", "src/a.rs"], &["src/].rs", "src/a.rs"]),
        ("@(dead/{),x}/../branch|src/main.rs)", &["src/main.rs"], &[]),
        ("prefix@(../bar)", &["prefix../bar"], &[]),
        ("@(foo/..)suffix/bar", &["foo/..suffix/bar"], &[]),
    ];
    for (pattern, crossing, scoped) in scoped_and_crossing {
        for mode in MODES {
            assert!(reject(walker().wildcard_mode(mode), pattern).is_ok());
            let expected = match mode {
                WildcardMode::ComponentScoped => scoped,
                WildcardMode::SeparatorCrossing => crossing,
            };
            let walker = select(walker().wildcard_mode(mode), pattern)
                .expect("the viable group arm is accepted")
                .options(sorted().files_only(true));
            assert_eq!(found(&tree, &walker), strings(expected), "{pattern} under {mode:?}");
            let streamed = by_path(streamed_entries(&tree, &walker));
            assert_eq!(relative(&streamed), strings(expected), "{pattern} under {mode:?}");
        }
    }

    // What the glob compiler says of these decides, whatever they spell.
    for pattern in [
        "{.,..}",
        "src/../main.rs",
        "src/{live,dead}/../main.rs",
        "{..,src}",
        "src/{a,..}",
        "{dead/../branch,src/main.rs}",
        "{dead/[}]]/../x,src/main.rs}",
        "@(dead/[)]]/../x|src/main.rs)",
        "{dead/../branch}",
        "@(dead/../branch)",
        "@(dead|src)/../main.rs",
        "src/@(./a.rs)",
        "@(./a.rs)",
        "{./a.rs}",
        "src/?(./a.rs)",
        "src/*(./a.rs)",
        "src/?(./a.rs)/bar",
        "src/*(./a.rs)/bar",
        "src/?()/bar",
        "src/*()/bar",
        "?()/bar",
        "*()/bar",
        "src//bar",
        "src/{}/bar",
        "src/{,./a.rs}/bar",
    ] {
        for mode in MODES {
            let shapes = [unwalkable(WalkerPathViability::ParentComponent, None)];
            let walker = || walker().wildcard_mode(mode);
            assert!(walker().including(pattern.as_bytes(), &shapes).is_err());
            assert!(walker().exclude(pattern.as_bytes(), &shapes).is_err());
        }
    }
}

#[test]
fn relative_pattern_errors_keep_determinate_component_offsets() {
    for (pattern, offset, viability) in [
        ("src/../main.rs", 4, WalkerPathViability::ParentComponent),
        ("src/./main.rs", 4, WalkerPathViability::DotComponent),
        ("src/.", 4, WalkerPathViability::TrailingDot),
        ("é/../main.rs", 3, WalkerPathViability::ParentComponent),
        ("src/@(./a.rs)", 6, WalkerPathViability::DotComponent),
        ("{src}/../main.rs", 6, WalkerPathViability::ParentComponent),
        ("{a,b}/../main.rs", 6, WalkerPathViability::ParentComponent),
        ("{a,..}/main.rs", 3, WalkerPathViability::ParentComponent),
        ("src/{x}/.", 8, WalkerPathViability::TrailingDot),
    ] {
        for mode in MODES {
            let shapes = [unwalkable(viability, Some(offset))];
            let walker = || walker_at(".").wildcard_mode(mode);
            for refused in [
                walker().including(pattern.as_bytes(), &shapes),
                walker().exclude(pattern.as_bytes(), &shapes),
            ] {
                let error = refused.expect_err("the pattern is refused");
                assert_eq!(error.offset(), offset, "{pattern} keeps its offset under {mode:?}");
            }
        }
    }
    for pattern in [r"src/\./main.rs", r"src/\../main.rs", "src/@(..)suffix"] {
        assert!(select(walker_at("."), pattern).is_ok(), "{pattern} remains matcher text");
    }
}

#[test]
fn absolute_pattern_errors_keep_caller_source_offsets() {
    let viable = shape("");
    for (pattern, root, syntax, offset, invalid, told) in [
        ("/repo/src/[", "/repo", Syntax::Posix, 10, b'[', viable),
        (
            "/repo/src/./x",
            "/repo",
            Syntax::Posix,
            10,
            b'.',
            unwalkable(WalkerPathViability::DotComponent, Some(4)),
        ),
        (
            "/repo/src/../x",
            "/repo",
            Syntax::Posix,
            10,
            b'.',
            unwalkable(WalkerPathViability::ParentComponent, Some(4)),
        ),
        (
            "/repo/src/{a,..}",
            "/repo",
            Syntax::Posix,
            13,
            b'.',
            unwalkable(WalkerPathViability::ParentComponent, Some(7)),
        ),
        ("//?/C:/repo/src/[", "//?/C:/repo", Syntax::Windows, 16, b'[', viable),
        ("//?/UNC/server/share/src/[", "//?/UNC/server/share", Syntax::Windows, 25, b'[', viable),
    ] {
        let error = walker_pattern_for_root(pattern.as_bytes(), root.as_bytes(), syntax, false, told)
            .expect_err("the absolute pattern is invalid");
        assert_eq!(error.offset(), offset, "{pattern}: {}", error.message());
        assert_eq!(pattern.as_bytes().get(error.offset()), Some(&invalid), "{pattern}");
    }
}

#[test]
fn source_rust_glob_patterns_replay_as_walker_filters() {
    let mut tree = Tree::new();
    for path in [
        "xyz/x",
        "xyz/y",
        "xyz/z",
        "aaa/tomato/tomato.txt",
        "aaa/tomato/tomoto.txt",
        "bbb/specials/[",
        "bbb/specials/!",
        "bbb/specials/]",
    ] {
        tree.write(path);
    }
    tree.directory("aaa/apple");
    tree.directory("aaa/orange");
    let paths_for = |pattern: &str| {
        found(&tree, &select(walker().threads(1), pattern).expect("valid").options(sorted()))
    };

    assert_eq!(paths_for("aaa"), strings(&["aaa"]));
    assert_eq!(paths_for("./aaa"), strings(&["aaa"]));
    assert_eq!(paths_for("aaa/"), strings(&["aaa"]));
    assert!(paths_for("aaa/tomato/tomato.txt/").is_empty());
    assert!(paths_for("nope").is_empty());
    assert_eq!(paths_for("a*"), strings(&["aaa"]));
    assert_eq!(paths_for("@(a*)"), strings(&["aaa"]));
    assert_eq!(paths_for("a*a"), strings(&["aaa"]));
    assert_eq!(paths_for("*a*a*a*"), strings(&["aaa"]));
    assert_eq!(paths_for("aaa/apple"), strings(&["aaa/apple"]));
    assert_eq!(paths_for("./*"), paths_for("*"));
    assert_eq!(paths_for("???/"), strings(&["aaa", "bbb", "xyz"]));
    assert_eq!(paths_for("xyz/?"), strings(&["xyz/x", "xyz/y", "xyz/z"]));
    let tomatoes = strings(&["aaa/tomato/tomato.txt", "aaa/tomato/tomoto.txt"]);
    assert_eq!(paths_for("aaa/tomato/tom?to.txt"), tomatoes);
    let component_local = strings(&["aaa/apple", "aaa/orange", "aaa/tomato"]);
    assert_eq!(paths_for("aaa/*"), component_local);
    for (pattern, expected) in [("aaa/*", component_local), ("aaa/", strings(&["aaa"]))] {
        let walker = select(walker(), pattern).expect("valid").options(sorted());
        assert_eq!(found(&tree, &walker.clone().threads(4)), expected);
        assert_eq!(relative(&by_path(streamed_entries(&tree, &walker))), expected);
    }
    assert_eq!(paths_for("*/*/*.txt"), tomatoes);
    assert_eq!(paths_for("aa[a]"), strings(&["aaa"]));
    assert_eq!(paths_for("aa[!b]"), strings(&["aaa"]));
    assert!(paths_for("aa[b]").is_empty());
    assert_eq!(paths_for("*/*/t[aob]m?to[.]t[!y]t"), tomatoes);
    assert_eq!(paths_for("bbb/specials/[[]"), strings(&["bbb/specials/["]));
    assert_eq!(paths_for("bbb/specials/[]]"), strings(&["bbb/specials/]"]));
}

fn depths(entries: &[WalkEntry]) -> Vec<(String, usize)> {
    relative(entries).into_iter().zip(entries.iter().map(WalkEntry::depth)).collect()
}

#[test]
fn source_walk_entry_depths_are_relative_component_counts() {
    let mut tree = Tree::new();
    tree.write("a.txt");
    tree.write("src/b.txt");
    tree.write("src/sub/c.txt");
    let expected = [("a.txt", 1), ("src", 1), ("src/b.txt", 2), ("src/sub", 2), ("src/sub/c.txt", 3)]
        .map(|(path, depth)| (path.to_owned(), depth))
        .to_vec();

    let walker = walker().options(sorted());
    let serial = collect(&tree, &walker.clone().threads(1)).expect("walk succeeds");
    let wide = collect(&tree, &walker.clone().threads(4)).expect("walk succeeds");
    assert_eq!(depths(serial.entries()), expected);
    assert_eq!(depths(wide.entries()), expected);
    assert_eq!(depths(&by_path(streamed_entries(&tree, &walker))), expected);

    let named = |name: &[u8]| {
        serial
            .entries()
            .iter()
            .find(|entry| entry.basename() == Some(name))
            .expect("the entry is present")
    };
    let a = named(b"a.txt");
    assert!(!a.is_dir());
    assert_eq!(a.kind(), WalkEntryKind::File);
    assert_eq!(a.depth(), 1);
    let src = named(b"src");
    assert!(src.is_dir());
    assert_eq!(src.kind(), WalkEntryKind::Directory);
    assert_eq!(src.depth(), 1);
    let c = named(b"c.txt");
    assert!(!c.is_dir());
    assert_eq!(c.kind(), WalkEntryKind::File);
    assert_eq!(c.depth(), 3);
}

#[test]
fn carried_depth_matches_the_component_count_it_replaced() {
    let mut tree = Tree::new();
    for path in [
        "a.txt",
        "one/b.txt",
        "one/two/c.txt",
        "one/two/three/d.txt",
        "one/two/three/four/e.txt",
    ] {
        tree.write(path);
    }
    for threads in [1, 4] {
        let walked = collect(&tree, &walker().threads(threads)).expect("walk succeeds");
        assert!(!walked.entries().is_empty());
        for (path, depth) in depths(walked.entries()) {
            assert_eq!(depth, path.split('/').count(), "{path} on {threads} thread(s)");
        }
    }
}

#[test]
fn a_root_with_a_trailing_separator_walks_like_one_without() {
    let mut tree = Tree::new();
    tree.write("src/main.rs");
    tree.write("src/nested/lib.rs");
    let walk = |root: &str| {
        let walker = select(walker_at(root).threads(1), "src/**/*.rs").expect("valid");
        let result = collect(&tree, &walker.options(sorted())).expect("walk succeeds");
        result.entries().iter().map(|entry| text(entry.path())).collect::<Vec<_>>()
    };
    let plain = walk(ROOT);
    assert_eq!(walk(&format!("{ROOT}/")), plain);
    assert_eq!(plain.len(), 2);
}

#[test]
fn entries_after_a_subdirectory_keep_their_own_paths() {
    let mut tree = Tree::new();
    for index in 0..4 {
        tree.write(&format!("outer/dir-{index}/inner.txt"));
        tree.write(&format!("outer/file-{index}.txt"));
    }
    for threads in [1, 4] {
        let walker = walker().threads(threads).options(sorted().files_only(true));
        let mut paths = found(&tree, &walker);
        paths.sort();
        let mut expected = (0..4)
            .flat_map(|index| {
                [format!("outer/dir-{index}/inner.txt"), format!("outer/file-{index}.txt")]
            })
            .collect::<Vec<_>>();
        expected.sort();
        assert_eq!(paths, expected, "on {threads} thread(s)");
    }
}

#[test]
fn a_short_directory_after_a_long_one_reports_only_its_own_entries() {
    let mut tree = Tree::new();
    for index in 0..40 {
        tree.write(&format!("crowded/file-{index:02}.txt"));
    }
    tree.write("sparse/only.txt");
    let walker = select(walker().threads(1), "sparse/**")
        .expect("valid")
        .options(sorted().files_only(true));
    assert_eq!(found(&tree, &walker), strings(&["sparse/only.txt"]));
}

#[test]
fn directories_only_filters_results_without_pruning_descendants() {
    let mut tree = Tree::new();
    tree.write("src/main.rs");
    tree.write("src/nested/lib.rs");
    let walker = walker().options(sorted().directories_only(true));
    let expected = strings(&["src", "src/nested"]);
    assert_eq!(found(&tree, &walker.clone().threads(1)), expected);
    assert_eq!(found(&tree, &walker.clone().threads(4)), expected);
    let streamed = streamed_entries(&tree, &walker);
    assert_eq!(relative(&streamed), expected);
    assert!(streamed.iter().all(WalkEntry::is_dir));
}

#[test]
fn max_depth_keeps_boundary_entries_without_descending() {
    let mut tree = Tree::new();
    tree.write("top.txt");
    tree.write("d1/mid.txt");
    tree.write("d1/d2/bottom.txt");
    let cases: [(usize, &[&str]); 3] = [
        (0, &[]),
        (1, &["d1", "top.txt"]),
        (2, &["d1", "d1/d2", "d1/mid.txt", "top.txt"]),
    ];
    for (max_depth, expected) in cases {
        let walker = walker().options(sorted().max_depth(max_depth));
        assert_eq!(found(&tree, &walker.clone().threads(1)), strings(expected));
        assert_eq!(found(&tree, &walker.clone().threads(4)), strings(expected));
        assert_eq!(relative(&by_path(streamed_entries(&tree, &walker))), strings(expected));
    }
}

#[test]
fn parallel_collect_matches_the_serial_result_multiset() {
    let mut tree = Tree::new();
    for path in ["wide/a.txt", "wide/b.txt", "deep/one/two/three/leaf.txt", "ignored.tmp"] {
        tree.write(path);
    }
    tree.contents(".gitignore", b"*.tmp\n");
    let walker = walker().respect_git_ignore(true).options(sorted());
    let serial = collect(&tree, &walker.clone().threads(1)).expect("walk succeeds");
    let wide = collect(&tree, &walker.threads(4)).expect("walk succeeds");
    assert_eq!(relative(wide.entries()), relative(serial.entries()));
    assert!(!relative(serial.entries()).contains(&"ignored.tmp".to_owned()));
    assert!(wide.errors().is_empty());
    assert!(serial.errors().is_empty());
}

#[test]
fn parallel_collect_stress_covers_empty_shallow_and_imbalanced_trees() {
    let empty = Tree::new();
    assert!(found(&empty, &walker().threads(8)).is_empty());

    let mut tree = Tree::new();
    tree.write("shallow.txt");
    for branch in 0..8 {
        tree.write(&format!("wide/{branch}/leaf.txt"));
    }
    for depth in 0..20 {
        tree.write(&format!("deep/{depth}/next/leaf.txt"));
    }
    let walker = walker().options(sorted());
    let expected = found(&tree, &walker.clone().threads(1));
    assert_eq!(expected.len(), 1 + 1 + 8 * 2 + 1 + 20 * 3);
    for _ in 0..32 {
        let actual = collect(&tree, &walker.clone().threads(8)).expect("walk succeeds");
        assert_eq!(relative(actual.entries()), expected);
        assert!(actual.errors().is_empty());
    }
}

#[test]
fn source_walk_metadata_preserves_portable_and_unix_fields() {
    let mut tree = Tree::new();
    tree.contents("five.bin", b"12345");
    let without = collect(&tree, &walker().options(sorted())).expect("walk succeeds");
    assert!(without.entries().iter().all(|entry| entry.metadata().is_none()));

    let with = collect(&tree, &walker().options(sorted().metadata(true))).expect("walk succeeds");
    let metadata = with.entries()[0].metadata().expect("metadata is requested");
    assert_eq!(metadata.len, 5);
    assert!(!metadata.is_dir && !metadata.is_symlink);
    assert!(metadata.modified.is_some());
    assert_ne!(metadata.inode, 0);
    assert_ne!(metadata.mode.expect("a host with permission bits") & 0o400, 0);
}

#[test]
fn walk_entries_are_cloneable_with_their_metadata_snapshot() {
    let mut tree = Tree::new();
    tree.contents("five.bin", b"12345");
    let result = collect(&tree, &walker().options(sorted().metadata(true))).expect("walk succeeds");
    let entry = &result.entries()[0];
    let copy = entry.clone();
    assert_eq!(copy.path(), entry.path());
    assert_eq!(copy.root(), entry.root());
    assert_eq!(copy.kind(), entry.kind());
    assert_eq!(copy.depth(), entry.depth());
    assert_eq!(copy.metadata().map(|metadata| metadata.len), Some(5));
}

fn has(paths: &[String], path: &str) -> bool {
    paths.iter().any(|found| found == path)
}

#[test]
fn root_gitignore_rules_and_negation_apply_to_collect_and_stream() {
    let mut tree = Tree::new();
    for path in ["generated.tmp", "keep.tmp", "src/main.rs", "src/keep.tmp", "build/keep.txt"] {
        tree.write(path);
    }
    tree.contents(".gitignore", b"*.tmp\n!keep.tmp\nbuild/\n");
    tree.contents("src/.gitignore", b"!keep.tmp\n");
    tree.contents("build/.gitignore", b"!keep.txt\n");

    let walker = walker().respect_git_ignore(true).options(sorted());
    for paths in [found(&tree, &walker), relative(&streamed_entries(&tree, &walker))] {
        assert!(!has(&paths, "generated.tmp"));
        assert!(has(&paths, "keep.tmp"));
        assert!(has(&paths, "src/keep.tmp"));
        // An ignored directory is not entered, so the negation inside it never
        // applies.
        assert!(!has(&paths, "build/keep.txt"));
        assert!(!has(&paths, "build"));
    }
}

#[test]
fn subtree_walk_inherits_repository_ignore_rules_excludes_and_config() {
    let mut tree = Tree::new();
    for path in [
        "src/debug.LOG",
        "src/secret.txt",
        "src/ignored-by-info",
        "src/deep/trace.log",
        "src/kept.txt",
    ] {
        tree.write(path);
    }
    tree.contents(".git/config", b"[core]\n\tignoreCase = true\n");
    tree.contents(".gitignore", b"*.log\n/src/secret.txt\n");
    tree.contents(".git/info/exclude", b"ignored-by-info\n");

    let root = format!("{ROOT}/src");
    let walker = walker_at(&root).respect_git_ignore(true).options(sorted());
    let walked = collect(&tree, &walker).expect("walk succeeds");
    assert_eq!(relative_to(walked.entries(), &root), strings(&["deep", "kept.txt"]));
}

#[test]
fn an_explicitly_ignored_walk_root_is_still_entered() {
    let mut tree = Tree::new();
    tree.write("src2/kept.txt");
    tree.directory(".git");
    tree.contents(".gitignore", b"/src2/\n");
    let root = format!("{ROOT}/src2");
    let walked = collect(&tree, &walker_at(&root).respect_git_ignore(true)).expect("walk succeeds");
    assert!(has(&relative_to(walked.entries(), &root), "kept.txt"));
}

#[test]
fn a_dot_segment_in_a_subtree_root_preserves_inherited_anchors() {
    let mut tree = Tree::new();
    for path in ["src/anch.txt", "src/rel.txt", "src/kept.txt"] {
        tree.write(path);
    }
    tree.directory(".git");
    tree.contents(".gitignore", b"/src/anch.txt\nsrc/rel.txt\n");

    let root = "/fixture/./src";
    let walker = walker_at(root).respect_git_ignore(true).options(sorted());
    let walked = collect(&tree, &walker).expect("dotted subtree walk succeeds");
    assert_eq!(relative_to(walked.entries(), root), vec!["kept.txt"]);
}

#[test]
fn relative_root_spellings_inherit_repository_ignore_rules() {
    let mut tree = Tree::new();
    for path in [
        "src/debug.log",
        "src/secret.txt",
        "src/keep.rs",
        "src/sub/secret.txt",
        "src/sub/keep.rs",
    ] {
        tree.write(path);
    }
    tree.directory(".git");
    tree.contents(".gitignore", b"*.log\n/src/secret.txt\n/src/sub/secret.txt\n");

    for (current, spelling) in [
        ("src", "."),
        ("src", "./"),
        ("", "src"),
        ("", "src/"),
        ("", "./src/"),
        ("src", "sub/"),
        ("src", "./sub/"),
        ("src", "../src/"),
    ] {
        tree.current = Tree::at(current);
        let walker = walker_at(spelling)
            .respect_git_ignore(true)
            .options(sorted().files_only(true));
        let walked = collect(&tree, &walker).expect("relative-root walk succeeds");
        let expected = if matches!(spelling, "sub/" | "./sub/") {
            vec!["keep.rs"]
        } else {
            vec!["keep.rs", "sub/keep.rs"]
        };
        assert_eq!(
            relative_to(walked.entries(), spelling),
            expected,
            "root spelling {spelling:?} must inherit repository rules",
        );
    }
}

#[test]
fn parent_components_in_relative_roots_keep_ignore_anchors() {
    let mut tree = Tree::new();
    for path in [
        "src/secret.txt",
        "src/local.txt",
        "src/keep.rs",
        "src/sub/deep.txt",
        "src/sub/local.txt",
        "src/sub/keep.rs",
    ] {
        tree.write(path);
    }
    tree.directory(".git");
    tree.contents(".gitignore", b"/src/secret.txt\n/src/sub/deep.txt\n");
    tree.contents("src/sub/.gitignore", b"local.txt\n");

    for (current, spelling) in [("src/sub", ".."), ("src", "../src/sub"), ("src/sub", "../..")] {
        tree.current = Tree::at(current);
        let walker = walker_at(spelling)
            .respect_git_ignore(true)
            .options(sorted().files_only(true));
        let walked = collect(&tree, &walker).expect("parent-relative-root walk succeeds");
        let paths = relative_to(walked.entries(), spelling);
        let (visible, hidden): (&[&str], &[&str]) = match spelling {
            ".." => (
                &["keep.rs", "local.txt", "sub/keep.rs"],
                &["secret.txt", "sub/deep.txt", "sub/local.txt"],
            ),
            "../src/sub" => (&["keep.rs"], &["deep.txt", "local.txt"]),
            "../.." => (
                &["src/keep.rs", "src/local.txt", "src/sub/keep.rs"],
                &["src/secret.txt", "src/sub/deep.txt", "src/sub/local.txt"],
            ),
            other => panic!("unexpected parent-relative root {other:?}"),
        };
        for path in visible {
            assert!(
                paths.contains(&path.to_string()),
                "root spelling {spelling:?} must keep {path}: {paths:?}"
            );
        }
        for path in hidden {
            assert!(
                !paths.contains(&path.to_string()),
                "root spelling {spelling:?} must ignore {path}: {paths:?}"
            );
        }
    }
}

#[test]
fn parent_components_after_symlinks_use_the_physical_repository() {
    let mut tree = Tree::new();
    tree.write("physical/repository/sub/secret.txt");
    tree.write("physical/repository/sub/keep.txt");
    tree.directory("physical/repository/sub/nested");
    tree.directory("physical/repository/.git");
    tree.contents("physical/repository/.gitignore", b"/sub/secret.txt\n");
    tree.directory("lexical/work");
    tree.directory("lexical/.git");
    tree.contents("lexical/.gitignore", b"/work/keep.txt\n");
    tree.link("/fixture/physical/repository/sub/nested", "lexical/work/portal");

    tree.current = Tree::at("lexical/work");
    let root = "portal/..";
    let walker = walker_at(root)
        .respect_git_ignore(true)
        .options(sorted().files_only(true));
    let walked = collect(&tree, &walker).expect("symlink-parent-root walk succeeds");
    assert_eq!(
        relative_to(walked.entries(), root),
        vec!["keep.txt"],
        "ignore discovery must resolve `..` after following `portal`"
    );
}

#[test]
fn repository_ignorecase_matches_git_for_rules_negation_and_anchors() {
    let mut tree = Tree::new();
    tree.contents(".git/config", b"[CoRe]\nignoreCase = YeS\n");
    tree.contents(".gitignore", b"Build.LOG\nDist/\n!Kept.LOG\n/src/Anchored.LOG\n");
    for path in
        ["BUILD.log", "DIST/deep.txt", "kept.log", "SRC/ANCHORED.log", "other/ANCHORED.log"]
    {
        tree.write(path);
    }
    let walker = walker().respect_git_ignore(true).options(sorted());
    for paths in [found(&tree, &walker), relative(&by_path(streamed_entries(&tree, &walker)))] {
        assert_eq!(
            paths,
            strings(&[".gitignore", "SRC", "kept.log", "other", "other/ANCHORED.log"])
        );
    }
}

#[test]
fn non_utf8_unrelated_config_value_does_not_hide_repository_ignorecase() {
    let mut tree = Tree::new();
    tree.write("BUILD.log");
    tree.contents(".gitignore", b"build.log\n");
    tree.contents(".git/config", b"[user]\nname = Jos\xe9\n[core]\nignorecase = true\n");
    assert!(!has(&found(&tree, &walker().respect_git_ignore(true)), "BUILD.log"));
}

#[test]
fn explicit_ignorecase_false_and_walker_override_take_precedence() {
    let mut tree = Tree::new();
    tree.write("BUILD.log");
    tree.contents(".git/config", b"[core]\nignorecase = true\nIGNORECASE = off\n");
    tree.contents(".gitignore", b"build.log\n");

    let walker = || walker().respect_git_ignore(true);
    assert!(has(&found(&tree, &walker()), "BUILD.log"));
    assert!(!has(&found(&tree, &walker().git_ignore_case(true)), "BUILD.log"));
    assert!(
        has(&found(&tree, &walker().git_ignore_case(true).clear_git_ignore_case()), "BUILD.log"),
        "clearing an override restores the repository's own value"
    );
}

#[test]
fn numeric_and_empty_ignorecase_values_match_the_git_oracle() {
    for (value, expected) in [
        ("", false),
        ("\"\"", false),
        ("+0", false),
        ("-0", false),
        ("+2", true),
        ("-7", true),
        ("  +2  # whitespace and comment", true),
    ] {
        let mut tree = Tree::new();
        tree.write("BUILD.log");
        tree.contents(".gitignore", b"build.log\n");
        let config = format!("[core]\nignoreCase = {}\nIGNORECASE = {value}\n", !expected);
        tree.contents(".git/config", config.as_bytes());
        let ignored = !has(&found(&tree, &walker().respect_git_ignore(true)), "BUILD.log");
        assert_eq!(ignored, expected, "the later {value:?} overrides the earlier opposite");
    }
    for config in [
        &b"[core]\nignoreCase = false\nIGNORECASE\n"[..],
        b"[core]\nignoreCase = false\nIGNORECASE = t\\\nr\\\nue\n[core \"unrelated\"]\nignoreCase = false\n",
    ] {
        let mut tree = Tree::new();
        tree.write("BUILD.log");
        tree.contents(".gitignore", b"build.log\n");
        tree.contents(".git/config", config);
        assert!(!has(&found(&tree, &walker().respect_git_ignore(true)), "BUILD.log"));
    }
}

#[test]
fn case_variant_ignore_file_follows_the_filesystem_canonical_open() {
    // Names are told apart by case here, so the canonical open fails.
    let mut tree = Tree::new();
    tree.write("build.log");
    tree.contents(".GITIGNORE", b"build.log\n");
    let paths = found(&tree, &walker().respect_git_ignore(true).options(sorted()));
    assert!(has(&paths, ".GITIGNORE"));
    assert!(has(&paths, "build.log"));
    assert_eq!(tree.ignore_reads.borrow().get(&Tree::at(".gitignore")), Some(&1));
}

#[test]
fn multi_root_walks_keep_each_repository_ignorecase_setting() {
    let mut tree = Tree::new();
    tree.write("nested/BUILD.log");
    tree.contents(".git/config", b"[core]\nignorecase = true\n");
    tree.contents("nested/.git/config", b"[core]\nignorecase = false\n");
    tree.contents(".gitignore", b"build.log\n");
    tree.contents("nested/.gitignore", b"build.log\n");

    let nested = format!("{ROOT}/nested");
    let root = || NewRoot {
        path: nested.as_bytes().to_vec(),
        include_shapes: Vec::new(),
        exclude_shapes: Vec::new(),
    };
    let walker = walker().add_roots(vec![root(), root()]).expect("the roots are added");
    let walked = collect(&tree, &walker.respect_git_ignore(true)).expect("walk succeeds");
    let log = Tree::at("nested/BUILD.log");
    // The outer root folds and suppresses this entry. Each nested root uses its
    // own setting and emits one copy.
    assert_eq!(walked.entries().iter().filter(|entry| entry.path() == &log[..]).count(), 2);
}

#[test]
fn try_add_root_keeps_the_builder_after_a_rejected_root() {
    let pattern = format!("{ROOT}/**");
    let mut walker = select(walker(), &pattern).expect("the pattern applies to its root");
    let shapes = [shape(&pattern)];
    walker
        .try_add_root(ROOT.as_bytes().to_vec(), &shapes, &[])
        .expect("the pattern applies to an equal root");
    let error = walker
        .try_add_root(b"relative-root".to_vec(), &shapes, &[])
        .expect_err("an absolute pattern needs an absolute added root");
    assert_eq!(error.message(), "an absolute pattern needs an absolute walk root");
    assert_eq!(
        walker.roots(),
        vec![ROOT.as_bytes(), ROOT.as_bytes()],
        "a rejected addition cannot partially append a root"
    );
    walker
        .try_add_root(ROOT.as_bytes().to_vec(), &shapes, &[])
        .expect("the builder can consider later roots");
    assert_eq!(walker.roots(), vec![ROOT.as_bytes(); 3]);
}

#[test]
fn clearing_git_adaptation_overrides_restores_the_unset_state() {
    let set = walker_at("workspace").git_ignore_case(true).git_precompose_unicode(true);
    assert_eq!(set.git_overrides(), (Some(true), Some(true)));
    let cleared = set.clear_git_ignore_case().clear_git_precompose_unicode();
    assert_eq!(cleared.git_overrides(), (None, None));
}

#[test]
fn source_walk_gitignore_matches_non_utf8_file_names_on_linux() {
    let mut tree = Tree::new();
    tree.contents(".gitignore", b"\xE9latin1.txt\n");
    let name = push_name(ROOT.as_bytes(), b"\xE9latin1.txt", Syntax::Posix);
    tree.place(name.clone(), Node::File(Vec::new()));
    let result = collect(&tree, &walker().respect_git_ignore(true)).expect("walk succeeds");
    assert!(
        !result.entries().iter().any(|entry| entry.path() == &name[..]),
        "the byte rule has to hide its byte-named file"
    );
    assert_eq!(result.entries().len(), 1);
}

#[test]
fn source_walk_nested_gitignore_overrides_and_skips_dot_git() {
    let mut tree = Tree::new();
    for path in [
        "build/artifact.o",
        "root.log",
        "keep.txt",
        "sub/important.log",
        "sub/other.log",
        "sub/temp/scratch.txt",
        ".git/config",
    ] {
        tree.write(path);
    }
    tree.contents(".gitignore", b"*.log\nbuild/\n");
    tree.contents("sub/.gitignore", b"!important.log\ntemp/\n");

    let walker = || walker().respect_git_ignore(true).options(sorted());
    let paths = found(&tree, &walker().threads(1));
    for ignored in [
        "build",
        "build/artifact.o",
        "root.log",
        "sub/other.log",
        "sub/temp",
        "sub/temp/scratch.txt",
        ".git",
        ".git/config",
    ] {
        assert!(!has(&paths, ignored), "ignored path {ignored} was returned");
    }
    for kept in ["keep.txt", "sub", "sub/.gitignore", "sub/important.log"] {
        assert!(has(&paths, kept), "kept path {kept} was omitted");
    }
    assert_eq!(found(&tree, &walker().threads(4)), paths);
    assert_eq!(relative(&by_path(streamed_entries(&tree, &walker()))), paths);

    let unfiltered = found(&tree, &walker_at(ROOT).threads(1).options(sorted()));
    assert!(has(&unfiltered, ".git/config"));
    assert!(unfiltered.len() > paths.len());
    assert!(has(&found(&tree, &walker().options(sorted().keep_git_dir(true))), ".git/config"));
}

#[test]
fn source_walk_ignore_file_overrides_gitignore_rules() {
    let mut tree = Tree::new();
    for path in [
        "app.log",
        "keep.log",
        "scratch.tmp",
        "important.tmp",
        "old.bak",
        "src/main.rs",
        "src/old.bak",
        "build/artifact.txt",
    ] {
        tree.write(path);
    }
    tree.contents(".gitignore", b"*.log\nbuild/\n!keep.log\n*.tmp\n");
    tree.contents(".ignore", b"!important.tmp\n");
    tree.contents("src/.gitignore", b"*.bak\n");

    let expected = strings(&[
        ".gitignore",
        ".ignore",
        "important.tmp",
        "keep.log",
        "old.bak",
        "src",
        "src/.gitignore",
        "src/main.rs",
    ]);
    let walker = walker().respect_git_ignore(true).options(sorted());
    assert_eq!(found(&tree, &walker.clone().threads(1)), expected);
    assert_eq!(found(&tree, &walker.clone().threads(4)), expected);
    assert_eq!(relative(&by_path(streamed_entries(&tree, &walker))), expected);
}

#[test]
fn symlinked_in_tree_ignore_files_do_not_apply_but_repository_excludes_can_follow_links() {
    for ignore_file in [".gitignore", ".ignore"] {
        let mut tree = Tree::new();
        tree.write("linked.tmp");
        tree.contents("rules-source", b"linked.tmp\n");
        tree.link("rules-source", ignore_file);
        let result = collect(&tree, &walker().respect_git_ignore(true)).expect("walk succeeds");
        assert!(
            has(&relative(result.entries()), "linked.tmp"),
            "{ignore_file} must not redirect rules through its target"
        );
        assert!(result.errors().is_empty());
    }

    let mut tree = Tree::new();
    tree.write("repository-only.tmp");
    tree.contents("rules-source", b"repository-only.tmp\n");
    tree.link("../../rules-source", ".git/info/exclude");
    assert!(
        !has(&found(&tree, &walker().respect_git_ignore(true)), "repository-only.tmp"),
        "the repository-wide excludes may follow links"
    );
}

#[test]
fn linked_worktree_and_submodule_gitdir_pointers_read_the_right_info_exclude() {
    let mut tree = Tree::new();
    tree.contents("main/.git/info/exclude", b"worktree-secret.txt\n");
    tree.contents("main/.git/worktrees/linked-worktree/commondir", b"../..\n");
    tree.contents(
        "linked-worktree/.git",
        b"gitdir: ../main/.git/worktrees/linked-worktree\n",
    );
    tree.write("linked-worktree/worktree-secret.txt");
    tree.contents("super/.git/modules/dependency/info/exclude", b"submodule-secret.txt\n");
    tree.contents("super/dependency/.git", b"gitdir: ../.git/modules/dependency\n");
    tree.write("super/dependency/submodule-secret.txt");

    for (root, secret) in [
        ("linked-worktree", "worktree-secret.txt"),
        ("super/dependency", "submodule-secret.txt"),
    ] {
        let root = format!("{ROOT}/{root}");
        let walker = walker_at(&root).respect_git_ignore(true);
        let result = collect(&tree, &walker).expect("walk succeeds");
        assert!(!has(&relative_to(result.entries(), &root), secret), "{root}");
    }
}

#[test]
fn linked_worktree_config_overrides_the_common_repository_setting() {
    let mut tree = Tree::new();
    tree.contents("main/.git/worktrees/linked-worktree/commondir", b"../..\n");
    tree.contents(
        "main/.git/config",
        b"[extensions]\nworktreeConfig = f\\\nalse\nWORKTREECONFIG = t\\\nr\\\nue\n[extensions \"unrelated\"]\nworktreeConfig = false\n[core]\nignorecase = false\n",
    );
    tree.contents(
        "main/.git/worktrees/linked-worktree/config.worktree",
        b"[CORE]\nignoreCASE = t\\\nr\\\nue\n[core \"unrelated\"]\nignoreCASE = false\n",
    );
    tree.contents(
        "linked-worktree/.git",
        b"gitdir: ../main/.git/worktrees/linked-worktree\n",
    );
    tree.contents("linked-worktree/.gitignore", b"build.log\n");
    tree.write("linked-worktree/BUILD.log");

    let root = format!("{ROOT}/linked-worktree");
    let result = collect(&tree, &walker_at(&root).respect_git_ignore(true)).expect("walk succeeds");
    assert!(!has(&relative_to(result.entries(), &root), "BUILD.log"));
}

#[test]
fn absolute_and_malformed_gitdir_pointers_are_handled_without_rules() {
    let mut tree = Tree::new();
    tree.contents("separate-git-directory/info/exclude", b"absolute-secret.txt\n");
    let pointer = format!("gitdir: {ROOT}/separate-git-directory\n");
    tree.contents("absolute-worktree/.git", pointer.as_bytes());
    tree.write("absolute-worktree/absolute-secret.txt");
    tree.contents("malformed-pointer/.git", b"gitdir: \nextra data\n");
    tree.write("malformed-pointer/not-excluded.txt");

    let walk = |root: &str| {
        let root = format!("{ROOT}/{root}");
        let walker = walker_at(&root).respect_git_ignore(true);
        relative_to(collect(&tree, &walker).expect("walk succeeds").entries(), &root)
    };
    assert!(!has(&walk("absolute-worktree"), "absolute-secret.txt"));
    assert!(has(&walk("malformed-pointer"), "not-excluded.txt"));
}

#[test]
fn unreadable_gitdir_pointer_is_skipped_like_unreadable_repository_metadata() {
    let mut tree = Tree::new();
    tree.contents("checkout/.git", b"gitdir: ../missing-git-directory\n");
    tree.write("checkout/not-excluded.txt");
    tree.refused.insert(Tree::at("checkout/.git"), FailureKind::PermissionDenied);
    let root = format!("{ROOT}/checkout");
    let result = collect(&tree, &walker_at(&root).respect_git_ignore(true)).expect("walk succeeds");
    assert!(result.errors().is_empty());
    assert!(has(&relative_to(result.entries(), &root), "not-excluded.txt"));
}

#[test]
fn nested_repositories_remain_traversed_with_the_outer_ignore_chain() {
    let mut tree = Tree::new();
    for path in ["nested/.git/config", "nested/outer.tmp", "nested/keep.tmp", "nested/inner-only.tmp"]
    {
        tree.write(path);
    }
    tree.contents(".gitignore", b"*.tmp\n");
    tree.contents("nested/.gitignore", b"!keep.tmp\ninner-only.tmp\n");
    let paths = found(&tree, &walker().respect_git_ignore(true).options(sorted()));
    assert!(has(&paths, "nested/keep.tmp"));
    assert!(!has(&paths, "nested/outer.tmp"));
    assert!(!has(&paths, "nested/inner-only.tmp"));
    assert!(!has(&paths, "nested/.git/config"), "the control directory remains skipped");
}

#[test]
fn source_walk_allowlist_gitignore_descends_into_reincluded_directories() {
    let mut tree = Tree::new();
    for path in [
        "main.rs",
        "Makefile",
        ".keep",
        "src/lib.rs",
        "src/noext",
        "src/deep/a.txt",
        "dir.d/x.md",
        "dir.d/noext",
        "plain/y.txt",
        ".git/config",
    ] {
        tree.write(path);
    }
    tree.contents(
        ".gitignore",
        b"# Ignore all\n*\n\n# Unignore all with extensions\n!*.*\n\n# Unignore all dirs\n!/**/\n",
    );
    let expected = strings(&[
        ".gitignore",
        ".keep",
        "dir.d",
        "dir.d/x.md",
        "main.rs",
        "plain",
        "plain/y.txt",
        "src",
        "src/deep",
        "src/deep/a.txt",
        "src/lib.rs",
    ]);
    let walker = walker().respect_git_ignore(true).options(sorted());
    assert_eq!(found(&tree, &walker.clone().threads(1)), expected);
    assert_eq!(found(&tree, &walker.clone().threads(4)), expected);
    assert_eq!(relative(&by_path(streamed_entries(&tree, &walker))), expected);
}

#[test]
fn every_ignore_file_is_read_once_per_walk() {
    let mut tree = Tree::new();
    for path in [".gitignore", "src/.gitignore", "src/nested/.gitignore"] {
        tree.write(path);
    }
    for branch in 0..6 {
        tree.write(&format!("src/nested/branch-{branch}/leaf.txt"));
        tree.write(&format!("docs/branch-{branch}/leaf.md"));
    }
    for threads in [1, 4] {
        tree.ignore_reads.borrow_mut().clear();
        collect(&tree, &walker().threads(threads).respect_git_ignore(true)).expect("walk succeeds");
        let reads = tree.ignore_reads.borrow();
        assert!(reads.values().all(|count| *count == 1), "{reads:?}");
        assert!(reads.contains_key(&Tree::at("src/.gitignore")));
    }
}

#[test]
fn oversized_ignore_files_follow_the_configured_error_policy() {
    let mut tree = Tree::new();
    tree.write("visible.txt");
    tree.contents(".gitignore", &vec![0; MAX_IGNORE_FILE_BYTES + 1]);
    let path = Tree::at(".gitignore");
    let walker = |policy| walker().respect_git_ignore(true).error_policy(policy);

    for threads in [1, 4] {
        let walker = walker(ErrorPolicy::Collect).threads(threads);
        let result = collect(&tree, &walker).expect("the walk goes on");
        assert_eq!(result.errors().len(), 1);
        assert_eq!(result.errors()[0].operation(), "read_ignore");
        assert_eq!(result.errors()[0].path(), &path[..]);
        assert!(has(&relative(result.entries()), "visible.txt"));
    }
    let skipped = collect(&tree, &walker(ErrorPolicy::Skip)).expect("the walk goes on");
    assert!(skipped.errors().is_empty());
    let aborted = collect(&tree, &walker(ErrorPolicy::Abort)).expect_err("the walk ends");
    assert_eq!(aborted.operation(), "read_ignore");
    assert_eq!(aborted.path(), &path[..]);

    let items = streamed(&tree, &walker(ErrorPolicy::Collect));
    assert_eq!(items.iter().filter(|item| item.is_err()).count(), 1);
    let visible = Tree::at("visible.txt");
    assert!(items
        .iter()
        .any(|item| item.as_ref().is_ok_and(|entry| entry.path() == &visible[..])));
}

#[test]
fn root_rules_reach_deep_entries_and_deeper_rules_win() {
    let mut tree = Tree::new();
    for path in ["a/b/c/deep.log", "a/b/other.log", "a/b/c/keep.txt"] {
        tree.write(path);
    }
    tree.contents(".gitignore", b"*.log\n");
    tree.contents("a/b/c/.gitignore", b"!deep.log\n");
    let paths = found(&tree, &walker().respect_git_ignore(true).options(sorted()));
    assert!(!has(&paths, "a/b/other.log"), "a root rule has to reach entries below it");
    assert!(has(&paths, "a/b/c/deep.log"), "the ignore file closest to the entry decides");
    assert!(has(&paths, "a/b/c/keep.txt"));
}

#[test]
fn directory_rules_and_spanning_rules_apply_per_directory() {
    let mut tree = Tree::new();
    for path in ["logs", "build/main.o", "a/b/temp/c/note.txt", "a/b/kept.txt"] {
        tree.write(path);
    }
    tree.contents(".gitignore", b"logs/\nbuild/\n**/temp/**\n");
    let paths = found(&tree, &walker().respect_git_ignore(true).options(sorted()));
    assert!(has(&paths, "logs"), "a directory rule must not match a file of that name");
    assert!(!has(&paths, "build"));
    assert!(!has(&paths, "build/main.o"));
    assert!(!has(&paths, "a/b/temp/c/note.txt"));
    assert!(has(&paths, "a/b/kept.txt"));
}

#[test]
fn the_three_frontends_agree_on_nested_ignore_files() {
    let mut tree = Tree::new();
    for path in [
        "src/main.rs",
        "src/debug.log",
        "src/keep.log",
        "src/nested/deep.log",
        "docs/guide.md",
        "build/main.o",
        "build/keep.txt",
    ] {
        tree.write(path);
    }
    tree.contents(".gitignore", b"*.log\nbuild/\n");
    tree.contents("src/.gitignore", b"!keep.log\n");
    tree.contents("build/.gitignore", b"!keep.txt\n");
    tree.contents(".git/info/exclude", b"*.md\n");
    assert_frontends_agree("nested ignore files", &tree, &|| walker().respect_git_ignore(true));

    let paths = found(&tree, &walker().respect_git_ignore(true).options(sorted()));
    assert!(!has(&paths, "docs/guide.md"), "the repository excludes have to apply");
    assert!(has(&paths, "src/keep.log"));
    assert!(!has(&paths, "src/nested/deep.log"));
}

fn traversal_pattern(pattern: &str) -> TraversalPattern {
    compiled(pattern, false)
}

fn compiled(pattern: &str, match_hidden: bool) -> TraversalPattern {
    let hidden = shape(pattern).reaches_hidden;
    TraversalPattern::compile(pattern.as_bytes(), match_hidden, Syntax::Posix, hidden)
        .expect("valid pattern")
}

#[test]
fn brace_alternatives_carry_the_planner_prefilters() {
    let sources = traversal_pattern("**/*.{ts,tsx}");
    assert!(sources.matches_extension(b"src/app.ts"));
    assert!(sources.matches_extension(b"src/app.tsx"));
    assert!(!sources.matches_extension(b"src/app.js"));
    assert!(!sources.matches_extension(b"src/app"));

    let scoped = traversal_pattern("{src,lib}/**/*.ts");
    assert!(scoped.could_match_descendant(b"src"));
    assert!(scoped.could_match_descendant(b"lib"));
    assert!(scoped.could_match_descendant(b"src/nested"));
    assert!(!scoped.could_match_descendant(b"docs"));
    assert!(!scoped.could_match_descendant(b"node_modules"));

    let nested = traversal_pattern("{src/{a,b},lib}/**");
    assert!(nested.could_match_descendant(b"src"));
    assert!(nested.could_match_descendant(b"src/a"));
    assert!(!nested.could_match_descendant(b"src/c"));

    // One alternative without a value switches the whole prefilter off.
    let partial_root = traversal_pattern("{src,*}/**/*.ts");
    assert!(partial_root.could_match_descendant(b"docs"));
    let partial_extension = traversal_pattern("**/*.{ts,*}");
    assert!(partial_extension.matches_extension(b"src/app.js"));
}

#[test]
fn match_hidden_widens_the_matcher_without_moving_the_planner_prefilters() {
    let mode = WildcardMode::ComponentScoped;
    let scoped = compiled("site/**/*.ts", true);
    assert!(scoped.could_match_descendant(b"site/.react-router"));
    assert!(scoped.matches(b"site/.react-router/routes.ts", false, mode));
    assert!(scoped.matches_extension(b"site/.react-router/routes.ts"));
    assert!(!scoped.could_match_descendant(b".react-router"));

    let default = traversal_pattern("site/**/*.ts");
    assert!(default.could_match_descendant(b"site/.react-router"));
    assert!(!default.matches(b"site/.react-router/routes.ts", false, mode));
    for path in [&b"site"[..], b"site/a.ts", b".react-router", b"other", b"site/a.js"] {
        assert_eq!(default.could_match_descendant(path), scoped.could_match_descendant(path));
        assert_eq!(default.matches_extension(path), scoped.matches_extension(path));
    }

    let literal = compiled(".config/**/*.ts", true);
    assert!(literal.could_match_descendant(b".config"));
    assert!(traversal_pattern(".config/**/*.ts").matches(b".config/agents/run.ts", false, mode));
}

#[test]
fn match_hidden_applies_to_patterns_added_before_and_after_it() {
    let mut tree = Tree::new();
    tree.write(".react-router/types.ts");
    tree.write("src/app.ts");
    let walk = |walker: Walker| found(&tree, &walker.options(sorted()));

    let before = walk(select(walker().match_hidden(true), "**/*.ts").expect("valid"));
    let after = walk(select(walker(), "**/*.ts").expect("valid").match_hidden(true));
    assert_eq!(before, strings(&[".react-router/types.ts", "src/app.ts"]));
    assert_eq!(after, before);
    let off = select(walker().match_hidden(true), "**/*.ts").expect("valid").match_hidden(false);
    assert_eq!(walk(off), strings(&["src/app.ts"]));
}

fn dialect() -> ferralk_glob::PatternOptions {
    ferralk_glob::PatternOptions::default()
        .braces(true)
        .recursive_double_star(true)
        .extglob(true)
        .match_hidden(false)
}

#[test]
fn an_unexpandable_include_is_reported_as_a_pattern_error() {
    let beyond = "{a,b}".repeat(13);
    let error =
        select(walker_at("."), &beyond).expect_err("the expansion budget rejects this pattern");
    assert_eq!(error.message(), "too many brace alternatives");
    assert_eq!(
        error.offset(),
        ferralk_glob::Pattern::compile(&beyond, dialect())
            .expect_err("the matcher rejects it the same way")
            .offset()
    );
}

#[test]
fn a_brace_include_returns_the_union_of_its_alternatives() {
    let mut tree = Tree::new();
    for path in [
        "src/app.ts",
        "src/app.tsx",
        "src/app.js",
        "src/nested/deep.ts",
        "lib/util.ts",
        "lib/util.rs",
        "docs/guide.md",
        "docs/nested/notes.md",
        "node_modules/pkg/index.ts",
    ] {
        tree.write(path);
    }
    let walk = |pattern: &str| {
        let mut paths = found(&tree, &select(walker(), pattern).expect("valid").options(sorted()));
        paths.sort_unstable();
        paths
    };
    for pattern in [
        "**/*.{ts,tsx}",
        "{src,lib}/**/*.ts",
        "{src,docs}/**",
        "src/{app,nested}*",
        "{src,lib}/**/*.{ts,rs}",
    ] {
        let alternatives =
            ferralk_glob::expand_braces(pattern, dialect()).expect("expandable pattern");
        let mut union = alternatives
            .iter()
            .flat_map(|alternative| walk(std::str::from_utf8(alternative).expect("ASCII")))
            .collect::<Vec<_>>();
        union.sort_unstable();
        union.dedup();
        assert!(!union.is_empty());
        assert_eq!(walk(pattern), union, "{pattern}");
    }
}

#[test]
fn the_wildcard_mode_decides_how_far_a_wildcard_reaches() {
    let mut tree = Tree::new();
    for path in ["main.ts", "src/app.ts", "src/deep/nested.ts", "other/stray.ts"] {
        tree.write(path);
    }
    let walk = |mode: WildcardMode, pattern: &str| {
        let walker = select(walker().wildcard_mode(mode), pattern).expect("valid");
        found(&tree, &walker.options(sorted().files_only(true)))
    };
    assert_eq!(walk(WildcardMode::ComponentScoped, "*.ts"), strings(&["main.ts"]));
    assert_eq!(
        walk(WildcardMode::SeparatorCrossing, "*.ts"),
        strings(&["main.ts", "other/stray.ts", "src/app.ts", "src/deep/nested.ts"])
    );
    assert_eq!(
        walk(WildcardMode::SeparatorCrossing, "src/*.ts"),
        strings(&["src/app.ts", "src/deep/nested.ts"])
    );
    assert_eq!(walk(WildcardMode::ComponentScoped, "src/*.ts"), strings(&["src/app.ts"]));
}

#[test]
fn the_wildcard_mode_governs_excludes_too() {
    let mut tree = Tree::new();
    for path in ["keep.rs", "drop.tmp", "src/drop.tmp"] {
        tree.write(path);
    }
    let walk = |mode: WildcardMode| {
        let walker = reject(walker().wildcard_mode(mode), "*.tmp").expect("valid");
        found(&tree, &walker.options(sorted().files_only(true)))
    };
    assert_eq!(walk(WildcardMode::ComponentScoped), strings(&["keep.rs", "src/drop.tmp"]));
    assert_eq!(walk(WildcardMode::SeparatorCrossing), strings(&["keep.rs"]));
}

#[test]
fn the_wildcard_mode_leaves_the_hidden_policy_alone() {
    let mut tree = Tree::new();
    for path in
        ["visible.ts", ".hidden.ts", "src/visible.ts", "src/.hidden.ts", ".config/inside.ts"]
    {
        tree.write(path);
    }
    let walk = |match_hidden: bool, options: WalkOptions| {
        let walker = walker()
            .wildcard_mode(WildcardMode::SeparatorCrossing)
            .match_hidden(match_hidden);
        found(&tree, &select(walker, "*.ts").expect("valid").options(options))
    };
    let options = sorted().files_only(true);
    let visible = strings(&["src/visible.ts", "visible.ts"]);
    assert_eq!(walk(false, options), visible, "crossing reaches deeper, not into hidden names");
    assert_eq!(
        walk(true, options),
        strings(&[
            ".config/inside.ts",
            ".hidden.ts",
            "src/.hidden.ts",
            "src/visible.ts",
            "visible.ts",
        ])
    );
    assert_eq!(walk(true, options.skip_hidden(true)), visible);
}

fn absolute(suffix: &str) -> String {
    format!("{ROOT}{suffix}")
}

#[test]
fn an_absolute_pattern_means_what_its_relative_spelling_means() {
    let mut tree = Tree::new();
    for path in ["src/a.ts", "src/deep/b.ts", "other/c.ts"] {
        tree.write(path);
    }
    let walk = |pattern: &str| {
        let walker = select(walker(), pattern).expect("valid");
        found(&tree, &walker.options(sorted().files_only(true)))
    };
    for (suffix, below) in [
        ("/src/*.ts", "src/*.ts"),
        ("/**/*.ts", "**/*.ts"),
        ("/src/**", "src/**"),
        ("/{src,other}/*.ts", "{src,other}/*.ts"),
        ("//src/*.ts", "src/*.ts"),
        ("/./src/*.ts", "src/*.ts"),
    ] {
        assert_eq!(walk(&absolute(suffix)), walk(below), "{suffix} selects what {below} selects");
    }
    assert_eq!(walk(&absolute("/src/*.ts")), strings(&["src/a.ts"]));
}

#[test]
fn an_absolute_pattern_is_read_under_the_walk_s_wildcard_mode() {
    let mut tree = Tree::new();
    tree.write("src/a.ts");
    tree.write("src/deep/b.ts");
    let walk = |mode: WildcardMode| {
        let walker = select(walker().wildcard_mode(mode), &absolute("/src/*.ts")).expect("valid");
        found(&tree, &walker.options(sorted().files_only(true)))
    };
    assert_eq!(walk(WildcardMode::ComponentScoped), strings(&["src/a.ts"]));
    assert_eq!(walk(WildcardMode::SeparatorCrossing), strings(&["src/a.ts", "src/deep/b.ts"]));
}

#[test]
fn an_absolute_pattern_outside_the_root_selects_and_prunes_nothing() {
    let mut tree = Tree::new();
    tree.write("src/a.ts");
    tree.write("keep/b.ts");
    let elsewhere = absolute("-elsewhere/**");
    let options = sorted().files_only(true);
    let selected = select(walker(), &elsewhere).expect("an unrelated tree is no error");
    assert!(found(&tree, &selected.options(options)).is_empty());
    let rejected = reject(walker(), &elsewhere).expect("an unrelated tree is no error");
    assert_eq!(found(&tree, &rejected.options(options)), strings(&["keep/b.ts", "src/a.ts"]));
}

#[test]
fn the_planner_prefilters_still_apply_to_a_rewritten_pattern() {
    let walker_with = select(walker(), &absolute("/src/**/*.ts")).expect("valid");
    let pattern = &walker_with.plan(0).includes()[0];
    assert_eq!(pattern.source(), b"src/**/*.ts");
    assert!(pattern.could_match_descendant(b"src"));
    assert!(!pattern.could_match_descendant(b"node_modules"));
    assert!(pattern.matches_extension(b"src/app.ts"));
    assert!(!pattern.matches_extension(b"src/app.js"));

    let outside = select(walker(), &absolute("-elsewhere/**/*.ts")).expect("no error");
    let pattern = &outside.plan(0).includes()[0];
    assert!(!pattern.could_match_descendant(b"src"));
    assert!(!pattern.covers_subtree(b"src", WildcardMode::ComponentScoped));
}

#[test]
fn an_unprovable_absolute_pattern_is_rejected() {
    let above = select(walker(), "/*/x.ts").expect_err("a wildcard above the root is rejected");
    assert!(above.message().starts_with("a wildcard at or above the walk root"));
    let dot_dot = select(walker(), &absolute("/../x.ts")).expect_err("`..` is rejected");
    assert!(dot_dot.message().starts_with("`..`"));
    let root_itself = reject(walker(), ROOT).expect_err("naming the root is rejected");
    assert!(root_itself
        .message()
        .starts_with("an absolute pattern that names the walk root itself"));
    let relative_root = select(walker_at("relative/dir"), &absolute("/x.ts"))
        .expect_err("a relative root is rejected");
    assert_eq!(relative_root.message(), "an absolute pattern needs an absolute walk root");
}

/// What a walk of several roots observed, as two multisets.
#[derive(Debug, PartialEq, Eq)]
struct Rooted {
    entries: Vec<(String, String, usize)>,
    errors: Vec<(&'static str, String)>,
}

impl Rooted {
    fn of(entries: &[WalkEntry], errors: &[WalkError]) -> Self {
        let mut entries = entries
            .iter()
            .map(|entry| (text(entry.root()), text(entry.path()), entry.depth()))
            .collect::<Vec<_>>();
        entries.sort_unstable();
        Rooted { entries, errors: errors_of(errors) }
    }

    fn concatenated(parts: Vec<Rooted>) -> Self {
        let mut joined = Rooted { entries: Vec::new(), errors: Vec::new() };
        for part in parts {
            joined.entries.extend(part.entries);
            joined.errors.extend(part.errors);
        }
        joined.entries.sort_unstable();
        joined.errors.sort_unstable();
        joined
    }
}

#[derive(Debug, Clone, Copy)]
enum Frontend {
    Collect,
    Visit,
    Stream,
}

fn multi_root(
    world: &dyn World,
    roots: &[String],
    pattern: Option<&str>,
    threads: usize,
    frontend: Frontend,
    follow: bool,
) -> Rooted {
    let options = WalkOptions::default().files_only(true).follow_symlinks(follow);
    let mut walker = walker_at(&roots[0]).threads(threads).options(options);
    for root in &roots[1..] {
        walker = another_root(walker, root).expect("the root takes the patterns");
    }
    if let Some(pattern) = pattern {
        walker = select(walker, pattern).expect("valid");
    }
    match frontend {
        Frontend::Collect => {
            let result = collect(world, &walker).expect("the walk goes on");
            Rooted::of(result.entries(), result.errors())
        }
        Frontend::Visit => {
            let result =
                visit(world, &walker, &mut |_| Verdict::Keep).expect("the walk goes on");
            Rooted::of(result.entries(), result.errors())
        }
        Frontend::Stream => {
            let mut entries = Vec::new();
            let mut errors = Vec::new();
            for item in streamed(world, &walker) {
                match item {
                    Ok(entry) => entries.push(entry),
                    Err(error) => errors.push(error),
                }
            }
            Rooted::of(&entries, &errors)
        }
    }
}

#[test]
fn a_multi_root_walk_is_the_concatenation_of_the_single_root_walks() {
    let mut tree = Tree::new();
    for path in [
        "alpha/src/one.rs",
        "alpha/src/deep/two.rs",
        "alpha/notes.txt",
        "beta/src/three.rs",
        "beta/four.txt",
        "gamma/src/five.rs",
    ] {
        tree.write(path);
    }
    let roots = ["alpha", "beta", "gamma", "missing"].map(|root| format!("{ROOT}/{root}"));
    for pattern in [None, Some("src/**/*.rs"), Some("**/*.rs")] {
        for threads in [1, 4] {
            for frontend in [Frontend::Collect, Frontend::Visit, Frontend::Stream] {
                let together = multi_root(&tree, &roots, pattern, threads, frontend, false);
                let separately = roots
                    .iter()
                    .map(|root| {
                        let root = [root.clone()];
                        multi_root(&tree, &root, pattern, threads, frontend, false)
                    })
                    .collect();
                assert_eq!(
                    together,
                    Rooted::concatenated(separately),
                    "{frontend:?} on {threads} threads with {pattern:?}"
                );
            }
        }
    }
    let all = multi_root(&tree, &roots, None, 4, Frontend::Collect, false);
    assert_eq!(all.entries.len(), 6);
    assert_eq!(all.errors.len(), 1);
    assert_eq!(all.errors[0].0, "read_dir");
}

#[test]
fn overlapping_roots_deliver_their_overlap_once_per_root() {
    let mut tree = Tree::new();
    tree.write("outer/inner/shared.rs");
    tree.write("outer/own.rs");
    let outer = absolute("/outer");
    let inner = absolute("/outer/inner");
    let walker = another_root(walker_at(&outer), &inner)
        .expect("nested roots are allowed")
        .threads(1)
        .options(sorted().files_only(true));
    let result = collect(&tree, &walker).expect("walk succeeds");
    let shared = Tree::at("outer/inner/shared.rs");
    let mut seen = result
        .entries()
        .iter()
        .filter(|entry| entry.path() == &shared[..])
        .map(|entry| (text(entry.root()), entry.depth()))
        .collect::<Vec<_>>();
    seen.sort_unstable();
    assert_eq!(seen, vec![(outer, 2), (inner, 1)], "each copy is counted from its own root");
}

#[test]
fn following_links_keeps_overlapping_and_duplicate_roots_independent() {
    let mut tree = Tree::new();
    for path in ["outer/own.txt", "outer/inner/shared.txt", "outer/inner/deep/leaf.txt"] {
        tree.write(path);
    }
    tree.link("..", "outer/inner/back");
    tree.link("outer", "outer-alias");
    let outer = absolute("/outer");
    let cases = [
        [outer.clone(), absolute("/outer/inner")],
        [outer.clone(), outer.clone()],
        [outer, absolute("/outer-alias")],
    ];
    for roots in cases {
        for frontend in [Frontend::Collect, Frontend::Visit, Frontend::Stream] {
            let together = multi_root(&tree, &roots, None, 1, frontend, true);
            let separately = roots
                .iter()
                .map(|root| multi_root(&tree, &[root.clone()], None, 1, frontend, true))
                .collect();
            assert_eq!(together, Rooted::concatenated(separately), "{frontend:?} {roots:?}");
        }
    }
}

#[test]
fn patterns_are_read_once_per_root() {
    let mut tree = Tree::new();
    for path in
        ["alpha/src/one.rs", "alpha/other/two.rs", "beta/src/three.rs", "beta/other/four.rs"]
    {
        tree.write(path);
    }
    let alpha = absolute("/alpha");
    let beta = absolute("/beta");
    let walk = |pattern: &str| {
        let walker = another_root(walker_at(&alpha), &beta).expect("the root is added");
        let walker = select(walker, pattern).expect("valid");
        found(&tree, &walker.options(sorted().files_only(true)))
    };
    assert_eq!(walk("src/*.rs"), strings(&["alpha/src/one.rs", "beta/src/three.rs"]));
    assert_eq!(walk(&format!("{alpha}/src/*.rs")), strings(&["alpha/src/one.rs"]));
}

#[test]
fn a_root_and_a_pattern_meet_whichever_order_they_arrive_in() {
    let mut tree = Tree::new();
    tree.write("alpha/src/one.rs");
    tree.write("beta/src/two.rs");
    let alpha = absolute("/alpha");
    let beta = absolute("/beta");
    let entries = |walker: Walker| found(&tree, &walker.options(sorted().files_only(true)));

    let root_first = entries(
        select(another_root(walker_at(&alpha), &beta).expect("root"), "src/*.rs").expect("valid"),
    );
    let pattern_first = entries(
        another_root(select(walker_at(&alpha), "src/*.rs").expect("valid"), &beta).expect("root"),
    );
    assert_eq!(root_first, pattern_first);
    assert_eq!(root_first.len(), 2);

    let unprovable = absolute("/../x.rs");
    assert!(select(another_root(walker_at(&alpha), &beta).expect("root"), &unprovable).is_err());
    assert!(select(walker_at(&alpha), &unprovable)
        .expect_err("`..` is refused for the first root already")
        .message()
        .starts_with("`..`"));
}

fn three_roots() -> (Tree, Walker, String) {
    let mut tree = Tree::new();
    tree.write("alpha/one.rs");
    tree.write("gamma/two.rs");
    let missing = absolute("/beta");
    let walker = another_root(walker_at(&absolute("/alpha")), &missing).expect("root");
    let walker = another_root(walker, &absolute("/gamma")).expect("root");
    (tree, walker.options(sorted().files_only(true)), missing)
}

#[test]
fn an_unreadable_root_does_not_stop_the_other_roots() {
    let (tree, walker, missing) = three_roots();
    for threads in [1, 4] {
        let result = collect(&tree, &walker.clone().threads(threads)).expect("the walk goes on");
        assert_eq!(relative(result.entries()), strings(&["alpha/one.rs", "gamma/two.rs"]));
        assert_eq!(result.errors().len(), 1);
        assert_eq!(result.errors()[0].operation(), "read_dir");
        assert_eq!(result.errors()[0].path(), missing.as_bytes());
    }
}

#[test]
fn skip_reports_a_failed_root_while_walking_the_other_roots() {
    let (tree, walker, missing) = three_roots();
    let walker = walker.error_policy(ErrorPolicy::Skip);
    for threads in [1, 4] {
        let result = collect(&tree, &walker.clone().threads(threads)).expect("the walk goes on");
        assert_eq!(relative(result.entries()), strings(&["alpha/one.rs", "gamma/two.rs"]));
        assert_eq!(result.errors().len(), 1);
        assert_eq!(result.errors()[0].path(), missing.as_bytes());
    }
    let mut entries = Vec::new();
    let mut errors = Vec::new();
    for item in streamed(&tree, &walker) {
        match item {
            Ok(entry) => entries.push(entry),
            Err(error) => errors.push(error),
        }
    }
    assert_eq!(relative(&by_path(entries)), strings(&["alpha/one.rs", "gamma/two.rs"]));
    assert_eq!(errors.len(), 1);
    assert_eq!(errors[0].path(), missing.as_bytes());
}

#[test]
fn a_windows_path_handed_over_as_a_pattern_is_refused() {
    let windows = || {
        Walker::new(
            b"C:/fixture".to_vec(),
            Host { syntax: Syntax::Windows, parallelism: 1 },
        )
    };
    for pattern in
        [r"C:\fixture\src\**\*.ts", r"C:\fixture\src\*.ts", r"src\*.ts", r"src\**\*.ts"]
    {
        let refused = select(windows(), pattern).expect_err("a path is refused as a pattern");
        assert!(
            refused.message().starts_with("this looks like a Windows path"),
            "{pattern:?} reported {}",
            refused.message()
        );
        assert!(reject(windows(), pattern).is_err());
    }
    for pattern in ["src/**/*.ts", "C:/fixture/src/**/*.ts"] {
        let walker = select(windows(), pattern).expect("valid");
        let compiled = &walker.plan(0).includes()[0];
        assert_eq!(compiled.source(), b"src/**/*.ts");
        for path in [&b"src/main.ts"[..], b"src/deep/other.ts"] {
            assert!(compiled.matches(path, false, WildcardMode::ComponentScoped));
        }
    }
    for pattern in [r"src/[m\*]ain.ts", r"src/{main,\*}.ts", r"src/@(main|\*).ts"] {
        let walker = select(windows(), pattern).expect("the pattern can match");
        let compiled = &walker.plan(0).includes()[0];
        assert!(compiled.matches(b"src/main.ts", false, WildcardMode::ComponentScoped));
    }
}

#[test]
fn subtree_pruning_agrees_with_the_exclude_it_came_from() {
    let mut tree = Tree::new();
    for path in ["a/b.tmp/keep.rs", "b.tmp/gone.rs", "a/plain/keep.rs"] {
        tree.write(path);
    }
    let walk = |mode: WildcardMode| {
        let walker = reject(walker().wildcard_mode(mode), "*.tmp/**").expect("valid");
        found(&tree, &walker.options(sorted().files_only(true)))
    };
    assert_eq!(
        walk(WildcardMode::ComponentScoped),
        strings(&["a/b.tmp/keep.rs", "a/plain/keep.rs"])
    );
    assert_eq!(walk(WildcardMode::SeparatorCrossing), strings(&["a/plain/keep.rs"]));
}

#[test]
fn excludes_keep_descending_for_an_explicitly_included_descendant() {
    let mut tree = Tree::new();
    tree.write("a/keep.txt");
    tree.write("a/drop.txt");
    let walker = reject(select(walker(), "a/keep.txt").expect("valid"), "a").expect("valid");
    assert_eq!(found(&tree, &walker.options(sorted().files_only(true))), strings(&["a/keep.txt"]));
}

#[test]
fn covering_excludes_prune_when_includes_cannot_reach_hidden_descendants() {
    let walk = |pattern: &str, match_hidden: bool| {
        let world = Mock::new(&[
            ("/fixture", &[("target", true, false), ("src", true, false)]),
            ("/fixture/target", &[("visible.rs", false, false), (".hidden", true, false)]),
            ("/fixture/target/.hidden", &[("keep.rs", false, false)]),
            ("/fixture/src", &[("keep.rs", false, false)]),
        ]);
        let walker = select(walker().threads(1).match_hidden(match_hidden), pattern);
        let walker = reject(walker.expect("valid"), "**/target/**").expect("valid");
        let paths = found(&world, &walker.options(WalkOptions::default().files_only(true)));
        (paths, world.reads.into_inner())
    };

    for match_hidden in [false, true] {
        let (paths, reads) = walk("**/*.{rs,toml}", match_hidden);
        assert_eq!(paths, strings(&["src/keep.rs"]));
        assert_eq!(
            reads,
            strings(&["/fixture", "/fixture/src"]),
            "match_hidden={match_hidden} must not open target"
        );
    }
    for pattern in ["**/.hidden/keep.rs", "**/?(.visible).hidden/keep.rs"] {
        let (paths, reads) = walk(pattern, false);
        assert_eq!(paths, strings(&["target/.hidden/keep.rs"]), "{pattern}");
        assert!(has(&reads, "/fixture/target/.hidden"), "{pattern}");
    }
}

#[test]
fn covering_excludes_prune_hidden_descendants_after_wildcards() {
    let mut tree = Tree::new();
    tree.write("build/.env");
    tree.write("x/foo/.hidden/keep.rs");
    for (label, mode, pattern, rejected) in [
        ("zero-width star", WildcardMode::ComponentScoped, "**/*.env", "build/**"),
        (
            "separator-crossing star",
            WildcardMode::SeparatorCrossing,
            "x/f*.hidden/keep.rs",
            "x/**",
        ),
    ] {
        let build = || {
            let walker = select(walker().wildcard_mode(mode), pattern).expect("valid");
            reject(walker, rejected).expect("valid").options(sorted().files_only(true))
        };
        assert_frontends_agree(label, &tree, &build);
        assert!(found(&tree, &build()).is_empty(), "{label}");
    }
}

#[test]
fn excluded_directories_without_includes_are_never_opened() {
    for pattern in ["target", "target/", "target/**"] {
        let world = Mock::new(&[
            ("/fixture", &[("target", true, false)]),
            ("/fixture/target", &[("must-not-be-read.txt", false, false)]),
        ]);
        let walker = reject(walker().threads(1), pattern).expect("valid");
        assert!(found(&world, &walker).is_empty(), "{pattern}");
        assert_eq!(world.reads.into_inner(), strings(&["/fixture"]), "{pattern}");
    }
}

#[test]
fn a_partial_component_literal_does_not_prune_its_siblings() {
    let mut tree = Tree::new();
    for path in ["src/x.ts", "srcfoo/x.ts", "other/x.ts"] {
        tree.write(path);
    }
    for mode in MODES {
        let walker = select(walker().wildcard_mode(mode), "src*/x.ts").expect("valid");
        assert_eq!(
            found(&tree, &walker.options(sorted().files_only(true))),
            strings(&["src/x.ts", "srcfoo/x.ts"]),
            "{mode:?}: a partial literal must not prune a sibling it matches"
        );
    }
    assert_eq!(literal_pattern_root(b"src/*.ts"), Some(b"src".to_vec()));
    assert_eq!(literal_pattern_root(b"src*/x.ts"), None);
    assert_eq!(literal_pattern_root(b"docs/api*/x.ts"), Some(b"docs".to_vec()));
}

#[test]
fn prune_planner_only_accepts_explicit_whole_subtree_excludes() {
    let scoped = WildcardMode::ComponentScoped;
    let subtree = traversal_pattern("src/**");
    assert!(subtree.covers_subtree(b"src", scoped));
    assert!(!subtree.covers_subtree(b"src/nested", scoped));

    let suffix = traversal_pattern("*.tmp");
    assert!(!suffix.covers_subtree(b"cache", scoped));

    let nested = traversal_pattern("**/target/**");
    assert!(nested.covers_subtree(b"target", scoped));
    assert!(nested.covers_subtree(b"crates/ferralk/target", scoped));

    let wildcard_subtree = traversal_pattern("*.tmp/**");
    assert!(!wildcard_subtree.covers_subtree(b"a/b.tmp", scoped));
    assert!(wildcard_subtree.covers_subtree(b"b.tmp", scoped));
    assert!(wildcard_subtree.covers_subtree(b"a/b.tmp", WildcardMode::SeparatorCrossing));

    assert_eq!(literal_pattern_root(b"src/foo/*.rs"), Some(b"src/foo".to_vec()));
    assert_eq!(literal_pattern_root(b"src/foo*.rs"), Some(b"src".to_vec()));
    assert_eq!(literal_pattern_root(b"**/*.rs"), None);
    assert_eq!(literal_pattern_root(b"foo+bar/**/*.rs"), Some(b"foo+bar".to_vec()));
    assert_eq!(literal_pattern_root(b"foo@(bar/**/*.rs"), Some(b"foo@(bar".to_vec()));

    let rust_sources = traversal_pattern("src/**/*.rs");
    assert!(rust_sources.matches_extension(b"src/lib.rs"));
    assert!(!rust_sources.matches_extension(b"src/lib.txt"));
    assert_eq!(literal_extension(b"src/**/*.{rs,ts}", Syntax::Posix), None);
    assert_eq!(literal_extension(b"src/**/*.rs", Syntax::Posix), Some(b"rs".to_vec()));
}

#[test]
fn a_visitor_skip_drops_the_entry_without_pruning_the_subtree() {
    let mut tree = Tree::new();
    tree.write("keep/inside.txt");
    for threads in [1, 4] {
        let result = visit(&tree, &walker().threads(threads), &mut |entry| {
            if entry.basename() == Some(b"keep") {
                Verdict::Skip
            } else {
                Verdict::Keep
            }
        })
        .expect("walk succeeds");
        assert_eq!(relative(result.entries()), strings(&["keep/inside.txt"]));
        assert!(!result.was_cancelled());
    }
}

#[test]
fn a_visitor_stop_ends_the_walk_and_is_reported() {
    let mut tree = Tree::new();
    for index in 0..64 {
        tree.write(&format!("file-{index}.txt"));
    }
    for threads in [1, 4] {
        let mut seen = 0;
        let result = visit(&tree, &walker().threads(threads), &mut |_| {
            seen += 1;
            if seen > 8 {
                Verdict::Stop
            } else {
                Verdict::Keep
            }
        })
        .expect("walk succeeds");
        assert!(result.was_cancelled(), "a stop is reported the way a cancellation is");
        assert!(result.entries().len() <= 64);
        assert_eq!(result.entries().len(), 8);
    }
}

#[test]
fn a_visitor_stop_leaves_a_caller_owned_cancellation_token_alone() {
    let mut tree = Tree::new();
    tree.write("only.txt");
    let cancellation = CancellationToken::default();
    for threads in [1, 4] {
        let walker = walker().threads(threads).cancellation(cancellation.clone());
        let result = visit(&tree, &walker, &mut |_| Verdict::Stop).expect("walk succeeds");
        assert!(result.was_cancelled());
        assert!(!cancellation.is_cancelled(), "a stop must not cancel the caller's token");
    }
}

#[test]
fn the_three_frontends_agree_on_entries_and_errors() {
    let mut tree = Tree::new();
    for path in ["src/lib.rs", "src/nested/mod.rs", "docs/guide.md", "docs/notes/todo.md"] {
        tree.write(path);
    }
    tree.directory("empty");
    assert_frontends_agree("plain tree", &tree, &walker);
    let metadata = || WalkOptions::default().metadata(true);
    assert_frontends_agree("with metadata", &tree, &|| walker().options(metadata()));
    assert_frontends_agree("filtered", &tree, &|| {
        select(walker().options(metadata()), "**/*.md").expect("valid")
    });
    assert_frontends_agree("directories only", &tree, &|| {
        walker().options(metadata().directories_only(true).max_depth(2))
    });
}

#[test]
fn the_three_frontends_agree_when_stat_fails() {
    let mut tree = Tree::new();
    tree.write("src/lib.rs");
    tree.write("docs/guide.md");
    tree.link("missing-target", "src/dangling");
    tree.link("missing-target", "docs/dangling");
    assert_frontends_agree("dangling symlinks", &tree, &|| {
        walker().options(sorted().metadata(true).follow_symlinks(true))
    });
}

#[test]
fn a_filtered_entry_is_never_stat_ed() {
    let mut tree = Tree::new();
    tree.write("keep/note.md");
    tree.write("blocked/hidden.txt");
    tree.refused.insert(Tree::at("blocked/hidden.txt"), FailureKind::PermissionDenied);
    let metadata = WalkOptions::default().metadata(true);
    let directories = || walker().options(metadata.directories_only(true));
    let selected = || select(walker().options(metadata), "**/keep/**").expect("valid");
    assert_frontends_agree("directories only", &tree, &directories);
    assert_frontends_agree("not selected", &tree, &selected);
    assert_eq!(
        outcome(collect(&tree, &directories())),
        Outcome::Completed { entries: strings(&["blocked", "keep"]), errors: Vec::new() }
    );
    assert_eq!(
        outcome(collect(&tree, &selected())),
        Outcome::Completed { entries: strings(&["keep", "keep/note.md"]), errors: Vec::new() }
    );
    assert!(!tree.owns.borrow().contains(&Tree::at("blocked/hidden.txt")));
}

#[test]
fn a_mock_backend_drives_the_parallel_walker() {
    let mut tree = Tree::new();
    for path in ["src/lib.rs", "src/nested/mod.rs", "docs/guide.md"] {
        tree.write(path);
    }
    let failing = Tree::at("src/nested/mod.rs");
    tree.refused.insert(failing.clone(), FailureKind::PermissionDenied);
    let metadata = sorted().metadata(true);
    let result = collect(&tree, &walker().threads(4).options(metadata)).expect("the walk goes on");
    assert!(has(&tree.directories_read(), "src"));
    assert_eq!(result.errors().len(), 1);
    assert_eq!(result.errors()[0].operation(), "symlink_metadata");
    assert_eq!(result.errors()[0].path(), &failing[..]);
    assert!(!result.entries().iter().any(|entry| entry.path() == &failing[..]));

    let walker = walker().threads(4).options(metadata.directories_only(true));
    let filtered = collect(&tree, &walker).expect("walk succeeds");
    assert!(filtered.errors().is_empty());
    assert_eq!(relative(filtered.entries()), strings(&["docs", "src", "src/nested"]));
}

#[test]
fn deferred_entry_stat_failures_keep_siblings_and_report_permissions() {
    let world = |kind| {
        let mut world =
            Mock::new(&[("/fixture", &[("before", false, false), ("after", false, false)])]);
        world.unknown = Some((kind, 1));
        world
    };
    let unknown = Tree::at("unknown");
    for threads in [1, 4] {
        let walker = walker().threads(threads).error_policy(ErrorPolicy::Collect);
        let result = collect(&world(FailureKind::PermissionDenied), &walker).expect("it goes on");
        assert_eq!(relative(result.entries()), strings(&["before", "after"]));
        assert_eq!(result.errors().len(), 1);
        assert_eq!(result.errors()[0].operation(), "read_dir");
        assert_eq!(result.errors()[0].path(), &unknown[..]);
        assert_eq!(result.errors()[0].source().kind(), FailureKind::PermissionDenied);
        for race in [FailureKind::NotFound, FailureKind::NotADirectory] {
            let result = collect(&world(race), &walker).expect("it goes on");
            assert_eq!(relative(result.entries()), strings(&["before", "after"]));
            assert!(result.errors().is_empty(), "{race:?} is a replacement race");
        }
    }
}

#[test]
fn stream_delivers_deferred_entry_errors_after_listing_siblings() {
    let mut world = Mock::new(&[("/fixture", &[("before", false, false), ("after", false, false)])]);
    world.unknown = Some((FailureKind::PermissionDenied, 1));
    let delivered = streamed(&world, &walker().error_policy(ErrorPolicy::Collect))
        .into_iter()
        .map(|item| match item {
            Ok(entry) => Ok(text(entry.path())),
            Err(error) => Err((error.operation(), text(error.path()), error.source().kind())),
        })
        .collect::<Vec<_>>();
    assert_eq!(
        delivered,
        vec![
            Ok(absolute("/before")),
            Ok(absolute("/after")),
            Err(("read_dir", absolute("/unknown"), FailureKind::PermissionDenied)),
        ],
        "one deferred failure must not hide its siblings"
    );
}

#[test]
fn literal_include_roots_prune_unrelated_sibling_directories() {
    let world = Mock::new(&[
        ("/fixture", &[("src", true, false), ("docs", true, false)]),
        ("/fixture/src", &[("main.rs", false, false)]),
    ]);
    let walker = select(walker(), "src/**/*.rs").expect("valid");
    assert_eq!(found(&world, &walker), strings(&["src/main.rs"]));
    assert_eq!(world.reads.into_inner(), strings(&["/fixture", "/fixture/src"]));
}

#[test]
fn metadata_error_is_retained_when_a_dirent_disappears_before_stat() {
    let mut world = Mock::new(&[("/fixture", &[("gone.rs", false, false)])]);
    world.own = Some(FailureKind::NotFound);
    let walker = walker().threads(1).options(WalkOptions::default().metadata(true));
    let result = collect(&world, &walker).expect("the error is retained");
    assert!(result.entries().is_empty());
    assert_eq!(result.errors().len(), 1);
    assert_eq!(result.errors()[0].operation(), "symlink_metadata");
    assert_eq!(result.errors()[0].path(), absolute("/gone.rs").as_bytes());
}

#[test]
fn an_unreadable_symlink_target_is_reported_rather_than_silently_dropped() {
    let options = WalkOptions::default().files_only(true).resolve_symlink_kind(true);
    let walk = |kind| {
        let mut world = Mock::new(&[("/fixture", &[("link", false, true)])]);
        world.target = Some(kind);
        collect(&world, &walker().threads(1).options(options)).expect("the walk goes on")
    };
    let broken = walk(FailureKind::NotFound);
    assert!(broken.entries().is_empty(), "a broken link is not a file");
    assert!(broken.errors().is_empty(), "a broken link is not an error");
    let refused = walk(FailureKind::PermissionDenied);
    assert!(refused.entries().is_empty());
    assert_eq!(refused.errors().len(), 1);
    assert_eq!(refused.errors()[0].operation(), "metadata");
    assert_eq!(refused.errors()[0].path(), absolute("/link").as_bytes());
}

#[test]
fn resolving_stats_only_symlinks_that_a_kind_filter_asks_about() {
    let count = |options: WalkOptions| {
        let world =
            Mock::new(&[("/fixture", &[("plain.txt", false, false), ("link", false, true)])]);
        collect(&world, &walker().threads(1).options(options)).expect("walk succeeds");
        world.targets.get()
    };
    let default = WalkOptions::default();
    assert_eq!(count(default.resolve_symlink_kind(true)), 0, "no kind filter is asking");
    assert_eq!(count(default.files_only(true)), 0, "the option is off");
    assert_eq!(count(default.files_only(true).resolve_symlink_kind(true)), 1);
}

#[test]
fn a_failed_root_is_reported_under_every_error_policy() {
    let tree = Tree::new();
    let missing = absolute("/missing");
    let walker = |policy| walker_at(&missing).error_policy(policy);
    for policy in [ErrorPolicy::Collect, ErrorPolicy::Skip] {
        for threads in [1, 4] {
            let result = collect(&tree, &walker(policy).threads(threads)).expect("it goes on");
            assert_eq!(result.errors().len(), 1);
            assert_eq!(result.errors()[0].operation(), "read_dir");
            assert_eq!(result.errors()[0].path(), missing.as_bytes());
        }
    }
    let items = streamed(&tree, &walker(ErrorPolicy::Skip));
    assert_eq!(items.len(), 1);
    let error = items[0].as_ref().expect_err("the failed root is reported");
    assert_eq!(error.operation(), "read_dir");
    assert_eq!(error.path(), missing.as_bytes());
    assert!(collect(&tree, &walker(ErrorPolicy::Abort)).is_err());
}

#[test]
fn a_plain_file_root_reports_not_a_directory_without_emitting_it() {
    let mut tree = Tree::new();
    tree.write("not-a-directory.txt");
    let file = absolute("/not-a-directory.txt");
    for threads in [1, 4] {
        let walker = walker_at(&file).threads(threads).error_policy(ErrorPolicy::Skip);
        let result = collect(&tree, &walker).expect("the walk completes");
        assert!(result.entries().is_empty());
        assert_eq!(result.errors().len(), 1);
        assert_eq!(result.errors()[0].operation(), "read_dir");
        assert_eq!(result.errors()[0].path(), file.as_bytes());
        assert_eq!(result.errors()[0].source().kind(), FailureKind::NotADirectory);
    }
}

#[test]
fn a_directory_symlink_root_is_traversed_even_without_following_descendants() {
    let mut tree = Tree::new();
    tree.write("real/inside.txt");
    tree.link("real", "linked-root");
    let link = absolute("/linked-root");
    for threads in [1, 4] {
        for follow in [false, true] {
            let options = WalkOptions::default().follow_symlinks(follow);
            let walker = walker_at(&link).threads(threads).options(options);
            let result = collect(&tree, &walker).expect("the root is opened");
            assert_eq!(relative_to(result.entries(), &link), strings(&["inside.txt"]));
        }
    }
}

#[test]
fn cancellation_returns_a_partial_result_without_an_io_error() {
    let mut tree = Tree::new();
    tree.write("src/main.rs");
    let cancellation = CancellationToken::default();
    cancellation.cancel();
    let result = collect(&tree, &walker().cancellation(cancellation)).expect("a partial result");
    assert!(result.was_cancelled());
    assert!(result.entries().is_empty());
    assert!(result.errors().is_empty());
}

#[test]
fn stream_yields_filtered_entries_incrementally_and_honours_cancellation() {
    let mut tree = Tree::new();
    tree.write("src/main.rs");
    tree.write("src/lib.txt");
    let selecting = select(walker(), "**/*.rs").expect("valid");
    let mut stream = WalkStream::new(root_tasks(&tree, &selecting));
    let first = next(&tree, &selecting, &mut stream).expect("one entry").expect("no error");
    assert_eq!(relative(&[first]), strings(&["src/main.rs"]));
    assert!(next(&tree, &selecting, &mut stream).is_none());
    assert!(!stream.was_cancelled());

    let cancellation = CancellationToken::default();
    cancellation.cancel();
    let walker = walker().cancellation(cancellation);
    let mut stream = WalkStream::new(root_tasks(&tree, &walker));
    assert!(next(&tree, &walker, &mut stream).is_none());
    assert!(stream.was_cancelled());
}

#[test]
fn path_bytes_bridge_entries_to_byte_first_matchers() {
    let mut tree = Tree::new();
    tree.write("src/main.rs");
    let result = collect(&tree, &walker()).expect("walk succeeds");
    let main = Tree::at("src/main.rs");
    let entry = result
        .entries()
        .iter()
        .find(|entry| entry.path() == &main[..])
        .expect("the walk reports the file");
    let options = ferralk_glob::PatternOptions::default().recursive_double_star(true);
    let matcher = ferralk_glob::Pattern::compile("**/main.rs", options).expect("valid pattern");
    assert_eq!(entry.path_bytes(), entry.path());
    assert!(matcher.is_match(entry.path_bytes()));
}

#[test]
fn symlink_aliases_are_entered_by_every_frontend() {
    let mut tree = Tree::new();
    tree.write("real/inside.txt");
    tree.link("real", "first");
    tree.link("real", "second");
    let walker = walker().options(sorted().follow_symlinks(true));
    let inside = |paths: Vec<String>| {
        let mut paths =
            paths.into_iter().filter(|path| path.ends_with("inside.txt")).collect::<Vec<_>>();
        paths.sort_unstable();
        paths
    };
    let expected = strings(&["first/inside.txt", "real/inside.txt", "second/inside.txt"]);
    assert_eq!(inside(found(&tree, &walker)), expected);
    assert_eq!(inside(relative(&streamed_entries(&tree, &walker))), expected);
}

#[test]
fn followed_directory_symlinks_use_the_target_kind_for_excludes_and_ignores() {
    let follow = sorted().follow_symlinks(true);
    let mut excluded = Tree::new();
    excluded.write("real/artifact.o");
    excluded.link("real", "linked");
    let build = || reject(walker(), "linked/").expect("valid").options(follow);
    assert_frontends_agree("excluded as directory", &excluded, &build);
    assert_eq!(found(&excluded, &build()), strings(&["real", "real/artifact.o"]));

    let mut ignored = Tree::new();
    ignored.write("real/artifact.o");
    ignored.contents(".gitignore", b"build/\n");
    ignored.link("real", "build");
    let build = || walker().respect_git_ignore(true).options(follow);
    assert_frontends_agree("ignored as directory", &ignored, &build);
    assert_eq!(
        found(&ignored, &build()),
        strings(&[".gitignore", "real", "real/artifact.o"])
    );
}

#[test]
fn includes_re_admit_descendants_through_followed_directory_symlinks() {
    let follow = sorted().follow_symlinks(true);
    let mut tree = Tree::new();
    tree.write("real/keep.txt");
    tree.link("real", "linked");
    let build = |name: &str| {
        let walker = reject(walker(), name).expect("valid");
        select(walker, &format!("{name}/keep.txt")).expect("valid").options(follow)
    };
    assert_eq!(found(&tree, &build("real")), strings(&["real/keep.txt"]));
    assert_frontends_agree("below an excluded link", &tree, &|| build("linked"));
    assert_eq!(found(&tree, &build("linked")), strings(&["linked/keep.txt"]));

    tree.link("missing-target", "dangling");
    let walker = build("dangling").error_policy(ErrorPolicy::Collect);
    let dangling = collect(&tree, &walker).expect("the walk goes on");
    assert!(dangling.entries().is_empty());
    assert!(dangling.errors().is_empty());
}

#[test]
fn an_excluded_self_loop_cannot_abort_a_re_admitting_walk() {
    let mut tree = Tree::new();
    tree.link("loop", "loop");
    for threads in [1, 4] {
        let walker = reject(walker().threads(threads), "loop").expect("valid");
        let walker = select(walker, "loop/keep.txt")
            .expect("valid")
            .options(WalkOptions::default().follow_symlinks(true))
            .error_policy(ErrorPolicy::Abort);
        let result = collect(&tree, &walker).expect("nothing below it could be re-admitted");
        assert!(result.entries().is_empty(), "threads={threads}");
        assert!(result.errors().is_empty(), "threads={threads}");
    }
}

#[test]
fn an_excluded_link_through_a_file_has_no_re_admittable_descendant() {
    let mut tree = Tree::new();
    tree.write("plain.txt");
    tree.link("plain.txt/inner", "notdir");
    let follow = WalkOptions::default().follow_symlinks(true);
    let walker_for = || walker().options(follow).error_policy(ErrorPolicy::Abort);
    for threads in [1, 4] {
        let walker = reject(walker_for().threads(threads), "notdir").expect("valid");
        let walker = select(walker, "notdir/keep.txt").expect("valid");
        let result = collect(&tree, &walker).expect("it cannot reach a descendant");
        assert!(result.entries().is_empty(), "threads={threads}");
    }
    let error = collect(&tree, &walker_for()).expect_err("an unexcluded link stays an error");
    assert_eq!(error.operation(), "metadata");
    assert_eq!(error.path(), absolute("/notdir").as_bytes());
    assert_eq!(error.source().kind(), FailureKind::NotADirectory);
}

#[test]
fn followed_symlinks_skipped_by_path_rules_do_not_need_a_target() {
    let follow = sorted().follow_symlinks(true);
    let mut excluded = Tree::new();
    excluded.link("missing-target", "hidden-link");
    let build = || reject(walker(), "hidden-link").expect("valid").options(follow);
    assert_frontends_agree("path-excluded dangling link", &excluded, &build);
    let result = collect(&excluded, &build()).expect("no error");
    assert!(result.entries().is_empty());
    assert!(result.errors().is_empty());

    let mut ignored = Tree::new();
    ignored.contents(".gitignore", b"hidden-link\n");
    ignored.link("missing-target", "hidden-link");
    let build = || walker().respect_git_ignore(true).options(follow);
    assert_frontends_agree("path-ignored dangling link", &ignored, &build);
    let result = collect(&ignored, &build()).expect("no error");
    assert_eq!(relative(result.entries()), strings(&[".gitignore"]));
    assert!(result.errors().is_empty());
}

#[test]
fn symlink_policy_prevents_directory_cycles_without_pruning_aliases() {
    let mut tree = Tree::new();
    tree.write("real/inside.txt");
    tree.link("..", "real/back");
    let without = collect(&tree, &walker().options(sorted())).expect("walk succeeds");
    assert!(!has(&relative(without.entries()), "real/back/real/inside.txt"));
    let link = without
        .entries()
        .iter()
        .find(|entry| entry.basename() == Some(b"back"))
        .expect("the link is reported");
    assert!(link.is_symlink());
    assert_eq!(link.kind(), WalkEntryKind::Symlink);

    let paths = found(&tree, &walker().options(sorted().follow_symlinks(true)));
    assert_eq!(paths.iter().filter(|path| path.ends_with("inside.txt")).count(), 1);
}

#[test]
fn parallel_collect_retains_concurrent_metadata_errors() {
    let mut tree = Tree::new();
    tree.write("left/ok.txt");
    tree.write("right/ok.txt");
    tree.link("missing-left", "left/dangling");
    tree.link("missing-right", "right/dangling");
    let walker = walker()
        .options(sorted().follow_symlinks(true))
        .error_policy(ErrorPolicy::Collect);
    let serial = collect(&tree, &walker.clone().threads(1)).expect("errors are retained");
    let wide = collect(&tree, &walker.threads(4)).expect("errors are retained");
    assert_eq!(errors_of(wide.errors()), errors_of(serial.errors()));
    assert_eq!(wide.errors().len(), 2);
}

#[test]
fn parallel_abort_returns_an_error_without_cancelling_the_caller_token() {
    let mut tree = Tree::new();
    tree.write("left/ok.txt");
    tree.write("right/ok.txt");
    tree.link("missing-left", "left/dangling");
    tree.link("missing-right", "right/dangling");
    for threads in [1, 4] {
        let cancellation = CancellationToken::default();
        let walker_for = || walker().threads(threads).cancellation(cancellation.clone());
        let walker = walker_for()
            .options(WalkOptions::default().follow_symlinks(true))
            .error_policy(ErrorPolicy::Abort);
        let error = collect(&tree, &walker).expect_err("the first error is returned");
        assert_eq!(error.operation(), "metadata");
        assert!(!cancellation.is_cancelled(), "an abort leaves the caller's token alone");
        let reused = collect(&tree, &walker_for()).expect("the token can drive a later walk");
        assert!(!reused.was_cancelled());
    }
}

#[test]
fn a_stream_fails_last_exactly_where_a_collected_walk_aborts() {
    let mut tree = Tree::new();
    tree.write("left/ok.txt");
    tree.write("right/ok.txt");
    let walker = || {
        walker()
            .options(WalkOptions::default().follow_symlinks(true))
            .error_policy(ErrorPolicy::Abort)
    };
    let result = collect(&tree, &walker()).expect("nothing fails");
    let mut collected = relative(result.entries());
    let mut items = relative(&streamed_entries(&tree, &walker()));
    collected.sort_unstable();
    items.sort_unstable();
    assert_eq!(items, collected);
    assert_eq!(collected, strings(&["left", "left/ok.txt", "right", "right/ok.txt"]));

    tree.link("missing", "right/dangling");
    let aborted = collect(&tree, &walker()).expect_err("the walk ends");
    let mut items = streamed(&tree, &walker());
    let last = items.pop().expect("the stream says something").expect_err("a failure comes last");
    assert_eq!((last.operation(), last.path()), (aborted.operation(), aborted.path()));
    assert!(items.iter().all(|item| item.is_ok()));
}

#[test]
fn preserves_non_utf8_native_paths() {
    let mut tree = Tree::new();
    let path = push_name(ROOT.as_bytes(), &[b'n', 0xFF], Syntax::Posix);
    tree.place(path.clone(), Node::File(Vec::new()));
    let result = collect(&tree, &walker().options(sorted())).expect("walk succeeds");
    assert_eq!(result.entries().len(), 1);
    assert_eq!(result.entries()[0].path(), &path[..]);
}
