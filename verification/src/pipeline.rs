//! The render pipeline orchestrator: one state machine per render request,
//! sequencing lock acquisition, preference and template setup, content
//! preparation, compilation, and source-map construction.
//!
//! The caller performs each step's outside work (file writes, the compiler
//! subprocess) and reports how it went; the machine decides what happens
//! next. Every step that touches the shared build directory is ordered
//! strictly between the lock grant and the release, and the lock is
//! released on every path, success or failure.

use crate::bytes::{append_slice, append_str, slice_copy};
use crate::naming::{ext_of, stem_split};
use crate::rewrite::{file_name_of, scan_to, ws_fwd};
use vstd::prelude::*;
use vstd::string::StringSliceAdditionalSpecFns;

verus! {

/// The kind of render request.
#[derive(Debug, Clone, Copy, PartialEq, Eq, Structural)]
pub enum RenderKind {
    /// Live preview: two content variants, compiled from the preview one.
    Preview,
    /// Export: one clean variant, compiled next to the source file.
    Export,
    /// Ad-hoc content: a uniquely named temporary input and output.
    AdHoc,
}

/// The phases of one render request.
#[derive(Debug, Clone, Copy, PartialEq, Eq, Structural)]
pub enum RenderPhase {
    Idle,
    AcquireLock,
    SetupPreferences,
    PrepareContent,
    SetupTemplate,
    Compile,
    RestoreClean,
    BuildSourceMap,
    ReleaseLock,
    Done,
    Failed,
}

/// What the build directory's canonical content file currently holds.
#[derive(Debug, Clone, Copy, PartialEq, Eq, Structural)]
pub enum ContentTag {
    /// Nothing known: before this render wrote it, or after a failure.
    Unknown,
    /// The clean (exportable) variant.
    Clean,
    /// The preview variant bearing preview-only tokens.
    Preview,
}

/// What the caller reports back after performing a step.
#[derive(Debug, Clone, Copy, PartialEq, Eq, Structural)]
pub enum RenderEvent {
    /// The global render lock was granted.
    LockGranted,
    /// The step's outside work succeeded.
    StepOk,
    /// The step's outside work failed.
    StepFailed,
}

/// What the caller must do next.
#[derive(Debug, Clone, Copy, PartialEq, Eq, Structural)]
pub enum RenderAction {
    /// Wait on the global render lock.
    RequestLock,
    /// Read the canonical preferences, rewrite the cover image, write the
    /// working copy into the build directory.
    DoSetupPrefs,
    /// Write the content variants: the clean one to the canonical file,
    /// and for a preview render the preview variant installed over it.
    WriteContent,
    /// Copy the template and its theme assets into the build directory.
    DoSetupTemplate,
    /// Run the compiler subprocess with a bounded wait.
    RunCompiler,
    /// Write the clean variant back over the canonical content file.
    RestoreCleanContent,
    /// Probe the compiler version and run the query selector loop.
    RunQuery,
    /// Release the global render lock.
    Release,
    /// Nothing: the render is over.
    Finish,
}

/// One render request's machine state.
#[derive(Debug, Clone, Copy, PartialEq, Eq, Structural)]
pub struct RenderState {
    pub kind: RenderKind,
    pub phase: RenderPhase,
    pub lock_held: bool,
    pub content_md: ContentTag,
    pub failed: bool,
}

/// An action that reads or writes the shared build directory.
pub open spec fn touches_build_dir(a: RenderAction) -> bool {
    a == RenderAction::DoSetupPrefs || a == RenderAction::WriteContent
        || a == RenderAction::DoSetupTemplate || a == RenderAction::RunCompiler
        || a == RenderAction::RestoreCleanContent || a == RenderAction::RunQuery
}

/// The fresh state of a render request of the given kind, and the first
/// thing to do: wait on the lock.
pub open spec fn start_spec(kind: RenderKind) -> (RenderState, RenderAction) {
    (
        RenderState {
            kind,
            phase: RenderPhase::AcquireLock,
            lock_held: false,
            content_md: ContentTag::Unknown,
            failed: false,
        },
        RenderAction::RequestLock,
    )
}

/// The transition table: what each phase does with each report.
pub open spec fn step_spec(s: RenderState, e: RenderEvent) -> (RenderState, RenderAction) {
    match (s.phase, e) {
        (RenderPhase::AcquireLock, RenderEvent::LockGranted) => (
            RenderState { phase: RenderPhase::SetupPreferences, lock_held: true, ..s },
            RenderAction::DoSetupPrefs,
        ),
        (RenderPhase::SetupPreferences, RenderEvent::StepOk) => (
            RenderState { phase: RenderPhase::PrepareContent, ..s },
            RenderAction::WriteContent,
        ),
        (RenderPhase::PrepareContent, RenderEvent::StepOk) => (
            RenderState {
                phase: RenderPhase::SetupTemplate,
                content_md: if s.kind == RenderKind::Preview {
                    ContentTag::Preview
                } else {
                    ContentTag::Clean
                },
                ..s
            },
            RenderAction::DoSetupTemplate,
        ),
        (RenderPhase::SetupTemplate, RenderEvent::StepOk) => (
            RenderState { phase: RenderPhase::Compile, ..s },
            RenderAction::RunCompiler,
        ),
        (RenderPhase::Compile, RenderEvent::StepOk) => {
            if s.kind == RenderKind::Preview {
                (
                    RenderState { phase: RenderPhase::RestoreClean, ..s },
                    RenderAction::RestoreCleanContent,
                )
            } else if s.kind == RenderKind::AdHoc {
                (RenderState { phase: RenderPhase::BuildSourceMap, ..s }, RenderAction::RunQuery)
            } else {
                (RenderState { phase: RenderPhase::ReleaseLock, ..s }, RenderAction::Release)
            }
        },
        (RenderPhase::RestoreClean, RenderEvent::StepOk) => (
            RenderState {
                phase: RenderPhase::BuildSourceMap,
                content_md: ContentTag::Clean,
                ..s
            },
            RenderAction::RunQuery,
        ),
        // a failed or partial source map never aborts the render
        (RenderPhase::BuildSourceMap, RenderEvent::StepOk) => (
            RenderState { phase: RenderPhase::ReleaseLock, ..s },
            RenderAction::Release,
        ),
        (RenderPhase::BuildSourceMap, RenderEvent::StepFailed) => (
            RenderState { phase: RenderPhase::ReleaseLock, ..s },
            RenderAction::Release,
        ),
        (RenderPhase::ReleaseLock, RenderEvent::StepOk) => (
            RenderState {
                phase: if s.failed {
                    RenderPhase::Failed
                } else {
                    RenderPhase::Done
                },
                lock_held: false,
                ..s
            },
            RenderAction::Finish,
        ),
        (RenderPhase::SetupPreferences, RenderEvent::StepFailed) => (
            RenderState { phase: RenderPhase::ReleaseLock, failed: true, ..s },
            RenderAction::Release,
        ),
        (RenderPhase::PrepareContent, RenderEvent::StepFailed) => (
            RenderState {
                phase: RenderPhase::ReleaseLock,
                failed: true,
                content_md: ContentTag::Unknown,
                ..s
            },
            RenderAction::Release,
        ),
        (RenderPhase::SetupTemplate, RenderEvent::StepFailed) => (
            RenderState { phase: RenderPhase::ReleaseLock, failed: true, ..s },
            RenderAction::Release,
        ),
        (RenderPhase::Compile, RenderEvent::StepFailed) => (
            RenderState { phase: RenderPhase::ReleaseLock, failed: true, ..s },
            RenderAction::Release,
        ),
        (RenderPhase::RestoreClean, RenderEvent::StepFailed) => (
            RenderState {
                phase: RenderPhase::ReleaseLock,
                failed: true,
                content_md: ContentTag::Unknown,
                ..s
            },
            RenderAction::Release,
        ),
        _ => (s, RenderAction::Finish),
    }
}

/// Starts a render request.
pub fn start_render(kind: RenderKind) -> (r: (RenderState, RenderAction))
    ensures
        r == start_spec(kind),
{
    (
        RenderState {
            kind,
            phase: RenderPhase::AcquireLock,
            lock_held: false,
            content_md: ContentTag::Unknown,
            failed: false,
        },
        RenderAction::RequestLock,
    )
}

/// Advances a render request by one reported step.
pub fn step_render(s: RenderState, e: RenderEvent) -> (r: (RenderState, RenderAction))
    ensures
        r == step_spec(s, e),
{
    match (s.phase, e) {
        (RenderPhase::AcquireLock, RenderEvent::LockGranted) => (
            RenderState { phase: RenderPhase::SetupPreferences, lock_held: true, ..s },
            RenderAction::DoSetupPrefs,
        ),
        (RenderPhase::SetupPreferences, RenderEvent::StepOk) => (
            RenderState { phase: RenderPhase::PrepareContent, ..s },
            RenderAction::WriteContent,
        ),
        (RenderPhase::PrepareContent, RenderEvent::StepOk) => (
            RenderState {
                phase: RenderPhase::SetupTemplate,
                content_md: if s.kind == RenderKind::Preview {
                    ContentTag::Preview
                } else {
                    ContentTag::Clean
                },
                ..s
            },
            RenderAction::DoSetupTemplate,
        ),
        (RenderPhase::SetupTemplate, RenderEvent::StepOk) => (
            RenderState { phase: RenderPhase::Compile, ..s },
            RenderAction::RunCompiler,
        ),
        (RenderPhase::Compile, RenderEvent::StepOk) => {
            if s.kind == RenderKind::Preview {
                (
                    RenderState { phase: RenderPhase::RestoreClean, ..s },
                    RenderAction::RestoreCleanContent,
                )
            } else if s.kind == RenderKind::AdHoc {
                (RenderState { phase: RenderPhase::BuildSourceMap, ..s }, RenderAction::RunQuery)
            } else {
                (RenderState { phase: RenderPhase::ReleaseLock, ..s }, RenderAction::Release)
            }
        },
        (RenderPhase::RestoreClean, RenderEvent::StepOk) => (
            RenderState {
                phase: RenderPhase::BuildSourceMap,
                content_md: ContentTag::Clean,
                ..s
            },
            RenderAction::RunQuery,
        ),
        (RenderPhase::BuildSourceMap, RenderEvent::StepOk) => (
            RenderState { phase: RenderPhase::ReleaseLock, ..s },
            RenderAction::Release,
        ),
        (RenderPhase::BuildSourceMap, RenderEvent::StepFailed) => (
            RenderState { phase: RenderPhase::ReleaseLock, ..s },
            RenderAction::Release,
        ),
        (RenderPhase::ReleaseLock, RenderEvent::StepOk) => (
            RenderState {
                phase: if s.failed {
                    RenderPhase::Failed
                } else {
                    RenderPhase::Done
                },
                lock_held: false,
                ..s
            },
            RenderAction::Finish,
        ),
        (RenderPhase::SetupPreferences, RenderEvent::StepFailed) => (
            RenderState { phase: RenderPhase::ReleaseLock, failed: true, ..s },
            RenderAction::Release,
        ),
        (RenderPhase::PrepareContent, RenderEvent::StepFailed) => (
            RenderState {
                phase: RenderPhase::ReleaseLock,
                failed: true,
                content_md: ContentTag::Unknown,
                ..s
            },
            RenderAction::Release,
        ),
        (RenderPhase::SetupTemplate, RenderEvent::StepFailed) => (
            RenderState { phase: RenderPhase::ReleaseLock, failed: true, ..s },
            RenderAction::Release,
        ),
        (RenderPhase::Compile, RenderEvent::StepFailed) => (
            RenderState { phase: RenderPhase::ReleaseLock, failed: true, ..s },
            RenderAction::Release,
        ),
        (RenderPhase::RestoreClean, RenderEvent::StepFailed) => (
            RenderState {
                phase: RenderPhase::ReleaseLock,
                failed: true,
                content_md: ContentTag::Unknown,
                ..s
            },
            RenderAction::Release,
        ),
        _ => (s, RenderAction::Finish),
    }
}

/// The machine's invariant: the lock is held exactly while work on the
/// build directory may still be ordered, never at the end; after a
/// successful preview compile the canonical content is the preview
/// variant until it is restored, and clean from the restore on.
pub open spec fn render_inv(s: RenderState) -> bool {
    &&& (s.phase == RenderPhase::SetupPreferences || s.phase == RenderPhase::PrepareContent
        || s.phase == RenderPhase::SetupTemplate || s.phase == RenderPhase::Compile || s.phase
        == RenderPhase::RestoreClean || s.phase == RenderPhase::BuildSourceMap || s.phase
        == RenderPhase::ReleaseLock) ==> s.lock_held
    &&& (s.phase == RenderPhase::Idle || s.phase == RenderPhase::AcquireLock || s.phase
        == RenderPhase::Done || s.phase == RenderPhase::Failed) ==> !s.lock_held
    &&& (s.kind == RenderKind::Preview && (s.phase == RenderPhase::SetupTemplate || s.phase
        == RenderPhase::Compile || s.phase == RenderPhase::RestoreClean) ==> s.content_md
        == ContentTag::Preview)
    &&& s.phase == RenderPhase::Done ==> !s.failed
    &&& (s.kind == RenderKind::Preview && !s.failed && (s.phase == RenderPhase::BuildSourceMap
        || s.phase == RenderPhase::ReleaseLock || s.phase == RenderPhase::Done) ==> s.content_md
        == ContentTag::Clean)
}

/// Single-flight compilation, the machine's half: every action that
/// touches the shared build directory is ordered while this request holds
/// the global render lock, and a finished request, successful or failed,
/// has released it. With the lock exclusive between requests, no second
/// request's setup can begin before the first request's compile has fully
/// completed, so writes to the canonical content file never interleave.
pub proof fn lemma_single_flight(s: RenderState, e: RenderEvent)
    requires
        render_inv(s),
    ensures
        render_inv(step_spec(s, e).0),
        touches_build_dir(step_spec(s, e).1) ==> step_spec(s, e).0.lock_held,
        render_inv(start_spec(s.kind).0),
        step_spec(s, e).0.phase == RenderPhase::Done || step_spec(s, e).0.phase
            == RenderPhase::Failed ==> !step_spec(s, e).0.lock_held,
{
}

/// Preview/export content divergence, the machine's half: a preview
/// request compiles while the canonical content file holds the preview
/// variant, and when it finishes, the file holds the clean (exportable)
/// variant again — the persisted content never keeps preview-only tokens.
pub proof fn lemma_preview_content_divergence(s: RenderState)
    requires
        render_inv(s),
        s.kind == RenderKind::Preview,
    ensures
        s.phase == RenderPhase::Compile ==> s.content_md == ContentTag::Preview,
        s.phase == RenderPhase::Done ==> s.content_md == ContentTag::Clean,
{
}

// ---------------------------------------------------------------------
// Compiler invocation helpers
// ---------------------------------------------------------------------

/// How long a compile may run before it is forcibly terminated.
pub const COMPILE_TIMEOUT_MS: u64 = 30000;

/// Whether a compile has exceeded its bounded wait.
pub fn compile_timed_out(elapsed_ms: u64) -> (r: bool)
    ensures
        r == (elapsed_ms > COMPILE_TIMEOUT_MS),
{
    elapsed_ms > COMPILE_TIMEOUT_MS
}

/// The outcome of a compiler run.
#[derive(Debug, Clone, Copy, PartialEq, Eq, Structural)]
pub enum CompileOutcome {
    /// Exit status zero and the output file present.
    Success,
    /// The bounded wait ran out and the process was terminated.
    TimedOut,
    /// A non-zero exit status; stdout and stderr carry the detail.
    CompilerError,
    /// Exit status zero but no output file: a silent compiler failure.
    MissingOutput,
}

/// Classifies a compiler run from what the caller observed.
pub fn classify_compile(timed_out: bool, status_success: bool, output_exists: bool) -> (r:
    CompileOutcome)
    ensures
        timed_out ==> r == CompileOutcome::TimedOut,
        !timed_out && !status_success ==> r == CompileOutcome::CompilerError,
        !timed_out && status_success && !output_exists ==> r == CompileOutcome::MissingOutput,
        !timed_out && status_success && output_exists ==> r == CompileOutcome::Success,
{
    if timed_out {
        CompileOutcome::TimedOut
    } else if !status_success {
        CompileOutcome::CompilerError
    } else if !output_exists {
        CompileOutcome::MissingOutput
    } else {
        CompileOutcome::Success
    }
}

/// The compiler's compile invocation: `compile --root <root>
/// tideflow.typ <output>`, run from the build directory.
pub fn compile_args(root: &Vec<u8>, output: &Vec<u8>) -> (r: Vec<Vec<u8>>)
    ensures
        r@.len() == 5,
        r@[0]@ == "compile".spec_bytes(),
        r@[1]@ == "--root".spec_bytes(),
        r@[2]@ == root@,
        r@[3]@ == "tideflow.typ".spec_bytes(),
        r@[4]@ == output@,
{
    let mut out: Vec<Vec<u8>> = Vec::new();
    out.push(crate::bytes::str_bytes("compile"));
    out.push(crate::bytes::str_bytes("--root"));
    out.push(slice_copy(root.as_slice(), 0, root.len()));
    out.push(crate::bytes::str_bytes("tideflow.typ"));
    out.push(slice_copy(output.as_slice(), 0, output.len()));
    out
}

/// The compiler's query invocation: `query --format json --root <root>
/// tideflow.typ <selector>`, run from the build directory.
pub fn query_args(root: &Vec<u8>, selector: &Vec<u8>) -> (r: Vec<Vec<u8>>)
    ensures
        r@.len() == 7,
        r@[0]@ == "query".spec_bytes(),
        r@[1]@ == "--format".spec_bytes(),
        r@[2]@ == "json".spec_bytes(),
        r@[3]@ == "--root".spec_bytes(),
        r@[4]@ == root@,
        r@[5]@ == "tideflow.typ".spec_bytes(),
        r@[6]@ == selector@,
{
    let mut out: Vec<Vec<u8>> = Vec::new();
    out.push(crate::bytes::str_bytes("query"));
    out.push(crate::bytes::str_bytes("--format"));
    out.push(crate::bytes::str_bytes("json"));
    out.push(crate::bytes::str_bytes("--root"));
    out.push(slice_copy(root.as_slice(), 0, root.len()));
    out.push(crate::bytes::str_bytes("tideflow.typ"));
    out.push(slice_copy(selector.as_slice(), 0, selector.len()));
    out
}

/// The extension of a path's file name, ASCII lower-cased.
pub open spec fn path_ext_lower(path: Seq<u8>) -> Seq<u8> {
    crate::bytes::lower_seq(ext_of(file_name_of(path)))
}

/// Whether a path names a renderable source file: its extension is `md`
/// or `qmd`, case-insensitively.
pub fn is_markdown_path(path: &[u8]) -> (r: bool)
    ensures
        r == (path_ext_lower(path@) == "md".spec_bytes() || path_ext_lower(path@)
            == "qmd".spec_bytes()),
{
    let fname = crate::rewrite::file_name(path);
    let sp = crate::naming::find_stem_split(fname.as_slice());
    let ext = if sp > 0 && sp < fname.len() {
        slice_copy(fname.as_slice(), sp + 1, fname.len())
    } else {
        Vec::new()
    };
    assert(ext@ == ext_of(fname@));
    let l = crate::bytes::to_lower(ext.as_slice());
    crate::admonitions::eq_bytes(l.as_slice(), crate::bytes::str_bytes("md").as_slice())
        || crate::admonitions::eq_bytes(l.as_slice(), crate::bytes::str_bytes("qmd").as_slice())
}

/// The path with its file name's extension replaced by `pdf`: where the
/// exported document is placed, next to its source.
pub fn with_pdf_extension(path: &[u8]) -> (r: Vec<u8>)
    ensures
        ({
            let fname = file_name_of(path@);
            let sp = stem_split(fname);
            let stem = if sp > 0 {
                fname.subrange(0, sp)
            } else {
                fname
            };
            r@ == path@.subrange(0, path@.len() - fname.len()) + stem + ".pdf".spec_bytes()
        }),
{
    let fname = crate::rewrite::file_name(path);
    let sp = crate::naming::find_stem_split(fname.as_slice());
    let stem = if sp > 0 {
        slice_copy(fname.as_slice(), 0, sp)
    } else {
        slice_copy(fname.as_slice(), 0, fname.len())
    };
    let mut out = slice_copy(path, 0, path.len() - fname.len());
    append_slice(&mut out, stem.as_slice());
    append_str(&mut out, ".pdf");
    proof {
        assert(fname@.len() <= path@.len());
        assert(out@ =~= path@.subrange(0, path@.len() - file_name_of(path@).len()) + (if stem_split(
            file_name_of(path@),
        ) > 0 {
            file_name_of(path@).subrange(0, stem_split(file_name_of(path@)))
        } else {
            file_name_of(path@)
        }) + ".pdf".spec_bytes());
    }
    out
}

// ---------------------------------------------------------------------
// Stripping content the compiler cannot take
// ---------------------------------------------------------------------

/// An `http://` or `https://` prefix standing at `k`, exactly lower-case
/// as a fetchable reference writes it.
pub open spec fn http_prefix_at(md: Seq<u8>, k: int) -> bool {
    &&& 0 <= k && k + 6 < md.len()
    &&& md[k] == ('h' as u8) && md[k + 1] == ('t' as u8) && md[k + 2] == ('t' as u8) && md[k + 3]
        == ('p' as u8)
    &&& ((md[k + 4] == (':' as u8) && md[k + 5] == ('/' as u8) && md[k + 6] == ('/' as u8)) || (k
        + 7 < md.len() && md[k + 4] == ('s' as u8) && md[k + 5] == (':' as u8) && md[k + 6] == ('/'
        as u8) && md[k + 7] == ('/' as u8)))
}

/// Whether an external-reference prefix stands at `k`.
pub fn check_http_prefix(md: &[u8], k: usize) -> (r: bool)
    requires
        k <= md@.len(),
    ensures
        r == http_prefix_at(md@, k as int),
{
    let n = md.len();
    n - k > 6 && md[k] == ('h' as u8) && md[k + 1] == ('t' as u8) && md[k + 2] == ('t' as u8)
        && md[k + 3] == ('p' as u8) && ((md[k + 4] == (':' as u8) && md[k + 5] == ('/' as u8)
        && md[k + 6] == ('/' as u8)) || (n - k > 7 && md[k + 4] == ('s' as u8) && md[k + 5] == (':'
        as u8) && md[k + 6] == ('/' as u8) && md[k + 7] == ('/' as u8)))
}

/// The first `src=` key at or after `k` inside the tag, any context, the
/// scan stopped by the tag's `>`.
pub open spec fn src_plain_scan(s: Seq<u8>, k: int) -> int
    decreases s.len() - k,
{
    if k < 0 || k >= s.len() {
        s.len() as int
    } else if s[k] == ('>' as u8) {
        s.len() as int
    } else if k + 3 < s.len() && s[k] == ('s' as u8) && s[k + 1] == ('r' as u8) && s[k + 2] == ('c'
        as u8) && s[k + 3] == ('=' as u8) {
        k
    } else {
        src_plain_scan(s, k + 1)
    }
}

proof fn lemma_src_plain_scan(s: Seq<u8>, k: int)
    requires
        0 <= k <= s.len(),
    ensures
        k <= src_plain_scan(s, k) <= s.len(),
    decreases s.len() - k,
{
    if k < s.len() && s[k] != ('>' as u8) && !(k + 3 < s.len() && s[k] == ('s' as u8) && s[k + 1]
        == ('r' as u8) && s[k + 2] == ('c' as u8) && s[k + 3] == ('=' as u8)) {
        lemma_src_plain_scan(s, k + 1);
    }
}

/// Finds the first `src=` key inside the tag, in any context.
pub fn find_src_plain(s: &[u8], k: usize) -> (r: usize)
    requires
        k <= s@.len(),
    ensures
        r == src_plain_scan(s@, k as int),
        k <= r <= s@.len(),
{
    let n = s.len();
    let mut i = k;
    while i < n
        invariant
            k <= i <= n,
            n == s@.len(),
            src_plain_scan(s@, i as int) == src_plain_scan(s@, k as int),
        decreases n - i,
    {
        if s[i] == ('>' as u8) {
            return n;
        }
        if n - i > 3 && s[i] == ('s' as u8) && s[i + 1] == ('r' as u8) && s[i + 2] == ('c' as u8)
            && s[i + 3] == ('=' as u8) {
            return i;
        }
        i += 1;
    }
    i
}

/// The first `-->` at or after `k`, else the length.
pub open spec fn arrow_scan(s: Seq<u8>, k: int) -> int
    decreases s.len() - k,
{
    if k < 0 || k >= s.len() {
        s.len() as int
    } else if k + 2 < s.len() && s[k] == ('-' as u8) && s[k + 1] == ('-' as u8) && s[k + 2] == ('>'
        as u8) {
        k
    } else {
        arrow_scan(s, k + 1)
    }
}

proof fn lemma_arrow_scan(s: Seq<u8>, k: int)
    requires
        0 <= k <= s.len(),
    ensures
        k <= arrow_scan(s, k) <= s.len(),
        arrow_scan(s, k) < s.len() ==> arrow_scan(s, k) + 2 < s.len(),
    decreases s.len() - k,
{
    if k < s.len() && !(k + 2 < s.len() && s[k] == ('-' as u8) && s[k + 1] == ('-' as u8) && s[k
        + 2] == ('>' as u8)) {
        lemma_arrow_scan(s, k + 1);
    }
}

/// Finds the first `-->` at or after `k`.
pub fn find_arrow(s: &[u8], k: usize) -> (r: usize)
    requires
        k <= s@.len(),
    ensures
        r == arrow_scan(s@, k as int),
        k <= r <= s@.len(),
{
    let n = s.len();
    let mut i = k;
    while i < n
        invariant
            k <= i <= n,
            n == s@.len(),
            arrow_scan(s@, i as int) == arrow_scan(s@, k as int),
        decreases n - i,
    {
        if n - i > 2 && s[i] == ('-' as u8) && s[i + 1] == ('-' as u8) && s[i + 2] == ('>' as u8) {
            return i;
        }
        i += 1;
    }
    i
}

/// The external Markdown image form `![alt](http...)`, which the
/// Markdown-to-typesetting converter cannot fetch.
pub const STRIP_MD_IMAGE: u8 = 0;

/// The external HTML form `<img ... src="http..." ...>`.
pub const STRIP_HTML_IMAGE: u8 = 1;

/// A raw-typst comment `<!-- raw-typst ... -->`, matched
/// case-insensitively: the preview-only tokens that must never persist in
/// a user's file.
pub const STRIP_RAW_TYPST: u8 = 2;

/// A `raw-typst` keyword standing at `j`, case-insensitively.
pub open spec fn raw_typst_at(md: Seq<u8>, j: int) -> bool {
    &&& 0 <= j && j + 8 < md.len()
    &&& crate::bytes::lower_byte(md[j]) == ('r' as u8)
    &&& crate::bytes::lower_byte(md[j + 1]) == ('a' as u8)
    &&& crate::bytes::lower_byte(md[j + 2]) == ('w' as u8)
    &&& md[j + 3] == ('-' as u8)
    &&& crate::bytes::lower_byte(md[j + 4]) == ('t' as u8)
    &&& crate::bytes::lower_byte(md[j + 5]) == ('y' as u8)
    &&& crate::bytes::lower_byte(md[j + 6]) == ('p' as u8)
    &&& crate::bytes::lower_byte(md[j + 7]) == ('s' as u8)
    &&& crate::bytes::lower_byte(md[j + 8]) == ('t' as u8)
}

/// Whether a strip form matches at `i`.
pub open spec fn smatch(md: Seq<u8>, i: int, f: u8) -> bool {
    if f == 0 {
        let ae = scan_to(md, i + 2, (']' as u8));
        let ie = scan_to(md, ae + 2, (')' as u8));
        &&& 0 <= i && i + 1 < md.len() && md[i] == ('!' as u8) && md[i + 1] == ('[' as u8)
        &&& ae + 1 < md.len() && md[ae + 1] == ('(' as u8)
        &&& http_prefix_at(md, ae + 2)
        &&& ie < md.len() && ie > ae + 2
    } else if f == 1 {
        let m = src_plain_scan(md, i + 4);
        let ve = crate::rewrite::scan_quote(md, m + 5);
        let te = scan_to(md, ve + 1, ('>' as u8));
        &&& 0 <= i && i + 3 < md.len() && md[i] == ('<' as u8) && md[i + 1] == ('i' as u8) && md[i
            + 2] == ('m' as u8) && md[i + 3] == ('g' as u8)
        &&& m < md.len() && m + 4 < md.len() && crate::rewrite::is_quote(md[m + 4])
        &&& http_prefix_at(md, m + 5)
        &&& ve < md.len() && ve > m + 5
        &&& te < md.len()
    } else if f == 2 {
        let j = ws_fwd(md, i + 4);
        let e = arrow_scan(md, j + 9);
        &&& 0 <= i && i + 3 < md.len() && md[i] == ('<' as u8) && md[i + 1] == ('!' as u8) && md[i
            + 2] == ('-' as u8) && md[i + 3] == ('-' as u8)
        &&& raw_typst_at(md, j)
        &&& e < md.len()
    } else {
        false
    }
}

/// The position just after a strip match.
pub open spec fn send(md: Seq<u8>, i: int, f: u8) -> int {
    if f == 0 {
        scan_to(md, scan_to(md, i + 2, (']' as u8)) + 2, (')' as u8)) + 1
    } else if f == 1 {
        scan_to(md, crate::rewrite::scan_quote(md, src_plain_scan(md, i + 4) + 5) + 1, ('>' as u8))
            + 1
    } else {
        arrow_scan(md, ws_fwd(md, i + 4) + 9) + 3
    }
}

proof fn lemma_strip_advance(md: Seq<u8>, i: int, f: u8)
    requires
        smatch(md, i, f),
    ensures
        i < send(md, i, f) <= md.len(),
{
    if f == 0 {
        crate::rewrite::lemma_scan_to_pub(md, i + 2, (']' as u8));
        crate::rewrite::lemma_scan_to_pub(md, scan_to(md, i + 2, (']' as u8)) + 2, (')' as u8));
    } else if f == 1 {
        lemma_src_plain_scan(md, i + 4);
        crate::rewrite::lemma_scan_quote_pub(md, src_plain_scan(md, i + 4) + 5);
        crate::rewrite::lemma_scan_to_pub(
            md,
            crate::rewrite::scan_quote(md, src_plain_scan(md, i + 4) + 5) + 1,
            ('>' as u8),
        );
    } else {
        crate::rewrite::lemma_ws_fwd_pub(md, i + 4);
        lemma_arrow_scan(md, ws_fwd(md, i + 4) + 9);
    }
}

/// The text from `i` on, with every match of the form erased.
pub open spec fn strip_rec(md: Seq<u8>, i: int, f: u8) -> Seq<u8>
    decreases md.len() - i,
    via strip_rec_dec
{
    if i < 0 || i >= md.len() {
        Seq::empty()
    } else if smatch(md, i, f) {
        strip_rec(md, send(md, i, f), f)
    } else {
        seq![md[i]] + strip_rec(md, i + 1, f)
    }
}

#[via_fn]
proof fn strip_rec_dec(md: Seq<u8>, i: int, f: u8) {
    if 0 <= i < md.len() && smatch(md, i, f) {
        lemma_strip_advance(md, i, f);
    }
}

/// Tries to match the strip form at `i`, returning the span end.
fn try_strip_match(s: &[u8], i: usize, f: u8) -> (r: Option<usize>)
    requires
        i < s@.len(),
    ensures
        r is Some == smatch(s@, i as int, f),
        r matches Some(e) ==> e == send(s@, i as int, f) && i < e <= s@.len(),
{
    let n = s.len();
    if f == 0 {
        if !(n - i > 1 && s[i] == ('!' as u8) && s[i + 1] == ('[' as u8)) {
            return None;
        }
        let ae = crate::rewrite::find_byte(s, i + 2, ']' as u8);
        if !(ae < n && n - ae > 1 && s[ae + 1] == ('(' as u8)) {
            return None;
        }
        if !check_http_prefix(s, ae + 2) {
            return None;
        }
        let ie = crate::rewrite::find_byte(s, ae + 2, ')' as u8);
        if !(ie < n && ie > ae + 2) {
            return None;
        }
        Some(ie + 1)
    } else if f == 1 {
        if !(n - i > 3 && s[i] == ('<' as u8) && s[i + 1] == ('i' as u8) && s[i + 2] == ('m' as u8)
            && s[i + 3] == ('g' as u8)) {
            return None;
        }
        let m = find_src_plain(s, i + 4);
        if !(m < n && n - m > 4 && (s[m + 4] == ('"' as u8) || s[m + 4] == ('\'' as u8))) {
            return None;
        }
        if !check_http_prefix(s, m + 5) {
            return None;
        }
        let ve = crate::rewrite::find_quote(s, m + 5);
        if !(ve < n && ve > m + 5) {
            return None;
        }
        let te = crate::rewrite::find_byte(s, ve + 1, '>' as u8);
        if !(te < n) {
            return None;
        }
        Some(te + 1)
    } else if f == 2 {
        if !(n - i > 3 && s[i] == ('<' as u8) && s[i + 1] == ('!' as u8) && s[i + 2] == ('-' as u8)
            && s[i + 3] == ('-' as u8)) {
            return None;
        }
        let j = crate::rewrite::skip_ws(s, i + 4);
        let kw = n - j > 8 && lower_eq(s[j], 'r') && lower_eq(s[j + 1], 'a') && lower_eq(
            s[j + 2],
            'w',
        ) && s[j + 3] == ('-' as u8) && lower_eq(s[j + 4], 't') && lower_eq(s[j + 5], 'y')
            && lower_eq(s[j + 6], 'p') && lower_eq(s[j + 7], 's') && lower_eq(s[j + 8], 't');
        if !kw {
            return None;
        }
        let e = find_arrow(s, j + 9);
        if !(e < n) {
            return None;
        }
        proof {
            lemma_arrow_scan(s@, j + 9);
        }
        Some(e + 3)
    } else {
        None
    }
}

/// Whether a byte lower-cases to the given letter.
fn lower_eq(b: u8, c: char) -> (r: bool)
    ensures
        r == (crate::bytes::lower_byte(b) == c as u8),
{
    let l: u8 = if ('A' as u8) <= b && b <= ('Z' as u8) {
        b + 32
    } else {
        b
    };
    l == c as u8
}

/// Erases every match of the strip form from the text.
pub fn strip_pass(md: &Vec<u8>, f: u8) -> (r: Vec<u8>)
    ensures
        r@ == strip_rec(md@, 0, f),
{
    let s = md.as_slice();
    let n = md.len();
    let mut out: Vec<u8> = Vec::new();
    let mut i: usize = 0;
    while i < n
        invariant
            0 <= i <= n,
            n == md@.len(),
            s@ == md@,
            out@ + strip_rec(md@, i as int, f) == strip_rec(md@, 0, f),
        decreases n - i,
    {
        let ghost out0 = out@;
        match try_strip_match(s, i, f) {
            Some(e) => {
                proof {
                    assert(strip_rec(md@, i as int, f) == strip_rec(md@, e as int, f));
                }
                i = e;
            },
            None => {
                out.push(s[i]);
                proof {
                    assert(strip_rec(md@, i as int, f) == seq![md@[i as int]] + strip_rec(
                        md@,
                        i + 1,
                        f,
                    ));
                    assert(out@ + strip_rec(md@, i + 1, f) =~= out0 + strip_rec(md@, i as int, f));
                }
                i += 1;
            },
        }
    }
    proof {
        assert(strip_rec(md@, n as int, f) =~= Seq::<u8>::empty());
        assert(out@ + Seq::<u8>::empty() =~= out@);
    }
    out
}

/// Removes external image references, in both Markdown and HTML form,
/// before an ad-hoc compile: the converter cannot fetch remote resources
/// and would fail the whole compile on one.
pub fn strip_external_images(md: &Vec<u8>) -> (r: Vec<u8>)
    ensures
        r@ == strip_rec(strip_rec(md@, 0, STRIP_MD_IMAGE), 0, STRIP_HTML_IMAGE),
{
    let a = strip_pass(md, STRIP_MD_IMAGE);
    strip_pass(&a, STRIP_HTML_IMAGE)
}

/// Removes raw-typst comments before content is persisted into a user's
/// file, so invisible anchor tokens never outlive a preview.
pub fn strip_raw_typst_comments(md: &Vec<u8>) -> (r: Vec<u8>)
    ensures
        r@ == strip_rec(md@, 0, STRIP_RAW_TYPST),
{
    strip_pass(md, STRIP_RAW_TYPST)
}

/// Which template source wins: the first of the fallback chain that
/// exists, the caller reporting existence per candidate in chain order
/// (development workspace first, then the user content directory, then
/// the bundled resources).
pub fn choose_template(exists: &Vec<bool>) -> (r: Option<usize>)
    ensures
        match r {
            Some(i) => i < exists@.len() && exists@[i as int] && forall|j: int|
                0 <= j < i ==> !exists@[j],
            None => forall|j: int| 0 <= j < exists@.len() ==> !exists@[j],
        },
{
    let n = exists.len();
    let mut i: usize = 0;
    while i < n
        invariant
            0 <= i <= n,
            n == exists@.len(),
            forall|j: int| 0 <= j < i ==> !exists@[j],
        decreases n - i,
    {
        if exists[i] {
            return Some(i);
        }
        i += 1;
    }
    None
}

/// Whether the template lacks the table-of-contents conditional it is
/// expected to carry; without it the table of contents always shows, and
/// the caller warns (non-fatally).
pub fn template_missing_toc_conditional(tpl: &[u8]) -> (r: bool)
    ensures
        r == !crate::bytes::contains_seq(tpl@, "#if prefs.toc".spec_bytes()),
{
    !crate::bytes::contains_bytes(tpl, crate::bytes::str_bytes("#if prefs.toc").as_slice())
}

/// The uniquely named temporary input of an ad-hoc render.
pub fn temp_content_name(uuid: &[u8]) -> (r: Vec<u8>)
    ensures
        r@ == "temp_".spec_bytes() + uuid@ + ".md".spec_bytes(),
{
    let mut out = crate::bytes::str_bytes("temp_");
    append_slice(&mut out, uuid);
    append_str(&mut out, ".md");
    assert(out@ =~= "temp_".spec_bytes() + uuid@ + ".md".spec_bytes());
    out
}

/// The uniquely named temporary output of an ad-hoc render.
pub fn temp_pdf_name(uuid: &[u8]) -> (r: Vec<u8>)
    ensures
        r@ == "temp_".spec_bytes() + uuid@ + ".pdf".spec_bytes(),
{
    let mut out = crate::bytes::str_bytes("temp_");
    append_slice(&mut out, uuid);
    append_str(&mut out, ".pdf");
    assert(out@ =~= "temp_".spec_bytes() + uuid@ + ".pdf".spec_bytes());
    out
}

} // verus!
