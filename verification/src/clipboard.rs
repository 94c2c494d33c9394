//! Copying the document to the clipboard: which helper programs to try, in which order,
//! and what follows each attempt. Starting the programs is left to the caller.

use vstd::prelude::*;

use crate::text::{push_str, string_from_chars};

verus! {

/// The operating system family, which decides the clipboard helpers.
#[derive(Debug, Clone, Copy, PartialEq, Eq, Structural)]
pub enum Platform {
    MacOs,
    Windows,
    /// Linux and the other Unix systems.
    Other,
}

/// A clipboard helper program and its arguments; it reads the text on its standard input.
#[derive(Debug, Clone, PartialEq, Eq)]
pub struct ClipboardHelper {
    pub bin: String,
    pub args: Vec<String>,
}

/// A helper as the program name and the argument list.
pub open spec fn helper_view(h: ClipboardHelper) -> (Seq<char>, Seq<Seq<char>>) {
    (h.bin@, h.args@.map_values(|a: String| a@))
}

pub open spec fn helpers_view(hs: Seq<ClipboardHelper>) -> Seq<(Seq<char>, Seq<Seq<char>>)> {
    hs.map_values(|h: ClipboardHelper| helper_view(h))
}

/// The helpers to try, in order: `pbcopy` on macOS, `clip` on Windows, elsewhere `wl-copy`
/// and then `xclip -selection clipboard`.
pub open spec fn clipboard_helpers_spec(p: Platform) -> Seq<(Seq<char>, Seq<Seq<char>>)> {
    match p {
        Platform::MacOs => seq![("pbcopy"@, Seq::<Seq<char>>::empty())],
        Platform::Windows => seq![("clip"@, Seq::<Seq<char>>::empty())],
        Platform::Other => seq![
            ("wl-copy"@, Seq::<Seq<char>>::empty()),
            ("xclip"@, seq!["-selection"@, "clipboard"@]),
        ],
    }
}

fn helper(bin: &str, args: Vec<String>) -> (h: ClipboardHelper)
    ensures
        h.bin@ == bin@,
        h.args == args,
{
    ClipboardHelper { bin: bin.to_owned(), args }
}

/// The helpers to try on a platform, in order.
pub fn clipboard_helpers(p: Platform) -> (r: Vec<ClipboardHelper>)
    ensures
        helpers_view(r@) == clipboard_helpers_spec(p),
{
    let mut r: Vec<ClipboardHelper> = Vec::new();
    match p {
        Platform::MacOs => {
            let none: Vec<String> = Vec::new();
            assert(none@.map_values(|a: String| a@) =~= Seq::<Seq<char>>::empty());
            r.push(helper("pbcopy", none));
        },
        Platform::Windows => {
            let none: Vec<String> = Vec::new();
            assert(none@.map_values(|a: String| a@) =~= Seq::<Seq<char>>::empty());
            r.push(helper("clip", none));
        },
        Platform::Other => {
            let none: Vec<String> = Vec::new();
            assert(none@.map_values(|a: String| a@) =~= Seq::<Seq<char>>::empty());
            r.push(helper("wl-copy", none));
            let mut args: Vec<String> = Vec::new();
            args.push("-selection".to_owned());
            args.push("clipboard".to_owned());
            assert(args@.map_values(|a: String| a@) =~= seq!["-selection"@, "clipboard"@]);
            r.push(helper("xclip", args));
        },
    }
    assert(helpers_view(r@) =~= clipboard_helpers_spec(p));
    r
}

/// How an attempt with one helper went.
#[derive(Debug, Clone, PartialEq, Eq)]
pub enum HelperOutcome {
    /// The program could not be started; carries the reason.
    NotStarted(String),
    /// The program ran to its end; whether it succeeded, and its exit status as text.
    Exited { success: bool, status: String },
}

/// What to do next.
#[derive(Debug, Clone, PartialEq, Eq)]
pub enum ClipboardStep {
    /// Try the helper at this index.
    Run(usize),
    /// The text is on the clipboard.
    Done,
    /// No helper worked; carries the report of the last failure.
    Failed(String),
}

/// The report of a failed attempt with the helper named `bin`.
pub open spec fn failure_message(bin: Seq<char>, outcome: HelperOutcome) -> Seq<char> {
    match outcome {
        HelperOutcome::NotStarted(reason) => "could not run "@ + bin + ": "@ + reason@,
        HelperOutcome::Exited { status, .. } => bin + " exited with "@ + status@,
    }
}

/// Whether an attempt put the text on the clipboard.
pub open spec fn succeeded(outcome: HelperOutcome) -> bool {
    outcome matches HelperOutcome::Exited { success: true, .. }
}

/// The first step: the first helper, or failure when there is none.
pub fn clipboard_start(helpers: &[ClipboardHelper]) -> (s: ClipboardStep)
    ensures
        helpers@.len() > 0 ==> s == ClipboardStep::Run(0),
        helpers@.len() == 0 ==> (s matches ClipboardStep::Failed(m) && m@ == "no clipboard helper found"@),
{
    if helpers.len() > 0 {
        ClipboardStep::Run(0)
    } else {
        ClipboardStep::Failed("no clipboard helper found".to_owned())
    }
}

/// The step after trying helper `tried`: done on success, else the next helper, else
/// failure with the report of this last attempt.
pub fn clipboard_step(helpers: &[ClipboardHelper], tried: usize, outcome: HelperOutcome) -> (s: ClipboardStep)
    requires
        tried < helpers@.len(),
    ensures
        succeeded(outcome) ==> s == ClipboardStep::Done,
        !succeeded(outcome) && tried + 1 < helpers@.len() ==> s == ClipboardStep::Run((tried + 1) as usize),
        !succeeded(outcome) && tried + 1 == helpers@.len() ==> (s matches ClipboardStep::Failed(m) && m@
            == failure_message(helpers@[tried as int].bin@, outcome)),
{
    match outcome {
        HelperOutcome::Exited { success: true, .. } => ClipboardStep::Done,
        _ => {
            if tried < helpers.len() - 1 {
                ClipboardStep::Run(tried + 1)
            } else {
                let bin = helpers[tried].bin.as_str();
                let mut m: Vec<char> = Vec::new();
                match &outcome {
                    HelperOutcome::NotStarted(reason) => {
                        push_str(&mut m, "could not run ");
                        push_str(&mut m, bin);
                        push_str(&mut m, ": ");
                        push_str(&mut m, reason.as_str());
                    },
                    HelperOutcome::Exited { status, .. } => {
                        push_str(&mut m, bin);
                        push_str(&mut m, " exited with ");
                        push_str(&mut m, status.as_str());
                    },
                }
                assert(m@ =~= failure_message(helpers@[tried as int].bin@, outcome));
                ClipboardStep::Failed(string_from_chars(m))
            }
        },
    }
}

/// What copying comes to when the helper at each index `i` would end as `outcomes[i]`,
/// trying them from index `from` on with the steps of `clipboard_step`: `None` when the
/// text reached the clipboard, else the report that `ClipboardStep::Failed` carries.
pub open spec fn copy_outcome(bins: Seq<Seq<char>>, outcomes: Seq<HelperOutcome>, from: int) -> Option<Seq<char>>
    decreases bins.len() - from,
{
    if from < 0 || from >= bins.len() {
        Some("no clipboard helper found"@)
    } else if succeeded(outcomes[from]) {
        None
    } else if from + 1 < bins.len() {
        copy_outcome(bins, outcomes, from + 1)
    } else {
        Some(failure_message(bins[from], outcomes[from]))
    }
}

/// Copying succeeds exactly when some helper succeeds, and a failure reports the last
/// helper's attempt (or that there was no helper at all).
pub proof fn law_copy_fails_only_when_every_helper_fails(bins: Seq<Seq<char>>, outcomes: Seq<HelperOutcome>)
    requires
        outcomes.len() == bins.len(),
    ensures
        copy_outcome(bins, outcomes, 0) is None <==> exists|i: int| 0 <= i < bins.len() && #[trigger] succeeded(outcomes[i]),
        bins.len() == 0 ==> copy_outcome(bins, outcomes, 0) == Some("no clipboard helper found"@),
        bins.len() > 0 && copy_outcome(bins, outcomes, 0) is Some ==> copy_outcome(bins, outcomes, 0) == Some(
            failure_message(bins[bins.len() - 1], outcomes[bins.len() - 1]),
        ),
{
    if bins.len() > 0 {
        lemma_copy_outcome_from(bins, outcomes, 0);
    }
}

proof fn lemma_copy_outcome_from(bins: Seq<Seq<char>>, outcomes: Seq<HelperOutcome>, from: int)
    requires
        outcomes.len() == bins.len(),
        0 <= from < bins.len(),
    ensures
        copy_outcome(bins, outcomes, from) is None <==> exists|i: int| from <= i < bins.len() && #[trigger] succeeded(outcomes[i]),
        copy_outcome(bins, outcomes, from) is Some ==> copy_outcome(bins, outcomes, from) == Some(
            failure_message(bins[bins.len() - 1], outcomes[bins.len() - 1]),
        ),
    decreases bins.len() - from,
{
    if !succeeded(outcomes[from]) && from + 1 < bins.len() {
        lemma_copy_outcome_from(bins, outcomes, from + 1);
        assert forall|i: int| from <= i < bins.len() && #[trigger] succeeded(outcomes[i]) implies from + 1 <= i by {}
    }
}

} // verus!
