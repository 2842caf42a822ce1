//! Building the manual pages with Sphinx: what it is called with, and what its failures mean.

use crate::text::{chars_of, copy_text, is_text, maybe, texts};
use vstd::prelude::*;

verus! {

/// Whether manual pages are built.
#[derive(Clone, Copy, Debug, PartialEq, Eq, Structural)]
pub enum Docs {
    /// They are not.
    Disabled,
    /// They are, if that works.
    Wanted,
    /// They are, and a failure to build them is fatal.
    Required,
}

/// What `$FISH_BUILD_DOCS` asks for.
pub open spec fn docs_for(var: Option<Seq<char>>) -> Docs {
    if var == Some("0"@) {
        Docs::Disabled
    } else if var == Some("1"@) {
        Docs::Required
    } else {
        Docs::Wanted
    }
}

/// What `$FISH_BUILD_DOCS` asks for.
pub fn docs_wanted(var: &Option<Vec<char>>) -> (r: Docs)
    ensures
        r == docs_for(maybe(*var)),
{
    match var {
        Some(v) => {
            if is_text(v.as_slice(), "0") {
                Docs::Disabled
            } else if is_text(v.as_slice(), "1") {
                Docs::Required
            } else {
                Docs::Wanted
            }
        },
        None => Docs::Wanted,
    }
}

/// What became of a run of Sphinx.
#[derive(Clone, Copy, Debug, PartialEq, Eq, Structural)]
pub enum Run {
    /// There is no such program.
    NotFound,
    /// It could not be started.
    NotStarted,
    /// Its end could not be awaited.
    Lost,
    /// It ended, successfully or not; `output` and `errors` tell whether it printed or reported
    /// anything.
    Ended { success: bool, output: bool, errors: bool },
}

/// What to say about a run, and whether it fails the build.
#[derive(Clone, Copy, Debug, PartialEq, Eq, Structural)]
pub struct Consequence {
    /// Show what was reported.
    pub show_errors: bool,
    /// Show what was printed.
    pub show_output: bool,
    /// Warn that there are no manual pages.
    pub warn: bool,
    /// Fail the build.
    pub fatal: bool,
}

/// Whether a run failed to build the manual pages. Sphinx is quiet unless something is wrong.
pub open spec fn has_failed(run: Run) -> bool {
    match run {
        Run::Ended { success, output, errors } => !success || output,
        _ => true,
    }
}

/// What to say about a run, and whether it fails the build: only if manual pages were asked for
/// explicitly.
pub open spec fn consequence_of(docs: Docs, run: Run) -> Consequence {
    Consequence {
        show_errors: run matches Run::Ended { success, output, errors } && errors,
        show_output: run matches Run::Ended { success, output, errors } && output,
        warn: has_failed(run) && docs != Docs::Required,
        fatal: has_failed(run) && docs == Docs::Required,
    }
}

/// What to say about a run, and whether it fails the build.
pub fn weigh(docs: Docs, run: Run) -> (r: Consequence)
    ensures
        r == consequence_of(docs, run),
{
    let required: bool = docs == Docs::Required;
    match run {
        Run::Ended { success, output, errors } => {
            let failed: bool = !success || output;
            Consequence {
                show_errors: errors,
                show_output: output,
                warn: failed && !required,
                fatal: failed && required,
            }
        },
        _ => Consequence {
            show_errors: false,
            show_output: false,
            warn: !required,
            fatal: required,
        },
    }
}

/// The arguments that Sphinx is called with: quietly build manual pages from the sources, with
/// intermediate files above the pages' directory.
pub fn sphinx_args(sources: &[char], doctrees: &[char], pages: &[char]) -> (r: Vec<Vec<char>>)
    ensures
        texts(r@) == seq![
            "-j"@,
            "auto"@,
            "-q"@,
            "-b"@,
            "man"@,
            "-c"@,
            sources@,
            "-d"@,
            doctrees@,
            sources@,
            pages@,
        ],
{
    let mut args: Vec<Vec<char>> = Vec::new();
    args.push(chars_of("-j"));
    args.push(chars_of("auto"));
    args.push(chars_of("-q"));
    args.push(chars_of("-b"));
    args.push(chars_of("man"));
    args.push(chars_of("-c"));
    args.push(copy_text(sources));
    args.push(chars_of("-d"));
    args.push(copy_text(doctrees));
    args.push(copy_text(sources));
    args.push(copy_text(pages));
    assert(texts(args@) =~= seq![
        "-j"@,
        "auto"@,
        "-q"@,
        "-b"@,
        "man"@,
        "-c"@,
        sources@,
        "-d"@,
        doctrees@,
        sources@,
        pages@,
    ]);
    args
}

/// A build that does not insist on manual pages never fails for want of them.
pub proof fn law_pages_are_optional(docs: Docs, run: Run)
    requires
        docs != Docs::Required,
    ensures
        !consequence_of(docs, run).fatal,
{
}

/// A failure is never passed over: it is fatal or there is a warning, and not both.
pub proof fn law_failures_are_noticed(docs: Docs, run: Run)
    ensures
        has_failed(run) <==> consequence_of(docs, run).fatal || consequence_of(docs, run).warn,
        !(consequence_of(docs, run).fatal && consequence_of(docs, run).warn),
{
}

/// What the variable asks for: `0` for no manual pages, `1` for them without fail, and anything
/// else for them if that works.
pub proof fn law_docs_asked_for(var: Option<Seq<char>>)
    ensures
        docs_for(var) == Docs::Disabled <==> var == Some(seq!['0']),
        docs_for(var) == Docs::Required <==> var == Some(seq!['1']),
        docs_for(var) == Docs::Wanted <==> var != Some(seq!['0']) && var != Some(seq!['1']),
{
    reveal_strlit("0");
    reveal_strlit("1");
    assert("0"@ =~= seq!['0']);
    assert("1"@ =~= seq!['1']);
    assert(seq!['0'][0] == '0' && seq!['1'][0] == '1');
    assert(seq!['0'] != seq!['1']);
}

/// A run works if the program ended successfully without a word on its output; what it printed
/// and what it reported are shown, whether it worked or not.
pub proof fn law_runs(docs: Docs, success: bool, output: bool, errors: bool)
    ensures
        ({
            let c = consequence_of(docs, Run::Ended { success, output, errors });
            &&& c.show_output == output
            &&& c.show_errors == errors
            &&& c.fatal || c.warn <==> !success || output
        }),
        ({
            let a = consequence_of(docs, Run::NotFound);
            &&& a == consequence_of(docs, Run::NotStarted)
            &&& a == consequence_of(docs, Run::Lost)
            &&& !a.show_output && !a.show_errors
            &&& a.fatal <==> docs == Docs::Required
            &&& a.warn <==> docs != Docs::Required
        }),
{
}

} // verus!
