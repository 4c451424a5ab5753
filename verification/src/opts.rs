//! Invocation options, destination scope flags, and argument validation.
//!
//! The configuration is validated once per invocation, before any
//! acquisition; every rejected combination is reported as a distinct
//! error value.

use vstd::prelude::*;

use crate::split::field_views;

verus! {

/// Scope and visibility flags under which destination slots are bound.
#[derive(Clone, Copy, Debug, PartialEq, Eq, Structural)]
pub struct Scope {
    /// Default user scope.
    pub user: bool,
    /// Bind in the local scope.
    pub local: bool,
    /// Bind in the enclosing function's scope.
    pub function: bool,
    /// Bind in the global scope.
    pub global: bool,
    /// Bind in the universal scope.
    pub universal: bool,
    /// Export the binding.
    pub export: bool,
    /// Remove the export flag.
    pub unexport: bool,
}

/// How many mutually exclusive scope flags are set.
pub open spec fn scope_count(p: Scope) -> int {
    (if p.local {
        1int
    } else {
        0
    }) + (if p.function {
        1int
    } else {
        0
    }) + (if p.global {
        1int
    } else {
        0
    }) + (if p.universal {
        1int
    } else {
        0
    })
}

/// The validated invocation configuration.
pub struct Options {
    /// Scope flags for the destination slots.
    pub place: Scope,
    /// Prompt command for the interactive collaborator.
    pub prompt: Option<Vec<char>>,
    /// Literal prompt string; turned into a prompt command by the caller.
    pub prompt_str: Option<Vec<char>>,
    /// Right-side prompt command for the interactive collaborator.
    pub right_prompt: Vec<char>,
    /// Initial buffer seed for the interactive collaborator.
    pub commandline: Option<Vec<char>>,
    /// Explicit splitter delimiter, when one was given; an empty string
    /// selects per-character splitting.
    pub delimiter: Option<Vec<char>>,
    /// Shell-word tokenization mode.
    pub tokenize: bool,
    /// Shell-syntax-aware editing in the interactive collaborator.
    pub shell: bool,
    /// Array aggregation: all fields bound to one slot.
    pub array: bool,
    /// Silent mode for the interactive collaborator.
    pub silent: bool,
    /// Split on NUL instead of newline.
    pub split_null: bool,
    /// Write the acquired unit to standard output instead of binding it.
    pub to_stdout: bool,
    /// Maximum characters per acquisition; 0 means unbounded.
    pub nchars: usize,
    /// Per-record mode: one acquisition per destination slot.
    pub one_line: bool,
    /// Print help and do nothing else.
    pub print_help: bool,
}

impl Options {
    /// The default configuration: user scope, no prompt, no delimiter,
    /// newline-terminated records, one acquisition for all slots.
    pub fn new() -> (o: Options)
        ensures
            o.place == (Scope {
                user: true,
                local: false,
                function: false,
                global: false,
                universal: false,
                export: false,
                unexport: false,
            }),
            o.prompt is None,
            o.prompt_str is None,
            o.right_prompt@ == Seq::<char>::empty(),
            o.commandline is None,
            o.delimiter is None,
            !o.tokenize,
            !o.shell,
            !o.array,
            !o.silent,
            !o.split_null,
            !o.to_stdout,
            o.nchars == 0,
            !o.one_line,
            !o.print_help,
    {
        Options {
            place: Scope {
                user: true,
                local: false,
                function: false,
                global: false,
                universal: false,
                export: false,
                unexport: false,
            },
            prompt: None,
            prompt_str: None,
            right_prompt: Vec::new(),
            commandline: None,
            delimiter: None,
            tokenize: false,
            shell: false,
            array: false,
            silent: false,
            split_null: false,
            to_stdout: false,
            nchars: 0,
            one_line: false,
            print_help: false,
        }
    }
}

/// Why a configuration was rejected before acquisition.
#[derive(Clone, Copy, Debug, PartialEq, Eq, Structural)]
pub enum ReadError {
    /// Both a prompt command and a prompt string were given.
    PromptConflict,
    /// An explicit delimiter cannot be combined with per-record mode.
    DelimiterLineConflict,
    /// NUL splitting cannot be combined with per-record mode.
    NullLineConflict,
    /// Export and unexport cannot both be requested.
    ExportUnexportConflict,
    /// More than one of the local, function, global and universal scopes.
    ScopeConflict,
    /// At least one destination slot is required outside array mode.
    MissingVarNames,
    /// Array mode takes exactly one destination slot.
    ArrayNeedsOneName,
    /// Writing to standard output takes no destination slots.
    StdoutTakesNoNames,
    /// Tokenization cannot be combined with an explicit delimiter.
    TokenizeDelimiterConflict,
    /// Tokenization cannot be combined with per-record mode.
    TokenizeLineConflict,
    /// A destination slot identifier is not a valid variable name.
    InvalidVarName,
    /// A destination slot names a read-only variable.
    ReadOnlyVar,
}

/// Characters allowed in a variable name: ASCII letters and digits, the
/// underscore, and every character beyond ASCII.
pub open spec fn word_char(c: char) -> bool {
    ('a' <= c && c <= 'z') || ('A' <= c && c <= 'Z') || ('0' <= c && c <= '9') || c == '_' || c
        > '\u{7f}'
}

/// A valid variable name is non-empty and made of word characters.
pub open spec fn valid_name(s: Seq<char>) -> bool {
    s.len() > 0 && forall|i: int| 0 <= i < s.len() ==> word_char(#[trigger] s[i])
}

/// Check one destination slot identifier.
pub fn valid_var_name(name: &Vec<char>) -> (r: bool)
    ensures
        r == valid_name(name@),
{
    if name.len() == 0 {
        return false;
    }
    let mut i: usize = 0;
    while i < name.len()
        invariant
            i <= name.len(),
            forall|j: int| 0 <= j < i ==> word_char(#[trigger] name@[j]),
        decreases name.len() - i,
    {
        let c = name[i];
        let ok = ('a' <= c && c <= 'z') || ('A' <= c && c <= 'Z') || ('0' <= c && c <= '9') || c
            == '_' || c > '\u{7f}';
        if !ok {
            return false;
        }
        i = i + 1;
    }
    true
}

/// The first offending destination slot from index `i` on: an invalid
/// name, or a read-only variable.
pub open spec fn name_check(names: Seq<Seq<char>>, readonly: Seq<bool>, i: int) -> Option<ReadError>
    recommends
        0 <= i,
        names.len() == readonly.len(),
    decreases names.len() - i,
    when 0 <= i
{
    if i >= names.len() {
        None
    } else if !valid_name(names[i]) {
        Some(ReadError::InvalidVarName)
    } else if readonly[i] {
        Some(ReadError::ReadOnlyVar)
    } else {
        name_check(names, readonly, i + 1)
    }
}

/// The first reason to reject the configuration `o` with destination
/// slots `names`, of which `readonly` marks the read-only ones; `None`
/// when the invocation is acceptable.
pub open spec fn validate_spec(o: Options, names: Seq<Seq<char>>, readonly: Seq<bool>) -> Option<
    ReadError,
> {
    if o.prompt is Some && o.prompt_str is Some {
        Some(ReadError::PromptConflict)
    } else if o.delimiter is Some && o.one_line {
        Some(ReadError::DelimiterLineConflict)
    } else if o.one_line && o.split_null {
        Some(ReadError::NullLineConflict)
    } else if o.place.unexport && o.place.export {
        Some(ReadError::ExportUnexportConflict)
    } else if scope_count(o.place) > 1 {
        Some(ReadError::ScopeConflict)
    } else if !o.array && names.len() < 1 && !o.to_stdout {
        Some(ReadError::MissingVarNames)
    } else if o.array && names.len() != 1 {
        Some(ReadError::ArrayNeedsOneName)
    } else if o.to_stdout && names.len() > 0 {
        Some(ReadError::StdoutTakesNoNames)
    } else if o.tokenize && o.delimiter is Some {
        Some(ReadError::TokenizeDelimiterConflict)
    } else if o.tokenize && o.one_line {
        Some(ReadError::TokenizeLineConflict)
    } else {
        name_check(names, readonly, 0)
    }
}

/// Validate the configuration before any acquisition.  Returns the first
/// rejection reason, in the order the checks are specified, or nothing
/// when the invocation may proceed.
#[verifier::loop_isolation(false)]
pub fn validate_read_args(o: &Options, names: &Vec<Vec<char>>, readonly: &Vec<bool>) -> (r: Result<
    (),
    ReadError,
>)
    requires
        names@.len() == readonly@.len(),
    ensures
        r matches Ok(_) <==> validate_spec(*o, field_views(names@), readonly@) is None,
        r matches Err(e) ==> validate_spec(*o, field_views(names@), readonly@) == Some(e),
{
    let ghost nv = field_views(names@);
    if o.prompt.is_some() && o.prompt_str.is_some() {
        return Err(ReadError::PromptConflict);
    }
    if o.delimiter.is_some() && o.one_line {
        return Err(ReadError::DelimiterLineConflict);
    }
    if o.one_line && o.split_null {
        return Err(ReadError::NullLineConflict);
    }
    if o.place.unexport && o.place.export {
        return Err(ReadError::ExportUnexportConflict);
    }
    let mut scopes: u32 = 0;
    if o.place.local {
        scopes = scopes + 1;
    }
    if o.place.function {
        scopes = scopes + 1;
    }
    if o.place.global {
        scopes = scopes + 1;
    }
    if o.place.universal {
        scopes = scopes + 1;
    }
    if scopes > 1 {
        return Err(ReadError::ScopeConflict);
    }
    if !o.array && names.len() < 1 && !o.to_stdout {
        return Err(ReadError::MissingVarNames);
    }
    if o.array && names.len() != 1 {
        return Err(ReadError::ArrayNeedsOneName);
    }
    if o.to_stdout && names.len() > 0 {
        return Err(ReadError::StdoutTakesNoNames);
    }
    if o.tokenize && o.delimiter.is_some() {
        return Err(ReadError::TokenizeDelimiterConflict);
    }
    if o.tokenize && o.one_line {
        return Err(ReadError::TokenizeLineConflict);
    }
    let mut i: usize = 0;
    while i < names.len()
        invariant
            i <= names@.len(),
            names@.len() == readonly@.len(),
            nv == field_views(names@),
            name_check(nv, readonly@, 0) == name_check(nv, readonly@, i as int),
        decreases names.len() - i,
    {
        if !valid_var_name(&names[i]) {
            proof {
                assert(nv.len() == names@.len());
                assert(nv[i as int] == names@[i as int]@);
                assert(name_check(nv, readonly@, i as int) == Some(ReadError::InvalidVarName));
            }
            return Err(ReadError::InvalidVarName);
        }
        if readonly[i] {
            proof {
                assert(nv.len() == names@.len());
                assert(nv[i as int] == names@[i as int]@);
                assert(name_check(nv, readonly@, i as int) == Some(ReadError::ReadOnlyVar));
            }
            return Err(ReadError::ReadOnlyVar);
        }
        proof {
            assert(nv[i as int] == names@[i as int]@);
        }
        i = i + 1;
    }
    Ok(())
}

} // verus!
