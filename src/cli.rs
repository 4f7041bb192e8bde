use vstd::prelude::*;
use crate::destination::RebaseError;

verus! {

/// The arguments of the operation diff command.
pub struct OperationDiffArgs {
    /// Show repository changes in this operation, compared to its parent.
    pub operation: Option<String>,
    /// Show repository changes from this operation.
    pub from: Option<String>,
    /// Show repository changes to this operation.
    pub to: Option<String>,
    /// Show a flat list of modified changes instead of a graph.
    pub no_graph: bool,
    /// Show the patch of each modified change.
    pub patch: bool,
}

/// The two operations to compare.
pub enum OpEndpoints {
    /// Compare operation `from` with operation `to`.
    Between { from: String, to: String },
    /// Compare the operation with the merge of its parents.
    ParentsOf(String),
}

/// The operation named by `arg`, or the head operation when none is named.
pub open spec fn named_or_head(arg: Option<String>, head: String) -> Seq<char> {
    match arg {
        Some(s) => s@,
        None => head@,
    }
}

fn or_head(arg: &Option<String>, head: &String) -> (r: String)
    ensures
        r@ == named_or_head(*arg, *head),
{
    match arg {
        Some(s) => s.clone(),
        None => head.clone(),
    }
}

/// Which operations to compare: `--from` and `--to` (either defaulting to the
/// head operation) when one of them is given, else `--operation` (or the head
/// operation) against its parents.
pub fn operation_endpoints(args: &OperationDiffArgs, head: &String) -> (r: OpEndpoints)
    ensures
        (args.from is Some || args.to is Some) ==> (r matches OpEndpoints::Between { from, to }
            && from@ == named_or_head(args.from, *head) && to@ == named_or_head(args.to, *head)),
        (args.from is None && args.to is None) ==> (r matches OpEndpoints::ParentsOf(op)
            && op@ == named_or_head(args.operation, *head)),
{
    if args.from.is_some() || args.to.is_some() {
        OpEndpoints::Between { from: or_head(&args.from, head), to: or_head(&args.to, head) }
    } else {
        OpEndpoints::ParentsOf(or_head(&args.operation, head))
    }
}

/// Why an operation diff is refused.
#[derive(Debug, Clone, Copy, PartialEq, Eq, Structural)]
pub enum OpDiffError {
    /// The operation to compare with its parents has none.
    OperationHasNoParents,
}

/// Refuses to diff an operation against its parents when it has none.
pub fn check_op_parents(num_parents: usize) -> (r: Result<(), OpDiffError>)
    ensures
        r is Err <==> num_parents == 0,
        r matches Err(e) ==> e == OpDiffError::OperationHasNoParents,
{
    if num_parents == 0 {
        Err(OpDiffError::OperationHasNoParents)
    } else {
        Ok(())
    }
}

/// The arguments of the rebase command.
pub struct RebaseArgs {
    /// Rebase the whole branch of these revisions.
    pub branch: Vec<String>,
    /// Rebase these revisions and their descendants.
    pub source: Vec<String>,
    /// Rebase only these revisions.
    pub revisions: Vec<String>,
    /// The revisions to rebase onto.
    pub destination: Vec<String>,
    /// The revisions to insert after.
    pub insert_after: Vec<String>,
    /// The revisions to insert before.
    pub insert_before: Vec<String>,
    /// Abandon commits that the rebase empties.
    pub skip_empty: bool,
    /// No longer supported.
    pub allow_large_revsets: bool,
}

/// What to do with commits that a rebase empties.
#[derive(Debug, Clone, Copy, PartialEq, Eq, Structural)]
pub enum EmptyBehaviour {
    Keep,
    AbandonNewlyEmpty,
}

/// Which commits a rebase moves.
#[derive(Debug, Clone, Copy, PartialEq, Eq, Structural)]
pub enum RebaseMode {
    /// The given revisions alone.
    Revisions,
    /// The given revisions and their descendants.
    Source,
    /// The branches of the given revisions, or of the working-copy commit
    /// when `default_to_working_copy`.
    Branch { default_to_working_copy: bool },
}

/// Chooses how to rebase from the arguments: refuses the deprecated flag,
/// and `--skip-empty` together with `-r`.
pub fn rebase_mode(args: &RebaseArgs) -> (r: Result<(RebaseMode, EmptyBehaviour), RebaseError>)
    ensures
        args.allow_large_revsets ==> r == Err::<(RebaseMode, EmptyBehaviour), RebaseError>(RebaseError::DeprecatedFlag),
        !args.allow_large_revsets && args.revisions@.len() > 0 && args.skip_empty ==> r == Err::<(RebaseMode, EmptyBehaviour), RebaseError>(RebaseError::FlagConflict),
        !args.allow_large_revsets && args.revisions@.len() > 0 && !args.skip_empty ==> r == Ok::<(RebaseMode, EmptyBehaviour), RebaseError>((RebaseMode::Revisions, EmptyBehaviour::Keep)),
        !args.allow_large_revsets && args.revisions@.len() == 0 ==> r == Ok::<(RebaseMode, EmptyBehaviour), RebaseError>((
            if args.source@.len() > 0 {
                RebaseMode::Source
            } else {
                RebaseMode::Branch { default_to_working_copy: args.branch@.len() == 0 }
            },
            if args.skip_empty {
                EmptyBehaviour::AbandonNewlyEmpty
            } else {
                EmptyBehaviour::Keep
            },
        )),
{
    if args.allow_large_revsets {
        return Err(RebaseError::DeprecatedFlag);
    }
    let empty = if args.skip_empty {
        EmptyBehaviour::AbandonNewlyEmpty
    } else {
        EmptyBehaviour::Keep
    };
    if args.revisions.len() > 0 {
        if args.skip_empty {
            return Err(RebaseError::FlagConflict);
        }
        Ok((RebaseMode::Revisions, empty))
    } else if args.source.len() > 0 {
        Ok((RebaseMode::Source, empty))
    } else {
        Ok((RebaseMode::Branch { default_to_working_copy: args.branch.len() == 0 }, empty))
    }
}

} // verus!
