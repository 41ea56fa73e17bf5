//! What a rule does with one archive file.

use vstd::prelude::*;
use vstd::string::*;
use crate::config::WadTransformAction;
use crate::patterns::{regex_is_valid, regex_replace_first, regex_replaced_first, regex_valid};
use crate::text::same;
use crate::wad_pipeline::detect::WadError;

verus! {

/// What is to be done with one file.
#[derive(Debug)]
pub enum ActionResult {
    /// Remove it; with the flag, only where nothing refers to it.
    RemoveFile { unless_referenced: bool },
    ConvertFile { from_ext: String, to_ext: String, converter: String },
    /// Change the bytes in place.
    TransformInPlace { converter: String },
    RenameFile { new_path: String },
    NoOp,
}

/// What is to be done with one file, as a value.
#[verifier::ext_equal]
pub enum FileAction {
    Remove { unless_referenced: bool },
    Convert { from_ext: Seq<char>, to_ext: Seq<char>, converter: Seq<char> },
    Transform { converter: Seq<char> },
    Rename { new_path: Seq<char> },
    Nothing,
}

impl View for ActionResult {
    type V = FileAction;

    open spec fn view(&self) -> FileAction {
        match *self {
            ActionResult::RemoveFile { unless_referenced } => FileAction::Remove { unless_referenced },
            ActionResult::ConvertFile { from_ext, to_ext, converter } => FileAction::Convert {
                from_ext: from_ext@,
                to_ext: to_ext@,
                converter: converter@,
            },
            ActionResult::TransformInPlace { converter } => FileAction::Transform { converter: converter@ },
            ActionResult::RenameFile { new_path } => FileAction::Rename { new_path: new_path@ },
            ActionResult::NoOp => FileAction::Nothing,
        }
    }
}

/// What a rename to a text comes to: nothing, where it is the path itself.
pub open spec fn rename_to(path: Seq<char>, new_path: Seq<char>) -> FileAction {
    if new_path == path {
        FileAction::Nothing
    } else {
        FileAction::Rename { new_path }
    }
}

/// What an action does with the file at a path.
pub open spec fn action_on(path: Seq<char>, action: WadTransformAction) -> Result<FileAction, WadError> {
    match action {
        WadTransformAction::RemoveFile { unless_referenced } => Ok(FileAction::Remove { unless_referenced }),
        WadTransformAction::ConvertFormat { from_ext, to_ext, converter } => Ok(
            FileAction::Convert { from_ext: from_ext@, to_ext: to_ext@, converter: converter@ },
        ),
        WadTransformAction::TransformBytes { converter } => Ok(FileAction::Transform { converter: converter@ }),
        WadTransformAction::RenameFile { pattern, replacement } => if regex_valid(pattern@) {
            Ok(rename_to(path, regex_replaced_first(pattern@, path, replacement@)))
        } else {
            Err(WadError::InvalidPattern)
        },
        WadTransformAction::AddFiles { .. } => Ok(FileAction::Nothing),
    }
}

/// What a rename to a text comes to.
pub fn rename_action(path: &str, new_path: String) -> (r: ActionResult)
    ensures
        r@ == rename_to(path@, new_path@),
{
    if same(new_path.as_str(), path) {
        ActionResult::NoOp
    } else {
        ActionResult::RenameFile { new_path }
    }
}

/// What is to be done with the file at `path`. Adding files is no matter of a single
/// file.
pub fn apply_action(path: &str, _bytes: &[u8], action: &WadTransformAction) -> (r: Result<ActionResult, WadError>)
    ensures
        r is Ok <==> action_on(path@, *action) is Ok,
        r matches Ok(a) ==> action_on(path@, *action) == Ok::<FileAction, WadError>(a@),
        r matches Err(e) ==> action_on(path@, *action) == Err::<FileAction, WadError>(e),
{
    match action {
        WadTransformAction::RemoveFile { unless_referenced } => Ok(
            ActionResult::RemoveFile { unless_referenced: *unless_referenced },
        ),
        WadTransformAction::ConvertFormat { from_ext, to_ext, converter } => Ok(
            ActionResult::ConvertFile {
                from_ext: from_ext.clone(),
                to_ext: to_ext.clone(),
                converter: converter.clone(),
            },
        ),
        WadTransformAction::TransformBytes { converter } => Ok(
            ActionResult::TransformInPlace { converter: converter.clone() },
        ),
        WadTransformAction::RenameFile { pattern, replacement } => {
            if !regex_is_valid(pattern.as_str()) {
                return Err(WadError::InvalidPattern);
            }
            let new_path = regex_replace_first(pattern.as_str(), path, replacement.as_str());
            Ok(rename_action(path, new_path))
        },
        WadTransformAction::AddFiles { .. } => Ok(ActionResult::NoOp),
    }
}

} // verus!
