//! Deleting the current image.
use crate::path::{file_name, text_or, ImagePath};
use crate::viewer::{Update, ViewSize, Viewer, ViewerState};
use vstd::prelude::*;

verus! {

/// What becomes of a deleted file.
#[derive(Clone, Copy, Debug, PartialEq, Eq, Structural)]
pub enum DeleteMode {
    Trash,
    Permanent,
}

/// A question before a file is deleted.
#[derive(Debug)]
pub struct DeletePrompt {
    pub message: String,
    pub detail: String,
    pub action: String,
}

/// What follows the request to delete the current image.
#[derive(Debug)]
pub enum DeleteRequest {
    Perform,
    Confirm(DeletePrompt),
}

/// A key of the prompt.
#[derive(Clone, Copy, Debug, PartialEq, Eq, Structural)]
pub enum PromptKey {
    Escape,
    Up,
    Other,
}

/// What a key does in the prompt.
#[derive(Clone, Copy, Debug, PartialEq, Eq, Structural)]
pub enum PromptAction {
    Close,
    FocusConfirm,
    Nothing,
}

/// The question about a file of the given name.
pub open spec fn prompt_message(name: Seq<char>, mode: DeleteMode) -> Seq<char> {
    match mode {
        DeleteMode::Trash => "Move “"@ + name + "” to Trash?"@,
        DeleteMode::Permanent => "Permanently delete “"@ + name + "”?"@,
    }
}

/// What the question tells of the consequences.
pub open spec fn prompt_detail(mode: DeleteMode) -> Seq<char> {
    match mode {
        DeleteMode::Trash => "You can restore it from the desktop Trash."@,
        DeleteMode::Permanent =>
            "Trash is unavailable for this location. This cannot be undone."@,
    }
}

/// The label of the button that deletes.
pub open spec fn prompt_action(mode: DeleteMode) -> Seq<char> {
    match mode {
        DeleteMode::Trash => "Move to Trash"@,
        DeleteMode::Permanent => "Delete Permanently"@,
    }
}

/// Why a file has not been deleted.
pub open spec fn failure_text(mode: DeleteMode, error: Seq<char>) -> Seq<char> {
    match mode {
        DeleteMode::Trash => "Could not move to Trash: "@ + error,
        DeleteMode::Permanent => "Could not delete: "@ + error,
    }
}

impl ViewerState {
    /// After the answer to delete, which may be one to remember.
    pub open spec fn confirmed(self, remember: bool) -> ViewerState {
        ViewerState {
            skip_delete_confirmation: self.skip_delete_confirmation || remember,
            ..self
        }
    }

    /// After a deletion that has failed.
    pub open spec fn undeleted(self, mode: DeleteMode, error: Seq<char>) -> ViewerState {
        ViewerState { status: failure_text(mode, error), ..self }
    }
}

/// Files go to the trash wherever the system has one for them.
pub fn delete_mode(can_trash: bool) -> (r: DeleteMode)
    ensures
        r is Trash <==> can_trash,
{
    if can_trash {
        DeleteMode::Trash
    } else {
        DeleteMode::Permanent
    }
}

fn delete_prompt(path: &ImagePath, mode: DeleteMode) -> (r: DeletePrompt)
    ensures
        r.message@ == prompt_message(text_or(file_name(path@), "this image"@), mode),
        r.detail@ == prompt_detail(mode),
        r.action@ == prompt_action(mode),
{
    let name: String = path.name_or("this image");
    match mode {
        DeleteMode::Trash => {
            let mut message: String = "Move “".to_owned();
            message.append(name.as_str());
            message.append("” to Trash?");
            DeletePrompt {
                message,
                detail: "You can restore it from the desktop Trash.".to_owned(),
                action: "Move to Trash".to_owned(),
            }
        },
        DeleteMode::Permanent => {
            let mut message: String = "Permanently delete “".to_owned();
            message.append(name.as_str());
            message.append("”?");
            DeletePrompt {
                message,
                detail: "Trash is unavailable for this location. This cannot be undone.".to_owned(),
                action: "Delete Permanently".to_owned(),
            }
        },
    }
}

/// Asks before the current image is deleted, unless the decision is remembered.
pub fn request_delete(viewer: &Viewer, mode: DeleteMode) -> (r: DeleteRequest)
    requires
        viewer.well_formed(),
    ensures
        r is Perform <==> viewer.skip_delete_confirmation,
        r matches DeleteRequest::Confirm(prompt) ==> {
            &&& prompt.message@ == prompt_message(
                text_or(file_name(viewer@.current()), "this image"@),
                mode,
            )
            &&& prompt.detail@ == prompt_detail(mode)
            &&& prompt.action@ == prompt_action(mode)
        },
{
    if viewer.skip_delete_confirmation {
        DeleteRequest::Perform
    } else {
        DeleteRequest::Confirm(delete_prompt(viewer.current_path(), mode))
    }
}

/// Takes the answer to delete, which may be one to remember.
pub fn confirm_delete(viewer: &mut Viewer, remember: bool)
    requires
        old(viewer).well_formed(),
    ensures
        final(viewer).well_formed(),
        final(viewer)@ == (ViewerState {
            skip_delete_confirmation: old(viewer)@.skip_delete_confirmation || remember,
            ..old(viewer)@
        }),
        final(viewer)@ == old(viewer)@.confirmed(remember),
{
    if remember {
        viewer.skip_delete_confirmation = true;
    }
}

/// What a key does in the prompt: Escape closes it, and from the box below the buttons Up leads
/// back to the button that deletes.
pub fn prompt_key(key: PromptKey, remember_focused: bool) -> (r: PromptAction)
    ensures
        r is Close <==> key is Escape,
        r is FocusConfirm <==> key is Up && remember_focused,
{
    match key {
        PromptKey::Escape => PromptAction::Close,
        PromptKey::Up => if remember_focused {
            PromptAction::FocusConfirm
        } else {
            PromptAction::Nothing
        },
        PromptKey::Other => PromptAction::Nothing,
    }
}

/// Takes the result of deleting the current image: goes on to another one, or says why it is
/// still there.
pub fn perform_delete(
    viewer: &mut Viewer,
    mode: DeleteMode,
    result: Result<(), String>,
    view: ViewSize,
) -> (r: Option<Update>)
    requires
        old(viewer).well_formed(),
        old(viewer).generation < u64::MAX,
    ensures
        r is Some <==> result is Ok,
        final(viewer).cache.well_formed(),
        final(viewer)@.sound(),
        result matches Err(error) ==> final(viewer).well_formed() && final(viewer)@ == (ViewerState {
            status: failure_text(mode, error@),
            ..old(viewer)@
        }),
        result matches Err(error) ==> final(viewer)@ == old(viewer)@.undeleted(mode, error@),
        r matches Some(update) ==> {
            &&& old(viewer)@.paths.len() == 1 ==> {
                &&& final(viewer)@ == old(viewer)@.forgetting()
                &&& update.close && update.texture is None && update.request is None
            }
            &&& old(viewer)@.paths.len() > 1 ==> {
                &&& final(viewer).well_formed()
                &&& final(viewer)@ == old(viewer)@.forgetting().shown_or_loading(
                    view.width as int,
                    view.height as int,
                )
                &&& final(viewer)@.updates(update)
            }
        },
{
    match result {
        Ok(()) => Some(viewer.forget_current_image(view)),
        Err(error) => {
            let mut message: String = match mode {
                DeleteMode::Trash => "Could not move to Trash: ".to_owned(),
                DeleteMode::Permanent => "Could not delete: ".to_owned(),
            };
            message.append(error.as_str());
            viewer.status = message;
            None
        },
    }
}

/// The question before a deletion names the file and what becomes of it, and the button says the
/// same: a file that goes to the trash can be restored, one that is deleted permanently cannot.
pub proof fn prompts_tell_what_is_done(name: Seq<char>)
    ensures
        prompt_message(name, DeleteMode::Trash) == "Move “"@ + name + "” to Trash?"@,
        prompt_detail(DeleteMode::Trash) == "You can restore it from the desktop Trash."@,
        prompt_action(DeleteMode::Trash) == "Move to Trash"@,
        prompt_message(name, DeleteMode::Permanent) == "Permanently delete “"@ + name + "”?"@,
        prompt_detail(DeleteMode::Permanent)
            == "Trash is unavailable for this location. This cannot be undone."@,
        prompt_action(DeleteMode::Permanent) == "Delete Permanently"@,
{
}

/// A failed deletion is told with its reason.
pub proof fn failures_tell_the_reason(error: Seq<char>)
    ensures
        failure_text(DeleteMode::Trash, error) == "Could not move to Trash: "@ + error,
        failure_text(DeleteMode::Permanent, error) == "Could not delete: "@ + error,
{
}

/// A decision is remembered only where that is asked for, and it stays remembered. It changes
/// nothing else; and where a deletion fails, the image stays with the reason as the status.
pub proof fn decisions_are_remembered_on_request(
    state: ViewerState,
    remember: bool,
    mode: DeleteMode,
    error: Seq<char>,
)
    ensures
        state.confirmed(true).skip_delete_confirmation,
        state.confirmed(false) == state,
        state.skip_delete_confirmation ==> state.confirmed(remember) == state,
        state.confirmed(remember) == (ViewerState {
            skip_delete_confirmation: state.confirmed(remember).skip_delete_confirmation,
            ..state
        }),
        state.undeleted(mode, error) == (ViewerState {
            status: if mode is Trash {
                "Could not move to Trash: "@ + error
            } else {
                "Could not delete: "@ + error
            },
            ..state
        }),
{
}

} // verus!
