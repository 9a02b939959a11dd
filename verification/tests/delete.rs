use better_image_view::delete::{
    confirm_delete, delete_mode, perform_delete, prompt_key, request_delete, DeleteMode,
    DeleteRequest, PromptAction, PromptKey,
};
use better_image_view::path::ImagePath;
use better_image_view::viewer::{ViewSize, Viewer};

const VIEW: ViewSize = ViewSize {
    width: 1200,
    height: 800,
};

fn viewer(names: &[&[u8]]) -> Viewer {
    let paths = names.iter().map(|name| ImagePath::new(name.to_vec())).collect();
    Viewer::new(paths, 0, 1000)
}

#[test]
fn trash_is_used_where_there_is_one() {
    assert_eq!(delete_mode(true), DeleteMode::Trash);
    assert_eq!(delete_mode(false), DeleteMode::Permanent);
}

#[test]
fn deletion_is_confirmed() {
    let viewer = viewer(&[b"/p/a.jpg"]);
    match request_delete(&viewer, DeleteMode::Trash) {
        DeleteRequest::Confirm(prompt) => {
            assert_eq!(prompt.message, "Move “a.jpg” to Trash?");
            assert_eq!(prompt.detail, "You can restore it from the desktop Trash.");
            assert_eq!(prompt.action, "Move to Trash");
        }
        DeleteRequest::Perform => panic!("not confirmed"),
    }
}

#[test]
fn permanent_deletion_is_announced() {
    let viewer = viewer(&[b"/p/\xff.jpg"]);
    match request_delete(&viewer, DeleteMode::Permanent) {
        DeleteRequest::Confirm(prompt) => {
            assert_eq!(prompt.message, "Permanently delete “this image”?");
            assert_eq!(
                prompt.detail,
                "Trash is unavailable for this location. This cannot be undone."
            );
            assert_eq!(prompt.action, "Delete Permanently");
        }
        DeleteRequest::Perform => panic!("not confirmed"),
    }
}

#[test]
fn decision_is_remembered_on_request() {
    let mut viewer = viewer(&[b"/p/a.jpg"]);
    confirm_delete(&mut viewer, false);
    assert!(matches!(
        request_delete(&viewer, DeleteMode::Trash),
        DeleteRequest::Confirm(_)
    ));
    confirm_delete(&mut viewer, true);
    confirm_delete(&mut viewer, false);
    assert!(matches!(
        request_delete(&viewer, DeleteMode::Permanent),
        DeleteRequest::Perform
    ));
}

#[test]
fn keys_of_the_prompt() {
    assert_eq!(prompt_key(PromptKey::Escape, true), PromptAction::Close);
    assert_eq!(prompt_key(PromptKey::Up, true), PromptAction::FocusConfirm);
    assert_eq!(prompt_key(PromptKey::Up, false), PromptAction::Nothing);
    assert_eq!(prompt_key(PromptKey::Other, true), PromptAction::Nothing);
}

#[test]
fn deleted_image_gives_way() {
    let mut viewer = viewer(&[b"/p/a.jpg", b"/p/b.jpg"]);
    viewer.show_or_load(VIEW);
    let update = perform_delete(&mut viewer, DeleteMode::Trash, Ok(()), VIEW).unwrap();
    assert!(!update.close);
    assert_eq!(viewer.title, "b.jpg  —  1 / 1");
    assert!(perform_delete(&mut viewer, DeleteMode::Trash, Ok(()), VIEW).unwrap().close);
}

#[test]
fn undeleted_image_stays() {
    let mut viewer = viewer(&[b"/p/a.jpg", b"/p/b.jpg"]);
    viewer.show_or_load(VIEW);
    let error = || Err("denied".to_string());
    assert!(perform_delete(&mut viewer, DeleteMode::Trash, error(), VIEW).is_none());
    assert_eq!(viewer.status, "Could not move to Trash: denied");
    assert!(perform_delete(&mut viewer, DeleteMode::Permanent, error(), VIEW).is_none());
    assert_eq!(viewer.status, "Could not delete: denied");
    assert_eq!(viewer.paths.len(), 2);
    assert_eq!(viewer.generation, 1);
}
