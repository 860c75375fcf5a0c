use todo_tree::drive::{
    apply_drive_event, bearer_header, drive_download_url, drive_file_name, drive_find_url, drive_scope,
    upload_plan, DriveEvent,
};
use todo_tree::model::{TaskStatus, TodoNode};
use todo_tree::state::{AppState, DefaultTreeIds};
use todo_tree::ui::{node_title, status_badge_class, status_editor_options, title_class};

#[test]
fn drive_requests() {
    assert_eq!(drive_file_name(), "xavier-test-tree-all-projects.json");
    assert_eq!(drive_scope(), "https://www.googleapis.com/auth/drive.appdata");
    assert_eq!(
        drive_find_url(),
        "https://www.googleapis.com/drive/v3/files?spaces=appDataFolder&q=name='xavier-test-tree-all-projects.json' and trashed=false&fields=files(id,name,modifiedTime,size)"
    );
    assert_eq!(drive_download_url("ID"), "https://www.googleapis.com/drive/v3/files/ID?alt=media");
    assert_eq!(bearer_header("tok"), "Bearer tok");
    let p = upload_plan(&Some("F1".to_string()));
    assert_eq!(p.method, "PATCH");
    assert!(!p.with_parents);
    assert_eq!(p.endpoint, "https://www.googleapis.com/upload/drive/v3/files/F1?uploadType=multipart&fields=id,name,modifiedTime");
    let p = upload_plan(&None);
    assert_eq!(p.method, "POST");
    assert!(p.with_parents);
    assert_eq!(p.endpoint, "https://www.googleapis.com/upload/drive/v3/files?uploadType=multipart&fields=id,name,modifiedTime");
}

#[test]
fn drive_events_update_settings() {
    let mut st = AppState::new_default(&DefaultTreeIds { root: "r".to_string(), child: "c".to_string() });
    apply_drive_event(&mut st, DriveEvent::Connected { client_id: "cid".to_string(), token: "t".to_string() });
    assert_eq!(st.drive.client_id, "cid");
    assert_eq!(st.drive.access_token, "t");
    assert_eq!(st.drive.status, "Connecté");
    assert_eq!(st.drive.message, "Connexion Google Drive OK");
    apply_drive_event(&mut st, DriveEvent::FileFound("F".to_string()));
    assert_eq!(st.drive.message, "Fichier Drive trouvé: F");
    apply_drive_event(&mut st, DriveEvent::FileAbsent);
    assert_eq!(st.drive.message, "Aucun fichier de synchro trouvé");
    apply_drive_event(&mut st, DriveEvent::Failed("boom".to_string()));
    assert_eq!(st.drive.status, "Erreur");
    assert_eq!(st.drive.message, "boom");
    apply_drive_event(&mut st, DriveEvent::Uploaded);
    assert_eq!(st.drive.status, "Connecté");
    assert_eq!(st.drive.message, "Upload Drive effectué");
    apply_drive_event(&mut st, DriveEvent::ConnectFailed { client_id: "c2".to_string(), error: "e".to_string() });
    assert_eq!(st.drive.client_id, "c2");
    assert_eq!(st.drive.access_token, "t");
    assert_eq!(st.drive.status, "Erreur");
    apply_drive_event(&mut st, DriveEvent::Credentials { client_id: "c3".to_string(), token: "t3".to_string() });
    assert_eq!(st.drive.client_id, "c3");
    assert_eq!(st.drive.access_token, "t3");
    assert_eq!(st.drive.status, "Erreur");
}

#[test]
fn ui_texts() {
    assert_eq!(status_badge_class(&TaskStatus::Done), "status-badge status-done");
    assert_eq!(status_badge_class(&TaskStatus::Todo), "status-badge status-todo");
    assert_eq!(status_badge_class(&TaskStatus::Idea), "status-badge status-idea");
    assert_eq!(status_badge_class(&TaskStatus::Blocked), "status-badge status-blocked");
    assert_eq!(
        status_editor_options(TaskStatus::Blocked, &vec![TaskStatus::Todo, TaskStatus::Done]),
        vec![TaskStatus::Todo, TaskStatus::Done, TaskStatus::Blocked]
    );
    assert_eq!(
        status_editor_options(TaskStatus::Done, &vec![TaskStatus::Todo, TaskStatus::Done]),
        vec![TaskStatus::Todo, TaskStatus::Done]
    );
    let mut n = TodoNode {
        id: "i".to_string(),
        label: String::new(),
        checked: false,
        expanded: true,
        show_details: true,
        status: TaskStatus::Todo,
        tags: vec![],
        description: String::new(),
        links: vec![],
        children: vec![],
    };
    assert_eq!(node_title(&n), "Sans titre");
    n.label = "L".to_string();
    assert_eq!(node_title(&n), "L");
    assert_eq!(title_class(true), "done grow title-text");
    assert_eq!(title_class(false), "grow title-text");
}
