//! Google Drive synchronisation: the requests to make and what their
//! outcomes do to the Drive settings of the state.
use vstd::prelude::*;

use crate::state::{AppState, DriveModel, StateModel};
use crate::text::{append_str, string_from};

verus! {

/// The name of the file that holds all projects in the application's
/// Drive folder.
pub fn drive_file_name() -> (r: &'static str)
    ensures
        r@ == "xavier-test-tree-all-projects.json"@,
{
    "xavier-test-tree-all-projects.json"
}

/// The OAuth scope asked for: the application's own Drive folder.
pub fn drive_scope() -> (r: &'static str)
    ensures
        r@ == "https://www.googleapis.com/auth/drive.appdata"@,
{
    "https://www.googleapis.com/auth/drive.appdata"
}

/// The query that lists the synchronisation file if it exists.
pub open spec fn find_url_spec() -> Seq<char> {
    "https://www.googleapis.com/drive/v3/files?spaces=appDataFolder&q=name='"@
        + "xavier-test-tree-all-projects.json"@ + "' and trashed=false&fields=files(id,name,modifiedTime,size)"@
}

pub fn drive_find_url() -> (r: String)
    ensures
        r@ == find_url_spec(),
{
    let mut r = string_from("https://www.googleapis.com/drive/v3/files?spaces=appDataFolder&q=name='");
    append_str(&mut r, drive_file_name());
    append_str(&mut r, "' and trashed=false&fields=files(id,name,modifiedTime,size)");
    r
}

/// The request that downloads the content of a file.
pub fn drive_download_url(file_id: &str) -> (r: String)
    ensures
        r@ == "https://www.googleapis.com/drive/v3/files/"@ + file_id@ + "?alt=media"@,
{
    let mut r = string_from("https://www.googleapis.com/drive/v3/files/");
    append_str(&mut r, file_id);
    append_str(&mut r, "?alt=media");
    r
}

/// The value of the `Authorization` header for a token.
pub fn bearer_header(token: &str) -> (r: String)
    ensures
        r@ == "Bearer "@ + token@,
{
    let mut r = string_from("Bearer ");
    append_str(&mut r, token);
    r
}

/// How to upload the synchronisation file.
#[derive(Clone, Debug, PartialEq)]
pub struct UploadPlan {
    /// `PATCH` to replace an existing file, `POST` to create it.
    pub method: String,
    pub endpoint: String,
    /// Whether the file metadata names the application folder as parent
    /// (only when the file is created).
    pub with_parents: bool,
}

pub open spec fn upload_endpoint_spec(existing_file_id: Option<Seq<char>>) -> Seq<char> {
    match existing_file_id {
        Some(id) => "https://www.googleapis.com/upload/drive/v3/files/"@ + id
            + "?uploadType=multipart&fields=id,name,modifiedTime"@,
        None => "https://www.googleapis.com/upload/drive/v3/files?uploadType=multipart&fields=id,name,modifiedTime"@,
    }
}

/// Replaces the file when it exists, creates it in the application folder
/// otherwise.
pub fn upload_plan(existing_file_id: &Option<String>) -> (r: UploadPlan)
    ensures
        r.endpoint@ == upload_endpoint_spec(
            match existing_file_id {
                Some(id) => Some(id@),
                None => None,
            },
        ),
        r.method@ == (if existing_file_id is Some {
            "PATCH"@
        } else {
            "POST"@
        }),
        r.with_parents == (existing_file_id is None),
{
    match existing_file_id {
        Some(id) => {
            let mut endpoint = string_from("https://www.googleapis.com/upload/drive/v3/files/");
            append_str(&mut endpoint, id.as_str());
            append_str(&mut endpoint, "?uploadType=multipart&fields=id,name,modifiedTime");
            UploadPlan { method: string_from("PATCH"), endpoint, with_parents: false }
        },
        None => UploadPlan {
            method: string_from("POST"),
            endpoint: string_from(
                "https://www.googleapis.com/upload/drive/v3/files?uploadType=multipart&fields=id,name,modifiedTime",
            ),
            with_parents: true,
        },
    }
}

/// What happened in an exchange with Drive.
#[derive(Clone, Debug, PartialEq)]
pub enum DriveEvent {
    /// A token was obtained for the client id.
    Connected { client_id: String, token: String },
    /// No token could be obtained for the client id.
    ConnectFailed { client_id: String, error: String },
    /// The client id and token typed in are kept before a request.
    Credentials { client_id: String, token: String },
    /// The synchronisation file was found under the given id.
    FileFound(String),
    /// Drive answered, without a synchronisation file.
    FileAbsent,
    /// A request failed with the given message.
    Failed(String),
    /// The synchronisation file was uploaded.
    Uploaded,
}

/// The Drive settings after an event.
pub open spec fn drive_after(d: DriveModel, e: DriveEvent) -> DriveModel {
    match e {
        DriveEvent::Connected { client_id, token } => DriveModel {
            client_id: client_id@,
            access_token: token@,
            status: "Connecté"@,
            message: "Connexion Google Drive OK"@,
        },
        DriveEvent::ConnectFailed { client_id, error } => DriveModel {
            client_id: client_id@,
            status: "Erreur"@,
            message: error@,
            ..d
        },
        DriveEvent::Credentials { client_id, token } => DriveModel {
            client_id: client_id@,
            access_token: token@,
            ..d
        },
        DriveEvent::FileFound(id) => DriveModel {
            status: "Connecté"@,
            message: "Fichier Drive trouvé: "@ + id@,
            ..d
        },
        DriveEvent::FileAbsent => DriveModel {
            status: "Connecté"@,
            message: "Aucun fichier de synchro trouvé"@,
            ..d
        },
        DriveEvent::Failed(error) => DriveModel { status: "Erreur"@, message: error@, ..d },
        DriveEvent::Uploaded => DriveModel {
            status: "Connecté"@,
            message: "Upload Drive effectué"@,
            ..d
        },
    }
}

/// Records a Drive event in the state (see `drive_after`).
pub fn apply_drive_event(state: &mut AppState, event: DriveEvent)
    ensures
        final(state)@ == (StateModel { drive: drive_after(old(state)@.drive, event), ..old(state)@ }),
{
    let ghost before = state@;
    let ghost e = event;
    match event {
        DriveEvent::Connected { client_id, token } => {
            state.drive.client_id = client_id;
            state.drive.access_token = token;
            state.drive.status = string_from("Connecté");
            state.drive.message = string_from("Connexion Google Drive OK");
        },
        DriveEvent::ConnectFailed { client_id, error } => {
            state.drive.client_id = client_id;
            state.drive.status = string_from("Erreur");
            state.drive.message = error;
        },
        DriveEvent::Credentials { client_id, token } => {
            state.drive.client_id = client_id;
            state.drive.access_token = token;
        },
        DriveEvent::FileFound(id) => {
            state.drive.status = string_from("Connecté");
            let mut m = string_from("Fichier Drive trouvé: ");
            append_str(&mut m, id.as_str());
            state.drive.message = m;
        },
        DriveEvent::FileAbsent => {
            state.drive.status = string_from("Connecté");
            state.drive.message = string_from("Aucun fichier de synchro trouvé");
        },
        DriveEvent::Failed(error) => {
            state.drive.status = string_from("Erreur");
            state.drive.message = error;
        },
        DriveEvent::Uploaded => {
            state.drive.status = string_from("Connecté");
            state.drive.message = string_from("Upload Drive effectué");
        },
    }
    proof {
        assert(state@ =~= (StateModel { drive: drive_after(before.drive, e), ..before }));
    }
}

} // verus!
