use vstd::prelude::*;

verus! {

/// The answer of the health endpoint.
pub struct HealthResponse {
    pub status: &'static str,
    pub version: &'static str,
}

/// A photo about to be stored.
pub struct NewPhoto {
    pub title: String,
    pub description: String,
    pub tags: Vec<String>,
    pub filename: Option<String>,
    pub mime_type: String,
    pub data: Vec<u8>,
}

/// A stored photo, as read back from the database.
pub struct PhotoRecord {
    pub id: i64,
    pub title: String,
    pub description: String,
    pub tags: Vec<String>,
    pub filename: Option<String>,
    pub mime_type: String,
    pub data: Vec<u8>,
    pub created_at: String,
}

/// A stored photo as the listing shows it: its data replaced by its size and
/// the address of its content.
pub struct PhotoSummary {
    pub id: i64,
    pub title: String,
    pub description: String,
    pub tags: Vec<String>,
    pub filename: Option<String>,
    pub mime_type: String,
    pub created_at: String,
    pub byte_size: usize,
    pub content_url: String,
}

/// The answer to an upload: one item per stored photo.
pub struct UploadPhotoResponse {
    pub items: Vec<UploadedPhotoItem>,
}

/// The body of an error answer.
pub struct ApiErrorResponse {
    pub error: String,
}

/// One photo stored by an upload.
pub struct UploadedPhotoItem {
    pub id: i64,
    pub title: String,
    pub content_url: String,
}

/// The answer to a deletion.
pub struct DeletePhotoResponse {
    pub id: i64,
    pub deleted: bool,
}

/// A login attempt.
pub struct LoginRequest {
    pub password: String,
}

/// A request to set the administrator password for the first time.
pub struct SetupPasswordRequest {
    pub password: String,
    pub confirm_password: String,
}

/// Whether the caller is logged in, and whether a password must still be set.
pub struct AuthStatusResponse {
    pub authenticated: bool,
    pub setup_required: bool,
}

/// New title, description and comma-separated tags for a photo.
pub struct UpdatePhotoRequest {
    pub title: String,
    pub description: String,
    pub tags: String,
}

/// The answer to an update: the photo as it now stands.
pub struct UpdatePhotoResponse {
    pub item: PhotoSummary,
}

/// The character sequences held by a list of strings.
pub open spec fn string_views(v: Seq<String>) -> Seq<Seq<char>> {
    v.map_values(|s: String| s@)
}

/// The character sequence held by an optional string.
pub open spec fn opt_view(o: Option<String>) -> Option<Seq<char>> {
    match o {
        Some(s) => Some(s@),
        None => None,
    }
}

} // verus!
