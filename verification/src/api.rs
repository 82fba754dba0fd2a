use vstd::prelude::*;

use crate::auth::{
    is_uuid_v4_text, opt_str_view, spec_is_authenticated, spec_open_session, spec_requires_setup,
    spec_revoke_session, spec_set_password_if_unset, spec_verify_password, AuthState, AuthView,
};
use crate::model::{
    opt_view, string_views, AuthStatusResponse, PhotoRecord, PhotoSummary, UpdatePhotoRequest,
    UploadedPhotoItem,
};
use crate::text::{
    decimal, lemma_decimal_nonempty, lemma_split_pieces_lack, lemma_trim_bounds,
    lemma_trimmed_nonempty_props, push_decimal, push_signed_decimal, signed_decimal,
    trimmed_nonempty, chars_of, find_char, first_at, lacks, lemma_split_concat, lemma_split_lacking,
    lemma_split_once_at, lemma_trim_range, push_char, range_eq, split, split_chars, split_once,
    string_of, trim, trim_bounds, views,
};

verus! {

/// An error answer: an HTTP status code and a message.
pub struct ApiError {
    pub status: u16,
    pub message: String,
}

impl ApiError {
    /// A 400 error.
    pub fn bad_request(message: String) -> (e: Self)
        ensures
            e.status == 400,
            e.message == message,
    {
        ApiError { status: 400, message }
    }

    /// A 404 error.
    pub fn not_found(message: String) -> (e: Self)
        ensures
            e.status == 404,
            e.message == message,
    {
        ApiError { status: 404, message }
    }

    /// A 500 error.
    pub fn internal(message: String) -> (e: Self)
        ensures
            e.status == 500,
            e.message == message,
    {
        ApiError { status: 500, message }
    }

    /// A 401 error.
    pub fn unauthorized(message: String) -> (e: Self)
        ensures
            e.status == 401,
            e.message == message,
    {
        ApiError { status: 401, message }
    }
}

/// Whether an error has the given status and message.
pub open spec fn is_error(e: ApiError, status: u16, message: Seq<char>) -> bool {
    e.status == status && e.message@ == message
}

/// Whether a result is the error with the given status and message.
pub open spec fn err_is<T>(r: Result<T, ApiError>, status: u16, message: Seq<char>) -> bool {
    match r {
        Err(e) => is_error(e, status, message),
        Ok(_) => false,
    }
}

/// The name of the session cookie.
pub open spec fn session_cookie_name() -> Seq<char> {
    "lily_nest_session"@
}

/// The attributes that follow the token in the session cookie.
pub open spec fn session_cookie_attributes() -> Seq<char> {
    "; Path=/; HttpOnly; SameSite=Lax"@
}

/// The `Set-Cookie` value that hands out the session `token`.
pub open spec fn session_cookie_text(token: Seq<char>) -> Seq<char> {
    session_cookie_name().push('=') + token + session_cookie_attributes()
}

/// The session token that one `;`-separated part of a `Cookie` header carries:
/// the part trimmed, split at its first '=', when the name is the session
/// cookie's and the value is not empty.
pub open spec fn cookie_part_token(part: Seq<char>) -> Option<Seq<char>> {
    match split_once(trim(part), '=') {
        Some((name, value)) => if name == session_cookie_name() && value.len() > 0 {
            Some(value)
        } else {
            None
        },
        None => None,
    }
}

/// The token of the first part that carries one.
pub open spec fn first_cookie_token(parts: Seq<Seq<char>>) -> Option<Seq<char>>
    decreases parts.len(),
{
    if parts.len() == 0 {
        None
    } else {
        match cookie_part_token(parts[0]) {
            Some(t) => Some(t),
            None => first_cookie_token(parts.drop_first()),
        }
    }
}

/// The session token that a `Cookie` header carries, if any.
pub open spec fn spec_session_token(header: Seq<char>) -> Option<Seq<char>> {
    first_cookie_token(split(header, ';'))
}

/// The session token of an optional `Cookie` header.
pub open spec fn header_token(header: Option<&str>) -> Option<Seq<char>> {
    match header {
        Some(h) => spec_session_token(h@),
        None => None,
    }
}

/// The token carried by one part, read from `v[0..]`.
fn part_token(v: &Vec<char>, name: &Vec<char>) -> (r: Option<String>)
    requires
        name@ == session_cookie_name(),
    ensures
        opt_view(r) == cookie_part_token(v@),
{
    let (lo, hi) = trim_bounds(v);
    let ghost t = v@.subrange(lo as int, hi as int);
    match find_char(v, lo, hi, '=') {
        Some(k) => {
            proof {
                assert forall|j: int| 0 <= j < k - lo implies t[j] != '=' by {
                    assert(t[j] == v@[lo + j]);
                }
                assert(t[k - lo] == v@[k as int]);
                assert(first_at(t, '=', k - lo));
                lemma_split_once_at(t, '=', k - lo);
                assert(t.take(k - lo) =~= v@.subrange(lo as int, k as int));
                assert(t.skip(k - lo + 1) =~= v@.subrange(k + 1, hi as int));
            }
            if range_eq(v, lo, k, name) && k + 1 < hi {
                Some(string_of(v, k + 1, hi))
            } else {
                None
            }
        },
        None => {
            proof {
                assert forall|j: int| #![auto] 0 <= j < t.len() implies t[j] != '=' by {
                    assert(t[j] == v@[lo + j]);
                }
                assert(!exists|k: int| first_at(t, '=', k));
            }
            None
        },
    }
}

/// The session token that a `Cookie` header carries: the value of the first
/// `lily_nest_session=` part whose value is not empty.
pub fn extract_session_token(header: &str) -> (token: Option<String>)
    ensures
        opt_view(token) == spec_session_token(header@),
{
    let v = chars_of(header);
    let parts = split_chars(&v, ';');
    let name = chars_of("lily_nest_session");
    let ghost ps = views(parts@);
    let mut i: usize = 0;
    assert(ps.skip(0) =~= ps);
    while i < parts.len()
        invariant
            i <= parts.len(),
            ps == views(parts@),
            ps == split(header@, ';'),
            name@ == session_cookie_name(),
            first_cookie_token(ps) == first_cookie_token(ps.skip(i as int)),
        decreases parts.len() - i,
    {
        assert(ps[i as int] == parts[i as int]@);
        assert(ps.skip(i as int)[0] == ps[i as int]);
        match part_token(&parts[i], &name) {
            Some(t) => {
                assert(ps.skip(i as int).len() > 0);
                assert(cookie_part_token(ps.skip(i as int)[0]) == Some(t@));
                assert(first_cookie_token(ps.skip(i as int)) == Some(t@));
                return Some(t);
            },
            None => {
                assert(ps.skip(i as int).drop_first() =~= ps.skip(i + 1));
            },
        }
        i = i + 1;
    }
    assert(ps.skip(parts.len() as int) =~= Seq::<Seq<char>>::empty());
    None
}

/// The `Set-Cookie` value that hands out the session `token`.
pub fn build_session_cookie(token: &str) -> (cookie: String)
    ensures
        cookie@ == session_cookie_text(token@),
{
    let mut cookie = "lily_nest_session".to_owned();
    push_char(&mut cookie, '=');
    cookie.append(token);
    cookie.append("; Path=/; HttpOnly; SameSite=Lax");
    cookie
}

/// Reading the session token back out of the cookie that handed it out gives
/// the token, when the token is not empty, holds no ';' and does not end in
/// whitespace.
pub proof fn lemma_session_cookie_round_trip(token: Seq<char>)
    requires
        token.len() > 0,
        lacks(token, ';'),
        !crate::text::is_ws(token.last()),
    ensures
        spec_session_token(session_cookie_text(token)) == Some(token),
{
    reveal_strlit("lily_nest_session");
    reveal_strlit("; Path=/; HttpOnly; SameSite=Lax");
    let name = session_cookie_name();
    let first = name.push('=') + token;
    let attrs = session_cookie_attributes();
    let rest = attrs.drop_first();
    assert(attrs[0] == ';');
    assert(first.push(';') + rest =~= session_cookie_text(token));
    assert(lacks(first, ';')) by {
        assert forall|i: int| 0 <= i < first.len() implies first[i] != ';' by {
            if i >= 18 {
                assert(first[i] == token[i - 18]);
            }
        }
    }
    lemma_split_concat(first, rest, ';');
    lemma_split_lacking(first, ';');
    let ps = split(session_cookie_text(token), ';');
    assert(ps[0] == first);
    let n = first.len() as int;
    assert(!crate::text::is_ws(first[0]));
    assert(first[n - 1] == token.last());
    lemma_trim_range(first, 0, n);
    assert(first.subrange(0, n) =~= first);
    assert(first_at(first, '=', 17));
    lemma_split_once_at(first, '=', 17);
    assert(first.take(17) =~= name);
    assert(first.skip(18) =~= token);
}

/// A session token made by `create_session` survives the cookie round trip.
pub proof fn lemma_uuid_token_cookie_round_trip(token: Seq<char>)
    requires
        is_uuid_v4_text(token),
    ensures
        spec_session_token(session_cookie_text(token)) == Some(token),
{
    assert(lacks(token, ';')) by {
        assert forall|i: int| 0 <= i < token.len() implies token[i] != ';' by {
            if i == 8 || i == 13 || i == 18 || i == 23 {
            } else {
            }
        }
    }
    assert(token[35] == token.last());
    lemma_session_cookie_round_trip(token);
}

/// The session token of an optional `Cookie` header.
pub fn header_session_token(header: Option<&str>) -> (token: Option<String>)
    ensures
        opt_view(token) == header_token(header),
{
    match header {
        Some(h) => extract_session_token(h),
        None => None,
    }
}

/// Whether the session named by an optional `Cookie` header is open.
fn header_is_authenticated(auth: &AuthState, header: Option<&str>) -> (b: bool)
    ensures
        b == spec_is_authenticated(auth@, header_token(header)),
{
    match header_session_token(header) {
        Some(t) => auth.is_authenticated(Some(t.as_str())),
        None => auth.is_authenticated(None),
    }
}

/// The status answer for a caller: whether its cookie names an open session,
/// and whether the administrator password must still be set.
pub fn auth_status(auth: &AuthState, cookie_header: Option<&str>) -> (r: AuthStatusResponse)
    ensures
        r.authenticated == spec_is_authenticated(auth@, header_token(cookie_header)),
        r.setup_required == spec_requires_setup(auth@),
{
    AuthStatusResponse {
        authenticated: header_is_authenticated(auth, cookie_header),
        setup_required: auth.requires_setup(),
    }
}

/// Admits the caller whose cookie names an open session; refuses any other
/// with 401.
pub fn ensure_admin(auth: &AuthState, cookie_header: Option<&str>) -> (r: Result<(), ApiError>)
    ensures
        r is Ok <==> spec_is_authenticated(auth@, header_token(cookie_header)),
        r matches Err(e) ==> is_error(e, 401, "admin login required"@),
{
    if header_is_authenticated(auth, cookie_header) {
        Ok(())
    } else {
        Err(ApiError::unauthorized("admin login required".to_owned()))
    }
}

/// The outcome of a password setup request, before anything is stored: the
/// trimmed password to store, or the reason for refusing.
pub open spec fn spec_check_setup(
    v: AuthView,
    password: Seq<char>,
    confirm: Seq<char>,
) -> Result<Seq<char>, (u16, Seq<char>)> {
    let p = trim(password);
    if !spec_requires_setup(v) {
        Err((400u16, "admin password already configured"@))
    } else if crate::text::utf8_len(p) < 6 {
        Err((400u16, "admin password must be at least 6 characters"@))
    } else if p != trim(confirm) {
        Err((400u16, "password confirmation does not match"@))
    } else {
        Ok(p)
    }
}

/// A result with a `String` on success, seen as plain values.
pub open spec fn result_view(r: Result<String, ApiError>) -> Result<Seq<char>, (u16, Seq<char>)> {
    match r {
        Ok(s) => Ok(s@),
        Err(e) => Err((e.status, e.message@)),
    }
}

/// Checks a password setup request: no password may be set yet, the trimmed
/// password must be at least 6 bytes long and equal the trimmed confirmation.
/// Returns the trimmed password to store.
pub fn check_setup_request(auth: &AuthState, req: &crate::model::SetupPasswordRequest) -> (r: Result<
    String,
    ApiError,
>)
    ensures
        result_view(r) == spec_check_setup(auth@, req.password@, req.confirm_password@),
{
    if !auth.requires_setup() {
        return Err(ApiError::bad_request("admin password already configured".to_owned()));
    }
    let password = crate::text::trim_str(req.password.as_str());
    let confirm = crate::text::trim_str(req.confirm_password.as_str());
    if crate::text::utf8_len_below(password.as_str(), 6) {
        return Err(
            ApiError::bad_request("admin password must be at least 6 characters".to_owned()),
        );
    }
    if password != confirm {
        return Err(ApiError::bad_request("password confirmation does not match".to_owned()));
    }
    Ok(password)
}

/// Finishes a password setup once the store has answered whether it kept the
/// password: if it did not, refuses with 400 and changes nothing; if it did,
/// sets the password, opens a session and returns the cookie that hands it out.
pub fn finish_setup(auth: &mut AuthState, password: String, persisted: bool) -> (r: Result<
    String,
    ApiError,
>)
    ensures
        !persisted ==> final(auth)@ == old(auth)@ && err_is(r, 400, "admin password already configured"@),
        persisted ==> r is Ok && exists|t: Seq<char>|
            {
                &&& is_uuid_v4_text(t)
                &&& r->Ok_0@ == #[trigger] session_cookie_text(t)
                &&& final(auth)@ == spec_open_session(
                    spec_set_password_if_unset(old(auth)@, password@).0,
                    t,
                )
            },
{
    if !persisted {
        return Err(ApiError::bad_request("admin password already configured".to_owned()));
    }
    let _ = auth.set_password_if_unset(password);
    let token = auth.create_session();
    let cookie = build_session_cookie(token.as_str());
    assert(cookie@ == session_cookie_text(token@));
    Ok(cookie)
}

/// Logs in: refuses with 400 while no password is set, with 401 when the
/// trimmed password is wrong; otherwise opens a session and returns the cookie
/// that hands it out.
pub fn login(auth: &mut AuthState, req: &crate::model::LoginRequest) -> (r: Result<
    String,
    ApiError,
>)
    ensures
        spec_requires_setup(old(auth)@) ==> final(auth)@ == old(auth)@ && err_is(r, 400, "admin password has not been configured yet"@),
        !spec_requires_setup(old(auth)@) && !spec_verify_password(old(auth)@, trim(req.password@))
            ==> final(auth)@ == old(auth)@ && err_is(r, 401, "invalid admin password"@),
        !spec_requires_setup(old(auth)@) && spec_verify_password(old(auth)@, trim(req.password@))
            ==> r is Ok && exists|t: Seq<char>|
            {
                &&& is_uuid_v4_text(t)
                &&& r->Ok_0@ == #[trigger] session_cookie_text(t)
                &&& final(auth)@ == spec_open_session(old(auth)@, t)
            },
{
    if auth.requires_setup() {
        return Err(
            ApiError::bad_request("admin password has not been configured yet".to_owned()),
        );
    }
    let given = crate::text::trim_str(req.password.as_str());
    if !auth.verify_password(given.as_str()) {
        return Err(ApiError::unauthorized("invalid admin password".to_owned()));
    }
    let token = auth.create_session();
    let cookie = build_session_cookie(token.as_str());
    assert(cookie@ == session_cookie_text(token@));
    Ok(cookie)
}

/// The `Set-Cookie` value that ends the session on logout.
pub const EXPIRED_SESSION_COOKIE: &'static str = "lily_nest_session=; Path=/; Max-Age=0; HttpOnly; SameSite=Lax";

/// Logs out: closes the session that the cookie names, if any, and answers
/// that the caller is not logged in.
pub fn logout(auth: &mut AuthState, cookie_header: Option<&str>) -> (r: AuthStatusResponse)
    ensures
        final(auth)@ == match header_token(cookie_header) {
            Some(t) => spec_revoke_session(old(auth)@, t),
            None => old(auth)@,
        },
        !r.authenticated,
        r.setup_required == spec_requires_setup(old(auth)@),
{
    if let Some(token) = header_session_token(cookie_header) {
        auth.revoke_session(token.as_str());
    }
    AuthStatusResponse { authenticated: false, setup_required: auth.requires_setup() }
}

/// `s` cut to its first `n` characters.
pub open spec fn at_most(s: Seq<char>, n: nat) -> Seq<char> {
    if s.len() <= n {
        s
    } else {
        s.take(n as int)
    }
}

/// The tags of an update request: the comma-separated pieces trimmed, the
/// empty ones left out, the first 16 kept, each cut to 24 characters.
pub open spec fn spec_normalize_tags(raw: Seq<char>) -> Seq<Seq<char>> {
    let c = trimmed_nonempty(split(raw, ','));
    let n = if c.len() <= 16 {
        c.len()
    } else {
        16
    };
    Seq::new(n, |i: int| at_most(c[i], 24))
}

/// Reads the tags of an update request.
pub fn normalize_tags(raw: &str) -> (tags: Vec<String>)
    ensures
        string_views(tags@) == spec_normalize_tags(raw@),
{
    let v = chars_of(raw);
    let pieces = split_chars(&v, ',');
    let ghost ps = views(pieces@);
    let mut out: Vec<String> = Vec::new();
    let mut k: usize = 0;
    assert(ps.take(0) =~= Seq::<Seq<char>>::empty());
    assert(string_views(out@) =~= Seq::<Seq<char>>::empty());
    while k < pieces.len()
        invariant
            k <= pieces.len(),
            ps == views(pieces@),
            ps == split(raw@, ','),
            out@.len() <= 16,
            out@.len() == (if trimmed_nonempty(ps.take(k as int)).len() <= 16 {
                trimmed_nonempty(ps.take(k as int)).len()
            } else {
                16
            }),
            forall|i: int|
                0 <= i < out@.len() ==> (#[trigger] out@[i])@ == at_most(
                    trimmed_nonempty(ps.take(k as int))[i],
                    24,
                ),
        decreases pieces.len() - k,
    {
        let piece = &pieces[k];
        let (lo, hi) = trim_bounds(piece);
        assert(ps[k as int] == piece@);
        assert(ps.take(k + 1).drop_last() =~= ps.take(k as int));
        assert(ps.take(k + 1).last() == piece@);
        let ghost prev = trimmed_nonempty(ps.take(k as int));
        if lo < hi {
            let ghost t = piece@.subrange(lo as int, hi as int);
            assert(trimmed_nonempty(ps.take(k + 1)) == prev.push(t));
            if out.len() < 16 {
                let end = if hi - lo <= 24 {
                    hi
                } else {
                    lo + 24
                };
                let cut = string_of(piece, lo, end);
                assert(cut@ == at_most(t, 24)) by {
                    if hi - lo > 24 {
                        assert(t.take(24) =~= piece@.subrange(lo as int, end as int));
                    }
                }
                let ghost before = out@;
                out.push(cut);
                assert forall|i: int| 0 <= i < out@.len() implies (#[trigger] out@[i])@ == at_most(
                    prev.push(t)[i],
                    24,
                ) by {
                    if i < before.len() {
                        assert(out@[i] == before[i]);
                    }
                }
            } else {
                assert forall|i: int| 0 <= i < out@.len() implies (#[trigger] out@[i])@ == at_most(
                    prev.push(t)[i],
                    24,
                ) by {
                    assert(prev.push(t)[i] == prev[i]);
                }
            }
        }
        k = k + 1;
    }
    assert(ps.take(pieces.len() as int) =~= ps);
    assert(string_views(out@) =~= spec_normalize_tags(raw@));
    out
}

/// The tags of an update request are at most 16, each 1 to 24 characters
/// long, none holding a comma.
pub proof fn lemma_normalized_tags_bounded(raw: Seq<char>)
    ensures
        spec_normalize_tags(raw).len() <= 16,
        forall|i: int|
            0 <= i < spec_normalize_tags(raw).len() ==> {
                &&& 1 <= (#[trigger] spec_normalize_tags(raw)[i]).len() <= 24
                &&& lacks(spec_normalize_tags(raw)[i], ',')
            },
{
    let ps = split(raw, ',');
    lemma_split_pieces_lack(raw, ',');
    lemma_trimmed_nonempty_props(ps, ',');
    let c = trimmed_nonempty(ps);
    assert forall|i: int| 0 <= i < spec_normalize_tags(raw).len() implies {
        &&& 1 <= (#[trigger] spec_normalize_tags(raw)[i]).len() <= 24
        &&& lacks(spec_normalize_tags(raw)[i], ',')
    } by {
        assert(lacks(c[i], ','));
        assert(c[i].len() > 0);
        let t = spec_normalize_tags(raw)[i];
        assert forall|j: int| 0 <= j < t.len() implies t[j] != ',' by {
            assert(t[j] == c[i][j]);
        }
    }
}

/// The text that titles a photo uploaded without title or file name.
pub open spec fn untitled_photo_prefix() -> Seq<char> {
    "未命名照片 "@
}

/// The title given to the photo at `index` (from 0) of an upload: the upload's
/// title, numbered from 1 when the upload holds several photos; without one,
/// the file name unless it is blank; without that, a numbered placeholder.
pub open spec fn spec_derive_title(
    base_title: Seq<char>,
    filename: Option<Seq<char>>,
    multiple: bool,
    index: nat,
) -> Seq<char> {
    if base_title.len() > 0 {
        if multiple {
            base_title.push(' ') + decimal(index + 1)
        } else {
            base_title
        }
    } else {
        match filename {
            Some(f) => if trim(f).len() > 0 {
                f
            } else {
                untitled_photo_prefix() + decimal(index + 1)
            },
            None => untitled_photo_prefix() + decimal(index + 1),
        }
    }
}

/// The title given to the photo at `index` (from 0) of an upload.
pub fn derive_title(base_title: &str, filename: Option<&str>, multiple: bool, index: usize) -> (title: String)
    ensures
        title@ == spec_derive_title(base_title@, opt_str_view(filename), multiple, index as nat),
{
    if !base_title.is_empty() {
        if multiple {
            let mut t = base_title.to_owned();
            push_char(&mut t, ' ');
            push_decimal(&mut t, index as u128 + 1);
            t
        } else {
            base_title.to_owned()
        }
    } else {
        if let Some(name) = filename {
            let v = chars_of(name);
            let (lo, hi) = trim_bounds(&v);
            if lo < hi {
                return name.to_owned();
            }
        }
        let mut t = "未命名照片 ".to_owned();
        push_decimal(&mut t, index as u128 + 1);
        t
    }
}

/// A photo's title is never empty.
pub proof fn lemma_derived_title_nonempty(
    base_title: Seq<char>,
    filename: Option<Seq<char>>,
    multiple: bool,
    index: nat,
)
    ensures
        spec_derive_title(base_title, filename, multiple, index).len() > 0,
{
    lemma_decimal_nonempty(index + 1);
    if let Some(f) = filename {
        if trim(f).len() > 0 {
            lemma_trim_bounds(f);
        }
    }
}

/// The address of a photo's content.
pub open spec fn spec_content_url(id: i64) -> Seq<char> {
    "/api/v1/photos/"@ + signed_decimal(id as int) + "/content"@
}

/// The address of a photo's content: `/api/v1/photos/{id}/content`.
pub fn content_url(id: i64) -> (url: String)
    ensures
        url@ == spec_content_url(id),
{
    let mut url = "/api/v1/photos/".to_owned();
    push_signed_decimal(&mut url, id);
    url.append("/content");
    url
}

/// The listing entry of a stored photo.
pub fn photo_summary(photo: PhotoRecord) -> (s: PhotoSummary)
    ensures
        s.id == photo.id,
        s.title == photo.title,
        s.description == photo.description,
        s.tags == photo.tags,
        s.filename == photo.filename,
        s.mime_type == photo.mime_type,
        s.created_at == photo.created_at,
        s.byte_size == photo.data@.len(),
        s.content_url@ == spec_content_url(photo.id),
{
    let byte_size = photo.data.len();
    let url = content_url(photo.id);
    PhotoSummary {
        id: photo.id,
        title: photo.title,
        description: photo.description,
        tags: photo.tags,
        filename: photo.filename,
        mime_type: photo.mime_type,
        created_at: photo.created_at,
        byte_size,
        content_url: url,
    }
}

/// The entry of an upload's answer for a stored photo.
pub fn uploaded_item(photo: &PhotoRecord) -> (item: UploadedPhotoItem)
    ensures
        item.id == photo.id,
        item.title@ == photo.title@,
        item.content_url@ == spec_content_url(photo.id),
{
    UploadedPhotoItem { id: photo.id, title: photo.title.clone(), content_url: content_url(photo.id) }
}

/// The header names and values that every answer carries.
pub open spec fn spec_security_headers() -> Seq<(Seq<char>, Seq<char>)> {
    seq![
        ("x-content-type-options"@, "nosniff"@),
        ("referrer-policy"@, "strict-origin-when-cross-origin"@),
        ("x-frame-options"@, "DENY"@),
        ("permissions-policy"@, "geolocation=(), microphone=(), camera=()"@),
        ("content-security-policy"@, "default-src 'self'; script-src 'self'; style-src 'self'; img-src 'self' data:; connect-src 'self'; object-src 'none'; base-uri 'self'; form-action 'self'; frame-ancestors 'none'"@),
    ]
}

/// The header names and values that every answer carries.
pub fn security_headers() -> (headers: Vec<(&'static str, &'static str)>)
    ensures
        headers@.map_values(|h: (&'static str, &'static str)| (h.0@, h.1@))
            == spec_security_headers(),
{
    let mut headers: Vec<(&'static str, &'static str)> = Vec::new();
    headers.push(("x-content-type-options", "nosniff"));
    headers.push(("referrer-policy", "strict-origin-when-cross-origin"));
    headers.push(("x-frame-options", "DENY"));
    headers.push(("permissions-policy", "geolocation=(), microphone=(), camera=()"));
    headers.push(
        (
            "content-security-policy",
            "default-src 'self'; script-src 'self'; style-src 'self'; img-src 'self' data:; connect-src 'self'; object-src 'none'; base-uri 'self'; form-action 'self'; frame-ancestors 'none'",
        ),
    );
    assert(headers@.map_values(|h: (&'static str, &'static str)| (h.0@, h.1@))
        =~= spec_security_headers());
    headers
}

/// The new title, description and tags of a photo, read from an update request.
pub struct PhotoEdit {
    pub title: String,
    pub description: String,
    pub tags: Vec<String>,
}

/// Reads an update request: refuses with 400 when the trimmed title is empty;
/// otherwise gives the trimmed title, the trimmed description and the tags.
pub fn check_update_request(req: &UpdatePhotoRequest) -> (r: Result<PhotoEdit, ApiError>)
    ensures
        r is Err <==> trim(req.title@).len() == 0,
        r is Err ==> err_is(r, 400, "title cannot be empty"@),
        r matches Ok(edit) ==> {
            &&& edit.title@ == trim(req.title@)
            &&& edit.description@ == trim(req.description@)
            &&& string_views(edit.tags@) == spec_normalize_tags(req.tags@)
        },
{
    let title = crate::text::trim_str(req.title.as_str());
    if title.as_str().is_empty() {
        return Err(ApiError::bad_request("title cannot be empty".to_owned()));
    }
    Ok(
        PhotoEdit {
            title,
            description: crate::text::trim_str(req.description.as_str()),
            tags: normalize_tags(req.tags.as_str()),
        },
    )
}

/// What an upload applies to each of its photos.
pub struct UploadPlan {
    pub title: String,
    pub description: String,
    pub multiple: bool,
}

/// The text of an optional form field, empty when it is missing.
pub open spec fn or_empty(o: Option<String>) -> Seq<char> {
    match o {
        Some(s) => s@,
        None => Seq::<char>::empty(),
    }
}

/// Starts an upload once its form is read: refuses with 400 when it holds no
/// photo; otherwise gives the trimmed title (empty when missing), the trimmed
/// description and whether there are several photos.
pub fn begin_upload(title: Option<String>, description: String, upload_count: usize) -> (r: Result<
    UploadPlan,
    ApiError,
>)
    ensures
        r is Err <==> upload_count == 0,
        r is Err ==> err_is(r, 400, "missing photo file"@),
        r matches Ok(plan) ==> {
            &&& plan.title@ == trim(or_empty(title))
            &&& plan.description@ == trim(description@)
            &&& plan.multiple == (upload_count > 1)
        },
{
    if upload_count == 0 {
        return Err(ApiError::bad_request("missing photo file".to_owned()));
    }
    let raw_title = match title {
        Some(t) => t,
        None => String::new(),
    };
    Ok(
        UploadPlan {
            title: crate::text::trim_str(raw_title.as_str()),
            description: crate::text::trim_str(description.as_str()),
            multiple: upload_count > 1,
        },
    )
}

/// Whether `s` begins with `prefix`.
pub open spec fn has_prefix(s: Seq<char>, prefix: Seq<char>) -> bool {
    prefix.len() <= s.len() && s.take(prefix.len() as int) == prefix
}

/// Whether a content type names an image (`image/...`).
pub fn is_image_type(mime_type: &str) -> (b: bool)
    ensures
        b == has_prefix(mime_type@, "image/"@),
{
    let v = chars_of(mime_type);
    let p = chars_of("image/");
    if p.len() > v.len() {
        return false;
    }
    let b = range_eq(&v, 0, p.len(), &p);
    assert(v@.subrange(0, p.len() as int) =~= v@.take(p.len() as int));
    b
}

/// Checks one photo of an upload and gives its title: refuses with 400 when
/// its content type is missing or names no image.
pub fn upload_item_title(
    plan: &UploadPlan,
    filename: Option<&str>,
    mime_type: Option<&str>,
    index: usize,
) -> (r: Result<String, ApiError>)
    ensures
        mime_type is None ==> err_is(r, 400, "missing image content type"@),
        mime_type matches Some(m) && !has_prefix(m@, "image/"@) ==> err_is(
            r,
            400,
            "only image uploads are supported"@,
        ),
        mime_type matches Some(m) && has_prefix(m@, "image/"@) ==> (r matches Ok(t) && t@
            == spec_derive_title(plan.title@, opt_str_view(filename), plan.multiple, index as nat)),
{
    match mime_type {
        None => Err(ApiError::bad_request("missing image content type".to_owned())),
        Some(m) => {
            if !is_image_type(m) {
                Err(ApiError::bad_request("only image uploads are supported".to_owned()))
            } else {
                Ok(derive_title(plan.title.as_str(), filename, plan.multiple, index))
            }
        },
    }
}

/// What an upload form field carries, by its name.
pub enum UploadField {
    Title,
    Description,
    Photo,
    Ignored,
}

/// Tells what an upload form field carries: `title`, `description` and
/// `photo` are read, any other name is skipped.
pub fn classify_upload_field(name: &str) -> (f: UploadField)
    ensures
        f is Title <==> name@ == "title"@,
        f is Description <==> name@ == "description"@,
        f is Photo <==> name@ == "photo"@,
{
    let n = name.to_owned();
    proof {
        reveal_strlit("title");
        reveal_strlit("description");
        reveal_strlit("photo");
        assert("title"@.len() == 5);
        assert("description"@.len() == 11);
        assert("photo"@.len() == 5);
        assert("title"@[0] != "photo"@[0]);
    }
    if n == "title".to_owned() {
        UploadField::Title
    } else if n == "description".to_owned() {
        UploadField::Description
    } else if n == "photo".to_owned() {
        UploadField::Photo
    } else {
        UploadField::Ignored
    }
}

impl From<String> for ApiError {
    /// An error carrying a message from the store or the session table is an
    /// internal one.
    fn from(value: String) -> (e: Self) {
        ApiError::internal(value)
    }
}

impl vstd::std_specs::convert::FromSpecImpl<String> for ApiError {
    open spec fn obeys_from_spec() -> bool {
        true
    }

    open spec fn from_spec(v: String) -> Self {
        ApiError { status: 500, message: v }
    }
}

/// The cookie that a login or setup hands out names a session that the new
/// state accepts: a caller that sends it back is authenticated.
pub proof fn lemma_granted_cookie_authenticates(v: AuthView, t: Seq<char>)
    requires
        is_uuid_v4_text(t),
    ensures
        spec_session_token(session_cookie_text(t)) == Some(t),
        spec_is_authenticated(spec_open_session(v, t), spec_session_token(session_cookie_text(t))),
{
    lemma_uuid_token_cookie_round_trip(t);
}

/// After a logout, the cookie that was sent no longer authenticates.
pub proof fn lemma_logout_ends_session(v: AuthView, header: Option<&str>)
    ensures
        !spec_is_authenticated(
            match header_token(header) {
                Some(t) => spec_revoke_session(v, t),
                None => v,
            },
            header_token(header),
        ),
{
}

/// A password setup is accepted only for a state without password and a
/// trimmed password of at least 6 bytes that equals the trimmed confirmation,
/// and what is accepted is that trimmed password; a confirmation that differs
/// is refused with 400 "password confirmation does not match".
pub proof fn lemma_setup_accepts_only_matching_passwords(
    v: AuthView,
    password: Seq<char>,
    confirm: Seq<char>,
)
    ensures
        spec_check_setup(v, password, confirm) matches Ok(p) ==> {
            &&& spec_requires_setup(v)
            &&& p == trim(password)
            &&& p == trim(confirm)
            &&& crate::text::utf8_len(p) >= 6
        },
        spec_requires_setup(v) && crate::text::utf8_len(trim(password)) >= 6 && trim(password)
            != trim(confirm) ==> spec_check_setup(v, password, confirm) == Err::<Seq<char>, (u16, Seq<char>)>(
            (400u16, "password confirmation does not match"@),
        ),
        spec_requires_setup(v) && crate::text::utf8_len(trim(password)) >= 6 && trim(password)
            == trim(confirm) ==> spec_check_setup(v, password, confirm) == Ok::<Seq<char>, (u16, Seq<char>)>(trim(password)),
        !spec_requires_setup(v) ==> spec_check_setup(v, password, confirm) == Err::<Seq<char>, (u16, Seq<char>)>(
            (400u16, "admin password already configured"@),
        ),
        spec_requires_setup(v) && crate::text::utf8_len(trim(password)) < 6 ==> spec_check_setup(v, password, confirm) == Err::<Seq<char>, (u16, Seq<char>)>(
            (400u16, "admin password must be at least 6 characters"@),
        ),
        crate::text::utf8_len(trim(password)) == vstd::utf8::encode_utf8(trim(password)).len(),
{
    crate::text::lemma_utf8_len_is_encoding_len(trim(password));
}

/// A titled upload of one photo gives the photo exactly the upload's title,
/// whatever its file name; a titled upload of several photos gives each the
/// title, a space and a number, different numbers for different photos; an
/// untitled upload keeps a file name that is not blank.
pub proof fn lemma_derived_title_follows_upload_title(
    base_title: Seq<char>,
    filename: Option<Seq<char>>,
    other_filename: Option<Seq<char>>,
    index: nat,
    other_index: nat,
    multiple: bool,
)
    ensures
        base_title.len() > 0 ==> spec_derive_title(base_title, filename, false, index)
            == base_title,
        base_title.len() > 0 ==> {
            let t = spec_derive_title(base_title, filename, true, index);
            &&& t.len() > base_title.len()
            &&& t.take(base_title.len() as int) == base_title
            &&& t[base_title.len() as int] == ' '
        },
        base_title.len() > 0 && index != other_index ==> spec_derive_title(
            base_title,
            filename,
            true,
            index,
        ) != spec_derive_title(base_title, other_filename, true, other_index),
        base_title.len() > 0 ==> crate::text::decimal_value(
            spec_derive_title(base_title, filename, true, index).skip(base_title.len() as int + 1),
        ) == index + 1,
        base_title.len() == 0 && filename is Some && trim(filename->Some_0).len() > 0 ==> spec_derive_title(
            base_title,
            filename,
            multiple,
            index,
        ) == filename->Some_0,
        base_title.len() == 0 && (filename is None || trim(filename->Some_0).len() == 0) ==> {
            let t = spec_derive_title(base_title, filename, multiple, index);
            &&& t.len() > 6
            &&& t.take(6) == "未命名照片 "@
            &&& crate::text::decimal_value(t.skip(6)) == index + 1
        },
{
    reveal_strlit("未命名照片 ");
    lemma_decimal_nonempty(index + 1);
    crate::text::lemma_decimal_value(index + 1);
    if base_title.len() == 0 && (filename is None || trim(filename->Some_0).len() == 0) {
        let t = spec_derive_title(base_title, filename, multiple, index);
        assert(t.take(6) =~= "未命名照片 "@);
        assert(t.skip(6) =~= decimal(index + 1));
    }
    if base_title.len() > 0 {
        let n = base_title.len() as int;
        let t = spec_derive_title(base_title, filename, true, index);
        assert(t.take(n) =~= base_title);
        assert(t.skip(n + 1) =~= decimal(index + 1));
        if index != other_index {
            let u = spec_derive_title(base_title, other_filename, true, other_index);
            if t == u {
                assert(t.skip(n + 1) =~= decimal(index + 1));
                assert(u.skip(n + 1) =~= decimal(other_index + 1));
                crate::text::lemma_decimal_injective(index + 1, other_index + 1);
            }
        }
    }
}

/// The address of a photo's content names the photo: different ids give
/// different addresses, and the address is `/api/v1/photos/`, the id's digits
/// (for a non-negative id, reading them back gives the id) and `/content`.
pub proof fn lemma_content_url_names_the_photo(a: i64, b: i64)
    ensures
        spec_content_url(a) == spec_content_url(b) ==> a == b,
        spec_content_url(a).len() > 23,
        spec_content_url(a).take(15) == "/api/v1/photos/"@,
        spec_content_url(a).skip(spec_content_url(a).len() - 8) == "/content"@,
        a >= 0 ==> {
            let mid = spec_content_url(a).subrange(15, spec_content_url(a).len() - 8);
            &&& crate::text::decimal_value(mid) == a
            &&& forall|i: int| 0 <= i < mid.len() ==> '0' <= #[trigger] mid[i] <= '9'
        },
{
    reveal_strlit("/api/v1/photos/");
    reveal_strlit("/content");
    let p = "/api/v1/photos/"@;
    let q = "/content"@;
    let sa = signed_decimal(a as int);
    let sb = signed_decimal(b as int);
    let ua = spec_content_url(a);
    let ub = spec_content_url(b);
    let ai = a as int;
    lemma_decimal_nonempty((if ai < 0 { -ai } else { ai }) as nat);
    assert(ua.take(15) =~= p);
    assert(ua.skip(ua.len() - 8) =~= q);
    assert(ua.subrange(15, ua.len() - 8) =~= sa);
    assert(ub.subrange(15, ub.len() - 8) =~= sb);
    if ua == ub {
        crate::text::lemma_signed_decimal_injective(a as int, b as int);
    }
    if a >= 0 {
        crate::text::lemma_decimal_value(a as nat);
    }
}

/// Whether some part carries a session token splits over a concatenation:
/// the first list's token if it has one, else the second's.
pub proof fn lemma_first_cookie_token_concat(a: Seq<Seq<char>>, b: Seq<Seq<char>>)
    ensures
        first_cookie_token(a + b) == match first_cookie_token(a) {
            Some(t) => Some(t),
            None => first_cookie_token(b),
        },
    decreases a.len(),
{
    if a.len() == 0 {
        assert(a + b =~= b);
    } else {
        lemma_first_cookie_token_concat(a.drop_first(), b);
        assert((a + b).drop_first() =~= a.drop_first() + b);
        assert((a + b)[0] == a[0]);
    }
}

/// A cookie part `lily_nest_session=T`, after any whitespace, carries `T`.
pub proof fn lemma_session_cookie_part(pad: Seq<char>, token: Seq<char>)
    requires
        forall|i: int| 0 <= i < pad.len() ==> crate::text::is_ws(#[trigger] pad[i]),
        token.len() > 0,
        lacks(token, ';'),
        !crate::text::is_ws(token.last()),
    ensures
        cookie_part_token(pad + session_cookie_name().push('=') + token) == Some(token),
        lacks(pad + session_cookie_name().push('=') + token, ';'),
{
    reveal_strlit("lily_nest_session");
    let name = session_cookie_name();
    let first = name.push('=') + token;
    let part = pad + first;
    assert(part =~= pad + session_cookie_name().push('=') + token);
    let m = pad.len() as int;
    let n = part.len() as int;
    assert forall|i: int| 0 <= i < n implies part[i] != ';' by {
        if i >= m + 18 {
            assert(part[i] == token[i - m - 18]);
        } else if i < m {
            assert(crate::text::is_ws(pad[i]));
        }
    }
    assert forall|j: int| 0 <= j < m implies crate::text::is_ws(#[trigger] part[j]) by {
        assert(part[j] == pad[j]);
    }
    assert(part[m] == first[0]);
    assert(!crate::text::is_ws(first[0]));
    assert(part[n - 1] == token.last());
    lemma_trim_range(part, m, n);
    assert(part.subrange(m, n) =~= first);
    assert(first_at(first, '=', 17));
    lemma_split_once_at(first, '=', 17);
    assert(first.take(17) =~= name);
    assert(first.skip(18) =~= token);
}

/// The session token is found wherever its cookie stands: after any cookies
/// that carry none, a `lily_nest_session=T` part gives `T`; and once a header
/// carries a token, cookies appended after it do not change it.
pub proof fn lemma_session_token_after_other_cookies(
    header: Seq<char>,
    pad: Seq<char>,
    token: Seq<char>,
    rest: Seq<char>,
)
    requires
        forall|i: int| 0 <= i < pad.len() ==> crate::text::is_ws(#[trigger] pad[i]),
        token.len() > 0,
        lacks(token, ';'),
        !crate::text::is_ws(token.last()),
    ensures
        spec_session_token(header) is None ==> spec_session_token(
            header.push(';') + pad + session_cookie_name().push('=') + token,
        ) == Some(token),
        spec_session_token(header) is Some ==> spec_session_token(header.push(';') + rest)
            == spec_session_token(header),
{
    let part = pad + session_cookie_name().push('=') + token;
    lemma_session_cookie_part(pad, token);
    lemma_split_lacking(part, ';');
    assert(header.push(';') + pad + session_cookie_name().push('=') + token =~= header.push(';')
        + part);
    lemma_split_concat(header, part, ';');
    lemma_first_cookie_token_concat(split(header, ';'), seq![part]);
    assert(seq![part].drop_first() =~= Seq::<Seq<char>>::empty());
    lemma_split_concat(header, rest, ';');
    lemma_first_cookie_token_concat(split(header, ';'), split(rest, ';'));
}

/// A token that a list of cookie parts yields is not empty and comes from a
/// part that reads, once trimmed, exactly `lily_nest_session=` and the token.
pub proof fn lemma_session_token_source(parts: Seq<Seq<char>>)
    ensures
        first_cookie_token(parts) matches Some(t) ==> {
            &&& t.len() > 0
            &&& exists|i: int|
                0 <= i < parts.len() && trim(#[trigger] parts[i]) == session_cookie_name().push('=')
                    + t
        },
    decreases parts.len(),
{
    if parts.len() > 0 {
        lemma_session_token_source(parts.drop_first());
        let p = trim(parts[0]);
        match cookie_part_token(parts[0]) {
            Some(t) => {
                reveal_strlit("lily_nest_session");
                let k = choose|k: int| first_at(p, '=', k);
                lemma_split_once_at(p, '=', k);
                assert(p.take(k) == session_cookie_name());
                assert(p =~= p.take(k).push('=') + p.skip(k + 1));
            },
            None => {
                if let Some(t) = first_cookie_token(parts.drop_first()) {
                    let i = choose|i: int|
                        0 <= i < parts.drop_first().len() && trim(
                            #[trigger] parts.drop_first()[i],
                        ) == session_cookie_name().push('=') + t;
                    assert(parts[i + 1] == parts.drop_first()[i]);
                }
            },
        }
    }
}

/// The token read from a `Cookie` header is not empty and is the value of one
/// of its `;`-separated parts that reads `lily_nest_session=` and the token.
pub proof fn lemma_header_token_source(header: Seq<char>)
    ensures
        spec_session_token(header) matches Some(t) ==> {
            &&& t.len() > 0
            &&& exists|i: int|
                0 <= i < split(header, ';').len() && trim(#[trigger] split(header, ';')[i])
                    == session_cookie_name().push('=') + t
        },
{
    lemma_session_token_source(split(header, ';'));
}

} // verus!
